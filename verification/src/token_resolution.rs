//! Merging token documents and resolving aliases to literal values.
//!
//! A token path resolves when following its aliases reaches a literal whose
//! type matches every declaration on the way. The meaning of "resolves" is
//! given by [`ranked_resolution`]: an assignment of values to paths that
//! agrees with every declaration and that is well founded, in that an alias
//! always points to a path of smaller rank.
use crate::compiled::ResolvedTokens;
use crate::path_map::{has_path, PathMap};
use crate::semantic_errors::{CompileError, CompileErrors};
use crate::token_model::{value_kind, TokenDefinition, TokenDocument, TokenExpression, TokenKind, TokenValue};
use crate::token_path::TokenPath;
use vstd::prelude::*;

verus! {

/// Every declaration of every document, in document order.
pub open spec fn all_definitions(docs: Seq<TokenDocument>) -> Seq<TokenDefinition>
    decreases docs.len(),
{
    if docs.len() == 0 {
        Seq::empty()
    } else {
        all_definitions(docs.drop_last()) + docs.last().tokens_of()
    }
}

/// The first declaration of each path.
pub open spec fn first_definitions(defs: Seq<TokenDefinition>) -> Map<
    Seq<Seq<char>>,
    TokenDefinition,
>
    decreases defs.len(),
{
    if defs.len() == 0 {
        Map::empty()
    } else {
        let earlier = first_definitions(defs.drop_last());
        if earlier.contains_key(defs.last().path_of()@) {
            earlier
        } else {
            earlier.insert(defs.last().path_of()@, defs.last())
        }
    }
}

/// The paths of the declarations that repeat an earlier path, in order.
pub open spec fn duplicate_paths(defs: Seq<TokenDefinition>) -> Seq<Seq<Seq<char>>>
    decreases defs.len(),
{
    if defs.len() == 0 {
        Seq::empty()
    } else {
        let earlier = duplicate_paths(defs.drop_last());
        if first_definitions(defs.drop_last()).contains_key(defs.last().path_of()@) {
            earlier.push(defs.last().path_of()@)
        } else {
            earlier
        }
    }
}

/// Whether two declarations declare the same thing.
pub open spec fn same_declaration(a: TokenDefinition, b: TokenDefinition) -> bool {
    &&& a.path_of()@ == b.path_of()@
    &&& a.kind_of() == b.kind_of()
    &&& a.expression_of().same_as(b.expression_of())
}

/// Whether a declaration is an alias of `target`.
pub open spec fn aliases_to(d: TokenDefinition, target: Seq<Seq<char>>) -> bool {
    d.expression_of() matches TokenExpression::Alias(t) && t@ == target
}

/// The value of `p` agrees with its declaration `d`.
pub open spec fn settles(
    d: TokenDefinition,
    values: Map<Seq<Seq<char>>, TokenValue>,
    rank: Map<Seq<Seq<char>>, nat>,
    p: Seq<Seq<char>>,
) -> bool {
    match d.expression_of() {
        TokenExpression::Literal(v) => values[p] == v,
        TokenExpression::Alias(t) => {
            &&& values.contains_key(t@)
            &&& rank.contains_key(t@)
            &&& rank[t@] < rank[p]
            &&& values[p] == values[t@]
            &&& value_kind(values[t@]) == d.kind_of()
        },
    }
}

/// `values` gives declared paths values that agree with their declarations,
/// and `rank` shows that following aliases terminates.
pub open spec fn ranked_resolution(
    decls: Map<Seq<Seq<char>>, TokenDefinition>,
    values: Map<Seq<Seq<char>>, TokenValue>,
    rank: Map<Seq<Seq<char>>, nat>,
) -> bool {
    forall|p: Seq<Seq<char>>|
        #[trigger] values.contains_key(p) ==> decls.contains_key(p) && rank.contains_key(p)
            && settles(decls[p], values, rank, p)
}

/// Whether some ranked resolution gives `p` a value.
pub open spec fn resolvable(decls: Map<Seq<Seq<char>>, TokenDefinition>, p: Seq<Seq<char>>) -> bool {
    exists|values: Map<Seq<Seq<char>>, TokenValue>, rank: Map<Seq<Seq<char>>, nat>|
        #[trigger] ranked_resolution(decls, values, rank) && values.contains_key(p)
}

/// `values` resolves every declared path.
pub open spec fn full_resolution(
    decls: Map<Seq<Seq<char>>, TokenDefinition>,
    values: Map<Seq<Seq<char>>, TokenValue>,
) -> bool {
    &&& values.dom() == decls.dom()
    &&& exists|rank: Map<Seq<Seq<char>>, nat>| #[trigger] ranked_resolution(decls, values, rank)
}

/// Two ranked resolutions agree on every path that both resolve.
pub proof fn lemma_resolution_unique(
    decls: Map<Seq<Seq<char>>, TokenDefinition>,
    values1: Map<Seq<Seq<char>>, TokenValue>,
    rank1: Map<Seq<Seq<char>>, nat>,
    values2: Map<Seq<Seq<char>>, TokenValue>,
    rank2: Map<Seq<Seq<char>>, nat>,
    p: Seq<Seq<char>>,
)
    requires
        ranked_resolution(decls, values1, rank1),
        ranked_resolution(decls, values2, rank2),
        values1.contains_key(p),
        values2.contains_key(p),
    ensures
        values1[p] == values2[p],
    decreases rank1[p],
{
    match decls[p].expression_of() {
        TokenExpression::Literal(_) => {},
        TokenExpression::Alias(t) => {
            lemma_resolution_unique(decls, values1, rank1, values2, rank2, t@);
        },
    }
}

/// The resolution of a set of declarations is unique: two full resolutions
/// of the same declarations are equal.
pub proof fn lemma_full_resolution_unique(
    decls: Map<Seq<Seq<char>>, TokenDefinition>,
    values1: Map<Seq<Seq<char>>, TokenValue>,
    values2: Map<Seq<Seq<char>>, TokenValue>,
)
    requires
        full_resolution(decls, values1),
        full_resolution(decls, values2),
    ensures
        values1 == values2,
{
    let rank1 = choose|rank: Map<Seq<Seq<char>>, nat>| #[trigger]
        ranked_resolution(decls, values1, rank);
    let rank2 = choose|rank: Map<Seq<Seq<char>>, nat>| #[trigger]
        ranked_resolution(decls, values2, rank);
    assert forall|p: Seq<Seq<char>>| #[trigger] values1.contains_key(p) implies values1[p]
        == values2[p] by {
        assert(values2.contains_key(p));
        lemma_resolution_unique(decls, values1, rank1, values2, rank2, p);
    }
    assert(values1 =~= values2);
}

/// Following a chain of aliases from a resolved path stays resolved, with
/// strictly decreasing rank.
proof fn lemma_chain_ranks(
    decls: Map<Seq<Seq<char>>, TokenDefinition>,
    values: Map<Seq<Seq<char>>, TokenValue>,
    rank: Map<Seq<Seq<char>>, nat>,
    chain: Seq<Seq<Seq<char>>>,
    j: int,
    k: int,
)
    requires
        ranked_resolution(decls, values, rank),
        0 <= j <= k < chain.len(),
        forall|i: int| 0 <= i < chain.len() - 1 ==> aliases_to(decls[#[trigger] chain[i]], chain[i + 1]),
        values.contains_key(chain[j]),
    ensures
        values.contains_key(chain[k]),
        rank.contains_key(chain[k]),
        rank[chain[k]] + (k - j) <= rank[chain[j]],
    decreases k - j,
{
    assert(values.contains_key(chain[j]));
    if j < k {
        lemma_chain_ranks(decls, values, rank, chain, j, k - 1);
        assert(aliases_to(decls[chain[k - 1]], chain[k]));
        assert(values.contains_key(chain[k - 1]));
    }
}

/// No member of a closed alias chain resolves.
pub proof fn lemma_cycle_unresolvable(
    decls: Map<Seq<Seq<char>>, TokenDefinition>,
    chain: Seq<Seq<Seq<char>>>,
    k: int,
)
    requires
        chain.len() >= 1,
        forall|i: int| 0 <= i < chain.len() - 1 ==> aliases_to(decls[#[trigger] chain[i]], chain[i + 1]),
        aliases_to(decls[chain.last()], chain[0]),
        0 <= k < chain.len(),
    ensures
        !resolvable(decls, chain[k]),
{
    if resolvable(decls, chain[k]) {
        let (values, rank) = choose|
            values: Map<Seq<Seq<char>>, TokenValue>,
            rank: Map<Seq<Seq<char>>, nat>,
        | #[trigger] ranked_resolution(decls, values, rank) && values.contains_key(chain[k]);
        let n = chain.len() - 1;
        lemma_chain_ranks(decls, values, rank, chain, k, n);
        assert(values.contains_key(chain[n]));
        assert(chain[n] == chain.last());
        lemma_chain_ranks(decls, values, rank, chain, 0, k);
        assert(false);
    }
}

/// `errors` reports exactly the duplicated paths `paths`, in order.
pub open spec fn reports_duplicates(errors: Seq<CompileError>, paths: Seq<Seq<Seq<char>>>) -> bool {
    &&& errors.len() == paths.len()
    &&& forall|i: int|
        0 <= i < errors.len() ==> (#[trigger] errors[i] matches CompileError::DuplicateToken { path }
            && path@ == paths[i])
}

/// `map` holds a copy of each first declaration of `defs`.
pub open spec fn copies_first_definitions(
    map: Map<Seq<Seq<char>>, TokenDefinition>,
    defs: Seq<TokenDefinition>,
) -> bool {
    &&& map.dom() == first_definitions(defs).dom()
    &&& forall|p: Seq<Seq<char>>|
        #[trigger] map.contains_key(p) ==> same_declaration(map[p], first_definitions(defs)[p])
}

proof fn lemma_first_definitions_keys(defs: Seq<TokenDefinition>, p: Seq<Seq<char>>)
    ensures
        first_definitions(defs).contains_key(p) ==> first_definitions(defs)[p].path_of()@ == p,
        first_definitions(defs).dom().finite(),
    decreases defs.len(),
{
    if defs.len() > 0 {
        lemma_first_definitions_keys(defs.drop_last(), p);
    }
}

/// Collects the first declaration of each path and reports later ones.
fn merge_definitions(documents: &[TokenDocument]) -> (r: (PathMap<TokenDefinition>, Vec<CompileError>))
    ensures
        copies_first_definitions(r.0@, all_definitions(documents@)),
        reports_duplicates(r.1@, duplicate_paths(all_definitions(documents@))),
{
    let mut definitions: PathMap<TokenDefinition> = PathMap::new();
    let mut errors: Vec<CompileError> = Vec::new();
    let mut i: usize = 0;
    assert(documents@.take(0) =~= Seq::<TokenDocument>::empty());
    while i < documents.len()
        invariant
            i <= documents@.len(),
            copies_first_definitions(definitions@, all_definitions(documents@.take(i as int))),
            reports_duplicates(errors@, duplicate_paths(all_definitions(documents@.take(i as int)))),
        decreases documents@.len() - i,
    {
        let tokens = documents[i].tokens();
        let ghost before = all_definitions(documents@.take(i as int));
        let mut j: usize = 0;
        assert(before + tokens@.take(0) =~= before);
        while j < tokens.len()
            invariant
                j <= tokens@.len(),
                copies_first_definitions(definitions@, before + tokens@.take(j as int)),
                reports_duplicates(errors@, duplicate_paths(before + tokens@.take(j as int))),
            decreases tokens@.len() - j,
        {
            let definition = &tokens[j];
            let ghost seen = before + tokens@.take(j as int);
            let ghost next = before + tokens@.take(j + 1);
            assert(next.drop_last() =~= seen);
            assert(next.last() == *definition);
            proof {
                lemma_first_definitions_keys(seen, definition.path_of()@);
            }
            if definitions.contains_key(definition.path()) {
                let ghost earlier_errors = errors@;
                errors.push(CompileError::DuplicateToken { path: definition.path().duplicate() });
                proof {
                    assert(first_definitions(next) == first_definitions(seen));
                    assert(duplicate_paths(next) == duplicate_paths(seen).push(definition.path_of()@));
                    assert forall|k: int| 0 <= k < errors@.len() implies (#[trigger] errors@[k] matches CompileError::DuplicateToken { path }
                        && path@ == duplicate_paths(next)[k]) by {
                        if k < errors@.len() - 1 {
                            assert(errors@[k] == earlier_errors[k]);
                        }
                    }
                }
            } else {
                let copy = definition.duplicate();
                definitions.insert(definition.path().duplicate(), copy);
                proof {
                    assert(first_definitions(next) == first_definitions(seen).insert(
                        definition.path_of()@,
                        *definition,
                    ));
                    assert(duplicate_paths(next) == duplicate_paths(seen));
                    assert(definitions@.dom() =~= first_definitions(next).dom());
                }
            }
            j = j + 1;
        }
        proof {
            assert(tokens@.take(tokens@.len() as int) =~= tokens@);
            assert(documents@.take(i + 1).drop_last() =~= documents@.take(i as int));
            assert(documents@.take(i + 1).last() == documents@[i as int]);
        }
        i = i + 1;
    }
    assert(documents@.take(documents@.len() as int) =~= documents@);
    (definitions, errors)
}

/// `p` is declared as an alias of a path that is not declared.
pub open spec fn dangling_alias(decls: Map<Seq<Seq<char>>, TokenDefinition>, p: Seq<Seq<char>>) -> bool {
    &&& decls.contains_key(p)
    &&& decls[p].expression_of() matches TokenExpression::Alias(t)
    &&& !decls.contains_key(t@)
}

/// `p` is declared as an alias whose target resolves to a value of type
/// `actual`, which is not the type `p` declares.
pub open spec fn mismatched_alias(
    decls: Map<Seq<Seq<char>>, TokenDefinition>,
    p: Seq<Seq<char>>,
    actual: TokenKind,
) -> bool {
    &&& decls.contains_key(p)
    &&& decls[p].expression_of() matches TokenExpression::Alias(t)
    &&& exists|values: Map<Seq<Seq<char>>, TokenValue>, rank: Map<Seq<Seq<char>>, nat>|
        #[trigger] ranked_resolution(decls, values, rank) && values.contains_key(t@) && value_kind(values[t@])
            == actual
    &&& actual != decls[p].kind_of()
}

/// Whether `p` is an alias to a value of another type.
pub open spec fn mistyped_alias(decls: Map<Seq<Seq<char>>, TokenDefinition>, p: Seq<Seq<char>>) -> bool {
    exists|actual: TokenKind| #[trigger] mismatched_alias(decls, p, actual)
}

/// A closed chain of aliases: each path is declared as an alias of the next,
/// and the last path is the first.
pub open spec fn alias_cycle(decls: Map<Seq<Seq<char>>, TokenDefinition>, c: Seq<Seq<Seq<char>>>) -> bool {
    &&& c.len() >= 2
    &&& c[0] == c.last()
    &&& forall|i: int|
        0 <= i < c.len() - 1 ==> decls.contains_key(#[trigger] c[i]) && aliases_to(decls[c[i]], c[i + 1])
}

/// The path that the declaration of `p` aliases, if it is an alias.
pub open spec fn alias_step(decls: Map<Seq<Seq<char>>, TokenDefinition>, p: Seq<Seq<char>>) -> Option<
    Seq<Seq<char>>,
> {
    if decls.contains_key(p) {
        match decls[p].expression_of() {
            TokenExpression::Alias(t) => Some(t@),
            _ => None,
        }
    } else {
        None
    }
}

/// The path reached from `p` by following `n` aliases, if there is one.
pub open spec fn alias_chain(decls: Map<Seq<Seq<char>>, TokenDefinition>, p: Seq<Seq<char>>, n: nat) -> Option<
    Seq<Seq<char>>,
>
    decreases n,
{
    if n == 0 {
        Some(p)
    } else {
        match alias_chain(decls, p, (n - 1) as nat) {
            Some(q) => alias_step(decls, q),
            None => None,
        }
    }
}

/// Following aliases from `q` reaches a path of `c`.
pub open spec fn chain_meets(decls: Map<Seq<Seq<char>>, TokenDefinition>, q: Seq<Seq<char>>, c: Seq<Seq<Seq<char>>>) -> bool {
    exists|n: nat| #[trigger] alias_chain(decls, q, n) matches Some(x) && c.contains(x)
}

/// Where resolution in path order meets the cycle `c`: `c` starts at the
/// first of its paths on the chain of aliases from the least declared path
/// whose chain meets it.
pub open spec fn cycle_entry(decls: Map<Seq<Seq<char>>, TokenDefinition>, c: Seq<Seq<Seq<char>>>) -> bool {
    exists|p0: Seq<Seq<char>>, n: nat|
        #![trigger alias_chain(decls, p0, n)]
        decls.contains_key(p0) && alias_chain(decls, p0, n) == Some(c[0]) && (forall|m: nat|
            m < n ==> !(#[trigger] alias_chain(decls, p0, m) matches Some(x) && c.contains(x))) && forall|
            q: Seq<Seq<char>>,
        |
            #[trigger] decls.contains_key(q) && crate::text::segs_less(q, p0) ==> !chain_meets(decls, q, c)
}

/// `e` is a resolution failure that the declarations exhibit.
pub open spec fn justified(decls: Map<Seq<Seq<char>>, TokenDefinition>, e: CompileError) -> bool {
    match e {
        CompileError::MissingAlias { token, target } => dangling_alias(decls, token@) && aliases_to(
            decls[token@],
            target@,
        ),
        CompileError::TypeMismatch { token, declared, actual } => mismatched_alias(decls, token@, actual)
            && declared == decls[token@].kind_of(),
        CompileError::AliasCycle { cycle } => alias_cycle(decls, path_views(cycle@)) && path_views(
            cycle@,
        ).drop_last().no_duplicates() && cycle_entry(decls, path_views(cycle@)),
        _ => false,
    }
}

/// `p` lies on a cycle of aliases.
pub open spec fn on_alias_cycle(decls: Map<Seq<Seq<char>>, TokenDefinition>, p: Seq<Seq<char>>) -> bool {
    exists|c: Seq<Seq<Seq<char>>>| #[trigger] alias_cycle(decls, c) && c.contains(p)
}

/// `e` reports a cycle of aliases through `p`.
pub open spec fn reports_cycle_through(e: CompileError, p: Seq<Seq<char>>) -> bool {
    match e {
        CompileError::AliasCycle { cycle } => path_views(cycle@).contains(p),
        _ => false,
    }
}

/// Each member of a cycle of aliases is declared as an alias of a member.
proof fn lemma_cycle_successor(decls: Map<Seq<Seq<char>>, TokenDefinition>, c: Seq<Seq<Seq<char>>>, k: int)
    requires
        alias_cycle(decls, c),
        0 <= k < c.len(),
    ensures
        decls.contains_key(c[k]),
        aliases_to(decls[c[k]], if k < c.len() - 1 { c[k + 1] } else { c[1] }),
{
    if k == c.len() - 1 {
        assert(c[k] == c[0]);
        assert(decls.contains_key(c[0]) && aliases_to(decls[c[0]], c[1]));
    } else {
        assert(decls.contains_key(c[k]) && aliases_to(decls[c[k]], c[k + 1]));
    }
}

/// A cycle of aliases holds every member of another cycle from position `j` on,
/// once it holds the member at `j`.
proof fn lemma_cycle_closed(
    decls: Map<Seq<Seq<char>>, TokenDefinition>,
    c1: Seq<Seq<Seq<char>>>,
    c2: Seq<Seq<Seq<char>>>,
    j: int,
)
    requires
        alias_cycle(decls, c1),
        alias_cycle(decls, c2),
        0 <= j < c2.len(),
        c1.contains(c2[j]),
    ensures
        forall|m: int| j <= m < c2.len() ==> c1.contains(#[trigger] c2[m]),
    decreases c2.len() - j,
{
    if j < c2.len() - 1 {
        let w = choose|w: int| 0 <= w < c1.len() && c1[w] == c2[j];
        lemma_cycle_successor(decls, c1, w);
        lemma_cycle_successor(decls, c2, j);
        let next = if w < c1.len() - 1 {
            w + 1
        } else {
            1
        };
        assert(c1[next] == c2[j + 1]);
        lemma_cycle_closed(decls, c1, c2, j + 1);
    }
}

/// The aliases are a function, so a cycle through the target of an alias
/// that lies on a cycle runs through the alias too.
proof fn lemma_cycle_member(
    decls: Map<Seq<Seq<char>>, TokenDefinition>,
    c1: Seq<Seq<Seq<char>>>,
    p: Seq<Seq<char>>,
    t: Seq<Seq<char>>,
)
    requires
        alias_cycle(decls, c1),
        c1.contains(t),
        on_alias_cycle(decls, p),
        aliases_to(decls[p], t),
    ensures
        c1.contains(p),
{
    let c2 = choose|c2: Seq<Seq<Seq<char>>>| #[trigger] alias_cycle(decls, c2) && c2.contains(p);
    let k = choose|k: int| 0 <= k < c2.len() && c2[k] == p;
    lemma_cycle_successor(decls, c2, k);
    let next = if k < c2.len() - 1 {
        k + 1
    } else {
        1
    };
    assert(c2[next] == t);
    lemma_cycle_closed(decls, c1, c2, next);
    assert(c1.contains(c2[c2.len() - 1]));
    assert(c2[c2.len() - 1] == c2[0]);
    lemma_cycle_closed(decls, c1, c2, 0);
    assert(c1.contains(c2[k]));
}

/// No member of a cycle of aliases resolves.
proof fn lemma_on_cycle_unresolvable(decls: Map<Seq<Seq<char>>, TokenDefinition>, p: Seq<Seq<char>>)
    requires
        on_alias_cycle(decls, p),
    ensures
        !resolvable(decls, p),
        decls.contains_key(p),
{
    let c = choose|c: Seq<Seq<Seq<char>>>| #[trigger] alias_cycle(decls, c) && c.contains(p);
    let k = choose|k: int| 0 <= k < c.len() && c[k] == p;
    let chain = c.drop_last();
    assert forall|i: int| 0 <= i < chain.len() - 1 implies aliases_to(decls[#[trigger] chain[i]], chain[i + 1]) by {
        lemma_cycle_successor(decls, c, i);
    }
    lemma_cycle_successor(decls, c, chain.len() - 1);
    assert(chain.last() == c[c.len() - 2]);
    assert(c[c.len() - 1] == chain[0]);
    let kk = if k == c.len() - 1 {
        0
    } else {
        k
    };
    assert(chain[kk] == p);
    lemma_cycle_unresolvable(decls, chain, kk);
    lemma_cycle_successor(decls, c, k);
}

/// `e` reports the dangling alias `p`.
pub open spec fn reports_dangling(e: CompileError, p: Seq<Seq<char>>) -> bool {
    match e {
        CompileError::MissingAlias { token, .. } => token@ == p,
        _ => false,
    }
}

/// `e` reports the mistyped alias `p`.
pub open spec fn reports_mistyped(e: CompileError, p: Seq<Seq<char>>) -> bool {
    match e {
        CompileError::TypeMismatch { token, .. } => token@ == p,
        _ => false,
    }
}

/// `errors` report `p` if it is a dangling or mistyped alias.
pub open spec fn reports_alias(
    errors: Seq<CompileError>,
    decls: Map<Seq<Seq<char>>, TokenDefinition>,
    p: Seq<Seq<char>>,
) -> bool {
    &&& dangling_alias(decls, p) ==> exists|i: int| 0 <= i < errors.len() && #[trigger] reports_dangling(errors[i], p)
    &&& mistyped_alias(decls, p) ==> exists|i: int| 0 <= i < errors.len() && #[trigger] reports_mistyped(errors[i], p)
    &&& on_alias_cycle(decls, p) ==> exists|i: int|
        0 <= i < errors.len() && #[trigger] reports_cycle_through(errors[i], p)
}

proof fn lemma_reports_alias_grow(
    errors: Seq<CompileError>,
    more: Seq<CompileError>,
    decls: Map<Seq<Seq<char>>, TokenDefinition>,
    p: Seq<Seq<char>>,
)
    requires
        reports_alias(errors, decls, p),
        more.len() >= errors.len(),
        more.subrange(0, errors.len() as int) == errors,
    ensures
        reports_alias(more, decls, p),
{
    if dangling_alias(decls, p) {
        let i = choose|i: int| 0 <= i < errors.len() && #[trigger] reports_dangling(errors[i], p);
        assert(more[i] == more.subrange(0, errors.len() as int)[i]);
        assert(reports_dangling(more[i], p));
    }
    if mistyped_alias(decls, p) {
        let i = choose|i: int| 0 <= i < errors.len() && #[trigger] reports_mistyped(errors[i], p);
        assert(more[i] == more.subrange(0, errors.len() as int)[i]);
        assert(reports_mistyped(more[i], p));
    }
    if on_alias_cycle(decls, p) {
        let i = choose|i: int| 0 <= i < errors.len() && #[trigger] reports_cycle_through(errors[i], p);
        assert(more[i] == more.subrange(0, errors.len() as int)[i]);
        assert(reports_cycle_through(more[i], p));
    }
}

/// A resolved path is neither a dangling nor a mistyped alias.
proof fn lemma_resolved_alias_sound(
    decls: Map<Seq<Seq<char>>, TokenDefinition>,
    values: Map<Seq<Seq<char>>, TokenValue>,
    rank: Map<Seq<Seq<char>>, nat>,
    p: Seq<Seq<char>>,
)
    requires
        ranked_resolution(decls, values, rank),
        values.contains_key(p),
    ensures
        !dangling_alias(decls, p),
        !mistyped_alias(decls, p),
{
    if mistyped_alias(decls, p) {
        let actual = choose|actual: TokenKind| #[trigger] mismatched_alias(decls, p, actual);
        let t = decls[p].expression_of()->Alias_0;
        let (values2, rank2) = choose|values2: Map<Seq<Seq<char>>, TokenValue>, rank2: Map<Seq<Seq<char>>, nat>|
            #[trigger] ranked_resolution(decls, values2, rank2) && values2.contains_key(t@) && value_kind(values2[t@])
                == actual;
        assert(values.contains_key(t@));
        lemma_resolution_unique(decls, values, rank, values2, rank2, t@);
    }
}

/// Depth-first alias resolution with memoised results.
/// `e` reports `p` as a dangling alias, a mistyped alias or a member of a
/// cycle of aliases.
pub open spec fn error_subject(e: CompileError, p: Seq<Seq<char>>) -> bool {
    reports_dangling(e, p) || reports_mistyped(e, p) || reports_cycle_through(e, p)
}

/// No path is reported by two of `errors`.
pub open spec fn subjects_distinct(errors: Seq<CompileError>) -> bool {
    forall|i: int, j: int, p: Seq<Seq<char>>|
        0 <= i < j < errors.len() && #[trigger] error_subject(errors[i], p) && #[trigger] error_subject(
            errors[j],
            p,
        ) ==> false
}

/// Every path that one of the first `n` errors reports has failed.
pub open spec fn subjects_failed(errors: Seq<CompileError>, failed: Map<Seq<Seq<char>>, bool>, n: int) -> bool {
    forall|i: int, p: Seq<Seq<char>>|
        0 <= i < n && #[trigger] error_subject(errors[i], p) ==> failed.contains_key(p)
}

/// The alias of `p`, if any, leads to a path that has resolved or failed,
/// or to one that is not declared.
pub open spec fn next_settled(
    decls: Map<Seq<Seq<char>>, TokenDefinition>,
    p: Seq<Seq<char>>,
    resolved: Map<Seq<Seq<char>>, TokenValue>,
    failed: Map<Seq<Seq<char>>, bool>,
) -> bool {
    match alias_step(decls, p) {
        Some(t) => !decls.contains_key(t) || resolved.contains_key(t) || failed.contains_key(t),
        None => true,
    }
}

/// Every failed path's alias leads to a settled path.
pub open spec fn failed_closed(
    decls: Map<Seq<Seq<char>>, TokenDefinition>,
    resolved: Map<Seq<Seq<char>>, TokenValue>,
    failed: Map<Seq<Seq<char>>, bool>,
) -> bool {
    forall|p: Seq<Seq<char>>| #[trigger] failed.contains_key(p) ==> next_settled(decls, p, resolved, failed)
}

/// From a path that has resolved or failed, following aliases only meets
/// paths that have resolved or failed, or an undeclared one.
proof fn lemma_chain_settled(
    decls: Map<Seq<Seq<char>>, TokenDefinition>,
    resolved: Map<Seq<Seq<char>>, TokenValue>,
    rank: Map<Seq<Seq<char>>, nat>,
    failed: Map<Seq<Seq<char>>, bool>,
    q: Seq<Seq<char>>,
    n: nat,
)
    requires
        ranked_resolution(decls, resolved, rank),
        failed_closed(decls, resolved, failed),
        resolved.contains_key(q) || failed.contains_key(q),
    ensures
        alias_chain(decls, q, n) matches Some(x) ==> !decls.contains_key(x) || resolved.contains_key(x)
            || failed.contains_key(x),
    decreases n,
{
    if n > 0 {
        lemma_chain_settled(decls, resolved, rank, failed, q, (n - 1) as nat);
        match alias_chain(decls, q, (n - 1) as nat) {
            Some(y) => {
                if decls.contains_key(y) {
                    if resolved.contains_key(y) {
                        assert(settles(decls[y], resolved, rank, y));
                    } else {
                        assert(next_settled(decls, y, resolved, failed));
                    }
                }
            },
            None => {},
        }
    }
}

/// A stack of aliases is the chain of aliases from its first path.
proof fn lemma_stack_chain(decls: Map<Seq<Seq<char>>, TokenDefinition>, stack: Seq<Seq<Seq<char>>>, k: int)
    requires
        0 <= k < stack.len(),
        forall|i: int| 0 <= i < stack.len() ==> decls.contains_key(#[trigger] stack[i]),
        forall|i: int| 0 <= i < stack.len() - 1 ==> aliases_to(decls[#[trigger] stack[i]], stack[i + 1]),
    ensures
        alias_chain(decls, stack[0], k as nat) == Some(stack[k]),
    decreases k,
{
    if k > 0 {
        lemma_stack_chain(decls, stack, k - 1);
        assert(aliases_to(decls[stack[k - 1]], stack[k]));
    }
}

struct Resolver {
    definitions: PathMap<TokenDefinition>,
    resolved: PathMap<TokenValue>,
    failed: PathMap<bool>,
    visiting: Vec<TokenPath>,
    errors: Vec<CompileError>,
    decls: Ghost<Map<Seq<Seq<char>>, TokenDefinition>>,
    rank: Ghost<Map<Seq<Seq<char>>, nat>>,
}

/// The paths on a stack of token paths.
pub open spec fn path_views(paths: Seq<TokenPath>) -> Seq<Seq<Seq<char>>> {
    paths.map_values(|p: TokenPath| p@)
}

/// A stack of distinct declared keys is no longer than the declarations.
pub proof fn lemma_stack_bound<K, V>(decls: Map<K, V>, stack: Seq<K>)
    requires
        decls.dom().finite(),
        stack.no_duplicates(),
        forall|k: int| 0 <= k < stack.len() ==> decls.contains_key(#[trigger] stack[k]),
    ensures
        stack.len() <= decls.dom().len(),
{
    stack.unique_seq_to_set();
    assert(stack.to_set().subset_of(decls.dom()));
    vstd::set_lib::lemma_len_subset(stack.to_set(), decls.dom());
}

impl Resolver {
    /// Every declared path before the first on the stack (or before `path`
    /// when nothing is being resolved) has resolved or failed.
    spec fn below_settled(&self, path: Seq<Seq<char>>) -> bool {
        let base = if self.visiting@.len() > 0 {
            self.visiting@[0]@
        } else {
            path
        };
        forall|q: Seq<Seq<char>>|
            #[trigger] self.decls@.contains_key(q) && crate::text::segs_less(q, base) ==> self.resolved@.contains_key(q)
                || self.failed@.contains_key(q)
    }

    /// Everything but the agreement between errors and failures.
    spec fn settled_state(&self) -> bool {
        let decls = self.decls@;
        &&& decls.dom().finite()
        &&& self.definitions@.dom() == decls.dom()
        &&& forall|p: Seq<Seq<char>>|
            #[trigger] self.definitions@.contains_key(p) ==> same_declaration(
                self.definitions@[p],
                decls[p],
            )
        &&& ranked_resolution(decls, self.resolved@, self.rank@)
        &&& forall|p: Seq<Seq<char>>|
            #[trigger] self.failed@.contains_key(p) ==> decls.contains_key(p) && !resolvable(
                decls,
                p,
            )
        &&& forall|k: int|
            0 <= k < self.visiting@.len() ==> decls.contains_key(#[trigger] self.visiting@[k]@)
                && !self.resolved@.contains_key(self.visiting@[k]@)
        &&& forall|a: int, b: int|
            0 <= a < b < self.visiting@.len() ==> #[trigger] self.visiting@[a]@
                != #[trigger] self.visiting@[b]@
        &&& forall|k: int|
            0 <= k < self.visiting@.len() - 1 ==> aliases_to(
                decls[#[trigger] self.visiting@[k]@],
                self.visiting@[k + 1]@,
            )
    }

    spec fn wf(&self) -> bool {
        &&& self.settled_state()
        &&& (self.errors@.len() > 0 <==> exists|p: Seq<Seq<char>>|
            #[trigger] self.failed@.contains_key(p))
        &&& self.errors_reported()
    }

    /// Each error reports paths that have failed and no other error reports.
    spec fn errors_distinct(&self) -> bool {
        &&& subjects_failed(self.errors@, self.failed@, self.errors@.len() as int)
        &&& subjects_distinct(self.errors@)
    }

    /// No path being resolved has failed.
    spec fn visiting_live(&self) -> bool {
        forall|k: int| 0 <= k < self.visiting@.len() ==> !self.failed@.contains_key(#[trigger] self.visiting@[k]@)
    }

    /// Every error is justified, and every failed path that is a dangling or
    /// mistyped alias is reported.
    spec fn errors_reported(&self) -> bool {
        &&& forall|i: int| 0 <= i < self.errors@.len() ==> justified(self.decls@, #[trigger] self.errors@[i])
        &&& forall|p: Seq<Seq<char>>|
            #[trigger] self.failed@.contains_key(p) ==> reports_alias(self.errors@, self.decls@, p)
    }

    /// Resolves `path`, which is declared and, when something is being
    /// resolved, is the alias target of the innermost such path.
    #[verifier::spinoff_prover]
    #[verifier::rlimit(60)]
    fn resolve(&mut self, path: &TokenPath) -> (r: Option<TokenValue>)
        requires
            old(self).wf(),
            old(self).errors_distinct(),
            old(self).visiting_live(),
            old(self).decls@.contains_key(path@),
            old(self).visiting@.len() > 0 ==> aliases_to(
                old(self).decls@[old(self).visiting@.last()@],
                path@,
            ),
            failed_closed(old(self).decls@, old(self).resolved@, old(self).failed@),
            old(self).below_settled(path@),
        ensures
            final(self).wf(),
            final(self).errors_distinct(),
            failed_closed(final(self).decls@, final(self).resolved@, final(self).failed@),
            r is Some ==> final(self).visiting_live(),
            final(self).decls@ == old(self).decls@,
            final(self).definitions == old(self).definitions,
            final(self).visiting@ == old(self).visiting@,
            final(self).errors@.len() >= old(self).errors@.len(),
            final(self).errors@.subrange(0, old(self).errors@.len() as int) == old(self).errors@,
            forall|p: Seq<Seq<char>>|
                old(self).resolved@.contains_key(p) ==> #[trigger] final(self).resolved@.contains_key(p),
            forall|p: Seq<Seq<char>>|
                old(self).failed@.contains_key(p) ==> #[trigger] final(self).failed@.contains_key(p),
            match r {
                Some(v) => final(self).resolved@.contains_key(path@) && final(self).resolved@[path@]
                    == v,
                None => final(self).failed@.contains_key(path@),
            },
        decreases old(self).decls@.dom().len() - old(self).visiting@.len(),
    {
        match self.resolved.get(path) {
            Some(v) => {
                return Some(v.duplicate());
            },
            None => {},
        }
        if self.failed.contains_key(path) {
            return None;
        }
        let ghost decls = self.decls@;
        let mut index: usize = 0;
        while index < self.visiting.len() && !self.visiting[index].same(path)
            invariant
                index <= self.visiting@.len(),
                forall|k: int| 0 <= k < index ==> #[trigger] self.visiting@[k]@ != path@,
            decreases self.visiting@.len() - index,
        {
            index = index + 1;
        }
        if index < self.visiting.len() {
            return self.report_cycle(path, index);
        }
        let definition = match self.definitions.get(path) {
            Some(d) => d.duplicate(),
            None => {
                proof {
                    assert(false);
                }
                return None;
            },
        };
        proof {
            assert(same_declaration(self.definitions@[path@], decls[path@]));
            let stack = path_views(self.visiting@).push(path@);
            assert forall|k: int| 0 <= k < stack.len() implies decls.contains_key(#[trigger] stack[k]) by {
                if k < self.visiting@.len() {
                    assert(decls.contains_key(self.visiting@[k]@));
                }
            }
            assert forall|a: int, b: int| 0 <= a < b < stack.len() implies stack[a] != stack[b] by {
                if b < self.visiting@.len() {
                    assert(self.visiting@[a]@ != self.visiting@[b]@);
                }
            }
            lemma_stack_bound(decls, stack);
        }
        self.visiting.push(path.duplicate());
        let ghost pushed = self.visiting@;
        let ghost mut new_rank: nat = 0;
        let value: Option<TokenValue> = match definition.expression() {
            TokenExpression::Literal(v) => Some(v.duplicate()),
            TokenExpression::Alias(target) => {
                if !self.definitions.contains_key(target) {
                    let ghost before_errors = self.errors@;
                    self.errors.push(
                        CompileError::MissingAlias { token: path.duplicate(), target: target.duplicate() },
                    );
                    proof {
                        assert(self.errors@.subrange(0, before_errors.len() as int) =~= before_errors);
                        assert(justified(decls, self.errors@.last()));
                        assert(reports_dangling(self.errors@.last(), path@));
                        assert forall|i: int| 0 <= i < self.errors@.len() implies justified(decls, #[trigger] self.errors@[i]) by {
                            if i < before_errors.len() {
                                assert(self.errors@[i] == before_errors[i]);
                            }
                        }
                        assert forall|q: Seq<Seq<char>>| #[trigger] self.failed@.contains_key(q) implies reports_alias(
                            self.errors@,
                            decls,
                            q,
                        ) by {
                            lemma_reports_alias_grow(before_errors, self.errors@, decls, q);
                        }
                        assert(!mistyped_alias(decls, path@));
                        if on_alias_cycle(decls, path@) {
                            let c = choose|c: Seq<Seq<Seq<char>>>| #[trigger] alias_cycle(decls, c) && c.contains(path@);
                            let k = choose|k: int| 0 <= k < c.len() && c[k] == path@;
                            lemma_cycle_successor(decls, c, k);
                            let next = if k < c.len() - 1 {
                                k + 1
                            } else {
                                1
                            };
                            lemma_cycle_successor(decls, c, next);
                            assert(c[next] == target@);
                        }
                        assert(reports_alias(self.errors@, decls, path@));
                        if resolvable(decls, path@) {
                            let (values, rank) = choose|
                                values: Map<Seq<Seq<char>>, TokenValue>,
                                rank: Map<Seq<Seq<char>>, nat>,
                            | #[trigger] ranked_resolution(decls, values, rank) && values.contains_key(path@);
                            assert(values.contains_key(target@));
                            assert(decls.contains_key(target@));
                        }
                    }
                    None
                } else {
                    match self.resolve(target) {
                        None => {
                            proof {
                                assert(self.failed@.contains_key(target@));
                                assert(!resolvable(decls, target@));
                                if mistyped_alias(decls, path@) {
                                    let actual = choose|actual: TokenKind| #[trigger] mismatched_alias(decls, path@, actual);
                                    assert(mismatched_alias(decls, path@, actual));
                                    assert(resolvable(decls, target@));
                                }
                                assert(aliases_to(decls[path@], target@));
                                if on_alias_cycle(decls, path@) {
                                    let c = choose|c: Seq<Seq<Seq<char>>>| #[trigger] alias_cycle(decls, c) && c.contains(path@);
                                    let k = choose|k: int| 0 <= k < c.len() && c[k] == path@;
                                    lemma_cycle_successor(decls, c, k);
                                    let next = if k < c.len() - 1 {
                                        k + 1
                                    } else {
                                        1
                                    };
                                    assert(c[next] == target@);
                                    assert(alias_cycle(decls, c) && c.contains(target@));
                                    assert(on_alias_cycle(decls, target@));
                                    assert(reports_alias(self.errors@, decls, target@));
                                    let i = choose|i: int| 0 <= i < self.errors@.len() && #[trigger] reports_cycle_through(self.errors@[i], target@);
                                    assert(justified(decls, self.errors@[i]));
                                    match self.errors@[i] {
                                        CompileError::AliasCycle { cycle } => {
                                            lemma_cycle_member(decls, path_views(cycle@), path@, target@);
                                        },
                                        _ => {},
                                    }
                                    assert(reports_cycle_through(self.errors@[i], path@));
                                }
                                assert(reports_alias(self.errors@, decls, path@));
                                if resolvable(decls, path@) {
                                    let (values, rank) = choose|
                                        values: Map<Seq<Seq<char>>, TokenValue>,
                                        rank: Map<Seq<Seq<char>>, nat>,
                                    | #[trigger] ranked_resolution(decls, values, rank) && values.contains_key(path@);
                                    assert(values.contains_key(target@));
                                    assert(resolvable(decls, target@));
                                }
                            }
                            None
                        },
                        Some(v) => {
                            if !v.kind().same(definition.kind()) {
                                let ghost before_errors = self.errors@;
                                self.errors.push(
                                    CompileError::TypeMismatch {
                                        token: path.duplicate(),
                                        declared: definition.kind(),
                                        actual: v.kind(),
                                    },
                                );
                                proof {
                                    assert(self.errors@.subrange(0, before_errors.len() as int) =~= before_errors);
                                    assert(mismatched_alias(decls, path@, value_kind(v)));
                                    assert(justified(decls, self.errors@.last()));
                                    assert(reports_mistyped(self.errors@.last(), path@));
                                    assert forall|i: int| 0 <= i < self.errors@.len() implies justified(decls, #[trigger] self.errors@[i]) by {
                                        if i < before_errors.len() {
                                            assert(self.errors@[i] == before_errors[i]);
                                        }
                                    }
                                    assert forall|q: Seq<Seq<char>>| #[trigger] self.failed@.contains_key(q) implies reports_alias(
                                        self.errors@,
                                        decls,
                                        q,
                                    ) by {
                                        lemma_reports_alias_grow(before_errors, self.errors@, decls, q);
                                    }
                                    assert(!dangling_alias(decls, path@));
                                    if on_alias_cycle(decls, path@) {
                                        let c = choose|c: Seq<Seq<Seq<char>>>| #[trigger] alias_cycle(decls, c) && c.contains(path@);
                                        let k = choose|k: int| 0 <= k < c.len() && c[k] == path@;
                                        lemma_cycle_successor(decls, c, k);
                                        let next = if k < c.len() - 1 {
                                            k + 1
                                        } else {
                                            1
                                        };
                                        assert(c[next] == target@);
                                        assert(alias_cycle(decls, c) && c.contains(target@));
                                        lemma_on_cycle_unresolvable(decls, target@);
                                        assert(self.resolved@.contains_key(target@));
                                        assert(resolvable(decls, target@));
                                    }
                                    assert(reports_alias(self.errors@, decls, path@));
                                    if resolvable(decls, path@) {
                                        let (values, rank) = choose|
                                            values: Map<Seq<Seq<char>>, TokenValue>,
                                            rank: Map<Seq<Seq<char>>, nat>,
                                        | #[trigger] ranked_resolution(decls, values, rank) && values.contains_key(path@);
                                        assert(values.contains_key(target@));
                                        lemma_resolution_unique(
                                            decls,
                                            values,
                                            rank,
                                            self.resolved@,
                                            self.rank@,
                                            target@,
                                        );
                                    }
                                }
                                None
                            } else {
                                proof {
                                    assert(self.resolved@.contains_key(target@));
                                    new_rank = self.rank@[target@] + 1;
                                    assert(self.visiting@[self.visiting@.len() - 1]@ == path@);
                                    assert(target@ != path@);
                                }
                                Some(v)
                            }
                        },
                    }
                }
            },
        };
        assert(value is None ==> next_settled(decls, path@, self.resolved@, self.failed@));
        self.visiting.pop();
        proof {
            assert(self.visiting@ =~= pushed.drop_last());
            assert(self.visiting@ == old(self).visiting@);
        }
        match value {
            Some(v) => {
                let ghost before_values = self.resolved@;
                let ghost before_rank = self.rank@;
                let ghost before_failed = self.failed@;
                let ghost witness = choose|q: Seq<Seq<char>>| #[trigger] self.failed@.contains_key(q);
                self.resolved.insert(path.duplicate(), v.duplicate());
                proof {
                    self.rank@ = self.rank@.insert(path@, new_rank);
                    assert forall|p: Seq<Seq<char>>| #[trigger] self.resolved@.contains_key(p) implies decls.contains_key(p)
                        && self.rank@.contains_key(p) && settles(decls[p], self.resolved@, self.rank@, p) by {
                        if p != path@ {
                            assert(before_values.contains_key(p));
                            assert(settles(decls[p], before_values, before_rank, p));
                            match decls[p].expression_of() {
                                TokenExpression::Literal(_) => {},
                                TokenExpression::Alias(t) => {
                                    assert(before_values.contains_key(t@));
                                },
                            }
                        }
                    }
                    assert(self.failed@ == before_failed);
                    if self.errors@.len() > 0 {
                        assert(self.failed@.contains_key(witness));
                    }
                }
                Some(v)
            },
            None => {
                proof {
                    assert(reports_alias(self.errors@, decls, path@));
                }
                self.failed.insert(path.duplicate(), true);
                proof {
                    assert(self.failed@.contains_key(path@));
                }
                None
            },
        }
    }

    /// Reports the cycle that closes at `path`, which is on the stack at `index`.
    #[verifier::spinoff_prover]
    #[verifier::rlimit(80)]
    fn report_cycle(&mut self, path: &TokenPath, index: usize) -> (r: Option<TokenValue>)
        requires
            old(self).wf(),
            old(self).errors_distinct(),
            old(self).visiting_live(),
            index < old(self).visiting@.len(),
            old(self).visiting@[index as int]@ == path@,
            aliases_to(old(self).decls@[old(self).visiting@.last()@], path@),
            failed_closed(old(self).decls@, old(self).resolved@, old(self).failed@),
            old(self).below_settled(path@),
        ensures
            final(self).wf(),
            final(self).errors_distinct(),
            failed_closed(final(self).decls@, final(self).resolved@, final(self).failed@),
            final(self).decls@ == old(self).decls@,
            final(self).definitions == old(self).definitions,
            final(self).visiting@ == old(self).visiting@,
            final(self).resolved == old(self).resolved,
            final(self).rank@ == old(self).rank@,
            final(self).errors@.len() >= old(self).errors@.len(),
            final(self).errors@.subrange(0, old(self).errors@.len() as int) == old(self).errors@,
            forall|p: Seq<Seq<char>>|
                old(self).failed@.contains_key(p) ==> #[trigger] final(self).failed@.contains_key(p),
            r is None,
            final(self).failed@.contains_key(path@),
    {
        let ghost decls = self.decls@;
        let ghost chain = path_views(self.visiting@).subrange(index as int, self.visiting@.len() as int);
        proof {
            assert forall|i: int| 0 <= i < chain.len() - 1 implies aliases_to(decls[#[trigger] chain[i]], chain[i + 1]) by {
                assert(chain[i] == self.visiting@[index + i]@);
                assert(chain[i + 1] == self.visiting@[index + i + 1]@);
            }
            assert(chain.last() == self.visiting@.last()@);
        }
        let mut cycle: Vec<TokenPath> = Vec::new();
        let mut k: usize = index;
        while k < self.visiting.len()
            invariant
                index <= k <= self.visiting@.len(),
                cycle@.len() == k - index,
                forall|m: int| 0 <= m < cycle@.len() ==> #[trigger] cycle@[m]@ == self.visiting@[index + m]@,
            decreases self.visiting@.len() - k,
        {
            cycle.push(self.visiting[k].duplicate());
            k = k + 1;
        }
        cycle.push(path.duplicate());
        let ghost before_errors = self.errors@;
        proof {
            assert(path_views(cycle@) =~= chain.push(path@));
            assert forall|i: int| 0 <= i < path_views(cycle@).len() - 1 implies decls.contains_key(
                #[trigger] path_views(cycle@)[i],
            ) && aliases_to(decls[path_views(cycle@)[i]], path_views(cycle@)[i + 1]) by {
                assert(path_views(cycle@)[i] == chain[i]);
                assert(chain[i] == self.visiting@[index + i]@);
                if i < chain.len() - 1 {
                    assert(path_views(cycle@)[i + 1] == chain[i + 1]);
                }
            }
            assert(alias_cycle(decls, path_views(cycle@)));
            let c = path_views(cycle@);
            let stack = path_views(self.visiting@);
            let p0 = stack[0];
            assert forall|i: int| 0 <= i < stack.len() implies decls.contains_key(#[trigger] stack[i]) by {
                assert(stack[i] == self.visiting@[i]@);
            }
            assert forall|i: int| 0 <= i < stack.len() - 1 implies aliases_to(decls[#[trigger] stack[i]], stack[i + 1]) by {
                assert(stack[i] == self.visiting@[i]@);
                assert(stack[i + 1] == self.visiting@[i + 1]@);
            }
            lemma_stack_chain(decls, stack, index as int);
            assert(c[0] == path@);
            assert(alias_chain(decls, p0, index as nat) == Some(c[0]));
            assert forall|m: nat| m < index as nat implies !(#[trigger] alias_chain(decls, p0, m) matches Some(
                x,
            ) && c.contains(x)) by {
                lemma_stack_chain(decls, stack, m as int);
                if c.contains(stack[m as int]) {
                    let w = choose|w: int| 0 <= w < c.len() && c[w] == stack[m as int];
                    if w < chain.len() {
                        assert(chain[w] == self.visiting@[index + w]@);
                        assert(self.visiting@[m as int]@ != self.visiting@[index + w]@);
                    } else {
                        assert(self.visiting@[m as int]@ != path@);
                    }
                }
            }
            assert forall|q: Seq<Seq<char>>|
                #[trigger] decls.contains_key(q) && crate::text::segs_less(q, p0) implies !chain_meets(decls, q, c) by {
                assert(p0 == self.visiting@[0]@);
                if chain_meets(decls, q, c) {
                    let n = choose|n: nat| #[trigger] alias_chain(decls, q, n) matches Some(x) && c.contains(x);
                    lemma_chain_settled(decls, self.resolved@, self.rank@, self.failed@, q, n);
                    let x = alias_chain(decls, q, n)->0;
                    let w = choose|w: int| 0 <= w < c.len() && c[w] == x;
                    let v = if w < chain.len() {
                        index + w
                    } else {
                        index as int
                    };
                    assert(x == self.visiting@[v]@);
                    assert(decls.contains_key(self.visiting@[v]@));
                    assert(!self.resolved@.contains_key(self.visiting@[v]@));
                    assert(!self.failed@.contains_key(self.visiting@[v]@));
                }
            }
            assert(cycle_entry(decls, c));
            assert(c.drop_last() =~= chain);
            assert forall|a: int, b: int| 0 <= a < chain.len() && 0 <= b < chain.len() && a != b implies chain[a]
                != chain[b] by {
                assert(chain[a] == self.visiting@[index + a]@);
                assert(chain[b] == self.visiting@[index + b]@);
            }
            assert(c.drop_last().no_duplicates());
        }
        let ghost reported_cycle = cycle;
        let ghost reported_error = CompileError::AliasCycle { cycle: reported_cycle };
        self.errors.push(CompileError::AliasCycle { cycle });
        proof {
            assert forall|p: Seq<Seq<char>>| #[trigger] error_subject(reported_error, p) implies chain.push(path@).contains(p) by {
            }
            assert forall|i: int, j: int, p: Seq<Seq<char>>|
                0 <= i < j < self.errors@.len() && #[trigger] error_subject(self.errors@[i], p) && #[trigger] error_subject(
                    self.errors@[j],
                    p,
                ) implies false by {
                assert(self.errors@[i] == before_errors[i]);
                if j < before_errors.len() {
                    assert(self.errors@[j] == before_errors[j]);
                } else {
                    assert(self.errors@[j] == reported_error);
                    assert(chain.push(path@).contains(p));
                    let w = choose|w: int| 0 <= w < chain.push(path@).len() && chain.push(path@)[w] == p;
                    if w < chain.len() {
                        assert(chain[w] == self.visiting@[index + w]@);
                    }
                    assert(self.failed@.contains_key(p));
                }
            }
            assert forall|i: int| 0 <= i < self.errors@.len() implies justified(decls, #[trigger] self.errors@[i]) by {
                if i < before_errors.len() {
                    assert(self.errors@[i] == before_errors[i]);
                }
            }
            assert(self.errors@.subrange(0, before_errors.len() as int) =~= before_errors);
            assert forall|p: Seq<Seq<char>>| #[trigger] self.failed@.contains_key(p) implies reports_alias(
                self.errors@,
                decls,
                p,
            ) by {
                lemma_reports_alias_grow(before_errors, self.errors@, decls, p);
            }
        }
        let mut m: usize = index;
        while m < self.visiting.len()
            invariant
                self.settled_state(),
                self.decls@ == decls,
                self.definitions == old(self).definitions,
                self.visiting == old(self).visiting,
                self.resolved == old(self).resolved,
                self.rank@ == old(self).rank@,
                self.errors@.len() > 0,
                index <= m <= self.visiting@.len(),
                index < self.visiting@.len(),
                self.visiting@[index as int]@ == path@,
                chain == path_views(self.visiting@).subrange(index as int, self.visiting@.len() as int),
                forall|i: int| 0 <= i < chain.len() - 1 ==> aliases_to(decls[#[trigger] chain[i]], chain[i + 1]),
                aliases_to(decls[chain.last()], chain[0]),
                m > index ==> self.failed@.contains_key(path@),
                forall|p: Seq<Seq<char>>|
                    old(self).failed@.contains_key(p) ==> #[trigger] self.failed@.contains_key(p),
                self.errors@.len() == before_errors.len() + 1,
                self.errors@.subrange(0, before_errors.len() as int) == before_errors,
                self.errors@[before_errors.len() as int] == reported_error,
                reported_error == (CompileError::AliasCycle { cycle: reported_cycle }),
                path_views(reported_cycle@) == chain.push(path@),
                self.errors_reported(),
                subjects_distinct(self.errors@),
                subjects_failed(self.errors@, self.failed@, before_errors.len() as int),
                forall|p: Seq<Seq<char>>| #[trigger] error_subject(reported_error, p) ==> chain.push(path@).contains(p),
                forall|j: int| 0 <= j < m - index ==> self.failed@.contains_key(#[trigger] chain[j]),
                forall|p: Seq<Seq<char>>|
                    #[trigger] self.failed@.contains_key(p) ==> next_settled(decls, p, self.resolved@, self.failed@)
                        || chain.contains(p),
            decreases self.visiting@.len() - m,
        {
            proof {
                lemma_cycle_unresolvable(decls, chain, m - index);
                assert(chain[m - index] == self.visiting@[m as int]@);
                assert(decls.contains_key(self.visiting@[m as int]@));
                let member = chain[m - index];
                let next = if m - index + 1 < chain.len() {
                    m - index + 1
                } else {
                    0
                };
                lemma_cycle_unresolvable(decls, chain, next);
                assert(aliases_to(decls[member], chain[next]));
                assert(decls.contains_key(chain[next])) by {
                    assert(chain[next] == self.visiting@[index + next]@);
                }
                if mistyped_alias(decls, member) {
                    let actual = choose|actual: TokenKind| #[trigger] mismatched_alias(decls, member, actual);
                    assert(mismatched_alias(decls, member, actual));
                    assert(resolvable(decls, chain[next]));
                }
                let last = before_errors.len() as int;
                assert(self.errors@[last] == reported_error);
                assert(path_views(reported_cycle@)[m - index] == member);
                assert(reports_cycle_through(self.errors@[last], member));
                assert(reports_alias(self.errors@, decls, member));
            }
            let member = self.visiting[m].duplicate();
            let ghost failed_before = self.failed@;
            let ghost member_at = member@;
            self.failed.insert(member, true);
            proof {
                assert(chain[m - index] == member_at);
                assert forall|p: Seq<Seq<char>>| #[trigger] self.failed@.contains_key(p) implies next_settled(
                    decls,
                    p,
                    self.resolved@,
                    self.failed@,
                ) || chain.contains(p) by {
                    if p != member_at {
                        assert(failed_before.contains_key(p));
                        if !chain.contains(p) {
                            assert(next_settled(decls, p, self.resolved@, failed_before));
                        }
                    }
                }
            }
            m = m + 1;
        }
        proof {
            assert(self.failed@.contains_key(path@));
            assert forall|p: Seq<Seq<char>>| #[trigger] self.failed@.contains_key(p) implies next_settled(
                decls,
                p,
                self.resolved@,
                self.failed@,
            ) by {
                if chain.contains(p) {
                    let w = choose|w: int| 0 <= w < chain.len() && chain[w] == p;
                    if w + 1 < chain.len() {
                        assert(aliases_to(decls[chain[w]], chain[w + 1]));
                        assert(self.failed@.contains_key(chain[w + 1]));
                    } else {
                        assert(aliases_to(decls[chain.last()], chain[0]));
                        assert(self.failed@.contains_key(chain[0]));
                    }
                }
            }
            assert forall|i: int, p: Seq<Seq<char>>|
                0 <= i < self.errors@.len() && #[trigger] error_subject(self.errors@[i], p) implies self.failed@.contains_key(
                p,
            ) by {
                if i == before_errors.len() {
                    assert(chain.push(path@).contains(p));
                    let w = choose|w: int| 0 <= w < chain.push(path@).len() && chain.push(path@)[w] == p;
                    if w < chain.len() {
                        assert(self.failed@.contains_key(chain[w]));
                    } else {
                        assert(p == path@);
                    }
                }
            }
        }
        None
    }
}

impl Resolver {
    /// Resolves every declared path.
    fn resolve_all(&mut self)
        requires
            old(self).wf(),
            old(self).errors_distinct(),
            old(self).visiting@.len() == 0,
            failed_closed(old(self).decls@, old(self).resolved@, old(self).failed@),
        ensures
            final(self).wf(),
            final(self).errors_distinct(),
            final(self).decls@ == old(self).decls@,
            forall|p: Seq<Seq<char>>|
                #[trigger] final(self).decls@.contains_key(p) ==> final(self).resolved@.contains_key(p)
                    || final(self).failed@.contains_key(p),
    {
        self.definitions.check_ordered();
        let count = self.definitions.len();
        let mut i: usize = 0;
        while i < count
            invariant
                self.wf(),
                self.errors_distinct(),
                self.decls@ == old(self).decls@,
                self.definitions == old(self).definitions,
                self.visiting@.len() == 0,
                failed_closed(self.decls@, self.resolved@, self.failed@),
                count == self.definitions.ordered().len(),
                i <= count,
                forall|k: int|
                    0 <= k < i ==> #[trigger] self.resolved@.contains_key(
                        self.definitions.ordered()[k].0@,
                    ) || self.failed@.contains_key(self.definitions.ordered()[k].0@),
            decreases count - i,
        {
            self.definitions.check_ordered();
            let path = self.definitions.entries()[i].0.duplicate();
            proof {
                assert(has_path(self.definitions.ordered(), path@)) by {
                    assert(self.definitions.ordered()[i as int].0@ == path@);
                }
                assert(self.definitions@.contains_key(path@));
                assert forall|q: Seq<Seq<char>>|
                    #[trigger] self.decls@.contains_key(q) && crate::text::segs_less(q, path@) implies self.resolved@.contains_key(
                    q,
                ) || self.failed@.contains_key(q) by {
                    assert(self.definitions@.contains_key(q));
                    let k = choose|k: int| 0 <= k < self.definitions.ordered().len() && #[trigger] self.definitions.ordered()[k].0@ == q;
                    if k >= i {
                        if k == i {
                            crate::text::lemma_segs_less_irreflexive(q);
                        } else {
                            assert(crate::text::segs_less(self.definitions.ordered()[i as int].0@, self.definitions.ordered()[k].0@));
                            crate::text::lemma_segs_less_asymmetric(q, path@);
                        }
                    }
                    assert(self.resolved@.contains_key(self.definitions.ordered()[k].0@)
                        || self.failed@.contains_key(self.definitions.ordered()[k].0@));
                }
                assert(self.below_settled(path@));
            }
            self.resolve(&path);
            i = i + 1;
        }
        self.definitions.check_ordered();
        proof {
            assert forall|p: Seq<Seq<char>>| #[trigger] self.decls@.contains_key(p) implies self.resolved@.contains_key(p)
                || self.failed@.contains_key(p) by {
                assert(self.definitions@.contains_key(p));
                let k = choose|k: int| 0 <= k < self.definitions.ordered().len() && #[trigger] self.definitions.ordered()[k].0@ == p;
                assert(self.resolved@.contains_key(self.definitions.ordered()[k].0@)
                    || self.failed@.contains_key(self.definitions.ordered()[k].0@));
            }
        }
    }
}

/// The errors of a token merge: the duplicates of `defs` first, in order,
/// then at least one more exactly when some declared path does not resolve.
/// Each of those is a dangling alias, a mistyped alias or a cycle of
/// aliases that the declarations exhibit; every dangling or mistyped alias
/// is reported, and so is a cycle through every path on a cycle of aliases;
/// no path is reported by two of them.
pub open spec fn token_errors(errors: Seq<CompileError>, defs: Seq<TokenDefinition>) -> bool {
    let dups = duplicate_paths(defs);
    let decls = first_definitions(defs);
    &&& errors.len() >= dups.len()
    &&& reports_duplicates(errors.take(dups.len() as int), dups)
    &&& (errors.len() > dups.len() <==> exists|p: Seq<Seq<char>>|
        #[trigger] decls.contains_key(p) && !resolvable(decls, p))
    &&& forall|i: int| dups.len() <= i < errors.len() ==> justified(decls, #[trigger] errors[i])
    &&& forall|p: Seq<Seq<char>>|
        #[trigger] dangling_alias(decls, p) ==> exists|i: int|
            0 <= i < errors.len() && #[trigger] reports_dangling(errors[i], p)
    &&& forall|p: Seq<Seq<char>>|
        #[trigger] mistyped_alias(decls, p) ==> exists|i: int|
            0 <= i < errors.len() && #[trigger] reports_mistyped(errors[i], p)
    &&& forall|p: Seq<Seq<char>>|
        #[trigger] on_alias_cycle(decls, p) ==> exists|i: int|
            0 <= i < errors.len() && #[trigger] reports_cycle_through(errors[i], p)
    &&& forall|i: int, j: int, p: Seq<Seq<char>>|
        dups.len() <= i < j < errors.len() && #[trigger] error_subject(errors[i], p) && #[trigger] error_subject(
            errors[j],
            p,
        ) ==> false
}

/// Whether every declared path of `defs` resolves and no path is declared twice.
pub open spec fn tokens_resolve(defs: Seq<TokenDefinition>) -> bool {
    &&& duplicate_paths(defs).len() == 0
    &&& forall|p: Seq<Seq<char>>|
        #[trigger] first_definitions(defs).contains_key(p) ==> resolvable(first_definitions(defs), p)
}

/// Every error of `errors` carries no labels and no suggestion.
pub open spec fn unlabelled(errors: CompileErrors) -> bool {
    forall|i: int|
        0 <= i < errors.metadata_of().len() ==> (#[trigger] errors.metadata_of()[i]).labels_of().len()
            == 0 && errors.metadata_of()[i].suggestion_of() is None
}

/// Wraps plain errors as diagnostics without labels.
fn plain_errors(errors: Vec<CompileError>) -> (r: CompileErrors)
    ensures
        r.errors_of() == errors@,
        r.metadata_of().len() == errors@.len(),
        unlabelled(r),
{
    let mut r = CompileErrors::new();
    let mut rest = errors;
    let ghost initial = rest@;
    let count = rest.len();
    let mut taken: usize = 0;
    while rest.len() > 0
        invariant
            taken + rest@.len() == count,
            initial.len() == count,
            rest@ == initial.subrange(taken as int, count as int),
            r.errors_of() == initial.subrange(0, taken as int),
            r.metadata_of().len() == taken,
            unlabelled(r),
        decreases rest@.len(),
    {
        let error = rest.remove(0);
        let ghost before = r.metadata_of();
        r.push(error, Vec::new(), None);
        proof {
            assert(initial.subrange(0, taken + 1) =~= initial.subrange(0, taken as int).push(error));
            assert forall|i: int| 0 <= i < r.metadata_of().len() implies (#[trigger] r.metadata_of()[i]).labels_of().len()
                == 0 && r.metadata_of()[i].suggestion_of() is None by {
                if i < taken {
                    assert(r.metadata_of()[i] == before[i]);
                }
            }
        }
        taken = taken + 1;
    }
    assert(initial.subrange(0, count as int) =~= initial);
    r
}

/// Merges and resolves token declarations from all supplied documents.
///
/// The first declaration of a path counts; each later one is a
/// `DuplicateToken` error. The result is `Ok` exactly when no path is
/// declared twice and every declared path resolves; its values are then the
/// unique resolution of the declarations.
#[verifier::spinoff_prover]
#[verifier::rlimit(40)]
pub fn resolve_tokens(documents: &[TokenDocument]) -> (r: Result<ResolvedTokens, CompileErrors>)
    ensures
        r is Ok <==> tokens_resolve(all_definitions(documents@)),
        r matches Ok(tokens) ==> full_resolution(
            first_definitions(all_definitions(documents@)),
            tokens@,
        ),
        r matches Err(e) ==> token_errors(e.errors_of(), all_definitions(documents@)) && unlabelled(
            e,
        ),
{
    let ghost defs = all_definitions(documents@);
    let ghost decls = first_definitions(defs);
    let (definitions, duplicates) = merge_definitions(documents);
    proof {
        lemma_first_definitions_keys(defs, Seq::empty());
    }
    let mut resolver = Resolver {
        definitions,
        resolved: PathMap::new(),
        failed: PathMap::new(),
        visiting: Vec::new(),
        errors: Vec::new(),
        decls: Ghost(decls),
        rank: Ghost(Map::empty()),
    };
    proof {
        assert(ranked_resolution(decls, resolver.resolved@, resolver.rank@));
        assert(resolver.errors_distinct());
    }
    resolver.resolve_all();
    let ghost dup_count = duplicates@.len();
    let ghost failures = resolver.errors@.len() > 0;
    proof {
        if failures {
            let q = choose|q: Seq<Seq<char>>| #[trigger] resolver.failed@.contains_key(q);
            assert(decls.contains_key(q) && !resolvable(decls, q));
        } else {
            assert forall|p: Seq<Seq<char>>| #[trigger] decls.contains_key(p) implies resolver.resolved@.contains_key(p) by {
                if resolver.failed@.contains_key(p) {
                }
            }
            assert forall|p: Seq<Seq<char>>| #[trigger] decls.contains_key(p) implies resolvable(decls, p) by {
                assert(resolver.resolved@.contains_key(p));
                assert(ranked_resolution(decls, resolver.resolved@, resolver.rank@));
            }
        }
        if exists|p: Seq<Seq<char>>| #[trigger] decls.contains_key(p) && !resolvable(decls, p) {
            let p = choose|p: Seq<Seq<char>>| #[trigger] decls.contains_key(p) && !resolvable(decls, p);
            if !failures {
                assert(resolvable(decls, p));
            }
        }
    }
    if duplicates.len() == 0 && resolver.errors.len() == 0 {
        proof {
            assert(resolver.resolved@.dom() =~= decls.dom()) by {
                assert forall|p: Seq<Seq<char>>| decls.contains_key(p) implies #[trigger] resolver.resolved@.contains_key(p) by {
                    if resolver.failed@.contains_key(p) {
                    }
                }
            }
            assert(ranked_resolution(decls, resolver.resolved@, resolver.rank@));
        }
        Ok(ResolvedTokens::from_map(resolver.resolved))
    } else {
        let mut all = duplicates;
        let ghost later_part = resolver.errors@;
        proof {
            assert(resolver.errors_reported());
            assert(resolver.errors_distinct());
        }
        let mut later = resolver.errors;
        let ghost first_part = all@;
        all.append(&mut later);
        proof {
            assert(all@.take(dup_count as int) =~= first_part);
            assert(all@ =~= first_part + later_part);
            assert forall|i: int| dup_count <= i < all@.len() implies justified(decls, #[trigger] all@[i]) by {
                assert(all@[i] == later_part[i - dup_count]);
            }
            assert forall|i: int, j: int, p: Seq<Seq<char>>|
                dup_count <= i < j < all@.len() && #[trigger] error_subject(all@[i], p) && #[trigger] error_subject(
                    all@[j],
                    p,
                ) implies false by {
                assert(all@[i] == later_part[i - dup_count]);
                assert(all@[j] == later_part[j - dup_count]);
                assert(subjects_distinct(later_part));
            }
            assert forall|p: Seq<Seq<char>>| #[trigger] dangling_alias(decls, p) implies exists|i: int|
                0 <= i < all@.len() && #[trigger] reports_dangling(all@[i], p) by {
                if resolver.resolved@.contains_key(p) {
                    lemma_resolved_alias_sound(decls, resolver.resolved@, resolver.rank@, p);
                }
                assert(resolver.failed@.contains_key(p));
                assert(reports_alias(later_part, decls, p));
                let i = choose|i: int| 0 <= i < later_part.len() && #[trigger] reports_dangling(later_part[i], p);
                assert(all@[dup_count + i] == later_part[i]);
            }
            assert forall|p: Seq<Seq<char>>| #[trigger] mistyped_alias(decls, p) implies exists|i: int|
                0 <= i < all@.len() && #[trigger] reports_mistyped(all@[i], p) by {
                if resolver.resolved@.contains_key(p) {
                    lemma_resolved_alias_sound(decls, resolver.resolved@, resolver.rank@, p);
                }
                assert(resolver.failed@.contains_key(p));
                assert(reports_alias(later_part, decls, p));
                let i = choose|i: int| 0 <= i < later_part.len() && #[trigger] reports_mistyped(later_part[i], p);
                assert(all@[dup_count + i] == later_part[i]);
            }
            assert forall|p: Seq<Seq<char>>| #[trigger] on_alias_cycle(decls, p) implies exists|i: int|
                0 <= i < all@.len() && #[trigger] reports_cycle_through(all@[i], p) by {
                lemma_on_cycle_unresolvable(decls, p);
                if resolver.resolved@.contains_key(p) {
                    assert(resolvable(decls, p));
                }
                assert(resolver.failed@.contains_key(p));
                assert(reports_alias(later_part, decls, p));
                let i = choose|i: int| 0 <= i < later_part.len() && #[trigger] reports_cycle_through(later_part[i], p);
                assert(all@[dup_count + i] == later_part[i]);
            }
        }
        Err(plain_errors(all))
    }
}

} // verus!
