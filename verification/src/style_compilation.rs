//! Compiling component styles against resolved tokens.
//!
//! A style starts from its parent's shape (or from nothing, with its own
//! target), applies its base properties, then its states. A property block
//! keeps the first assignment of each name whose value is available; an
//! override that would change the kind of an inherited or base value is
//! rejected and leaves the earlier value in place.
use crate::compiled::{compiled_kind, from_token_value, CompiledState, CompiledStyle, CompiledTheme, CompiledValue, CompiledValueKind, ResolvedTokens};
use crate::name_map::{entries_map, has_key, names_sorted, NameMap};
use crate::semantic_errors::{dotted, CompileError, CompileErrors, DiagnosticLabel, DiagnosticMetadata, LabelKind};
use crate::source::SourceId;
use crate::style_model::{Name, PropertyAssignment, StyleDefinition, StyleDocument, StyleState, StyleValue};
use crate::suggest::{closest_choice, closest_token, dotted_paths};
use crate::text::{lemma_chars_less_irreflexive, owned};
use crate::token_model::TokenValue;
use crate::token_path::TokenPath;
use vstd::prelude::*;

verus! {

/// The value a property assignment contributes, or `None` when it names a
/// token that is not resolved.
pub open spec fn assigned_value(
    value: StyleValue,
    tokens: Map<Seq<Seq<char>>, TokenValue>,
) -> Option<CompiledValue> {
    match value {
        StyleValue::Boolean(b) => Some(CompiledValue::Boolean(b)),
        StyleValue::Number(n) => Some(CompiledValue::Number(n)),
        StyleValue::String(s) => Some(CompiledValue::String(s)),
        StyleValue::Resource(r) => Some(CompiledValue::Resource(r)),
        StyleValue::Token(p) => if tokens.contains_key(p@) {
            Some(from_token_value(tokens[p@]))
        } else {
            None
        },
    }
}

/// The properties a block of assignments sets: for each name, the first
/// assignment whose value is available.
pub open spec fn block_values(
    block: Seq<PropertyAssignment>,
    tokens: Map<Seq<Seq<char>>, TokenValue>,
) -> Map<Seq<char>, CompiledValue>
    decreases block.len(),
{
    if block.len() == 0 {
        Map::empty()
    } else {
        let earlier = block_values(block.drop_last(), tokens);
        let a = block.last();
        match assigned_value(a.value_of(), tokens) {
            Some(v) => if earlier.contains_key(a.name_of()@) {
                earlier
            } else {
                earlier.insert(a.name_of()@, v)
            },
            None => earlier,
        }
    }
}

/// Whether every assignment of a block has its value and sets a new name.
pub open spec fn block_clean(
    block: Seq<PropertyAssignment>,
    tokens: Map<Seq<Seq<char>>, TokenValue>,
) -> bool
    decreases block.len(),
{
    if block.len() == 0 {
        true
    } else {
        &&& block_clean(block.drop_last(), tokens)
        &&& assigned_value(block.last().value_of(), tokens) is Some
        &&& !block_values(block.drop_last(), tokens).contains_key(block.last().name_of()@)
    }
}

/// Whether `v` may set `n` over `destination`, falling back to `fallback`:
/// a value already there must have the same kind.
pub open spec fn compatible(
    destination: Map<Seq<char>, CompiledValue>,
    fallback: Map<Seq<char>, CompiledValue>,
    n: Seq<char>,
    v: CompiledValue,
) -> bool {
    if destination.contains_key(n) {
        compiled_kind(destination[n]) == compiled_kind(v)
    } else if fallback.contains_key(n) {
        compiled_kind(fallback[n]) == compiled_kind(v)
    } else {
        true
    }
}

/// `destination` with every compatible incoming value set.
pub open spec fn merged(
    destination: Map<Seq<char>, CompiledValue>,
    fallback: Map<Seq<char>, CompiledValue>,
    incoming: Map<Seq<char>, CompiledValue>,
) -> Map<Seq<char>, CompiledValue> {
    Map::new(
        |n: Seq<char>|
            destination.contains_key(n) || (incoming.contains_key(n) && compatible(
                destination,
                fallback,
                n,
                incoming[n],
            )),
        |n: Seq<char>|
            if incoming.contains_key(n) && compatible(destination, fallback, n, incoming[n]) {
                incoming[n]
            } else {
                destination[n]
            },
    )
}

/// Whether every incoming value is compatible.
pub open spec fn merge_clean(
    destination: Map<Seq<char>, CompiledValue>,
    fallback: Map<Seq<char>, CompiledValue>,
    incoming: Map<Seq<char>, CompiledValue>,
) -> bool {
    forall|n: Seq<char>|
        #[trigger] incoming.contains_key(n) ==> compatible(destination, fallback, n, incoming[n])
}

/// `a` assigns `n` the token `t`.
pub open spec fn references(a: PropertyAssignment, n: Seq<char>, t: Seq<Seq<char>>) -> bool {
    &&& a.name_of()@ == n
    &&& a.value_of() matches StyleValue::Token(p)
    &&& p@ == t
}

/// Some assignment of `block` gives `n` the token `t`, which is not resolved.
pub open spec fn missing_reference(
    block: Seq<PropertyAssignment>,
    n: Seq<char>,
    t: Seq<Seq<char>>,
    tokens: Map<Seq<Seq<char>>, TokenValue>,
) -> bool {
    &&& !tokens.contains_key(t)
    &&& exists|i: int| 0 <= i < block.len() && #[trigger] references(block[i], n, t)
}

/// `block` assigns `n` more than once.
pub open spec fn assigned_twice(block: Seq<PropertyAssignment>, n: Seq<char>) -> bool {
    exists|i: int, j: int|
        #![trigger block[i], block[j]]
        0 <= i < j < block.len() && block[i].name_of()@ == n && block[j].name_of()@ == n
}

/// `a` assigns `n` a value of kind `kind`.
pub open spec fn assigns_kind_at(
    a: PropertyAssignment,
    n: Seq<char>,
    kind: CompiledValueKind,
    tokens: Map<Seq<Seq<char>>, TokenValue>,
) -> bool {
    &&& a.name_of()@ == n
    &&& assigned_value(a.value_of(), tokens) matches Some(v)
    &&& compiled_kind(v) == kind
}

/// Some assignment of `block` gives `n` a value of kind `kind`.
pub open spec fn assigns_kind(
    block: Seq<PropertyAssignment>,
    n: Seq<char>,
    kind: CompiledValueKind,
    tokens: Map<Seq<Seq<char>>, TokenValue>,
) -> bool {
    exists|i: int| 0 <= i < block.len() && #[trigger] assigns_kind_at(block[i], n, kind, tokens)
}

/// `states` declares a state named `n` more than once.
pub open spec fn declared_twice(states: Seq<StyleState>, n: Seq<char>) -> bool {
    exists|i: int, j: int|
        #![trigger states[i], states[j]]
        0 <= i < j < states.len() && states[i].name_of()@ == n && states[j].name_of()@ == n
}

/// The name of an optional state.
pub open spec fn state_view(state: Option<Name>) -> Option<Seq<char>> {
    match state {
        Some(s) => Some(s@),
        None => None,
    }
}

/// The base block of `def` (no state) or the block of one of its states
/// named `state` satisfies `pred`.
pub open spec fn has_block(
    def: StyleDefinition,
    state: Option<Seq<char>>,
    pred: spec_fn(Seq<PropertyAssignment>) -> bool,
) -> bool {
    match state {
        None => pred(def.properties_of()),
        Some(s) => exists|k: int|
            0 <= k < def.states_of().len() && (#[trigger] def.states_of()[k]).name_of()@ == s && pred(
                def.states_of()[k].properties_of(),
            ),
    }
}

/// `e` reports a problem of `block`, the block of style `style` in `state`.
pub open spec fn block_error(
    style: Seq<char>,
    state: Option<Seq<char>>,
    block: Seq<PropertyAssignment>,
    tokens: Map<Seq<Seq<char>>, TokenValue>,
    e: CompileError,
) -> bool {
    match e {
        CompileError::MissingToken { style: s, state: st, property, token } => s@ == style && state_view(st)
            == state && missing_reference(block, property@, token@, tokens),
        CompileError::DuplicateProperty { style: s, state: st, property } => s@ == style && state_view(st)
            == state && assigned_twice(block, property@),
        _ => false,
    }
}

/// `e` reports an override in style `style` and `state` whose kind differs
/// from the value it would replace: `incoming` holds the override.
pub open spec fn merge_error(
    style: Seq<char>,
    state: Option<Seq<char>>,
    incoming: Map<Seq<char>, CompiledValue>,
    e: CompileError,
) -> bool {
    match e {
        CompileError::PropertyTypeMismatch { style: s, state: st, property, expected, actual } => {
            &&& s@ == style
            &&& state_view(st) == state
            &&& incoming.contains_key(property@)
            &&& compiled_kind(incoming[property@]) == actual
            &&& expected != actual
        },
        _ => false,
    }
}

/// `e` reports a problem within the style declaration `def`: a missing
/// token, a repeated property or state, or an override of another kind.
pub open spec fn definition_error(
    def: StyleDefinition,
    tokens: Map<Seq<Seq<char>>, TokenValue>,
    e: CompileError,
) -> bool {
    match e {
        CompileError::MissingToken { style, state, property, token } => style@ == def.name_of()@ && has_block(
            def,
            state_view(state),
            |b: Seq<PropertyAssignment>| missing_reference(b, property@, token@, tokens),
        ),
        CompileError::DuplicateProperty { style, state, property } => style@ == def.name_of()@ && has_block(
            def,
            state_view(state),
            |b: Seq<PropertyAssignment>| assigned_twice(b, property@),
        ),
        CompileError::DuplicateState { style, state } => style@ == def.name_of()@ && declared_twice(
            def.states_of(),
            state@,
        ),
        CompileError::PropertyTypeMismatch { style, state, property, expected, actual } => style@
            == def.name_of()@ && expected != actual && has_block(
            def,
            state_view(state),
            |b: Seq<PropertyAssignment>| assigns_kind(b, property@, actual, tokens),
        ),
        _ => false,
    }
}

/// The name of an optional state, by reference.
pub open spec fn state_ref_view(state: Option<&Name>) -> Option<Seq<char>> {
    match state {
        Some(s) => Some(s@),
        None => None,
    }
}

/// A property that a block sets comes from one of its assignments.
proof fn lemma_block_value_source(
    block: Seq<PropertyAssignment>,
    tokens: Map<Seq<Seq<char>>, TokenValue>,
    n: Seq<char>,
)
    requires
        block_values(block, tokens).contains_key(n),
    ensures
        exists|i: int|
            0 <= i < block.len() && #[trigger] block[i].name_of()@ == n && assigned_value(
                block[i].value_of(),
                tokens,
            ) == Some(block_values(block, tokens)[n]),
    decreases block.len(),
{
    let init = block.drop_last();
    if block_values(init, tokens).contains_key(n) {
        lemma_block_value_source(init, tokens, n);
        let i = choose|i: int|
            0 <= i < init.len() && #[trigger] init[i].name_of()@ == n && assigned_value(
                init[i].value_of(),
                tokens,
            ) == Some(block_values(init, tokens)[n]);
        assert(block[i] == init[i]);
    } else {
        assert(block[block.len() - 1] == block.last());
    }
}

/// The assignment kinds a merge reports come from the block.
proof fn lemma_merge_error_kind(
    style: Seq<char>,
    state: Option<Seq<char>>,
    block: Seq<PropertyAssignment>,
    tokens: Map<Seq<Seq<char>>, TokenValue>,
    e: CompileError,
)
    requires
        merge_error(style, state, block_values(block, tokens), e),
    ensures
        e matches CompileError::PropertyTypeMismatch { property, actual, .. } && assigns_kind(
            block,
            property@,
            actual,
            tokens,
        ),
{
    match e {
        CompileError::PropertyTypeMismatch { property, actual, .. } => {
            lemma_block_value_source(block, tokens, property@);
            let i = choose|i: int|
                0 <= i < block.len() && #[trigger] block[i].name_of()@ == property@ && assigned_value(
                    block[i].value_of(),
                    tokens,
                ) == Some(block_values(block, tokens)[property@]);
            assert(assigns_kind_at(block[i], property@, actual, tokens));
        },
        _ => {},
    }
}

/// Returns the value a style property assignment contributes.
fn style_value(value: &StyleValue, tokens: &ResolvedTokens) -> (r: Option<CompiledValue>)
    ensures
        r == assigned_value(*value, tokens@),
{
    match value {
        StyleValue::Boolean(b) => Some(CompiledValue::Boolean(*b)),
        StyleValue::Number(n) => Some(CompiledValue::Number(*n)),
        StyleValue::String(s) => Some(CompiledValue::String(s.clone())),
        StyleValue::Resource(r) => Some(CompiledValue::Resource(r.duplicate())),
        StyleValue::Token(p) => match tokens.get(p) {
            Some(v) => Some(CompiledValue::from_token(v.duplicate())),
            None => None,
        },
    }
}

/// `did you mean 'CANDIDATE'?`
pub open spec fn suggestion_message(candidate: Seq<char>) -> Seq<char> {
    "did you mean '"@ + candidate + "'?"@
}

fn suggestion(candidate: &str) -> (r: String)
    ensures
        r@ == suggestion_message(candidate@),
{
    let mut r = owned("did you mean '");
    r.append(candidate);
    r.append("'?");
    r
}

fn copy_state(state: Option<&Name>) -> (r: Option<Name>)
    ensures
        match (state, r) {
            (Some(a), Some(b)) => b == *a,
            (None, None) => true,
            _ => false,
        },
{
    match state {
        Some(s) => Some(s.duplicate()),
        None => None,
    }
}

/// `errors` grew from `before` by appending, and grew exactly when `clean` fails.
pub open spec fn appended(before: CompileErrors, after: CompileErrors, clean: bool) -> bool {
    &&& after.errors_of().len() >= before.errors_of().len()
    &&& after.errors_of().subrange(0, before.errors_of().len() as int) == before.errors_of()
    &&& (after.errors_of().len() == before.errors_of().len()) == clean
}

/// What an error reports of a style's blocks, by its observable contents.
pub enum Reported {
    MissingToken(Seq<char>, Option<Seq<char>>, Seq<char>, Seq<Seq<char>>),
    DuplicateProperty(Seq<char>, Option<Seq<char>>, Seq<char>),
    DuplicateState(Seq<char>, Seq<char>),
    KindChange(Seq<char>, Option<Seq<char>>, Seq<char>),
    Other,
}

/// What `e` reports of a style's blocks.
pub open spec fn reported_as(e: CompileError) -> Reported {
    match e {
        CompileError::MissingToken { style, state, property, token } => Reported::MissingToken(
            style@,
            state_view(state),
            property@,
            token@,
        ),
        CompileError::DuplicateProperty { style, state, property } => Reported::DuplicateProperty(
            style@,
            state_view(state),
            property@,
        ),
        CompileError::DuplicateState { style, state } => Reported::DuplicateState(style@, state@),
        CompileError::PropertyTypeMismatch { style, state, property, .. } => Reported::KindChange(
            style@,
            state_view(state),
            property@,
        ),
        _ => Reported::Other,
    }
}

/// Some error of `errors` reports `v`.
pub open spec fn reported(errors: Seq<CompileError>, v: Reported) -> bool {
    exists|k: int| 0 <= k < errors.len() && #[trigger] reported_as(errors[k]) == v
}

/// Assignment `i` of `block`, in style `style` and state `state`, is
/// reported if it names a token that is not resolved, or sets again a
/// property that an earlier assignment set.
pub open spec fn assignment_reported(
    errors: Seq<CompileError>,
    style: Seq<char>,
    state: Option<Seq<char>>,
    block: Seq<PropertyAssignment>,
    tokens: Map<Seq<Seq<char>>, TokenValue>,
    i: int,
) -> bool {
    let a = block[i];
    &&& (a.value_of() is Token && !tokens.contains_key(a.value_of()->Token_0@)) ==> reported(
        errors,
        Reported::MissingToken(style, state, a.name_of()@, a.value_of()->Token_0@),
    )
    &&& (assigned_value(a.value_of(), tokens) is Some && block_values(block.take(i), tokens).contains_key(
        a.name_of()@,
    )) ==> reported(errors, Reported::DuplicateProperty(style, state, a.name_of()@))
}

/// Every problem of the assignments of `block` is reported.
pub open spec fn block_reported(
    errors: Seq<CompileError>,
    style: Seq<char>,
    state: Option<Seq<char>>,
    block: Seq<PropertyAssignment>,
    tokens: Map<Seq<Seq<char>>, TokenValue>,
) -> bool {
    forall|i: int| 0 <= i < block.len() ==> #[trigger] assignment_reported(errors, style, state, block, tokens, i)
}

/// Every incoming value whose kind differs from the one it would replace is
/// reported.
pub open spec fn merge_reported(
    errors: Seq<CompileError>,
    style: Seq<char>,
    state: Option<Seq<char>>,
    destination: Map<Seq<char>, CompiledValue>,
    fallback: Map<Seq<char>, CompiledValue>,
    incoming: Map<Seq<char>, CompiledValue>,
) -> bool {
    forall|n: Seq<char>|
        #[trigger] incoming.contains_key(n) && !compatible(destination, fallback, n, incoming[n]) ==> reported(
            errors,
            Reported::KindChange(style, state, n),
        )
}

/// Every problem of applying `states` of `def` is reported: a repeated
/// state, or a problem of a state's block or of its overrides.
pub open spec fn states_reported(
    errors: Seq<CompileError>,
    def: StyleDefinition,
    states: Seq<StyleState>,
    base: Map<Seq<char>, CompiledValue>,
    inherited: Map<Seq<char>, Map<Seq<char>, CompiledValue>>,
    tokens: Map<Seq<Seq<char>>, TokenValue>,
) -> bool
    decreases states.len(),
{
    if states.len() == 0 {
        true
    } else {
        let earlier = apply_states(states.drop_last(), base, inherited, tokens);
        let s = states.last();
        &&& states_reported(errors, def, states.drop_last(), base, inherited, tokens)
        &&& if declares_state(states.drop_last(), s.name_of()@) {
            reported(errors, Reported::DuplicateState(def.name_of()@, s.name_of()@))
        } else {
            &&& block_reported(errors, def.name_of()@, Some(s.name_of()@), s.properties_of(), tokens)
            &&& merge_reported(
                errors,
                def.name_of()@,
                Some(s.name_of()@),
                overrides_of(earlier, s.name_of()@),
                base,
                block_values(s.properties_of(), tokens),
            )
        }
    }
}

/// Every problem of declaring `def` over the shape `base` is reported.
pub open spec fn definition_reported(
    errors: Seq<CompileError>,
    def: StyleDefinition,
    base: StyleShape,
    tokens: Map<Seq<Seq<char>>, TokenValue>,
) -> bool {
    let incoming = block_values(def.properties_of(), tokens);
    &&& block_reported(errors, def.name_of()@, None, def.properties_of(), tokens)
    &&& merge_reported(errors, def.name_of()@, None, base.properties, Map::empty(), incoming)
    &&& states_reported(
        errors,
        def,
        def.states_of(),
        merged(base.properties, Map::empty(), incoming),
        base.states,
        tokens,
    )
}

/// Whatever `before` reports, `after` reports too.
pub open spec fn reports_all(before: Seq<CompileError>, after: Seq<CompileError>) -> bool {
    forall|v: Reported| #[trigger] reported(before, v) ==> reported(after, v)
}

/// What `before` reports, `after` reports too, when it extends it.
proof fn lemma_reported_grow(before: Seq<CompileError>, after: Seq<CompileError>)
    requires
        after.len() >= before.len(),
        after.subrange(0, before.len() as int) == before,
    ensures
        reports_all(before, after),
{
    assert forall|v: Reported| #[trigger] reported(before, v) implies reported(after, v) by {
        let k = choose|k: int| 0 <= k < before.len() && #[trigger] reported_as(before[k]) == v;
        assert(after[k] == after.subrange(0, before.len() as int)[k]);
    }
}

proof fn lemma_block_reported_grow(
    before: Seq<CompileError>,
    after: Seq<CompileError>,
    style: Seq<char>,
    state: Option<Seq<char>>,
    block: Seq<PropertyAssignment>,
    tokens: Map<Seq<Seq<char>>, TokenValue>,
)
    requires
        reports_all(before, after),
        block_reported(before, style, state, block, tokens),
    ensures
        block_reported(after, style, state, block, tokens),
{
    assert forall|i: int| 0 <= i < block.len() implies #[trigger] assignment_reported(after, style, state, block, tokens, i) by {
        assert(assignment_reported(before, style, state, block, tokens, i));
    }
}

proof fn lemma_merge_reported_grow(
    before: Seq<CompileError>,
    after: Seq<CompileError>,
    style: Seq<char>,
    state: Option<Seq<char>>,
    destination: Map<Seq<char>, CompiledValue>,
    fallback: Map<Seq<char>, CompiledValue>,
    incoming: Map<Seq<char>, CompiledValue>,
)
    requires
        reports_all(before, after),
        merge_reported(before, style, state, destination, fallback, incoming),
    ensures
        merge_reported(after, style, state, destination, fallback, incoming),
{
}

proof fn lemma_states_reported_grow(
    before: Seq<CompileError>,
    after: Seq<CompileError>,
    def: StyleDefinition,
    states: Seq<StyleState>,
    base: Map<Seq<char>, CompiledValue>,
    inherited: Map<Seq<char>, Map<Seq<char>, CompiledValue>>,
    tokens: Map<Seq<Seq<char>>, TokenValue>,
)
    requires
        reports_all(before, after),
        states_reported(before, def, states, base, inherited, tokens),
    ensures
        states_reported(after, def, states, base, inherited, tokens),
    decreases states.len(),
{
    if states.len() > 0 {
        lemma_states_reported_grow(before, after, def, states.drop_last(), base, inherited, tokens);
        let earlier = apply_states(states.drop_last(), base, inherited, tokens);
        let s = states.last();
        if !declares_state(states.drop_last(), s.name_of()@) {
            lemma_block_reported_grow(before, after, def.name_of()@, Some(s.name_of()@), s.properties_of(), tokens);
            lemma_merge_reported_grow(
                before,
                after,
                def.name_of()@,
                Some(s.name_of()@),
                overrides_of(earlier, s.name_of()@),
                base,
                block_values(s.properties_of(), tokens),
            );
        }
    }
}

/// What is reported of a declaration stays reported as errors are added.
proof fn lemma_definition_reported_grow(
    before: Seq<CompileError>,
    after: Seq<CompileError>,
    def: StyleDefinition,
    base: StyleShape,
    tokens: Map<Seq<Seq<char>>, TokenValue>,
)
    requires
        reports_all(before, after),
        definition_reported(before, def, base, tokens),
    ensures
        definition_reported(after, def, base, tokens),
{
    let incoming = block_values(def.properties_of(), tokens);
    lemma_block_reported_grow(before, after, def.name_of()@, None, def.properties_of(), tokens);
    lemma_merge_reported_grow(before, after, def.name_of()@, None, base.properties, Map::empty(), incoming);
    lemma_states_reported_grow(
        before,
        after,
        def,
        def.states_of(),
        merged(base.properties, Map::empty(), incoming),
        base.states,
        tokens,
    );
}

/// `after` holds the errors and presentations of `before`, then more, one
/// presentation per error.
pub open spec fn extends_errors(before: CompileErrors, after: CompileErrors) -> bool {
    &&& after.errors_of().len() >= before.errors_of().len()
    &&& after.errors_of().subrange(0, before.errors_of().len() as int) == before.errors_of()
    &&& after.metadata_of().len() == after.errors_of().len()
    &&& before.metadata_of().len() == before.errors_of().len()
    &&& after.metadata_of().subrange(0, before.metadata_of().len() as int) == before.metadata_of()
}

/// How an unresolved token reference of `block` to `token` by `property`
/// is shown: one primary label on such an assignment, in `source`, and the
/// closest of `candidates`, if any is close, as a suggestion.
pub open spec fn missing_token_shown(
    m: DiagnosticMetadata,
    source: SourceId,
    block: Seq<PropertyAssignment>,
    property: Seq<char>,
    token: Seq<Seq<char>>,
    candidates: Seq<Seq<char>>,
) -> bool {
    &&& exists|i: int|
        0 <= i < block.len() && #[trigger] references(block[i], property, token) && m.labels_of().len() == 1
            && m.labels_of()[0].source_of() == source && m.labels_of()[0].span_of() == block[i].span_of()
            && m.labels_of()[0].kind_of() == LabelKind::Primary && m.labels_of()[0].message_of()
            == "unresolved token reference"@
    &&& exists|c: Option<usize>|
        #[trigger] closest_choice(dotted(token), candidates, c) && m.suggestion_of() == match c {
            Some(k) => Some(suggestion_message(candidates[k as int])),
            None => None::<Seq<char>>,
        }
}

/// An unresolved token reference of `block` is shown as it should be.
pub open spec fn block_shown(
    e: CompileError,
    m: DiagnosticMetadata,
    source: SourceId,
    block: Seq<PropertyAssignment>,
    candidates: Seq<Seq<char>>,
) -> bool {
    e matches CompileError::MissingToken { property, token, .. } ==> missing_token_shown(
        m,
        source,
        block,
        property@,
        token@,
        candidates,
    )
}

/// An unresolved token reference of the declaration `def` is shown as it
/// should be.
pub open spec fn definition_shown(
    e: CompileError,
    m: DiagnosticMetadata,
    source: SourceId,
    def: StyleDefinition,
    candidates: Seq<Seq<char>>,
) -> bool {
    e matches CompileError::MissingToken { state, property, token, .. } ==> has_block(
        def,
        state_view(state),
        |b: Seq<PropertyAssignment>| missing_token_shown(m, source, b, property@, token@, candidates),
    )
}

/// An unresolved token reference of a declared style is shown as it
/// should be: labelled on the reference in the style's source, with the
/// closest declared token as a suggestion.
pub open spec fn declaration_shown(
    decls: Map<Seq<char>, (SourceId, StyleDefinition)>,
    e: CompileError,
    m: DiagnosticMetadata,
    candidates: Seq<Seq<char>>,
) -> bool {
    e matches CompileError::MissingToken { style, .. } ==> decls.contains_key(style@) && definition_shown(
        e,
        m,
        decls[style@].0,
        decls[style@].1,
        candidates,
    )
}

/// What is shown of a block of `def` is shown of `def`.
proof fn lemma_block_shown_lift(
    e: CompileError,
    m: DiagnosticMetadata,
    source: SourceId,
    def: StyleDefinition,
    state: Option<int>,
    candidates: Seq<Seq<char>>,
)
    requires
        state matches Some(i) ==> 0 <= i < def.states_of().len(),
        block_shown(
            e,
            m,
            source,
            match state {
                Some(i) => def.states_of()[i].properties_of(),
                None => def.properties_of(),
            },
            candidates,
        ),
        e is MissingToken ==> state_view(e->MissingToken_state) == match state {
            Some(i) => Some(def.states_of()[i].name_of()@),
            None => None::<Seq<char>>,
        },
    ensures
        definition_shown(e, m, source, def, candidates),
{
    match e {
        CompileError::MissingToken { state: st, property, token, .. } => {
            match state {
                Some(i) => {
                    let b = def.states_of()[i].properties_of();
                    assert(missing_token_shown(m, source, b, property@, token@, candidates));
                    assert((def.states_of()[i]).name_of()@ == state_view(st)->0);
                },
                None => {},
            }
        },
        _ => {},
    }
}

/// Compiles one block of property assignments, reporting unresolved tokens
/// and repeated properties.
fn compile_properties(
    errors: &mut CompileErrors,
    tokens: &ResolvedTokens,
    candidates: &Vec<TokenPath>,
    style: &Name,
    source: SourceId,
    state: Option<&Name>,
    block: &[PropertyAssignment],
) -> (r: NameMap<CompiledValue>)
    ensures
        r@ == block_values(block@, tokens@),
        appended(*old(errors), *final(errors), block_clean(block@, tokens@)),
        block_reported(final(errors).errors_of(), style@, state_ref_view(state), block@, tokens@),
        extends_errors(*old(errors), *final(errors)),
        forall|k: int|
            old(errors).errors_of().len() <= k < final(errors).errors_of().len() ==> block_shown(
                #[trigger] final(errors).errors_of()[k],
                final(errors).metadata_of()[k],
                source,
                block@,
                dotted_paths(candidates@),
            ),
        forall|i: int|
            old(errors).errors_of().len() <= i < final(errors).errors_of().len() ==> block_error(
                style@,
                state_ref_view(state),
                block@,
                tokens@,
                #[trigger] final(errors).errors_of()[i],
            ),
{
    let mut properties: NameMap<CompiledValue> = NameMap::new();
    let mut i: usize = 0;
    errors.check_valid();
    assert(block@.take(0) =~= Seq::<PropertyAssignment>::empty());
    assert(errors.metadata_of().subrange(0, errors.metadata_of().len() as int) =~= errors.metadata_of());
    assert(errors.errors_of().subrange(0, errors.errors_of().len() as int) =~= errors.errors_of());
    while i < block.len()
        invariant
            i <= block@.len(),
            properties@ == block_values(block@.take(i as int), tokens@),
            appended(*old(errors), *errors, block_clean(block@.take(i as int), tokens@)),
            forall|j: int|
                0 <= j < i ==> #[trigger] assignment_reported(
                    errors.errors_of(),
                    style@,
                    state_ref_view(state),
                    block@,
                    tokens@,
                    j,
                ),
            extends_errors(*old(errors), *errors),
            forall|k: int|
                old(errors).errors_of().len() <= k < errors.errors_of().len() ==> block_shown(
                    #[trigger] errors.errors_of()[k],
                    errors.metadata_of()[k],
                    source,
                    block@,
                    dotted_paths(candidates@),
                ),
            forall|k: int|
                old(errors).errors_of().len() <= k < errors.errors_of().len() ==> block_error(
                    style@,
                    state_ref_view(state),
                    block@,
                    tokens@,
                    #[trigger] errors.errors_of()[k],
                ),
        decreases block@.len() - i,
    {
        let assignment = &block[i];
        let ghost prefix = block@.take(i as int);
        let ghost next = block@.take(i + 1);
        assert(next.drop_last() =~= prefix);
        assert(next.last() == *assignment);
        let ghost before = *errors;
        match style_value(assignment.value(), tokens) {
            None => {
                let mut path = match assignment.value() {
                    StyleValue::Token(p) => p.duplicate(),
                    _ => {
                        proof {
                            assert(false);
                        }
                        return properties;
                    },
                };
                let choice = closest_token(&path, candidates.as_slice());
                let hint = match choice {
                    Some(k) => {
                        let text = candidates[k].to_string();
                        Some(suggestion(text.as_str()))
                    },
                    None => None,
                };
                errors.check_valid();
                let labels = vec![
                    DiagnosticLabel::primary(source, assignment.span(), "unresolved token reference"),
                ];
                errors.push(
                    CompileError::MissingToken {
                        style: style.duplicate(),
                        state: copy_state(state),
                        property: assignment.name().duplicate(),
                        token: path,
                    },
                    labels,
                    hint,
                );
                proof {
                    assert(errors.errors_of().subrange(0, before.errors_of().len() as int) =~= before.errors_of());
                    assert(errors.errors_of().subrange(0, old(errors).errors_of().len() as int) =~= old(errors).errors_of());
                    assert(references(block@[i as int], assignment.name_of()@, path@));
                    assert(block_error(style@, state_ref_view(state), block@, tokens@, errors.errors_of().last()));
                    let last = errors.errors_of().len() - 1;
                    assert(errors.errors_of()[last] == errors.errors_of().last());
                    assert(errors.metadata_of()[last] == errors.metadata_of().last());
                    assert(errors.metadata_of().subrange(0, old(errors).metadata_of().len() as int) =~= old(errors).metadata_of()) by {
                        assert(errors.metadata_of().drop_last() == before.metadata_of());
                        assert(before.metadata_of().subrange(0, old(errors).metadata_of().len() as int) == old(errors).metadata_of());
                    }
                    let m = errors.metadata_of().last();
                    assert(m.labels_of()[0].span_of() == block@[i as int].span_of());
                    assert(exists|w: int|
                        0 <= w < block@.len() && #[trigger] references(block@[w], assignment.name_of()@, path@)
                            && m.labels_of().len() == 1 && m.labels_of()[0].source_of() == source
                            && m.labels_of()[0].span_of() == block@[w].span_of() && m.labels_of()[0].kind_of()
                            == LabelKind::Primary && m.labels_of()[0].message_of() == "unresolved token reference"@) by {
                        reveal_strlit("unresolved token reference");
                    }
                    assert(closest_choice(dotted(path@), dotted_paths(candidates@), choice));
                    assert(block_shown(errors.errors_of()[last], errors.metadata_of()[last], source, block@, dotted_paths(candidates@)));
                    assert forall|k: int|
                        old(errors).errors_of().len() <= k < errors.errors_of().len() implies block_shown(
                            #[trigger] errors.errors_of()[k],
                            errors.metadata_of()[k],
                            source,
                            block@,
                            dotted_paths(candidates@),
                        ) by {
                        if k < last {
                            assert(errors.errors_of()[k] == before.errors_of()[k]);
                            assert(errors.metadata_of()[k] == errors.metadata_of().drop_last()[k]);
                        }
                    }
                    lemma_reported_grow(before.errors_of(), errors.errors_of());
                    assert(reported_as(errors.errors_of()[errors.errors_of().len() - 1]) == Reported::MissingToken(
                        style@,
                        state_ref_view(state),
                        assignment.name_of()@,
                        path@,
                    ));
                    assert forall|j: int| 0 <= j < i + 1 implies #[trigger] assignment_reported(
                        errors.errors_of(),
                        style@,
                        state_ref_view(state),
                        block@,
                        tokens@,
                        j,
                    ) by {
                        if j < i {
                            assert(assignment_reported(before.errors_of(), style@, state_ref_view(state), block@, tokens@, j));
                        }
                    }
                    assert forall|k: int| old(errors).errors_of().len() <= k < errors.errors_of().len() implies block_error(
                        style@,
                        state_ref_view(state),
                        block@,
                        tokens@,
                        #[trigger] errors.errors_of()[k],
                    ) by {
                        if k < before.errors_of().len() {
                            assert(errors.errors_of()[k] == before.errors_of()[k]);
                        }
                    }
                }
            },
            Some(value) => {
                if properties.contains_key(assignment.name()) {
                    let mut first_span = None;
                    let mut k: usize = 0;
                    while k < i
                        invariant
                            k <= i,
                            i < block@.len(),
                        decreases i - k,
                    {
                        if block[k].name().same(assignment.name()) {
                            first_span = block[k].span();
                            break;
                        }
                        k = k + 1;
                    }
                    let labels = vec![
                        DiagnosticLabel::secondary(source, first_span, "first property assignment"),
                        DiagnosticLabel::primary(source, assignment.span(), "duplicate property assignment"),
                    ];
                    errors.check_valid();
                    errors.push(
                        CompileError::DuplicateProperty {
                            style: style.duplicate(),
                            state: copy_state(state),
                            property: assignment.name().duplicate(),
                        },
                        labels,
                        None,
                    );
                    proof {
                        assert(errors.errors_of().subrange(0, before.errors_of().len() as int) =~= before.errors_of());
                        assert(errors.errors_of().subrange(0, old(errors).errors_of().len() as int) =~= old(errors).errors_of());
                        lemma_block_value_source(prefix, tokens@, assignment.name_of()@);
                        let k0 = choose|k0: int|
                            0 <= k0 < prefix.len() && #[trigger] prefix[k0].name_of()@ == assignment.name_of()@
                                && assigned_value(prefix[k0].value_of(), tokens@) == Some(
                                block_values(prefix, tokens@)[assignment.name_of()@],
                            );
                        assert(block@[k0] == prefix[k0]);
                        assert(assigned_twice(block@, assignment.name_of()@));
                        assert(block_error(style@, state_ref_view(state), block@, tokens@, errors.errors_of().last()));
                        assert(errors.metadata_of().subrange(0, old(errors).metadata_of().len() as int) =~= old(errors).metadata_of()) by {
                            assert(errors.metadata_of().drop_last() == before.metadata_of());
                            assert(before.metadata_of().subrange(0, old(errors).metadata_of().len() as int) == old(errors).metadata_of());
                        }
                        assert forall|k: int|
                            old(errors).errors_of().len() <= k < errors.errors_of().len() implies block_shown(
                                #[trigger] errors.errors_of()[k],
                                errors.metadata_of()[k],
                                source,
                                block@,
                                dotted_paths(candidates@),
                            ) by {
                            if k < errors.errors_of().len() - 1 {
                                assert(errors.errors_of()[k] == before.errors_of()[k]);
                                assert(errors.metadata_of()[k] == errors.metadata_of().drop_last()[k]);
                            }
                        }
                        lemma_reported_grow(before.errors_of(), errors.errors_of());
                        assert(reported_as(errors.errors_of()[errors.errors_of().len() - 1]) == Reported::DuplicateProperty(
                            style@,
                            state_ref_view(state),
                            assignment.name_of()@,
                        ));
                        assert forall|j: int| 0 <= j < i + 1 implies #[trigger] assignment_reported(
                            errors.errors_of(),
                            style@,
                            state_ref_view(state),
                            block@,
                            tokens@,
                            j,
                        ) by {
                            if j < i {
                                assert(assignment_reported(before.errors_of(), style@, state_ref_view(state), block@, tokens@, j));
                            }
                        }
                        assert forall|k: int| old(errors).errors_of().len() <= k < errors.errors_of().len() implies block_error(
                            style@,
                            state_ref_view(state),
                            block@,
                            tokens@,
                            #[trigger] errors.errors_of()[k],
                        ) by {
                            if k < before.errors_of().len() {
                                assert(errors.errors_of()[k] == before.errors_of()[k]);
                            }
                        }
                    }
                } else {
                    properties.insert(assignment.name().duplicate(), value);
                }
            },
        }
        i = i + 1;
    }
    assert(block@.take(block@.len() as int) =~= block@);
    properties
}

proof fn lemma_merged_step(
    destination: Map<Seq<char>, CompiledValue>,
    fallback: Map<Seq<char>, CompiledValue>,
    incoming: Map<Seq<char>, CompiledValue>,
    n: Seq<char>,
    v: CompiledValue,
)
    requires
        !incoming.contains_key(n),
    ensures
        merged(destination, fallback, incoming.insert(n, v)) == if compatible(
            destination,
            fallback,
            n,
            v,
        ) {
            merged(destination, fallback, incoming).insert(n, v)
        } else {
            merged(destination, fallback, incoming)
        },
        merge_clean(destination, fallback, incoming.insert(n, v)) == (merge_clean(
            destination,
            fallback,
            incoming,
        ) && compatible(destination, fallback, n, v)),
{
    let a = merged(destination, fallback, incoming.insert(n, v));
    let b = if compatible(destination, fallback, n, v) {
        merged(destination, fallback, incoming).insert(n, v)
    } else {
        merged(destination, fallback, incoming)
    };
    assert(a =~= b);
    if merge_clean(destination, fallback, incoming.insert(n, v)) {
        assert(incoming.insert(n, v).contains_key(n));
        assert forall|m: Seq<char>| #[trigger] incoming.contains_key(m) implies compatible(
            destination,
            fallback,
            m,
            incoming[m],
        ) by {
            assert(incoming.insert(n, v).contains_key(m));
        }
    }
}

/// Sets every compatible incoming property on `destination`, reporting the
/// overrides that would change a value's kind.
fn merge_properties(
    errors: &mut CompileErrors,
    style: &StyleDefinition,
    source: SourceId,
    state: Option<&Name>,
    destination: &mut NameMap<CompiledValue>,
    fallback: &NameMap<CompiledValue>,
    incoming: &NameMap<CompiledValue>,
)
    ensures
        final(destination)@ == merged(old(destination)@, fallback@, incoming@),
        appended(*old(errors), *final(errors), merge_clean(old(destination)@, fallback@, incoming@)),
        merge_reported(
            final(errors).errors_of(),
            style.name_of()@,
            state_ref_view(state),
            old(destination)@,
            fallback@,
            incoming@,
        ),
        extends_errors(*old(errors), *final(errors)),
        forall|i: int|
            old(errors).errors_of().len() <= i < final(errors).errors_of().len() ==> merge_error(
                style.name_of()@,
                state_ref_view(state),
                incoming@,
                #[trigger] final(errors).errors_of()[i],
            ),
{
    incoming.check_ordered();
    errors.check_valid();
    assert(errors.metadata_of().subrange(0, errors.metadata_of().len() as int) =~= errors.metadata_of());
    let entries = incoming.entries();
    let ghost start = destination@;
    let mut i: usize = 0;
    assert(entries_map(entries@.take(0)) =~= Map::<Seq<char>, CompiledValue>::empty());
    assert(merged(start, fallback@, Map::empty()) =~= start);
    assert(errors.errors_of().subrange(0, errors.errors_of().len() as int) =~= errors.errors_of());
    while i < entries.len()
        invariant
            entries@ == incoming.ordered(),
            names_sorted(entries@),
            incoming@ == entries_map(entries@),
            i <= entries@.len(),
            start == old(destination)@,
            destination@ == merged(start, fallback@, entries_map(entries@.take(i as int))),
            appended(*old(errors), *errors, merge_clean(start, fallback@, entries_map(entries@.take(i as int)))),
            merge_reported(
                errors.errors_of(),
                style.name_of()@,
                state_ref_view(state),
                start,
                fallback@,
                entries_map(entries@.take(i as int)),
            ),
            extends_errors(*old(errors), *errors),
            forall|k: int|
                old(errors).errors_of().len() <= k < errors.errors_of().len() ==> merge_error(
                    style.name_of()@,
                    state_ref_view(state),
                    incoming@,
                    #[trigger] errors.errors_of()[k],
                ),
        decreases entries@.len() - i,
    {
        let name = &entries[i].0;
        let value = &entries[i].1;
        let ghost seen = entries_map(entries@.take(i as int));
        proof {
            assert(entries@.take(i + 1).drop_last() =~= entries@.take(i as int));
            crate::name_map::lemma_entries_map_domain(entries@.take(i as int), name@);
            if has_key(entries@.take(i as int), name@) {
                let k = choose|k: int| 0 <= k < entries@.take(i as int).len() && #[trigger] entries@.take(i as int)[k].0@ == name@;
                assert(entries@[k].0@ == name@);
                lemma_chars_less_irreflexive(name@);
            }
            lemma_merged_step(start, fallback@, seen, name@, *value);
        }
        let ghost before = *errors;
        let expected = match destination.get(name) {
            Some(v) => Some(v.kind()),
            None => match fallback.get(name) {
                Some(v) => Some(v.kind()),
                None => None,
            },
        };
        let fits = match expected {
            Some(kind) => kind.same(value.kind()),
            None => true,
        };
        proof {
            assert(fits == compatible(start, fallback@, name@, *value));
        }
        if fits {
            destination.insert(name.duplicate(), value.duplicate());
        } else {
            let expected_kind = match expected {
                Some(kind) => kind,
                None => value.kind(),
            };
            errors.check_valid();
            errors.push(
                CompileError::PropertyTypeMismatch {
                    style: style.name().duplicate(),
                    state: copy_state(state),
                    property: name.duplicate(),
                    expected: expected_kind,
                    actual: value.kind(),
                },
                vec![DiagnosticLabel::primary(source, style.span(), "incompatible override")],
                None,
            );
            proof {
                assert(errors.errors_of().subrange(0, before.errors_of().len() as int) =~= before.errors_of());
                assert(errors.errors_of().subrange(0, old(errors).errors_of().len() as int) =~= old(errors).errors_of());
                crate::name_map::lemma_entries_map_domain(entries@, name@);
                assert(entries@[i as int].0@ == name@);
                assert(incoming@.contains_key(name@));
                crate::name_map::lemma_entries_map_value(entries@, i as int);
                assert(incoming@[name@] == *value);
                assert(merge_error(style.name_of()@, state_ref_view(state), incoming@, errors.errors_of().last()));
                assert(errors.metadata_of().subrange(0, old(errors).metadata_of().len() as int) =~= old(errors).metadata_of()) by {
                    assert(errors.metadata_of().drop_last() == before.metadata_of());
                    assert(before.metadata_of().subrange(0, old(errors).metadata_of().len() as int) == old(errors).metadata_of());
                }
                lemma_reported_grow(before.errors_of(), errors.errors_of());
                assert(reported_as(errors.errors_of()[errors.errors_of().len() - 1]) == Reported::KindChange(
                    style.name_of()@,
                    state_ref_view(state),
                    name@,
                ));
                assert forall|k: int| old(errors).errors_of().len() <= k < errors.errors_of().len() implies merge_error(
                    style.name_of()@,
                    state_ref_view(state),
                    incoming@,
                    #[trigger] errors.errors_of()[k],
                ) by {
                    if k < before.errors_of().len() {
                        assert(errors.errors_of()[k] == before.errors_of()[k]);
                    }
                }
            }
        }
        i = i + 1;
    }
    assert(entries@.take(entries@.len() as int) =~= entries@);
}

/// The shape of a style: its target, base properties and state overrides.
pub struct StyleShape {
    pub target: Seq<char>,
    pub properties: Map<Seq<char>, CompiledValue>,
    pub states: Map<Seq<char>, Map<Seq<char>, CompiledValue>>,
}

/// Whether one of `states` is named `n`.
pub open spec fn declares_state(states: Seq<StyleState>, n: Seq<char>) -> bool {
    exists|k: int| 0 <= k < states.len() && (#[trigger] states[k]).name_of()@ == n
}

/// The overrides recorded for state `n`, or none.
pub open spec fn overrides_of(
    states: Map<Seq<char>, Map<Seq<char>, CompiledValue>>,
    n: Seq<char>,
) -> Map<Seq<char>, CompiledValue> {
    if states.contains_key(n) {
        states[n]
    } else {
        Map::empty()
    }
}

/// Applying a style's states over the overrides it inherits keeps every
/// inherited state, and every override inherited for a state that none of
/// the style's blocks for that state sets keeps its value: a state that the
/// style declares again adds to the inherited overrides, it does not start
/// afresh.
pub proof fn lemma_inherited_overrides_kept(
    states: Seq<StyleState>,
    base: Map<Seq<char>, CompiledValue>,
    inherited: Map<Seq<char>, Map<Seq<char>, CompiledValue>>,
    tokens: Map<Seq<Seq<char>>, TokenValue>,
    n: Seq<char>,
    p: Seq<char>,
)
    requires
        inherited.contains_key(n),
        inherited[n].contains_key(p),
    ensures
        apply_states(states, base, inherited, tokens).contains_key(n),
        apply_states(states, base, inherited, tokens)[n].contains_key(p),
        (forall|k: int|
            0 <= k < states.len() && (#[trigger] states[k]).name_of()@ == n ==> !block_values(
                states[k].properties_of(),
                tokens,
            ).contains_key(p)) ==> apply_states(states, base, inherited, tokens)[n][p] == inherited[n][p],
    decreases states.len(),
{
    if states.len() > 0 {
        lemma_inherited_overrides_kept(states.drop_last(), base, inherited, tokens, n, p);
        let s = states.last();
        assert(s == states[states.len() - 1]);
        if (forall|k: int|
            0 <= k < states.len() && (#[trigger] states[k]).name_of()@ == n ==> !block_values(
                states[k].properties_of(),
                tokens,
            ).contains_key(p)) {
            assert forall|k: int|
                0 <= k < states.drop_last().len() && (#[trigger] states.drop_last()[k]).name_of()@ == n implies !block_values(
                states.drop_last()[k].properties_of(),
                tokens,
            ).contains_key(p) by {
                assert(states.drop_last()[k] == states[k]);
            }
        }
    }
}

/// State overrides after applying `states` in order over `inherited`; a
/// repeated state name is skipped.
pub open spec fn apply_states(
    states: Seq<StyleState>,
    base: Map<Seq<char>, CompiledValue>,
    inherited: Map<Seq<char>, Map<Seq<char>, CompiledValue>>,
    tokens: Map<Seq<Seq<char>>, TokenValue>,
) -> Map<Seq<char>, Map<Seq<char>, CompiledValue>>
    decreases states.len(),
{
    if states.len() == 0 {
        inherited
    } else {
        let earlier = apply_states(states.drop_last(), base, inherited, tokens);
        let s = states.last();
        if declares_state(states.drop_last(), s.name_of()@) {
            earlier
        } else {
            earlier.insert(
                s.name_of()@,
                merged(
                    overrides_of(earlier, s.name_of()@),
                    base,
                    block_values(s.properties_of(), tokens),
                ),
            )
        }
    }
}

/// Whether applying `states` reports nothing.
pub open spec fn states_clean(
    states: Seq<StyleState>,
    base: Map<Seq<char>, CompiledValue>,
    inherited: Map<Seq<char>, Map<Seq<char>, CompiledValue>>,
    tokens: Map<Seq<Seq<char>>, TokenValue>,
) -> bool
    decreases states.len(),
{
    if states.len() == 0 {
        true
    } else {
        let earlier = apply_states(states.drop_last(), base, inherited, tokens);
        let s = states.last();
        &&& states_clean(states.drop_last(), base, inherited, tokens)
        &&& !declares_state(states.drop_last(), s.name_of()@)
        &&& block_clean(s.properties_of(), tokens)
        &&& merge_clean(
            overrides_of(earlier, s.name_of()@),
            base,
            block_values(s.properties_of(), tokens),
        )
    }
}

/// The shape of a style declared by `def` over the shape `base`.
#[verifier::opaque]
pub open spec fn apply_definition(
    base: StyleShape,
    def: StyleDefinition,
    tokens: Map<Seq<Seq<char>>, TokenValue>,
) -> StyleShape {
    let properties = merged(base.properties, Map::empty(), block_values(def.properties_of(), tokens));
    StyleShape {
        target: base.target,
        properties,
        states: apply_states(def.states_of(), properties, base.states, tokens),
    }
}

/// Whether applying `def` over `base` reports nothing.
#[verifier::opaque]
pub open spec fn definition_clean(
    base: StyleShape,
    def: StyleDefinition,
    tokens: Map<Seq<Seq<char>>, TokenValue>,
) -> bool {
    let incoming = block_values(def.properties_of(), tokens);
    let properties = merged(base.properties, Map::empty(), incoming);
    &&& block_clean(def.properties_of(), tokens)
    &&& merge_clean(base.properties, Map::empty(), incoming)
    &&& states_clean(def.states_of(), properties, base.states, tokens)
}

/// The starting shape of a style without a parent.
pub open spec fn fresh_shape(def: StyleDefinition) -> StyleShape {
    StyleShape { target: def.target_of()@, properties: Map::empty(), states: Map::empty() }
}

/// A style being compiled.
struct PartialStyle {
    target: Name,
    properties: NameMap<CompiledValue>,
    state_overrides: NameMap<NameMap<CompiledValue>>,
}

impl PartialStyle {
    spec fn shape(&self) -> StyleShape {
        StyleShape {
            target: self.target@,
            properties: self.properties@,
            states: self.state_overrides@.map_values(|m: NameMap<CompiledValue>| m@),
        }
    }
}

/// Copies a property map.
fn copy_values(m: &NameMap<CompiledValue>) -> (r: NameMap<CompiledValue>)
    ensures
        r@ == m@,
{
    m.check_ordered();
    let entries = m.entries();
    let mut r: NameMap<CompiledValue> = NameMap::new();
    let mut i: usize = 0;
    assert(entries_map(entries@.take(0)) =~= Map::<Seq<char>, CompiledValue>::empty());
    while i < entries.len()
        invariant
            entries@ == m.ordered(),
            i <= entries@.len(),
            r@ == entries_map(entries@.take(i as int)),
        decreases entries@.len() - i,
    {
        r.insert(entries[i].0.duplicate(), entries[i].1.duplicate());
        assert(entries@.take(i + 1).drop_last() =~= entries@.take(i as int));
        i = i + 1;
    }
    assert(entries@.take(entries@.len() as int) =~= entries@);
    r
}

/// Copies a map of state overrides.
fn copy_overrides(m: &NameMap<NameMap<CompiledValue>>) -> (r: NameMap<NameMap<CompiledValue>>)
    ensures
        r@.map_values(|v: NameMap<CompiledValue>| v@) == m@.map_values(|v: NameMap<CompiledValue>| v@),
{
    m.check_ordered();
    let entries = m.entries();
    let mut r: NameMap<NameMap<CompiledValue>> = NameMap::new();
    let mut i: usize = 0;
    assert(entries_map(entries@.take(0)) =~= Map::<Seq<char>, NameMap<CompiledValue>>::empty());
    while i < entries.len()
        invariant
            entries@ == m.ordered(),
            i <= entries@.len(),
            r@.dom() == entries_map(entries@.take(i as int)).dom(),
            forall|k: Seq<char>| #[trigger] r@.contains_key(k) ==> r@[k]@ == entries_map(entries@.take(i as int))[k]@,
        decreases entries@.len() - i,
    {
        r.insert(entries[i].0.duplicate(), copy_values(&entries[i].1));
        assert(entries@.take(i + 1).drop_last() =~= entries@.take(i as int));
        i = i + 1;
    }
    assert(entries@.take(entries@.len() as int) =~= entries@);
    assert(r@.map_values(|v: NameMap<CompiledValue>| v@) =~= m@.map_values(|v: NameMap<CompiledValue>| v@));
    r
}

proof fn lemma_appended_trans(a: CompileErrors, b: CompileErrors, c: CompileErrors, x: bool, y: bool)
    requires
        appended(a, b, x),
        appended(b, c, y),
    ensures
        appended(a, c, x && y),
{
    assert(c.errors_of().subrange(0, a.errors_of().len() as int) =~= c.errors_of().subrange(
        0,
        b.errors_of().len() as int,
    ).subrange(0, a.errors_of().len() as int));
}

/// A problem of a block of `def` is a problem of `def`: the block is the
/// base block (`k` negative) or that of state `k`.
proof fn lemma_definition_block_error(
    def: StyleDefinition,
    tokens: Map<Seq<Seq<char>>, TokenValue>,
    k: int,
    e: CompileError,
)
    requires
        k < def.states_of().len(),
        k < 0 ==> block_error(def.name_of()@, None, def.properties_of(), tokens, e) || merge_error(
            def.name_of()@,
            None,
            block_values(def.properties_of(), tokens),
            e,
        ),
        k >= 0 ==> block_error(
            def.name_of()@,
            Some(def.states_of()[k].name_of()@),
            def.states_of()[k].properties_of(),
            tokens,
            e,
        ) || merge_error(
            def.name_of()@,
            Some(def.states_of()[k].name_of()@),
            block_values(def.states_of()[k].properties_of(), tokens),
            e,
        ),
    ensures
        definition_error(def, tokens, e),
{
    let block = if k < 0 {
        def.properties_of()
    } else {
        def.states_of()[k].properties_of()
    };
    let state = if k < 0 {
        None
    } else {
        Some(def.states_of()[k].name_of()@)
    };
    if merge_error(def.name_of()@, state, block_values(block, tokens), e) {
        lemma_merge_error_kind(def.name_of()@, state, block, tokens, e);
    }
}

/// Applies the states of a definition, in order, to `style`.
fn apply_state_blocks(
    errors: &mut CompileErrors,
    tokens: &ResolvedTokens,
    candidates: &Vec<TokenPath>,
    def: &StyleDefinition,
    source: SourceId,
    style: &mut PartialStyle,
)
    ensures
        final(style).target == old(style).target,
        final(style).properties@ == old(style).properties@,
        final(style).shape().states == apply_states(
            def.states_of(),
            old(style).properties@,
            old(style).shape().states,
            tokens@,
        ),
        appended(
            *old(errors),
            *final(errors),
            states_clean(def.states_of(), old(style).properties@, old(style).shape().states, tokens@),
        ),
        states_reported(
            final(errors).errors_of(),
            *def,
            def.states_of(),
            old(style).properties@,
            old(style).shape().states,
            tokens@,
        ),
        extends_errors(*old(errors), *final(errors)),
        forall|k: int|
            old(errors).errors_of().len() <= k < final(errors).errors_of().len() ==> definition_shown(
                #[trigger] final(errors).errors_of()[k],
                final(errors).metadata_of()[k],
                source,
                *def,
                dotted_paths(candidates@),
            ),
        forall|i: int|
            old(errors).errors_of().len() <= i < final(errors).errors_of().len() ==> definition_error(
                *def,
                tokens@,
                #[trigger] final(errors).errors_of()[i],
            ),
{
    let states = def.states();
    let ghost base = style.properties@;
    let ghost inherited = style.shape().states;
    let mut seen: NameMap<Option<crate::source::Span>> = NameMap::new();
    let mut i: usize = 0;
    errors.check_valid();
    assert(errors.metadata_of().subrange(0, errors.metadata_of().len() as int) =~= errors.metadata_of());
    assert(states@.take(0) =~= Seq::<StyleState>::empty());
    assert(errors.errors_of().subrange(0, errors.errors_of().len() as int) =~= errors.errors_of());
    while i < states.len()
        invariant
            states@ == def.states_of(),
            i <= states@.len(),
            style.target == old(style).target,
            style.properties@ == base,
            base == old(style).properties@,
            inherited == old(style).shape().states,
            style.shape().states == apply_states(states@.take(i as int), base, inherited, tokens@),
            forall|n: Seq<char>| #[trigger] seen@.contains_key(n) <==> declares_state(states@.take(i as int), n),
            appended(*old(errors), *errors, states_clean(states@.take(i as int), base, inherited, tokens@)),
            states_reported(errors.errors_of(), *def, states@.take(i as int), base, inherited, tokens@),
            extends_errors(*old(errors), *errors),
            forall|k: int|
                old(errors).errors_of().len() <= k < errors.errors_of().len() ==> definition_shown(
                    #[trigger] errors.errors_of()[k],
                    errors.metadata_of()[k],
                    source,
                    *def,
                    dotted_paths(candidates@),
                ),
            forall|k: int|
                old(errors).errors_of().len() <= k < errors.errors_of().len() ==> definition_error(
                    *def,
                    tokens@,
                    #[trigger] errors.errors_of()[k],
                ),
        decreases states@.len() - i,
    {
        let state = &states[i];
        let ghost prefix = states@.take(i as int);
        let ghost next = states@.take(i + 1);
        proof {
            assert(next.drop_last() =~= prefix);
            assert(next.last() == *state);
            assert forall|n: Seq<char>| declares_state(next, n) <==> declares_state(prefix, n) || n == state.name_of()@ by {
                if declares_state(next, n) {
                    let k = choose|k: int| 0 <= k < next.len() && (#[trigger] next[k]).name_of()@ == n;
                    if k < prefix.len() {
                        assert(prefix[k] == next[k]);
                    }
                }
                if declares_state(prefix, n) {
                    let k = choose|k: int| 0 <= k < prefix.len() && (#[trigger] prefix[k]).name_of()@ == n;
                    assert(next[k] == prefix[k]);
                }
                if n == state.name_of()@ {
                    assert(next[i as int] == *state);
                }
            }
        }
        let ghost before = *errors;
        match seen.insert(state.name().duplicate(), state.span()) {
            Some(first_span) => {
                errors.check_valid();
                errors.push(
                    CompileError::DuplicateState {
                        style: def.name().duplicate(),
                        state: state.name().duplicate(),
                    },
                    vec![
                        DiagnosticLabel::secondary(source, first_span, "first state declaration"),
                        DiagnosticLabel::primary(source, state.span(), "duplicate state declaration"),
                    ],
                    None,
                );
                proof {
                    assert(errors.errors_of().subrange(0, before.errors_of().len() as int) =~= before.errors_of());
                    lemma_appended_trans(*old(errors), before, *errors, states_clean(prefix, base, inherited, tokens@), false);
                    assert(declares_state(prefix, state.name_of()@));
                    let k0 = choose|k0: int| 0 <= k0 < prefix.len() && (#[trigger] prefix[k0]).name_of()@ == state.name_of()@;
                    assert(states@[k0] == prefix[k0]);
                    assert(declared_twice(def.states_of(), state.name_of()@)) by {
                        assert(def.states_of()[k0].name_of()@ == state.name_of()@);
                        assert(def.states_of()[i as int].name_of()@ == state.name_of()@);
                    }
                    assert(definition_error(*def, tokens@, errors.errors_of().last()));
                    lemma_reported_grow(before.errors_of(), errors.errors_of());
                    lemma_states_reported_grow(before.errors_of(), errors.errors_of(), *def, prefix, base, inherited, tokens@);
                    assert(reported_as(errors.errors_of()[errors.errors_of().len() - 1]) == Reported::DuplicateState(
                        def.name_of()@,
                        state.name_of()@,
                    ));
                    assert(states_reported(errors.errors_of(), *def, next, base, inherited, tokens@));
                    assert(errors.metadata_of().subrange(0, old(errors).metadata_of().len() as int) =~= old(errors).metadata_of()) by {
                        assert(errors.metadata_of().drop_last() == before.metadata_of());
                        assert(before.metadata_of().subrange(0, old(errors).metadata_of().len() as int) == old(errors).metadata_of());
                    }
                    assert forall|k: int|
                        old(errors).errors_of().len() <= k < errors.errors_of().len() implies definition_shown(
                            #[trigger] errors.errors_of()[k],
                            errors.metadata_of()[k],
                            source,
                            *def,
                            dotted_paths(candidates@),
                        ) by {
                        if k < errors.errors_of().len() - 1 {
                            assert(errors.errors_of()[k] == before.errors_of()[k]);
                            assert(errors.metadata_of()[k] == errors.metadata_of().drop_last()[k]);
                        }
                    }
                    assert forall|k: int| old(errors).errors_of().len() <= k < errors.errors_of().len() implies definition_error(
                        *def,
                        tokens@,
                        #[trigger] errors.errors_of()[k],
                    ) by {
                        if k < before.errors_of().len() {
                            assert(errors.errors_of()[k] == before.errors_of()[k]);
                        }
                    }
                }
            },
            None => {
                let name = state.name();
                let incoming = compile_properties(
                    errors,
                    tokens,
                    candidates,
                    def.name(),
                    source,
                    Some(name),
                    state.properties(),
                );
                let ghost middle = *errors;
                let ghost earlier = style.shape().states;
                let mut overrides = match style.state_overrides.get(name) {
                    Some(m) => copy_values(m),
                    None => NameMap::new(),
                };
                assert(overrides@ == overrides_of(earlier, name@));
                merge_properties(
                    errors,
                    def,
                    source,
                    Some(name),
                    &mut overrides,
                    &style.properties,
                    &incoming,
                );
                let ghost before_states = style.state_overrides@;
                style.state_overrides.insert(name.duplicate(), overrides);
                proof {
                    assert(def.states_of()[i as int] == *state);
                    assert forall|k: int| old(errors).errors_of().len() <= k < errors.errors_of().len() implies definition_error(
                        *def,
                        tokens@,
                        #[trigger] errors.errors_of()[k],
                    ) by {
                        if k >= middle.errors_of().len() {
                            lemma_definition_block_error(*def, tokens@, i as int, errors.errors_of()[k]);
                        } else if k >= before.errors_of().len() {
                            assert(errors.errors_of()[k] == errors.errors_of().subrange(0, middle.errors_of().len() as int)[k]);
                            assert(errors.errors_of()[k] == middle.errors_of()[k]);
                            lemma_definition_block_error(*def, tokens@, i as int, errors.errors_of()[k]);
                        } else {
                            assert(errors.errors_of()[k] == errors.errors_of().subrange(0, before.errors_of().len() as int)[k]);
                            assert(errors.errors_of()[k] == before.errors_of()[k]);
                        }
                    }
                    assert(style.shape().states =~= earlier.insert(
                        name@,
                        merged(overrides_of(earlier, name@), base, block_values(state.properties_of(), tokens@)),
                    ));
                    lemma_appended_trans(before, middle, *errors, block_clean(state.properties_of(), tokens@),
                        merge_clean(overrides_of(earlier, name@), base, block_values(state.properties_of(), tokens@)));
                    lemma_appended_trans(*old(errors), before, *errors, states_clean(prefix, base, inherited, tokens@),
                        block_clean(state.properties_of(), tokens@) && merge_clean(overrides_of(earlier, name@), base, block_values(state.properties_of(), tokens@)));
                    lemma_reported_grow(before.errors_of(), errors.errors_of());
                    lemma_reported_grow(middle.errors_of(), errors.errors_of());
                    lemma_states_reported_grow(before.errors_of(), errors.errors_of(), *def, prefix, base, inherited, tokens@);
                    lemma_block_reported_grow(
                        middle.errors_of(),
                        errors.errors_of(),
                        def.name_of()@,
                        Some(name@),
                        state.properties_of(),
                        tokens@,
                    );
                    assert(states_reported(errors.errors_of(), *def, next, base, inherited, tokens@));
                    assert(errors.metadata_of().subrange(0, old(errors).metadata_of().len() as int) =~= old(errors).metadata_of()) by {
                        assert(errors.metadata_of().subrange(0, before.metadata_of().len() as int) =~= middle.metadata_of().subrange(0, before.metadata_of().len() as int));
                    }
                    assert forall|k: int|
                        old(errors).errors_of().len() <= k < errors.errors_of().len() implies definition_shown(
                            #[trigger] errors.errors_of()[k],
                            errors.metadata_of()[k],
                            source,
                            *def,
                            dotted_paths(candidates@),
                        ) by {
                        if k < before.errors_of().len() {
                            assert(errors.errors_of()[k] == before.errors_of()[k]) by {
                                assert(errors.errors_of()[k] == errors.errors_of().subrange(0, middle.errors_of().len() as int)[k]);
                                assert(middle.errors_of()[k] == middle.errors_of().subrange(0, before.errors_of().len() as int)[k]);
                            }
                            assert(errors.metadata_of()[k] == before.metadata_of()[k]) by {
                                assert(errors.metadata_of()[k] == errors.metadata_of().subrange(0, middle.metadata_of().len() as int)[k]);
                                assert(middle.metadata_of()[k] == middle.metadata_of().subrange(0, before.metadata_of().len() as int)[k]);
                            }
                        } else if k < middle.errors_of().len() {
                            assert(errors.errors_of()[k] == middle.errors_of()[k]) by {
                                assert(errors.errors_of()[k] == errors.errors_of().subrange(0, middle.errors_of().len() as int)[k]);
                            }
                            assert(errors.metadata_of()[k] == middle.metadata_of()[k]) by {
                                assert(errors.metadata_of()[k] == errors.metadata_of().subrange(0, middle.metadata_of().len() as int)[k]);
                            }
                            assert(block_error(def.name_of()@, Some(name@), state.properties_of(), tokens@, middle.errors_of()[k]));
                            lemma_block_shown_lift(
                                errors.errors_of()[k],
                                errors.metadata_of()[k],
                                source,
                                *def,
                                Some(i as int),
                                dotted_paths(candidates@),
                            );
                        } else {
                            assert(merge_error(def.name_of()@, Some(name@), block_values(state.properties_of(), tokens@), errors.errors_of()[k]));
                        }
                    }
                }
            },
        }
        i = i + 1;
    }
    assert(states@.take(states@.len() as int) =~= states@);
}

/// Applies a definition over the shape `base`.
fn apply_definition_blocks(
    errors: &mut CompileErrors,
    tokens: &ResolvedTokens,
    candidates: &Vec<TokenPath>,
    def: &StyleDefinition,
    source: SourceId,
    base: PartialStyle,
) -> (r: PartialStyle)
    ensures
        r.target == base.target,
        r.shape() == apply_definition(base.shape(), *def, tokens@),
        appended(*old(errors), *final(errors), definition_clean(base.shape(), *def, tokens@)),
        definition_reported(final(errors).errors_of(), *def, base.shape(), tokens@),
        forall|i: int|
            old(errors).errors_of().len() <= i < final(errors).errors_of().len() ==> definition_error(
                *def,
                tokens@,
                #[trigger] final(errors).errors_of()[i],
            ),
        extends_errors(*old(errors), *final(errors)),
        forall|k: int|
            old(errors).errors_of().len() <= k < final(errors).errors_of().len() ==> definition_shown(
                #[trigger] final(errors).errors_of()[k],
                final(errors).metadata_of()[k],
                source,
                *def,
                dotted_paths(candidates@),
            ),
{
    proof {
        reveal(apply_definition);
        reveal(definition_clean);
    }
    let mut style = base;
    let incoming = compile_properties(errors, tokens, candidates, def.name(), source, None, def.properties());
    let ghost first = *errors;
    let empty: NameMap<CompiledValue> = NameMap::new();
    merge_properties(errors, def, source, None, &mut style.properties, &empty, &incoming);
    let ghost second = *errors;
    apply_state_blocks(errors, tokens, candidates, def, source, &mut style);
    proof {
        let incoming_view = block_values(def.properties_of(), tokens@);
        lemma_appended_trans(*old(errors), first, second, block_clean(def.properties_of(), tokens@),
            merge_clean(base.shape().properties, Map::empty(), incoming_view));
        lemma_appended_trans(*old(errors), second, *errors,
            block_clean(def.properties_of(), tokens@) && merge_clean(base.shape().properties, Map::empty(), incoming_view),
            states_clean(def.states_of(), merged(base.shape().properties, Map::empty(), incoming_view), base.shape().states, tokens@));
        assert(style.shape() == apply_definition(base.shape(), *def, tokens@));
        lemma_reported_grow(first.errors_of(), second.errors_of());
        lemma_reported_grow(second.errors_of(), errors.errors_of());
        assert(errors.metadata_of().subrange(0, old(errors).metadata_of().len() as int) =~= old(errors).metadata_of()) by {
            assert(errors.metadata_of().subrange(0, first.metadata_of().len() as int) =~= second.metadata_of().subrange(0, first.metadata_of().len() as int));
        }
        assert(errors.errors_of().subrange(0, old(errors).errors_of().len() as int) =~= old(errors).errors_of()) by {
            assert(errors.errors_of().subrange(0, first.errors_of().len() as int) =~= second.errors_of().subrange(0, first.errors_of().len() as int));
        }
        assert forall|k: int|
            old(errors).errors_of().len() <= k < errors.errors_of().len() implies definition_shown(
                #[trigger] errors.errors_of()[k],
                errors.metadata_of()[k],
                source,
                *def,
                dotted_paths(candidates@),
            ) by {
            if k < first.errors_of().len() {
                assert(errors.errors_of()[k] == first.errors_of()[k]) by {
                    assert(errors.errors_of()[k] == errors.errors_of().subrange(0, second.errors_of().len() as int)[k]);
                    assert(second.errors_of()[k] == second.errors_of().subrange(0, first.errors_of().len() as int)[k]);
                }
                assert(errors.metadata_of()[k] == first.metadata_of()[k]) by {
                    assert(errors.metadata_of()[k] == errors.metadata_of().subrange(0, second.metadata_of().len() as int)[k]);
                    assert(second.metadata_of()[k] == second.metadata_of().subrange(0, first.metadata_of().len() as int)[k]);
                }
                lemma_block_shown_lift(
                    errors.errors_of()[k],
                    errors.metadata_of()[k],
                    source,
                    *def,
                    None,
                    dotted_paths(candidates@),
                );
            } else if k < second.errors_of().len() {
                assert(errors.errors_of()[k] == second.errors_of()[k]) by {
                    assert(errors.errors_of()[k] == errors.errors_of().subrange(0, second.errors_of().len() as int)[k]);
                }
                assert(merge_error(def.name_of()@, None, block_values(def.properties_of(), tokens@), second.errors_of()[k]));
            }
        }
        lemma_block_reported_grow(first.errors_of(), second.errors_of(), def.name_of()@, None, def.properties_of(), tokens@);
        lemma_block_reported_grow(second.errors_of(), errors.errors_of(), def.name_of()@, None, def.properties_of(), tokens@);
        lemma_merge_reported_grow(
            second.errors_of(),
            errors.errors_of(),
            def.name_of()@,
            None,
            base.shape().properties,
            Map::empty(),
            incoming_view,
        );
        assert forall|k: int| old(errors).errors_of().len() <= k < errors.errors_of().len() implies definition_error(
            *def,
            tokens@,
            #[trigger] errors.errors_of()[k],
        ) by {
            if k < second.errors_of().len() {
                assert(errors.errors_of()[k] == errors.errors_of().subrange(0, second.errors_of().len() as int)[k]);
                if k < first.errors_of().len() {
                    assert(second.errors_of()[k] == second.errors_of().subrange(0, first.errors_of().len() as int)[k]);
                }
                lemma_definition_block_error(*def, tokens@, -1, errors.errors_of()[k]);
            }
        }
    }
    style
}

/// Every style of every document with its source, in document order.
pub open spec fn located_styles(docs: Seq<StyleDocument>) -> Seq<(SourceId, StyleDefinition)>
    decreases docs.len(),
{
    if docs.len() == 0 {
        Seq::empty()
    } else {
        located_styles(docs.drop_last()) + docs.last().styles_of().map_values(
            |d: StyleDefinition| (docs.last().source_of(), d),
        )
    }
}

/// The first declaration of each style name.
pub open spec fn first_styles(styles: Seq<(SourceId, StyleDefinition)>) -> Map<
    Seq<char>,
    (SourceId, StyleDefinition),
>
    decreases styles.len(),
{
    if styles.len() == 0 {
        Map::empty()
    } else {
        let earlier = first_styles(styles.drop_last());
        if earlier.contains_key(styles.last().1.name_of()@) {
            earlier
        } else {
            earlier.insert(styles.last().1.name_of()@, styles.last())
        }
    }
}

/// The names of the declarations that repeat an earlier style name, in order.
pub open spec fn duplicate_styles(styles: Seq<(SourceId, StyleDefinition)>) -> Seq<Seq<char>>
    decreases styles.len(),
{
    if styles.len() == 0 {
        Seq::empty()
    } else {
        let earlier = duplicate_styles(styles.drop_last());
        if first_styles(styles.drop_last()).contains_key(styles.last().1.name_of()@) {
            earlier.push(styles.last().1.name_of()@)
        } else {
            earlier
        }
    }
}

/// Every theme document names the theme of the first document.
pub open spec fn themes_agree(docs: Seq<StyleDocument>) -> bool {
    forall|k: int|
        0 <= k < docs.len() ==> ((#[trigger] docs[k]).theme_of() matches Some(t) ==> t@
            == docs[0].theme_of()->0@)
}

proof fn lemma_first_styles_finite(styles: Seq<(SourceId, StyleDefinition)>, n: Seq<char>)
    ensures
        first_styles(styles).dom().finite(),
        first_styles(styles).contains_key(n) ==> first_styles(styles)[n].1.name_of()@ == n,
    decreases styles.len(),
{
    if styles.len() > 0 {
        lemma_first_styles_finite(styles.drop_last(), n);
    }
}

/// Where each first declaration is found: `positions` maps each name to the
/// document and position of its first declaration.
pub open spec fn locates(
    positions: Map<Seq<char>, (usize, usize)>,
    docs: Seq<StyleDocument>,
    decls: Map<Seq<char>, (SourceId, StyleDefinition)>,
) -> bool {
    &&& positions.dom() == decls.dom()
    &&& forall|n: Seq<char>|
        #[trigger] positions.contains_key(n) ==> {
            let (i, j) = positions[n];
            &&& i < docs.len()
            &&& j < docs[i as int].styles_of().len()
            &&& decls[n] == (docs[i as int].source_of(), docs[i as int].styles_of()[j as int])
        }
}

/// Some document names the theme `found`, which differs from `expected`,
/// the theme of the first document.
pub open spec fn theme_conflict(docs: Seq<StyleDocument>, expected: Seq<char>, found: Seq<char>) -> bool {
    &&& docs.len() > 0
    &&& docs[0].theme_of() matches Some(t)
    &&& t@ == expected
    &&& found != expected
    &&& exists|k: int| 0 <= k < docs.len() && #[trigger] names_theme(docs[k], found)
}

/// `doc` names the theme `t`.
pub open spec fn names_theme(doc: StyleDocument, t: Seq<char>) -> bool {
    doc.theme_of() matches Some(n) && n@ == t
}

/// `e` reports a theme conflict among `docs`, or a style that `seen`
/// declares more than once.
pub open spec fn merge_style_error(
    docs: Seq<StyleDocument>,
    seen: Seq<(SourceId, StyleDefinition)>,
    e: CompileError,
) -> bool {
    match e {
        CompileError::ThemeNameMismatch { expected, found } => theme_conflict(docs, expected@, found@),
        CompileError::DuplicateStyle { style } => duplicate_styles(seen).contains(style@),
        _ => false,
    }
}

/// `e` reports a problem of the style documents `docs` compiled against
/// `tokens`.
pub open spec fn style_error(
    docs: Seq<StyleDocument>,
    tokens: Map<Seq<Seq<char>>, TokenValue>,
    e: CompileError,
) -> bool {
    match e {
        CompileError::NoStyleDocuments => docs.len() == 0,
        CompileError::NoThemeName => docs.len() > 0 && docs[0].theme_of() is None,
        CompileError::ThemeNameMismatch { .. } => merge_style_error(docs, located_styles(docs), e),
        CompileError::DuplicateStyle { .. } => merge_style_error(docs, located_styles(docs), e),
        _ => declaration_error(first_styles(located_styles(docs)), tokens, e),
    }
}

/// `e` reports that style `n` is declared more than once.
pub open spec fn reports_duplicate(e: CompileError, n: Seq<char>) -> bool {
    e matches CompileError::DuplicateStyle { style } && style@ == n
}

/// Some error of `errors` reports that `n` is declared more than once.
pub open spec fn duplicate_reported(errors: Seq<CompileError>, n: Seq<char>) -> bool {
    exists|k: int| 0 <= k < errors.len() && #[trigger] reports_duplicate(errors[k], n)
}

/// Each name of `dups` is reported by some error of `errors`.
pub open spec fn duplicates_reported(errors: Seq<CompileError>, dups: Seq<Seq<char>>) -> bool {
    forall|w: int| 0 <= w < dups.len() ==> #[trigger] duplicate_reported(errors, dups[w])
}

proof fn lemma_duplicates_grow(before: Seq<CompileError>, after: Seq<CompileError>, dups: Seq<Seq<char>>)
    requires
        duplicates_reported(before, dups),
        after.len() >= before.len(),
        forall|k: int| 0 <= k < before.len() ==> after[k] == before[k],
    ensures
        duplicates_reported(after, dups),
{
    assert forall|w: int| 0 <= w < dups.len() implies #[trigger] duplicate_reported(after, dups[w]) by {
        assert(duplicate_reported(before, dups[w]));
        let k = choose|k: int| 0 <= k < before.len() && #[trigger] reports_duplicate(before[k], dups[w]);
        assert(after[k] == before[k]);
        assert(reports_duplicate(after[k], dups[w]));
    }
}

/// Collects the first declaration of each style, reporting repeated styles
/// and documents that name another theme.
fn merge_styles(documents: &[StyleDocument], theme: &Name, first_source: SourceId) -> (r: (
    NameMap<(usize, usize)>,
    CompileErrors,
))
    requires
        documents@.len() > 0,
        documents@[0].theme_of() == Some(*theme),
    ensures
        locates(r.0@, documents@, first_styles(located_styles(documents@))),
        (r.1.errors_of().len() == 0) == (themes_agree(documents@) && duplicate_styles(
            located_styles(documents@),
        ).len() == 0),
        duplicates_reported(r.1.errors_of(), duplicate_styles(located_styles(documents@))),
        forall|i: int|
            0 <= i < r.1.errors_of().len() ==> merge_style_error(
                documents@,
                located_styles(documents@),
                #[trigger] r.1.errors_of()[i],
            ),
{
    let mut positions: NameMap<(usize, usize)> = NameMap::new();
    let mut errors = CompileErrors::new();
    let mut i: usize = 0;
    assert(documents@.take(0) =~= Seq::<StyleDocument>::empty());
    while i < documents.len()
        invariant
            i <= documents@.len(),
            documents@[0].theme_of() == Some(*theme),
            locates(positions@, documents@, first_styles(located_styles(documents@.take(i as int)))),
            (errors.errors_of().len() == 0) == (themes_agree(documents@.take(i as int)) && duplicate_styles(
                located_styles(documents@.take(i as int)),
            ).len() == 0),
            i > 0 ==> documents@.take(i as int)[0] == documents@[0],
            duplicates_reported(errors.errors_of(), duplicate_styles(located_styles(documents@.take(i as int)))),
            forall|k: int|
                0 <= k < errors.errors_of().len() ==> merge_style_error(
                    documents@,
                    located_styles(documents@.take(i as int)),
                    #[trigger] errors.errors_of()[k],
                ),
        decreases documents@.len() - i,
    {
        let document = &documents[i];
        let ghost earlier_docs = documents@.take(i as int);
        let ghost docs_next = documents@.take(i + 1);
        proof {
            assert(docs_next.drop_last() =~= earlier_docs);
            assert(docs_next.last() == *document);
            assert(docs_next[0] == documents@[0]);
            assert(themes_agree(docs_next) == (themes_agree(earlier_docs) && (document.theme_of() matches Some(t) ==> t@ == theme@))) by {
                if themes_agree(docs_next) {
                    assert forall|k: int| 0 <= k < earlier_docs.len() implies ((#[trigger] earlier_docs[k]).theme_of() matches Some(t) ==> t@ == earlier_docs[0].theme_of()->0@) by {
                        assert(docs_next[k] == earlier_docs[k]);
                    }
                    assert(docs_next[i as int] == *document);
                }
                if themes_agree(earlier_docs) && (document.theme_of() matches Some(t) ==> t@ == theme@) {
                    assert forall|k: int| 0 <= k < docs_next.len() implies ((#[trigger] docs_next[k]).theme_of() matches Some(t) ==> t@ == docs_next[0].theme_of()->0@) by {
                        if k < i {
                            assert(docs_next[k] == earlier_docs[k]);
                        }
                    }
                }
            }
        }
        let mismatch = match document.theme() {
            Some(found) => !found.same(theme),
            None => false,
        };
        if mismatch {
            let found = document.theme().unwrap().duplicate();
            let ghost before_errors = errors.errors_of();
            proof {
                assert(names_theme(documents@[i as int], found@));
                assert(theme_conflict(documents@, theme@, found@));
            }
            errors.push(
                CompileError::ThemeNameMismatch { expected: theme.duplicate(), found },
                vec![
                    DiagnosticLabel::secondary(first_source, None, "theme name established here"),
                    DiagnosticLabel::primary(document.source(), None, "conflicting theme name"),
                ],
                None,
            );
            proof {
                assert forall|k: int| 0 <= k < errors.errors_of().len() implies merge_style_error(
                    documents@,
                    located_styles(earlier_docs),
                    #[trigger] errors.errors_of()[k],
                ) by {
                    if k < before_errors.len() {
                        assert(errors.errors_of()[k] == before_errors[k]);
                    }
                }
                lemma_duplicates_grow(before_errors, errors.errors_of(), duplicate_styles(located_styles(earlier_docs)));
            }
        }
        let styles = document.styles();
        let ghost before = located_styles(earlier_docs);
        let ghost added = styles@.map_values(|d: StyleDefinition| (document.source_of(), d));
        let mut j: usize = 0;
        assert(before + added.take(0) =~= before);
        while j < styles.len()
            invariant
                i < documents@.len(),
                *document == documents@[i as int],
                styles@ == document.styles_of(),
                added == styles@.map_values(|d: StyleDefinition| (document.source_of(), d)),
                j <= styles@.len(),
                locates(positions@, documents@, first_styles(before + added.take(j as int))),
                (errors.errors_of().len() == 0) == (themes_agree(docs_next) && duplicate_styles(
                    before + added.take(j as int),
                ).len() == 0),
                duplicates_reported(errors.errors_of(), duplicate_styles(before + added.take(j as int))),
                forall|k: int|
                    0 <= k < errors.errors_of().len() ==> merge_style_error(
                        documents@,
                        before + added.take(j as int),
                        #[trigger] errors.errors_of()[k],
                    ),
            decreases styles@.len() - j,
        {
            let style = &styles[j];
            let ghost seen = before + added.take(j as int);
            let ghost next = before + added.take(j + 1);
            proof {
                assert(next.drop_last() =~= seen);
                assert(next.last() == (document.source_of(), *style));
                lemma_first_styles_finite(seen, style.name_of()@);
            }
            match positions.get(style.name()) {
                Some(position) => {
                    let (di, si) = *position;
                    let first = &documents[di].styles()[si];
                    let ghost before_push = errors.errors_of();
                    errors.push(
                        CompileError::DuplicateStyle { style: style.name().duplicate() },
                        vec![
                            DiagnosticLabel::secondary(documents[di].source(), first.span(), "first declaration"),
                            DiagnosticLabel::primary(document.source(), style.span(), "duplicate declaration"),
                        ],
                        None,
                    );
                    proof {
                        assert(first_styles(next) == first_styles(seen));
                        assert(duplicate_styles(next) == duplicate_styles(seen).push(style.name_of()@));
                        let dn = duplicate_styles(next);
                        let ds = duplicate_styles(seen);
                        assert(dn[ds.len() as int] == style.name_of()@);
                        lemma_duplicates_grow(before_push, errors.errors_of(), ds);
                        assert forall|w: int| 0 <= w < dn.len() implies #[trigger] duplicate_reported(
                            errors.errors_of(),
                            dn[w],
                        ) by {
                            if w < ds.len() {
                                assert(dn[w] == ds[w]);
                                assert(duplicate_reported(errors.errors_of(), ds[w]));
                            } else {
                                assert(reports_duplicate(errors.errors_of()[before_push.len() as int], dn[w]));
                            }
                        }
                        assert forall|k: int| 0 <= k < errors.errors_of().len() implies merge_style_error(
                            documents@,
                            next,
                            #[trigger] errors.errors_of()[k],
                        ) by {
                            let e = errors.errors_of()[k];
                            if k < errors.errors_of().len() - 1 {
                                assert(merge_style_error(documents@, seen, e));
                                match e {
                                    CompileError::DuplicateStyle { style: st } => {
                                        let w = choose|w: int| 0 <= w < ds.len() && ds[w] == st@;
                                        assert(dn[w] == st@);
                                    },
                                    _ => {},
                                }
                            }
                        }
                    }
                },
                None => {
                    positions.insert(style.name().duplicate(), (i, j));
                    proof {
                        assert(first_styles(next) == first_styles(seen).insert(
                            style.name_of()@,
                            (document.source_of(), *style),
                        ));
                        assert(duplicate_styles(next) == duplicate_styles(seen));
                        assert(positions@.dom() =~= first_styles(next).dom());
                        assert forall|k: int| 0 <= k < errors.errors_of().len() implies merge_style_error(
                            documents@,
                            next,
                            #[trigger] errors.errors_of()[k],
                        ) by {
                            assert(merge_style_error(documents@, seen, errors.errors_of()[k]));
                        }
                        assert(added[j as int] == (document.source_of(), *style));
                    }
                },
            }
            j = j + 1;
        }
        proof {
            assert(added.take(styles@.len() as int) =~= added);
            assert(located_styles(docs_next) == before + added);
        }
        i = i + 1;
    }
    assert(documents@.take(documents@.len() as int) =~= documents@);
    (positions, errors)
}

/// The shape a style starts from: its parent's, or a fresh one.
pub open spec fn style_base(
    decls: Map<Seq<char>, (SourceId, StyleDefinition)>,
    shapes: Map<Seq<char>, StyleShape>,
    n: Seq<char>,
) -> StyleShape {
    match decls[n].1.extends_of() {
        None => fresh_shape(decls[n].1),
        Some(p) => shapes[p@],
    }
}

/// The shape of `n` agrees with its declaration and its parent's shape.
pub open spec fn shaped_by(
    decls: Map<Seq<char>, (SourceId, StyleDefinition)>,
    tokens: Map<Seq<Seq<char>>, TokenValue>,
    shapes: Map<Seq<char>, StyleShape>,
    rank: Map<Seq<char>, nat>,
    n: Seq<char>,
) -> bool {
    let def = decls[n].1;
    &&& match def.extends_of() {
        None => true,
        Some(p) => {
            &&& shapes.contains_key(p@)
            &&& rank.contains_key(p@)
            &&& rank[p@] < rank[n]
            &&& shapes[p@].target == def.target_of()@
        },
    }
    &&& shapes[n] == apply_definition(style_base(decls, shapes, n), def, tokens)
}

/// `shapes` gives declared styles shapes that agree with their declarations,
/// and `rank` shows that inheritance is well founded.
pub open spec fn ranked_styles(
    decls: Map<Seq<char>, (SourceId, StyleDefinition)>,
    tokens: Map<Seq<Seq<char>>, TokenValue>,
    shapes: Map<Seq<char>, StyleShape>,
    rank: Map<Seq<char>, nat>,
) -> bool {
    forall|n: Seq<char>|
        #[trigger] shapes.contains_key(n) ==> decls.contains_key(n) && rank.contains_key(n)
            && shaped_by(decls, tokens, shapes, rank, n)
}

/// Whether some ranked shaping gives `n` a shape.
pub open spec fn style_resolvable(
    decls: Map<Seq<char>, (SourceId, StyleDefinition)>,
    tokens: Map<Seq<Seq<char>>, TokenValue>,
    n: Seq<char>,
) -> bool {
    exists|shapes: Map<Seq<char>, StyleShape>, rank: Map<Seq<char>, nat>|
        #[trigger] ranked_styles(decls, tokens, shapes, rank) && shapes.contains_key(n)
}

/// Two ranked shapings agree on every style that both shape.
pub proof fn lemma_shapes_unique(
    decls: Map<Seq<char>, (SourceId, StyleDefinition)>,
    tokens: Map<Seq<Seq<char>>, TokenValue>,
    shapes1: Map<Seq<char>, StyleShape>,
    rank1: Map<Seq<char>, nat>,
    shapes2: Map<Seq<char>, StyleShape>,
    rank2: Map<Seq<char>, nat>,
    n: Seq<char>,
)
    requires
        ranked_styles(decls, tokens, shapes1, rank1),
        ranked_styles(decls, tokens, shapes2, rank2),
        shapes1.contains_key(n),
        shapes2.contains_key(n),
    ensures
        shapes1[n] == shapes2[n],
    decreases rank1[n],
{
    match decls[n].1.extends_of() {
        None => {},
        Some(p) => {
            lemma_shapes_unique(decls, tokens, shapes1, rank1, shapes2, rank2, p@);
        },
    }
}

/// Following parents from a shaped style stays shaped, with decreasing rank.
proof fn lemma_parent_chain(
    decls: Map<Seq<char>, (SourceId, StyleDefinition)>,
    tokens: Map<Seq<Seq<char>>, TokenValue>,
    shapes: Map<Seq<char>, StyleShape>,
    rank: Map<Seq<char>, nat>,
    chain: Seq<Seq<char>>,
    j: int,
    k: int,
)
    requires
        ranked_styles(decls, tokens, shapes, rank),
        0 <= j <= k < chain.len(),
        forall|i: int| 0 <= i < chain.len() - 1 ==> extends_to(decls[#[trigger] chain[i]].1, chain[i + 1]),
        shapes.contains_key(chain[j]),
    ensures
        shapes.contains_key(chain[k]),
        rank.contains_key(chain[k]),
        rank[chain[k]] + (k - j) <= rank[chain[j]],
    decreases k - j,
{
    assert(shapes.contains_key(chain[j]));
    if j < k {
        lemma_parent_chain(decls, tokens, shapes, rank, chain, j, k - 1);
        assert(extends_to(decls[chain[k - 1]].1, chain[k]));
        assert(shapes.contains_key(chain[k - 1]));
    }
}

/// Whether a declaration extends `parent`.
pub open spec fn extends_to(def: StyleDefinition, parent: Seq<char>) -> bool {
    def.extends_of() matches Some(p) && p@ == parent
}

/// No member of a closed inheritance chain is shaped.
pub proof fn lemma_inheritance_cycle(
    decls: Map<Seq<char>, (SourceId, StyleDefinition)>,
    tokens: Map<Seq<Seq<char>>, TokenValue>,
    chain: Seq<Seq<char>>,
    k: int,
)
    requires
        chain.len() >= 1,
        forall|i: int| 0 <= i < chain.len() - 1 ==> extends_to(decls[#[trigger] chain[i]].1, chain[i + 1]),
        extends_to(decls[chain.last()].1, chain[0]),
        0 <= k < chain.len(),
    ensures
        !style_resolvable(decls, tokens, chain[k]),
{
    if style_resolvable(decls, tokens, chain[k]) {
        let (shapes, rank) = choose|
            shapes: Map<Seq<char>, StyleShape>,
            rank: Map<Seq<char>, nat>,
        | #[trigger] ranked_styles(decls, tokens, shapes, rank) && shapes.contains_key(chain[k]);
        let n = chain.len() - 1;
        lemma_parent_chain(decls, tokens, shapes, rank, chain, k, n);
        assert(shapes.contains_key(chain[n]));
        assert(chain[n] == chain.last());
        lemma_parent_chain(decls, tokens, shapes, rank, chain, 0, k);
        assert(false);
    }
}

/// Copies a style being compiled.
fn copy_partial(p: &PartialStyle) -> (r: PartialStyle)
    ensures
        r.shape() == p.shape(),
        r.target == p.target,
{
    PartialStyle {
        target: p.target.duplicate(),
        properties: copy_values(&p.properties),
        state_overrides: copy_overrides(&p.state_overrides),
    }
}

/// A closed chain of parents: each style is declared to extend the next,
/// and the last style is the first.
pub open spec fn inheritance_cycle(
    decls: Map<Seq<char>, (SourceId, StyleDefinition)>,
    c: Seq<Seq<char>>,
) -> bool {
    &&& c.len() >= 2
    &&& c[0] == c.last()
    &&& forall|i: int|
        0 <= i < c.len() - 1 ==> decls.contains_key(#[trigger] c[i]) && extends_to(decls[c[i]].1, c[i + 1])
}

/// The parent that the declaration of `n` names, if any.
pub open spec fn parent_step(decls: Map<Seq<char>, (SourceId, StyleDefinition)>, n: Seq<char>) -> Option<Seq<char>> {
    if decls.contains_key(n) {
        match decls[n].1.extends_of() {
            Some(p) => Some(p@),
            None => None,
        }
    } else {
        None
    }
}

/// The style reached from `n` by following `k` parents, if there is one.
pub open spec fn parent_chain(decls: Map<Seq<char>, (SourceId, StyleDefinition)>, n: Seq<char>, k: nat) -> Option<
    Seq<char>,
>
    decreases k,
{
    if k == 0 {
        Some(n)
    } else {
        match parent_chain(decls, n, (k - 1) as nat) {
            Some(m) => parent_step(decls, m),
            None => None,
        }
    }
}

/// Following parents from `q` reaches a style of `c`.
pub open spec fn parents_meet(decls: Map<Seq<char>, (SourceId, StyleDefinition)>, q: Seq<char>, c: Seq<Seq<char>>) -> bool {
    exists|k: nat| #[trigger] parent_chain(decls, q, k) matches Some(x) && c.contains(x)
}

/// Where resolution in name order meets the inheritance cycle `c`: `c`
/// starts at the first of its styles on the chain of parents from the least
/// declared style whose chain meets it.
pub open spec fn parent_cycle_entry(decls: Map<Seq<char>, (SourceId, StyleDefinition)>, c: Seq<Seq<char>>) -> bool {
    exists|n0: Seq<char>, k: nat|
        #![trigger parent_chain(decls, n0, k)]
        decls.contains_key(n0) && parent_chain(decls, n0, k) == Some(c[0]) && (forall|m: nat|
            m < k ==> !(#[trigger] parent_chain(decls, n0, m) matches Some(x) && c.contains(x))) && forall|
            q: Seq<char>,
        |
            #[trigger] decls.contains_key(q) && crate::text::chars_less(q, n0) ==> !parents_meet(decls, q, c)
}

/// The parent of `n`, if any, has been shaped or has failed, or is not
/// declared.
pub open spec fn parent_settled(
    decls: Map<Seq<char>, (SourceId, StyleDefinition)>,
    n: Seq<char>,
    shapes: Map<Seq<char>, StyleShape>,
    failed: Map<Seq<char>, bool>,
) -> bool {
    match parent_step(decls, n) {
        Some(p) => !decls.contains_key(p) || shapes.contains_key(p) || failed.contains_key(p),
        None => true,
    }
}

/// Every failed style's parent is settled.
pub open spec fn failed_parents_settled(
    decls: Map<Seq<char>, (SourceId, StyleDefinition)>,
    shapes: Map<Seq<char>, StyleShape>,
    failed: Map<Seq<char>, bool>,
) -> bool {
    forall|n: Seq<char>| #[trigger] failed.contains_key(n) ==> parent_settled(decls, n, shapes, failed)
}

/// From a style that has been shaped or has failed, following parents only
/// meets styles that have been shaped or have failed, or an undeclared one.
proof fn lemma_parents_settled(
    decls: Map<Seq<char>, (SourceId, StyleDefinition)>,
    tokens: Map<Seq<Seq<char>>, TokenValue>,
    shapes: Map<Seq<char>, StyleShape>,
    rank: Map<Seq<char>, nat>,
    failed: Map<Seq<char>, bool>,
    q: Seq<char>,
    k: nat,
)
    requires
        ranked_styles(decls, tokens, shapes, rank),
        failed_parents_settled(decls, shapes, failed),
        shapes.contains_key(q) || failed.contains_key(q),
    ensures
        parent_chain(decls, q, k) matches Some(x) ==> !decls.contains_key(x) || shapes.contains_key(x)
            || failed.contains_key(x),
    decreases k,
{
    if k > 0 {
        lemma_parents_settled(decls, tokens, shapes, rank, failed, q, (k - 1) as nat);
        match parent_chain(decls, q, (k - 1) as nat) {
            Some(y) => {
                if decls.contains_key(y) {
                    if shapes.contains_key(y) {
                        assert(shaped_by(decls, tokens, shapes, rank, y));
                    } else {
                        assert(parent_settled(decls, y, shapes, failed));
                    }
                }
            },
            None => {},
        }
    }
}

/// A stack of styles, each extending the next, is the chain of parents
/// from its first style.
proof fn lemma_parent_stack(decls: Map<Seq<char>, (SourceId, StyleDefinition)>, stack: Seq<Seq<char>>, k: int)
    requires
        0 <= k < stack.len(),
        forall|i: int| 0 <= i < stack.len() ==> decls.contains_key(#[trigger] stack[i]),
        forall|i: int| 0 <= i < stack.len() - 1 ==> extends_to(decls[#[trigger] stack[i]].1, stack[i + 1]),
    ensures
        parent_chain(decls, stack[0], k as nat) == Some(stack[k]),
    decreases k,
{
    if k > 0 {
        lemma_parent_stack(decls, stack, k - 1);
        assert(extends_to(decls[stack[k - 1]].1, stack[k]));
    }
}

/// A cycle found on a stack of styles being resolved in name order, each
/// extending the next, starts where resolution in name order meets it, and
/// names each style once.
proof fn lemma_reported_cycle_entry(
    decls: Map<Seq<char>, (SourceId, StyleDefinition)>,
    tokens: Map<Seq<Seq<char>>, TokenValue>,
    shapes: Map<Seq<char>, StyleShape>,
    rank: Map<Seq<char>, nat>,
    failed: Map<Seq<char>, bool>,
    stack: Seq<Seq<char>>,
    index: int,
    name: Seq<char>,
)
    requires
        0 <= index < stack.len(),
        stack[index] == name,
        forall|i: int|
            0 <= i < stack.len() ==> decls.contains_key(#[trigger] stack[i]) && !shapes.contains_key(stack[i])
                && !failed.contains_key(stack[i]),
        forall|a: int, b: int| 0 <= a < b < stack.len() ==> #[trigger] stack[a] != #[trigger] stack[b],
        forall|i: int| 0 <= i < stack.len() - 1 ==> extends_to(decls[#[trigger] stack[i]].1, stack[i + 1]),
        ranked_styles(decls, tokens, shapes, rank),
        failed_parents_settled(decls, shapes, failed),
        forall|q: Seq<char>|
            #[trigger] decls.contains_key(q) && crate::text::chars_less(q, stack[0]) ==> shapes.contains_key(q)
                || failed.contains_key(q),
    ensures
        parent_cycle_entry(decls, stack.subrange(index, stack.len() as int).push(name)),
        stack.subrange(index, stack.len() as int).push(name).drop_last().no_duplicates(),
{
    let chain = stack.subrange(index, stack.len() as int);
    let c = chain.push(name);
    let n0 = stack[0];
    lemma_parent_stack(decls, stack, index);
    assert(c[0] == name);
    assert(parent_chain(decls, n0, index as nat) == Some(c[0]));
    assert forall|m: nat| m < index as nat implies !(#[trigger] parent_chain(decls, n0, m) matches Some(x)
        && c.contains(x)) by {
        lemma_parent_stack(decls, stack, m as int);
        if c.contains(stack[m as int]) {
            let w = choose|w: int| 0 <= w < c.len() && c[w] == stack[m as int];
            if w < chain.len() {
                assert(chain[w] == stack[index + w]);
            }
        }
    }
    assert forall|q: Seq<char>| #[trigger] decls.contains_key(q) && crate::text::chars_less(q, n0) implies !parents_meet(
        decls,
        q,
        c,
    ) by {
        if parents_meet(decls, q, c) {
            let k = choose|k: nat| #[trigger] parent_chain(decls, q, k) matches Some(x) && c.contains(x);
            lemma_parents_settled(decls, tokens, shapes, rank, failed, q, k);
            let x = parent_chain(decls, q, k)->0;
            let w = choose|w: int| 0 <= w < c.len() && c[w] == x;
            if w < chain.len() {
                assert(x == stack[index + w]);
            }
        }
    }
    assert(parent_cycle_entry(decls, c));
    assert(c.drop_last() =~= chain);
    assert forall|a: int, b: int| 0 <= a < chain.len() && 0 <= b < chain.len() && a != b implies chain[a]
        != chain[b] by {
        if a < b {
            assert(stack[index + a] != stack[index + b]);
        } else {
            assert(stack[index + b] != stack[index + a]);
        }
    }
}

/// `e` reports a problem of the style declarations `decls`: one within a
/// declaration, a missing parent, a parent with another target, or a cycle
/// of parents.
pub open spec fn declaration_error(
    decls: Map<Seq<char>, (SourceId, StyleDefinition)>,
    tokens: Map<Seq<Seq<char>>, TokenValue>,
    e: CompileError,
) -> bool {
    match e {
        CompileError::MissingToken { style, .. } => decls.contains_key(style@) && definition_error(
            decls[style@].1,
            tokens,
            e,
        ),
        CompileError::DuplicateProperty { style, .. } => decls.contains_key(style@) && definition_error(
            decls[style@].1,
            tokens,
            e,
        ),
        CompileError::DuplicateState { style, .. } => decls.contains_key(style@) && definition_error(
            decls[style@].1,
            tokens,
            e,
        ),
        CompileError::PropertyTypeMismatch { style, .. } => decls.contains_key(style@) && definition_error(
            decls[style@].1,
            tokens,
            e,
        ),
        CompileError::MissingParent { style, parent } => {
            &&& decls.contains_key(style@)
            &&& extends_to(decls[style@].1, parent@)
            &&& !decls.contains_key(parent@)
        },
        CompileError::TargetMismatch { style, target, parent, parent_target } => {
            &&& decls.contains_key(style@)
            &&& extends_to(decls[style@].1, parent@)
            &&& decls.contains_key(parent@)
            &&& decls[style@].1.target_of()@ == target@
            &&& decls[parent@].1.target_of()@ == parent_target@
            &&& target@ != parent_target@
        },
        CompileError::InheritanceCycle { cycle } => inheritance_cycle(decls, cycle@.map_values(|n: Name| n@))
            && cycle@.map_values(|n: Name| n@).drop_last().no_duplicates() && parent_cycle_entry(
            decls,
            cycle@.map_values(|n: Name| n@),
        ),
        _ => false,
    }
}

/// A problem within the first declaration of its style is a problem of the
/// declarations.
proof fn lemma_declaration_error(
    decls: Map<Seq<char>, (SourceId, StyleDefinition)>,
    tokens: Map<Seq<Seq<char>>, TokenValue>,
    n: Seq<char>,
    e: CompileError,
)
    requires
        decls.contains_key(n),
        decls[n].1.name_of()@ == n,
        definition_error(decls[n].1, tokens, e),
    ensures
        declaration_error(decls, tokens, e),
{
}

/// `n` is declared to extend a style that is not declared.
pub open spec fn orphan_style(decls: Map<Seq<char>, (SourceId, StyleDefinition)>, n: Seq<char>) -> bool {
    &&& decls.contains_key(n)
    &&& decls[n].1.extends_of() matches Some(p)
    &&& !decls.contains_key(p@)
}

/// `n` is declared to extend a style that resolves but targets another
/// control type.
pub open spec fn mistargeted_style(
    decls: Map<Seq<char>, (SourceId, StyleDefinition)>,
    tokens: Map<Seq<Seq<char>>, TokenValue>,
    n: Seq<char>,
) -> bool {
    &&& decls.contains_key(n)
    &&& decls[n].1.extends_of() matches Some(p)
    &&& style_resolvable(decls, tokens, p@)
    &&& decls[p@].1.target_of()@ != decls[n].1.target_of()@
}

/// `n` lies on a cycle of parents.
pub open spec fn on_inheritance_cycle(decls: Map<Seq<char>, (SourceId, StyleDefinition)>, n: Seq<char>) -> bool {
    exists|c: Seq<Seq<char>>| #[trigger] inheritance_cycle(decls, c) && c.contains(n)
}

/// `e` reports a cycle of parents through `n`.
pub open spec fn reports_cycle_through(e: CompileError, n: Seq<char>) -> bool {
    match e {
        CompileError::InheritanceCycle { cycle } => cycle@.map_values(|m: Name| m@).contains(n),
        _ => false,
    }
}

/// Each member of a cycle of parents is declared to extend a member.
proof fn lemma_cycle_successor(decls: Map<Seq<char>, (SourceId, StyleDefinition)>, c: Seq<Seq<char>>, k: int)
    requires
        inheritance_cycle(decls, c),
        0 <= k < c.len(),
    ensures
        decls.contains_key(c[k]),
        extends_to(decls[c[k]].1, if k < c.len() - 1 { c[k + 1] } else { c[1] }),
{
    if k == c.len() - 1 {
        assert(c[k] == c[0]);
        assert(decls.contains_key(c[0]) && extends_to(decls[c[0]].1, c[1]));
    } else {
        assert(decls.contains_key(c[k]) && extends_to(decls[c[k]].1, c[k + 1]));
    }
}

proof fn lemma_cycle_closed(
    decls: Map<Seq<char>, (SourceId, StyleDefinition)>,
    c1: Seq<Seq<char>>,
    c2: Seq<Seq<char>>,
    j: int,
)
    requires
        inheritance_cycle(decls, c1),
        inheritance_cycle(decls, c2),
        0 <= j < c2.len(),
        c1.contains(c2[j]),
    ensures
        forall|m: int| j <= m < c2.len() ==> c1.contains(#[trigger] c2[m]),
    decreases c2.len() - j,
{
    if j < c2.len() - 1 {
        let w = choose|w: int| 0 <= w < c1.len() && c1[w] == c2[j];
        lemma_cycle_successor(decls, c1, w);
        lemma_cycle_successor(decls, c2, j);
        let next = if w < c1.len() - 1 {
            w + 1
        } else {
            1
        };
        assert(c1[next] == c2[j + 1]);
        lemma_cycle_closed(decls, c1, c2, j + 1);
    }
}

/// Each style extends at most one parent, so a cycle through the parent of
/// a style that lies on a cycle runs through the style too.
proof fn lemma_cycle_member(
    decls: Map<Seq<char>, (SourceId, StyleDefinition)>,
    c1: Seq<Seq<char>>,
    n: Seq<char>,
    parent: Seq<char>,
)
    requires
        inheritance_cycle(decls, c1),
        c1.contains(parent),
        on_inheritance_cycle(decls, n),
        extends_to(decls[n].1, parent),
    ensures
        c1.contains(n),
{
    let c2 = choose|c2: Seq<Seq<char>>| #[trigger] inheritance_cycle(decls, c2) && c2.contains(n);
    let k = choose|k: int| 0 <= k < c2.len() && c2[k] == n;
    lemma_cycle_successor(decls, c2, k);
    let next = if k < c2.len() - 1 {
        k + 1
    } else {
        1
    };
    assert(c2[next] == parent);
    lemma_cycle_closed(decls, c1, c2, next);
    assert(c1.contains(c2[c2.len() - 1]));
    assert(c2[c2.len() - 1] == c2[0]);
    lemma_cycle_closed(decls, c1, c2, 0);
    assert(c1.contains(c2[k]));
}

/// No member of a cycle of parents resolves.
proof fn lemma_on_cycle_unresolvable(
    decls: Map<Seq<char>, (SourceId, StyleDefinition)>,
    tokens: Map<Seq<Seq<char>>, TokenValue>,
    n: Seq<char>,
)
    requires
        on_inheritance_cycle(decls, n),
    ensures
        !style_resolvable(decls, tokens, n),
        decls.contains_key(n),
{
    let c = choose|c: Seq<Seq<char>>| #[trigger] inheritance_cycle(decls, c) && c.contains(n);
    let k = choose|k: int| 0 <= k < c.len() && c[k] == n;
    let chain = c.drop_last();
    assert forall|i: int| 0 <= i < chain.len() - 1 implies extends_to(decls[#[trigger] chain[i]].1, chain[i + 1]) by {
        lemma_cycle_successor(decls, c, i);
    }
    lemma_cycle_successor(decls, c, chain.len() - 1);
    assert(chain.last() == c[c.len() - 2]);
    assert(c[c.len() - 1] == chain[0]);
    let kk = if k == c.len() - 1 {
        0
    } else {
        k
    };
    assert(chain[kk] == n);
    lemma_inheritance_cycle(decls, tokens, chain, kk);
    lemma_cycle_successor(decls, c, k);
}


/// The parent of a member of a cycle of parents is declared and lies on the
/// same cycle.
proof fn lemma_cycle_parent(
    decls: Map<Seq<char>, (SourceId, StyleDefinition)>,
    c: Seq<Seq<char>>,
    n: Seq<char>,
    parent: Seq<char>,
)
    requires
        inheritance_cycle(decls, c),
        c.contains(n),
        extends_to(decls[n].1, parent),
    ensures
        c.contains(parent),
        decls.contains_key(parent),
        on_inheritance_cycle(decls, parent),
{
    let k = choose|k: int| 0 <= k < c.len() && c[k] == n;
    lemma_cycle_successor(decls, c, k);
    let next = if k < c.len() - 1 {
        k + 1
    } else {
        1
    };
    assert(c[next] == parent);
    lemma_cycle_successor(decls, c, next);
}

/// A style whose parent resolves lies on no cycle of parents.
proof fn lemma_cycle_parent_resolved(
    decls: Map<Seq<char>, (SourceId, StyleDefinition)>,
    tokens: Map<Seq<Seq<char>>, TokenValue>,
    shapes: Map<Seq<char>, StyleShape>,
    rank: Map<Seq<char>, nat>,
    n: Seq<char>,
    parent: Seq<char>,
)
    requires
        ranked_styles(decls, tokens, shapes, rank),
        shapes.contains_key(parent),
        extends_to(decls[n].1, parent),
    ensures
        !on_inheritance_cycle(decls, n),
{
    if on_inheritance_cycle(decls, n) {
        let c = choose|c: Seq<Seq<char>>| #[trigger] inheritance_cycle(decls, c) && c.contains(n);
        lemma_cycle_parent(decls, c, n, parent);
        lemma_on_cycle_unresolvable(decls, tokens, parent);
        assert(style_resolvable(decls, tokens, parent));
    }
}

/// A style declared to extend a missing style lies on no cycle of parents.
proof fn lemma_cycle_parent_missing(
    decls: Map<Seq<char>, (SourceId, StyleDefinition)>,
    n: Seq<char>,
    parent: Seq<char>,
)
    requires
        !decls.contains_key(parent),
        extends_to(decls[n].1, parent),
    ensures
        !on_inheritance_cycle(decls, n),
{
    if on_inheritance_cycle(decls, n) {
        let c = choose|c: Seq<Seq<char>>| #[trigger] inheritance_cycle(decls, c) && c.contains(n);
        lemma_cycle_parent(decls, c, n, parent);
    }
}

/// A reported cycle through the parent of a style on a cycle runs through
/// the style too.
proof fn lemma_cycle_through_parent(
    errors: Seq<CompileError>,
    decls: Map<Seq<char>, (SourceId, StyleDefinition)>,
    tokens: Map<Seq<Seq<char>>, TokenValue>,
    n: Seq<char>,
    parent: Seq<char>,
)
    requires
        forall|i: int| 0 <= i < errors.len() ==> declaration_error(decls, tokens, #[trigger] errors[i]),
        on_inheritance_cycle(decls, parent) ==> exists|i: int|
            0 <= i < errors.len() && #[trigger] reports_cycle_through(errors[i], parent),
        extends_to(decls[n].1, parent),
    ensures
        on_inheritance_cycle(decls, n) ==> exists|i: int|
            0 <= i < errors.len() && #[trigger] reports_cycle_through(errors[i], n),
{
    if on_inheritance_cycle(decls, n) {
        let c = choose|c: Seq<Seq<char>>| #[trigger] inheritance_cycle(decls, c) && c.contains(n);
        lemma_cycle_parent(decls, c, n, parent);
        let i = choose|i: int| 0 <= i < errors.len() && #[trigger] reports_cycle_through(errors[i], parent);
        assert(declaration_error(decls, tokens, errors[i]));
        match errors[i] {
            CompileError::InheritanceCycle { cycle } => {
                let c1 = cycle@.map_values(|m: Name| m@);
                assert(inheritance_cycle(decls, c1));
                lemma_cycle_member(decls, c1, n, parent);
                assert(reports_cycle_through(errors[i], n));
            },
            _ => {},
        }
    }
}

/// `e` reports that `n` extends a missing style.
pub open spec fn reports_orphan(e: CompileError, n: Seq<char>) -> bool {
    match e {
        CompileError::MissingParent { style, .. } => style@ == n,
        _ => false,
    }
}

/// `e` reports that `n` targets another type than its parent.
pub open spec fn reports_mistarget(e: CompileError, n: Seq<char>) -> bool {
    match e {
        CompileError::TargetMismatch { style, .. } => style@ == n,
        _ => false,
    }
}

/// `errors` report `n` if it extends a missing style or one of another
/// target.
pub open spec fn reports_parent(
    errors: Seq<CompileError>,
    decls: Map<Seq<char>, (SourceId, StyleDefinition)>,
    tokens: Map<Seq<Seq<char>>, TokenValue>,
    n: Seq<char>,
) -> bool {
    &&& orphan_style(decls, n) ==> exists|i: int| 0 <= i < errors.len() && #[trigger] reports_orphan(errors[i], n)
    &&& mistargeted_style(decls, tokens, n) ==> exists|i: int|
        0 <= i < errors.len() && #[trigger] reports_mistarget(errors[i], n)
    &&& on_inheritance_cycle(decls, n) ==> exists|i: int|
        0 <= i < errors.len() && #[trigger] reports_cycle_through(errors[i], n)
}

proof fn lemma_reports_parent_grow(
    errors: Seq<CompileError>,
    more: Seq<CompileError>,
    decls: Map<Seq<char>, (SourceId, StyleDefinition)>,
    tokens: Map<Seq<Seq<char>>, TokenValue>,
    n: Seq<char>,
)
    requires
        reports_parent(errors, decls, tokens, n),
        more.len() >= errors.len(),
        more.subrange(0, errors.len() as int) == errors,
    ensures
        reports_parent(more, decls, tokens, n),
{
    if orphan_style(decls, n) {
        let i = choose|i: int| 0 <= i < errors.len() && #[trigger] reports_orphan(errors[i], n);
        assert(more[i] == more.subrange(0, errors.len() as int)[i]);
        assert(reports_orphan(more[i], n));
    }
    if mistargeted_style(decls, tokens, n) {
        let i = choose|i: int| 0 <= i < errors.len() && #[trigger] reports_mistarget(errors[i], n);
        assert(more[i] == more.subrange(0, errors.len() as int)[i]);
        assert(reports_mistarget(more[i], n));
    }
    if on_inheritance_cycle(decls, n) {
        let i = choose|i: int| 0 <= i < errors.len() && #[trigger] reports_cycle_through(errors[i], n);
        assert(more[i] == more.subrange(0, errors.len() as int)[i]);
        assert(reports_cycle_through(more[i], n));
    }
}

/// A shaped style neither extends a missing style nor one of another target.
proof fn lemma_shaped_parent_sound(
    decls: Map<Seq<char>, (SourceId, StyleDefinition)>,
    tokens: Map<Seq<Seq<char>>, TokenValue>,
    shapes: Map<Seq<char>, StyleShape>,
    rank: Map<Seq<char>, nat>,
    n: Seq<char>,
)
    requires
        ranked_styles(decls, tokens, shapes, rank),
        shapes.contains_key(n),
    ensures
        !orphan_style(decls, n),
        !mistargeted_style(decls, tokens, n),
        !on_inheritance_cycle(decls, n),
{
    if on_inheritance_cycle(decls, n) {
        lemma_on_cycle_unresolvable(decls, tokens, n);
        assert(style_resolvable(decls, tokens, n));
    }
    reveal(apply_definition);
    match decls[n].1.extends_of() {
        None => {},
        Some(p) => {
            assert(shapes.contains_key(p@));
            assert(shaped_by(decls, tokens, shapes, rank, p@));
            assert(shapes[p@].target == decls[p@].1.target_of()@);
        },
    }
}

/// The members of `c` that are declared, in order.
pub open spec fn declared_members(
    decls: Map<Seq<char>, (SourceId, StyleDefinition)>,
    c: Seq<Seq<char>>,
) -> Seq<Seq<char>>
    decreases c.len(),
{
    if c.len() == 0 {
        Seq::empty()
    } else if decls.contains_key(c.last()) {
        declared_members(decls, c.drop_last()).push(c.last())
    } else {
        declared_members(decls, c.drop_last())
    }
}

/// `label` marks the declaration of `n` as a member of a cycle.
pub open spec fn marks_member(
    label: DiagnosticLabel,
    decls: Map<Seq<char>, (SourceId, StyleDefinition)>,
    n: Seq<char>,
) -> bool {
    &&& label.source_of() == decls[n].0
    &&& label.span_of() == decls[n].1.span_of()
    &&& label.kind_of() == LabelKind::Primary
    &&& label.message_of() == "cycle member"@
}

/// `labels` mark the declarations of `members`, one each, in order.
pub open spec fn member_labels(
    labels: Seq<DiagnosticLabel>,
    decls: Map<Seq<char>, (SourceId, StyleDefinition)>,
    members: Seq<Seq<char>>,
) -> bool {
    &&& labels.len() == members.len()
    &&& forall|k: int| 0 <= k < labels.len() ==> marks_member(#[trigger] labels[k], decls, members[k])
}

/// Every problem of the declaration of each shaped style is reported.
#[verifier::opaque]
pub open spec fn shapes_reported(
    errors: Seq<CompileError>,
    decls: Map<Seq<char>, (SourceId, StyleDefinition)>,
    shapes: Map<Seq<char>, StyleShape>,
    tokens: Map<Seq<Seq<char>>, TokenValue>,
) -> bool {
    forall|n: Seq<char>|
        #[trigger] shapes.contains_key(n) ==> definition_reported(errors, decls[n].1, style_base(decls, shapes, n), tokens)
}

proof fn lemma_shapes_reported_grow(
    before: Seq<CompileError>,
    after: Seq<CompileError>,
    decls: Map<Seq<char>, (SourceId, StyleDefinition)>,
    shapes: Map<Seq<char>, StyleShape>,
    tokens: Map<Seq<Seq<char>>, TokenValue>,
)
    requires
        reports_all(before, after),
        shapes_reported(before, decls, shapes, tokens),
    ensures
        shapes_reported(after, decls, shapes, tokens),
{
    reveal(shapes_reported);
    assert forall|n: Seq<char>| #[trigger] shapes.contains_key(n) implies definition_reported(
        after,
        decls[n].1,
        style_base(decls, shapes, n),
        tokens,
    ) by {
        lemma_definition_reported_grow(before, after, decls[n].1, style_base(decls, shapes, n), tokens);
    }
}

/// A newly shaped style whose problems are all reported keeps every
/// shaped style's problems reported.
proof fn lemma_shapes_reported_insert(
    before: Seq<CompileError>,
    after: Seq<CompileError>,
    decls: Map<Seq<char>, (SourceId, StyleDefinition)>,
    tokens: Map<Seq<Seq<char>>, TokenValue>,
    before_shapes: Map<Seq<char>, StyleShape>,
    rank: Map<Seq<char>, nat>,
    name: Seq<char>,
    shape: StyleShape,
)
    requires
        after.len() >= before.len(),
        after.subrange(0, before.len() as int) == before,
        shapes_reported(before, decls, before_shapes, tokens),
        ranked_styles(decls, tokens, before_shapes, rank),
        !before_shapes.contains_key(name),
        definition_reported(after, decls[name].1, style_base(decls, before_shapes, name), tokens),
        decls[name].1.extends_of() matches Some(p) ==> before_shapes.contains_key(p@),
    ensures
        shapes_reported(after, decls, before_shapes.insert(name, shape), tokens),
{
    lemma_reported_grow(before, after);
    lemma_shapes_reported_grow(before, after, decls, before_shapes, tokens);
    reveal(shapes_reported);
    let shapes = before_shapes.insert(name, shape);
    assert forall|n: Seq<char>| #[trigger] shapes.contains_key(n) implies definition_reported(
        after,
        decls[n].1,
        style_base(decls, shapes, n),
        tokens,
    ) by {
        if n != name {
            assert(before_shapes.contains_key(n));
            assert(shaped_by(decls, tokens, before_shapes, rank, n));
            match decls[n].1.extends_of() {
                None => {},
                Some(p) => {
                    assert(before_shapes.contains_key(p@));
                },
            }
            assert(style_base(decls, shapes, n) == style_base(decls, before_shapes, n));
        } else {
            match decls[n].1.extends_of() {
                None => {},
                Some(p) => {
                    assert(before_shapes.contains_key(p@));
                },
            }
            assert(style_base(decls, shapes, n) == style_base(decls, before_shapes, n));
        }
    }
}

/// What `errors` report, errors appended after others report too.
proof fn lemma_reported_append(earlier: Seq<CompileError>, errors: Seq<CompileError>)
    ensures
        reports_all(errors, earlier + errors),
{
    assert forall|v: Reported| #[trigger] reported(errors, v) implies reported(earlier + errors, v) by {
        let k = choose|k: int| 0 <= k < errors.len() && #[trigger] reported_as(errors[k]) == v;
        assert((earlier + errors)[earlier.len() + k] == errors[k]);
    }
}

/// What is reported of the styles that one ranking shapes is reported of
/// those of any ranking, when the first shapes every resolvable style.
proof fn lemma_shapes_reported_any(
    errors: Seq<CompileError>,
    decls: Map<Seq<char>, (SourceId, StyleDefinition)>,
    tokens: Map<Seq<Seq<char>>, TokenValue>,
    shapes: Map<Seq<char>, StyleShape>,
    rank: Map<Seq<char>, nat>,
    other: Map<Seq<char>, StyleShape>,
    other_rank: Map<Seq<char>, nat>,
)
    requires
        shapes_reported(errors, decls, shapes, tokens),
        ranked_styles(decls, tokens, shapes, rank),
        ranked_styles(decls, tokens, other, other_rank),
        forall|n: Seq<char>|
            #[trigger] decls.contains_key(n) && style_resolvable(decls, tokens, n) ==> shapes.contains_key(n),
    ensures
        shapes_reported(errors, decls, other, tokens),
{
    reveal(shapes_reported);
    assert forall|n: Seq<char>| #[trigger] other.contains_key(n) implies definition_reported(
        errors,
        decls[n].1,
        style_base(decls, other, n),
        tokens,
    ) by {
        assert(shaped_by(decls, tokens, other, other_rank, n));
        assert(style_resolvable(decls, tokens, n));
        assert(shapes.contains_key(n));
        match decls[n].1.extends_of() {
            None => {},
            Some(p) => {
                assert(other.contains_key(p@));
                assert(style_resolvable(decls, tokens, p@));
                assert(shapes.contains_key(p@));
                lemma_shapes_unique(decls, tokens, shapes, rank, other, other_rank, p@);
            },
        }
        assert(style_base(decls, other, n) == style_base(decls, shapes, n));
    }
}

/// The dotted paths of the tokens of a registry, in path order.
pub open spec fn token_texts(tokens: ResolvedTokens) -> Seq<Seq<char>> {
    tokens.ordered().map_values(|e: (TokenPath, TokenValue)| dotted(e.0@))
}

/// Every unresolved token reference among `errors` is shown as it should be.
pub open spec fn references_shown(
    errors: CompileErrors,
    decls: Map<Seq<char>, (SourceId, StyleDefinition)>,
    candidates: Seq<Seq<char>>,
) -> bool {
    &&& errors.metadata_of().len() == errors.errors_of().len()
    &&& forall|k: int|
        0 <= k < errors.errors_of().len() ==> declaration_shown(
            decls,
            #[trigger] errors.errors_of()[k],
            errors.metadata_of()[k],
            candidates,
        )
}

/// Adding an error that is no unresolved token reference keeps the others
/// shown.
proof fn lemma_references_shown_push(
    before: CompileErrors,
    after: CompileErrors,
    decls: Map<Seq<char>, (SourceId, StyleDefinition)>,
    candidates: Seq<Seq<char>>,
)
    requires
        references_shown(before, decls, candidates),
        after.errors_of() == before.errors_of().push(after.errors_of().last()),
        after.metadata_of().len() == before.metadata_of().len() + 1,
        after.metadata_of().drop_last() == before.metadata_of(),
        !(after.errors_of().last() is MissingToken),
    ensures
        references_shown(after, decls, candidates),
{
    assert forall|k: int| 0 <= k < after.errors_of().len() implies declaration_shown(
        decls,
        #[trigger] after.errors_of()[k],
        after.metadata_of()[k],
        candidates,
    ) by {
        if k < before.errors_of().len() {
            assert(after.errors_of()[k] == before.errors_of()[k]);
            assert(after.metadata_of()[k] == after.metadata_of().drop_last()[k]);
        }
    }
}

/// The errors of a declaration, shown as they should be, keep every
/// unresolved token reference shown.
proof fn lemma_references_shown_extend(
    before: CompileErrors,
    after: CompileErrors,
    decls: Map<Seq<char>, (SourceId, StyleDefinition)>,
    candidates: Seq<Seq<char>>,
    name: Seq<char>,
    tokens: Map<Seq<Seq<char>>, TokenValue>,
)
    requires
        references_shown(before, decls, candidates),
        extends_errors(before, after),
        decls.contains_key(name),
        decls[name].1.name_of()@ == name,
        forall|k: int|
            before.errors_of().len() <= k < after.errors_of().len() ==> definition_shown(
                #[trigger] after.errors_of()[k],
                after.metadata_of()[k],
                decls[name].0,
                decls[name].1,
                candidates,
            ) && definition_error(decls[name].1, tokens, after.errors_of()[k]),
    ensures
        references_shown(after, decls, candidates),
{
    assert forall|k: int| 0 <= k < after.errors_of().len() implies declaration_shown(
        decls,
        #[trigger] after.errors_of()[k],
        after.metadata_of()[k],
        candidates,
    ) by {
        if k < before.errors_of().len() {
            assert(after.errors_of()[k] == after.errors_of().subrange(0, before.errors_of().len() as int)[k]);
            assert(after.metadata_of()[k] == after.metadata_of().subrange(0, before.metadata_of().len() as int)[k]);
        } else {
            assert(definition_error(decls[name].1, tokens, after.errors_of()[k]));
        }
    }
}

/// Errors of merging documents before shown errors of resolution keep every
/// unresolved token reference shown.
proof fn lemma_references_shown_append(
    merged: CompileErrors,
    resolution: CompileErrors,
    all: CompileErrors,
    docs: Seq<StyleDocument>,
    decls: Map<Seq<char>, (SourceId, StyleDefinition)>,
    candidates: Seq<Seq<char>>,
)
    requires
        merged.metadata_of().len() == merged.errors_of().len(),
        forall|i: int|
            0 <= i < merged.errors_of().len() ==> merge_style_error(
                docs,
                located_styles(docs),
                #[trigger] merged.errors_of()[i],
            ),
        references_shown(resolution, decls, candidates),
        all.errors_of() == merged.errors_of() + resolution.errors_of(),
        all.metadata_of() == merged.metadata_of() + resolution.metadata_of(),
    ensures
        references_shown(all, decls, candidates),
{
    assert forall|k: int| 0 <= k < all.errors_of().len() implies declaration_shown(
        decls,
        #[trigger] all.errors_of()[k],
        all.metadata_of()[k],
        candidates,
    ) by {
        if k < merged.errors_of().len() {
            assert(all.errors_of()[k] == merged.errors_of()[k]);
            assert(merge_style_error(docs, located_styles(docs), merged.errors_of()[k]));
        } else {
            assert(all.errors_of()[k] == resolution.errors_of()[k - merged.errors_of().len()]);
            assert(all.metadata_of()[k] == resolution.metadata_of()[k - merged.errors_of().len()]);
        }
    }
}

/// Depth-first inheritance resolution with memoised results.
struct StyleResolver<'a> {
    documents: &'a [StyleDocument],
    tokens: &'a ResolvedTokens,
    positions: NameMap<(usize, usize)>,
    token_paths: Vec<TokenPath>,
    style_names: Vec<Name>,
    resolved: NameMap<PartialStyle>,
    failed: NameMap<bool>,
    visiting: Vec<Name>,
    errors: CompileErrors,
    decls: Ghost<Map<Seq<char>, (SourceId, StyleDefinition)>>,
    rank: Ghost<Map<Seq<char>, nat>>,
    dirty: Ghost<Set<Seq<char>>>,
}

impl<'a> StyleResolver<'a> {
    spec fn shapes(&self) -> Map<Seq<char>, StyleShape> {
        self.resolved@.map_values(|p: PartialStyle| p.shape())
    }

    /// Every declared style before the first on the stack (or before `name`
    /// when nothing is being resolved) has been shaped or has failed.
    spec fn below_settled(&self, name: Seq<char>) -> bool {
        let base = if self.visiting@.len() > 0 {
            self.visiting@[0]@
        } else {
            name
        };
        forall|q: Seq<char>|
            #[trigger] self.decls@.contains_key(q) && crate::text::chars_less(q, base) ==> self.shapes().contains_key(q)
                || self.failed@.contains_key(q)
    }

    /// No style being resolved has failed.
    spec fn visiting_live(&self) -> bool {
        forall|k: int| 0 <= k < self.visiting@.len() ==> !self.failed@.contains_key(#[trigger] self.visiting@[k]@)
    }

    /// Everything but the agreement between errors and their causes.
    spec fn settled_state(&self) -> bool {
        let decls = self.decls@;
        let tokens = self.tokens@;
        let shapes = self.shapes();
        &&& decls.dom().finite()
        &&& locates(self.positions@, self.documents@, decls)
        &&& ranked_styles(decls, tokens, shapes, self.rank@)
        &&& forall|n: Seq<char>|
            #[trigger] self.failed@.contains_key(n) ==> decls.contains_key(n) && !style_resolvable(
                decls,
                tokens,
                n,
            )
        &&& forall|k: int|
            0 <= k < self.visiting@.len() ==> decls.contains_key(#[trigger] self.visiting@[k]@)
                && !shapes.contains_key(self.visiting@[k]@)
        &&& forall|a: int, b: int|
            0 <= a < b < self.visiting@.len() ==> #[trigger] self.visiting@[a]@
                != #[trigger] self.visiting@[b]@
        &&& forall|k: int|
            0 <= k < self.visiting@.len() - 1 ==> extends_to(
                decls[#[trigger] self.visiting@[k]@].1,
                self.visiting@[k + 1]@,
            )
        &&& forall|n: Seq<char>| #[trigger] self.dirty@.contains(n) ==> shapes.contains_key(n)
        &&& forall|n: Seq<char>|
            #[trigger] shapes.contains_key(n) ==> (self.dirty@.contains(n) <==> !definition_clean(
                style_base(decls, shapes, n),
                decls[n].1,
                tokens,
            ))
    }

    spec fn wf(&self) -> bool {
        &&& self.settled_state()
        &&& (self.errors.errors_of().len() > 0 <==> (exists|n: Seq<char>|
            #[trigger] self.failed@.contains_key(n)) || (exists|n: Seq<char>|
            #[trigger] self.dirty@.contains(n)))
    }

    /// Every error reports a problem of the declarations, each of which is
    /// keyed by its style name.
    spec fn errors_justified(&self) -> bool {
        &&& forall|n: Seq<char>| #[trigger] self.decls@.contains_key(n) ==> self.decls@[n].1.name_of()@ == n
        &&& forall|i: int|
            0 <= i < self.errors.errors_of().len() ==> declaration_error(
                self.decls@,
                self.tokens@,
                #[trigger] self.errors.errors_of()[i],
            )
        &&& forall|n: Seq<char>|
            #[trigger] self.failed@.contains_key(n) ==> reports_parent(
                self.errors.errors_of(),
                self.decls@,
                self.tokens@,
                n,
            )
        &&& shapes_reported(self.errors.errors_of(), self.decls@, self.shapes(), self.tokens@)
        &&& references_shown(self.errors, self.decls@, dotted_paths(self.token_paths@))
    }

    /// Resolves style `name`, which is declared and, when something is being
    /// resolved, is the parent of the innermost such style.
    #[verifier::spinoff_prover]
    #[verifier::rlimit(100)]
    fn resolve(&mut self, name: &Name) -> (r: bool)
        requires
            old(self).wf(),
            old(self).errors_justified(),
            old(self).decls@.contains_key(name@),
            old(self).visiting@.len() > 0 ==> extends_to(
                old(self).decls@[old(self).visiting@.last()@].1,
                name@,
            ),
            failed_parents_settled(old(self).decls@, old(self).shapes(), old(self).failed@),
            old(self).below_settled(name@),
            old(self).visiting_live(),
        ensures
            final(self).wf(),
            failed_parents_settled(final(self).decls@, final(self).shapes(), final(self).failed@),
            r ==> final(self).visiting_live(),
            final(self).decls@ == old(self).decls@,
            final(self).documents == old(self).documents,
            final(self).tokens == old(self).tokens,
            final(self).positions == old(self).positions,
            final(self).token_paths == old(self).token_paths,
            final(self).visiting@ == old(self).visiting@,
            forall|n: Seq<char>|
                old(self).shapes().contains_key(n) ==> #[trigger] final(self).shapes().contains_key(n)
                    && final(self).shapes()[n] == old(self).shapes()[n],
            forall|n: Seq<char>|
                old(self).failed@.contains_key(n) ==> #[trigger] final(self).failed@.contains_key(n),
            forall|n: Seq<char>|
                old(self).dirty@.contains(n) ==> #[trigger] final(self).dirty@.contains(n),
            r ==> final(self).shapes().contains_key(name@),
            !r ==> final(self).failed@.contains_key(name@),
            final(self).errors_justified(),
        decreases old(self).decls@.dom().len() - old(self).visiting@.len(),
    {
        let ghost decls = self.decls@;
        let ghost tokens = self.tokens@;
        if self.resolved.contains_key(name) {
            return true;
        }
        if self.failed.contains_key(name) {
            return false;
        }
        let mut index: usize = 0;
        while index < self.visiting.len() && !self.visiting[index].same(name)
            invariant
                index <= self.visiting@.len(),
                forall|k: int| 0 <= k < index ==> #[trigger] self.visiting@[k]@ != name@,
            decreases self.visiting@.len() - index,
        {
            index = index + 1;
        }
        if index < self.visiting.len() {
            self.report_cycle(name, index);
            return false;
        }
        let documents = self.documents;
        let (di, si) = match self.positions.get(name) {
            Some(p) => *p,
            None => {
                proof {
                    assert(false);
                }
                return false;
            },
        };
        let def = &documents[di].styles()[si];
        let source = documents[di].source();
        proof {
            assert(self.positions@.contains_key(name@));
            assert(decls[name@] == (source, *def));
            let stack = self.visiting@.map_values(|n: Name| n@).push(name@);
            assert forall|k: int| 0 <= k < stack.len() implies decls.contains_key(#[trigger] stack[k]) by {
                if k < self.visiting@.len() {
                    assert(decls.contains_key(self.visiting@[k]@));
                }
            }
            assert forall|a: int, b: int| 0 <= a < b < stack.len() implies stack[a] != stack[b] by {
                if b < self.visiting@.len() {
                    assert(self.visiting@[a]@ != self.visiting@[b]@);
                }
            }
            crate::token_resolution::lemma_stack_bound(decls, stack);
        }
        self.visiting.push(name.duplicate());
        let ghost pushed = self.visiting@;
        let ghost mut new_rank: nat = 0;
        let base: Option<PartialStyle> = match def.extends() {
            None => Some(
                PartialStyle {
                    target: def.target().duplicate(),
                    properties: NameMap::new(),
                    state_overrides: NameMap::new(),
                },
            ),
            Some(parent) => {
                if !self.positions.contains_key(parent) {
                    let hint = match crate::suggest::closest_name(parent, self.style_names.as_slice()) {
                        Some(k) => Some(suggestion(self.style_names[k].as_str())),
                        None => None,
                    };
                    let ghost before_errors = self.errors.errors_of();
                    let ghost before_all = self.errors;
                    self.errors.push(
                        CompileError::MissingParent {
                            style: def.name().duplicate(),
                            parent: parent.duplicate(),
                        },
                        vec![
                            DiagnosticLabel::primary(
                                source,
                                def.span(),
                                "missing parent referenced here",
                            ),
                        ],
                        hint,
                    );
                    proof {
                        if style_resolvable(decls, tokens, name@) {
                            let (shapes, rank) = choose|
                                shapes: Map<Seq<char>, StyleShape>,
                                rank: Map<Seq<char>, nat>,
                            | #[trigger] ranked_styles(decls, tokens, shapes, rank) && shapes.contains_key(name@);
                            assert(shapes.contains_key(parent@));
                            assert(decls.contains_key(parent@));
                        }
                        assert forall|i: int| 0 <= i < self.errors.errors_of().len() implies declaration_error(
                            self.decls@,
                            self.tokens@,
                            #[trigger] self.errors.errors_of()[i],
                        ) by {
                            if i < before_errors.len() {
                                assert(self.errors.errors_of()[i] == before_errors[i]);
                            }
                        }
                        assert(self.errors.errors_of().subrange(0, before_errors.len() as int) =~= before_errors);
                        assert forall|n: Seq<char>| #[trigger] self.failed@.contains_key(n) implies reports_parent(
                            self.errors.errors_of(),
                            decls,
                            tokens,
                            n,
                        ) by {
                            lemma_reports_parent_grow(before_errors, self.errors.errors_of(), decls, tokens, n);
                        }
                        lemma_reported_grow(before_errors, self.errors.errors_of());
                        lemma_shapes_reported_grow(before_errors, self.errors.errors_of(), decls, self.shapes(), tokens);
                        lemma_references_shown_push(before_all, self.errors, decls, dotted_paths(self.token_paths@));
                        assert(reports_orphan(self.errors.errors_of().last(), name@));
                        assert(!mistargeted_style(decls, tokens, name@));
                        assert(!decls.contains_key(parent@));
                        lemma_cycle_parent_missing(decls, name@, parent@);
                        assert(reports_parent(self.errors.errors_of(), decls, tokens, name@));
                    }
                    None
                } else if !self.resolve(parent) {
                    proof {
                        assert(self.failed@.contains_key(parent@));
                        if style_resolvable(decls, tokens, name@) {
                            let (shapes, rank) = choose|
                                shapes: Map<Seq<char>, StyleShape>,
                                rank: Map<Seq<char>, nat>,
                            | #[trigger] ranked_styles(decls, tokens, shapes, rank) && shapes.contains_key(name@);
                            assert(shapes.contains_key(parent@));
                            assert(style_resolvable(decls, tokens, parent@));
                        }
                        assert(!style_resolvable(decls, tokens, parent@));
                        assert(reports_parent(self.errors.errors_of(), decls, tokens, parent@));
                        lemma_cycle_through_parent(self.errors.errors_of(), decls, tokens, name@, parent@);
                        assert(reports_parent(self.errors.errors_of(), decls, tokens, name@));
                    }
                    None
                } else {
                    let p = match self.resolved.get(parent) {
                        Some(p) => p,
                        None => {
                            proof {
                                assert(false);
                            }
                            return false;
                        },
                    };
                    if !p.target.same(def.target()) {
                        let mut labels = vec![
                            DiagnosticLabel::primary(source, def.span(), "child target declared here"),
                        ];
                        match self.positions.get(parent) {
                            Some(position) => {
                                let (pi, pj) = *position;
                                labels.push(
                                    DiagnosticLabel::secondary(
                                        documents[pi].source(),
                                        documents[pi].styles()[pj].span(),
                                        "parent target declared here",
                                    ),
                                );
                            },
                            None => {},
                        }
                        let parent_target = p.target.duplicate();
                        let ghost before_errors = self.errors.errors_of();
                        let ghost before_all = self.errors;
                        proof {
                            reveal(apply_definition);
                            assert(self.shapes().contains_key(parent@));
                            assert(shaped_by(decls, tokens, self.shapes(), self.rank@, parent@));
                            assert(self.shapes()[parent@].target == decls[parent@].1.target_of()@);
                            assert(p.target@ == self.shapes()[parent@].target);
                            assert(decls[name@].1 == *def);
                            assert(extends_to(*def, parent@));
                        }
                        self.errors.push(
                            CompileError::TargetMismatch {
                                style: def.name().duplicate(),
                                target: def.target().duplicate(),
                                parent: parent.duplicate(),
                                parent_target,
                            },
                            labels,
                            None,
                        );
                        proof {
                            if style_resolvable(decls, tokens, name@) {
                                let (shapes, rank) = choose|
                                    shapes: Map<Seq<char>, StyleShape>,
                                    rank: Map<Seq<char>, nat>,
                                | #[trigger] ranked_styles(decls, tokens, shapes, rank) && shapes.contains_key(name@);
                                assert(shapes.contains_key(parent@));
                                assert(self.shapes().contains_key(parent@));
                                lemma_shapes_unique(decls, tokens, shapes, rank, self.shapes(), self.rank@, parent@);
                            }
                            assert forall|i: int| 0 <= i < self.errors.errors_of().len() implies declaration_error(
                                self.decls@,
                                self.tokens@,
                                #[trigger] self.errors.errors_of()[i],
                            ) by {
                                if i < before_errors.len() {
                                    assert(self.errors.errors_of()[i] == before_errors[i]);
                                }
                            }
                            assert(self.errors.errors_of().subrange(0, before_errors.len() as int) =~= before_errors);
                            assert forall|n: Seq<char>| #[trigger] self.failed@.contains_key(n) implies reports_parent(
                                self.errors.errors_of(),
                                decls,
                                tokens,
                                n,
                            ) by {
                                lemma_reports_parent_grow(before_errors, self.errors.errors_of(), decls, tokens, n);
                            }
                            lemma_reported_grow(before_errors, self.errors.errors_of());
                        lemma_shapes_reported_grow(before_errors, self.errors.errors_of(), decls, self.shapes(), tokens);
                            lemma_references_shown_push(before_all, self.errors, decls, dotted_paths(self.token_paths@));
                            assert(reports_mistarget(self.errors.errors_of().last(), name@));
                            assert(!orphan_style(decls, name@));
                            lemma_cycle_parent_resolved(decls, tokens, self.shapes(), self.rank@, name@, parent@);
                            assert(reports_parent(self.errors.errors_of(), decls, tokens, name@));
                        }
                        None
                    } else {
                        proof {
                            assert(self.shapes().contains_key(parent@));
                            new_rank = self.rank@[parent@] + 1;
                            assert(self.visiting@[self.visiting@.len() - 1]@ == name@);
                            assert(parent@ != name@);
                        }
                        Some(copy_partial(p))
                    }
                }
            },
        };
        assert(base is None ==> parent_settled(decls, name@, self.shapes(), self.failed@));
        self.visiting.pop();
        proof {
            assert(self.visiting@ =~= pushed.drop_last());
        }
        match base {
            Some(b) => {
                let ghost base_shape = b.shape();
                let ghost before_errors = self.errors;
                let ghost before_shapes = self.shapes();
                proof {
                    assert(forall|n: Seq<char>| old(self).shapes().contains_key(n) ==> #[trigger] before_shapes.contains_key(n) && before_shapes[n] == old(self).shapes()[n]);
                }
                let ghost before_rank = self.rank@;
                let ghost before_failed = self.failed@;
                let ghost before_dirty = self.dirty@;
                let ghost failed_witness = choose|n: Seq<char>| #[trigger] self.failed@.contains_key(n);
                let ghost dirty_witness = choose|n: Seq<char>| #[trigger] self.dirty@.contains(n);
                proof {
                    assert(base_shape == style_base(decls, before_shapes, name@)) by {
                        match def.extends_of() {
                            None => {
                                assert(base_shape.properties =~= Map::<Seq<char>, CompiledValue>::empty());
                                assert(base_shape.states =~= Map::<Seq<char>, Map<Seq<char>, CompiledValue>>::empty());
                            },
                            Some(parent) => {},
                        }
                    }
                }
                let style = apply_definition_blocks(
                    &mut self.errors,
                    self.tokens,
                    &self.token_paths,
                    def,
                    source,
                    b,
                );
                let ghost clean = definition_clean(base_shape, *def, tokens);
                proof {
                    assert(decls[name@].1.name_of()@ == name@);
                    lemma_references_shown_extend(
                        before_errors,
                        self.errors,
                        decls,
                        dotted_paths(self.token_paths@),
                        name@,
                        tokens,
                    );
                    assert forall|i: int| 0 <= i < self.errors.errors_of().len() implies declaration_error(
                        self.decls@,
                        self.tokens@,
                        #[trigger] self.errors.errors_of()[i],
                    ) by {
                        if i < before_errors.errors_of().len() {
                            assert(self.errors.errors_of()[i] == self.errors.errors_of().subrange(
                                0,
                                before_errors.errors_of().len() as int,
                            )[i]);
                        } else {
                            lemma_declaration_error(decls, tokens, name@, self.errors.errors_of()[i]);
                        }
                    }
                    assert forall|n: Seq<char>| #[trigger] self.failed@.contains_key(n) implies reports_parent(
                        self.errors.errors_of(),
                        decls,
                        tokens,
                        n,
                    ) by {
                        lemma_reports_parent_grow(before_errors.errors_of(), self.errors.errors_of(), decls, tokens, n);
                    }
                }
                self.resolved.insert(name.duplicate(), style);
                proof {
                    self.rank@ = self.rank@.insert(name@, new_rank);
                    if !clean {
                        self.dirty@ = self.dirty@.insert(name@);
                    }
                    let shapes = self.shapes();
                    assert(shapes =~= before_shapes.insert(name@, apply_definition(base_shape, *def, tokens)));
                    assert(!before_shapes.contains_key(name@));
                    lemma_shapes_reported_insert(
                        before_errors.errors_of(),
                        self.errors.errors_of(),
                        decls,
                        tokens,
                        before_shapes,
                        before_rank,
                        name@,
                        apply_definition(base_shape, *def, tokens),
                    );
                    assert forall|n: Seq<char>| #[trigger] shapes.contains_key(n) implies decls.contains_key(n)
                        && self.rank@.contains_key(n) && shaped_by(decls, tokens, shapes, self.rank@, n) by {
                        if n != name@ {
                            assert(before_shapes.contains_key(n));
                            assert(shaped_by(decls, tokens, before_shapes, before_rank, n));
                            match decls[n].1.extends_of() {
                                None => {},
                                Some(p) => {
                                    assert(before_shapes.contains_key(p@));
                                },
                            }
                        }
                    }
                    assert forall|n: Seq<char>| #[trigger] shapes.contains_key(n) implies (self.dirty@.contains(n) <==> !definition_clean(
                        style_base(decls, shapes, n),
                        decls[n].1,
                        tokens,
                    )) by {
                        if n != name@ {
                            assert(before_shapes.contains_key(n));
                            match decls[n].1.extends_of() {
                                None => {},
                                Some(p) => {
                                    assert(before_shapes.contains_key(p@));
                                    assert(style_base(decls, shapes, n) == style_base(decls, before_shapes, n));
                                },
                            }
                        }
                    }
                    if self.errors.errors_of().len() > 0 {
                        if before_errors.errors_of().len() > 0 {
                            if before_failed.contains_key(failed_witness) {
                                assert(self.failed@.contains_key(failed_witness));
                            } else {
                                assert(self.dirty@.contains(dirty_witness));
                            }
                        } else {
                            assert(self.dirty@.contains(name@));
                        }
                    }
                    if before_failed.contains_key(failed_witness) {
                        assert(self.failed@.contains_key(failed_witness));
                    }
                }
                true
            },
            None => {
                proof {
                    assert(reports_parent(self.errors.errors_of(), decls, tokens, name@));
                }
                self.failed.insert(name.duplicate(), true);
                proof {
                    assert(self.failed@.contains_key(name@));
                }
                false
            },
        }
    }

    /// A label on the declaration of each declared member of a cycle, in
    /// the cycle's order.
    fn cycle_labels(&self, cycle: &Vec<Name>) -> (r: Vec<DiagnosticLabel>)
        requires
            locates(self.positions@, self.documents@, self.decls@),
        ensures
            member_labels(r@, self.decls@, declared_members(self.decls@, cycle@.map_values(|n: Name| n@))),
    {
        let ghost decls = self.decls@;
        let ghost names = cycle@.map_values(|n: Name| n@);
        let documents = self.documents;
        let mut labels: Vec<DiagnosticLabel> = Vec::new();
        let mut k: usize = 0;
        proof {
            assert(names.take(0) =~= Seq::<Seq<char>>::empty());
        }
        while k < cycle.len()
            invariant
                documents == self.documents,
                decls == self.decls@,
                names == cycle@.map_values(|n: Name| n@),
                locates(self.positions@, documents@, decls),
                k <= cycle@.len(),
                member_labels(labels@, decls, declared_members(decls, names.take(k as int))),
            decreases cycle@.len() - k,
        {
            proof {
                assert(names.take(k + 1).drop_last() =~= names.take(k as int));
                assert(names.take(k + 1).last() == cycle@[k as int]@);
            }
            match self.positions.get(&cycle[k]) {
                Some(position) => {
                    let (di, si) = *position;
                    let label = DiagnosticLabel::primary(
                        documents[di].source(),
                        documents[di].styles()[si].span(),
                        "cycle member",
                    );
                    proof {
                        reveal_strlit("cycle member");
                        assert(marks_member(label, decls, cycle@[k as int]@));
                    }
                    labels.push(label);
                },
                None => {},
            }
            k = k + 1;
        }
        proof {
            assert(names.take(cycle@.len() as int) =~= names);
        }
        labels
    }

    /// Reports the inheritance cycle that closes at `name`, which is on the
    /// stack at `index`.
    #[verifier::spinoff_prover]
    #[verifier::rlimit(100)]
    fn report_cycle(&mut self, name: &Name, index: usize)
        requires
            old(self).wf(),
            old(self).errors_justified(),
            index < old(self).visiting@.len(),
            old(self).visiting@[index as int]@ == name@,
            extends_to(old(self).decls@[old(self).visiting@.last()@].1, name@),
            failed_parents_settled(old(self).decls@, old(self).shapes(), old(self).failed@),
            old(self).below_settled(name@),
            old(self).visiting_live(),
        ensures
            final(self).wf(),
            failed_parents_settled(final(self).decls@, final(self).shapes(), final(self).failed@),
            final(self).decls@ == old(self).decls@,
            final(self).documents == old(self).documents,
            final(self).tokens == old(self).tokens,
            final(self).positions == old(self).positions,
            final(self).token_paths == old(self).token_paths,
            final(self).visiting == old(self).visiting,
            final(self).resolved == old(self).resolved,
            final(self).rank@ == old(self).rank@,
            final(self).dirty@ == old(self).dirty@,
            forall|n: Seq<char>|
                old(self).failed@.contains_key(n) ==> #[trigger] final(self).failed@.contains_key(n),
            final(self).failed@.contains_key(name@),
            final(self).errors_justified(),
    {
        let ghost decls = self.decls@;
        let ghost tokens = self.tokens@;
        let ghost chain = self.visiting@.map_values(|n: Name| n@).subrange(
            index as int,
            self.visiting@.len() as int,
        );
        proof {
            assert forall|i: int| 0 <= i < chain.len() - 1 implies extends_to(decls[#[trigger] chain[i]].1, chain[i + 1]) by {
                assert(chain[i] == self.visiting@[index + i]@);
                assert(chain[i + 1] == self.visiting@[index + i + 1]@);
            }
            assert(chain.last() == self.visiting@.last()@);
        }
        let documents = self.documents;
        let mut cycle: Vec<Name> = Vec::new();
        let mut k: usize = index;
        while k < self.visiting.len()
            invariant
                index <= k <= self.visiting@.len(),
                cycle@.len() == k - index,
                forall|j: int| 0 <= j < cycle@.len() ==> #[trigger] cycle@[j]@ == self.visiting@[index + j]@,
            decreases self.visiting@.len() - k,
        {
            cycle.push(self.visiting[k].duplicate());
            k = k + 1;
        }
        cycle.push(name.duplicate());
        proof {
            let c = cycle@.map_values(|n: Name| n@);
            assert(c =~= chain.push(name@)) by {
                assert forall|j: int| 0 <= j < chain.len() implies c[j] == chain[j] by {
                    assert(chain[j] == self.visiting@[index + j]@);
                }
            }
            assert forall|i: int| 0 <= i < c.len() - 1 implies decls.contains_key(#[trigger] c[i]) && extends_to(
                decls[c[i]].1,
                c[i + 1],
            ) by {
                assert(c[i] == chain[i]);
                assert(chain[i] == self.visiting@[index + i]@);
            }
            assert(inheritance_cycle(decls, c));
            let stack = self.visiting@.map_values(|n: Name| n@);
            assert forall|i: int| 0 <= i < stack.len() implies decls.contains_key(#[trigger] stack[i])
                && !self.shapes().contains_key(stack[i]) && !self.failed@.contains_key(stack[i]) by {
                assert(stack[i] == self.visiting@[i]@);
            }
            assert forall|a: int, b: int| 0 <= a < b < stack.len() implies #[trigger] stack[a] != #[trigger] stack[b] by {
                assert(stack[a] == self.visiting@[a]@);
                assert(stack[b] == self.visiting@[b]@);
            }
            assert forall|i: int| 0 <= i < stack.len() - 1 implies extends_to(decls[#[trigger] stack[i]].1, stack[i + 1]) by {
                assert(stack[i] == self.visiting@[i]@);
                assert(stack[i + 1] == self.visiting@[i + 1]@);
            }
            assert(c =~= stack.subrange(index as int, stack.len() as int).push(name@));
            lemma_reported_cycle_entry(decls, tokens, self.shapes(), self.rank@, self.failed@, stack, index as int, name@);
        }
        let ghost members = cycle@.map_values(|n: Name| n@);
        let labels = self.cycle_labels(&cycle);
        let ghost before_errors = self.errors.errors_of();
        let ghost before_all = self.errors;
        let error = CompileError::InheritanceCycle { cycle };
        let ghost cycle_error = error;
        proof {
            assert(members =~= chain.push(name@));
            assert forall|j: int| 0 <= j < chain.len() implies #[trigger] reports_cycle_through(
                cycle_error,
                chain[j],
            ) by {
                assert(members[j] == chain[j]);
                match cycle_error {
                    CompileError::InheritanceCycle { cycle } => {
                        assert(cycle@.map_values(|m: Name| m@) =~= members);
                    },
                    _ => {},
                }
            }
        }
        self.errors.push(error, labels, None);
        let ghost reported = self.errors;
        proof {
            assert forall|i: int| 0 <= i < self.errors.errors_of().len() implies declaration_error(
                self.decls@,
                self.tokens@,
                #[trigger] self.errors.errors_of()[i],
            ) by {
                if i < before_errors.len() {
                    assert(self.errors.errors_of()[i] == before_errors[i]);
                }
            }
            assert(self.errors.errors_of().subrange(0, before_errors.len() as int) =~= before_errors);
            assert forall|n: Seq<char>| #[trigger] self.failed@.contains_key(n) implies reports_parent(
                self.errors.errors_of(),
                decls,
                tokens,
                n,
            ) by {
                lemma_reports_parent_grow(before_errors, self.errors.errors_of(), decls, tokens, n);
            }
            lemma_reported_grow(before_errors, self.errors.errors_of());
                        lemma_shapes_reported_grow(before_errors, self.errors.errors_of(), decls, self.shapes(), tokens);
            lemma_references_shown_push(before_all, self.errors, decls, dotted_paths(self.token_paths@));
        }
        let mut m: usize = index;
        while m < self.visiting.len()
            invariant
                self.settled_state(),
                self.decls@ == decls,
                self.tokens@ == tokens,
                self.documents == old(self).documents,
                self.tokens == old(self).tokens,
                self.positions == old(self).positions,
                self.visiting == old(self).visiting,
                self.resolved == old(self).resolved,
                self.rank@ == old(self).rank@,
                self.dirty@ == old(self).dirty@,
                self.token_paths == old(self).token_paths,
                self.errors.errors_of().len() > 0,
                index <= m <= self.visiting@.len(),
                index < self.visiting@.len(),
                self.visiting@[index as int]@ == name@,
                chain == self.visiting@.map_values(|n: Name| n@).subrange(index as int, self.visiting@.len() as int),
                forall|i: int| 0 <= i < chain.len() - 1 ==> extends_to(decls[#[trigger] chain[i]].1, chain[i + 1]),
                extends_to(decls[chain.last()].1, chain[0]),
                m > index ==> self.failed@.contains_key(name@),
                forall|n: Seq<char>|
                    old(self).failed@.contains_key(n) ==> #[trigger] self.failed@.contains_key(n),
                self.errors == reported,
                self.errors_justified(),
                self.errors.errors_of().last() == cycle_error,
                forall|j: int| 0 <= j < chain.len() ==> #[trigger] reports_cycle_through(cycle_error, chain[j]),
                forall|j: int| 0 <= j < m - index ==> self.failed@.contains_key(#[trigger] chain[j]),
                self.shapes() == old(self).shapes(),
                forall|n: Seq<char>|
                    #[trigger] self.failed@.contains_key(n) ==> parent_settled(decls, n, self.shapes(), self.failed@)
                        || chain.contains(n),
            decreases self.visiting@.len() - m,
        {
            proof {
                lemma_inheritance_cycle(decls, tokens, chain, m - index);
                assert(chain[m - index] == self.visiting@[m as int]@);
                assert(decls.contains_key(self.visiting@[m as int]@));
                let member = chain[m - index];
                let next = if m - index + 1 < chain.len() {
                    m - index + 1
                } else {
                    0
                };
                lemma_inheritance_cycle(decls, tokens, chain, next);
                assert(extends_to(decls[member].1, chain[next]));
                assert(decls.contains_key(chain[next])) by {
                    assert(chain[next] == self.visiting@[index + next]@);
                }
                assert(reports_cycle_through(cycle_error, member));
                assert(reports_cycle_through(
                    self.errors.errors_of()[self.errors.errors_of().len() - 1],
                    member,
                ));
                assert(reports_parent(self.errors.errors_of(), decls, tokens, member));
            }
            let member = self.visiting[m].duplicate();
            let ghost failed_before = self.failed@;
            let ghost member_at = member@;
            self.failed.insert(member, true);
            proof {
                assert(chain[m - index] == member_at);
                assert forall|n: Seq<char>| #[trigger] self.failed@.contains_key(n) implies parent_settled(
                    decls,
                    n,
                    self.shapes(),
                    self.failed@,
                ) || chain.contains(n) by {
                    if n != member_at {
                        assert(failed_before.contains_key(n));
                        if !chain.contains(n) {
                            assert(parent_settled(decls, n, self.shapes(), failed_before));
                        }
                    }
                }
            }
            m = m + 1;
        }
        proof {
            assert(self.failed@.contains_key(name@));
            assert forall|n: Seq<char>| #[trigger] self.failed@.contains_key(n) implies parent_settled(
                decls,
                n,
                self.shapes(),
                self.failed@,
            ) by {
                if chain.contains(n) {
                    let w = choose|w: int| 0 <= w < chain.len() && chain[w] == n;
                    if w + 1 < chain.len() {
                        assert(extends_to(decls[chain[w]].1, chain[w + 1]));
                        assert(self.failed@.contains_key(chain[w + 1]));
                    } else {
                        assert(extends_to(decls[chain.last()].1, chain[0]));
                        assert(self.failed@.contains_key(chain[0]));
                    }
                }
            }
        }
    }
}

impl<'a> StyleResolver<'a> {
    /// Resolves every declared style.
    fn resolve_all(&mut self)
        requires
            old(self).wf(),
            old(self).errors_justified(),
            old(self).visiting@.len() == 0,
            failed_parents_settled(old(self).decls@, old(self).shapes(), old(self).failed@),
        ensures
            final(self).wf(),
            final(self).errors_justified(),
            final(self).decls@ == old(self).decls@,
            final(self).tokens == old(self).tokens,
            final(self).documents == old(self).documents,
            final(self).token_paths == old(self).token_paths,
            forall|n: Seq<char>|
                #[trigger] final(self).decls@.contains_key(n) ==> final(self).shapes().contains_key(n)
                    || final(self).failed@.contains_key(n),
    {
        self.positions.check_ordered();
        let count = self.positions.len();
        let mut i: usize = 0;
        while i < count
            invariant
                self.wf(),
                self.errors_justified(),
                self.decls@ == old(self).decls@,
                self.tokens == old(self).tokens,
                self.documents == old(self).documents,
                self.positions == old(self).positions,
                self.token_paths == old(self).token_paths,
                self.visiting@.len() == 0,
                failed_parents_settled(self.decls@, self.shapes(), self.failed@),
                count == self.positions.ordered().len(),
                i <= count,
                forall|k: int|
                    0 <= k < i ==> #[trigger] self.shapes().contains_key(self.positions.ordered()[k].0@)
                        || self.failed@.contains_key(self.positions.ordered()[k].0@),
            decreases count - i,
        {
            self.positions.check_ordered();
            let name = self.positions.entries()[i].0.duplicate();
            proof {
                assert(has_key(self.positions.ordered(), name@)) by {
                    assert(self.positions.ordered()[i as int].0@ == name@);
                }
                assert(self.positions@.contains_key(name@));
                assert forall|q: Seq<char>|
                    #[trigger] self.decls@.contains_key(q) && crate::text::chars_less(q, name@) implies self.shapes().contains_key(
                    q,
                ) || self.failed@.contains_key(q) by {
                    assert(self.positions@.contains_key(q));
                    let k = choose|k: int| 0 <= k < self.positions.ordered().len() && #[trigger] self.positions.ordered()[k].0@ == q;
                    if k >= i {
                        if k == i {
                            lemma_chars_less_irreflexive(q);
                        } else {
                            assert(crate::text::chars_less(self.positions.ordered()[i as int].0@, self.positions.ordered()[k].0@));
                            crate::text::lemma_chars_less_asymmetric(q, name@);
                        }
                    }
                    assert(self.shapes().contains_key(self.positions.ordered()[k].0@)
                        || self.failed@.contains_key(self.positions.ordered()[k].0@));
                }
                assert(self.below_settled(name@));
            }
            self.resolve(&name);
            i = i + 1;
        }
        self.positions.check_ordered();
        proof {
            assert forall|n: Seq<char>| #[trigger] self.decls@.contains_key(n) implies self.shapes().contains_key(n)
                || self.failed@.contains_key(n) by {
                assert(self.positions@.contains_key(n));
                let k = choose|k: int| 0 <= k < self.positions.ordered().len() && #[trigger] self.positions.ordered()[k].0@ == n;
                assert(self.shapes().contains_key(self.positions.ordered()[k].0@)
                    || self.failed@.contains_key(self.positions.ordered()[k].0@));
            }
        }
    }
}

/// `style` is the compiled form of style `n` with shape `shape`: base
/// properties as shaped, and each state fully expanded over them.
pub open spec fn expands(style: CompiledStyle, n: Seq<char>, shape: StyleShape) -> bool {
    &&& style.name_of()@ == n
    &&& style.target_of()@ == shape.target
    &&& style.properties_of()@ == shape.properties
    &&& style.states_of()@.dom() == shape.states.dom()
    &&& forall|s: Seq<char>|
        #[trigger] shape.states.contains_key(s) ==> style.states_of()@[s].name_of()@ == s
            && style.states_of()@[s].properties_of()@ == shape.properties.union_prefer_right(
            shape.states[s],
        )
}

/// `styles` compiles every shape of `shapes`.
pub open spec fn compiles_shapes(
    styles: Map<Seq<char>, CompiledStyle>,
    shapes: Map<Seq<char>, StyleShape>,
) -> bool {
    &&& styles.dom() == shapes.dom()
    &&& forall|n: Seq<char>| #[trigger] shapes.contains_key(n) ==> expands(styles[n], n, shapes[n])
}

/// `base` with each of `overrides` set over it.
fn overlay(base: &NameMap<CompiledValue>, overrides: &NameMap<CompiledValue>) -> (r: NameMap<CompiledValue>)
    ensures
        r@ == base@.union_prefer_right(overrides@),
{
    overrides.check_ordered();
    let entries = overrides.entries();
    let mut r = copy_values(base);
    let mut i: usize = 0;
    assert(base@.union_prefer_right(entries_map(entries@.take(0))) =~= base@);
    while i < entries.len()
        invariant
            entries@ == overrides.ordered(),
            i <= entries@.len(),
            r@ == base@.union_prefer_right(entries_map(entries@.take(i as int))),
        decreases entries@.len() - i,
    {
        r.insert(entries[i].0.duplicate(), entries[i].1.duplicate());
        assert(entries@.take(i + 1).drop_last() =~= entries@.take(i as int));
        assert(r@ =~= base@.union_prefer_right(entries_map(entries@.take(i + 1))));
        i = i + 1;
    }
    assert(entries@.take(entries@.len() as int) =~= entries@);
    r
}

/// Expands one style: every state gets the base properties with its overrides.
fn compile_style(name: &Name, style: &PartialStyle) -> (r: CompiledStyle)
    ensures
        expands(r, name@, style.shape()),
{
    style.state_overrides.check_ordered();
    let entries = style.state_overrides.entries();
    let ghost states = style.shape().states;
    let mut compiled: NameMap<CompiledState> = NameMap::new();
    let mut i: usize = 0;
    assert(entries_map(entries@.take(0)).dom() =~= Set::<Seq<char>>::empty());
    while i < entries.len()
        invariant
            entries@ == style.state_overrides.ordered(),
            style.state_overrides@ == entries_map(entries@),
            names_sorted(entries@),
            states == style.state_overrides@.map_values(|m: NameMap<CompiledValue>| m@),
            i <= entries@.len(),
            compiled@.dom() == entries_map(entries@.take(i as int)).dom(),
            forall|s: Seq<char>|
                #[trigger] compiled@.contains_key(s) ==> compiled@[s].name_of()@ == s
                    && compiled@[s].properties_of()@ == style.properties@.union_prefer_right(
                    entries_map(entries@.take(i as int))[s]@,
                ),
        decreases entries@.len() - i,
    {
        let state_name = &entries[i].0;
        let properties = overlay(&style.properties, &entries[i].1);
        compiled.insert(
            state_name.duplicate(),
            CompiledState::new(state_name.duplicate(), properties),
        );
        assert(entries@.take(i + 1).drop_last() =~= entries@.take(i as int));
        i = i + 1;
    }
    proof {
        assert(entries@.take(entries@.len() as int) =~= entries@);
        assert(compiled@.dom() =~= states.dom());
    }
    CompiledStyle::new(
        name.duplicate(),
        style.target.duplicate(),
        copy_values(&style.properties),
        compiled,
    )
}

/// Expands every resolved style.
fn compile_all(resolved: &NameMap<PartialStyle>) -> (r: NameMap<CompiledStyle>)
    ensures
        compiles_shapes(r@, resolved@.map_values(|p: PartialStyle| p.shape())),
{
    resolved.check_ordered();
    let entries = resolved.entries();
    let ghost shapes = resolved@.map_values(|p: PartialStyle| p.shape());
    let mut compiled: NameMap<CompiledStyle> = NameMap::new();
    let mut i: usize = 0;
    assert(entries_map(entries@.take(0)).dom() =~= Set::<Seq<char>>::empty());
    while i < entries.len()
        invariant
            entries@ == resolved.ordered(),
            resolved@ == entries_map(entries@),
            i <= entries@.len(),
            compiled@.dom() == entries_map(entries@.take(i as int)).dom(),
            forall|n: Seq<char>|
                #[trigger] compiled@.contains_key(n) ==> expands(
                    compiled@[n],
                    n,
                    entries_map(entries@.take(i as int))[n].shape(),
                ),
        decreases entries@.len() - i,
    {
        let style = compile_style(&entries[i].0, &entries[i].1);
        compiled.insert(entries[i].0.duplicate(), style);
        assert(entries@.take(i + 1).drop_last() =~= entries@.take(i as int));
        i = i + 1;
    }
    proof {
        assert(entries@.take(entries@.len() as int) =~= entries@);
        assert(compiled@.dom() =~= shapes.dom());
    }
    compiled
}

/// Whether a set of style documents compiles against `tokens`: there is at
/// least one document, the first names the theme, every theme document names
/// the same theme, no style is declared twice, and every declared style has
/// a shape (its inheritance is well founded, its parent exists and targets the
/// same control) whose blocks report nothing.
pub open spec fn styles_compile(
    docs: Seq<StyleDocument>,
    tokens: Map<Seq<Seq<char>>, TokenValue>,
) -> bool {
    let decls = first_styles(located_styles(docs));
    &&& docs.len() > 0
    &&& docs[0].theme_of() is Some
    &&& themes_agree(docs)
    &&& duplicate_styles(located_styles(docs)).len() == 0
    &&& exists|shapes: Map<Seq<char>, StyleShape>, rank: Map<Seq<char>, nat>|
        #[trigger] ranked_styles(decls, tokens, shapes, rank) && shapes.dom() == decls.dom() && forall|
            n: Seq<char>,
        |
            #[trigger] shapes.contains_key(n) ==> definition_clean(
                style_base(decls, shapes, n),
                decls[n].1,
                tokens,
            )
}

/// Compiles component styles against an already resolved token registry.
///
/// The first document establishes the theme name. The result is `Ok` exactly
/// when [`styles_compile`] holds; every style is then compiled from its shape,
/// which is unique (see [`lemma_shapes_unique`]). Otherwise every error
/// reports a problem that the documents exhibit (see [`style_error`]), and
/// every style that extends a missing style, or one that resolves with
/// another target, is reported, every style on a cycle of parents is
/// named in a reported cycle, every repeated style is reported, and every
/// problem within the declaration of a style that resolves (an unresolved
/// token, a repeated property or state, an override of another kind) is
/// reported (see [`shapes_reported`]); each unresolved token reference is
/// labelled on an assignment that makes it, with the closest declared token
/// as its suggestion (see [`references_shown`]). With no documents, or no
/// theme in the first, that is the one error.
#[verifier::spinoff_prover]
#[verifier::rlimit(60)]
pub fn compile_styles(documents: &[StyleDocument], tokens: ResolvedTokens) -> (r: Result<
    CompiledTheme,
    CompileErrors,
>)
    ensures
        r is Ok <==> styles_compile(documents@, tokens@),
        r matches Ok(theme) ==> {
            let decls = first_styles(located_styles(documents@));
            &&& theme.name_of() == documents@[0].theme_of()->0
            &&& theme.tokens_of() == tokens
            &&& exists|shapes: Map<Seq<char>, StyleShape>, rank: Map<Seq<char>, nat>|
                #[trigger] ranked_styles(decls, tokens@, shapes, rank) && shapes.dom() == decls.dom()
                    && compiles_shapes(theme.styles_of()@, shapes)
        },
        r matches Err(e) ==> e.errors_of().len() > 0,
        documents@.len() == 0 ==> (r matches Err(e) && e.errors_of() == seq![CompileError::NoStyleDocuments]),
        documents@.len() > 0 && documents@[0].theme_of() is None ==> (r matches Err(e) && e.errors_of()
            == seq![CompileError::NoThemeName]),
        r matches Err(e) ==> forall|i: int|
            0 <= i < e.errors_of().len() ==> style_error(documents@, tokens@, #[trigger] e.errors_of()[i]),
        documents@.len() > 0 && documents@[0].theme_of() is Some ==> (r matches Err(e) ==> {
            let decls = first_styles(located_styles(documents@));
            &&& forall|n: Seq<char>|
                #[trigger] orphan_style(decls, n) ==> exists|i: int|
                    0 <= i < e.errors_of().len() && #[trigger] reports_orphan(e.errors_of()[i], n)
            &&& forall|n: Seq<char>|
                #[trigger] mistargeted_style(decls, tokens@, n) ==> exists|i: int|
                    0 <= i < e.errors_of().len() && #[trigger] reports_mistarget(e.errors_of()[i], n)
            &&& forall|n: Seq<char>|
                #[trigger] on_inheritance_cycle(decls, n) ==> exists|i: int|
                    0 <= i < e.errors_of().len() && #[trigger] reports_cycle_through(e.errors_of()[i], n)
            &&& duplicates_reported(e.errors_of(), duplicate_styles(located_styles(documents@)))
            &&& references_shown(e, decls, token_texts(tokens))
            &&& forall|shapes: Map<Seq<char>, StyleShape>, rank: Map<Seq<char>, nat>|
                #[trigger] ranked_styles(decls, tokens@, shapes, rank) ==> shapes_reported(
                    e.errors_of(),
                    decls,
                    shapes,
                    tokens@,
                )
        }),
{
    if documents.len() == 0 {
        let mut errors = CompileErrors::new();
        errors.push(CompileError::NoStyleDocuments, Vec::new(), None);
        return Err(errors);
    }
    let first = &documents[0];
    let theme_name = match first.theme() {
        Some(name) => name.duplicate(),
        None => {
            let mut errors = CompileErrors::new();
            errors.push(
                CompileError::NoThemeName,
                vec![DiagnosticLabel::primary(first.source(), None, "no theme declared here")],
                None,
            );
            return Err(errors);
        },
    };
    let ghost docs = documents@;
    let ghost decls = first_styles(located_styles(docs));
    let (positions, mut errors) = merge_styles(documents, &theme_name, first.source());
    let ghost merge_count = errors.errors_of().len();
    let mut token_paths: Vec<TokenPath> = Vec::new();
    let token_entries = tokens.entries();
    let mut t: usize = 0;
    while t < token_entries.len()
        invariant
            t <= token_entries@.len(),
            token_paths@.len() == t,
            forall|k: int| 0 <= k < t ==> #[trigger] token_paths@[k]@ == token_entries@[k].0@,
        decreases token_entries@.len() - t,
    {
        token_paths.push(token_entries[t].0.duplicate());
        t = t + 1;
    }
    let mut style_names: Vec<Name> = Vec::new();
    let position_entries = positions.entries();
    let mut k: usize = 0;
    while k < position_entries.len()
        invariant
            k <= position_entries@.len(),
        decreases position_entries@.len() - k,
    {
        style_names.push(position_entries[k].0.duplicate());
        k = k + 1;
    }
    proof {
        lemma_first_styles_finite(located_styles(docs), Seq::empty());
        assert(dotted_paths(token_paths@) =~= token_texts(tokens));
    }
    let mut resolver = StyleResolver {
        documents,
        tokens: &tokens,
        positions,
        token_paths,
        style_names,
        resolved: NameMap::new(),
        failed: NameMap::new(),
        visiting: Vec::new(),
        errors: CompileErrors::new(),
        decls: Ghost(decls),
        rank: Ghost(Map::empty()),
        dirty: Ghost(Set::empty()),
    };
    proof {
        assert(resolver.shapes() =~= Map::<Seq<char>, StyleShape>::empty());
        assert(ranked_styles(decls, tokens@, resolver.shapes(), resolver.rank@));
        reveal(shapes_reported);
        assert forall|n: Seq<char>| #[trigger] decls.contains_key(n) implies decls[n].1.name_of()@ == n by {
            lemma_first_styles_finite(located_styles(docs), n);
        }
    }
    resolver.resolve_all();
    let ghost shapes = resolver.shapes();
    let ghost rank = resolver.rank@;
    let ghost resolver_failed = resolver.errors.errors_of().len() > 0;
    proof {
        if styles_compile(docs, tokens@) {
            let (full, full_rank) = choose|
                full: Map<Seq<char>, StyleShape>,
                full_rank: Map<Seq<char>, nat>,
            |
                #[trigger] ranked_styles(decls, tokens@, full, full_rank) && full.dom() == decls.dom()
                    && forall|n: Seq<char>|
                    #[trigger] full.contains_key(n) ==> definition_clean(
                        style_base(decls, full, n),
                        decls[n].1,
                        tokens@,
                    );
            if resolver_failed {
                if exists|n: Seq<char>| #[trigger] resolver.failed@.contains_key(n) {
                    let n = choose|n: Seq<char>| #[trigger] resolver.failed@.contains_key(n);
                    assert(full.contains_key(n));
                    assert(style_resolvable(decls, tokens@, n));
                } else {
                    let n = choose|n: Seq<char>| #[trigger] resolver.dirty@.contains(n);
                    assert(shapes.contains_key(n));
                    assert(full.contains_key(n));
                    match decls[n].1.extends_of() {
                        None => {},
                        Some(p) => {
                            assert(shapes.contains_key(p@));
                            lemma_shapes_unique(decls, tokens@, full, full_rank, shapes, rank, p@);
                        },
                    }
                    assert(style_base(decls, full, n) == style_base(decls, shapes, n));
                }
            }
        }
        if !resolver_failed {
            assert forall|n: Seq<char>| #[trigger] decls.contains_key(n) implies shapes.contains_key(n) by {
                if resolver.failed@.contains_key(n) {
                }
            }
            assert(shapes.dom() =~= decls.dom());
            assert forall|n: Seq<char>| #[trigger] shapes.contains_key(n) implies definition_clean(
                style_base(decls, shapes, n),
                decls[n].1,
                tokens@,
            ) by {
                if resolver.dirty@.contains(n) {
                }
            }
        }
    }
    let compiled = compile_all(&resolver.resolved);
    let resolver_errors = resolver.errors;
    let ghost merged_errors = errors.errors_of();
    let ghost merged_all = errors;
    errors.check_valid();
    errors.append(resolver_errors);
    proof {
        lemma_duplicates_grow(merged_errors, errors.errors_of(), duplicate_styles(located_styles(docs)));
        lemma_reported_append(merged_errors, resolver_errors.errors_of());
        lemma_references_shown_append(merged_all, resolver_errors, errors, docs, decls, token_texts(tokens));
        assert(errors.errors_of() == merged_errors + resolver_errors.errors_of());
        lemma_shapes_reported_grow(resolver_errors.errors_of(), errors.errors_of(), decls, shapes, tokens@);
        assert forall|n: Seq<char>| #[trigger] decls.contains_key(n) && style_resolvable(decls, tokens@, n) implies shapes.contains_key(n) by {
            if !shapes.contains_key(n) {
                assert(resolver.failed@.contains_key(n));
            }
        }
        assert forall|other: Map<Seq<char>, StyleShape>, other_rank: Map<Seq<char>, nat>|
            #[trigger] ranked_styles(decls, tokens@, other, other_rank) implies shapes_reported(
                errors.errors_of(),
                decls,
                other,
                tokens@,
            ) by {
            lemma_shapes_reported_any(errors.errors_of(), decls, tokens@, shapes, rank, other, other_rank);
        }
        assert forall|i: int| 0 <= i < errors.errors_of().len() implies style_error(
            docs,
            tokens@,
            #[trigger] errors.errors_of()[i],
        ) by {
            if i < merged_errors.len() {
                assert(errors.errors_of()[i] == merged_errors[i]);
                assert(merge_style_error(docs, located_styles(docs), merged_errors[i]));
            } else {
                assert(errors.errors_of()[i] == resolver_errors.errors_of()[i - merged_errors.len()]);
                assert(declaration_error(decls, tokens@, errors.errors_of()[i]));
            }
        }
        let later = resolver_errors.errors_of();
        assert forall|n: Seq<char>| #[trigger] orphan_style(decls, n) implies exists|i: int|
            0 <= i < errors.errors_of().len() && #[trigger] reports_orphan(errors.errors_of()[i], n) by {
            if shapes.contains_key(n) {
                lemma_shaped_parent_sound(decls, tokens@, shapes, rank, n);
            }
            assert(resolver.failed@.contains_key(n));
            assert(reports_parent(later, decls, tokens@, n));
            let i = choose|i: int| 0 <= i < later.len() && #[trigger] reports_orphan(later[i], n);
            assert(errors.errors_of()[merged_errors.len() + i] == later[i]);
        }
        assert forall|n: Seq<char>| #[trigger] mistargeted_style(decls, tokens@, n) implies exists|i: int|
            0 <= i < errors.errors_of().len() && #[trigger] reports_mistarget(errors.errors_of()[i], n) by {
            if shapes.contains_key(n) {
                lemma_shaped_parent_sound(decls, tokens@, shapes, rank, n);
            }
            assert(resolver.failed@.contains_key(n));
            assert(reports_parent(later, decls, tokens@, n));
            let i = choose|i: int| 0 <= i < later.len() && #[trigger] reports_mistarget(later[i], n);
            assert(errors.errors_of()[merged_errors.len() + i] == later[i]);
        }
        assert forall|n: Seq<char>| #[trigger] on_inheritance_cycle(decls, n) implies exists|i: int|
            0 <= i < errors.errors_of().len() && #[trigger] reports_cycle_through(errors.errors_of()[i], n) by {
            lemma_on_cycle_unresolvable(decls, tokens@, n);
            if shapes.contains_key(n) {
                lemma_shaped_parent_sound(decls, tokens@, shapes, rank, n);
            }
            assert(resolver.failed@.contains_key(n));
            assert(reports_parent(later, decls, tokens@, n));
            let i = choose|i: int| 0 <= i < later.len() && #[trigger] reports_cycle_through(later[i], n);
            assert(errors.errors_of()[merged_errors.len() + i] == later[i]);
        }
    }
    if errors.is_empty() {
        Ok(CompiledTheme::new(theme_name, tokens, compiled))
    } else {
        Err(errors)
    }
}

} // verus!
