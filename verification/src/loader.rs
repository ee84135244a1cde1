//! Discovering a theme's source tree and compiling it end to end.
//!
//! Loading starts at a root style document. Each style document names token
//! sources and imported style documents by paths relative to its own
//! directory; every such path is normalized, read once, and parsed. Imports
//! that lead back to a document still being loaded form a cycle and are
//! refused. The root document comes first among the style documents, so it
//! establishes the theme name; the others follow in path order.
use crate::compiled::CompiledTheme;
use crate::diagnostic::{joined, join_texts};
use crate::path_map::{has_path, KeyedMap};
use crate::semantic_errors::CompileErrors;
use crate::source::SourceId;
use crate::sources::{
    path_text, resolved, InvalidSourcePath, SourcePath, SourceProvider, SourceReadError,
};
use crate::style_compilation::{
    compile_styles, compiles_shapes, first_styles, located_styles, ranked_styles, style_error,
    styles_compile, StyleShape,
};
use crate::style_model::StyleDocument;
use crate::text::owned;
use crate::token_model::TokenDocument;
use crate::token_resolution::{
    all_definitions, first_definitions, full_resolution, resolve_tokens, token_errors,
    tokens_resolve, unlabelled,
};
use vstd::prelude::*;

verus! {

/// Failure while discovering, parsing, or compiling a theme source tree.
#[derive(Debug)]
#[allow(inconsistent_fields)]
pub enum LoadError {
    /// A root or declared dependency path is invalid.
    InvalidPath {
        /// Declaring document, or `None` for the requested root.
        owner: Option<SourcePath>,
        /// Invalid path as written.
        path: String,
        /// Path policy failure.
        source: InvalidSourcePath,
    },
    /// A source could not be read.
    Read {
        /// Requested root-relative path.
        path: SourcePath,
        /// Provider failure.
        source: SourceReadError,
    },
    /// A KDL source is malformed.
    Kdl {
        /// Root-relative source path.
        path: SourcePath,
        /// Parser failures.
        source: crate::style_kdl::ParseErrors,
    },
    /// A token JSON source is malformed.
    Tokens {
        /// Root-relative source path.
        path: SourcePath,
        /// Parser failures.
        source: crate::token_json::ParseErrors,
    },
    /// KDL imports contain a cycle.
    ImportCycle {
        /// Closed path through the cycle, with the first path repeated last.
        cycle: Vec<SourcePath>,
    },
    /// More sources were loaded than can be identified.
    TooManySources,
    /// Parsed documents failed semantic compilation.
    Compile {
        /// Semantic diagnostics.
        source: CompileErrors,
        /// Root-relative source names keyed by compiler identity.
        sources: Vec<(SourceId, String)>,
    },
}

/// The rendered paths of a cycle.
pub open spec fn cycle_texts(cycle: Seq<SourcePath>) -> Seq<Seq<char>> {
    cycle.map_values(|p: SourcePath| path_text(p@))
}

impl LoadError {
    /// The rendered message.
    pub open spec fn message_text(&self) -> Seq<char> {
        match self {
            LoadError::InvalidPath { owner, path, source } => match owner {
                Some(o) => "invalid path '"@ + path@ + "' declared by '"@ + path_text(o@) + "': "@
                    + source.message_text(),
                None => "invalid root path '"@ + path@ + "': "@ + source.message_text(),
            },
            LoadError::Read { path, source } => "failed to read '"@ + path_text(path@) + "': "@
                + source.message_of(),
            LoadError::Kdl { path, source } => "failed to parse '"@ + path_text(path@) + "': "@
                + joined(source.lines(), "\n"@),
            LoadError::Tokens { path, source } => "failed to parse '"@ + path_text(path@) + "': "@
                + joined(source.lines(), "\n"@),
            LoadError::ImportCycle { cycle } => "style import cycle: "@ + joined(
                cycle_texts(cycle@),
                " -> "@,
            ),
            LoadError::TooManySources => "theme contains too many sources"@,
            LoadError::Compile { source, sources } => "theme compilation failed:\n"@ + joined(
                source.blocks(sources@),
                "\n"@,
            ),
        }
    }

    /// Renders the failure for people.
    pub fn to_string(&self) -> (r: String)
        ensures
            r@ == self.message_text(),
    {
        match self {
            LoadError::InvalidPath { owner, path, source } => match owner {
                Some(o) => {
                    let mut r = owned("invalid path '");
                    r.append(path.as_str());
                    r.append("' declared by '");
                    r.append(o.to_string().as_str());
                    r.append("': ");
                    r.append(source.to_string().as_str());
                    r
                },
                None => {
                    let mut r = owned("invalid root path '");
                    r.append(path.as_str());
                    r.append("': ");
                    r.append(source.to_string().as_str());
                    r
                },
            },
            LoadError::Read { path, source } => {
                let mut r = owned("failed to read '");
                r.append(path.to_string().as_str());
                r.append("': ");
                r.append(source.to_string().as_str());
                r
            },
            LoadError::Kdl { path, source } => {
                let mut r = owned("failed to parse '");
                r.append(path.to_string().as_str());
                r.append("': ");
                r.append(source.to_string().as_str());
                r
            },
            LoadError::Tokens { path, source } => {
                let mut r = owned("failed to parse '");
                r.append(path.to_string().as_str());
                r.append("': ");
                r.append(source.to_string().as_str());
                r
            },
            LoadError::ImportCycle { cycle } => {
                let mut names: Vec<String> = Vec::new();
                let mut i: usize = 0;
                while i < cycle.len()
                    invariant
                        i <= cycle@.len(),
                        crate::text::texts(names@) == cycle_texts(cycle@).take(i as int),
                    decreases cycle@.len() - i,
                {
                    let ghost before = names@;
                    names.push(cycle[i].to_string());
                    assert(crate::text::texts(names@) =~= cycle_texts(cycle@).take(i + 1)) by {
                        assert(crate::text::texts(names@) =~= crate::text::texts(before).push(
                            names@.last()@,
                        ));
                    }
                    i = i + 1;
                }
                assert(cycle_texts(cycle@).take(cycle@.len() as int) =~= cycle_texts(cycle@));
                let mut r = owned("style import cycle: ");
                r.append(join_texts(&names, " -> ").as_str());
                r
            },
            LoadError::TooManySources => owned("theme contains too many sources"),
            LoadError::Compile { source, sources } => {
                let mut r = owned("theme compilation failed:\n");
                r.append(source.render_with_source_names(sources).as_str());
                r
            },
        }
    }
}

/// The outcome of compiling parsed documents: tokens are resolved first,
/// then styles are compiled against them, the first style document giving
/// the theme its name.
pub open spec fn documents_outcome(
    token_documents: Seq<TokenDocument>,
    style_documents: Seq<StyleDocument>,
    names: Seq<(SourceId, String)>,
    r: Result<CompiledTheme, LoadError>,
) -> bool {
    let defs = all_definitions(token_documents);
    if !tokens_resolve(defs) {
        r matches Err(LoadError::Compile { source, sources }) && sources@ == names && token_errors(
            source.errors_of(),
            defs,
        ) && unlabelled(source)
    } else {
        &&& exists|m: Map<Seq<Seq<char>>, crate::token_model::TokenValue>|
            #[trigger] full_resolution(first_definitions(defs), m)
        &&& forall|m: Map<Seq<Seq<char>>, crate::token_model::TokenValue>|
            #[trigger] full_resolution(first_definitions(defs), m) ==> match r {
                Ok(theme) => {
                    let decls = first_styles(located_styles(style_documents));
                    &&& styles_compile(style_documents, m)
                    &&& theme.tokens_of()@ == m
                    &&& theme.name_of() == style_documents[0].theme_of()->0
                    &&& exists|shapes: Map<Seq<char>, StyleShape>, rank: Map<Seq<char>, nat>|
                        #[trigger] ranked_styles(decls, m, shapes, rank) && shapes.dom()
                            == decls.dom() && compiles_shapes(theme.styles_of()@, shapes)
                },
                Err(LoadError::Compile { source, sources }) => !styles_compile(style_documents, m)
                    && sources@ == names && source.errors_of().len() > 0 && forall|i: int|
                    0 <= i < source.errors_of().len() ==> style_error(
                        style_documents,
                        m,
                        #[trigger] source.errors_of()[i],
                    ),
                _ => false,
            }
    }
}

/// Compiles parsed documents: resolves the tokens of `token_documents`,
/// then compiles `style_documents` against them. Failures carry `names` so
/// that diagnostics can name their sources.
pub fn compile_documents(
    token_documents: &[TokenDocument],
    style_documents: &[StyleDocument],
    names: Vec<(SourceId, String)>,
) -> (r: Result<CompiledTheme, LoadError>)
    ensures
        documents_outcome(token_documents@, style_documents@, names@, r),
{
    let ghost defs = all_definitions(token_documents@);
    match resolve_tokens(token_documents) {
        Err(source) => Err(LoadError::Compile { source, sources: names }),
        Ok(tokens) => {
            let ghost m = tokens@;
            proof {
                assert forall|n: Map<Seq<Seq<char>>, crate::token_model::TokenValue>|
                    #[trigger] full_resolution(first_definitions(defs), n) implies n == m by {
                    crate::token_resolution::lemma_full_resolution_unique(
                        first_definitions(defs),
                        n,
                        m,
                    );
                }
            }
            match compile_styles(style_documents, tokens) {
                Ok(theme) => Ok(theme),
                Err(source) => Err(LoadError::Compile { source, sources: names }),
            }
        },
    }
}

/// What one loading pass observed of its sources. Each entry is keyed by the
/// identity that the source was to get and by its path: the text that the
/// provider held there (or none), and what that text parsed to as a style
/// document or as a token source.
pub struct Observed {
    pub texts: Map<(int, Seq<Seq<char>>), Option<Seq<char>>>,
    pub styles: Map<(int, Seq<Seq<char>>), Result<StyleDocument, crate::style_kdl::ParseErrors>>,
    pub tokens: Map<(int, Seq<Seq<char>>), Result<TokenDocument, crate::token_json::ParseErrors>>,
}

/// `o` agrees with `seen` wherever `seen` has an entry.
pub open spec fn extends(o: Observed, seen: Observed) -> bool {
    &&& forall|k: (int, Seq<Seq<char>>)| #[trigger]
        seen.texts.contains_key(k) ==> o.texts.contains_key(k) && o.texts[k] == seen.texts[k]
    &&& forall|k: (int, Seq<Seq<char>>)| #[trigger]
        seen.styles.contains_key(k) ==> o.styles.contains_key(k) && o.styles[k] == seen.styles[k]
    &&& forall|k: (int, Seq<Seq<char>>)| #[trigger]
        seen.tokens.contains_key(k) ==> o.tokens.contains_key(k) && o.tokens[k] == seen.tokens[k]
}

/// The text of an optional source.
pub open spec fn text_of(s: Option<String>) -> Option<Seq<char>> {
    match s {
        Some(t) => Some(t@),
        None => None,
    }
}

/// Every observation is true of `provider`: a text is what it holds at a
/// path with that spelling, and a parse result is what the parser gives for
/// that text, that path and that identity.
pub open spec fn observed_from<P: SourceProvider>(provider: P, o: Observed) -> bool {
    &&& forall|k: (int, Seq<Seq<char>>)| #[trigger]
        o.texts.contains_key(k) ==> exists|q: SourcePath|
            q@ == k.1 && text_of(#[trigger] provider.source_at(q)) == o.texts[k]
    &&& forall|k: (int, Seq<Seq<char>>)| #[trigger]
        o.styles.contains_key(k) ==> o.texts.contains_key(k) && o.texts[k] is Some && exists|
            id: SourceId,
        |
            id.id() == k.0 && #[trigger] crate::style_kdl::parse_outcome(
                path_text(k.1),
                id,
                o.texts[k]->0,
                o.styles[k],
            )
    &&& forall|k: (int, Seq<Seq<char>>)| #[trigger]
        o.tokens.contains_key(k) ==> o.texts.contains_key(k) && o.texts[k] is Some && exists|
            id: SourceId,
        |
            id.id() == k.0 && #[trigger] crate::token_json::parse_outcome(id, o.texts[k]->0, o.tokens[k])
}

/// Where a loading pass stands: identities handed out, documents loaded,
/// the chain of style documents being loaded, every path depended on, and
/// the name given to each identity.
#[verifier::ext_equal]
pub struct LoadState {
    pub next: int,
    pub styles: Map<Seq<Seq<char>>, StyleDocument>,
    pub tokens: Map<Seq<Seq<char>>, TokenDocument>,
    pub visiting: Seq<Seq<Seq<char>>>,
    pub deps: Set<Seq<Seq<char>>>,
    pub names: Seq<(int, Seq<char>)>,
}

/// Why a loading pass stopped.
pub enum LoadFailure {
    /// The document at the owner path names a path that does not resolve.
    InvalidPath(Seq<Seq<char>>, Seq<char>, InvalidSourcePath),
    /// No text is held at the path.
    Read(Seq<Seq<char>>),
    /// The text at the path is no style document.
    Kdl(Seq<Seq<char>>, crate::style_kdl::ParseErrors),
    /// The text at the path is no token source.
    Tokens(Seq<Seq<char>>, crate::token_json::ParseErrors),
    /// Imports lead back to a document being loaded.
    ImportCycle(Seq<Seq<Seq<char>>>),
    /// Every identity has been handed out.
    TooManySources,
    /// The pass reads what the observations do not record.
    Unobserved,
}

/// The loading failure that `e` reports, if it is one.
pub open spec fn failure_of(e: LoadError) -> Option<LoadFailure> {
    match e {
        LoadError::InvalidPath { owner: Some(o), path, source } => Some(
            LoadFailure::InvalidPath(o@, path@, source),
        ),
        LoadError::Read { path, .. } => Some(LoadFailure::Read(path@)),
        LoadError::Kdl { path, source } => Some(LoadFailure::Kdl(path@, source)),
        LoadError::Tokens { path, source } => Some(LoadFailure::Tokens(path@, source)),
        LoadError::ImportCycle { cycle } => Some(
            LoadFailure::ImportCycle(cycle@.map_values(|p: SourcePath| p@)),
        ),
        LoadError::TooManySources => Some(LoadFailure::TooManySources),
        _ => None,
    }
}

/// Before anything is loaded.
pub open spec fn start_state() -> LoadState {
    LoadState {
        next: 0,
        styles: Map::empty(),
        tokens: Map::empty(),
        visiting: Seq::empty(),
        deps: Set::empty(),
        names: Seq::empty(),
    }
}

/// `p` is depended on.
pub open spec fn depend_on(st: LoadState, p: Seq<Seq<char>>) -> LoadState {
    LoadState {
        next: st.next,
        styles: st.styles,
        tokens: st.tokens,
        visiting: st.visiting,
        deps: st.deps.insert(p),
        names: st.names,
    }
}

/// The next identity goes to `p`.
pub open spec fn name_next(st: LoadState, p: Seq<Seq<char>>) -> LoadState {
    LoadState {
        next: st.next + 1,
        styles: st.styles,
        tokens: st.tokens,
        visiting: st.visiting,
        deps: st.deps,
        names: st.names.push((st.next, path_text(p))),
    }
}

/// `p` joins the chain of style documents being loaded.
pub open spec fn visit(st: LoadState, p: Seq<Seq<char>>) -> LoadState {
    LoadState {
        next: st.next,
        styles: st.styles,
        tokens: st.tokens,
        visiting: st.visiting.push(p),
        deps: st.deps,
        names: st.names,
    }
}

/// The token document `doc` is loaded from `p`.
pub open spec fn add_tokens(st: LoadState, p: Seq<Seq<char>>, doc: TokenDocument) -> LoadState {
    LoadState {
        next: st.next,
        styles: st.styles,
        tokens: st.tokens.insert(p, doc),
        visiting: st.visiting,
        deps: st.deps,
        names: st.names,
    }
}

/// The style document `doc`, loaded from `p`, leaves the chain.
pub open spec fn add_style(st: LoadState, p: Seq<Seq<char>>, doc: StyleDocument) -> LoadState {
    LoadState {
        next: st.next,
        styles: st.styles.insert(p, doc),
        tokens: st.tokens,
        visiting: st.visiting.drop_last(),
        deps: st.deps,
        names: st.names,
    }
}

/// The closed cycle from the first place of `p` in `chain` back to `p`.
pub open spec fn cycle_at(chain: Seq<Seq<Seq<char>>>, p: Seq<Seq<char>>) -> Seq<Seq<Seq<char>>> {
    let k = choose|k: int|
        0 <= k < chain.len() && chain[k] == p && forall|j: int| 0 <= j < k ==> #[trigger] chain[j] != p;
    chain.subrange(k, chain.len() as int).push(p)
}

/// Loading the token source at `p`.
pub open spec fn tokens_step(o: Observed, st: LoadState, p: Seq<Seq<char>>) -> (LoadState, Option<
    LoadFailure,
>) {
    let st1 = depend_on(st, p);
    if st.tokens.contains_key(p) {
        (st1, None)
    } else if !o.texts.contains_key((st.next, p)) {
        (st1, Some(LoadFailure::Unobserved))
    } else if o.texts[(st.next, p)] is None {
        (st1, Some(LoadFailure::Read(p)))
    } else if st.next >= u32::MAX {
        (st1, Some(LoadFailure::TooManySources))
    } else if !o.tokens.contains_key((st.next, p)) {
        (st1, Some(LoadFailure::Unobserved))
    } else {
        let st2 = name_next(st1, p);
        match o.tokens[(st.next, p)] {
            Err(e) => (st2, Some(LoadFailure::Tokens(p, e))),
            Ok(doc) => (add_tokens(st2, p, doc), None),
        }
    }
}

/// Loading, in order from the `i`th, the token sources that the document at
/// `owner` names.
pub open spec fn token_refs_run(
    o: Observed,
    st: LoadState,
    owner: Seq<Seq<char>>,
    refs: Seq<String>,
    i: int,
) -> (LoadState, Option<LoadFailure>)
    decreases refs.len() - i,
{
    if i < 0 || i >= refs.len() {
        (st, None)
    } else {
        match resolved(owner, refs[i]@) {
            Err(e) => (st, Some(LoadFailure::InvalidPath(owner, refs[i]@, e))),
            Ok(q) => {
                let (st2, f) = tokens_step(o, st, q);
                if f is Some {
                    (st2, f)
                } else {
                    token_refs_run(o, st2, owner, refs, i + 1)
                }
            },
        }
    }
}

/// Loading the style document at `p`: once, and before it everything that
/// it names, its token sources first, then its imports.
pub open spec fn style_run(o: Observed, st: LoadState, p: Seq<Seq<char>>) -> (LoadState, Option<
    LoadFailure,
>)
    decreases u32::MAX - st.next, 0int, 0int,
{
    let st1 = depend_on(st, p);
    if st.styles.contains_key(p) {
        (st1, None)
    } else if st.visiting.contains(p) {
        (st1, Some(LoadFailure::ImportCycle(cycle_at(st.visiting, p))))
    } else {
        let st2 = visit(st1, p);
        if !o.texts.contains_key((st.next, p)) {
            (st2, Some(LoadFailure::Unobserved))
        } else if o.texts[(st.next, p)] is None {
            (st2, Some(LoadFailure::Read(p)))
        } else if st.next >= u32::MAX {
            (st2, Some(LoadFailure::TooManySources))
        } else if !o.styles.contains_key((st.next, p)) {
            (st2, Some(LoadFailure::Unobserved))
        } else {
            let st3 = name_next(st2, p);
            match o.styles[(st.next, p)] {
                Err(e) => (st3, Some(LoadFailure::Kdl(p, e))),
                Ok(doc) => {
                    let (st4, f4) = token_refs_run(o, st3, p, doc.token_sources_of(), 0);
                    if f4 is Some {
                        (st4, f4)
                    } else if !(st3.next <= st4.next <= u32::MAX) {
                        (st4, Some(LoadFailure::TooManySources))
                    } else {
                        let (st5, f5) = imports_run(o, st4, p, doc.imports_of(), 0);
                        if f5 is Some {
                            (st5, f5)
                        } else {
                            (add_style(st5, p, doc), None)
                        }
                    }
                },
            }
        }
    }
}

/// Loading, in order from the `i`th, the style documents that the document
/// at `owner` imports.
pub open spec fn imports_run(
    o: Observed,
    st: LoadState,
    owner: Seq<Seq<char>>,
    refs: Seq<String>,
    i: int,
) -> (LoadState, Option<LoadFailure>)
    decreases u32::MAX - st.next, 1int, refs.len() - i,
{
    if i < 0 || i >= refs.len() {
        (st, None)
    } else {
        match resolved(owner, refs[i]@) {
            Err(e) => (st, Some(LoadFailure::InvalidPath(owner, refs[i]@, e))),
            Ok(q) => {
                let (st2, f) = style_run(o, st, q);
                if f is Some {
                    (st2, f)
                } else if !(st.next <= st2.next <= u32::MAX) {
                    (st2, Some(LoadFailure::TooManySources))
                } else {
                    imports_run(o, st2, owner, refs, i + 1)
                }
            },
        }
    }
}

/// The name list of a pass as identities and texts.
pub open spec fn name_views(names: Seq<(SourceId, String)>) -> Seq<(int, Seq<char>)> {
    names.map_values(|e: (SourceId, String)| (e.0.id() as int, e.1@))
}

/// `keys` lists the paths of `m`, each once, in path order.
pub open spec fn keys_in_order<V>(m: Map<Seq<Seq<char>>, V>, keys: Seq<Seq<Seq<char>>>) -> bool {
    &&& forall|i: int, j: int|
        0 <= i < j < keys.len() ==> crate::text::segs_less(#[trigger] keys[i], #[trigger] keys[j])
    &&& forall|p: Seq<Seq<char>>| #[trigger] m.contains_key(p) <==> keys.contains(p)
}

/// `vs` lists the values of `m` in the path order of their keys.
pub open spec fn values_in_order<V>(m: Map<Seq<Seq<char>>, V>, vs: Seq<V>) -> bool {
    exists|keys: Seq<Seq<Seq<char>>>|
        #[trigger] keys_in_order(m, keys) && keys.len() == vs.len() && forall|i: int|
            0 <= i < keys.len() ==> vs[i] == m[keys[i]]
}

/// What a report says of compiling from the root path `root` with the
/// sources `o`: its dependencies are those of the loading pass, in path
/// order; where the pass stopped, the result is that failure; otherwise it
/// is the outcome of compiling the token documents in path order and the
/// style documents with the root's first and the others in path order.
/// `o` records everything the pass reads: a pass that reads beyond it stops
/// as [`LoadFailure::Unobserved`], which no loading error reports.
pub open spec fn report_shows(
    o: Observed,
    root: Seq<Seq<char>>,
    deps: Seq<SourcePath>,
    r: Result<CompiledTheme, LoadError>,
) -> bool {
    let (st, f) = style_run(o, start_state(), root);
    &&& paths_ascending(deps)
    &&& forall|p: Seq<Seq<char>>| #[trigger] st.deps.contains(p) <==> lists_path(deps, p)
    &&& match f {
        Some(failure) => r matches Err(e) && failure_of(e) == Some(failure),
        None => exists|t: Seq<TokenDocument>, s: Seq<StyleDocument>, n: Seq<(SourceId, String)>|
            #[trigger] documents_outcome(t, s, n, r) && values_in_order(st.tokens, t) && s.len() > 0
                && s[0] == st.styles[root] && values_in_order(st.styles.remove(root), s.drop_first())
                && name_views(n) == st.names,
    }
}

/// What compiling from the root path written `root` reports, as
/// dependencies `deps` and result `r`, with the sources of `provider`: a
/// root path that does not normalize is refused with no dependencies;
/// otherwise the report is what [`report_shows`] describes for the sources
/// as a loading pass observes them.
pub open spec fn report_outcome<P: SourceProvider>(
    provider: P,
    root: Seq<char>,
    deps: Seq<SourcePath>,
    r: Result<CompiledTheme, LoadError>,
) -> bool {
    match crate::sources::normalized(root) {
        Err(e) => deps.len() == 0 && (r matches Err(LoadError::InvalidPath { owner: None, path, source })
            && path@ == root && source == e),
        Ok(p) => exists|o: Observed| #[trigger] observed_from(provider, o) && report_shows(o, p, deps, r),
    }
}

/// Result and source dependencies from one end-to-end compilation attempt.
#[derive(Debug)]
pub struct CompilationReport {
    dependencies: Vec<SourcePath>,
    result: Result<CompiledTheme, LoadError>,
}

impl CompilationReport {
    pub closed spec fn dependencies_of(&self) -> Seq<SourcePath> {
        self.dependencies@
    }

    pub closed spec fn result_of(&self) -> Result<CompiledTheme, LoadError> {
        self.result
    }

    /// Returns normalized root-relative paths in path order.
    pub fn dependencies(&self) -> (r: &[SourcePath])
        ensures
            r@ == self.dependencies_of(),
    {
        self.dependencies.as_slice()
    }

    /// Borrows the compiled theme or loading/compilation failure.
    pub fn result(&self) -> (r: Result<&CompiledTheme, &LoadError>)
        ensures
            match (r, self.result_of()) {
                (Ok(a), Ok(b)) => *a == b,
                (Err(a), Err(b)) => *a == b,
                _ => false,
            },
    {
        match &self.result {
            Ok(theme) => Ok(theme),
            Err(error) => Err(error),
        }
    }

    /// Consumes the report and returns the ordinary compilation result.
    pub fn into_result(self) -> (r: Result<CompiledTheme, LoadError>)
        ensures
            r == self.result_of(),
    {
        self.result
    }
}

/// Paths strictly increasing in path order.
pub open spec fn paths_ascending(paths: Seq<SourcePath>) -> bool {
    forall|i: int, j: int|
        0 <= i < j < paths.len() ==> crate::text::segs_less(#[trigger] paths[i]@, #[trigger] paths[j]@)
}

/// Whether some path of `paths` is `p`.
pub open spec fn lists_path(paths: Seq<SourcePath>, p: Seq<Seq<char>>) -> bool {
    exists|i: int| 0 <= i < paths.len() && #[trigger] paths[i]@ == p
}

/// The state of one loading pass, and what it has observed so far.
struct Loader {
    next_source: u32,
    styles: KeyedMap<SourcePath, StyleDocument>,
    tokens: KeyedMap<SourcePath, TokenDocument>,
    source_names: Vec<(SourceId, String)>,
    visiting: Vec<SourcePath>,
    dependencies: KeyedMap<SourcePath, bool>,
    seen: Ghost<Observed>,
}

/// The loader ended where `run` ends: with its dependencies and, on
/// success, in its state; on failure, with its failure.
spec fn run_matches(run: (LoadState, Option<LoadFailure>), l: Loader, r: Result<(), LoadError>) -> bool {
    &&& run.0.deps == l.dependencies@.dom()
    &&& match r {
        Ok(_) => run.1 is None && run.0 == l.state(),
        Err(e) => run.1 is Some && run.1 == failure_of(e),
    }
}

impl Loader {
    /// Where the pass stands.
    spec fn state(&self) -> LoadState {
        LoadState {
            next: self.next_source as int,
            styles: self.styles@,
            tokens: self.tokens@,
            visiting: self.visiting@.map_values(|p: SourcePath| p@),
            deps: self.dependencies@.dom(),
            names: name_views(self.source_names@),
        }
    }

    /// Every observation was made under an identity already handed out.
    spec fn settled(&self) -> bool {
        &&& forall|k: (int, Seq<Seq<char>>)| #[trigger] self.seen@.texts.contains_key(k) ==> k.0 < self.next_source
        &&& forall|k: (int, Seq<Seq<char>>)| #[trigger] self.seen@.styles.contains_key(k) ==> k.0 < self.next_source
        &&& forall|k: (int, Seq<Seq<char>>)| #[trigger] self.seen@.tokens.contains_key(k) ==> k.0 < self.next_source
    }

    fn new() -> (r: Loader)
        ensures
            r.state() == start_state(),
            r.settled(),
            r.seen@.texts.is_empty() && r.seen@.styles.is_empty() && r.seen@.tokens.is_empty(),
    {
        let r = Loader {
            next_source: 0,
            styles: KeyedMap::new(),
            tokens: KeyedMap::new(),
            source_names: Vec::new(),
            visiting: Vec::new(),
            dependencies: KeyedMap::new(),
            seen: Ghost(Observed { texts: Map::empty(), styles: Map::empty(), tokens: Map::empty() }),
        };
        assert(r.state() =~= start_state());
        r
    }

    /// Gives the next source its identity.
    fn source_id(&mut self, path: &SourcePath) -> (r: Result<SourceId, LoadError>)
        ensures
            final(self).seen == old(self).seen,
            final(self).styles@ == old(self).styles@,
            final(self).tokens@ == old(self).tokens@,
            final(self).visiting@ == old(self).visiting@,
            final(self).dependencies@ == old(self).dependencies@,
            match r {
                Ok(id) => id.id() == old(self).next_source && old(self).next_source < u32::MAX
                    && final(self).next_source == old(self).next_source + 1
                    && final(self).state() == name_next(old(self).state(), path@),
                Err(e) => e is TooManySources && old(self).next_source == u32::MAX
                    && final(self).next_source == old(self).next_source,
            },
    {
        let current = self.next_source;
        match current.checked_add(1) {
            None => Err(LoadError::TooManySources),
            Some(next) => {
                self.next_source = next;
                let source = SourceId::new(current);
                self.source_names.push((source, path.to_string()));
                assert(self.state() =~= name_next(old(self).state(), path@));
                Ok(source)
            },
        }
    }

    /// Reads a source through the provider.
    fn read<P: SourceProvider>(&self, provider: &P, path: &SourcePath) -> (r: Result<String, LoadError>)
        ensures
            r matches Err(e) ==> failure_of(e) == Some(LoadFailure::Read(path@))
                && provider.source_at(*path) is None,
            r matches Ok(t) ==> provider.source_at(*path) is Some && provider.source_at(*path)->0@ == t@,
    {
        match provider.read(path) {
            Ok(text) => Ok(text),
            Err(source) => Err(LoadError::Read { path: path.duplicate(), source }),
        }
    }

    /// Records a dependency.
    fn depend(&mut self, path: &SourcePath)
        ensures
            final(self).seen == old(self).seen,
            final(self).next_source == old(self).next_source,
            final(self).styles@ == old(self).styles@,
            final(self).tokens@ == old(self).tokens@,
            final(self).visiting@ == old(self).visiting@,
            final(self).state() == depend_on(old(self).state(), path@),
    {
        self.dependencies.insert(path.duplicate(), true);
        assert(self.state() =~= depend_on(old(self).state(), path@));
    }

    /// Loads a token source once.
    fn load_tokens<P: SourceProvider>(&mut self, provider: &P, path: SourcePath) -> (r: Result<
        (),
        LoadError,
    >)
        requires
            observed_from(*provider, old(self).seen@),
            old(self).settled(),
        ensures
            observed_from(*provider, final(self).seen@),
            extends(final(self).seen@, old(self).seen@),
            r is Ok ==> final(self).settled(),
            final(self).next_source >= old(self).next_source,
            final(self).styles@ == old(self).styles@,
            final(self).visiting@ == old(self).visiting@,
            forall|o: Observed| #[trigger]
                extends(o, final(self).seen@) ==> run_matches(
                    tokens_step(o, old(self).state(), path@),
                    *final(self),
                    r,
                ),
    {
        let ghost st0 = self.state();
        self.depend(&path);
        if self.tokens.contains_key(&path) {
            return Ok(());
        }
        let ghost key = (self.next_source as int, path@);
        let source = match self.read(provider, &path) {
            Ok(text) => text,
            Err(e) => {
                proof {
                    assert(text_of(provider.source_at(path)) == None::<Seq<char>>);
                    self.seen@ = Observed {
                        texts: self.seen@.texts.insert(key, None),
                        styles: self.seen@.styles,
                        tokens: self.seen@.tokens,
                    };
                    assert(self.seen@.texts.contains_key(key));
                }
                return Err(e);
            },
        };
        proof {
            assert(text_of(provider.source_at(path)) == Some(source@));
            self.seen@ = Observed {
                texts: self.seen@.texts.insert(key, Some(source@)),
                styles: self.seen@.styles,
                tokens: self.seen@.tokens,
            };
            assert(self.seen@.texts.contains_key(key));
        }
        let source_id = match self.source_id(&path) {
            Ok(id) => id,
            Err(e) => return Err(e),
        };
        let parsed = crate::token_json::parse(source_id, source.as_str());
        proof {
            lemma_observe_tokens(*provider, self.seen@, key, source_id, parsed);
            self.seen@ = Observed {
                texts: self.seen@.texts,
                styles: self.seen@.styles,
                tokens: self.seen@.tokens.insert(key, parsed),
            };
            assert(self.seen@.tokens.contains_key(key));
        }
        match parsed {
            Ok(document) => {
                let ghost st2 = self.state();
                self.tokens.insert(path, document);
                assert(self.state() =~= add_tokens(st2, key.1, document));
                Ok(())
            },
            Err(errors) => Err(LoadError::Tokens { path, source: errors }),
        }
    }

    /// Resolves a dependency written in the document at `owner`.
    fn resolve_reference(owner: &SourcePath, reference: &str) -> (r: Result<SourcePath, LoadError>)
        ensures
            match r {
                Ok(p) => resolved(owner@, reference@) == Ok::<Seq<Seq<char>>, InvalidSourcePath>(p@),
                Err(e) => resolved(owner@, reference@) is Err && failure_of(e) == Some(
                    LoadFailure::InvalidPath(owner@, reference@, resolved(owner@, reference@)->Err_0),
                ),
            },
    {
        match owner.resolve(reference) {
            Ok(p) => Ok(p),
            Err(source) => Err(
                LoadError::InvalidPath { owner: Some(owner.duplicate()), path: owned(reference), source },
            ),
        }
    }

    /// Whether `path` is being loaded, and where it first stands in the
    /// chain of imports.
    fn visiting_position(&self, path: &SourcePath) -> (r: Option<usize>)
        ensures
            match r {
                Some(k) => k < self.visiting@.len() && self.visiting@[k as int]@ == path@ && forall|j: int|
                    0 <= j < k ==> #[trigger] self.visiting@[j]@ != path@,
                None => !self.state().visiting.contains(path@),
            },
    {
        let mut k: usize = 0;
        while k < self.visiting.len()
            invariant
                k <= self.visiting@.len(),
                forall|j: int| 0 <= j < k ==> #[trigger] self.visiting@[j]@ != path@,
            decreases self.visiting@.len() - k,
        {
            if self.visiting[k].same(path) {
                return Some(k);
            }
            k = k + 1;
        }
        proof {
            if self.state().visiting.contains(path@) {
                let j = choose|j: int| 0 <= j < self.state().visiting.len() && self.state().visiting[j] == path@;
                assert(self.visiting@[j]@ == path@);
            }
        }
        None
    }

    /// The closed cycle from position `k` of the chain of imports back to `path`.
    fn cycle_from(&self, k: usize, path: SourcePath) -> (r: Vec<SourcePath>)
        requires
            k < self.visiting@.len(),
            self.visiting@[k as int]@ == path@,
        ensures
            r@.map_values(|p: SourcePath| p@) == self.state().visiting.subrange(
                k as int,
                self.visiting@.len() as int,
            ).push(path@),
    {
        let mut cycle: Vec<SourcePath> = Vec::new();
        let mut i = k;
        while i < self.visiting.len()
            invariant
                k <= i <= self.visiting@.len(),
                cycle@.len() == i - k,
                forall|j: int| 0 <= j < cycle@.len() ==> #[trigger] cycle@[j]@ == self.visiting@[k + j]@,
            decreases self.visiting@.len() - i,
        {
            cycle.push(self.visiting[i].duplicate());
            i = i + 1;
        }
        cycle.push(path);
        assert(cycle@.map_values(|p: SourcePath| p@) =~= self.state().visiting.subrange(
            k as int,
            self.visiting@.len() as int,
        ).push(cycle@.last()@));
        cycle
    }

    /// Loads a style document and, before it, everything that it names.
    #[verifier::spinoff_prover]
    #[verifier::rlimit(60)]
    fn load_style<P: SourceProvider>(&mut self, provider: &P, path: SourcePath) -> (r: Result<
        (),
        LoadError,
    >)
        requires
            observed_from(*provider, old(self).seen@),
            old(self).settled(),
        ensures
            observed_from(*provider, final(self).seen@),
            extends(final(self).seen@, old(self).seen@),
            r is Ok ==> final(self).settled(),
            final(self).next_source >= old(self).next_source,
            r is Ok ==> final(self).visiting@ == old(self).visiting@,
            r is Ok ==> final(self).styles@.contains_key(path@),
            forall|o: Observed| #[trigger]
                extends(o, final(self).seen@) ==> run_matches(
                    style_run(o, old(self).state(), path@),
                    *final(self),
                    r,
                ),
        decreases u32::MAX - old(self).next_source,
    {
        let ghost st0 = self.state();
        self.depend(&path);
        if self.styles.contains_key(&path) {
            return Ok(());
        }
        match self.visiting_position(&path) {
            Some(k) => {
                let ghost p = path@;
                let ghost chain = st0.visiting;
                proof {
                    assert(chain.len() == self.visiting@.len());
                    assert forall|j: int| 0 <= j < chain.len() implies chain[j] == #[trigger] self.visiting@[j]@ by {}
                    assert(chain[k as int] == p);
                    assert forall|j: int| 0 <= j < k implies #[trigger] chain[j] != p by {
                        assert(self.visiting@[j]@ != p);
                    }
                    let kk = choose|kk: int|
                        0 <= kk < chain.len() && chain[kk] == p && forall|j: int|
                            0 <= j < kk ==> #[trigger] chain[j] != p;
                    if kk < k {
                        assert(chain[kk] != p);
                    }
                    if k < kk {
                        assert(chain[k as int] != p);
                    }
                    assert(kk == k);
                }
                let cycle = self.cycle_from(k, path);
                assert(cycle_at(chain, p) == cycle@.map_values(|q: SourcePath| q@));
                return Err(LoadError::ImportCycle { cycle });
            },
            None => {},
        }
        let ghost st1 = self.state();
        self.visiting.push(path.duplicate());
        let ghost chain = self.visiting@;
        assert(self.state() =~= visit(st1, path@));
        let ghost key = (self.next_source as int, path@);
        let source = match self.read(provider, &path) {
            Ok(text) => text,
            Err(e) => {
                proof {
                    assert(text_of(provider.source_at(path)) == None::<Seq<char>>);
                    self.seen@ = Observed {
                        texts: self.seen@.texts.insert(key, None),
                        styles: self.seen@.styles,
                        tokens: self.seen@.tokens,
                    };
                    assert(self.seen@.texts.contains_key(key));
                }
                return Err(e);
            },
        };
        proof {
            assert(text_of(provider.source_at(path)) == Some(source@));
            self.seen@ = Observed {
                texts: self.seen@.texts.insert(key, Some(source@)),
                styles: self.seen@.styles,
                tokens: self.seen@.tokens,
            };
            assert(self.seen@.texts.contains_key(key));
        }
        let source_id = match self.source_id(&path) {
            Ok(id) => id,
            Err(e) => return Err(e),
        };
        let ghost st3 = self.state();
        let name = path.to_string();
        let parsed = crate::style_kdl::parse(name.as_str(), source_id, source.as_str());
        proof {
            lemma_observe_style(*provider, self.seen@, key, source_id, parsed);
            self.seen@ = Observed {
                texts: self.seen@.texts,
                styles: self.seen@.styles.insert(key, parsed),
                tokens: self.seen@.tokens,
            };
            assert(self.seen@.styles.contains_key(key));
        }
        let ghost recorded = self.seen@;
        let document = match parsed {
            Ok(document) => document,
            Err(errors) => return Err(LoadError::Kdl { path, source: errors }),
        };
        let token_sources = document.token_sources();
        let mut i: usize = 0;
        while i < token_sources.len()
            invariant
                observed_from(*provider, self.seen@),
                extends(self.seen@, recorded),
                extends(recorded, old(self).seen@),
                recorded.texts.contains_key(key) && recorded.texts[key] == Some(source@),
                recorded.styles.contains_key(key) && recorded.styles[key] == parsed,
                parsed == Ok::<StyleDocument, crate::style_kdl::ParseErrors>(document),
                key == (old(self).next_source as int, path@),
                st0 == old(self).state(),
                st1 == depend_on(st0, path@),
                !st0.styles.contains_key(path@),
                !st0.visiting.contains(path@),
                st3 == name_next(visit(st1, path@), path@),
                old(self).next_source < u32::MAX,
                self.settled(),
                st3.next <= self.next_source,
                self.visiting@ == chain,
                i <= token_sources@.len(),
                token_sources@ == document.token_sources_of(),
                forall|o: Observed| #[trigger]
                    extends(o, self.seen@) ==> token_refs_run(o, st3, path@, token_sources@, 0)
                        == token_refs_run(o, self.state(), path@, token_sources@, i as int),
            decreases token_sources@.len() - i,
        {
            let ghost sti = self.state();
            let ghost seen_before = self.seen@;
            let token_path = match Self::resolve_reference(&path, token_sources[i].as_str()) {
                Ok(q) => q,
                Err(e) => {
                    proof {
                        assert forall|o: Observed| #[trigger] extends(o, self.seen@) implies run_matches(
                            style_run(o, st0, path@),
                            *self,
                            Err(e),
                        ) by {
                            lemma_extends_trans(o, self.seen@, recorded);
                        }
                        lemma_extends_trans(self.seen@, recorded, old(self).seen@);
                    }
                    return Err(e);
                },
            };
            let loaded = self.load_tokens(provider, token_path);
            proof {
                lemma_extends_trans(self.seen@, seen_before, recorded);
                lemma_extends_trans(self.seen@, recorded, old(self).seen@);
            }
            match loaded {
                Ok(()) => {},
                Err(e) => {
                    proof {
                        assert forall|o: Observed| #[trigger] extends(o, self.seen@) implies run_matches(
                            style_run(o, st0, path@),
                            *self,
                            Err(e),
                        ) by {
                            lemma_extends_trans(o, self.seen@, seen_before);
                            lemma_extends_trans(o, seen_before, recorded);
                            assert(token_refs_run(o, st3, path@, token_sources@, 0) == token_refs_run(
                                o,
                                sti,
                                path@,
                                token_sources@,
                                i as int,
                            ));
                        }
                    }
                    return Err(e);
                },
            }
            proof {
                assert forall|o: Observed| #[trigger] extends(o, self.seen@) implies token_refs_run(
                    o,
                    st3,
                    path@,
                    token_sources@,
                    0,
                ) == token_refs_run(o, self.state(), path@, token_sources@, i + 1) by {
                    lemma_extends_trans(o, self.seen@, seen_before);
                    assert(token_refs_run(o, st3, path@, token_sources@, 0) == token_refs_run(
                        o,
                        sti,
                        path@,
                        token_sources@,
                        i as int,
                    ));
                }
            }
            i = i + 1;
        }
        let ghost st4 = self.state();
        proof {
            assert forall|o: Observed| #[trigger] extends(o, self.seen@) implies token_refs_run(
                o,
                st3,
                path@,
                token_sources@,
                0,
            ) == (st4, None::<LoadFailure>) by {
                assert(token_refs_run(o, st3, path@, token_sources@, 0) == token_refs_run(
                    o,
                    st4,
                    path@,
                    token_sources@,
                    token_sources@.len() as int,
                ));
            }
        }
        let imports = document.imports();
        let mut j: usize = 0;
        while j < imports.len()
            invariant
                observed_from(*provider, self.seen@),
                extends(self.seen@, recorded),
                extends(recorded, old(self).seen@),
                recorded.texts.contains_key(key) && recorded.texts[key] == Some(source@),
                recorded.styles.contains_key(key) && recorded.styles[key] == parsed,
                parsed == Ok::<StyleDocument, crate::style_kdl::ParseErrors>(document),
                key == (old(self).next_source as int, path@),
                st0 == old(self).state(),
                st1 == depend_on(st0, path@),
                !st0.styles.contains_key(path@),
                !st0.visiting.contains(path@),
                st3 == name_next(visit(st1, path@), path@),
                old(self).next_source < u32::MAX,
                self.settled(),
                st3.next <= st4.next <= self.next_source,
                self.visiting@ == chain,
                chain.len() > 0,
                chain.drop_last() == old(self).visiting@,
                chain.last()@ == path@,
                forall|o: Observed| #[trigger]
                    extends(o, self.seen@) ==> token_refs_run(o, st3, path@, token_sources@, 0) == (
                        st4,
                        None::<LoadFailure>,
                    ),
                token_sources@ == document.token_sources_of(),
                j <= imports@.len(),
                imports@ == document.imports_of(),
                forall|o: Observed| #[trigger]
                    extends(o, self.seen@) ==> imports_run(o, st4, path@, imports@, 0) == imports_run(
                        o,
                        self.state(),
                        path@,
                        imports@,
                        j as int,
                    ),
            decreases imports@.len() - j,
        {
            let ghost stj = self.state();
            let ghost seen_before = self.seen@;
            let import_path = match Self::resolve_reference(&path, imports[j].as_str()) {
                Ok(q) => q,
                Err(e) => {
                    proof {
                        assert forall|o: Observed| #[trigger] extends(o, self.seen@) implies run_matches(
                            style_run(o, st0, path@),
                            *self,
                            Err(e),
                        ) by {
                            lemma_extends_trans(o, self.seen@, recorded);
                            assert(token_refs_run(o, st3, path@, token_sources@, 0) == (st4, None::<LoadFailure>));
                            assert(imports_run(o, st4, path@, imports@, 0) == imports_run(
                                o,
                                stj,
                                path@,
                                imports@,
                                j as int,
                            ));
                        }
                        lemma_extends_trans(self.seen@, recorded, old(self).seen@);
                    }
                    return Err(e);
                },
            };
            let loaded = self.load_style(provider, import_path);
            proof {
                lemma_extends_trans(self.seen@, seen_before, recorded);
                lemma_extends_trans(self.seen@, recorded, old(self).seen@);
            }
            match loaded {
                Ok(()) => {},
                Err(e) => {
                    proof {
                        assert forall|o: Observed| #[trigger] extends(o, self.seen@) implies run_matches(
                            style_run(o, st0, path@),
                            *self,
                            Err(e),
                        ) by {
                            lemma_extends_trans(o, self.seen@, seen_before);
                            lemma_extends_trans(o, seen_before, recorded);
                            assert(token_refs_run(o, st3, path@, token_sources@, 0) == (st4, None::<LoadFailure>));
                            assert(imports_run(o, st4, path@, imports@, 0) == imports_run(
                                o,
                                stj,
                                path@,
                                imports@,
                                j as int,
                            ));
                        }
                    }
                    return Err(e);
                },
            }
            proof {
                assert forall|o: Observed| #[trigger] extends(o, self.seen@) implies imports_run(
                    o,
                    st4,
                    path@,
                    imports@,
                    0,
                ) == imports_run(o, self.state(), path@, imports@, j + 1) by {
                    lemma_extends_trans(o, self.seen@, seen_before);
                    assert(imports_run(o, st4, path@, imports@, 0) == imports_run(
                        o,
                        stj,
                        path@,
                        imports@,
                        j as int,
                    ));
                }
                assert forall|o: Observed| #[trigger] extends(o, self.seen@) implies token_refs_run(
                    o,
                    st3,
                    path@,
                    token_sources@,
                    0,
                ) == (st4, None::<LoadFailure>) by {
                    lemma_extends_trans(o, self.seen@, seen_before);
                }
            }
            j = j + 1;
        }
        let ghost st5 = self.state();
        self.visiting.pop();
        self.styles.insert(path, document);
        assert(self.state() =~= add_style(st5, key.1, document));
        proof {
            assert forall|o: Observed| #[trigger] extends(o, self.seen@) implies run_matches(
                style_run(o, st0, key.1),
                *self,
                Ok(()),
            ) by {
                lemma_extends_trans(o, self.seen@, recorded);
                assert(token_refs_run(o, st3, key.1, token_sources@, 0) == (st4, None::<LoadFailure>));
                assert(imports_run(o, st4, key.1, imports@, 0) == imports_run(
                    o,
                    st5,
                    key.1,
                    imports@,
                    imports@.len() as int,
                ));
            }
            lemma_extends_trans(self.seen@, recorded, old(self).seen@);
        }
        Ok(())
    }
}

/// Recording what the token parser gave for an observed text keeps the
/// observations true.
proof fn lemma_observe_tokens<P: SourceProvider>(
    provider: P,
    o: Observed,
    key: (int, Seq<Seq<char>>),
    id: SourceId,
    r: Result<TokenDocument, crate::token_json::ParseErrors>,
)
    requires
        observed_from(provider, o),
        o.texts.contains_key(key),
        o.texts[key] is Some,
        id.id() == key.0,
        crate::token_json::parse_outcome(id, o.texts[key]->0, r),
    ensures
        observed_from(provider, Observed { texts: o.texts, styles: o.styles, tokens: o.tokens.insert(key, r) }),
{
    let n = Observed { texts: o.texts, styles: o.styles, tokens: o.tokens.insert(key, r) };
    assert forall|k: (int, Seq<Seq<char>>)| #[trigger] n.tokens.contains_key(k) implies n.texts.contains_key(k)
        && n.texts[k] is Some && exists|i: SourceId|
        i.id() == k.0 && #[trigger] crate::token_json::parse_outcome(i, n.texts[k]->0, n.tokens[k]) by {
        if k != key {
            assert(o.tokens.contains_key(k));
            let i = choose|i: SourceId| i.id() == k.0 && #[trigger] crate::token_json::parse_outcome(i, o.texts[k]->0, o.tokens[k]);
            assert(crate::token_json::parse_outcome(i, n.texts[k]->0, n.tokens[k]));
        } else {
            assert(crate::token_json::parse_outcome(id, n.texts[k]->0, n.tokens[k]));
        }
    }
}

/// Recording what the style parser gave for an observed text keeps the
/// observations true.
proof fn lemma_observe_style<P: SourceProvider>(
    provider: P,
    o: Observed,
    key: (int, Seq<Seq<char>>),
    id: SourceId,
    r: Result<StyleDocument, crate::style_kdl::ParseErrors>,
)
    requires
        observed_from(provider, o),
        o.texts.contains_key(key),
        o.texts[key] is Some,
        id.id() == key.0,
        crate::style_kdl::parse_outcome(path_text(key.1), id, o.texts[key]->0, r),
    ensures
        observed_from(provider, Observed { texts: o.texts, styles: o.styles.insert(key, r), tokens: o.tokens }),
{
    let n = Observed { texts: o.texts, styles: o.styles.insert(key, r), tokens: o.tokens };
    assert forall|k: (int, Seq<Seq<char>>)| #[trigger] n.styles.contains_key(k) implies n.texts.contains_key(k)
        && n.texts[k] is Some && exists|i: SourceId|
        i.id() == k.0 && #[trigger] crate::style_kdl::parse_outcome(path_text(k.1), i, n.texts[k]->0, n.styles[k]) by {
        if k != key {
            assert(o.styles.contains_key(k));
            let i = choose|i: SourceId| i.id() == k.0 && #[trigger] crate::style_kdl::parse_outcome(path_text(k.1), i, o.texts[k]->0, o.styles[k]);
            assert(crate::style_kdl::parse_outcome(path_text(k.1), i, n.texts[k]->0, n.styles[k]));
        } else {
            assert(crate::style_kdl::parse_outcome(path_text(k.1), id, n.texts[k]->0, n.styles[k]));
        }
    }
}

/// Agreeing with a later record means agreeing with an earlier one.
proof fn lemma_extends_trans(a: Observed, b: Observed, c: Observed)
    requires
        extends(a, b),
        extends(b, c),
    ensures
        extends(a, c),
{
}

/// Collects the paths of a map's entries, in path order.
fn dependency_list(dependencies: KeyedMap<SourcePath, bool>) -> (r: Vec<SourcePath>)
    ensures
        paths_ascending(r@),
        forall|p: Seq<Seq<char>>| #[trigger] dependencies@.contains_key(p) <==> lists_path(r@, p),
{
    dependencies.check_ordered();
    let ghost ordered = dependencies.ordered();
    let mut entries = dependencies.into_entries();
    let mut r: Vec<SourcePath> = Vec::new();
    let ghost count = entries@.len();
    while entries.len() > 0
        invariant
            r@.len() + entries@.len() == count,
            count == ordered.len(),
            crate::path_map::paths_sorted(ordered),
            entries@ == ordered.subrange(r@.len() as int, count as int),
            forall|i: int| 0 <= i < r@.len() ==> #[trigger] r@[i]@ == ordered[i].0@,
        decreases entries@.len(),
    {
        let (path, _) = entries.remove(0);
        r.push(path);
    }
    proof {
        assert forall|i: int, j: int| 0 <= i < j < r@.len() implies crate::text::segs_less(
            #[trigger] r@[i]@,
            #[trigger] r@[j]@,
        ) by {
            assert(crate::text::segs_less(ordered[i].0@, ordered[j].0@));
        }
        assert forall|p: Seq<Seq<char>>| #[trigger] dependencies@.contains_key(p) <==> lists_path(
            r@,
            p,
        ) by {
            if has_path(ordered, p) {
                let i = choose|i: int| 0 <= i < ordered.len() && #[trigger] ordered[i].0@ == p;
                assert(r@[i]@ == p);
            }
            if lists_path(r@, p) {
                let i = choose|i: int| 0 <= i < r@.len() && #[trigger] r@[i]@ == p;
                assert(ordered[i].0@ == p);
            }
        }
    }
    r
}


/// Loading a token source depends on it and keeps every earlier dependency.
proof fn lemma_tokens_step_depends(o: Observed, st: LoadState, p: Seq<Seq<char>>)
    ensures
        st.deps.insert(p).subset_of(tokens_step(o, st, p).0.deps),
{
}

/// Loading the token sources a document names keeps every earlier
/// dependency.
proof fn lemma_token_refs_depend(
    o: Observed,
    st: LoadState,
    owner: Seq<Seq<char>>,
    refs: Seq<String>,
    i: int,
)
    ensures
        st.deps.subset_of(token_refs_run(o, st, owner, refs, i).0.deps),
    decreases refs.len() - i,
{
    if 0 <= i < refs.len() {
        if let Ok(q) = resolved(owner, refs[i]@) {
            lemma_tokens_step_depends(o, st, q);
            let (st2, f) = tokens_step(o, st, q);
            if f is None {
                lemma_token_refs_depend(o, st2, owner, refs, i + 1);
            }
        }
    }
}

/// Loading a style document depends on it and keeps every earlier
/// dependency.
pub proof fn lemma_style_run_depends(o: Observed, st: LoadState, p: Seq<Seq<char>>)
    ensures
        st.deps.insert(p).subset_of(style_run(o, st, p).0.deps),
    decreases u32::MAX - st.next, 0int, 0int,
{
    if !st.styles.contains_key(p) && !st.visiting.contains(p) && o.texts.contains_key((st.next, p))
        && o.texts[(st.next, p)] is Some && st.next < u32::MAX && o.styles.contains_key((st.next, p)) {
        let st3 = name_next(visit(depend_on(st, p), p), p);
        if let Ok(doc) = o.styles[(st.next, p)] {
            lemma_token_refs_depend(o, st3, p, doc.token_sources_of(), 0);
            let (st4, f4) = token_refs_run(o, st3, p, doc.token_sources_of(), 0);
            if f4 is None && st3.next <= st4.next <= u32::MAX {
                lemma_imports_run_depends(o, st4, p, doc.imports_of(), 0);
            }
        }
    }
}

/// Loading the style documents a document imports keeps every earlier
/// dependency.
pub proof fn lemma_imports_run_depends(
    o: Observed,
    st: LoadState,
    owner: Seq<Seq<char>>,
    refs: Seq<String>,
    i: int,
)
    ensures
        st.deps.subset_of(imports_run(o, st, owner, refs, i).0.deps),
    decreases u32::MAX - st.next, 1int, refs.len() - i,
{
    if 0 <= i < refs.len() {
        if let Ok(q) = resolved(owner, refs[i]@) {
            lemma_style_run_depends(o, st, q);
            let (st2, f) = style_run(o, st, q);
            if f is None && st.next <= st2.next <= u32::MAX {
                lemma_imports_run_depends(o, st2, owner, refs, i + 1);
            }
        }
    }
}

/// A report lists its root path among its dependencies, whether compiling
/// succeeds or fails, so that a watcher always watches the root.
pub proof fn lemma_root_listed<P: SourceProvider>(
    provider: P,
    root: Seq<char>,
    deps: Seq<SourcePath>,
    r: Result<CompiledTheme, LoadError>,
)
    requires
        report_outcome(provider, root, deps, r),
        crate::sources::normalized(root) is Ok,
    ensures
        lists_path(deps, crate::sources::normalized(root)->Ok_0),
{
    let p = crate::sources::normalized(root)->Ok_0;
    let o = choose|o: Observed| #[trigger] observed_from(provider, o) && report_shows(o, p, deps, r);
    lemma_style_run_depends(o, start_state(), p);
    assert(style_run(o, start_state(), p).0.deps.contains(p));
}

/// Compiles a source tree and reports every dependency discovered along the way.
///
/// Unlike [`compile_theme`], this keeps the dependency set when loading or
/// compilation fails, so that a watcher can retry when a broken root or any
/// dependency found before the failure changes. The report is the one that
/// [`report_outcome`] describes for the provider's sources.
#[verifier::spinoff_prover]
#[verifier::rlimit(60)]
pub fn compile_theme_with_report<P: SourceProvider>(provider: &P, root: &str) -> (r: CompilationReport)
    ensures
        report_outcome(*provider, root@, r.dependencies_of(), r.result_of()),
{
    let root_path = match SourcePath::normalize(root) {
        Ok(p) => p,
        Err(source) => {
            return CompilationReport {
                dependencies: Vec::new(),
                result: Err(LoadError::InvalidPath { owner: None, path: owned(root), source }),
            };
        },
    };
    let mut loader = Loader::new();
    let loaded = loader.load_style(provider, root_path.duplicate());
    let ghost o = loader.seen@;
    let ghost st = loader.state();
    let ghost run = style_run(o, start_state(), root_path@);
    proof {
        assert(extends(o, o));
        assert(run_matches(run, loader, loaded));
    }
    let Loader { next_source: _, styles, tokens, source_names, visiting: _, dependencies, seen: _ } =
        loader;
    let dependencies = dependency_list(dependencies);
    if let Err(error) = loaded {
        let r = CompilationReport { dependencies, result: Err(error) };
        assert(report_shows(o, root_path@, r.dependencies_of(), r.result_of()));
        return r;
    }
    let mut token_documents: Vec<TokenDocument> = Vec::new();
    tokens.check_ordered();
    let ghost token_ordered = tokens.ordered();
    let ghost token_map = tokens@;
    let ghost token_count = token_ordered.len();
    let mut token_entries = tokens.into_entries();
    while token_entries.len() > 0
        invariant
            token_documents@.len() + token_entries@.len() == token_count,
            token_count == token_ordered.len(),
            token_entries@ == token_ordered.subrange(token_documents@.len() as int, token_count as int),
            forall|k: int| 0 <= k < token_documents@.len() ==> #[trigger] token_documents@[k] == token_ordered[k].1,
        decreases token_entries@.len(),
    {
        let (_, document) = token_entries.remove(0);
        token_documents.push(document);
    }
    let ghost token_keys = token_ordered.map_values(|e: (SourcePath, TokenDocument)| e.0@);
    proof {
        assert forall|p: Seq<Seq<char>>| #[trigger] token_map.contains_key(p) <==> token_keys.contains(p) by {
            if token_map.contains_key(p) {
                let i = choose|i: int| 0 <= i < token_ordered.len() && #[trigger] token_ordered[i].0@ == p;
                assert(token_keys[i] == p);
            }
            if token_keys.contains(p) {
                let i = choose|i: int| 0 <= i < token_keys.len() && token_keys[i] == p;
                assert(token_ordered[i].0@ == p);
            }
        }
        assert(keys_in_order(token_map, token_keys));
        assert(values_in_order(token_map, token_documents@));
    }
    styles.check_ordered();
    let ghost ordered = styles.ordered();
    let ghost style_map = styles@;
    let mut style_entries = styles.into_entries();
    let mut others: Vec<StyleDocument> = Vec::new();
    let mut root_document: Option<StyleDocument> = None;
    let ghost count = style_entries@.len();
    let ghost mut taken: int = 0;
    let ghost mut other_idx: Seq<int> = Seq::empty();
    while style_entries.len() > 0
        invariant
            0 <= taken,
            taken + style_entries@.len() == count,
            count == ordered.len(),
            style_entries@ == ordered.subrange(taken as int, count as int),
            others@.len() == other_idx.len(),
            forall|k: int|
                0 <= k < other_idx.len() ==> 0 <= #[trigger] other_idx[k] < taken && ordered[other_idx[k]].0@
                    != root_path@ && others@[k] == ordered[other_idx[k]].1,
            forall|k: int, l: int| 0 <= k < l < other_idx.len() ==> #[trigger] other_idx[k] < #[trigger] other_idx[l],
            forall|i: int|
                0 <= i < taken && #[trigger] ordered[i].0@ != root_path@ ==> exists|k: int|
                    0 <= k < other_idx.len() && other_idx[k] == i,
            root_document is None ==> forall|i: int| 0 <= i < taken ==> #[trigger] ordered[i].0@ != root_path@,
            forall|i: int| 0 <= i < ordered.len() ==> #[trigger] style_map[ordered[i].0@] == ordered[i].1,
            root_document matches Some(d) ==> d == style_map[root_path@],
        decreases style_entries@.len(),
    {
        let (path, document) = style_entries.remove(0);
        let ghost idx_before = other_idx;
        assert(style_entries@ =~= ordered.subrange(taken + 1, count as int));
        assert(path@ == ordered[taken].0@);
        assert(document == ordered[taken].1);
        if path.same(&root_path) {
            root_document = Some(document);
        } else {
            others.push(document);
            proof {
                other_idx = other_idx.push(taken);
                assert(other_idx[other_idx.len() - 1] == taken);
            }
        }
        proof {
            assert forall|i: int|
                0 <= i < taken + 1 && #[trigger] ordered[i].0@ != root_path@ implies exists|k: int|
                    0 <= k < other_idx.len() && other_idx[k] == i by {
                if i < taken {
                    let k = choose|k: int| 0 <= k < idx_before.len() && idx_before[k] == i;
                    assert(other_idx[k] == i);
                } else {
                    assert(other_idx[other_idx.len() - 1] == i);
                }
            }
            taken = taken + 1;
        }
    }
    proof {
        if root_document is None {
            let i = choose|i: int| 0 <= i < ordered.len() && #[trigger] ordered[i].0@ == root_path@;
            assert(ordered[i].0@ == root_path@);
        }
    }
    let root_document = root_document.unwrap();
    let mut style_documents: Vec<StyleDocument> = Vec::new();
    style_documents.push(root_document);
    let ghost rest = others@;
    style_documents.append(&mut others);
    let ghost style_keys = other_idx.map_values(|i: int| ordered[i].0@);
    proof {
        let m = style_map.remove(root_path@);
        assert(style_documents@.drop_first() =~= rest);
        assert forall|p: Seq<Seq<char>>| #[trigger] m.contains_key(p) <==> style_keys.contains(p) by {
            if m.contains_key(p) {
                let i = choose|i: int| 0 <= i < ordered.len() && #[trigger] ordered[i].0@ == p;
                let k = choose|k: int| 0 <= k < other_idx.len() && other_idx[k] == i;
                assert(style_keys[k] == p);
            }
            if style_keys.contains(p) {
                let k = choose|k: int| 0 <= k < style_keys.len() && style_keys[k] == p;
                assert(ordered[other_idx[k]].0@ == p);
            }
        }
        assert forall|a: int, b: int| 0 <= a < b < style_keys.len() implies crate::text::segs_less(
            #[trigger] style_keys[a],
            #[trigger] style_keys[b],
        ) by {
            assert(other_idx[a] < other_idx[b]);
        }
        assert(keys_in_order(m, style_keys));
        assert forall|k: int| 0 <= k < style_keys.len() implies rest[k] == m[style_keys[k]] by {
            assert(rest[k] == ordered[other_idx[k]].1);
        }
        assert(values_in_order(m, style_documents@.drop_first()));
    }
    let ghost names = source_names@;
    let result = compile_documents(
        token_documents.as_slice(),
        style_documents.as_slice(),
        source_names,
    );
    let r = CompilationReport { dependencies, result };
    proof {
        assert(documents_outcome(token_documents@, style_documents@, names, r.result_of()));
        assert(report_shows(o, root_path@, r.dependencies_of(), r.result_of()));
    }
    r
}

/// Compiles a root KDL document and its complete declared dependency tree:
/// the result of the report that [`compile_theme_with_report`] makes.
pub fn compile_theme<P: SourceProvider>(provider: &P, root: &str) -> (r: Result<
    CompiledTheme,
    LoadError,
>)
    ensures
        exists|deps: Seq<SourcePath>| #[trigger] report_outcome(*provider, root@, deps, r),
{
    let report = compile_theme_with_report(provider, root);
    let ghost deps = report.dependencies_of();
    let r = report.into_result();
    assert(report_outcome(*provider, root@, deps, r));
    r
}

} // verus!
