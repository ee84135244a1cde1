//! Diagnostics of the Godot engine integration: failures reported by the
//! engine-native theme builder, and the editor-facing diagnostics derived
//! from loading and building failures.
use crate::diagnostic::{joined, join_texts, Diagnostic, Errors};
use crate::godot::BackendErrors;
use crate::loader::LoadError;
use crate::semantic_errors::{CompileError, DiagnosticMetadata};
use crate::source::SourceId;
use crate::sources::{path_text, SourceReadError};
use crate::compiled::{CompiledState, CompiledStyle, CompiledTheme, CompiledValue};
use crate::text::{
    chars_less, lemma_chars_less_total, lemma_chars_less_transitive, owned, starts_with, text_less,
    text_starts_with, texts, IntoText,
};
use crate::sources::SourcePath;
use crate::style_model::Name;
use vstd::prelude::*;

verus! {

/// `[field=value ...] message`, listing the non-empty context fields in
/// order, or the message alone when all of them are empty.
pub open spec fn native_context(
    style: Seq<char>,
    target: Seq<char>,
    state: Seq<char>,
    property: Seq<char>,
) -> Seq<Seq<char>> {
    let a = if style.len() > 0 {
        seq!["style="@ + style]
    } else {
        Seq::empty()
    };
    let b = if target.len() > 0 {
        seq!["target="@ + target]
    } else {
        Seq::empty()
    };
    let c = if state.len() > 0 {
        seq!["state="@ + state]
    } else {
        Seq::empty()
    };
    let d = if property.len() > 0 {
        seq!["property="@ + property]
    } else {
        Seq::empty()
    };
    a + b + c + d
}

/// The rendered message of a native diagnostic.
pub open spec fn native_text(
    style: Seq<char>,
    target: Seq<char>,
    state: Seq<char>,
    property: Seq<char>,
    message: Seq<char>,
) -> Seq<char> {
    let context = native_context(style, target, state, property);
    if context.len() == 0 {
        message
    } else {
        "["@ + joined(context, " "@) + "] "@ + message
    }
}

/// One diagnostic returned by the engine-native theme builder.
#[derive(Clone, Debug, PartialEq, Eq)]
pub struct NativeDiagnostic {
    code: String,
    message: String,
    style: String,
    target: String,
    state: String,
    property: String,
}

/// Appends `field=value` to `parts` when `value` is not empty.
fn push_context(parts: &mut Vec<String>, field: &str, value: &str)
    ensures
        texts(final(parts)@) == texts(old(parts)@) + if value@.len() > 0 {
            seq![field@ + value@]
        } else {
            Seq::<Seq<char>>::empty()
        },
{
    if value.unicode_len() > 0 {
        let mut part = owned(field);
        part.append(value);
        let ghost before = parts@;
        parts.push(part);
        assert(texts(parts@) =~= texts(before) + seq![field@ + value@]);
    } else {
        assert(texts(parts@) =~= texts(parts@) + Seq::<Seq<char>>::empty());
    }
}

impl NativeDiagnostic {
    pub closed spec fn code_of(&self) -> Seq<char> {
        self.code@
    }

    pub closed spec fn message_of(&self) -> Seq<char> {
        self.message@
    }

    pub closed spec fn style_of(&self) -> Seq<char> {
        self.style@
    }

    pub closed spec fn target_of(&self) -> Seq<char> {
        self.target@
    }

    pub closed spec fn state_of(&self) -> Seq<char> {
        self.state@
    }

    pub closed spec fn property_of(&self) -> Seq<char> {
        self.property@
    }

    /// A diagnostic as reported by the builder; empty context fields are absent.
    pub fn new(
        code: String,
        message: String,
        style: String,
        target: String,
        state: String,
        property: String,
    ) -> (r: NativeDiagnostic)
        ensures
            r.code_of() == code@ && r.message_of() == message@ && r.style_of() == style@
                && r.target_of() == target@ && r.state_of() == state@ && r.property_of()
                == property@,
    {
        NativeDiagnostic { code, message, style, target, state, property }
    }

    /// Returns the stable diagnostic code.
    pub fn code(&self) -> (r: &str)
        ensures
            r@ == self.code_of(),
    {
        self.code.as_str()
    }

    /// Returns the diagnostic message.
    pub fn message(&self) -> (r: &str)
        ensures
            r@ == self.message_of(),
    {
        self.message.as_str()
    }

    /// Returns the compiled style name, when the diagnostic concerns a style.
    pub fn style(&self) -> (r: &str)
        ensures
            r@ == self.style_of(),
    {
        self.style.as_str()
    }

    /// Returns the native control target, when one was available.
    pub fn target(&self) -> (r: &str)
        ensures
            r@ == self.target_of(),
    {
        self.target.as_str()
    }

    /// Returns the source state, when the item came from a state block.
    pub fn state(&self) -> (r: &str)
        ensures
            r@ == self.state_of(),
    {
        self.state.as_str()
    }

    /// Returns the native theme-item name, when one was available.
    pub fn property(&self) -> (r: &str)
        ensures
            r@ == self.property_of(),
    {
        self.property.as_str()
    }
}

impl Diagnostic for NativeDiagnostic {
    open spec fn code_text(&self) -> Seq<char> {
        self.code_of()
    }

    open spec fn message_text(&self) -> Seq<char> {
        native_text(
            self.style_of(),
            self.target_of(),
            self.state_of(),
            self.property_of(),
            self.message_of(),
        )
    }

    fn code(&self) -> (r: String) {
        self.code.clone()
    }

    fn to_string(&self) -> (r: String) {
        let mut parts: Vec<String> = Vec::new();
        assert(texts(parts@) =~= Seq::<Seq<char>>::empty());
        push_context(&mut parts, "style=", self.style.as_str());
        push_context(&mut parts, "target=", self.target.as_str());
        push_context(&mut parts, "state=", self.state.as_str());
        push_context(&mut parts, "property=", self.property.as_str());
        proof {
            assert(texts(parts@) =~= native_context(
                self.style@,
                self.target@,
                self.state@,
                self.property@,
            ));
        }
        if parts.len() == 0 {
            self.message.clone()
        } else {
            let mut r = owned("[");
            r.append(join_texts(&parts, " ").as_str());
            r.append("] ");
            r.append(self.message.as_str());
            r
        }
    }
}

/// Engine-native diagnostics collected in builder response order.
pub type NativeDiagnostics = Errors<NativeDiagnostic>;

/// Failure while preparing or constructing a native Godot theme.
#[derive(Debug)]
pub enum ThemeBuildError {
    /// Portable mapping preparation failed before entering Godot.
    Preparation(BackendErrors),
    /// The running engine rejected one or more native mappings.
    Native(NativeDiagnostics),
    /// The embedded builder could not be executed or returned malformed data.
    Builder(String),
}

impl ThemeBuildError {
    /// The rendered message.
    pub open spec fn message_text(&self) -> Seq<char> {
        match self {
            ThemeBuildError::Preparation(e) => joined(e.lines(), "\n"@),
            ThemeBuildError::Native(e) => joined(e.lines(), "\n"@),
            ThemeBuildError::Builder(m) => "native Godot builder failed: "@ + m@,
        }
    }

    /// Renders the failure.
    pub fn to_string(&self) -> (r: String)
        ensures
            r@ == self.message_text(),
    {
        match self {
            ThemeBuildError::Preparation(e) => e.to_string(),
            ThemeBuildError::Native(e) => e.to_string(),
            ThemeBuildError::Builder(m) => {
                let mut r = owned("native Godot builder failed: ");
                r.append(m.as_str());
                r
            },
        }
    }

    /// The rendered underlying failure, for the failures that wrap one.
    pub fn source(&self) -> (r: Option<String>)
        ensures
            match self {
                ThemeBuildError::Preparation(e) => r matches Some(s) && s@ == joined(
                    e.lines(),
                    "\n"@,
                ),
                ThemeBuildError::Native(e) => r matches Some(s) && s@ == joined(e.lines(), "\n"@),
                ThemeBuildError::Builder(_) => r is None,
            },
    {
        match self {
            ThemeBuildError::Preparation(e) => Some(e.to_string()),
            ThemeBuildError::Native(e) => Some(e.to_string()),
            ThemeBuildError::Builder(_) => None,
        }
    }

    /// Returns native runtime diagnostics, when the builder reached mapping.
    pub fn native_diagnostics(&self) -> (r: Option<&[NativeDiagnostic]>)
        ensures
            match self {
                ThemeBuildError::Native(e) => r matches Some(d) && d@ == e.items(),
                _ => r is None,
            },
    {
        match self {
            ThemeBuildError::Native(e) => Some(e.errors()),
            _ => None,
        }
    }
}

/// The `res://` path of a source path: its components joined with `/`.
pub open spec fn project_resource(parts: Seq<Seq<char>>) -> Seq<char> {
    "res://"@ + joined(parts, "/"@)
}

/// The message for a path that is not normalized relative to the project.
pub open spec fn unnormalized_text(path: Seq<char>) -> Seq<char> {
    "source path '"@ + path + "' is not normalized relative to the project root"@
}

/// The parts of a relative path, as path components: empty parts and `.`
/// parts after the first are not components.
pub open spec fn component_parts(parts: Seq<Seq<char>>) -> Seq<Seq<char>>
    decreases parts.len(),
{
    if parts.len() == 0 {
        Seq::empty()
    } else {
        let rest = component_parts(parts.drop_last());
        let p = parts.last();
        if p.len() > 0 && p != "."@ {
            rest.push(p)
        } else {
            rest
        }
    }
}

/// Whether a written path is normalized relative to the project root: it
/// is not absolute, does not start with `.`, and has no `..` component.
pub open spec fn normalized_relative(path: Seq<char>) -> bool {
    let parts = crate::token_path::split_on(path, '/');
    &&& !(path.len() > 0 && path[0] == '/')
    &&& parts[0] != "."@
    &&& forall|i: int| 0 <= i < parts.len() ==> #[trigger] parts[i] != ".."@
}

/// Maps a source path of the project to Godot's `res://` namespace.
pub fn resource_path(path: &str) -> (r: Result<String, SourceReadError>)
    ensures
        ({
            let comps = component_parts(crate::token_path::split_on(path@, '/'));
            if !normalized_relative(path@) {
                r matches Err(e) && e.message_of() == unnormalized_text(path@)
            } else if comps.len() == 0 {
                r matches Err(e) && e.message_of() == "source path is empty"@
            } else {
                r matches Ok(s) && s@ == project_resource(comps)
            }
        }),
{
    let parts = crate::sources::split_text(path, '/');
    proof {
        reveal_strlit(".");
        reveal_strlit("..");
        crate::token_path::lemma_split_on_nonempty(path@, '/');
    }
    let absolute = path.unicode_len() > 0 && path.get_char(0) == '/';
    let leading_dot = crate::text::text_eq(parts[0].as_str(), ".");
    let mut segments: Vec<String> = Vec::new();
    let mut clean = !absolute && !leading_dot;
    let mut i: usize = 0;
    assert(texts(parts@).take(0) =~= Seq::<Seq<char>>::empty());
    assert(component_parts(Seq::<Seq<char>>::empty()) =~= Seq::<Seq<char>>::empty());
    while i < parts.len()
        invariant
            texts(parts@) == crate::token_path::split_on(path@, '/'),
            i <= parts@.len(),
            clean == (!absolute && !leading_dot && forall|j: int| 0 <= j < i ==> #[trigger] texts(parts@)[j] != ".."@),
            texts(segments@) == component_parts(texts(parts@).take(i as int)),
        decreases parts@.len() - i,
    {
        let part = parts[i].as_str();
        assert(texts(parts@)[i as int] == part@);
        let ghost prefix = texts(parts@).take(i as int);
        assert(texts(parts@).take(i + 1).drop_last() =~= prefix);
        if crate::text::text_eq(part, "..") {
            clean = false;
        }
        if part.unicode_len() > 0 && !crate::text::text_eq(part, ".") {
            let ghost before = segments@;
            segments.push(owned(part));
            assert(texts(segments@) =~= texts(before).push(part@));
        }
        i = i + 1;
    }
    assert(texts(parts@).take(parts@.len() as int) =~= texts(parts@));
    if !clean {
        let mut message = owned("source path '");
        message.append(path);
        message.append("' is not normalized relative to the project root");
        return Err(SourceReadError::new(message));
    }
    if segments.len() == 0 {
        return Err(SourceReadError::new("source path is empty"));
    }
    let mut r = owned("res://");
    r.append(join_texts(&segments, "/").as_str());
    Ok(r)
}

/// A path shown to the editor: paths of the project are given in `res://` form.
pub open spec fn editor_path(path: Seq<char>) -> Seq<char> {
    if path.len() == 0 || starts_with(path, "res://"@) {
        path
    } else {
        "res://"@ + path
    }
}

/// The contents of an editor diagnostic.
pub struct EditorView {
    pub code: Seq<char>,
    pub message: Seq<char>,
    pub path: Seq<char>,
    pub span_start: Option<usize>,
    pub span_end: Option<usize>,
    pub line: Option<usize>,
    pub column: Option<usize>,
}

/// A diagnostic with code and message, at no path.
pub open spec fn plain_view(code: Seq<char>, message: Seq<char>) -> EditorView {
    EditorView {
        code,
        message,
        path: Seq::empty(),
        span_start: None,
        span_end: None,
        line: None,
        column: None,
    }
}

/// A diagnostic with code and message at `path`.
pub open spec fn located_view(code: Seq<char>, message: Seq<char>, path: Seq<char>) -> EditorView {
    EditorView { path: editor_path(path), ..plain_view(code, message) }
}

/// A diagnostic shown in the Godot editor.
#[derive(Clone, Debug)]
pub struct EditorDiagnostic {
    code: String,
    message: String,
    path: String,
    span_start: Option<usize>,
    span_end: Option<usize>,
    line: Option<usize>,
    column: Option<usize>,
}

impl View for EditorDiagnostic {
    type V = EditorView;

    closed spec fn view(&self) -> EditorView {
        EditorView {
            code: self.code@,
            message: self.message@,
            path: self.path@,
            span_start: self.span_start,
            span_end: self.span_end,
            line: self.line,
            column: self.column,
        }
    }
}

impl EditorDiagnostic {
    /// A diagnostic with a code and a message, at no path.
    pub fn new<C: IntoText, M: IntoText>(code: C, message: M) -> (r: EditorDiagnostic)
        ensures
            r@ == plain_view(code.text_view(), message.text_view()),
    {
        EditorDiagnostic {
            code: code.into_text(),
            message: message.into_text(),
            path: String::new(),
            span_start: None,
            span_end: None,
            line: None,
            column: None,
        }
    }

    /// Places the diagnostic at a path, given in `res://` form.
    pub fn at_path<P: IntoText>(self, path: P) -> (r: EditorDiagnostic)
        ensures
            r@ == (EditorView { path: editor_path(path.text_view()), ..self@ }),
    {
        let path = path.into_text();
        proof {
            reveal_strlit("res://");
        }
        let shown = if path.unicode_len() == 0 || text_starts_with(path.as_str(), "res://") {
            path
        } else {
            let mut r = owned("res://");
            r.append(path.as_str());
            r
        };
        EditorDiagnostic { path: shown, ..self }
    }

    /// Places the diagnostic on a byte range.
    pub fn with_span(self, start: usize, end: usize) -> (r: EditorDiagnostic)
        ensures
            r@ == (EditorView { span_start: Some(start), span_end: Some(end), ..self@ }),
    {
        EditorDiagnostic { span_start: Some(start), span_end: Some(end), ..self }
    }

    /// Places the diagnostic at a line and column.
    pub fn with_location(self, line: Option<usize>, column: Option<usize>) -> (r: EditorDiagnostic)
        ensures
            r@ == (EditorView { line, column, ..self@ }),
    {
        EditorDiagnostic { line, column, ..self }
    }

    /// Returns the diagnostic code.
    pub fn code(&self) -> (r: &str)
        ensures
            r@ == self@.code,
    {
        self.code.as_str()
    }

    /// Returns the diagnostic message.
    pub fn message(&self) -> (r: &str)
        ensures
            r@ == self@.message,
    {
        self.message.as_str()
    }

    /// Returns the path, empty when the diagnostic has none.
    pub fn path(&self) -> (r: &str)
        ensures
            r@ == self@.path,
    {
        self.path.as_str()
    }

    /// Returns the byte range, when known.
    pub fn span(&self) -> (r: (Option<usize>, Option<usize>))
        ensures
            r == (self@.span_start, self@.span_end),
    {
        (self.span_start, self.span_end)
    }

    /// Returns the line and column, when known.
    pub fn location(&self) -> (r: (Option<usize>, Option<usize>))
        ensures
            r == (self@.line, self@.column),
    {
        (self.line, self.column)
    }
}

/// The views of a sequence of editor diagnostics.
pub open spec fn editor_views(d: Seq<EditorDiagnostic>) -> Seq<EditorView> {
    d.map_values(|x: EditorDiagnostic| x@)
}

/// The editor diagnostics of one KDL failure of the document at `path`.
pub open spec fn kdl_views(path: Seq<char>, e: crate::style_kdl::ParseError) -> Seq<EditorView> {
    match e {
        crate::style_kdl::ParseError::Syntax(s) => if s.diagnostics_of().len() == 0 {
            seq![located_view(e.code_text(), e.message_text(), path)]
        } else {
            s.diagnostics_of().map_values(
                |d: crate::style_kdl::SyntaxDiagnostic|
                    EditorView {
                        span_start: Some(d.start),
                        span_end: Some(d.end),
                        ..located_view(
                            e.code_text(),
                            match d.message {
                                Some(m) => m@,
                                None => "invalid KDL 2 syntax"@,
                            },
                            path,
                        )
                    },
            )
        },
        crate::style_kdl::ParseError::Structure(st) => match st.problem().span {
            Some(span) => seq![
                EditorView {
                    span_start: Some(span.lo()),
                    span_end: Some(span.hi()),
                    ..located_view(e.code_text(), e.message_text(), path)
                },
            ],
            None => seq![located_view(e.code_text(), e.message_text(), path)],
        },
    }
}

/// The editor diagnostics of the KDL failures `errors`, in order.
pub open spec fn kdl_failure_views(path: Seq<char>, errors: Seq<crate::style_kdl::ParseError>) -> Seq<
    EditorView,
>
    decreases errors.len(),
{
    if errors.len() == 0 {
        Seq::empty()
    } else {
        kdl_failure_views(path, errors.drop_last()) + kdl_views(path, errors.last())
    }
}

/// The name registered for source `id`: the first one listed.
pub open spec fn registered_name(sources: Seq<(SourceId, String)>, id: SourceId) -> Option<Seq<char>>
    decreases sources.len(),
{
    if sources.len() == 0 {
        None
    } else {
        match registered_name(sources.drop_last(), id) {
            Some(n) => Some(n),
            None => if sources.last().0 == id {
                Some(sources.last().1@)
            } else {
                None
            },
        }
    }
}

/// The editor diagnostic of one semantic failure: its message, with the
/// suggestion appended, placed at its first label.
pub open spec fn compile_view(
    sources: Seq<(SourceId, String)>,
    error: CompileError,
    metadata: DiagnosticMetadata,
) -> EditorView {
    let message = error.message_text() + match metadata.suggestion_of() {
        Some(s) => "; "@ + s,
        None => Seq::empty(),
    };
    let base = plain_view(error.code_text(), message);
    if metadata.labels_of().len() == 0 {
        base
    } else {
        let label = metadata.labels_of()[0];
        let placed = match registered_name(sources, label.source_of()) {
            Some(n) => EditorView { path: editor_path(n), ..base },
            None => base,
        };
        match label.span_of() {
            Some(span) => EditorView { span_start: Some(span.lo()), span_end: Some(span.hi()), ..placed },
            None => placed,
        }
    }
}

/// The editor diagnostics of a loading failure.
pub open spec fn load_views(e: LoadError) -> Seq<EditorView> {
    match e {
        LoadError::InvalidPath { owner, path, source } => seq![
            located_view(
                "invalid_source_path"@,
                source.message_text(),
                match owner {
                    Some(o) => path_text(o@),
                    None => path@,
                },
            ),
        ],
        LoadError::Read { path, source } => seq![
            located_view("source_read"@, source.message_of(), path_text(path@)),
        ],
        LoadError::Kdl { path, source } => kdl_failure_views(path_text(path@), source.items()),
        LoadError::Tokens { path, source } => source.items().map_values(
            |t: crate::token_json::ParseError|
                EditorView {
                    line: t.line_of(),
                    column: t.column_of(),
                    ..located_view(t.code_text(), t.message_text(), path_text(path@))
                },
        ),
        LoadError::ImportCycle { cycle } => seq![
            located_view(
                "import_cycle"@,
                e.message_text(),
                if cycle@.len() > 0 {
                    path_text(cycle@[0]@)
                } else {
                    Seq::empty()
                },
            ),
        ],
        LoadError::TooManySources => seq![plain_view("too_many_sources"@, e.message_text())],
        LoadError::Compile { source, sources } => Seq::new(
            source.errors_of().len(),
            |i: int| compile_view(sources@, source.errors_of()[i], source.metadata_of()[i]),
        ),
    }
}

/// Pushes one diagnostic.
fn push_view(out: &mut Vec<EditorDiagnostic>, d: EditorDiagnostic)
    ensures
        editor_views(final(out)@) == editor_views(old(out)@).push(d@),
{
    let ghost before = out@;
    out.push(d);
    assert(editor_views(out@) =~= editor_views(before).push(d@));
}

/// The single diagnostic `d`.
fn single(d: EditorDiagnostic) -> (r: Vec<EditorDiagnostic>)
    ensures
        editor_views(r@) == seq![d@],
{
    let mut out: Vec<EditorDiagnostic> = Vec::new();
    push_view(&mut out, d);
    assert(editor_views(Seq::<EditorDiagnostic>::empty()) =~= Seq::<EditorView>::empty());
    assert(editor_views(out@) =~= seq![d@]);
    out
}

/// Finds the name registered for a source.
fn find_name(sources: &Vec<(SourceId, String)>, id: SourceId) -> (r: Option<&String>)
    ensures
        match (r, registered_name(sources@, id)) {
            (Some(a), Some(b)) => a@ == b,
            (None, None) => true,
            _ => false,
        },
{
    let mut i: usize = 0;
    while i < sources.len()
        invariant
            i <= sources@.len(),
            registered_name(sources@.take(i as int), id) is None,
        decreases sources@.len() - i,
    {
        assert(sources@.take(i + 1).drop_last() =~= sources@.take(i as int));
        if sources[i].0.same(id) {
            proof {
                lemma_registered_prefix(sources@, id, i + 1);
            }
            return Some(&sources[i].1);
        }
        i = i + 1;
    }
    assert(sources@.take(sources@.len() as int) =~= sources@);
    None
}

/// A name registered in a prefix stays the registered name.
proof fn lemma_registered_prefix(sources: Seq<(SourceId, String)>, id: SourceId, k: int)
    requires
        0 <= k <= sources.len(),
        registered_name(sources.take(k), id) is Some,
    ensures
        registered_name(sources, id) == registered_name(sources.take(k), id),
    decreases sources.len() - k,
{
    if k < sources.len() {
        assert(sources.take(k + 1).drop_last() =~= sources.take(k));
        lemma_registered_prefix(sources, id, k + 1);
    } else {
        assert(sources.take(k) =~= sources);
    }
}

/// The editor diagnostics of the KDL failures of a document.
fn kdl_diagnostics(path: &String, errors: &[crate::style_kdl::ParseError]) -> (r: Vec<EditorDiagnostic>)
    ensures
        editor_views(r@) == kdl_failure_views(path@, errors@),
{
    let mut out: Vec<EditorDiagnostic> = Vec::new();
    let mut i: usize = 0;
    assert(editor_views(out@) =~= kdl_failure_views(path@, errors@.take(0)));
    while i < errors.len()
        invariant
            i <= errors@.len(),
            editor_views(out@) == kdl_failure_views(path@, errors@.take(i as int)),
        decreases errors@.len() - i,
    {
        let error = &errors[i];
        let ghost start = editor_views(out@);
        assert(errors@.take(i + 1).drop_last() =~= errors@.take(i as int));
        match error {
            crate::style_kdl::ParseError::Syntax(syntax) => {
                let diagnostics = syntax.diagnostics();
                if diagnostics.len() == 0 {
                    let d = EditorDiagnostic::new(error.code(), error.to_string()).at_path(
                        path.clone(),
                    );
                    push_view(&mut out, d);
                    assert(editor_views(out@) =~= start + kdl_views(path@, *error));
                } else {
                    let ghost all = kdl_views(path@, *error);
                    let mut k: usize = 0;
                    assert(editor_views(out@) =~= start + all.take(0));
                    while k < diagnostics.len()
                        invariant
                            diagnostics@ == syntax.diagnostics_of(),
                            diagnostics@.len() > 0,
                            *error == crate::style_kdl::ParseError::Syntax(*syntax),
                            all == kdl_views(path@, *error),
                            all.len() == diagnostics@.len(),
                            k <= diagnostics@.len(),
                            editor_views(out@) == start + all.take(k as int),
                        decreases diagnostics@.len() - k,
                    {
                        let diagnostic = &diagnostics[k];
                        let message = match &diagnostic.message {
                            Some(m) => m.clone(),
                            None => owned("invalid KDL 2 syntax"),
                        };
                        let d = EditorDiagnostic::new(error.code(), message).at_path(path.clone()).with_span(
                            diagnostic.start,
                            diagnostic.end,
                        );
                        push_view(&mut out, d);
                        assert(editor_views(out@) =~= start + all.take(k + 1));
                        k = k + 1;
                    }
                    assert(all.take(all.len() as int) =~= all);
                }
            },
            crate::style_kdl::ParseError::Structure(structure) => {
                let d = EditorDiagnostic::new(error.code(), structure.to_string()).at_path(
                    path.clone(),
                );
                let d = match structure.span() {
                    Some(span) => d.with_span(span.start(), span.end()),
                    None => d,
                };
                push_view(&mut out, d);
                assert(editor_views(out@) =~= start + kdl_views(path@, *error));
            },
        }
        i = i + 1;
    }
    assert(errors@.take(errors@.len() as int) =~= errors@);
    out
}

/// Maps a loading failure to editor diagnostics.
pub fn load_diagnostics(error: &LoadError) -> (r: Vec<EditorDiagnostic>)
    ensures
        editor_views(r@) == load_views(*error),
{
    match error {
        LoadError::InvalidPath { owner, path, source } => {
            let shown = match owner {
                Some(o) => o.to_string(),
                None => path.clone(),
            };
            single(EditorDiagnostic::new("invalid_source_path", source.to_string()).at_path(shown))
        },
        LoadError::Read { path, source } => single(
            EditorDiagnostic::new("source_read", source.to_string()).at_path(path.to_string()),
        ),
        LoadError::Kdl { path, source } => kdl_diagnostics(&path.to_string(), source.errors()),
        LoadError::Tokens { path, source } => {
            let shown = path.to_string();
            let errors = source.errors();
            let mut out: Vec<EditorDiagnostic> = Vec::new();
            let mut i: usize = 0;
            let ghost all = load_views(*error);
            assert(editor_views(out@) =~= all.take(0));
            while i < errors.len()
                invariant
                    errors@ == source.items(),
                    shown@ == path_text(path@),
                    all == load_views(*error),
                    *error == (LoadError::Tokens { path: *path, source: *source }),
                    i <= errors@.len(),
                    editor_views(out@) == all.take(i as int),
                decreases errors@.len() - i,
            {
                let t = &errors[i];
                let d = EditorDiagnostic::new(t.code(), t.to_string()).at_path(shown.clone()).with_location(
                    t.line(),
                    t.column(),
                );
                push_view(&mut out, d);
                assert(editor_views(out@) =~= all.take(i + 1));
                i = i + 1;
            }
            assert(all.take(all.len() as int) =~= all);
            out
        },
        LoadError::ImportCycle { cycle } => {
            let shown = if cycle.len() > 0 {
                cycle[0].to_string()
            } else {
                String::new()
            };
            single(EditorDiagnostic::new("import_cycle", error.to_string()).at_path(shown))
        },
        LoadError::TooManySources => single(
            EditorDiagnostic::new("too_many_sources", error.to_string()),
        ),
        LoadError::Compile { source, sources } => {
            source.check_valid();
            let errors = source.errors();
            let metadata = source.metadata();
            let mut out: Vec<EditorDiagnostic> = Vec::new();
            let mut i: usize = 0;
            let ghost all = load_views(*error);
            assert(editor_views(out@) =~= all.take(0));
            while i < errors.len()
                invariant
                    errors@ == source.errors_of(),
                    metadata@ == source.metadata_of(),
                    errors@.len() == metadata@.len(),
                    all == load_views(*error),
                    *error == (LoadError::Compile { source: *source, sources: *sources }),
                    i <= errors@.len(),
                    editor_views(out@) == all.take(i as int),
                decreases errors@.len() - i,
            {
                let e = &errors[i];
                let m = &metadata[i];
                let mut message = e.to_string();
                match m.suggestion() {
                    Some(s) => {
                        message.append("; ");
                        message.append(s);
                    },
                    None => {},
                }
                let mut d = EditorDiagnostic::new(e.code(), message);
                assert(d@.message == e.message_text() + match m.suggestion_of() {
                    Some(s) => "; "@ + s,
                    None => Seq::<char>::empty(),
                });
                let labels = m.labels();
                if labels.len() > 0 {
                    let label = &labels[0];
                    match find_name(sources, label.source()) {
                        Some(name) => {
                            d = d.at_path(name.clone());
                        },
                        None => {},
                    }
                    match label.span() {
                        Some(span) => {
                            d = d.with_span(span.start(), span.end());
                        },
                        None => {},
                    }
                }
                assert(d@ == compile_view(sources@, *e, *m));
                assert(all[i as int] == compile_view(sources@, *e, *m));
                push_view(&mut out, d);
                assert(editor_views(out@) =~= all.take(i + 1));
                i = i + 1;
            }
            assert(all.take(all.len() as int) =~= all);
            out
        },
    }
}

/// Maps a theme-building failure to editor diagnostics.
pub fn build_diagnostics(error: &ThemeBuildError) -> (r: Vec<EditorDiagnostic>)
    ensures
        editor_views(r@) == match *error {
            ThemeBuildError::Preparation(e) => e.items().map_values(
                |x: crate::godot::BackendError| plain_view(x.code_text(), x.message_text()),
            ),
            ThemeBuildError::Native(e) => e.items().map_values(
                |x: NativeDiagnostic| plain_view(x.code_text(), x.message_text()),
            ),
            ThemeBuildError::Builder(m) => seq![plain_view("native_builder"@, m@)],
        },
{
    match error {
        ThemeBuildError::Preparation(errors) => {
            let items = errors.errors();
            let mut out: Vec<EditorDiagnostic> = Vec::new();
            let mut i: usize = 0;
            let ghost all = errors.items().map_values(
                |x: crate::godot::BackendError| plain_view(x.code_text(), x.message_text()),
            );
            assert(editor_views(out@) =~= all.take(0));
            while i < items.len()
                invariant
                    items@ == errors.items(),
                    all == errors.items().map_values(
                        |x: crate::godot::BackendError| plain_view(x.code_text(), x.message_text()),
                    ),
                    i <= items@.len(),
                    editor_views(out@) == all.take(i as int),
                decreases items@.len() - i,
            {
                let e = &items[i];
                push_view(&mut out, EditorDiagnostic::new(e.code(), e.to_string()));
                assert(editor_views(out@) =~= all.take(i + 1));
                i = i + 1;
            }
            assert(all.take(all.len() as int) =~= all);
            out
        },
        ThemeBuildError::Native(errors) => {
            let items = errors.errors();
            let mut out: Vec<EditorDiagnostic> = Vec::new();
            let mut i: usize = 0;
            let ghost all = errors.items().map_values(
                |x: NativeDiagnostic| plain_view(x.code_text(), x.message_text()),
            );
            assert(editor_views(out@) =~= all.take(0));
            while i < items.len()
                invariant
                    items@ == errors.items(),
                    all == errors.items().map_values(
                        |x: NativeDiagnostic| plain_view(x.code_text(), x.message_text()),
                    ),
                    i <= items@.len(),
                    editor_views(out@) == all.take(i as int),
                decreases items@.len() - i,
            {
                let e = &items[i];
                push_view(&mut out, EditorDiagnostic::new(e.code(), e.to_string()));
                assert(editor_views(out@) =~= all.take(i + 1));
                i = i + 1;
            }
            assert(all.take(all.len() as int) =~= all);
            out
        },
        ThemeBuildError::Builder(message) => single(
            EditorDiagnostic::new("native_builder", message.clone()),
        ),
    }
}

/// Texts strictly increasing in code-point order: a set held in order.
pub open spec fn texts_ascending(v: Seq<Seq<char>>) -> bool {
    forall|i: int, j: int| 0 <= i < j < v.len() ==> chars_less(#[trigger] v[i], #[trigger] v[j])
}

/// Adds a text to an ordered set of texts.
fn insert_text(set: &mut Vec<String>, item: String)
    requires
        texts_ascending(texts(old(set)@)),
    ensures
        texts_ascending(texts(final(set)@)),
        texts(final(set)@).to_set() == texts(old(set)@).to_set().insert(item@),
{
    let ghost before = texts(set@);
    let mut k: usize = 0;
    while k < set.len() && text_less(set[k].as_str(), item.as_str())
        invariant
            texts(set@) == before,
            texts_ascending(before),
            k <= set@.len(),
            forall|j: int| 0 <= j < k ==> chars_less(#[trigger] before[j], item@),
        decreases set@.len() - k,
    {
        k = k + 1;
    }
    if k < set.len() && crate::text::text_eq(set[k].as_str(), item.as_str()) {
        assert(before.to_set().insert(item@) =~= before.to_set()) by {
            assert(before[k as int] == item@);
        }
        return;
    }
    proof {
        assert forall|j: int| k <= j < before.len() implies chars_less(item@, #[trigger] before[j]) by {
            lemma_chars_less_total(item@, before[k as int]);
            if !chars_less(item@, before[k as int]) {
                assert(before[k as int] != item@);
                assert(chars_less(before[k as int], item@));
                assert(false);
            }
            if j > k {
                lemma_chars_less_transitive(item@, before[k as int], before[j]);
            }
        }
    }
    set.insert(k, item);
    let ghost after = texts(set@);
    assert(after =~= before.insert(k as int, item@));
    assert(after.to_set() =~= before.to_set().insert(item@)) by {
        assert forall|x: Seq<char>| after.to_set().contains(x) implies before.to_set().insert(item@).contains(x) by {
            let i = choose|i: int| 0 <= i < after.len() && after[i] == x;
            if i < k {
                assert(before[i] == x);
            } else if i > k {
                assert(before[i - 1] == x);
            }
        }
        assert forall|x: Seq<char>| before.to_set().insert(item@).contains(x) implies after.to_set().contains(x) by {
            if x == item@ {
                assert(after[k as int] == x);
            } else {
                let i = choose|i: int| 0 <= i < before.len() && before[i] == x;
                if i < k {
                    assert(after[i] == x);
                } else {
                    assert(after[i + 1] == x);
                }
            }
        }
    }
}

/// Where an editor root names its source: below `res://`.
pub open spec fn editor_root_outcome(source: Seq<char>) -> Result<Seq<char>, Seq<char>> {
    if starts_with(source, "res://"@) && source.len() > 6 {
        Ok(source.skip(6))
    } else {
        Err("theme source '"@ + source + "' must be below res://"@)
    }
}

/// Returns the root-relative path of a theme root given in `res://` form.
pub fn editor_root(source: &str) -> (r: Result<String, String>)
    ensures
        match (r, editor_root_outcome(source@)) {
            (Ok(a), Ok(b)) => a@ == b,
            (Err(a), Err(b)) => a@ == b,
            _ => false,
        },
{
    proof {
        reveal_strlit("res://");
    }
    let chars = crate::text::chars_of(source);
    if text_starts_with(source, "res://") && chars.len() > 6 {
        let mut r = String::new();
        let mut i: usize = 6;
        while i < chars.len()
            invariant
                chars@ == source@,
                6 <= i <= chars@.len(),
                r@ == source@.subrange(6, i as int),
            decreases chars@.len() - i,
        {
            crate::text::push_char(&mut r, chars[i]);
            assert(source@.subrange(6, i + 1) =~= source@.subrange(6, i as int).push(chars@[i as int]));
            i = i + 1;
        }
        assert(r@ =~= source@.skip(6));
        Ok(r)
    } else {
        let mut m = owned("theme source '");
        m.append(source);
        m.append("' must be below res://");
        Err(m)
    }
}

/// The `res://` paths of source dependencies, as an ordered set of texts.
pub fn project_dependencies(paths: &[SourcePath]) -> (r: Vec<String>)
    ensures
        texts_ascending(texts(r@)),
        texts(r@).to_set() == paths@.map_values(|p: SourcePath| "res://"@ + path_text(p@)).to_set(),
{
    let ghost all = paths@.map_values(|p: SourcePath| "res://"@ + path_text(p@));
    let mut out: Vec<String> = Vec::new();
    let mut i: usize = 0;
    assert(texts(out@).to_set() =~= all.take(0).to_set());
    while i < paths.len()
        invariant
            all == paths@.map_values(|p: SourcePath| "res://"@ + path_text(p@)),
            i <= paths@.len(),
            texts_ascending(texts(out@)),
            texts(out@).to_set() == all.take(i as int).to_set(),
        decreases paths@.len() - i,
    {
        let mut text = owned("res://");
        text.append(paths[i].to_string().as_str());
        insert_text(&mut out, text);
        assert(all.take(i + 1) =~= all.take(i as int).push(all[i as int]));
        proof {
            all.take(i as int).lemma_push_to_set_commute(all[i as int]);
        }
        i = i + 1;
    }
    assert(all.take(paths@.len() as int) =~= all);
    out
}

/// The project resources a value depends on: a resource below `res://`.
pub open spec fn value_resources(acc: Set<Seq<char>>, v: CompiledValue) -> Set<Seq<char>> {
    match v {
        CompiledValue::Resource(r) => if starts_with(r@, "res://"@) {
            acc.insert(r@)
        } else {
            acc
        },
        _ => acc,
    }
}

/// The resources of the first `n` properties of `props`, added to `acc`.
pub open spec fn props_resources(acc: Set<Seq<char>>, props: Seq<(Name, CompiledValue)>, n: nat) -> Set<
    Seq<char>,
>
    decreases n,
{
    if n == 0 {
        acc
    } else {
        value_resources(props_resources(acc, props, (n - 1) as nat), props[n - 1].1)
    }
}

/// The resources of the first `n` states of `states`, added to `acc`.
pub open spec fn states_resources(acc: Set<Seq<char>>, states: Seq<(Name, CompiledState)>, n: nat) -> Set<
    Seq<char>,
>
    decreases n,
{
    if n == 0 {
        acc
    } else {
        let props = states[n - 1].1.properties_of().ordered();
        props_resources(states_resources(acc, states, (n - 1) as nat), props, props.len())
    }
}

/// The resources of a style: of its base properties, then of its states.
pub open spec fn style_resources(acc: Set<Seq<char>>, style: CompiledStyle) -> Set<Seq<char>> {
    let base = style.properties_of().ordered();
    let states = style.states_of().ordered();
    states_resources(props_resources(acc, base, base.len()), states, states.len())
}

/// The resources of the first `n` styles, added to `acc`.
pub open spec fn theme_resources(acc: Set<Seq<char>>, styles: Seq<(Name, CompiledStyle)>, n: nat) -> Set<
    Seq<char>,
>
    decreases n,
{
    if n == 0 {
        acc
    } else {
        style_resources(theme_resources(acc, styles, (n - 1) as nat), styles[n - 1].1)
    }
}

/// Adds the project resources of a list of properties.
fn add_property_resources(props: &[(Name, CompiledValue)], set: &mut Vec<String>)
    requires
        texts_ascending(texts(old(set)@)),
    ensures
        texts_ascending(texts(final(set)@)),
        texts(final(set)@).to_set() == props_resources(texts(old(set)@).to_set(), props@, props@.len()),
{
    let ghost start = texts(set@).to_set();
    let mut i: usize = 0;
    proof {
        reveal_strlit("res://");
    }
    while i < props.len()
        invariant
            start == texts(old(set)@).to_set(),
            i <= props@.len(),
            texts_ascending(texts(set@)),
            texts(set@).to_set() == props_resources(start, props@, i as nat),
        decreases props@.len() - i,
    {
        match &props[i].1 {
            CompiledValue::Resource(reference) => {
                if text_starts_with(reference.as_str(), "res://") {
                    insert_text(set, owned(reference.as_str()));
                }
            },
            _ => {},
        }
        i = i + 1;
    }
}

/// Adds the project resources that a compiled theme refers to: resource
/// values below `res://`, in base properties and in states.
pub fn collect_resource_dependencies(compiled: &CompiledTheme, dependencies: &mut Vec<String>)
    requires
        texts_ascending(texts(old(dependencies)@)),
    ensures
        texts_ascending(texts(final(dependencies)@)),
        texts(final(dependencies)@).to_set() == theme_resources(
            texts(old(dependencies)@).to_set(),
            compiled.styles_of().ordered(),
            compiled.styles_of().ordered().len(),
        ),
{
    let styles = compiled.styles().entries();
    let ghost start = texts(dependencies@).to_set();
    let mut i: usize = 0;
    while i < styles.len()
        invariant
            start == texts(old(dependencies)@).to_set(),
            styles@ == compiled.styles_of().ordered(),
            i <= styles@.len(),
            texts_ascending(texts(dependencies@)),
            texts(dependencies@).to_set() == theme_resources(start, styles@, i as nat),
        decreases styles@.len() - i,
    {
        let style = &styles[i].1;
        add_property_resources(style.properties().entries(), dependencies);
        let states = style.states().entries();
        let ghost after_base = texts(dependencies@).to_set();
        let mut j: usize = 0;
        while j < states.len()
            invariant
                states@ == style.states_of().ordered(),
                j <= states@.len(),
                texts_ascending(texts(dependencies@)),
                texts(dependencies@).to_set() == states_resources(after_base, states@, j as nat),
            decreases states@.len() - j,
        {
            add_property_resources(states[j].1.properties().entries(), dependencies);
            j = j + 1;
        }
        i = i + 1;
    }
}

} // verus!
