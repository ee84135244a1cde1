//! Semantic compilation errors and their presentation metadata.
use crate::compiled::CompiledValueKind;
use crate::diagnostic::{joined, lemma_joined_step};
use crate::source::{SourceId, Span};
use crate::style_model::Name;
use crate::text::{decimal, push_decimal};
use crate::token_model::TokenKind;
use crate::token_path::TokenPath;
use vstd::prelude::*;

verus! {

/// A dotted token path.
pub open spec fn dotted(p: Seq<Seq<char>>) -> Seq<char> {
    joined(p, "."@)
}

/// `'TEXT'`
pub open spec fn quoted(s: Seq<char>) -> Seq<char> {
    "'"@ + s + "'"@
}

/// A path cycle rendered as `a -> b -> a`.
pub open spec fn path_cycle_text(cycle: Seq<TokenPath>) -> Seq<char> {
    joined(cycle.map_values(|p: TokenPath| dotted(p@)), " -> "@)
}

/// A name cycle rendered as `A -> B -> A`.
pub open spec fn name_cycle_text(cycle: Seq<Name>) -> Seq<char> {
    joined(cycle.map_values(|n: Name| n@), " -> "@)
}

/// `style 'S'`, or `style 'S' state 'T'` inside a state block.
pub open spec fn style_context(style: Name, state: Option<Name>) -> Seq<char> {
    match state {
        Some(s) => "style "@ + quoted(style@) + " state "@ + quoted(s@),
        None => "style "@ + quoted(style@),
    }
}

/// One semantic compilation error.
#[derive(Debug, PartialEq, Eq)]
#[allow(inconsistent_fields)]
pub enum CompileError {
    /// A token path was declared more than once.
    DuplicateToken {
        /// Duplicated path.
        path: TokenPath,
    },
    /// An alias target does not exist.
    MissingAlias {
        /// Token containing the alias.
        token: TokenPath,
        /// Missing target path.
        target: TokenPath,
    },
    /// A token alias graph contains a cycle.
    AliasCycle {
        /// Closed path through the cycle, with the first path repeated last.
        cycle: Vec<TokenPath>,
    },
    /// A resolved alias value has the wrong declared type.
    TypeMismatch {
        /// Token containing the incompatible alias.
        token: TokenPath,
        /// Type declared by the aliasing token.
        declared: TokenKind,
        /// Type produced by the target.
        actual: TokenKind,
    },
    /// No style document was supplied.
    NoStyleDocuments,
    /// The first style document is a fragment and names no theme.
    NoThemeName,
    /// A style document names a different theme than the first document.
    ThemeNameMismatch {
        /// Theme named by the first document.
        expected: Name,
        /// Theme named by the conflicting document.
        found: Name,
    },
    /// A style name was declared more than once.
    DuplicateStyle {
        /// Duplicated style.
        style: Name,
    },
    /// A style extends a style that does not exist.
    MissingParent {
        /// Extending style.
        style: Name,
        /// Missing parent.
        parent: Name,
    },
    /// Style inheritance contains a cycle.
    InheritanceCycle {
        /// Closed path through the cycle, with the first style repeated last.
        cycle: Vec<Name>,
    },
    /// A style targets a different control type than its parent.
    TargetMismatch {
        /// Extending style.
        style: Name,
        /// Target of the extending style.
        target: Name,
        /// Parent style.
        parent: Name,
        /// Target of the parent style.
        parent_target: Name,
    },
    /// A property references a token that does not exist.
    MissingToken {
        /// Style containing the property.
        style: Name,
        /// State containing the property, or `None` for base properties.
        state: Option<Name>,
        /// Property name.
        property: Name,
        /// Missing token path.
        token: TokenPath,
    },
    /// A property was assigned more than once in one block.
    DuplicateProperty {
        /// Style containing the property.
        style: Name,
        /// State containing the property, or `None` for base properties.
        state: Option<Name>,
        /// Property name.
        property: Name,
    },
    /// A state was declared more than once in one style.
    DuplicateState {
        /// Style containing the state.
        style: Name,
        /// Duplicated state.
        state: Name,
    },
    /// An override changes the kind of an inherited or base value.
    PropertyTypeMismatch {
        /// Style containing the override.
        style: Name,
        /// State containing the override, or `None` for base properties.
        state: Option<Name>,
        /// Property name.
        property: Name,
        /// Kind of the overridden value.
        expected: CompiledValueKind,
        /// Kind of the overriding value.
        actual: CompiledValueKind,
    },
}

impl CompileError {
    /// The stable diagnostic code.
    pub open spec fn code_text(&self) -> Seq<char> {
        match self {
            CompileError::DuplicateToken { .. } => "TMS2101"@,
            CompileError::MissingAlias { .. } => "TMS2102"@,
            CompileError::AliasCycle { .. } => "TMS2103"@,
            CompileError::TypeMismatch { .. } => "TMS2104"@,
            CompileError::NoStyleDocuments => "TMS2201"@,
            CompileError::ThemeNameMismatch { .. } => "TMS2202"@,
            CompileError::DuplicateStyle { .. } => "TMS2203"@,
            CompileError::MissingParent { .. } => "TMS2204"@,
            CompileError::InheritanceCycle { .. } => "TMS2205"@,
            CompileError::TargetMismatch { .. } => "TMS2206"@,
            CompileError::MissingToken { .. } => "TMS2207"@,
            CompileError::DuplicateProperty { .. } => "TMS2208"@,
            CompileError::DuplicateState { .. } => "TMS2209"@,
            CompileError::PropertyTypeMismatch { .. } => "TMS2210"@,
            CompileError::NoThemeName => "TMS2211"@,
        }
    }

    /// The rendered explanation.
    pub open spec fn message_text(&self) -> Seq<char> {
        match self {
            CompileError::DuplicateToken { path } => "duplicate token "@ + quoted(dotted(path@)),
            CompileError::MissingAlias { token, target } => "token "@ + quoted(dotted(token@))
                + " references missing token "@ + quoted(dotted(target@)),
            CompileError::AliasCycle { cycle } => "token alias cycle: "@ + path_cycle_text(
                cycle@,
            ),
            CompileError::TypeMismatch { token, declared, actual } => "token "@ + quoted(
                dotted(token@),
            ) + " declares "@ + declared.name_text() + " but resolves to "@
                + actual.name_text(),
            CompileError::NoStyleDocuments => "no style documents were supplied"@,
            CompileError::NoThemeName => "the first style document declares no theme"@,
            CompileError::ThemeNameMismatch { expected, found } => "style document uses theme "@
                + quoted(found@) + ", expected "@ + quoted(expected@),
            CompileError::DuplicateStyle { style } => "duplicate style "@ + quoted(style@),
            CompileError::MissingParent { style, parent } => "style "@ + quoted(style@)
                + " extends missing style "@ + quoted(parent@),
            CompileError::InheritanceCycle { cycle } => "style inheritance cycle: "@
                + name_cycle_text(cycle@),
            CompileError::TargetMismatch { style, target, parent, parent_target } => "style "@
                + quoted(style@) + " targets "@ + quoted(target@) + " but its parent "@ + quoted(
                parent@,
            ) + " targets "@ + quoted(parent_target@),
            CompileError::MissingToken { style, state, property, token } => style_context(
                *style,
                *state,
            ) + " property "@ + quoted(property@) + " references missing token "@ + quoted(
                dotted(token@),
            ),
            CompileError::DuplicateProperty { style, state, property } => style_context(
                *style,
                *state,
            ) + " assigns property "@ + quoted(property@) + " more than once"@,
            CompileError::DuplicateState { style, state } => "style "@ + quoted(style@)
                + " declares state "@ + quoted(state@) + " more than once"@,
            CompileError::PropertyTypeMismatch { style, state, property, expected, actual } =>
                style_context(*style, *state) + " property "@ + quoted(property@)
                + " changes type from "@ + expected.name_text() + " to "@ + actual.name_text(),
        }
    }

    /// Returns the stable diagnostic code.
    pub fn code(&self) -> (r: &'static str)
        ensures
            r@ == self.code_text(),
    {
        match self {
            CompileError::DuplicateToken { .. } => "TMS2101",
            CompileError::MissingAlias { .. } => "TMS2102",
            CompileError::AliasCycle { .. } => "TMS2103",
            CompileError::TypeMismatch { .. } => "TMS2104",
            CompileError::NoStyleDocuments => "TMS2201",
            CompileError::ThemeNameMismatch { .. } => "TMS2202",
            CompileError::DuplicateStyle { .. } => "TMS2203",
            CompileError::MissingParent { .. } => "TMS2204",
            CompileError::InheritanceCycle { .. } => "TMS2205",
            CompileError::TargetMismatch { .. } => "TMS2206",
            CompileError::MissingToken { .. } => "TMS2207",
            CompileError::DuplicateProperty { .. } => "TMS2208",
            CompileError::DuplicateState { .. } => "TMS2209",
            CompileError::PropertyTypeMismatch { .. } => "TMS2210",
            CompileError::NoThemeName => "TMS2211",
        }
    }

    /// Renders the error message.
    pub fn to_string(&self) -> (r: String)
        ensures
            r@ == self.message_text(),
    {
        let mut r = String::new();
        match self {
            CompileError::DuplicateToken { path } => {
                r.append("duplicate token ");
                push_quoted_path(&mut r, path);
            },
            CompileError::MissingAlias { token, target } => {
                r.append("token ");
                push_quoted_path(&mut r, token);
                r.append(" references missing token ");
                push_quoted_path(&mut r, target);
            },
            CompileError::AliasCycle { cycle } => {
                r.append("token alias cycle: ");
                push_path_cycle(&mut r, cycle);
            },
            CompileError::TypeMismatch { token, declared, actual } => {
                r.append("token ");
                push_quoted_path(&mut r, token);
                r.append(" declares ");
                r.append(declared.name());
                r.append(" but resolves to ");
                r.append(actual.name());
            },
            CompileError::NoStyleDocuments => {
                r.append("no style documents were supplied");
            },
            CompileError::NoThemeName => {
                r.append("the first style document declares no theme");
            },
            CompileError::ThemeNameMismatch { expected, found } => {
                r.append("style document uses theme ");
                push_quoted(&mut r, found.as_str());
                r.append(", expected ");
                push_quoted(&mut r, expected.as_str());
            },
            CompileError::DuplicateStyle { style } => {
                r.append("duplicate style ");
                push_quoted(&mut r, style.as_str());
            },
            CompileError::MissingParent { style, parent } => {
                r.append("style ");
                push_quoted(&mut r, style.as_str());
                r.append(" extends missing style ");
                push_quoted(&mut r, parent.as_str());
            },
            CompileError::InheritanceCycle { cycle } => {
                r.append("style inheritance cycle: ");
                push_name_cycle(&mut r, cycle);
            },
            CompileError::TargetMismatch { style, target, parent, parent_target } => {
                r.append("style ");
                push_quoted(&mut r, style.as_str());
                r.append(" targets ");
                push_quoted(&mut r, target.as_str());
                r.append(" but its parent ");
                push_quoted(&mut r, parent.as_str());
                r.append(" targets ");
                push_quoted(&mut r, parent_target.as_str());
            },
            CompileError::MissingToken { style, state, property, token } => {
                push_style_context(&mut r, style, state);
                r.append(" property ");
                push_quoted(&mut r, property.as_str());
                r.append(" references missing token ");
                push_quoted_path(&mut r, token);
            },
            CompileError::DuplicateProperty { style, state, property } => {
                push_style_context(&mut r, style, state);
                r.append(" assigns property ");
                push_quoted(&mut r, property.as_str());
                r.append(" more than once");
            },
            CompileError::DuplicateState { style, state } => {
                r.append("style ");
                push_quoted(&mut r, style.as_str());
                r.append(" declares state ");
                push_quoted(&mut r, state.as_str());
                r.append(" more than once");
            },
            CompileError::PropertyTypeMismatch { style, state, property, expected, actual } => {
                push_style_context(&mut r, style, state);
                r.append(" property ");
                push_quoted(&mut r, property.as_str());
                r.append(" changes type from ");
                r.append(expected.name());
                r.append(" to ");
                r.append(actual.name());
            },
        }
        proof {
            assert(r@ =~= self.message_text());
        }
        r
    }
}

fn push_quoted(out: &mut String, s: &str)
    ensures
        final(out)@ == old(out)@ + quoted(s@),
{
    out.append("'");
    out.append(s);
    out.append("'");
    assert(final(out)@ =~= old(out)@ + quoted(s@));
}

fn push_quoted_path(out: &mut String, p: &TokenPath)
    ensures
        final(out)@ == old(out)@ + quoted(dotted(p@)),
{
    let text = p.to_string();
    push_quoted(out, text.as_str());
}

fn push_style_context(out: &mut String, style: &Name, state: &Option<Name>)
    ensures
        final(out)@ == old(out)@ + style_context(*style, *state),
{
    out.append("style ");
    push_quoted(out, style.as_str());
    match state {
        Some(s) => {
            out.append(" state ");
            push_quoted(out, s.as_str());
        },
        None => {},
    }
    assert(final(out)@ =~= old(out)@ + style_context(*style, *state));
}

fn push_path_cycle(out: &mut String, cycle: &Vec<TokenPath>)
    ensures
        final(out)@ == old(out)@ + path_cycle_text(cycle@),
{
    let ghost parts = cycle@.map_values(|p: TokenPath| dotted(p@));
    let ghost start = out@;
    let mut i: usize = 0;
    assert(parts.take(0) =~= Seq::<Seq<char>>::empty());
    while i < cycle.len()
        invariant
            parts == cycle@.map_values(|p: TokenPath| dotted(p@)),
            i <= cycle@.len(),
            out@ == start + joined(parts.take(i as int), " -> "@),
        decreases cycle@.len() - i,
    {
        proof {
            lemma_joined_step(parts, " -> "@, i as int);
        }
        if i > 0 {
            out.append(" -> ");
        }
        let text = cycle[i].to_string();
        out.append(text.as_str());
        proof {
            if i > 0 {
                assert(out@ =~= start + (joined(parts.take(i as int), " -> "@) + " -> "@
                    + parts[i as int]));
            } else {
                assert(out@ =~= start + parts[0]);
            }
        }
        i = i + 1;
    }
    assert(parts.take(cycle@.len() as int) =~= parts);
}

fn push_name_cycle(out: &mut String, cycle: &Vec<Name>)
    ensures
        final(out)@ == old(out)@ + name_cycle_text(cycle@),
{
    let ghost parts = cycle@.map_values(|n: Name| n@);
    let ghost start = out@;
    let mut i: usize = 0;
    assert(parts.take(0) =~= Seq::<Seq<char>>::empty());
    while i < cycle.len()
        invariant
            parts == cycle@.map_values(|n: Name| n@),
            i <= cycle@.len(),
            out@ == start + joined(parts.take(i as int), " -> "@),
        decreases cycle@.len() - i,
    {
        proof {
            lemma_joined_step(parts, " -> "@, i as int);
        }
        if i > 0 {
            out.append(" -> ");
        }
        out.append(cycle[i].as_str());
        proof {
            if i > 0 {
                assert(out@ =~= start + (joined(parts.take(i as int), " -> "@) + " -> "@
                    + parts[i as int]));
            } else {
                assert(out@ =~= start + parts[0]);
            }
        }
        i = i + 1;
    }
    assert(parts.take(cycle@.len() as int) =~= parts);
}

/// Importance of a source label within one diagnostic.
#[derive(Clone, Copy, Debug, PartialEq, Eq)]
pub enum LabelKind {
    /// The declaration directly responsible for the failure.
    Primary,
    /// A related declaration needed to explain the failure.
    Secondary,
}

/// A source-aware label attached to a semantic diagnostic.
#[derive(Clone, Debug, PartialEq, Eq)]
pub struct DiagnosticLabel {
    source: SourceId,
    span: Option<Span>,
    kind: LabelKind,
    message: String,
}

impl DiagnosticLabel {
    pub closed spec fn source_of(&self) -> SourceId {
        self.source
    }

    pub closed spec fn span_of(&self) -> Option<Span> {
        self.span
    }

    pub closed spec fn kind_of(&self) -> LabelKind {
        self.kind
    }

    pub closed spec fn message_of(&self) -> Seq<char> {
        self.message@
    }

    /// A label on the declaration responsible for a failure.
    pub fn primary(source: SourceId, span: Option<Span>, message: &str) -> (r: DiagnosticLabel)
        ensures
            r.source_of() == source && r.span_of() == span && r.kind_of() == LabelKind::Primary
                && r.message_of() == message@,
    {
        DiagnosticLabel {
            source,
            span,
            kind: LabelKind::Primary,
            message: String::from_str(message),
        }
    }

    /// A label on a related declaration.
    pub fn secondary(source: SourceId, span: Option<Span>, message: &str) -> (r: DiagnosticLabel)
        ensures
            r.source_of() == source && r.span_of() == span && r.kind_of()
                == LabelKind::Secondary && r.message_of() == message@,
    {
        DiagnosticLabel {
            source,
            span,
            kind: LabelKind::Secondary,
            message: String::from_str(message),
        }
    }

    /// Returns the labeled source.
    pub fn source(&self) -> (r: SourceId)
        ensures
            r == self.source_of(),
    {
        self.source
    }

    /// Returns the labeled byte span when available.
    pub fn span(&self) -> (r: Option<Span>)
        ensures
            r == self.span_of(),
    {
        self.span
    }

    /// Returns whether this is a primary or related label.
    pub fn kind(&self) -> (r: LabelKind)
        ensures
            r == self.kind_of(),
    {
        self.kind
    }

    /// Returns the label explanation.
    pub fn message(&self) -> (r: &str)
        ensures
            r@ == self.message_of(),
    {
        self.message.as_str()
    }
}

/// Presentation metadata parallel to one [`CompileError`].
#[derive(Clone, Debug, PartialEq, Eq)]
pub struct DiagnosticMetadata {
    labels: Vec<DiagnosticLabel>,
    suggestion: Option<String>,
}

impl DiagnosticMetadata {
    pub closed spec fn labels_of(&self) -> Seq<DiagnosticLabel> {
        self.labels@
    }

    pub closed spec fn suggestion_of(&self) -> Option<Seq<char>> {
        match self.suggestion {
            Some(s) => Some(s@),
            None => None,
        }
    }

    /// Returns labels in deterministic explanatory order.
    pub fn labels(&self) -> (r: &[DiagnosticLabel])
        ensures
            r@ == self.labels_of(),
    {
        self.labels.as_slice()
    }

    /// Returns a concise reliable suggestion when one is available.
    pub fn suggestion(&self) -> (r: Option<&str>)
        ensures
            match (r, self.suggestion_of()) {
                (Some(a), Some(b)) => a@ == b,
                (None, None) => true,
                _ => false,
            },
    {
        match &self.suggestion {
            Some(s) => Some(s.as_str()),
            None => None,
        }
    }
}

/// The name a source is shown under: its registered name, or `source#N`.
pub open spec fn source_name(sources: Seq<(SourceId, String)>, id: SourceId) -> Seq<char> {
    if exists|i: int| 0 <= i < sources.len() && #[trigger] sources[i].0 == id {
        sources[choose|i: int|
            0 <= i < sources.len() && #[trigger] sources[i].0 == id && forall|j: int|
                0 <= j < i ==> #[trigger] sources[j].0 != id].1@
    } else {
        "source#"@ + decimal(id.id() as nat)
    }
}

/// One rendered label line.
pub open spec fn label_line(sources: Seq<(SourceId, String)>, label: DiagnosticLabel) -> Seq<
    char,
> {
    let source = source_name(sources, label.source_of());
    let location = match label.span_of() {
        Some(span) => source + ":"@ + decimal(span.lo() as nat) + ".."@ + decimal(
            span.hi() as nat,
        ),
        None => source,
    };
    let kind = match label.kind_of() {
        LabelKind::Primary => "-->"@,
        LabelKind::Secondary => "::: "@,
    };
    "  "@ + kind + " "@ + location + ": "@ + label.message_of() + "\n"@
}

/// The rendered label lines of a diagnostic, in order.
pub open spec fn label_lines(sources: Seq<(SourceId, String)>, labels: Seq<DiagnosticLabel>) -> Seq<
    char,
>
    decreases labels.len(),
{
    if labels.len() == 0 {
        Seq::empty()
    } else {
        label_lines(sources, labels.drop_last()) + label_line(sources, labels.last())
    }
}

/// One rendered diagnostic: its heading, labels, and suggestion.
pub open spec fn diagnostic_block(
    sources: Seq<(SourceId, String)>,
    error: CompileError,
    metadata: DiagnosticMetadata,
) -> Seq<char> {
    "error["@ + error.code_text() + "]: "@ + error.message_text() + "\n"@ + label_lines(
        sources,
        metadata.labels_of(),
    ) + match metadata.suggestion_of() {
        Some(s) => "  help: "@ + s + "\n"@,
        None => Seq::empty(),
    }
}

/// All semantic compilation errors collected in deterministic order.
#[derive(Debug, PartialEq, Eq)]
pub struct CompileErrors {
    errors: Vec<CompileError>,
    metadata: Vec<DiagnosticMetadata>,
}

impl CompileErrors {
    #[verifier::type_invariant]
    closed spec fn inv(self) -> bool {
        self.errors@.len() == self.metadata@.len()
    }

    pub closed spec fn errors_of(&self) -> Seq<CompileError> {
        self.errors@
    }

    pub closed spec fn metadata_of(&self) -> Seq<DiagnosticMetadata> {
        self.metadata@
    }

    /// The rendered blocks, one per error.
    pub open spec fn blocks(&self, sources: Seq<(SourceId, String)>) -> Seq<Seq<char>> {
        Seq::new(
            self.errors_of().len(),
            |i: int| diagnostic_block(sources, self.errors_of()[i], self.metadata_of()[i]),
        )
    }

    /// Every error has its metadata.
    pub fn check_valid(&self)
        ensures
            self.errors_of().len() == self.metadata_of().len(),
    {
        proof {
            use_type_invariant(self);
        }
    }

    /// An empty collection.
    pub fn new() -> (r: CompileErrors)
        ensures
            r.errors_of().len() == 0 && r.metadata_of().len() == 0,
    {
        CompileErrors { errors: Vec::new(), metadata: Vec::new() }
    }

    /// Adds one error and its presentation metadata.
    pub fn push(&mut self, error: CompileError, labels: Vec<DiagnosticLabel>, suggestion: Option<
        String,
    >)
        ensures
            final(self).errors_of() == old(self).errors_of().push(error),
            final(self).metadata_of().len() == old(self).metadata_of().len() + 1,
            final(self).metadata_of().drop_last() == old(self).metadata_of(),
            final(self).metadata_of().last().labels_of() == labels@,
            final(self).metadata_of().last().suggestion_of() == match suggestion {
                Some(s) => Some(s@),
                None => None::<Seq<char>>,
            },
    {
        proof {
            use_type_invariant(&*self);
        }
        let mut taken = CompileErrors::new();
        std::mem::swap(&mut taken, self);
        let mut errors = taken.errors;
        let mut metadata = taken.metadata;
        errors.push(error);
        metadata.push(DiagnosticMetadata { labels, suggestion });
        *self = CompileErrors { errors, metadata };
        assert(self.metadata@.drop_last() =~= old(self).metadata@);
    }

    /// Moves every error of `other` after the errors of `self`.
    pub fn append(&mut self, other: CompileErrors)
        ensures
            final(self).errors_of() == old(self).errors_of() + other.errors_of(),
            final(self).metadata_of() == old(self).metadata_of() + other.metadata_of(),
    {
        proof {
            use_type_invariant(&*self);
            use_type_invariant(&other);
        }
        let mut taken = CompileErrors::new();
        std::mem::swap(&mut taken, self);
        let mut errors = taken.errors;
        let mut metadata = taken.metadata;
        let mut other_errors = other.errors;
        let mut other_metadata = other.metadata;
        errors.append(&mut other_errors);
        metadata.append(&mut other_metadata);
        *self = CompileErrors { errors, metadata };
    }

    /// Returns whether no error was collected.
    pub fn is_empty(&self) -> (r: bool)
        ensures
            r == (self.errors_of().len() == 0),
    {
        self.errors.len() == 0
    }

    /// Returns collected errors.
    pub fn errors(&self) -> (r: &[CompileError])
        ensures
            r@ == self.errors_of(),
    {
        self.errors.as_slice()
    }

    /// Returns source labels and suggestions parallel to [`Self::errors`].
    pub fn metadata(&self) -> (r: &[DiagnosticMetadata])
        ensures
            r@ == self.metadata_of(),
    {
        self.metadata.as_slice()
    }

    /// Renders diagnostics using source names supplied by the caller.
    pub fn render_with_source_names(&self, sources: &Vec<(SourceId, String)>) -> (r: String)
        ensures
            r@ == joined(self.blocks(sources@), "\n"@),
    {
        proof {
            use_type_invariant(self);
        }
        let ghost blocks = self.blocks(sources@);
        let mut r = String::new();
        let mut i: usize = 0;
        assert(blocks.take(0) =~= Seq::<Seq<char>>::empty());
        while i < self.errors.len()
            invariant
                self.errors@.len() == self.metadata@.len(),
                blocks == self.blocks(sources@),
                i <= self.errors@.len(),
                r@ == joined(blocks.take(i as int), "\n"@),
            decreases self.errors@.len() - i,
        {
            proof {
                lemma_joined_step(blocks, "\n"@, i as int);
            }
            if i > 0 {
                r.append("\n");
            }
            let ghost before = r@;
            write_block(&mut r, &self.errors[i], &self.metadata[i], sources);
            proof {
                assert(blocks[i as int] == diagnostic_block(
                    sources@,
                    self.errors@[i as int],
                    self.metadata@[i as int],
                ));
            }
            i = i + 1;
        }
        assert(blocks.take(self.errors@.len() as int) =~= blocks);
        r
    }

    /// Renders diagnostics, naming sources by their identities.
    pub fn to_string(&self) -> (r: String)
        ensures
            r@ == joined(self.blocks(Seq::empty()), "\n"@),
    {
        let sources: Vec<(SourceId, String)> = Vec::new();
        self.render_with_source_names(&sources)
    }
}

fn lookup_source(sources: &Vec<(SourceId, String)>, id: SourceId) -> (r: String)
    ensures
        r@ == source_name(sources@, id),
{
    let mut i: usize = 0;
    while i < sources.len()
        invariant
            i <= sources@.len(),
            forall|j: int| 0 <= j < i ==> #[trigger] sources@[j].0 != id,
        decreases sources@.len() - i,
    {
        if sources[i].0.same(id) {
            proof {
                let k = choose|k: int|
                    0 <= k < sources@.len() && #[trigger] sources@[k].0 == id && forall|j: int|
                        0 <= j < k ==> #[trigger] sources@[j].0 != id;
                if k < i {
                } else if k > i {
                    assert(sources@[i as int].0 == id);
                }
            }
            return sources[i].1.clone();
        }
        i = i + 1;
    }
    let mut r = String::from_str("source#");
    push_decimal(&mut r, id.index() as usize);
    r
}

fn write_label(out: &mut String, label: &DiagnosticLabel, sources: &Vec<(SourceId, String)>)
    ensures
        final(out)@ == old(out)@ + label_line(sources@, *label),
{
    let source = lookup_source(sources, label.source);
    out.append("  ");
    match label.kind {
        LabelKind::Primary => out.append("-->"),
        LabelKind::Secondary => out.append("::: "),
    }
    out.append(" ");
    out.append(source.as_str());
    match label.span {
        Some(span) => {
            out.append(":");
            push_decimal(out, span.start());
            out.append("..");
            push_decimal(out, span.end());
        },
        None => {},
    }
    out.append(": ");
    out.append(label.message.as_str());
    out.append("\n");
    assert(final(out)@ =~= old(out)@ + label_line(sources@, *label));
}

fn write_block(
    out: &mut String,
    error: &CompileError,
    metadata: &DiagnosticMetadata,
    sources: &Vec<(SourceId, String)>,
)
    ensures
        final(out)@ == old(out)@ + diagnostic_block(sources@, *error, *metadata),
{
    out.append("error[");
    out.append(error.code());
    out.append("]: ");
    let message = error.to_string();
    out.append(message.as_str());
    out.append("\n");
    let ghost head = out@;
    let mut i: usize = 0;
    assert(metadata.labels@.take(0) =~= Seq::<DiagnosticLabel>::empty());
    while i < metadata.labels.len()
        invariant
            i <= metadata.labels@.len(),
            out@ == head + label_lines(sources@, metadata.labels@.take(i as int)),
        decreases metadata.labels@.len() - i,
    {
        write_label(out, &metadata.labels[i], sources);
        proof {
            assert(metadata.labels@.take(i + 1).drop_last() =~= metadata.labels@.take(i as int));
            assert(out@ =~= head + label_lines(sources@, metadata.labels@.take(i + 1)));
        }
        i = i + 1;
    }
    assert(metadata.labels@.take(metadata.labels@.len() as int) =~= metadata.labels@);
    match &metadata.suggestion {
        Some(s) => {
            out.append("  help: ");
            out.append(s.as_str());
            out.append("\n");
        },
        None => {},
    }
    assert(final(out)@ =~= old(out)@ + diagnostic_block(sources@, *error, *metadata));
}

} // verus!
