//! Component style declarations decoded from style sources.
use crate::primitives::Number;
use crate::source::{SourceId, Span};
use crate::text::{chars_less, has_padding, text_eq, text_has_padding, text_less, IntoText};
use crate::token_path::TokenPath;
use vstd::prelude::*;

verus! {

/// A usable declaration name: non-empty, without surrounding white space.
pub open spec fn valid_name(s: Seq<char>) -> bool {
    s.len() > 0 && !has_padding(s)
}

/// Non-empty name used by theme, style, state, and property declarations.
#[derive(Debug, PartialEq, Eq, Hash, PartialOrd, Ord)]
pub struct Name {
    text: String,
}

impl View for Name {
    type V = Seq<char>;

    closed spec fn view(&self) -> Seq<char> {
        self.text@
    }
}

/// Error returned for an invalid declaration name.
#[derive(Clone, Copy, Debug, PartialEq, Eq)]
pub enum InvalidName {
    /// The name is empty.
    Empty,
    /// The name starts or ends with whitespace.
    SurroundingWhitespace,
}

impl InvalidName {
    pub open spec fn message_text(self) -> Seq<char> {
        match self {
            InvalidName::Empty => "name is empty"@,
            InvalidName::SurroundingWhitespace => "name cannot start or end with whitespace"@,
        }
    }

    /// Renders the error message.
    pub fn to_string(&self) -> (r: String)
        ensures
            r@ == self.message_text(),
    {
        match self {
            InvalidName::Empty => String::from_str("name is empty"),
            InvalidName::SurroundingWhitespace => String::from_str(
                "name cannot start or end with whitespace",
            ),
        }
    }
}

/// The outcome of validating a name.
pub open spec fn name_outcome(s: Seq<char>) -> Result<Seq<char>, InvalidName> {
    if s.len() == 0 {
        Err(InvalidName::Empty)
    } else if has_padding(s) {
        Err(InvalidName::SurroundingWhitespace)
    } else {
        Ok(s)
    }
}

impl Name {
    #[verifier::type_invariant]
    closed spec fn inv(self) -> bool {
        valid_name(self.text@)
    }

    /// Creates a name after rejecting empty or surrounding-whitespace values.
    pub fn new<T: IntoText>(value: T) -> (r: Result<Name, InvalidName>)
        ensures
            match (r, name_outcome(value.text_view())) {
                (Ok(n), Ok(s)) => n@ == s,
                (Err(e), Err(f)) => e == f,
                _ => false,
            },
    {
        let text = value.into_text();
        if text.unicode_len() == 0 {
            return Err(InvalidName::Empty);
        }
        if text_has_padding(text.as_str()) {
            return Err(InvalidName::SurroundingWhitespace);
        }
        Ok(Name { text })
    }

    /// Returns the name as text.
    pub fn as_str(&self) -> (r: &str)
        ensures
            r@ == self@,
    {
        self.text.as_str()
    }

    /// Every name is valid.
    pub fn check_valid(&self)
        ensures
            valid_name(self@),
    {
        proof {
            use_type_invariant(self);
        }
    }

    /// Whether two names hold the same text.
    pub fn same(&self, other: &Name) -> (r: bool)
        ensures
            r == (self@ == other@),
    {
        text_eq(self.text.as_str(), other.text.as_str())
    }

    /// Whether `self` sorts before `other`.
    pub fn less(&self, other: &Name) -> (r: bool)
        ensures
            r == chars_less(self@, other@),
    {
        text_less(self.text.as_str(), other.text.as_str())
    }

    /// Copies the name.
    pub fn duplicate(&self) -> (r: Name)
        ensures
            r == *self,
            r@ == self@,
    {
        proof {
            use_type_invariant(self);
        }
        Name { text: self.text.clone() }
    }

    /// Renders the name.
    pub fn to_string(&self) -> (r: String)
        ensures
            r@ == self@,
    {
        self.text.clone()
    }
}

impl Clone for Name {
    fn clone(&self) -> (r: Self)
        ensures
            r == *self,
    {
        self.duplicate()
    }
}

/// Opaque resource reference retained for backend resolution.
///
/// The core does not assign URI schemes or filesystem semantics to this
/// value. A backend is responsible for validating and resolving the reference
/// in its own resource namespace.
#[derive(Debug, PartialEq, Eq, Hash, PartialOrd, Ord)]
pub struct ResourceRef {
    text: String,
}

impl View for ResourceRef {
    type V = Seq<char>;

    closed spec fn view(&self) -> Seq<char> {
        self.text@
    }
}

/// Error returned for an unusable backend resource reference.
#[derive(Clone, Copy, Debug, PartialEq, Eq)]
pub enum InvalidResourceRef {
    /// The reference is empty.
    Empty,
    /// The reference starts or ends with whitespace.
    SurroundingWhitespace,
}

impl InvalidResourceRef {
    pub open spec fn message_text(self) -> Seq<char> {
        match self {
            InvalidResourceRef::Empty => "resource reference is empty"@,
            InvalidResourceRef::SurroundingWhitespace =>
                "resource reference cannot start or end with whitespace"@,
        }
    }

    /// Renders the error message.
    pub fn to_string(&self) -> (r: String)
        ensures
            r@ == self.message_text(),
    {
        match self {
            InvalidResourceRef::Empty => String::from_str("resource reference is empty"),
            InvalidResourceRef::SurroundingWhitespace => String::from_str(
                "resource reference cannot start or end with whitespace",
            ),
        }
    }
}

impl ResourceRef {
    #[verifier::type_invariant]
    closed spec fn inv(self) -> bool {
        valid_name(self.text@)
    }

    /// Creates a non-empty resource reference without surrounding whitespace.
    pub fn new<T: IntoText>(value: T) -> (r: Result<ResourceRef, InvalidResourceRef>)
        ensures
            match (r, name_outcome(value.text_view())) {
                (Ok(n), Ok(s)) => n@ == s,
                (Err(InvalidResourceRef::Empty), Err(InvalidName::Empty)) => true,
                (
                    Err(InvalidResourceRef::SurroundingWhitespace),
                    Err(InvalidName::SurroundingWhitespace),
                ) => true,
                _ => false,
            },
    {
        let text = value.into_text();
        if text.unicode_len() == 0 {
            return Err(InvalidResourceRef::Empty);
        }
        if text_has_padding(text.as_str()) {
            return Err(InvalidResourceRef::SurroundingWhitespace);
        }
        Ok(ResourceRef { text })
    }

    /// Returns the backend-defined reference text.
    pub fn as_str(&self) -> (r: &str)
        ensures
            r@ == self@,
    {
        self.text.as_str()
    }

    /// Copies the reference.
    pub fn duplicate(&self) -> (r: ResourceRef)
        ensures
            r == *self,
            r@ == self@,
    {
        proof {
            use_type_invariant(self);
        }
        ResourceRef { text: self.text.clone() }
    }

    /// Renders the reference.
    pub fn to_string(&self) -> (r: String)
        ensures
            r@ == self@,
    {
        self.text.clone()
    }
}

impl Clone for ResourceRef {
    fn clone(&self) -> (r: Self)
        ensures
            r == *self,
    {
        self.duplicate()
    }
}

/// Unresolved value assigned to a component property.
#[derive(Clone, Debug, PartialEq, Eq)]
pub enum StyleValue {
    /// Boolean literal.
    Boolean(bool),
    /// Unitless numeric literal.
    Number(Number),
    /// UTF-8 string literal.
    String(String),
    /// Reference to a design token.
    Token(TokenPath),
    /// Opaque reference resolved by the selected backend.
    Resource(ResourceRef),
}

/// One named property assignment.
#[derive(Clone, Debug, PartialEq, Eq)]
pub struct PropertyAssignment {
    name: Name,
    value: StyleValue,
    span: Option<Span>,
}

impl PropertyAssignment {
    pub closed spec fn name_of(self) -> Name {
        self.name
    }

    pub closed spec fn value_of(self) -> StyleValue {
        self.value
    }

    pub closed spec fn span_of(self) -> Option<Span> {
        self.span
    }

    /// Creates a property assignment.
    pub fn new(name: Name, value: StyleValue) -> (r: PropertyAssignment)
        ensures
            r.name_of() == name && r.value_of() == value && r.span_of() is None,
    {
        PropertyAssignment { name, value, span: None }
    }

    /// Creates a property assignment declared at `span`.
    pub fn spanned(name: Name, value: StyleValue, span: Span) -> (r: PropertyAssignment)
        ensures
            r.name_of() == name && r.value_of() == value && r.span_of() == Some(span),
    {
        PropertyAssignment { name, value, span: Some(span) }
    }

    /// Returns the property name.
    pub fn name(&self) -> (r: &Name)
        ensures
            *r == self.name_of(),
    {
        &self.name
    }

    /// Returns the unresolved property value.
    pub fn value(&self) -> (r: &StyleValue)
        ensures
            *r == self.value_of(),
    {
        &self.value
    }

    /// Returns the declaration span when the source provided one.
    pub fn span(&self) -> (r: Option<Span>)
        ensures
            r == self.span_of(),
    {
        self.span
    }
}

/// Explicit control state and its property overrides.
#[derive(Clone, Debug, PartialEq, Eq)]
pub struct StyleState {
    name: Name,
    properties: Vec<PropertyAssignment>,
    span: Option<Span>,
}

impl StyleState {
    pub closed spec fn name_of(self) -> Name {
        self.name
    }

    pub closed spec fn properties_of(self) -> Seq<PropertyAssignment> {
        self.properties@
    }

    pub closed spec fn span_of(self) -> Option<Span> {
        self.span
    }

    /// Creates an explicit state.
    pub fn new(name: Name, properties: Vec<PropertyAssignment>) -> (r: StyleState)
        ensures
            r.name_of() == name && r.properties_of() == properties@ && r.span_of() is None,
    {
        StyleState { name, properties, span: None }
    }

    /// Creates an explicit state declared at `span`.
    pub fn spanned(name: Name, properties: Vec<PropertyAssignment>, span: Span) -> (r: StyleState)
        ensures
            r.name_of() == name && r.properties_of() == properties@ && r.span_of() == Some(span),
    {
        StyleState { name, properties, span: Some(span) }
    }

    /// Returns the state name.
    pub fn name(&self) -> (r: &Name)
        ensures
            *r == self.name_of(),
    {
        &self.name
    }

    /// Returns property overrides in source order.
    pub fn properties(&self) -> (r: &[PropertyAssignment])
        ensures
            r@ == self.properties_of(),
    {
        self.properties.as_slice()
    }

    /// Returns the declaration span when the source provided one.
    pub fn span(&self) -> (r: Option<Span>)
        ensures
            r == self.span_of(),
    {
        self.span
    }
}

/// Component style and its explicit states.
#[derive(Clone, Debug, PartialEq, Eq)]
pub struct StyleDefinition {
    name: Name,
    target: Name,
    extends: Option<Name>,
    properties: Vec<PropertyAssignment>,
    states: Vec<StyleState>,
    span: Option<Span>,
}

impl StyleDefinition {
    pub closed spec fn name_of(self) -> Name {
        self.name
    }

    pub closed spec fn target_of(self) -> Name {
        self.target
    }

    pub closed spec fn extends_of(self) -> Option<Name> {
        self.extends
    }

    pub closed spec fn properties_of(self) -> Seq<PropertyAssignment> {
        self.properties@
    }

    pub closed spec fn states_of(self) -> Seq<StyleState> {
        self.states@
    }

    pub closed spec fn span_of(self) -> Option<Span> {
        self.span
    }

    /// Creates a component style.
    pub fn new(
        name: Name,
        target: Name,
        extends: Option<Name>,
        properties: Vec<PropertyAssignment>,
        states: Vec<StyleState>,
    ) -> (r: StyleDefinition)
        ensures
            r.name_of() == name && r.target_of() == target && r.extends_of() == extends
                && r.properties_of() == properties@ && r.states_of() == states@ && r.span_of() is None,
    {
        StyleDefinition { name, target, extends, properties, states, span: None }
    }

    /// Creates a component style declared at `span`.
    pub fn spanned(
        name: Name,
        target: Name,
        extends: Option<Name>,
        properties: Vec<PropertyAssignment>,
        states: Vec<StyleState>,
        span: Span,
    ) -> (r: StyleDefinition)
        ensures
            r.name_of() == name && r.target_of() == target && r.extends_of() == extends
                && r.properties_of() == properties@ && r.states_of() == states@ && r.span_of()
                == Some(span),
    {
        StyleDefinition { name, target, extends, properties, states, span: Some(span) }
    }

    /// Returns the style or type-variation name.
    pub fn name(&self) -> (r: &Name)
        ensures
            *r == self.name_of(),
    {
        &self.name
    }

    /// Returns the backend target type selected by the style.
    pub fn target(&self) -> (r: &Name)
        ensures
            *r == self.target_of(),
    {
        &self.target
    }

    /// Returns the optional parent style name.
    pub fn extends(&self) -> (r: Option<&Name>)
        ensures
            match (r, self.extends_of()) {
                (Some(a), Some(b)) => *a == b,
                (None, None) => true,
                _ => false,
            },
    {
        match &self.extends {
            Some(parent) => Some(parent),
            None => None,
        }
    }

    /// Returns base property assignments in source order.
    pub fn properties(&self) -> (r: &[PropertyAssignment])
        ensures
            r@ == self.properties_of(),
    {
        self.properties.as_slice()
    }

    /// Returns explicit states in source order.
    pub fn states(&self) -> (r: &[StyleState])
        ensures
            r@ == self.states_of(),
    {
        self.states.as_slice()
    }

    /// Returns the declaration span when the source provided one.
    pub fn span(&self) -> (r: Option<Span>)
        ensures
            r == self.span_of(),
    {
        self.span
    }
}

/// Component styles and source declarations decoded from one style source.
///
/// A theme document names its theme; a fragment (a source holding only
/// declarations) takes the theme of the document that imports it.
#[derive(Clone, Debug, PartialEq, Eq)]
pub struct StyleDocument {
    source: SourceId,
    name: Option<Name>,
    token_sources: Vec<String>,
    imports: Vec<String>,
    styles: Vec<StyleDefinition>,
}

impl StyleDocument {
    pub closed spec fn source_of(self) -> SourceId {
        self.source
    }

    pub closed spec fn theme_of(self) -> Option<Name> {
        self.name
    }

    pub closed spec fn token_sources_of(self) -> Seq<String> {
        self.token_sources@
    }

    pub closed spec fn imports_of(self) -> Seq<String> {
        self.imports@
    }

    pub closed spec fn styles_of(self) -> Seq<StyleDefinition> {
        self.styles@
    }

    /// Creates a theme document while preserving declaration order.
    pub fn new(
        source: SourceId,
        name: Name,
        token_sources: Vec<String>,
        imports: Vec<String>,
        styles: Vec<StyleDefinition>,
    ) -> (r: StyleDocument)
        ensures
            r.source_of() == source && r.theme_of() == Some(name) && r.token_sources_of()
                == token_sources@ && r.imports_of() == imports@ && r.styles_of() == styles@,
    {
        StyleDocument { source, name: Some(name), token_sources, imports, styles }
    }

    /// Creates a fragment document, which takes its theme from its importer.
    pub fn fragment(
        source: SourceId,
        token_sources: Vec<String>,
        imports: Vec<String>,
        styles: Vec<StyleDefinition>,
    ) -> (r: StyleDocument)
        ensures
            r.source_of() == source && r.theme_of() is None && r.token_sources_of()
                == token_sources@ && r.imports_of() == imports@ && r.styles_of() == styles@,
    {
        StyleDocument { source, name: None, token_sources, imports, styles }
    }

    /// Returns the source identity.
    pub fn source(&self) -> (r: SourceId)
        ensures
            r == self.source_of(),
    {
        self.source
    }

    /// Returns the theme name of a theme document.
    pub fn name(&self) -> (r: &Name)
        requires
            self.theme_of() is Some,
        ensures
            *r == self.theme_of()->0,
    {
        self.name.as_ref().unwrap()
    }

    /// Returns the theme name, or `None` for a fragment.
    pub fn theme(&self) -> (r: Option<&Name>)
        ensures
            match (r, self.theme_of()) {
                (Some(a), Some(b)) => *a == b,
                (None, None) => true,
                _ => false,
            },
    {
        match &self.name {
            Some(name) => Some(name),
            None => None,
        }
    }

    /// Returns declared token JSON paths in source order.
    pub fn token_sources(&self) -> (r: &[String])
        ensures
            r@ == self.token_sources_of(),
    {
        self.token_sources.as_slice()
    }

    /// Returns imported style source paths in source order.
    pub fn imports(&self) -> (r: &[String])
        ensures
            r@ == self.imports_of(),
    {
        self.imports.as_slice()
    }

    /// Returns component styles in source order.
    pub fn styles(&self) -> (r: &[StyleDefinition])
        ensures
            r@ == self.styles_of(),
    {
        self.styles.as_slice()
    }
}

} // verus!
