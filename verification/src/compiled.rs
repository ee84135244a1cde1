//! Canonical compiler output: resolved tokens and fully expanded styles.
use crate::name_map::NameMap;
use crate::path_map::{path_entries_map, PathMap};
use crate::primitives::{Color, Dimension, DimensionUnit, Number};
use crate::style_model::{Name, ResourceRef};
use crate::token_model::TokenValue;
use crate::token_path::TokenPath;
use vstd::prelude::*;
use vstd::std_specs::iter::IteratorSpec;

verus! {

/// Canonically ordered token values after semantic resolution.
#[derive(Debug, PartialEq, Eq)]
pub struct ResolvedTokens {
    values: PathMap<TokenValue>,
}

impl View for ResolvedTokens {
    type V = Map<Seq<Seq<char>>, TokenValue>;

    closed spec fn view(&self) -> Map<Seq<Seq<char>>, TokenValue> {
        self.values@
    }
}

impl ResolvedTokens {
    /// The entries in path order.
    pub closed spec fn ordered(&self) -> Seq<(TokenPath, TokenValue)> {
        self.values.ordered()
    }

    /// Creates a registry from path/value pairs; a later pair replaces an
    /// earlier one with the same path.
    pub fn new(values: Vec<(TokenPath, TokenValue)>) -> (r: ResolvedTokens)
        ensures
            r@ == path_entries_map(values@),
    {
        ResolvedTokens { values: PathMap::from_entries(values) }
    }

    /// Wraps an already built path map.
    pub fn from_map(values: PathMap<TokenValue>) -> (r: ResolvedTokens)
        ensures
            r@ == values@,
            r.ordered() == values.ordered(),
    {
        ResolvedTokens { values }
    }

    /// Returns a resolved token value by path.
    pub fn get(&self, path: &TokenPath) -> (r: Option<&TokenValue>)
        ensures
            match r {
                Some(v) => self@.contains_key(path@) && *v == self@[path@],
                None => !self@.contains_key(path@),
            },
    {
        self.values.get(path)
    }

    /// Returns the resolved entries in token-path order.
    pub fn entries(&self) -> (r: &[(TokenPath, TokenValue)])
        ensures
            r@ == self.ordered(),
    {
        self.values.entries()
    }

    /// Iterates over resolved values in token-path order.
    pub fn iter(&self) -> (r: std::slice::Iter<'_, (TokenPath, TokenValue)>)
        ensures
            r.remaining() == self.ordered().as_ref(),
    {
        broadcast use vstd::std_specs::slice::group_slice_axioms;

        self.values.entries().iter()
    }

    /// Returns the number of resolved values.
    pub fn len(&self) -> (r: usize)
        ensures
            r == self@.len(),
    {
        self.values.len()
    }

    /// Returns whether the registry has no values.
    pub fn is_empty(&self) -> (r: bool)
        ensures
            r == (self@.len() == 0),
    {
        self.values.is_empty()
    }
}

/// Discriminant for a compiled property value.
#[derive(Clone, Copy, Debug, PartialEq, Eq)]
pub enum CompiledValueKind {
    /// Boolean value.
    Boolean,
    /// sRGB color value.
    Color,
    /// Pixel or rem dimension.
    Dimension,
    /// Unitless number.
    Number,
    /// UTF-8 string.
    String,
    /// Opaque backend resource reference.
    Resource,
}

impl CompiledValueKind {
    /// The variant name, as `Debug` prints it.
    pub open spec fn name_text(self) -> Seq<char> {
        match self {
            CompiledValueKind::Boolean => "Boolean"@,
            CompiledValueKind::Color => "Color"@,
            CompiledValueKind::Dimension => "Dimension"@,
            CompiledValueKind::Number => "Number"@,
            CompiledValueKind::String => "String"@,
            CompiledValueKind::Resource => "Resource"@,
        }
    }

    /// Returns the variant name.
    pub fn name(self) -> (r: &'static str)
        ensures
            r@ == self.name_text(),
    {
        match self {
            CompiledValueKind::Boolean => "Boolean",
            CompiledValueKind::Color => "Color",
            CompiledValueKind::Dimension => "Dimension",
            CompiledValueKind::Number => "Number",
            CompiledValueKind::String => "String",
            CompiledValueKind::Resource => "Resource",
        }
    }

    /// Whether two kinds are the same.
    pub fn same(self, other: CompiledValueKind) -> (r: bool)
        ensures
            r == (self == other),
    {
        match (self, other) {
            (CompiledValueKind::Boolean, CompiledValueKind::Boolean) => true,
            (CompiledValueKind::Color, CompiledValueKind::Color) => true,
            (CompiledValueKind::Dimension, CompiledValueKind::Dimension) => true,
            (CompiledValueKind::Number, CompiledValueKind::Number) => true,
            (CompiledValueKind::String, CompiledValueKind::String) => true,
            (CompiledValueKind::Resource, CompiledValueKind::Resource) => true,
            _ => false,
        }
    }
}

/// Value available to a backend after semantic compilation.
#[derive(Debug, PartialEq, Eq)]
pub enum CompiledValue {
    /// Boolean value.
    Boolean(bool),
    /// sRGB color value.
    Color(Color),
    /// Pixel or rem dimension.
    Dimension(Dimension),
    /// Unitless number.
    Number(Number),
    /// UTF-8 string.
    String(String),
    /// Opaque backend resource reference.
    Resource(ResourceRef),
}

/// The kind of a compiled value.
pub open spec fn compiled_kind(v: CompiledValue) -> CompiledValueKind {
    match v {
        CompiledValue::Boolean(_) => CompiledValueKind::Boolean,
        CompiledValue::Color(_) => CompiledValueKind::Color,
        CompiledValue::Dimension(_) => CompiledValueKind::Dimension,
        CompiledValue::Number(_) => CompiledValueKind::Number,
        CompiledValue::String(_) => CompiledValueKind::String,
        CompiledValue::Resource(_) => CompiledValueKind::Resource,
    }
}

/// A token value as a compiled value.
pub open spec fn from_token_value(v: TokenValue) -> CompiledValue {
    match v {
        TokenValue::Boolean(b) => CompiledValue::Boolean(b),
        TokenValue::Color(c) => CompiledValue::Color(c),
        TokenValue::Dimension(d) => CompiledValue::Dimension(d),
        TokenValue::Number(n) => CompiledValue::Number(n),
        TokenValue::String(s) => CompiledValue::String(s),
    }
}

/// Whether two compiled values hold the same value: the same kind and the
/// same contents.
pub open spec fn same_value(a: CompiledValue, b: CompiledValue) -> bool {
    match (a, b) {
        (CompiledValue::Boolean(x), CompiledValue::Boolean(y)) => x == y,
        (CompiledValue::Color(x), CompiledValue::Color(y)) => x@ == y@,
        (CompiledValue::Dimension(x), CompiledValue::Dimension(y)) => x.magnitude() == y.magnitude()
            && x.unit_of() == y.unit_of(),
        (CompiledValue::Number(x), CompiledValue::Number(y)) => x@ == y@,
        (CompiledValue::String(x), CompiledValue::String(y)) => x@ == y@,
        (CompiledValue::Resource(x), CompiledValue::Resource(y)) => x@ == y@,
        _ => false,
    }
}

/// The same value is an equivalence that never joins values of two kinds:
/// two colors are the same exactly when red, green, blue and alpha all
/// agree, and two dimensions exactly when magnitude and unit agree.
pub proof fn lemma_same_value_separates(a: CompiledValue, b: CompiledValue)
    ensures
        same_value(a, a),
        same_value(a, b) == same_value(b, a),
        same_value(a, b) ==> compiled_kind(a) == compiled_kind(b),
        match (a, b) {
            (CompiledValue::Color(x), CompiledValue::Color(y)) => same_value(a, b) <==> (x@.red == y@.red
                && x@.green == y@.green && x@.blue == y@.blue && x@.alpha == y@.alpha),
            (CompiledValue::Dimension(x), CompiledValue::Dimension(y)) => same_value(a, b) <==> (
            x.magnitude() == y.magnitude() && x.unit_of() == y.unit_of()),
            _ => true,
        },
{
}

impl CompiledValue {
    /// Returns the value kind used to validate property overrides.
    pub fn kind(&self) -> (r: CompiledValueKind)
        ensures
            r == compiled_kind(*self),
    {
        match self {
            CompiledValue::Boolean(_) => CompiledValueKind::Boolean,
            CompiledValue::Color(_) => CompiledValueKind::Color,
            CompiledValue::Dimension(_) => CompiledValueKind::Dimension,
            CompiledValue::Number(_) => CompiledValueKind::Number,
            CompiledValue::String(_) => CompiledValueKind::String,
            CompiledValue::Resource(_) => CompiledValueKind::Resource,
        }
    }

    /// Whether `self` and `other` hold the same value.
    pub fn same_as(&self, other: &CompiledValue) -> (r: bool)
        ensures
            r == same_value(*self, *other),
    {
        match (self, other) {
            (CompiledValue::Boolean(x), CompiledValue::Boolean(y)) => *x == *y,
            (CompiledValue::Color(x), CompiledValue::Color(y)) => {
                let a = x.components();
                let b = y.components();
                a[0].get() == b[0].get() && a[1].get() == b[1].get() && a[2].get() == b[2].get()
                    && x.alpha().get() == y.alpha().get()
            },
            (CompiledValue::Dimension(x), CompiledValue::Dimension(y)) => {
                let same_unit = match (x.unit(), y.unit()) {
                    (DimensionUnit::Pixel, DimensionUnit::Pixel) => true,
                    (DimensionUnit::Rem, DimensionUnit::Rem) => true,
                    _ => false,
                };
                x.value().get() == y.value().get() && same_unit
            },
            (CompiledValue::Number(x), CompiledValue::Number(y)) => x.get() == y.get(),
            (CompiledValue::String(x), CompiledValue::String(y)) => crate::text::text_eq(
                x.as_str(),
                y.as_str(),
            ),
            (CompiledValue::Resource(x), CompiledValue::Resource(y)) => crate::text::text_eq(
                x.as_str(),
                y.as_str(),
            ),
            _ => false,
        }
    }

    /// Converts a resolved token value.
    pub fn from_token(value: TokenValue) -> (r: CompiledValue)
        ensures
            r == from_token_value(value),
    {
        match value {
            TokenValue::Boolean(b) => CompiledValue::Boolean(b),
            TokenValue::Color(c) => CompiledValue::Color(c),
            TokenValue::Dimension(d) => CompiledValue::Dimension(d),
            TokenValue::Number(n) => CompiledValue::Number(n),
            TokenValue::String(s) => CompiledValue::String(s),
        }
    }

    /// Copies the value.
    pub fn duplicate(&self) -> (r: CompiledValue)
        ensures
            r == *self,
    {
        match self {
            CompiledValue::Boolean(b) => CompiledValue::Boolean(*b),
            CompiledValue::Color(c) => CompiledValue::Color(*c),
            CompiledValue::Dimension(d) => CompiledValue::Dimension(*d),
            CompiledValue::Number(n) => CompiledValue::Number(*n),
            CompiledValue::String(s) => CompiledValue::String(s.clone()),
            CompiledValue::Resource(r) => CompiledValue::Resource(r.duplicate()),
        }
    }
}

impl Clone for CompiledValue {
    fn clone(&self) -> (r: Self)
        ensures
            r == *self,
    {
        self.duplicate()
    }
}

/// Explicit state with its fully expanded property set.
#[derive(Debug, PartialEq, Eq)]
pub struct CompiledState {
    name: Name,
    properties: NameMap<CompiledValue>,
}

impl CompiledState {
    pub closed spec fn name_of(&self) -> Name {
        self.name
    }

    pub closed spec fn properties_of(&self) -> NameMap<CompiledValue> {
        self.properties
    }

    /// Creates a compiled state.
    pub fn new(name: Name, properties: NameMap<CompiledValue>) -> (r: CompiledState)
        ensures
            r.name_of() == name && r.properties_of() == properties,
    {
        CompiledState { name, properties }
    }

    /// Returns the state name.
    pub fn name(&self) -> (r: &Name)
        ensures
            *r == self.name_of(),
    {
        &self.name
    }

    /// Returns fully expanded properties in name order.
    pub fn properties(&self) -> (r: &NameMap<CompiledValue>)
        ensures
            *r == self.properties_of(),
    {
        &self.properties
    }
}

/// Canonical component style ready for backend mapping.
#[derive(Debug, PartialEq, Eq)]
pub struct CompiledStyle {
    name: Name,
    target: Name,
    properties: NameMap<CompiledValue>,
    states: NameMap<CompiledState>,
}

impl CompiledStyle {
    pub closed spec fn name_of(&self) -> Name {
        self.name
    }

    pub closed spec fn target_of(&self) -> Name {
        self.target
    }

    pub closed spec fn properties_of(&self) -> NameMap<CompiledValue> {
        self.properties
    }

    pub closed spec fn states_of(&self) -> NameMap<CompiledState> {
        self.states
    }

    /// Creates a compiled component style.
    pub fn new(
        name: Name,
        target: Name,
        properties: NameMap<CompiledValue>,
        states: NameMap<CompiledState>,
    ) -> (r: CompiledStyle)
        ensures
            r.name_of() == name && r.target_of() == target && r.properties_of() == properties
                && r.states_of() == states,
    {
        CompiledStyle { name, target, properties, states }
    }

    /// Returns the style or type-variation name.
    pub fn name(&self) -> (r: &Name)
        ensures
            *r == self.name_of(),
    {
        &self.name
    }

    /// Returns the backend target type.
    pub fn target(&self) -> (r: &Name)
        ensures
            *r == self.target_of(),
    {
        &self.target
    }

    /// Returns base properties in name order.
    pub fn properties(&self) -> (r: &NameMap<CompiledValue>)
        ensures
            *r == self.properties_of(),
    {
        &self.properties
    }

    /// Returns explicit states in name order.
    pub fn states(&self) -> (r: &NameMap<CompiledState>)
        ensures
            *r == self.states_of(),
    {
        &self.states
    }
}

/// Canonical theme produced by semantic compilation.
#[derive(Debug, PartialEq, Eq)]
pub struct CompiledTheme {
    name: Name,
    tokens: ResolvedTokens,
    styles: NameMap<CompiledStyle>,
}

impl CompiledTheme {
    pub closed spec fn name_of(&self) -> Name {
        self.name
    }

    pub closed spec fn tokens_of(&self) -> ResolvedTokens {
        self.tokens
    }

    pub closed spec fn styles_of(&self) -> NameMap<CompiledStyle> {
        self.styles
    }

    /// Creates a compiled theme.
    pub fn new(name: Name, tokens: ResolvedTokens, styles: NameMap<CompiledStyle>) -> (r:
        CompiledTheme)
        ensures
            r.name_of() == name && r.tokens_of() == tokens && r.styles_of() == styles,
    {
        CompiledTheme { name, tokens, styles }
    }

    /// Returns the theme name.
    pub fn name(&self) -> (r: &Name)
        ensures
            *r == self.name_of(),
    {
        &self.name
    }

    /// Returns the resolved design tokens.
    pub fn tokens(&self) -> (r: &ResolvedTokens)
        ensures
            *r == self.tokens_of(),
    {
        &self.tokens
    }

    /// Returns component styles in name order.
    pub fn styles(&self) -> (r: &NameMap<CompiledStyle>)
        ensures
            *r == self.styles_of(),
    {
        &self.styles
    }
}

} // verus!
