//! Portable build planning for the Godot backend.
//!
//! A compiled theme is turned into a plan that a running Godot engine can
//! build a native `Theme` resource from. Planning checks only what holds
//! without the engine: each value is normalized to a color, a whole number
//! of pixels, or a project resource path, and is given the native item
//! categories that may accept it. Every independent failure is reported.
use crate::compiled::{same_value, CompiledState, CompiledStyle, CompiledTheme, CompiledValue};
use crate::diagnostic::{Diagnostic, Errors};
use crate::name_map::{entries_map, NameMap};
use crate::primitives::{exponent_field, Color, DimensionUnit, EXPONENT_MASK};
use crate::style_model::{Name, ResourceRef};
use crate::text::{owned, starts_with, text_starts_with};
use vstd::arithmetic::power2::{
    lemma2_to64, lemma2_to64_rest, lemma_pow2_pos, lemma_pow2_strictly_increases, pow2,
};
use vstd::prelude::*;

verus! {

/// Bit mask of the fraction field of a binary64 pattern.
pub const FRACTION_MASK: u64 = 0x000f_ffff_ffff_ffff;

/// The implicit leading bit of a normal binary64 significand.
pub const HIDDEN_BIT: u64 = 0x0010_0000_0000_0000;

/// The integer denoted by the binary64 pattern `bits`, when it denotes one.
///
/// A normal pattern with biased exponent `e` and fraction `f` denotes
/// `(2^52 + f) * 2^(e - 1075)`; a subnormal one denotes `f * 2^-1074`,
/// which is a whole number only when `f` is zero.
pub open spec fn integer_value(bits: u64) -> Option<int> {
    let e = exponent_field(bits) as int;
    let f = (bits & FRACTION_MASK) as int;
    let negative = bits >= 0x8000_0000_0000_0000u64;
    let magnitude: Option<int> = if e == 0 {
        if f == 0 {
            Some(0)
        } else {
            None
        }
    } else if e == 2047 {
        None
    } else {
        let significand = pow2(52) + f;
        if e >= 1075 {
            Some(significand * pow2((e - 1075) as nat))
        } else if significand % (pow2((1075 - e) as nat) as int) == 0 {
            Some(significand / (pow2((1075 - e) as nat) as int))
        } else {
            None
        }
    };
    match magnitude {
        Some(n) => Some(
            if negative {
                -n
            } else {
                n
            },
        ),
        None => None,
    }
}

/// The whole number of pixels denoted by `bits`, when it is one that fits in
/// a signed 32-bit integer.
pub open spec fn whole_pixels(bits: u64) -> Option<i32> {
    match integer_value(bits) {
        Some(n) => if i32::MIN <= n <= i32::MAX {
            Some(n as i32)
        } else {
            None
        },
        None => None,
    }
}

/// Returns the whole number denoted by a binary64 pattern, when it fits in
/// a signed 32-bit integer.
pub fn whole_number(bits: u64) -> (r: Option<i32>)
    ensures
        r == whole_pixels(bits),
{
    let e = (bits & EXPONENT_MASK) >> 52u64;
    let f = bits & FRACTION_MASK;
    let negative = bits >= 0x8000_0000_0000_0000u64;
    assert(e <= 2047) by (bit_vector)
        requires
            e == (bits & 0x7ff0_0000_0000_0000u64) >> 52u64,
    ;
    assert(f < 0x0010_0000_0000_0000u64) by (bit_vector)
        requires
            f == bits & 0x000f_ffff_ffff_ffffu64,
    ;
    proof {
        lemma2_to64();
        lemma2_to64_rest();
    }
    if e == 0 {
        return if f == 0 {
            Some(0)
        } else {
            None
        };
    }
    if e == 2047 {
        return None;
    }
    let significand = HIDDEN_BIT | f;
    assert(significand == 0x0010_0000_0000_0000u64 + f) by (bit_vector)
        requires
            f < 0x0010_0000_0000_0000u64,
            significand == 0x0010_0000_0000_0000u64 | f,
    ;
    assert(significand as int == pow2(52) + f);
    if e >= 1075 {
        proof {
            let k = (e - 1075) as nat;
            lemma_pow2_pos(k);
            assert(significand * pow2(k) >= significand) by (nonlinear_arith)
                requires
                    pow2(k) >= 1,
            ;
        }
        return None;
    }
    let shift = 1075 - e;
    if shift >= 64 {
        proof {
            lemma_pow2_strictly_increases(53, shift as nat);
            vstd::arithmetic::div_mod::lemma_small_mod(significand as nat, pow2(shift as nat));
        }
        return None;
    }
    proof {
        vstd::bits::lemma_u64_pow2_no_overflow(shift as nat);
        vstd::bits::lemma_u64_shl_is_mul(1, shift);
        vstd::bits::lemma_u64_low_bits_mask_is_mod(significand, shift as nat);
        vstd::bits::lemma_low_bits_mask_unfold(shift as nat);
        vstd::bits::lemma_u64_shr_is_div(significand, shift);
    }
    let mask = (1u64 << shift) - 1;
    assert(mask == vstd::bits::low_bits_mask(shift as nat) as u64);
    if significand & mask != 0 {
        return None;
    }
    let n = significand >> shift;
    assert(n as int == (pow2(52) + f) / (pow2(shift as nat) as int));
    if negative {
        if n <= 0x8000_0000u64 {
            let m: i64 = n as i64;
            Some((-m) as i32)
        } else {
            None
        }
    } else {
        if n <= 0x7fff_ffffu64 {
            Some(n as i32)
        } else {
            None
        }
    }
}

/// Candidate native Godot `Theme` item category resolved by a running engine.
#[derive(Clone, Copy, Debug, PartialEq, Eq)]
pub enum GodotItemKind {
    /// A color item.
    Color,
    /// An integer constant.
    Constant,
    /// A positive font size.
    FontSize,
    /// A font resource.
    Font,
    /// A texture resource.
    Icon,
    /// A stylebox resource.
    StyleBox,
}

impl GodotItemKind {
    pub open spec fn wire_text(self) -> Seq<char> {
        match self {
            GodotItemKind::Color => "color"@,
            GodotItemKind::Constant => "constant"@,
            GodotItemKind::FontSize => "font_size"@,
            GodotItemKind::Font => "font"@,
            GodotItemKind::Icon => "icon"@,
            GodotItemKind::StyleBox => "stylebox"@,
        }
    }

    /// Returns the category spelling consumed by the Godot runtime builder.
    pub fn wire_name(self) -> (r: &'static str)
        ensures
            r@ == self.wire_text(),
    {
        match self {
            GodotItemKind::Color => "color",
            GodotItemKind::Constant => "constant",
            GodotItemKind::FontSize => "font_size",
            GodotItemKind::Font => "font",
            GodotItemKind::Icon => "icon",
            GodotItemKind::StyleBox => "stylebox",
        }
    }
}

/// A value that satisfies Godot's portable theme-item constraints.
#[derive(Debug, PartialEq, Eq)]
pub enum PreparedValue {
    /// An sRGB color.
    Color(Color),
    /// A whole number of pixels within Godot's signed 32-bit range.
    Integer(i32),
    /// A reference in Godot's project or UID resource namespace.
    Resource(ResourceRef),
}

/// The contents of a prepared value.
pub enum PreparedView {
    Color(crate::primitives::ColorView),
    Integer(i32),
    Resource(Seq<char>),
}

impl View for PreparedValue {
    type V = PreparedView;

    open spec fn view(&self) -> PreparedView {
        match self {
            PreparedValue::Color(c) => PreparedView::Color(c@),
            PreparedValue::Integer(n) => PreparedView::Integer(*n),
            PreparedValue::Resource(r) => PreparedView::Resource(r@),
        }
    }
}

/// The contents of a planned item.
pub struct ItemView {
    pub property: Seq<char>,
    pub state: Option<Seq<char>>,
    pub candidates: Seq<GodotItemKind>,
    pub kind: Seq<char>,
    pub value: PreparedView,
}

/// The contents of a planned style.
pub struct StyleView {
    pub name: Seq<char>,
    pub target: Seq<char>,
    pub items: Seq<ItemView>,
}

/// The contents of a build plan: the theme name and the planned styles by name.
pub struct PlanView {
    pub theme: Seq<char>,
    pub styles: Map<Seq<char>, StyleView>,
}

/// The view of an optional name.
pub open spec fn name_view(n: Option<Name>) -> Option<Seq<char>> {
    match n {
        Some(n) => Some(n@),
        None => None,
    }
}

/// One normalized item awaiting resolution by a running Godot engine.
#[derive(Debug, PartialEq, Eq)]
pub struct PlannedItem {
    property: Name,
    state: Option<Name>,
    candidates: Vec<GodotItemKind>,
    value_kind: &'static str,
    value: PreparedValue,
}

impl View for PlannedItem {
    type V = ItemView;

    closed spec fn view(&self) -> ItemView {
        ItemView {
            property: self.property@,
            state: name_view(self.state),
            candidates: self.candidates@,
            kind: self.value_kind@,
            value: self.value@,
        }
    }
}

impl PlannedItem {
    /// Returns the exact native theme-item name.
    pub fn property(&self) -> (r: &Name)
        ensures
            r@ == self@.property,
    {
        &self.property
    }

    /// Returns the source state, when this is a state-specific item.
    pub fn state(&self) -> (r: Option<&Name>)
        ensures
            match r {
                Some(n) => self@.state == Some(n@),
                None => self@.state is None,
            },
    {
        match &self.state {
            Some(n) => Some(n),
            None => None,
        }
    }

    /// Returns possible native categories, to be resolved by Godot.
    pub fn candidates(&self) -> (r: &[GodotItemKind])
        ensures
            r@ == self@.candidates,
    {
        self.candidates.as_slice()
    }

    /// Returns the source value category used in runtime diagnostics.
    pub fn value_kind(&self) -> (r: &'static str)
        ensures
            r@ == self@.kind,
    {
        self.value_kind
    }

    /// Returns the normalized portable value.
    pub fn value(&self) -> (r: &PreparedValue)
        ensures
            r@ == self@.value,
    {
        &self.value
    }
}

/// One default control type or named variation in a portable Godot build plan.
#[derive(Debug, PartialEq, Eq)]
pub struct PlannedStyle {
    name: Name,
    target: Name,
    items: Vec<PlannedItem>,
}

/// The views of a sequence of items.
pub open spec fn item_views(items: Seq<PlannedItem>) -> Seq<ItemView> {
    items.map_values(|i: PlannedItem| i@)
}

impl View for PlannedStyle {
    type V = StyleView;

    closed spec fn view(&self) -> StyleView {
        StyleView { name: self.name@, target: self.target@, items: item_views(self.items@) }
    }
}

impl PlannedStyle {
    /// Returns the theme type or variation name.
    pub fn name(&self) -> (r: &Name)
        ensures
            r@ == self@.name,
    {
        &self.name
    }

    /// Returns the requested native `Control` target.
    pub fn target(&self) -> (r: &Name)
        ensures
            r@ == self@.target,
    {
        &self.target
    }

    /// Returns planned items in deterministic source order.
    pub fn items(&self) -> (r: &[PlannedItem])
        ensures
            item_views(r@) == self@.items,
    {
        self.items.as_slice()
    }
}

/// Portable, serializable instructions for building a Godot theme.
///
/// Item categories remain candidates until a running Godot engine resolves
/// them against its own classes and default theme.
#[derive(Debug, PartialEq, Eq)]
pub struct GodotBuildPlan {
    name: Name,
    styles: NameMap<PlannedStyle>,
}

/// The views of a map's styles.
pub open spec fn style_views(styles: Map<Seq<char>, PlannedStyle>) -> Map<Seq<char>, StyleView> {
    styles.map_values(|s: PlannedStyle| s@)
}

impl View for GodotBuildPlan {
    type V = PlanView;

    closed spec fn view(&self) -> PlanView {
        PlanView { theme: self.name@, styles: style_views(self.styles@) }
    }
}

/// Build-plan interchange format version.
pub const SCHEMA_VERSION: u64 = 2;

impl GodotBuildPlan {
    /// Returns the compiled theme name.
    pub fn name(&self) -> (r: &Name)
        ensures
            r@ == self@.theme,
    {
        &self.name
    }

    /// Returns planned styles in deterministic name order.
    pub fn styles(&self) -> (r: &NameMap<PlannedStyle>)
        ensures
            style_views(r@) == self@.styles,
    {
        &self.styles
    }
}

/// One portable Godot build-plan failure.
#[derive(Debug, PartialEq, Eq)]
pub enum BackendError {
    /// A compiler value category has no Godot theme-item representation.
    UnsupportedValue {
        /// Style being mapped.
        style: Name,
        /// Native control target.
        target: Name,
        /// State containing the property, or `None` for base properties.
        state: Option<Name>,
        /// Unsupported native item name.
        property: Name,
        /// Compiled value kind.
        value: &'static str,
    },
    /// A state tried to change the same native item used by the base style.
    StateOverridesBaseItem {
        /// Style being mapped.
        style: Name,
        /// State containing the override.
        state: Name,
        /// Reused base item name.
        property: Name,
    },
    /// A numeric theme item is not a whole number of pixels.
    InvalidInteger {
        /// Style being mapped.
        style: Name,
        /// Invalid native item.
        property: Name,
        /// Required numeric constraint.
        expected: &'static str,
    },
    /// A resource reference is not in Godot's project resource namespace.
    InvalidResourceReference {
        /// Backend-neutral reference supplied by the compiler.
        reference: ResourceRef,
    },
}

/// The contents of a planning failure.
pub enum ErrorView {
    UnsupportedValue {
        style: Seq<char>,
        target: Seq<char>,
        state: Option<Seq<char>>,
        property: Seq<char>,
        value: Seq<char>,
    },
    StateOverridesBaseItem { style: Seq<char>, state: Seq<char>, property: Seq<char> },
    InvalidInteger { style: Seq<char>, property: Seq<char>, expected: Seq<char> },
    InvalidResourceReference { reference: Seq<char> },
}

impl View for BackendError {
    type V = ErrorView;

    open spec fn view(&self) -> ErrorView {
        match self {
            BackendError::UnsupportedValue { style, target, state, property, value } =>
                ErrorView::UnsupportedValue {
                style: style@,
                target: target@,
                state: name_view(*state),
                property: property@,
                value: value@,
            },
            BackendError::StateOverridesBaseItem { style, state, property } =>
                ErrorView::StateOverridesBaseItem {
                style: style@,
                state: state@,
                property: property@,
            },
            BackendError::InvalidInteger { style, property, expected } => ErrorView::InvalidInteger {
                style: style@,
                property: property@,
                expected: expected@,
            },
            BackendError::InvalidResourceReference { reference } =>
                ErrorView::InvalidResourceReference { reference: reference@ },
        }
    }
}

/// The views of a sequence of failures.
pub open spec fn error_views(errors: Seq<BackendError>) -> Seq<ErrorView> {
    errors.map_values(|e: BackendError| e@)
}

/// The rendered message of a planning failure.
pub open spec fn failure_text(e: ErrorView) -> Seq<char> {
    match e {
        ErrorView::UnsupportedValue { style, target, state, property, value } => match state {
            Some(st) => "style '"@ + style + "' state '"@ + st + "' property '"@ + property
                + "' cannot map "@ + value + " values to a Godot theme item on target '"@ + target
                + "'"@,
            None => "style '"@ + style + "' property '"@ + property + "' cannot map "@ + value
                + " values to a Godot theme item on target '"@ + target + "'"@,
        },
        ErrorView::StateOverridesBaseItem { style, state, property } => "style '"@ + style
            + "' state '"@ + state + "' changes base theme item '"@ + property
            + "'; use the exact state-specific Godot item name instead"@,
        ErrorView::InvalidInteger { style, property, expected } => "style '"@ + style
            + "' property '"@ + property + "' must be "@ + expected,
        ErrorView::InvalidResourceReference { reference } => "resource reference '"@ + reference
            + "' must use a non-empty 'res://' or 'uid://' Godot path"@,
    }
}

impl Diagnostic for BackendError {
    open spec fn code_text(&self) -> Seq<char> {
        match self {
            BackendError::UnsupportedValue { .. } => "TMS3001"@,
            BackendError::StateOverridesBaseItem { .. } => "TMS3002"@,
            BackendError::InvalidInteger { .. } => "TMS3003"@,
            BackendError::InvalidResourceReference { .. } => "TMS3004"@,
        }
    }

    open spec fn message_text(&self) -> Seq<char> {
        failure_text(self@)
    }

    fn code(&self) -> (r: String) {
        match self {
            BackendError::UnsupportedValue { .. } => owned("TMS3001"),
            BackendError::StateOverridesBaseItem { .. } => owned("TMS3002"),
            BackendError::InvalidInteger { .. } => owned("TMS3003"),
            BackendError::InvalidResourceReference { .. } => owned("TMS3004"),
        }
    }

    fn to_string(&self) -> (r: String) {
        match self {
            BackendError::UnsupportedValue { style, target, state, property, value } => {
                let mut r = owned("style '");
                r.append(style.as_str());
                match state {
                    Some(st) => {
                        r.append("' state '");
                        r.append(st.as_str());
                    },
                    None => {},
                }
                r.append("' property '");
                r.append(property.as_str());
                r.append("' cannot map ");
                r.append(value);
                r.append(" values to a Godot theme item on target '");
                r.append(target.as_str());
                r.append("'");
                r
            },
            BackendError::StateOverridesBaseItem { style, state, property } => {
                let mut r = owned("style '");
                r.append(style.as_str());
                r.append("' state '");
                r.append(state.as_str());
                r.append("' changes base theme item '");
                r.append(property.as_str());
                r.append("'; use the exact state-specific Godot item name instead");
                r
            },
            BackendError::InvalidInteger { style, property, expected } => {
                let mut r = owned("style '");
                r.append(style.as_str());
                r.append("' property '");
                r.append(property.as_str());
                r.append("' must be ");
                r.append(expected);
                r
            },
            BackendError::InvalidResourceReference { reference } => {
                let mut r = owned("resource reference '");
                r.append(reference.as_str());
                r.append("' must use a non-empty 'res://' or 'uid://' Godot path");
                r
            },
        }
    }
}

/// Portable planning failures collected in deterministic style/property order.
pub type BackendErrors = Errors<BackendError>;

/// The source value category used in diagnostics.
pub open spec fn kind_text(v: CompiledValue) -> Seq<char> {
    match v {
        CompiledValue::Boolean(_) => "boolean"@,
        CompiledValue::Color(_) => "color"@,
        CompiledValue::Dimension(_) => "dimension"@,
        CompiledValue::Number(_) => "number"@,
        CompiledValue::String(_) => "string"@,
        CompiledValue::Resource(_) => "resource"@,
    }
}

/// Returns the stable source value category used in backend diagnostics.
pub fn value_kind(value: &CompiledValue) -> (r: &'static str)
    ensures
        r@ == kind_text(*value),
{
    match value {
        CompiledValue::Boolean(_) => "boolean",
        CompiledValue::Color(_) => "color",
        CompiledValue::Dimension(_) => "dimension",
        CompiledValue::Number(_) => "number",
        CompiledValue::String(_) => "string",
        CompiledValue::Resource(_) => "resource",
    }
}

/// The binary64 pattern of a value that may be a pixel count: a number, or a
/// dimension in pixels.
pub open spec fn pixel_bits(v: CompiledValue) -> Option<u64> {
    match v {
        CompiledValue::Number(n) => Some(n@),
        CompiledValue::Dimension(d) => if d.unit_of() == DimensionUnit::Pixel {
            Some(d.magnitude())
        } else {
            None
        },
        _ => None,
    }
}

/// The whole number of pixels of a compiled value, when it has one that fits
/// in a signed 32-bit integer.
pub open spec fn integral_pixels_of(v: CompiledValue) -> Option<i32> {
    match pixel_bits(v) {
        Some(b) => whole_pixels(b),
        None => None,
    }
}

/// Extracts an integral, signed 32-bit pixel count from a compatible value.
pub fn integral_pixels(value: &CompiledValue) -> (r: Option<i32>)
    ensures
        r == integral_pixels_of(*value),
{
    match value {
        CompiledValue::Number(n) => whole_number(n.get()),
        CompiledValue::Dimension(d) => match d.unit() {
            DimensionUnit::Pixel => whole_number(d.value().get()),
            DimensionUnit::Rem => None,
        },
        _ => None,
    }
}

/// A reference in Godot's project or UID resource namespace: `res://` or
/// `uid://` followed by at least one character.
pub open spec fn godot_resource(r: Seq<char>) -> bool {
    ||| starts_with(r, "res://"@) && r.len() > 6
    ||| starts_with(r, "uid://"@) && r.len() > 6
}

/// Returns whether a resource uses a non-empty Godot project or UID namespace.
pub fn valid_resource_reference(reference: &ResourceRef) -> (r: bool)
    ensures
        r == godot_resource(reference@),
{
    let value = reference.as_str();
    proof {
        reveal_strlit("res://");
        reveal_strlit("uid://");
    }
    let n = value.unicode_len();
    (text_starts_with(value, "res://") && n > 6) || (text_starts_with(value, "uid://") && n > 6)
}

/// The native categories and the normalized value of a compiled value, or
/// `None` when it cannot be planned.
pub open spec fn prepared(v: CompiledValue) -> Option<(Seq<GodotItemKind>, PreparedView)> {
    match v {
        CompiledValue::Color(c) => Some(
            (seq![GodotItemKind::Color, GodotItemKind::StyleBox], PreparedView::Color(c@)),
        ),
        CompiledValue::Dimension(_) | CompiledValue::Number(_) => match integral_pixels_of(v) {
            Some(n) => Some(
                (seq![GodotItemKind::Constant, GodotItemKind::FontSize], PreparedView::Integer(n)),
            ),
            None => None,
        },
        CompiledValue::Resource(r) => if godot_resource(r@) {
            Some(
                (
                    seq![GodotItemKind::Font, GodotItemKind::Icon, GodotItemKind::StyleBox],
                    PreparedView::Resource(r@),
                ),
            )
        } else {
            None
        },
        _ => None,
    }
}

/// The failure for a value that cannot be planned.
pub open spec fn value_failure(
    style: CompiledStyle,
    state: Option<Seq<char>>,
    property: Seq<char>,
    v: CompiledValue,
) -> ErrorView {
    match v {
        CompiledValue::Dimension(_) | CompiledValue::Number(_) => ErrorView::InvalidInteger {
            style: style.name_of()@,
            property,
            expected: "a whole number of pixels"@,
        },
        CompiledValue::Resource(r) => ErrorView::InvalidResourceReference { reference: r@ },
        _ => ErrorView::UnsupportedValue {
            style: style.name_of()@,
            target: style.target_of()@,
            state,
            property,
            value: kind_text(v),
        },
    }
}

/// Items and failures collected so far.
pub type PlanSoFar = (Seq<ItemView>, Seq<ErrorView>);

/// Plans one item: it is added, or its failure is.
pub open spec fn item_step(
    acc: PlanSoFar,
    style: CompiledStyle,
    state: Option<Seq<char>>,
    property: Seq<char>,
    v: CompiledValue,
) -> PlanSoFar {
    match prepared(v) {
        Some((candidates, value)) => (
            acc.0.push(ItemView { property, state, candidates, kind: kind_text(v), value }),
            acc.1,
        ),
        None => (acc.0, acc.1.push(value_failure(style, state, property, v))),
    }
}

/// A resource reference in Godot's project (`res://`) or UID (`uid://`)
/// namespace with a path after the prefix is planned as an item that may
/// become a font, an icon or a style box, and nothing is reported for it.
pub proof fn lemma_godot_reference_planned(
    acc: PlanSoFar,
    style: CompiledStyle,
    state: Option<Seq<char>>,
    property: Seq<char>,
    r: ResourceRef,
)
    requires
        starts_with(r@, "res://"@) || starts_with(r@, "uid://"@),
        r@.len() > 6,
    ensures
        item_step(acc, style, state, property, CompiledValue::Resource(r)).1 == acc.1,
        item_step(acc, style, state, property, CompiledValue::Resource(r)).0 == acc.0.push(
            ItemView {
                property,
                state,
                candidates: seq![GodotItemKind::Font, GodotItemKind::Icon, GodotItemKind::StyleBox],
                kind: kind_text(CompiledValue::Resource(r)),
                value: PreparedView::Resource(r@),
            },
        ),
{
}

/// A resource reference outside both Godot namespaces, or with nothing
/// after the prefix, is reported as invalid and planned as no item.
pub proof fn lemma_other_reference_refused(
    acc: PlanSoFar,
    style: CompiledStyle,
    state: Option<Seq<char>>,
    property: Seq<char>,
    r: ResourceRef,
)
    requires
        !(starts_with(r@, "res://"@) || starts_with(r@, "uid://"@)) || r@.len() <= 6,
    ensures
        item_step(acc, style, state, property, CompiledValue::Resource(r)) == (
            acc.0,
            acc.1.push(ErrorView::InvalidResourceReference { reference: r@ }),
        ),
{
}

/// A state that gives an item of the base style a color differing from the
/// base color in any channel, alpha included, is reported as changing the
/// base item; a color equal in every channel is left to the base item.
pub proof fn lemma_state_color_against_base(
    acc: PlanSoFar,
    style: CompiledStyle,
    state: Seq<char>,
    property: Seq<char>,
    x: Color,
    y: Color,
)
    requires
        style.properties_of()@.contains_key(property),
        style.properties_of()@[property] == CompiledValue::Color(x),
    ensures
        x@.red == y@.red && x@.green == y@.green && x@.blue == y@.blue && x@.alpha == y@.alpha
            ==> state_step(acc, style, state, property, CompiledValue::Color(y)) == acc,
        !(x@.red == y@.red && x@.green == y@.green && x@.blue == y@.blue && x@.alpha == y@.alpha)
            ==> state_step(acc, style, state, property, CompiledValue::Color(y)) == (
            acc.0,
            acc.1.push(ErrorView::StateOverridesBaseItem { style: style.name_of()@, state, property }),
        ),
{
}

/// Plans one property of a state. A property that the base style also sets
/// is left to the base item; it must then hold the same value.
pub open spec fn state_step(
    acc: PlanSoFar,
    style: CompiledStyle,
    state: Seq<char>,
    property: Seq<char>,
    v: CompiledValue,
) -> PlanSoFar {
    let base = style.properties_of()@;
    if base.contains_key(property) {
        if same_value(base[property], v) {
            acc
        } else {
            (
                acc.0,
                acc.1.push(
                    ErrorView::StateOverridesBaseItem { style: style.name_of()@, state, property },
                ),
            )
        }
    } else {
        item_step(acc, style, Some(state), property, v)
    }
}

/// The plan of the first `n` base properties of `style`, in name order.
pub open spec fn base_plan(style: CompiledStyle, n: nat) -> PlanSoFar
    decreases n,
{
    if n == 0 {
        (Seq::empty(), Seq::empty())
    } else {
        let e = style.properties_of().ordered()[n - 1];
        item_step(base_plan(style, (n - 1) as nat), style, None, e.0@, e.1)
    }
}

/// `acc` followed by the plan of the first `n` properties of `state`.
pub open spec fn state_plan(acc: PlanSoFar, style: CompiledStyle, state: CompiledState, n: nat) -> PlanSoFar
    decreases n,
{
    if n == 0 {
        acc
    } else {
        let e = state.properties_of().ordered()[n - 1];
        state_step(state_plan(acc, style, state, (n - 1) as nat), style, state.name_of()@, e.0@, e.1)
    }
}

/// The plan of the base properties and then of the first `n` states, in name order.
pub open spec fn states_plan(style: CompiledStyle, n: nat) -> PlanSoFar
    decreases n,
{
    if n == 0 {
        base_plan(style, style.properties_of().ordered().len())
    } else {
        let st = style.states_of().ordered()[n - 1].1;
        state_plan(states_plan(style, (n - 1) as nat), style, st, st.properties_of().ordered().len())
    }
}

/// The planned items of a style and its failures.
pub open spec fn style_plan(style: CompiledStyle) -> PlanSoFar {
    states_plan(style, style.states_of().ordered().len())
}

/// The planned styles of the first `n` styles, keyed by style name, and the
/// failures of those styles.
pub open spec fn theme_plan(styles: Seq<(Name, CompiledStyle)>, n: nat) -> (
    Seq<(Name, StyleView)>,
    Seq<ErrorView>,
)
    decreases n,
{
    if n == 0 {
        (Seq::empty(), Seq::empty())
    } else {
        let prev = theme_plan(styles, (n - 1) as nat);
        let st = styles[n - 1].1;
        let p = style_plan(st);
        (
            prev.0.push(
                (st.name_of(), StyleView { name: st.name_of()@, target: st.target_of()@, items: p.0 }),
            ),
            prev.1 + p.1,
        )
    }
}

/// Copies an optional name.
fn copy_name(n: Option<&Name>) -> (r: Option<Name>)
    ensures
        match n {
            Some(x) => r == Some(*x),
            None => r is None,
        },
{
    match n {
        Some(x) => Some(x.duplicate()),
        None => None,
    }
}

/// The view of an optional borrowed name.
pub open spec fn borrowed_view(n: Option<&Name>) -> Option<Seq<char>> {
    match n {
        Some(x) => Some(x@),
        None => None,
    }
}

/// Converts a compiled value and lists the native categories that may accept it.
fn normalize_value(
    style: &CompiledStyle,
    state: Option<&Name>,
    property: &Name,
    value: &CompiledValue,
) -> (r: Result<(Vec<GodotItemKind>, PreparedValue), BackendError>)
    ensures
        match prepared(*value) {
            Some((c, p)) => r matches Ok((cv, pv)) && cv@ == c && pv@ == p,
            None => r matches Err(e) && e@ == value_failure(
                *style,
                borrowed_view(state),
                property@,
                *value,
            ),
        },
{
    match value {
        CompiledValue::Color(color) => {
            let candidates = vec![GodotItemKind::Color, GodotItemKind::StyleBox];
            Ok((candidates, PreparedValue::Color(*color)))
        },
        CompiledValue::Dimension(_) | CompiledValue::Number(_) => match integral_pixels(value) {
            Some(n) => {
                let candidates = vec![GodotItemKind::Constant, GodotItemKind::FontSize];
                Ok((candidates, PreparedValue::Integer(n)))
            },
            None => Err(
                BackendError::InvalidInteger {
                    style: style.name().duplicate(),
                    property: property.duplicate(),
                    expected: "a whole number of pixels",
                },
            ),
        },
        CompiledValue::Resource(reference) => if valid_resource_reference(reference) {
            let candidates = vec![GodotItemKind::Font, GodotItemKind::Icon, GodotItemKind::StyleBox];
            Ok((candidates, PreparedValue::Resource(reference.duplicate())))
        } else {
            Err(BackendError::InvalidResourceReference { reference: reference.duplicate() })
        },
        CompiledValue::Boolean(_) | CompiledValue::String(_) => Err(
            BackendError::UnsupportedValue {
                style: style.name().duplicate(),
                target: style.target().duplicate(),
                state: copy_name(state),
                property: property.duplicate(),
                value: value_kind(value),
            },
        ),
    }
}

/// Appends one normalized item or records its validation error.
fn normalize_item(
    style: &CompiledStyle,
    state: Option<&Name>,
    property: &Name,
    value: &CompiledValue,
    items: &mut Vec<PlannedItem>,
    errors: &mut Vec<BackendError>,
)
    ensures
        (item_views(final(items)@), error_views(final(errors)@)) == item_step(
            (item_views(old(items)@), error_views(old(errors)@)),
            *style,
            borrowed_view(state),
            property@,
            *value,
        ),
{
    match normalize_value(style, state, property, value) {
        Ok((candidates, prepared_value)) => {
            let item = PlannedItem {
                property: property.duplicate(),
                state: copy_name(state),
                candidates,
                value_kind: value_kind(value),
                value: prepared_value,
            };
            let ghost before = items@;
            items.push(item);
            assert(item_views(items@) =~= item_views(before).push(item@));
        },
        Err(error) => {
            let ghost before = errors@;
            errors.push(error);
            assert(error_views(errors@) =~= error_views(before).push(error@));
        },
    }
}

/// Normalizes a style and rejects state entries that override a base item.
fn normalize_style(style: &CompiledStyle, errors: &mut Vec<BackendError>) -> (items: Vec<
    PlannedItem,
>)
    ensures
        item_views(items@) == style_plan(*style).0,
        error_views(final(errors)@) == error_views(old(errors)@) + style_plan(*style).1,
{
    let mut items: Vec<PlannedItem> = Vec::new();
    let mut found: Vec<BackendError> = Vec::new();
    let base = style.properties().entries();
    let mut i: usize = 0;
    assert(item_views(items@) =~= Seq::<ItemView>::empty());
    assert(error_views(found@) =~= Seq::<ErrorView>::empty());
    while i < base.len()
        invariant
            base@ == style.properties_of().ordered(),
            i <= base@.len(),
            (item_views(items@), error_views(found@)) == base_plan(*style, i as nat),
        decreases base@.len() - i,
    {
        let (property, value) = &base[i];
        normalize_item(style, None, property, value, &mut items, &mut found);
        i = i + 1;
    }
    let states = style.states().entries();
    let mut j: usize = 0;
    while j < states.len()
        invariant
            base@ == style.properties_of().ordered(),
            states@ == style.states_of().ordered(),
            j <= states@.len(),
            (item_views(items@), error_views(found@)) == states_plan(*style, j as nat),
        decreases states@.len() - j,
    {
        let state = &states[j].1;
        let entries = state.properties().entries();
        let ghost start = states_plan(*style, j as nat);
        let mut k: usize = 0;
        while k < entries.len()
            invariant
                entries@ == state.properties_of().ordered(),
                k <= entries@.len(),
                (item_views(items@), error_views(found@)) == state_plan(start, *style, *state, k as nat),
            decreases entries@.len() - k,
        {
            let (property, value) = &entries[k];
            match style.properties().get(property) {
                None => {
                    normalize_item(style, Some(state.name()), property, value, &mut items, &mut found);
                },
                Some(base_value) => {
                    if !base_value.same_as(value) {
                        let error = BackendError::StateOverridesBaseItem {
                            style: style.name().duplicate(),
                            state: state.name().duplicate(),
                            property: property.duplicate(),
                        };
                        let ghost before = found@;
                        found.push(error);
                        assert(error_views(found@) =~= error_views(before).push(error@));
                    }
                },
            }
            k = k + 1;
        }
        j = j + 1;
    }
    let ghost before = errors@;
    errors.append(&mut found);
    assert(error_views(errors@) =~= error_views(before) + style_plan(*style).1);
    items
}

/// Normalizes every style while retaining all independent backend errors.
fn normalize_theme(compiled: &CompiledTheme) -> (r: (GodotBuildPlan, Vec<BackendError>))
    ensures
        r.0@.theme == compiled.name_of()@,
        r.0@.styles == entries_map(
            theme_plan(compiled.styles_of().ordered(), compiled.styles_of().ordered().len()).0,
        ),
        error_views(r.1@) == theme_plan(
            compiled.styles_of().ordered(),
            compiled.styles_of().ordered().len(),
        ).1,
{
    let mut errors: Vec<BackendError> = Vec::new();
    let mut styles: NameMap<PlannedStyle> = NameMap::new();
    let compiled_styles = compiled.styles().entries();
    let ghost all = compiled.styles_of().ordered();
    let mut i: usize = 0;
    assert(style_views(styles@) =~= entries_map(Seq::<(Name, StyleView)>::empty()));
    assert(error_views(errors@) =~= Seq::<ErrorView>::empty());
    while i < compiled_styles.len()
        invariant
            compiled_styles@ == all,
            i <= all.len(),
            style_views(styles@) == entries_map(theme_plan(all, i as nat).0),
            error_views(errors@) == theme_plan(all, i as nat).1,
        decreases all.len() - i,
    {
        let style = &compiled_styles[i].1;
        let items = normalize_style(style, &mut errors);
        let planned = PlannedStyle {
            name: style.name().duplicate(),
            target: style.target().duplicate(),
            items,
        };
        let ghost before = styles@;
        let ghost view = planned@;
        styles.insert(style.name().duplicate(), planned);
        assert(style_views(styles@) =~= style_views(before).insert(style.name_of()@, view));
        proof {
            let prev = theme_plan(all, i as nat).0;
            let next = theme_plan(all, (i + 1) as nat).0;
            assert(next == prev.push((style.name_of(), view)));
            assert(next.drop_last() =~= prev);
        }
        i = i + 1;
    }
    (GodotBuildPlan { name: compiled.name().duplicate(), styles }, errors)
}

/// Validates and normalizes a compiled theme without consulting Godot metadata.
///
/// The plan is `Ok` exactly when no style has a failure; otherwise every
/// failure is reported, in style order and, within a style, in planning
/// order. The returned plan is suitable for transport to a running Godot
/// engine, which resolves its candidate item categories and builds the
/// resource.
pub fn plan_theme(compiled: &CompiledTheme) -> (r: Result<GodotBuildPlan, BackendErrors>)
    ensures
        ({
            let p = theme_plan(compiled.styles_of().ordered(), compiled.styles_of().ordered().len());
            match r {
                Ok(plan) => p.1.len() == 0 && plan@.theme == compiled.name_of()@ && plan@.styles
                    == entries_map(p.0),
                Err(e) => p.1.len() > 0 && error_views(e.items()) == p.1,
            }
        }),
{
    let (plan, errors) = normalize_theme(compiled);
    if errors.len() == 0 {
        Ok(plan)
    } else {
        Err(Errors::new(errors))
    }
}

} // verus!
