//! Numeric primitives of design tokens.
//!
//! Numbers are IEEE-754 binary64 values. The library holds them by their bit
//! patterns: the compiler only checks, compares, and carries numbers, and the
//! bit pattern determines the value exactly. On non-negative finite values the
//! numeric order coincides with the order of the bit patterns.
use vstd::prelude::*;

verus! {

/// Bit pattern of negative zero.
pub const NEGATIVE_ZERO_BITS: u64 = 0x8000_0000_0000_0000;

/// Bit pattern of one.
pub const ONE_BITS: u64 = 0x3ff0_0000_0000_0000;

/// Bit mask of the exponent field.
pub const EXPONENT_MASK: u64 = 0x7ff0_0000_0000_0000;

/// The biased exponent field of a binary64 bit pattern.
pub open spec fn exponent_field(bits: u64) -> u64 {
    (bits & EXPONENT_MASK) >> 52u64
}

/// Finite values are those whose exponent field is not all ones.
pub open spec fn finite_bits(bits: u64) -> bool {
    bits & EXPONENT_MASK != EXPONENT_MASK
}

/// Negative zero is replaced by positive zero; other patterns are kept.
pub open spec fn canonical_bits(bits: u64) -> u64 {
    if bits == NEGATIVE_ZERO_BITS {
        0
    } else {
        bits
    }
}

/// A canonical finite value lies in `0..=1` exactly when its pattern is at most
/// the pattern of one: the sign bit is clear and positive values are ordered by
/// their patterns.
pub open spec fn unit_interval_bits(bits: u64) -> bool {
    bits <= ONE_BITS
}

/// The position of a finite value in numeric order: a pattern with the sign
/// bit clear denotes a value that grows with its bits; one with the sign bit
/// set denotes the negated value of its magnitude bits.
pub open spec fn numeric_key(bits: u64) -> int {
    if bits < 0x8000_0000_0000_0000u64 {
        bits as int
    } else {
        0x8000_0000_0000_0000u64 - bits
    }
}

/// Finite number with a canonical representation for negative zero.
#[derive(Clone, Copy, Debug, PartialEq, Eq)]
pub struct Number {
    bits: u64,
}

impl View for Number {
    type V = u64;

    closed spec fn view(&self) -> u64 {
        self.bits
    }
}

/// Error returned when a number is NaN or infinite.
#[derive(Clone, Copy, Debug, PartialEq, Eq)]
pub struct InvalidNumber;

impl InvalidNumber {
    /// Renders the error message.
    pub fn to_string(&self) -> (r: String)
        ensures
            r@ == "number must be finite"@,
    {
        String::from_str("number must be finite")
    }
}

impl Number {
    #[verifier::type_invariant]
    closed spec fn inv(self) -> bool {
        finite_bits(self.bits) && self.bits != NEGATIVE_ZERO_BITS
    }

    /// Creates a finite number from the bit pattern of a binary64 value.
    pub fn new(bits: u64) -> (r: Result<Number, InvalidNumber>)
        ensures
            r is Ok <==> finite_bits(bits),
            r matches Ok(n) ==> n@ == canonical_bits(bits),
    {
        if bits & EXPONENT_MASK == EXPONENT_MASK {
            return Err(InvalidNumber);
        }
        let canonical = if bits == NEGATIVE_ZERO_BITS {
            0
        } else {
            bits
        };
        assert(finite_bits(canonical)) by (bit_vector)
            requires
                finite_bits(bits),
                canonical == 0 || canonical == bits,
        ;
        Ok(Number { bits: canonical })
    }

    /// Returns the bit pattern of the numeric value.
    pub fn get(self) -> (r: u64)
        ensures
            r == self@,
    {
        self.bits
    }

    /// Whether `self` is numerically smaller than `other` (the order of
    /// `f64::total_cmp`, which on finite canonical values is numeric order).
    pub fn less(self, other: Number) -> (r: bool)
        ensures
            r == (numeric_key(self@) < numeric_key(other@)),
    {
        proof {
            use_type_invariant(self);
            use_type_invariant(other);
        }
        let a = self.bits;
        let b = other.bits;
        let sign: u64 = 0x8000_0000_0000_0000;
        if a < sign && b < sign {
            a < b
        } else if a >= sign && b >= sign {
            b < a
        } else {
            a >= sign
        }
    }

    /// Every number is finite and canonical.
    pub fn check_valid(self)
        ensures
            finite_bits(self@),
            self@ != NEGATIVE_ZERO_BITS,
    {
        proof {
            use_type_invariant(self);
        }
    }
}

/// An sRGB color with components in the inclusive range `0..=1`.
#[derive(Clone, Copy, Debug, PartialEq, Eq)]
pub struct Color {
    components: [Number; 3],
    alpha: Number,
}

/// Observable contents of a color: the patterns of red, green, blue, and alpha.
pub struct ColorView {
    pub red: u64,
    pub green: u64,
    pub blue: u64,
    pub alpha: u64,
}

impl View for Color {
    type V = ColorView;

    closed spec fn view(&self) -> ColorView {
        ColorView {
            red: self.components[0]@,
            green: self.components[1]@,
            blue: self.components[2]@,
            alpha: self.alpha@,
        }
    }
}

/// Error returned for a non-finite or out-of-range color component.
#[derive(Clone, Copy, Debug, PartialEq, Eq)]
pub struct InvalidColor {
    name: &'static str,
    value: u64,
}

impl InvalidColor {
    pub closed spec fn component_name(self) -> Seq<char> {
        self.name@
    }

    pub closed spec fn value_bits(self) -> u64 {
        self.value
    }

    /// Returns the invalid component name.
    pub fn component(self) -> (r: &'static str)
        ensures
            r@ == self.component_name(),
    {
        self.name
    }

    /// Returns the bit pattern of the invalid component value.
    pub fn value(self) -> (r: u64)
        ensures
            r == self.value_bits(),
    {
        self.value
    }

    /// Renders the error message, given the decimal rendering of the value.
    pub fn to_string(self, value_text: &str) -> (r: String)
        ensures
            r@ == "color component "@ + self.component_name()
                + " must be finite and between 0 and 1, got "@ + value_text@,
    {
        let mut r = String::from_str("color component ");
        r.append(self.name);
        r.append(" must be finite and between 0 and 1, got ");
        r.append(value_text);
        r
    }
}

/// A component value is accepted when it is finite and lies in `0..=1`.
pub open spec fn component_ok(bits: u64) -> bool {
    finite_bits(bits) && unit_interval_bits(canonical_bits(bits))
}

fn color_component(name: &'static str, bits: u64) -> (r: Result<Number, InvalidColor>)
    ensures
        r is Ok <==> component_ok(bits),
        r matches Ok(n) ==> n@ == canonical_bits(bits),
        r matches Err(e) ==> e.component_name() == name@ && e.value_bits() == bits,
{
    let value = match Number::new(bits) {
        Ok(value) => value,
        Err(_) => {
            return Err(InvalidColor { name, value: bits });
        },
    };
    if value.get() > ONE_BITS {
        return Err(InvalidColor { name, value: value.get() });
    }
    Ok(value)
}

/// The outcome of building a color from component patterns.
pub open spec fn color_outcome(components: [u64; 3], alpha: u64) -> Result<
    ColorView,
    (Seq<char>, u64),
> {
    if !component_ok(components[0]) {
        Err(("red"@, components[0]))
    } else if !component_ok(components[1]) {
        Err(("green"@, components[1]))
    } else if !component_ok(components[2]) {
        Err(("blue"@, components[2]))
    } else if !component_ok(alpha) {
        Err(("alpha"@, alpha))
    } else {
        Ok(
            ColorView {
                red: canonical_bits(components[0]),
                green: canonical_bits(components[1]),
                blue: canonical_bits(components[2]),
                alpha: canonical_bits(alpha),
            },
        )
    }
}

impl Color {
    /// Creates an sRGB color from red, green, blue, and alpha component patterns.
    pub fn new(components: [u64; 3], alpha: u64) -> (r: Result<Color, InvalidColor>)
        ensures
            match (r, color_outcome(components, alpha)) {
                (Ok(c), Ok(v)) => c@ == v,
                (Err(e), Err((name, value))) => e.component_name() == name && e.value_bits()
                    == value,
                _ => false,
            },
    {
        let red = color_component("red", components[0])?;
        let green = color_component("green", components[1])?;
        let blue = color_component("blue", components[2])?;
        let alpha = color_component("alpha", alpha)?;
        Ok(Color { components: [red, green, blue], alpha })
    }

    /// Returns the red, green, and blue components.
    pub fn components(self) -> (r: [Number; 3])
        ensures
            r[0]@ == self@.red && r[1]@ == self@.green && r[2]@ == self@.blue,
    {
        self.components
    }

    /// Returns the alpha component.
    pub fn alpha(self) -> (r: Number)
        ensures
            r@ == self@.alpha,
    {
        self.alpha
    }
}

/// Unit supported by a dimension token.
#[derive(Clone, Copy, Debug, PartialEq, Eq)]
pub enum DimensionUnit {
    /// Pixel units interpreted according to backend policy.
    Pixel,
    /// Root-em units, retained for later compilation policy.
    Rem,
}

/// Numeric design-token dimension and its unit.
#[derive(Clone, Copy, Debug, PartialEq, Eq)]
pub struct Dimension {
    value: Number,
    unit: DimensionUnit,
}

impl Dimension {
    pub closed spec fn magnitude(self) -> u64 {
        self.value@
    }

    pub closed spec fn unit_of(self) -> DimensionUnit {
        self.unit
    }

    /// Creates a dimension with a finite numeric value.
    pub fn new(bits: u64, unit: DimensionUnit) -> (r: Result<Dimension, InvalidNumber>)
        ensures
            r is Ok <==> finite_bits(bits),
            r matches Ok(d) ==> d.magnitude() == canonical_bits(bits) && d.unit_of() == unit,
    {
        let value = Number::new(bits)?;
        Ok(Dimension { value, unit })
    }

    /// Returns the dimension magnitude.
    pub fn value(self) -> (r: Number)
        ensures
            r@ == self.magnitude(),
    {
        self.value
    }

    /// Returns the dimension unit.
    pub fn unit(self) -> (r: DimensionUnit)
        ensures
            r == self.unit_of(),
    {
        self.unit
    }
}

} // verus!
