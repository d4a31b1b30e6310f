use vstd::prelude::*;

verus! {

// Planet classes are decided by comparing binary64 quantities against fixed cut points.
// The quantities come in as their IEEE-754 bit patterns (`f64::to_bits`), and the
// comparisons below are IEEE-754's own, NaN and signed zeros included.

/// Bit pattern of 0.2.
pub const TWO_TENTHS: u64 = 0x3FC9_9999_9999_999A;
/// Bit pattern of 0.4.
pub const FOUR_TENTHS: u64 = 0x3FD9_9999_9999_999A;
/// Bit pattern of 0.6.
pub const SIX_TENTHS: u64 = 0x3FE3_3333_3333_3333;
/// Bit pattern of 1.0.
pub const ONE: u64 = 0x3FF0_0000_0000_0000;
/// Bit pattern of 1.2.
pub const TWELVE_TENTHS: u64 = 0x3FF3_3333_3333_3333;
/// Bit pattern of 1.4.
pub const FOURTEEN_TENTHS: u64 = 0x3FF6_6666_6666_6666;
/// Bit pattern of 10.0.
pub const TEN: u64 = 0x4024_0000_0000_0000;
/// Bit pattern of 3000.0.
pub const THREE_THOUSAND: u64 = 0x40A7_7000_0000_0000;
/// Bit pattern of 5500.0.
pub const FIFTY_FIVE_HUNDRED: u64 = 0x40B5_7C00_0000_0000;

/// The sign bit.
pub const SIGN_BIT: u64 = 0x8000_0000_0000_0000;
/// Bit pattern of +infinity: the largest magnitude that is not a NaN.
pub const INFINITY_MAGNITUDE: u64 = 0x7FF0_0000_0000_0000;

/// The bits of a value without its sign.
pub open spec fn magnitude(bits: u64) -> int {
    if bits >= SIGN_BIT {
        bits - SIGN_BIT
    } else {
        bits as int
    }
}

/// The value is a NaN: all exponent bits set and a nonzero fraction.
pub open spec fn is_nan(bits: u64) -> bool {
    magnitude(bits) > INFINITY_MAGNITUDE
}

/// A key that orders the non-NaN values as the reals they stand for, with -0.0
/// just below +0.0.
pub open spec fn order_key(bits: u64) -> int {
    if bits >= SIGN_BIT {
        u64::MAX - bits
    } else {
        bits + SIGN_BIT
    }
}

/// IEEE-754 `a < b`.
pub open spec fn f64_lt(a: u64, b: u64) -> bool {
    &&& !is_nan(a)
    &&& !is_nan(b)
    &&& !(magnitude(a) == 0 && magnitude(b) == 0)
    &&& order_key(a) < order_key(b)
}

/// IEEE-754 `a <= b`.
pub open spec fn f64_le(a: u64, b: u64) -> bool {
    &&& !is_nan(a)
    &&& !is_nan(b)
    &&& (order_key(a) <= order_key(b) || (magnitude(a) == 0 && magnitude(b) == 0))
}

fn magnitude_of(bits: u64) -> (r: u64)
    ensures
        r == magnitude(bits),
{
    if bits >= SIGN_BIT {
        bits - SIGN_BIT
    } else {
        bits
    }
}

fn key_of(bits: u64) -> (r: u64)
    ensures
        r == order_key(bits),
{
    if bits >= SIGN_BIT {
        u64::MAX - bits
    } else {
        bits + SIGN_BIT
    }
}

/// Whether a bit pattern is a NaN.
pub fn is_nan_bits(bits: u64) -> (r: bool)
    ensures
        r == is_nan(bits),
{
    magnitude_of(bits) > INFINITY_MAGNITUDE
}

/// IEEE-754 `a < b` on bit patterns.
pub fn lt_bits(a: u64, b: u64) -> (r: bool)
    ensures
        r == f64_lt(a, b),
{
    if is_nan_bits(a) || is_nan_bits(b) {
        return false;
    }
    let ma = magnitude_of(a);
    let mb = magnitude_of(b);
    if ma == 0 && mb == 0 {
        return false;
    }
    key_of(a) < key_of(b)
}

/// IEEE-754 `a <= b` on bit patterns.
pub fn le_bits(a: u64, b: u64) -> (r: bool)
    ensures
        r == f64_le(a, b),
{
    if is_nan_bits(a) || is_nan_bits(b) {
        return false;
    }
    let ma = magnitude_of(a);
    let mb = magnitude_of(b);
    key_of(a) <= key_of(b) || (ma == 0 && mb == 0)
}

/// The tectonic severity band of `x` (magnetic field plus normalized temperature):
/// below 0.2 is 1, `[0.2, 0.4)` is 2, `[0.4, 0.6)` is 3, `[0.6, 1.0]` is 4,
/// `[1.0, 1.2)` is 5 (so 1.0 itself is 4), `[1.2, 1.4)` is 6, `[1.4, 10.0)` is 7, and
/// anything else, NaN included, is 0. The bands are tried in that order.
pub open spec fn tectonic_severity_of(x: u64) -> u8 {
    if f64_lt(x, TWO_TENTHS) {
        1
    } else if f64_le(TWO_TENTHS, x) && f64_lt(x, FOUR_TENTHS) {
        2
    } else if f64_le(FOUR_TENTHS, x) && f64_lt(x, SIX_TENTHS) {
        3
    } else if f64_le(SIX_TENTHS, x) && f64_le(x, ONE) {
        4
    } else if f64_le(ONE, x) && f64_lt(x, TWELVE_TENTHS) {
        5
    } else if f64_le(TWELVE_TENTHS, x) && f64_lt(x, FOURTEEN_TENTHS) {
        6
    } else if f64_le(FOURTEEN_TENTHS, x) && f64_lt(x, TEN) {
        7
    } else {
        0
    }
}

/// The tectonic severity band of the value whose bit pattern is `x`.
pub fn tectonic_severity(x: u64) -> (r: u8)
    ensures
        r == tectonic_severity_of(x),
        r <= 7,
{
    if lt_bits(x, TWO_TENTHS) {
        1
    } else if le_bits(TWO_TENTHS, x) && lt_bits(x, FOUR_TENTHS) {
        2
    } else if le_bits(FOUR_TENTHS, x) && lt_bits(x, SIX_TENTHS) {
        3
    } else if le_bits(SIX_TENTHS, x) && le_bits(x, ONE) {
        4
    } else if le_bits(ONE, x) && lt_bits(x, TWELVE_TENTHS) {
        5
    } else if le_bits(TWELVE_TENTHS, x) && lt_bits(x, FOURTEEN_TENTHS) {
        6
    } else if le_bits(FOURTEEN_TENTHS, x) && lt_bits(x, TEN) {
        7
    } else {
        0
    }
}

/// The name of a tectonic severity band.
pub open spec fn tectonic_label_of(severity: u8) -> Seq<char> {
    if severity == 1 {
        "Dormant"@
    } else if severity == 2 {
        "Barely Active"@
    } else if severity == 3 {
        "Weakly Active"@
    } else if severity == 4 {
        "Moderately Active"@
    } else if severity == 5 {
        "Strongly Active"@
    } else if severity == 6 {
        "Unstable"@
    } else if severity == 7 {
        "Permanent Resurfacing"@
    } else {
        "None"@
    }
}

/// The name of a tectonic severity band.
pub fn tectonic_label(severity: u8) -> (r: &'static str)
    ensures
        r@ == tectonic_label_of(severity),
{
    match severity {
        1 => "Dormant",
        2 => "Barely Active",
        3 => "Weakly Active",
        4 => "Moderately Active",
        5 => "Strongly Active",
        6 => "Unstable",
        7 => "Permanent Resurfacing",
        _ => "None",
    }
}

/// The four composition classes of a planet.
#[derive(Debug, Clone, Copy, PartialEq, Eq, Structural)]
pub enum Composition {
    GasGiant,
    IceWorld,
    RockyVolatile,
    RockyMetallic,
}

/// The composition class for a density (kg/m^3) and a mass (Earth masses): below
/// 3000 a gas giant from 10 Earth masses up and an ice world under 10, below 5500 a
/// rocky world with a volatile-rich crust, and otherwise a rocky world with a metallic
/// core. The tests are tried in that order with IEEE-754 comparisons.
pub open spec fn composition_of(density: u64, earth_mass: u64) -> Composition {
    if f64_lt(density, THREE_THOUSAND) && f64_le(TEN, earth_mass) {
        Composition::GasGiant
    } else if f64_lt(density, THREE_THOUSAND) && f64_lt(earth_mass, TEN) {
        Composition::IceWorld
    } else if f64_lt(density, FIFTY_FIVE_HUNDRED) {
        Composition::RockyVolatile
    } else {
        Composition::RockyMetallic
    }
}

/// The composition class for the density and mass whose bit patterns are given.
pub fn composition(density: u64, earth_mass: u64) -> (r: Composition)
    ensures
        r == composition_of(density, earth_mass),
{
    if lt_bits(density, THREE_THOUSAND) && le_bits(TEN, earth_mass) {
        Composition::GasGiant
    } else if lt_bits(density, THREE_THOUSAND) && lt_bits(earth_mass, TEN) {
        Composition::IceWorld
    } else if lt_bits(density, FIFTY_FIVE_HUNDRED) {
        Composition::RockyVolatile
    } else {
        Composition::RockyMetallic
    }
}

/// The label of a composition class.
pub open spec fn composition_label_of(c: Composition) -> Seq<char> {
    match c {
        Composition::GasGiant => "gas giant"@,
        Composition::IceWorld => "ice world"@,
        Composition::RockyVolatile => "rocky with volatile-rich crust"@,
        Composition::RockyMetallic => "rocky with metallic core"@,
    }
}

impl Composition {
    /// The label of this composition class.
    pub fn label(&self) -> (r: &'static str)
        ensures
            r@ == composition_label_of(*self),
    {
        match self {
            Composition::GasGiant => "gas giant",
            Composition::IceWorld => "ice world",
            Composition::RockyVolatile => "rocky with volatile-rich crust",
            Composition::RockyMetallic => "rocky with metallic core",
        }
    }
}

} // verus!
