use vstd::prelude::*;
use crate::classify::{f64_le, is_nan, is_nan_bits, lt_bits};

verus! {

/// The orbit radius of a moon: the larger of the scaled Hill-sphere bound and the
/// Roche limit, so that no moon orbits inside the Roche limit or beyond the share of
/// the Hill sphere drawn for it. Both come in, and the result goes out, as IEEE-754
/// bit patterns; a NaN bound gives way to the other one, as `f64::max` does.
pub fn moon_orbit_radius(hill: u64, roche: u64) -> (r: u64)
    ensures
        !is_nan(hill) && !is_nan(roche) ==> f64_le(hill, r) && f64_le(roche, r) && (r == hill || r == roche),
        is_nan(hill) ==> r == roche,
        is_nan(roche) && !is_nan(hill) ==> r == hill,
{
    if is_nan_bits(hill) {
        roche
    } else if is_nan_bits(roche) {
        hill
    } else if lt_bits(hill, roche) {
        roche
    } else {
        assert(f64_le(roche, hill));
        hill
    }
}

} // verus!
