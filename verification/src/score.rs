//! The three-component score vector.

use vstd::prelude::*;

verus! {

/// Bit pattern of the 64-bit IEEE-754 number `0.0`.
pub const ZERO_BITS: u64 = 0;

/// Bit pattern of the 64-bit IEEE-754 number `1.0`.
pub const ONE_BITS: u64 = 0x3FF0_0000_0000_0000;

/// A three-component score vector (hourly, daily, monthly).
///
/// Each component holds the bit pattern of a 64-bit IEEE-754 number. The
/// same type serves as an accumulated energy per key and as a weight
/// vector for scoring. The table's algebra stores, compares and moves
/// these patterns; the floating-point kernels that produce new patterns
/// run with the caller.
#[derive(Clone, Copy, Debug, PartialEq, Eq, Structural)]
pub struct TVec3 {
    pub hourly: u64,
    pub daily: u64,
    pub monthly: u64,
}

impl TVec3 {
    /// A vector with all three components equal to `c`.
    pub fn new(c: u64) -> (v: TVec3)
        ensures
            v == (TVec3 { hourly: c, daily: c, monthly: c }),
    {
        TVec3 { hourly: c, daily: c, monthly: c }
    }
}

} // verus!
