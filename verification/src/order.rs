//! The order on stored scores, read off their IEEE-754 bit patterns.
//!
//! A 64-bit IEEE-754 number is a sign bit, an 11-bit exponent and a
//! 52-bit fraction. For two values that are not NaN, the floating-point
//! comparison agrees with the integer order of the patterns' magnitude
//! parts, taken positively under a clear sign bit and negatively under a
//! set one; the two zero patterns (`0x0` and `0x8000_0000_0000_0000`)
//! both sit at magnitude zero and so compare equal, as `0.0 == -0.0`
//! does. [`flt_key`] maps a pattern to that signed magnitude, and the
//! executable comparisons below are proved against it, so ranking and
//! expiry run on plain integer arithmetic.

use vstd::prelude::*;

verus! {

/// The pattern is a NaN: exponent all ones, fraction not zero.
pub open spec fn is_nan_bits(b: u64) -> bool {
    (b >> 52) & 0x7ff == 0x7ff && (b & 0xf_ffff_ffff_ffff) != 0
}

/// The signed magnitude of a pattern: the integer that orders non-NaN
/// 64-bit IEEE-754 values exactly as floating-point comparison does.
pub open spec fn flt_key(b: u64) -> int {
    if b >> 63 == 0 {
        (b & 0x7fff_ffff_ffff_ffff) as int
    } else {
        -((b & 0x7fff_ffff_ffff_ffff) as int)
    }
}

/// Floating-point `>` on patterns: false whenever either side is NaN.
pub open spec fn f64_gt(a: u64, b: u64) -> bool {
    &&& !is_nan_bits(a)
    &&& !is_nan_bits(b)
    &&& flt_key(a) > flt_key(b)
}

/// Floating-point `>=` on patterns: false whenever either side is NaN.
pub open spec fn f64_ge(a: u64, b: u64) -> bool {
    &&& !is_nan_bits(a)
    &&& !is_nan_bits(b)
    &&& flt_key(a) >= flt_key(b)
}

/// Whether the pattern `b` is a NaN.
pub fn is_nan(b: u64) -> (r: bool)
    ensures
        r == is_nan_bits(b),
{
    (b >> 52) & 0x7ff == 0x7ff && (b & 0xf_ffff_ffff_ffff) != 0
}

/// Floating-point `>` computed on the patterns alone.
pub fn gt_bits(a: u64, b: u64) -> (r: bool)
    ensures
        r == f64_gt(a, b),
{
    if is_nan(a) || is_nan(b) {
        false
    } else {
        let ma: u64 = a & 0x7fff_ffff_ffff_ffff;
        let mb: u64 = b & 0x7fff_ffff_ffff_ffff;
        if a >> 63 == 0 {
            if b >> 63 == 0 {
                ma > mb
            } else {
                ma != 0 || mb != 0
            }
        } else {
            if b >> 63 == 0 {
                false
            } else {
                ma < mb
            }
        }
    }
}

} // verus!
