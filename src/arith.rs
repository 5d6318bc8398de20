//! Saturating fixed-point arithmetic on lengths.
//!
//! Every length in this crate is an `i64` counting thousandths of a pixel.
//! Sums and differences saturate at the bounds of `i64`, so no geometry
//! computation can overflow.
use vstd::prelude::*;

verus! {

/// Thousandths of a pixel in one pixel.
pub const UNITS_PER_PX: i64 = 1000;

/// The value `x` clamped into the range of `i64`.
pub open spec fn clamp64(x: int) -> int {
    if x > i64::MAX {
        i64::MAX as int
    } else if x < i64::MIN {
        i64::MIN as int
    } else {
        x
    }
}

/// Saturating sum of two lengths.
pub fn sat_add(a: i64, b: i64) -> (r: i64)
    ensures
        r == clamp64(a + b),
{
    match a.checked_add(b) {
        Some(s) => s,
        None => if b > 0 {
            i64::MAX
        } else {
            i64::MIN
        },
    }
}

/// Saturating difference of two lengths.
pub fn sat_sub(a: i64, b: i64) -> (r: i64)
    ensures
        r == clamp64(a - b),
{
    match a.checked_sub(b) {
        Some(s) => s,
        None => if b < 0 {
            i64::MAX
        } else {
            i64::MIN
        },
    }
}

/// Saturating product of two numbers.
pub fn sat_mul(a: i64, b: i64) -> (r: i64)
    ensures
        r == clamp64(a * b),
{
    match a.checked_mul(b) {
        Some(s) => s,
        None => if (a > 0) == (b > 0) {
            assert(a * b > i64::MAX) by (nonlinear_arith)
                requires
                    a * b > i64::MAX || a * b < i64::MIN,
                    (a > 0) == (b > 0),
                    a != 0,
                    b != 0,
            ;
            i64::MAX
        } else {
            assert(a * b < i64::MIN) by (nonlinear_arith)
                requires
                    a * b > i64::MAX || a * b < i64::MIN,
                    (a > 0) != (b > 0),
                    a != 0,
                    b != 0,
            ;
            i64::MIN
        },
    }
}

/// The larger of two lengths.
pub fn max_len(a: i64, b: i64) -> (r: i64)
    ensures
        r == if a >= b { a } else { b },
{
    if a >= b {
        a
    } else {
        b
    }
}

} // verus!
