//! The numeric domain of the bytecode interpreter: 64-bit integers with
//! saturating arithmetic, and a total division that yields 0 on a zero
//! divisor. Keeping every operation total means an evolved program can
//! never make the interpreter fault, whatever operands mutation produced.
use vstd::prelude::*;

verus! {

/// Clamp a mathematical integer into the `i64` range.
pub open spec fn sat64(x: int) -> i64 {
    if x > i64::MAX {
        i64::MAX
    } else if x < i64::MIN {
        i64::MIN
    } else {
        x as i64
    }
}

/// Saturating addition.
pub open spec fn spec_sadd(a: i64, b: i64) -> i64 {
    sat64(a + b)
}

/// Saturating subtraction.
pub open spec fn spec_ssub(a: i64, b: i64) -> i64 {
    sat64(a - b)
}

/// Saturating multiplication.
pub open spec fn spec_smul(a: i64, b: i64) -> i64 {
    sat64(a * b)
}

/// Magnitude of an `i64` as a mathematical integer.
pub open spec fn mag(a: i64) -> int {
    if a >= 0 {
        a as int
    } else {
        -(a as int)
    }
}

/// Division, truncating toward zero as Rust's `/` does, saturated into
/// `i64` and total: a zero divisor yields 0.
pub open spec fn spec_sdiv(a: i64, b: i64) -> i64 {
    if b == 0 {
        0
    } else if (a < 0) == (b < 0) {
        sat64(mag(a) / mag(b))
    } else {
        sat64(-(mag(a) / mag(b)))
    }
}

pub fn sadd(a: i64, b: i64) -> (r: i64)
    ensures
        r == spec_sadd(a, b),
{
    match a.checked_add(b) {
        Some(v) => v,
        None => if b > 0 {
            i64::MAX
        } else {
            i64::MIN
        },
    }
}

pub fn ssub(a: i64, b: i64) -> (r: i64)
    ensures
        r == spec_ssub(a, b),
{
    match a.checked_sub(b) {
        Some(v) => v,
        None => if b < 0 {
            i64::MAX
        } else {
            i64::MIN
        },
    }
}

pub fn smul(a: i64, b: i64) -> (r: i64)
    ensures
        r == spec_smul(a, b),
{
    proof {
        if a >= 0 && b >= 0 {
            assert(a * b >= 0) by (nonlinear_arith)
                requires
                    a >= 0,
                    b >= 0,
            ;
        }
        if a < 0 && b < 0 {
            assert(a * b > 0) by (nonlinear_arith)
                requires
                    a < 0,
                    b < 0,
            ;
        }
        if a >= 0 && b < 0 {
            assert(a * b <= 0) by (nonlinear_arith)
                requires
                    a >= 0,
                    b < 0,
            ;
        }
        if a < 0 && b >= 0 {
            assert(a * b <= 0) by (nonlinear_arith)
                requires
                    a < 0,
                    b >= 0,
            ;
        }
    }
    match a.checked_mul(b) {
        Some(v) => v,
        None => if (a < 0) == (b < 0) {
            i64::MAX
        } else {
            i64::MIN
        },
    }
}

pub fn sdiv(a: i64, b: i64) -> (r: i64)
    ensures
        r == spec_sdiv(a, b),
{
    if b == 0 {
        return 0;
    }
    match a.checked_div(b) {
        Some(v) => v,
        // the one overflowing case: i64::MIN / -1, whose true quotient
        // exceeds i64::MAX
        None => i64::MAX,
    }
}

} // verus!
