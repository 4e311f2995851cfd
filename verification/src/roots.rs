//! The roots `(-b ± √D) / 2a` of `a·x² + b·x + c` over the integers, each
//! truncated toward zero.
//!
//! Nothing here rounds: the square root of the discriminant enters only
//! through its two neighbouring integers, so every value is the exact
//! truncation of the real root.

use vstd::prelude::*;
use crate::sqrt::{ceil_sqrt, floor_sqrt, isqrt};
use crate::sqrt::{lemma_floor_sqrt_exists, lemma_square_monotonic};

verus! {

/// The discriminant `b² − 4ac`.
pub open spec fn discriminant(a: int, b: int, c: int) -> int {
    b * b - 4 * a * c
}

/// The absolute value of `n`.
pub open spec fn magnitude(n: int) -> int {
    if n >= 0 {
        n
    } else {
        -n
    }
}

/// The quotient `n / d` truncated toward zero, for `d != 0`.
pub open spec fn trunc_div(n: int, d: int) -> int {
    if (n >= 0) == (d > 0) {
        magnitude(n) / magnitude(d)
    } else {
        -(magnitude(n) / magnitude(d))
    }
}

/// `p + √d` (`plus`) or `p − √d` truncated toward zero, told from `√d`
/// rounded down and rounded up.
///
/// A sum that is not negative is rounded down, a negative one is rounded up.
pub open spec fn trunc_sum(p: int, plus: bool, down: int, up: int) -> int {
    if plus {
        if p + down >= 0 {
            p + down
        } else {
            p + up
        }
    } else {
        if p - up >= 0 {
            p - up
        } else {
            p - down
        }
    }
}

/// `p + √d` (`plus`) or `p − √d` truncated toward zero, for `d >= 0`.
pub open spec fn trunc_surd(p: int, plus: bool, d: int) -> int {
    trunc_sum(p, plus, floor_sqrt(d), ceil_sqrt(d))
}

/// The root `(-b + √D) / 2a` (`plus`) or `(-b − √D) / 2a`, truncated toward
/// zero, for `a != 0` and `D >= 0`.
pub open spec fn candidate(a: int, b: int, c: int, plus: bool) -> int {
    trunc_div(trunc_surd(-b, plus, discriminant(a, b, c)), 2 * a)
}

/// `x` brought into the range of `i32`: what lies beyond an end becomes that end.
pub open spec fn saturate(x: int) -> int {
    if x < i32::MIN {
        i32::MIN as int
    } else if x > i32::MAX {
        i32::MAX as int
    } else {
        x
    }
}

/// The smaller of two integers.
pub open spec fn lesser(x: int, y: int) -> int {
    if x < y {
        x
    } else {
        y
    }
}

/// The larger of two integers.
pub open spec fn greater(x: int, y: int) -> int {
    if x < y {
        y
    } else {
        x
    }
}

/// The two roots, each truncated toward zero, the smaller one first, for
/// `a != 0` and `D >= 0`.
pub open spec fn ordered_roots(a: int, b: int, c: int) -> (int, int) {
    let x = candidate(a, b, c, true);
    let y = candidate(a, b, c, false);
    (lesser(x, y), greater(x, y))
}

/// What solving `a·x² + b·x + c = 0` yields.
///
/// - `a == 0`: the pair `(0, 0)`, whatever `b` and `c` are.
/// - `D < 0`: nothing, there is no real root.
/// - `D == 0`: the double root `-b / 2a`, twice.
/// - `D > 0`: the two roots in ascending order.
///
/// Each root is truncated toward zero and then brought into the range of `i32`.
pub open spec fn solution(a: int, b: int, c: int) -> Option<(int, int)> {
    let d = discriminant(a, b, c);
    if a == 0 {
        Some((0int, 0int))
    } else if d < 0 {
        None
    } else if d == 0 {
        let r = saturate(trunc_div(-b, 2 * a));
        Some((r, r))
    } else {
        let (low, high) = ordered_roots(a, b, c);
        Some((saturate(low), saturate(high)))
    }
}

/// The discriminant of 32-bit coefficients fits in 66 bits.
pub proof fn lemma_discriminant_bounds(a: i32, b: i32, c: i32)
    ensures
        -0x1_0000_0000_0000_0000 <= discriminant(a as int, b as int, c as int)
            <= 0x1_4000_0000_0000_0000,
{
    let (a, b, c) = (a as int, b as int, c as int);
    assert(-0x4000_0000_0000_0000 <= a * c <= 0x4000_0000_0000_0000) by (nonlinear_arith)
        requires
            -0x8000_0000 <= a <= 0x7fff_ffff,
            -0x8000_0000 <= c <= 0x7fff_ffff,
    ;
    assert(0 <= b * b <= 0x4000_0000_0000_0000) by (nonlinear_arith)
        requires
            -0x8000_0000 <= b <= 0x7fff_ffff,
    ;
    assert(4 * a * c == 4 * (a * c)) by (nonlinear_arith);
}

/// Computes the discriminant `b² − 4ac`, exactly.
pub fn discriminant_of(a: i32, b: i32, c: i32) -> (d: i128)
    ensures
        d == discriminant(a as int, b as int, c as int),
{
    proof {
        lemma_discriminant_bounds(a, b, c);
    }
    let wide_a: i128 = a as i128;
    let wide_b: i128 = b as i128;
    let wide_c: i128 = c as i128;
    assert(-0x4000_0000_0000_0000 <= wide_a * wide_c <= 0x4000_0000_0000_0000)
        by (nonlinear_arith)
        requires
            -0x8000_0000 <= wide_a <= 0x7fff_ffff,
            -0x8000_0000 <= wide_c <= 0x7fff_ffff,
    ;
    assert(0 <= wide_b * wide_b <= 0x4000_0000_0000_0000) by (nonlinear_arith)
        requires
            -0x8000_0000 <= wide_b <= 0x7fff_ffff,
    ;
    assert(4 * wide_a * wide_c == 4 * (wide_a * wide_c)) by (nonlinear_arith);
    wide_b * wide_b - 4 * (wide_a * wide_c)
}

/// Divides, truncating toward zero.
pub(crate) fn quotient(n: i64, d: i64) -> (q: i64)
    requires
        d != 0,
        n > i64::MIN,
        d > i64::MIN,
    ensures
        q == trunc_div(n as int, d as int),
{
    let size_n: u64 = if n >= 0 {
        n as u64
    } else {
        (-n) as u64
    };
    let size_d: u64 = if d >= 0 {
        d as u64
    } else {
        (-d) as u64
    };
    let size_q: u64 = size_n / size_d;
    assert(size_q <= size_n) by (nonlinear_arith)
        requires
            size_q == size_n / size_d,
            size_d > 0,
    ;
    if (n >= 0) == (d > 0) {
        size_q as i64
    } else {
        -(size_q as i64)
    }
}

/// Computes the square root of a discriminant, rounded down and rounded up.
pub(crate) fn root_bounds(d: u128) -> (bounds: (i64, i64))
    requires
        d <= 0x1_4000_0000_0000_0000,
    ensures
        bounds.0 == floor_sqrt(d as int),
        bounds.1 == ceil_sqrt(d as int),
        0 <= bounds.0 <= bounds.1 <= 0x2_0000_0000,
{
    let down: u64 = isqrt(d);
    proof {
        lemma_floor_sqrt_exists(d as int);
        if down >= 0x2_0000_0000 {
            lemma_square_monotonic(0x2_0000_0000, down as int);
        }
    }
    let wide: u128 = down as u128;
    if wide * wide == d {
        (down as i64, down as i64)
    } else {
        (down as i64, down as i64 + 1)
    }
}

/// Computes `p + √d` or `p − √d` truncated toward zero, from `√d` rounded
/// down and rounded up.
pub(crate) fn whole_sum(p: i64, plus: bool, down: i64, up: i64) -> (n: i64)
    requires
        -0x8000_0000 <= p <= 0x8000_0000,
        0 <= down <= up <= 0x2_0000_0000,
    ensures
        n == trunc_sum(p as int, plus, down as int, up as int),
        -0x4_0000_0000 <= n <= 0x4_0000_0000,
{
    if plus {
        if p + down >= 0 {
            p + down
        } else {
            p + up
        }
    } else {
        if p - up >= 0 {
            p - up
        } else {
            p - down
        }
    }
}

/// Brings `x` into the range of `i32`.
pub(crate) fn saturated(x: i64) -> (r: i32)
    ensures
        r == saturate(x as int),
{
    if x < i32::MIN as i64 {
        i32::MIN
    } else if x > i32::MAX as i64 {
        i32::MAX
    } else {
        x as i32
    }
}

} // verus!
