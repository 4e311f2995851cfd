//! Where an integer lies relative to the real roots of `a·x² + b·x + c`,
//! told from the signs of the polynomial and of its slope alone.
//!
//! With `a != 0` and `D >= 0` the polynomial has two real roots `lo <= hi`,
//! and its slope `2·a·x + b` vanishes midway between them. Multiplied by
//! `a`, the polynomial is negative strictly between the roots and positive
//! outside, and the slope is negative left of the midpoint and positive
//! right of it.

use vstd::prelude::*;
use crate::roots::{candidate, discriminant, magnitude, ordered_roots, trunc_div, trunc_surd};
use crate::sqrt::{ceil_sqrt, floor_sqrt, lemma_ceil_sqrt, lemma_floor_sqrt_exists};
use crate::sqrt::lemma_square_monotonic;

verus! {

/// The polynomial's value `a·k² + b·k + c`.
pub open spec fn value_at(a: int, b: int, c: int, k: int) -> int {
    a * k * k + b * k + c
}

/// The polynomial's slope `2·a·k + b`.
pub open spec fn slope_at(a: int, b: int, k: int) -> int {
    2 * a * k + b
}

/// `k > hi`: `k` lies strictly right of both roots.
pub open spec fn right_of_roots(a: int, b: int, c: int, k: int) -> bool {
    a * value_at(a, b, c, k) > 0 && a * slope_at(a, b, k) > 0
}

/// `k >= hi`: `k` lies at the larger root or right of it.
pub open spec fn reaches_upper_root(a: int, b: int, c: int, k: int) -> bool {
    a * value_at(a, b, c, k) >= 0 && a * slope_at(a, b, k) >= 0
}

/// `k < lo`: `k` lies strictly left of both roots.
pub open spec fn left_of_roots(a: int, b: int, c: int, k: int) -> bool {
    a * value_at(a, b, c, k) > 0 && a * slope_at(a, b, k) < 0
}

/// `k <= lo`: `k` lies at the smaller root or left of it.
pub open spec fn reaches_lower_root(a: int, b: int, c: int, k: int) -> bool {
    a * value_at(a, b, c, k) >= 0 && a * slope_at(a, b, k) <= 0
}

/// `t` is the larger root truncated toward zero: rounded up where the root
/// is negative, rounded down where it is not.
pub open spec fn is_truncated_upper_root(a: int, b: int, c: int, t: int) -> bool {
    if right_of_roots(a, b, c, 0) {
        reaches_upper_root(a, b, c, t) && !reaches_upper_root(a, b, c, t - 1)
    } else {
        !right_of_roots(a, b, c, t) && right_of_roots(a, b, c, t + 1)
    }
}

/// `t` is the smaller root truncated toward zero: rounded down where the
/// root is positive, rounded up where it is not.
pub open spec fn is_truncated_lower_root(a: int, b: int, c: int, t: int) -> bool {
    if left_of_roots(a, b, c, 0) {
        reaches_lower_root(a, b, c, t) && !reaches_lower_root(a, b, c, t + 1)
    } else {
        left_of_roots(a, b, c, t - 1) && !left_of_roots(a, b, c, t)
    }
}

/// Completing the square: `4a·(a·k² + b·k + c) = (2·a·k + b)² − D`.
pub proof fn lemma_completed_square(a: int, b: int, c: int, k: int)
    ensures
        4 * a * value_at(a, b, c, k)
            == slope_at(a, b, k) * slope_at(a, b, k) - discriminant(a, b, c),
{
    assert(4 * a * (a * k * k + b * k + c) == (2 * a * k + b) * (2 * a * k + b) - (b * b - 4 * a
        * c)) by (nonlinear_arith);
}

/// The slope at `k`, with its sign turned where `a` is negative: it grows
/// with `k` whatever the sign of `a` is.
pub open spec fn offset(a: int, b: int, k: int) -> int {
    if a > 0 {
        slope_at(a, b, k)
    } else {
        -slope_at(a, b, k)
    }
}

/// How an integer compares with `√d`, told by the two rounded roots.
proof fn lemma_against_root(t: int, d: int)
    requires
        d >= 0,
    ensures
        (t > 0 && t * t > d) <==> t >= floor_sqrt(d) + 1,
        (t >= 0 && t * t >= d) <==> t >= ceil_sqrt(d),
        (t < 0 && t * t > d) <==> t <= -floor_sqrt(d) - 1,
        (t <= 0 && t * t >= d) <==> t <= -ceil_sqrt(d),
{
    lemma_floor_sqrt_exists(d);
    lemma_ceil_sqrt(d);
    let low = floor_sqrt(d);
    let high = ceil_sqrt(d);
    let size = magnitude(t);
    assert(size * size == t * t) by (nonlinear_arith)
        requires
            size == t || size == -t,
    ;
    if size >= low + 1 {
        lemma_square_monotonic(low + 1, size);
    } else {
        lemma_square_monotonic(size, low);
    }
    if size >= high {
        lemma_square_monotonic(high, size);
    } else {
        lemma_square_monotonic(size, high - 1);
    }
}

/// Where `k` lies relative to the roots, told by its offset and the two
/// rounded roots of the discriminant.
proof fn lemma_position(a: int, b: int, c: int, k: int)
    requires
        a != 0,
        discriminant(a, b, c) >= 0,
    ensures
        right_of_roots(a, b, c, k) <==> offset(a, b, k) >= floor_sqrt(discriminant(a, b, c)) + 1,
        reaches_upper_root(a, b, c, k) <==> offset(a, b, k) >= ceil_sqrt(discriminant(a, b, c)),
        left_of_roots(a, b, c, k) <==> offset(a, b, k) <= -floor_sqrt(discriminant(a, b, c)) - 1,
        reaches_lower_root(a, b, c, k) <==> offset(a, b, k) <= -ceil_sqrt(discriminant(a, b, c)),
{
    let d = discriminant(a, b, c);
    let u = slope_at(a, b, k);
    let t = offset(a, b, k);
    let v = value_at(a, b, c, k);
    lemma_completed_square(a, b, c, k);
    lemma_against_root(t, d);
    assert(t * t == u * u) by (nonlinear_arith)
        requires
            t == u || t == -u,
    ;
    assert(4 * a * v == 4 * (a * v)) by (nonlinear_arith);
    assert((a * u > 0 <==> t > 0) && (a * u < 0 <==> t < 0) && (a * u == 0 <==> t == 0))
        by (nonlinear_arith)
        requires
            a != 0,
            t == (if a > 0 {
                u
            } else {
                -u
            }),
    ;
}

/// Between which multiples of a positive divisor a number lies, told by
/// its quotient truncated toward zero.
proof fn lemma_trunc_div_brackets(n: int, q: int)
    requires
        q > 0,
    ensures
        n >= 0 ==> q * trunc_div(n, q) <= n < q * (trunc_div(n, q) + 1),
        n <= 0 ==> q * (trunc_div(n, q) - 1) < n <= q * trunc_div(n, q),
        n >= 0 ==> trunc_div(n, q) >= 0,
        n <= 0 ==> trunc_div(n, q) <= 0,
{
    let size = magnitude(n);
    let whole = size / q;
    assert(q * whole <= size < q * (whole + 1) && whole >= 0) by (nonlinear_arith)
        requires
            q > 0,
            size >= 0,
            whole == size / q,
    ;
    assert(q * (-whole) == -(q * whole)) by (nonlinear_arith);
    assert(q * (-whole - 1) == -(q * (whole + 1))) by (nonlinear_arith);
}

/// Truncated division by a positive divisor keeps the order.
proof fn lemma_trunc_div_monotonic(m: int, n: int, q: int)
    requires
        m <= n,
        q > 0,
    ensures
        trunc_div(m, q) <= trunc_div(n, q),
{
    lemma_trunc_div_brackets(m, q);
    lemma_trunc_div_brackets(n, q);
    if m >= 0 {
        vstd::arithmetic::div_mod::lemma_div_is_ordered(m, n, q);
    } else if n < 0 {
        vstd::arithmetic::div_mod::lemma_div_is_ordered(-n, -m, q);
    }
}

/// Turning the signs of both the number and the divisor keeps the
/// truncated quotient.
proof fn lemma_trunc_div_mirrored(n: int, q: int)
    requires
        q != 0,
    ensures
        trunc_div(-n, -q) == trunc_div(n, q),
{
    if n == 0 {
        assert(0int / magnitude(q) == 0) by (nonlinear_arith)
            requires
                magnitude(q) > 0,
        ;
    }
}

/// Turning the signs of both the whole part and the square root turns the
/// sign of the truncated sum.
proof fn lemma_trunc_surd_mirrored(p: int, plus: bool, d: int)
    requires
        d >= 0,
    ensures
        trunc_surd(-p, !plus, d) == -trunc_surd(p, plus, d),
{
    lemma_floor_sqrt_exists(d);
    lemma_ceil_sqrt(d);
}

/// The sum with the square root added is no smaller than the one with it
/// taken away.
proof fn lemma_trunc_surd_ordered(p: int, d: int)
    requires
        d >= 0,
    ensures
        trunc_surd(p, false, d) <= trunc_surd(p, true, d),
{
    lemma_floor_sqrt_exists(d);
    lemma_ceil_sqrt(d);
}

/// The larger root `(p + √d) / q` with `q > 0`, truncated toward zero,
/// against the multiples of `q` next to it.
proof fn lemma_upper_quotient(p: int, q: int, d: int)
    requires
        q > 0,
        d >= 0,
    ensures
        ({
            let t = trunc_div(trunc_surd(p, true, d), q);
            if p + floor_sqrt(d) < 0 {
                q * t - p >= ceil_sqrt(d) && q * (t - 1) - p < ceil_sqrt(d)
            } else {
                q * t - p < floor_sqrt(d) + 1 && q * (t + 1) - p >= floor_sqrt(d) + 1
            }
        }),
{
    lemma_floor_sqrt_exists(d);
    lemma_ceil_sqrt(d);
    lemma_trunc_div_brackets(trunc_surd(p, true, d), q);
}

/// The smaller root `(p − √d) / q` with `q > 0`, truncated toward zero,
/// against the multiples of `q` next to it.
proof fn lemma_lower_quotient(p: int, q: int, d: int)
    requires
        q > 0,
        d >= 0,
    ensures
        ({
            let t = trunc_div(trunc_surd(p, false, d), q);
            if p - floor_sqrt(d) > 0 {
                q * t - p <= -ceil_sqrt(d) && q * (t + 1) - p > -ceil_sqrt(d)
            } else {
                q * (t - 1) - p <= -floor_sqrt(d) - 1 && q * t - p > -floor_sqrt(d) - 1
            }
        }),
{
    lemma_floor_sqrt_exists(d);
    lemma_ceil_sqrt(d);
    let n = trunc_surd(p, false, d);
    let t = trunc_div(n, q);
    lemma_trunc_div_brackets(n, q);
    if p - floor_sqrt(d) <= 0 && p - ceil_sqrt(d) >= 0 {
        assert(n == 0);
        assert(q * (t - 1) == q * t - q) by (nonlinear_arith);
    }
}

/// The two values that solving stores are the two real roots, each
/// truncated toward zero: the smaller root first.
///
/// No square root and no division enters the statement: it speaks only of
/// the signs that the polynomial and its slope take at the stored values
/// and at their neighbours.
pub proof fn lemma_roots_are_truncated(a: int, b: int, c: int)
    requires
        a != 0,
        discriminant(a, b, c) >= 0,
    ensures
        is_truncated_lower_root(a, b, c, ordered_roots(a, b, c).0),
        is_truncated_upper_root(a, b, c, ordered_roots(a, b, c).1),
{
    let d = discriminant(a, b, c);
    let (p, q) = if a > 0 {
        (-b, 2 * a)
    } else {
        (b, -2 * a)
    };
    let low = trunc_div(trunc_surd(p, false, d), q);
    let high = trunc_div(trunc_surd(p, true, d), q);
    lemma_trunc_surd_ordered(p, d);
    lemma_trunc_div_monotonic(trunc_surd(p, false, d), trunc_surd(p, true, d), q);
    if a < 0 {
        lemma_trunc_surd_mirrored(b, true, d);
        lemma_trunc_surd_mirrored(b, false, d);
        lemma_trunc_div_mirrored(trunc_surd(b, true, d), -2 * a);
        lemma_trunc_div_mirrored(trunc_surd(b, false, d), -2 * a);
        assert(-(-2 * a) == 2 * a);
        assert(candidate(a, b, c, false) == high);
        assert(candidate(a, b, c, true) == low);
    } else {
        assert(candidate(a, b, c, true) == high);
        assert(candidate(a, b, c, false) == low);
    }
    assert(ordered_roots(a, b, c) == (low, high));
    lemma_upper_quotient(p, q, d);
    lemma_lower_quotient(p, q, d);
    assert forall|k: int| offset(a, b, k) == q * k - p by {
        assert(-(2 * a * k) == (-2 * a) * k) by (nonlinear_arith);
    }
    lemma_position(a, b, c, 0);
    lemma_position(a, b, c, low - 1);
    lemma_position(a, b, c, low);
    lemma_position(a, b, c, low + 1);
    lemma_position(a, b, c, high - 1);
    lemma_position(a, b, c, high);
    lemma_position(a, b, c, high + 1);
}

/// The offset grows with `k`.
proof fn lemma_offset_grows(a: int, b: int, j: int, k: int)
    requires
        a != 0,
        j < k,
    ensures
        offset(a, b, j) < offset(a, b, k),
{
    assert(a > 0 ==> 2 * a * j < 2 * a * k) by (nonlinear_arith)
        requires
            j < k,
    ;
    assert(a < 0 ==> 2 * a * j > 2 * a * k) by (nonlinear_arith)
        requires
            j < k,
    ;
}

/// Only one integer is the larger root truncated toward zero, and only
/// one the smaller.
pub proof fn lemma_truncated_root_unique(a: int, b: int, c: int, s: int, t: int)
    requires
        a != 0,
        discriminant(a, b, c) >= 0,
    ensures
        is_truncated_upper_root(a, b, c, s) && is_truncated_upper_root(a, b, c, t) ==> s == t,
        is_truncated_lower_root(a, b, c, s) && is_truncated_lower_root(a, b, c, t) ==> s == t,
{
    lemma_position(a, b, c, 0);
    lemma_position(a, b, c, s - 1);
    lemma_position(a, b, c, s);
    lemma_position(a, b, c, s + 1);
    lemma_position(a, b, c, t - 1);
    lemma_position(a, b, c, t);
    lemma_position(a, b, c, t + 1);
    if s < t {
        lemma_offset_grows(a, b, s, t);
        if s + 1 < t {
            lemma_offset_grows(a, b, s + 1, t);
            lemma_offset_grows(a, b, s, t - 1);
        }
    } else if t < s {
        lemma_offset_grows(a, b, t, s);
        if t + 1 < s {
            lemma_offset_grows(a, b, t + 1, s);
            lemma_offset_grows(a, b, t, s - 1);
        }
    }
}

/// An integer that solves the equation is one of the two values that
/// solving stores.
pub proof fn lemma_integer_roots_are_found(a: int, b: int, c: int, k: int)
    requires
        a != 0,
        value_at(a, b, c, k) == 0,
    ensures
        discriminant(a, b, c) >= 0,
        k == ordered_roots(a, b, c).0 || k == ordered_roots(a, b, c).1,
{
    let d = discriminant(a, b, c);
    let u = slope_at(a, b, k);
    lemma_completed_square(a, b, c, k);
    assert(4 * a * 0 == 0);
    assert(u * u >= 0) by (nonlinear_arith);
    lemma_roots_are_truncated(a, b, c);
    lemma_position(a, b, c, 0);
    lemma_position(a, b, c, k - 1);
    lemma_position(a, b, c, k);
    lemma_position(a, b, c, k + 1);
    lemma_offset_grows(a, b, k - 1, k);
    lemma_offset_grows(a, b, k, k + 1);
    lemma_floor_sqrt_exists(d);
    lemma_ceil_sqrt(d);
    let t = offset(a, b, k);
    assert(t * t == d) by (nonlinear_arith)
        requires
            t == u || t == -u,
            u * u == d,
    ;
    lemma_against_root(t, d);
    if t >= 0 {
        assert(is_truncated_upper_root(a, b, c, k));
        lemma_truncated_root_unique(a, b, c, k, ordered_roots(a, b, c).1);
    } else {
        assert(is_truncated_lower_root(a, b, c, k));
        lemma_truncated_root_unique(a, b, c, k, ordered_roots(a, b, c).0);
    }
}

/// With 32-bit coefficients both roots lie strictly between `-(2³¹ + 1)`
/// and `2³¹ + 1`.
proof fn lemma_roots_enclosed(a: i32, b: i32, c: i32)
    requires
        a != 0,
    ensures
        right_of_roots(a as int, b as int, c as int, 0x8000_0001),
        left_of_roots(a as int, b as int, c as int, -0x8000_0001),
{
    let (a, b, c) = (a as int, b as int, c as int);
    let size = magnitude(a);
    let far: int = 0x8000_0001;
    // size·far² − 2³¹·far − 2³¹ >= far² − 2³¹·far − 2³¹ = 1
    assert(size * (far * far) >= far * far) by (nonlinear_arith)
        requires
            size >= 1,
            far == 0x8000_0001,
    ;
    assert(size * far >= far) by (nonlinear_arith)
        requires
            size >= 1,
            far == 0x8000_0001,
    ;
    assert(-0x8000_0000 * far <= b * far <= 0x8000_0000 * far) by (nonlinear_arith)
        requires
            -0x8000_0000 <= b <= 0x8000_0000,
            far == 0x8000_0001,
    ;
    assert(far * far - 0x8000_0000 * far - 0x8000_0000 == 1);
    let up = size * (far * far) + b * far + c;
    let down = size * (far * far) - b * far + c;
    let up_mirrored = size * (far * far) + b * far - c;
    let down_mirrored = size * (far * far) - b * far - c;
    assert(up > 0 && down > 0 && up_mirrored > 0 && down_mirrored > 0);
    assert(a * value_at(a, b, c, far) == size * (if a > 0 {
        up
    } else {
        down_mirrored
    })) by (nonlinear_arith)
        requires
            size == magnitude(a),
            up == size * (far * far) + b * far + c,
            down_mirrored == size * (far * far) - b * far - c,
    ;
    assert(a * value_at(a, b, c, -far) == size * (if a > 0 {
        down
    } else {
        up_mirrored
    })) by (nonlinear_arith)
        requires
            size == magnitude(a),
            down == size * (far * far) - b * far + c,
            up_mirrored == size * (far * far) + b * far - c,
    ;
    assert(a * value_at(a, b, c, far) > 0 && a * value_at(a, b, c, -far) > 0)
        by (nonlinear_arith)
        requires
            size >= 1,
            up > 0 && down > 0 && up_mirrored > 0 && down_mirrored > 0,
            a * value_at(a, b, c, far) == size * (if a > 0 {
                up
            } else {
                down_mirrored
            }),
            a * value_at(a, b, c, -far) == size * (if a > 0 {
                down
            } else {
                up_mirrored
            }),
    ;
    assert(a * slope_at(a, b, far) == size * (if a > 0 {
        2 * (size * far) + b
    } else {
        2 * (size * far) - b
    })) by (nonlinear_arith)
        requires
            size == magnitude(a),
    ;
    assert(a * slope_at(a, b, -far) == -(size * (if a > 0 {
        2 * (size * far) - b
    } else {
        2 * (size * far) + b
    }))) by (nonlinear_arith)
        requires
            size == magnitude(a),
    ;
    assert(a * slope_at(a, b, far) > 0 && a * slope_at(a, b, -far) < 0) by (nonlinear_arith)
        requires
            size >= 1,
            2 * (size * far) + b > 0,
            2 * (size * far) - b > 0,
            a * slope_at(a, b, far) == size * (if a > 0 {
                2 * (size * far) + b
            } else {
                2 * (size * far) - b
            }),
            a * slope_at(a, b, -far) == -(size * (if a > 0 {
                2 * (size * far) - b
            } else {
                2 * (size * far) + b
            })),
    ;
}

/// With 32-bit coefficients neither truncated root falls below the range
/// of `i32`, and neither exceeds it by more than one: bringing them into
/// the range changes a root of `2³¹` only.
pub proof fn lemma_roots_nearly_fit(a: i32, b: i32, c: i32)
    requires
        a != 0,
        discriminant(a as int, b as int, c as int) >= 0,
    ensures
        i32::MIN <= ordered_roots(a as int, b as int, c as int).0 <= i32::MAX,
        i32::MIN <= ordered_roots(a as int, b as int, c as int).1 <= i32::MAX + 1,
{
    let (low, high) = ordered_roots(a as int, b as int, c as int);
    let (a, b, c) = (a as int, b as int, c as int);
    let far: int = 0x8000_0001;
    lemma_roots_enclosed(a as i32, b as i32, c as i32);
    lemma_roots_are_truncated(a, b, c);
    lemma_ceil_sqrt(discriminant(a, b, c));
    lemma_position(a, b, c, 0);
    lemma_position(a, b, c, far);
    lemma_position(a, b, c, -far);
    lemma_position(a, b, c, low - 1);
    lemma_position(a, b, c, low);
    lemma_position(a, b, c, low + 1);
    lemma_position(a, b, c, high - 1);
    lemma_position(a, b, c, high);
    lemma_position(a, b, c, high + 1);
    if high > far {
        lemma_offset_grows(a, b, far, high);
    }
    if high - 1 > 0 {
        lemma_offset_grows(a, b, 0, high - 1);
    }
    if low < -far {
        lemma_offset_grows(a, b, low, -far);
    }
    if low + 1 < 0 {
        lemma_offset_grows(a, b, low + 1, 0);
    }
    if low > i32::MAX {
        if left_of_roots(a, b, c, 0) {
            // the smaller root lies left of the midpoint, which is at most 2³⁰
            assert(offset(a, b, low) > 0) by (nonlinear_arith)
                requires
                    a != 0,
                    low >= 0x8000_0000,
                    -0x8000_0000 <= b <= 0x8000_0000,
                    offset(a, b, low) == (if a > 0 {
                        2 * a * low + b
                    } else {
                        -(2 * a * low + b)
                    }),
            ;
        } else {
            lemma_offset_grows(a, b, 0, low - 1);
        }
    }
}

} // verus!
