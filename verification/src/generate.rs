//! Random coefficients, drawn so that real roots are likely.
//!
//! The leading coefficient is drawn first. A coin then decides whether the
//! constant one takes its sign or the opposite sign. With opposite signs
//! the discriminant is positive whatever the middle coefficient is; with
//! equal signs the middle one is drawn away from zero by at least the
//! rounded-down square root of `4ac`. That makes a negative discriminant
//! rare; it does not rule it out.

use vstd::prelude::*;
use rand::Rng;
use rand::rngs::ThreadRng;
use crate::roots::{discriminant, magnitude};
use crate::sqrt::{floor_sqrt, isqrt, lemma_floor_sqrt_exists, lemma_square_monotonic};

verus! {

/// The largest magnitude of a drawn leading or constant coefficient; the
/// middle one may be twice as large.
pub const MAX_VALUE: i32 = 100;

/// `rand::rngs::ThreadRng`, the handle to a thread's generator. Nothing
/// inside it is visible here.
#[verifier::external_type_specification]
#[verifier::external_body]
pub struct ExThreadRng(rand::rngs::ThreadRng);

/// `rand::thread_rng`: a handle to the calling thread's generator, which
/// the system seeds on first use; it panics where the system gives no seed.
/// Nothing is claimed of the handle.
pub assume_specification[ rand::thread_rng ]() -> (rng: rand::rngs::ThreadRng);

/// `Rng::gen_range` on the inclusive range `low..=high`, which panics on an
/// empty range: the value drawn lies in the range, ends included.
#[verifier::external_body]
fn draw_between(rng: &mut ThreadRng, low: i32, high: i32) -> (x: i32)
    requires
        low <= high,
    ensures
        low <= x <= high,
{
    rng.gen_range(low..=high)
}

/// `Rng::gen_ratio`, which panics on a zero denominator and on a numerator
/// above the denominator: `true` with a chance of `numerator` in
/// `denominator`, hence always with equal arguments and never with a
/// numerator of zero.
#[verifier::external_body]
fn draw_ratio(rng: &mut ThreadRng, numerator: u32, denominator: u32) -> (hit: bool)
    requires
        0 < denominator,
        numerator <= denominator,
    ensures
        numerator == denominator ==> hit,
        numerator == 0 ==> !hit,
{
    rng.gen_ratio(numerator, denominator)
}

/// The range from which the constant coefficient is drawn, ends
/// included: with `matching`, not negative beside a positive `a` and not
/// positive otherwise; without, the other way round.
pub open spec fn constant_bounds(a: int, matching: bool) -> (int, int) {
    if (a > 0) == matching {
        (0, MAX_VALUE as int)
    } else {
        (-MAX_VALUE, 0)
    }
}

/// The range from which the middle coefficient is drawn, ends included.
///
/// With `4ac < 0` the discriminant is positive whatever `b` is, and the
/// range is the whole of `-2·MAX_VALUE ..= 2·MAX_VALUE`. Otherwise it is
/// the part of it at or above `√(4ac)` rounded down (`upper`), or the
/// mirror image of that part.
pub open spec fn middle_bounds(a: int, c: int, upper: bool) -> (int, int) {
    if 4 * a * c < 0 {
        (-2 * MAX_VALUE, 2 * MAX_VALUE)
    } else if upper {
        (floor_sqrt(4 * a * c), 2 * MAX_VALUE)
    } else {
        (-2 * MAX_VALUE, -floor_sqrt(4 * a * c))
    }
}

/// Whether `(a, b, c)` is a triple that `fill_quads` may draw.
pub open spec fn drawable(a: int, b: int, c: int) -> bool {
    &&& -MAX_VALUE <= a <= MAX_VALUE
    &&& -MAX_VALUE <= c <= MAX_VALUE
    &&& -2 * MAX_VALUE <= b <= 2 * MAX_VALUE
    &&& 4 * a * c >= 0 ==> magnitude(b) >= floor_sqrt(4 * a * c)
}

/// For coefficients within `MAX_VALUE`, `√(4ac)` is at most `2·MAX_VALUE`.
pub proof fn lemma_root_of_product_bounded(a: int, c: int)
    requires
        -MAX_VALUE <= a <= MAX_VALUE,
        -MAX_VALUE <= c <= MAX_VALUE,
    ensures
        -40000 <= 4 * a * c <= 40000,
        4 * a * c >= 0 ==> 0 <= floor_sqrt(4 * a * c) <= 2 * MAX_VALUE,
{
    assert(-10000 <= a * c <= 10000) by (nonlinear_arith)
        requires
            -100 <= a <= 100,
            -100 <= c <= 100,
    ;
    assert(4 * a * c == 4 * (a * c)) by (nonlinear_arith);
    if 4 * a * c >= 0 {
        lemma_floor_sqrt_exists(4 * a * c);
        let r = floor_sqrt(4 * a * c);
        if r > 200 {
            lemma_square_monotonic(201, r);
        }
    }
}

/// Computes the range from which the constant coefficient is drawn.
pub fn constant_range(a: i32, matching: bool) -> (range: (i32, i32))
    ensures
        range.0 == constant_bounds(a as int, matching).0,
        range.1 == constant_bounds(a as int, matching).1,
        -MAX_VALUE <= range.0 <= range.1 <= MAX_VALUE,
{
    if (a > 0) == matching {
        (0, MAX_VALUE)
    } else {
        (-MAX_VALUE, 0)
    }
}

/// Computes the range from which the middle coefficient is drawn, for `a`
/// and `c` within `MAX_VALUE`.
pub fn middle_range(a: i32, c: i32, upper: bool) -> (range: (i32, i32))
    requires
        -MAX_VALUE <= a <= MAX_VALUE,
        -MAX_VALUE <= c <= MAX_VALUE,
    ensures
        range.0 == middle_bounds(a as int, c as int, upper).0,
        range.1 == middle_bounds(a as int, c as int, upper).1,
        range.0 <= range.1,
{
    proof {
        lemma_root_of_product_bounded(a as int, c as int);
    }
    assert(-10000 <= a * c <= 10000) by (nonlinear_arith)
        requires
            -100 <= a <= 100,
            -100 <= c <= 100,
    ;
    assert(4 * a * c == 4 * (a * c)) by (nonlinear_arith);
    let product: i32 = 4 * (a * c);
    if product < 0 {
        (-2 * MAX_VALUE, 2 * MAX_VALUE)
    } else {
        let root: i32 = isqrt(product as u128) as i32;
        if upper {
            (root, 2 * MAX_VALUE)
        } else {
            (-2 * MAX_VALUE, -root)
        }
    }
}

/// Draws one coefficient triple `(a, b, c)`.
pub(crate) fn draw_coefficients(rng: &mut ThreadRng) -> (triple: (i32, i32, i32))
    ensures
        drawable(triple.0 as int, triple.1 as int, triple.2 as int),
{
    let a: i32 = draw_between(rng, -MAX_VALUE, MAX_VALUE);
    let matching: bool = draw_ratio(rng, 1, 2);
    let (low, high) = constant_range(a, matching);
    let c: i32 = draw_between(rng, low, high);
    let upper: bool = draw_ratio(rng, 1, 2);
    let (low, high) = middle_range(a, c, upper);
    let b: i32 = draw_between(rng, low, high);
    proof {
        lemma_root_of_product_bounded(a as int, c as int);
    }
    (a, b, c)
}

/// How far below zero the discriminant of a drawn triple can fall: by no
/// more than twice the rounded-down `√(4ac)`, and not at all where `4ac`
/// is negative or a perfect square.
pub proof fn lemma_drawn_discriminant(a: int, b: int, c: int)
    requires
        drawable(a, b, c),
    ensures
        4 * a * c < 0 ==> discriminant(a, b, c) > 0,
        4 * a * c >= 0 ==> discriminant(a, b, c) >= -2 * floor_sqrt(4 * a * c),
        4 * a * c >= 0 && floor_sqrt(4 * a * c) * floor_sqrt(4 * a * c) == 4 * a * c
            ==> discriminant(a, b, c) >= 0,
{
    assert(b * b >= 0) by (nonlinear_arith);
    if 4 * a * c >= 0 {
        lemma_floor_sqrt_exists(4 * a * c);
        let r = floor_sqrt(4 * a * c);
        let size = magnitude(b);
        lemma_square_monotonic(r, size);
        assert(size * size == b * b) by (nonlinear_arith)
            requires
                size == b || size == -b,
        ;
        assert((r + 1) * (r + 1) == r * r + 2 * r + 1) by (nonlinear_arith);
    }
}

} // verus!
