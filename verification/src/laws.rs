//! What holds of solving, whatever the coefficients are.

use vstd::prelude::*;
use crate::int_quad::I32Quad;
use crate::quadratic::{NoRealRoots, Quadratic};
use crate::bracket::{is_truncated_lower_root, is_truncated_upper_root, value_at};
use crate::bracket::{lemma_integer_roots_are_found, lemma_roots_are_truncated, lemma_roots_nearly_fit};
use crate::roots::{discriminant, trunc_div};
use crate::sqrt::{lemma_ceil_sqrt, lemma_floor_sqrt_exists};

verus! {

/// Solving fails exactly where the leading coefficient is not zero and the
/// discriminant is negative.
pub proof fn lemma_fails_on_negative_discriminant(
    before: I32Quad,
    after: I32Quad,
    res: Result<(), NoRealRoots>,
)
    requires
        before.solves_to(after, res),
    ensures
        res is Err <==> before.a() != 0 && discriminant(before.a(), before.b(), before.c()) < 0,
{
}

/// With a leading coefficient of zero, solving succeeds and both roots are
/// zero, whatever the other two coefficients are.
pub proof fn lemma_degenerate(before: I32Quad, after: I32Quad, res: Result<(), NoRealRoots>)
    requires
        before.a() == 0,
        before.solves_to(after, res),
    ensures
        res is Ok,
        after.roots() == (0i32, 0i32),
{
}

/// With a discriminant of zero, solving stores the double root `-b / 2a`,
/// truncated toward zero, in both slots.
pub proof fn lemma_double_root(before: I32Quad, after: I32Quad, res: Result<(), NoRealRoots>)
    requires
        before.a() != 0,
        discriminant(before.a(), before.b(), before.c()) == 0,
        before.solves_to(after, res),
    ensures
        res is Ok,
        after.roots().0 == after.roots().1,
        after.roots().0 == trunc_div(-before.b(), 2 * before.a()),
{
    lemma_floor_sqrt_exists(0);
    lemma_ceil_sqrt(0);
    lemma_roots_nearly_fit(
        before.coefficients().0,
        before.coefficients().1,
        before.coefficients().2,
    );
}

/// Whenever solving succeeds, the roots come out in ascending order.
pub proof fn lemma_ascending(before: I32Quad, after: I32Quad, res: Result<(), NoRealRoots>)
    requires
        before.solves_to(after, res),
        res is Ok,
    ensures
        after.roots().0 <= after.roots().1,
{
}

/// Solving an equation that has been solved changes nothing: the second
/// call ends as the first did and leaves the same roots.
pub proof fn lemma_solving_twice(
    fresh: I32Quad,
    once: I32Quad,
    twice: I32Quad,
    first: Result<(), NoRealRoots>,
    second: Result<(), NoRealRoots>,
)
    requires
        fresh.solves_to(once, first),
        once.solves_to(twice, second),
    ensures
        second is Ok <==> first is Ok,
        twice.coefficients() == once.coefficients(),
        twice.roots() == once.roots(),
{
}

/// Where real roots exist, solving succeeds and stores them in ascending
/// order: first the smaller root truncated toward zero, then the larger
/// one truncated toward zero, or `i32::MAX` where that is `2³¹`.
pub proof fn lemma_stored_roots_are_truncated(
    before: I32Quad,
    after: I32Quad,
    res: Result<(), NoRealRoots>,
)
    requires
        before.a() != 0,
        discriminant(before.a(), before.b(), before.c()) >= 0,
        before.solves_to(after, res),
    ensures
        res is Ok,
        after.roots().0 <= after.roots().1,
        is_truncated_lower_root(before.a(), before.b(), before.c(), after.roots().0 as int),
        is_truncated_upper_root(before.a(), before.b(), before.c(), after.roots().1 as int) || (
        after.roots().1 == i32::MAX && is_truncated_upper_root(
            before.a(),
            before.b(),
            before.c(),
            i32::MAX + 1,
        )),
{
    let (a, b, c) = before.coefficients();
    lemma_roots_are_truncated(a as int, b as int, c as int);
    lemma_roots_nearly_fit(a, b, c);
    lemma_floor_sqrt_exists(0);
    lemma_ceil_sqrt(0);
}

/// An integer that solves the equation, and fits in 32 bits, is found: it
/// is one of the two roots that solving stores.
pub proof fn lemma_integer_root_is_stored(
    before: I32Quad,
    after: I32Quad,
    res: Result<(), NoRealRoots>,
    k: i32,
)
    requires
        before.a() != 0,
        value_at(before.a(), before.b(), before.c(), k as int) == 0,
        before.solves_to(after, res),
    ensures
        res is Ok,
        after.roots().0 == k || after.roots().1 == k,
{
    lemma_integer_roots_are_found(before.a(), before.b(), before.c(), k as int);
    lemma_floor_sqrt_exists(0);
    lemma_ceil_sqrt(0);
}

} // verus!
