//! What every kind of quadratic equation offers, whatever its numbers are.

use vstd::prelude::*;

verus! {

/// Solving failed: the discriminant is negative, so no real root exists.
#[derive(Clone, Copy, Debug, PartialEq, Eq)]
pub struct NoRealRoots;

/// A quadratic equation `a·x² + b·x + c = 0` over the numbers `T`, together
/// with two slots that hold its roots once it has been solved.
///
/// The coefficients are fixed when the equation is built; only
/// [`quadratic_eq`](Quadratic::quadratic_eq) writes the slots.
pub trait Quadratic<T>: Sized {
    /// The zero of the numbers `T`.
    spec fn zero() -> T;

    /// The coefficients `(a, b, c)`.
    spec fn coefficients(&self) -> (T, T, T);

    /// The two root slots, in the order in which `get_roots` hands them out.
    spec fn roots(&self) -> (T, T);

    /// Builds the equation with the given coefficients, none of which is
    /// checked. Both root slots start at zero.
    fn new(a: T, b: T, c: T) -> (quad: Self)
        ensures
            quad.coefficients() == (a, b, c),
            quad.roots() == (Self::zero(), Self::zero()),
    ;

    /// Solves the equation in place.
    ///
    /// The coefficients stay as they are. With a leading coefficient of
    /// zero the call succeeds and both roots become zero. A failure leaves
    /// the root slots as they were.
    fn quadratic_eq(&mut self) -> (res: Result<(), NoRealRoots>)
        ensures
            final(self).coefficients() == old(self).coefficients(),
            old(self).coefficients().0 == Self::zero() ==> res is Ok && final(self).roots() == (
                Self::zero(),
                Self::zero(),
            ),
            res is Err ==> final(self).roots() == old(self).roots(),
    ;

    /// The two stored roots; before the equation has been solved, the zeros
    /// that the slots were built with.
    fn get_roots(&self) -> (pair: (T, T))
        ensures
            pair == self.roots(),
    ;

    /// Builds `nvar` unsolved equations with coefficients drawn at random.
    fn fill_quads(nvar: usize) -> (batch: Vec<Self>)
        ensures
            batch.len() == nvar,
            forall|i: int|
                0 <= i < batch.len() ==> (#[trigger] batch[i]).roots() == (
                    Self::zero(),
                    Self::zero(),
                ),
    ;
}

} // verus!
