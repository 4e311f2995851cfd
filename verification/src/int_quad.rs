//! Quadratic equations with 32-bit integer coefficients.

use vstd::prelude::*;
use rand::rngs::ThreadRng;
use crate::generate::{drawable, draw_coefficients};
use crate::quadratic::{NoRealRoots, Quadratic};
use crate::roots::{discriminant_of, quotient, root_bounds, saturated, solution, whole_sum};
use crate::roots::lemma_discriminant_bounds;

verus! {

/// The equation `a·x² + b·x + c = 0` with 32-bit integer coefficients.
///
/// Its roots are kept as integers: each real root truncated toward zero, and
/// brought into the range of `i32` where it lies outside.
#[derive(Clone, Copy, Debug)]
pub struct I32Quad {
    a: i32,
    b: i32,
    c: i32,
    r1: i32,
    r2: i32,
}

impl I32Quad {
    /// The leading coefficient.
    pub open spec fn a(self) -> int {
        self.coefficients().0 as int
    }

    /// The middle coefficient.
    pub open spec fn b(self) -> int {
        self.coefficients().1 as int
    }

    /// The constant coefficient.
    pub open spec fn c(self) -> int {
        self.coefficients().2 as int
    }

    /// Whether a call of `quadratic_eq` on `self` may leave `after` behind
    /// and return `res`.
    pub open spec fn solves_to(self, after: Self, res: Result<(), NoRealRoots>) -> bool {
        &&& after.coefficients() == self.coefficients()
        &&& match solution(self.a(), self.b(), self.c()) {
            Some(pair) => res is Ok && after.roots().0 == pair.0 && after.roots().1 == pair.1,
            None => res is Err && after.roots() == self.roots(),
        }
    }

    /// Whether the coefficients are a triple that `fill_quads` may draw.
    pub open spec fn is_drawable(self) -> bool {
        drawable(self.a(), self.b(), self.c())
    }

    /// The coefficients `(a, b, c)` that the equation was built with.
    pub fn get_coefficients(&self) -> (triple: (i32, i32, i32))
        ensures
            triple == self.coefficients(),
    {
        (self.a, self.b, self.c)
    }
}

impl Quadratic<i32> for I32Quad {
    open spec fn zero() -> i32 {
        0
    }

    closed spec fn coefficients(&self) -> (i32, i32, i32) {
        (self.a, self.b, self.c)
    }

    closed spec fn roots(&self) -> (i32, i32) {
        (self.r1, self.r2)
    }

    fn new(a: i32, b: i32, c: i32) -> (quad: Self) {
        I32Quad { a, b, c, r1: 0, r2: 0 }
    }

    /// Solves the equation in place.
    ///
    /// With `a == 0` both roots become zero. With a negative discriminant
    /// the call fails and changes nothing. Otherwise the two roots are
    /// stored in ascending order.
    fn quadratic_eq(&mut self) -> (res: Result<(), NoRealRoots>)
        ensures
            old(self).solves_to(*final(self), res),
    {
        if self.a == 0 {
            self.r1 = 0;
            self.r2 = 0;
            return Ok(());
        }
        let d: i128 = discriminant_of(self.a, self.b, self.c);
        if d < 0 {
            return Err(NoRealRoots);
        }
        proof {
            lemma_discriminant_bounds(self.a, self.b, self.c);
        }
        let minus_b: i64 = -(self.b as i64);
        let twice_a: i64 = 2 * (self.a as i64);
        if d == 0 {
            let root: i32 = saturated(quotient(minus_b, twice_a));
            self.r1 = root;
            self.r2 = root;
        } else {
            let (down, up) = root_bounds(d as u128);
            let x: i64 = quotient(whole_sum(minus_b, true, down, up), twice_a);
            let y: i64 = quotient(whole_sum(minus_b, false, down, up), twice_a);
            if x < y {
                self.r1 = saturated(x);
                self.r2 = saturated(y);
            } else {
                self.r1 = saturated(y);
                self.r2 = saturated(x);
            }
        }
        Ok(())
    }

    fn get_roots(&self) -> (pair: (i32, i32)) {
        (self.r1, self.r2)
    }

    /// Builds `nvar` unsolved equations, each with coefficients drawn afresh.
    fn fill_quads(nvar: usize) -> (batch: Vec<Self>)
        ensures
            forall|i: int| 0 <= i < batch.len() ==> (#[trigger] batch[i]).is_drawable(),
    {
        let mut rng: ThreadRng = rand::thread_rng();
        let mut batch: Vec<I32Quad> = Vec::new();
        let mut made: usize = 0;
        while made < nvar
            invariant
                made <= nvar,
                batch.len() == made,
                forall|i: int| 0 <= i < batch.len() ==> (#[trigger] batch[i]).is_drawable(),
                forall|i: int| 0 <= i < batch.len() ==> (#[trigger] batch[i]).roots() == (0i32, 0i32),
            decreases nvar - made,
        {
            let (a, b, c) = draw_coefficients(&mut rng);
            batch.push(I32Quad::new(a, b, c));
            made = made + 1;
        }
        batch
    }
}

} // verus!
