//! Quadratic equations `a·x² + b·x + c = 0` with integer coefficients:
//! solving them exactly, and drawing them at random.
//!
//! - [`quadratic`] holds what every kind of equation offers, whatever its
//!   numbers are: the trait [`Quadratic`] and the one way solving can fail.
//! - [`int_quad`] holds [`I32Quad`], the equation with 32-bit coefficients.
//! - [`roots`] says what its roots are, and computes them without rounding.
//! - [`sqrt`] holds the integer square roots that this rests on.
//! - [`generate`] draws coefficients for which real roots are likely.
//! - [`bracket`] and [`laws`] prove what the roots have to do with the
//!   polynomial, and what holds of solving in general.

pub mod bracket;
pub mod generate;
pub mod int_quad;
pub mod laws;
pub mod quadratic;
pub mod roots;
pub mod sqrt;

pub use int_quad::I32Quad;
pub use quadratic::{NoRealRoots, Quadratic};
