//! Exact rational arithmetic for a small calculator library: four left-fold
//! reductions over sequences of rationals (sum, product, subtraction,
//! division with zero-divisor detection) and a power function that combines
//! binary exponentiation for the integer part of the exponent with a Newton
//! iteration for the fractional root, carried out at a fixed decimal scale.

pub mod laws;
pub mod pow;
pub mod power;
pub mod rat;
pub mod reduce;

pub use pow::pow;
pub use rat::MathError;
pub use rat::Rat;
pub use rat::rat_add;
pub use rat::rat_div;
pub use rat::rat_mul;
pub use rat::rat_sub;
pub use reduce::add;
pub use reduce::divide;
pub use reduce::multiply;
pub use reduce::subtract;
