//! Double-precision arithmetic on bits.
//!
//! Prices, returns and correlations are IEEE 754 doubles. Here each is held by
//! its bits, so that every comparison and every correctly rounded operation on
//! it is a statement about integers.

pub mod arithmetic;
pub mod bounds;
pub mod decimal;
pub mod natural;
pub mod root;
pub mod round;

pub use arithmetic::Binary64;
