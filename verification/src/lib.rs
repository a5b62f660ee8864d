//! Multiplication of 96-bit decimal numbers, with exact rounding.
pub mod decimal;
pub mod digits;
pub mod divisor;
pub mod laws;
pub mod mul;
