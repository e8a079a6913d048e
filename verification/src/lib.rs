//! Arbitrary-precision binary floating-point values with per-value precision.
//!
//! A value is a sign, a magnitude written in digits of base 2^64, and an
//! exponent that counts digits; its precision says how many digits its storage
//! retains. `digits` holds the arithmetic on digit strings, `value` says what
//! number a value stands for and states the laws of order and rounding,
//! `float` holds the value type and its operations, `rules` what every
//! operation on two values observes, and `text` the grammar of written
//! numbers.

pub mod digits;
pub mod error;
pub mod float;
pub mod rules;
pub mod sign;
pub mod text;
pub mod value;
