//! A fixed-precision decimal number in scientific notation, with verified
//! conversion, normalization, arithmetic, ordering and formatting.

pub mod powers;

pub mod big_int;
pub mod arith;
pub mod order;
pub mod display;
pub mod magnitude;
pub mod digits;
pub mod messages;
pub mod players;
