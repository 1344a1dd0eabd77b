//! Order of magnitude of the supported native numbers and of `BigInt`.

use vstd::prelude::*;
use crate::powers::{log10, log10_exec};
use crate::big_int::BigInt;

verus! {

/// Types whose values have a decimal order of magnitude.
pub trait CanLog10 {
    /// Whether the order of magnitude is defined for this value.
    spec fn has_log10(&self) -> bool;

    /// The order of magnitude, `floor(log10(self))`.
    spec fn log10_of(&self) -> int;

    fn calc_log10(&self) -> (r: i128)
        requires
            self.has_log10(),
        ensures
            r == self.log10_of();
}

impl CanLog10 for i8 {
    open spec fn has_log10(&self) -> bool {
        *self > 0
    }

    open spec fn log10_of(&self) -> int {
        log10(*self as nat) as int
    }

    fn calc_log10(&self) -> (r: i128) {
        log10_exec(*self as u128) as i128
    }
}

impl CanLog10 for i16 {
    open spec fn has_log10(&self) -> bool {
        *self > 0
    }

    open spec fn log10_of(&self) -> int {
        log10(*self as nat) as int
    }

    fn calc_log10(&self) -> (r: i128) {
        log10_exec(*self as u128) as i128
    }
}

impl CanLog10 for i32 {
    open spec fn has_log10(&self) -> bool {
        *self > 0
    }

    open spec fn log10_of(&self) -> int {
        log10(*self as nat) as int
    }

    fn calc_log10(&self) -> (r: i128) {
        log10_exec(*self as u128) as i128
    }
}

impl CanLog10 for i64 {
    open spec fn has_log10(&self) -> bool {
        *self > 0
    }

    open spec fn log10_of(&self) -> int {
        log10(*self as nat) as int
    }

    fn calc_log10(&self) -> (r: i128) {
        log10_exec(*self as u128) as i128
    }
}

impl CanLog10 for i128 {
    open spec fn has_log10(&self) -> bool {
        *self > 0
    }

    open spec fn log10_of(&self) -> int {
        log10(*self as nat) as int
    }

    fn calc_log10(&self) -> (r: i128) {
        log10_exec(*self as u128) as i128
    }
}

impl CanLog10 for BigInt {
    /// A nonzero normalized value lies in `[10^(exponent - 1), 10^exponent)`.
    open spec fn has_log10(&self) -> bool {
        self.normalized() && self.mantissa != 0 && self.exponent > i128::MIN
    }

    open spec fn log10_of(&self) -> int {
        self.exponent - 1
    }

    fn calc_log10(&self) -> (r: i128) {
        self.exponent - 1
    }
}

} // verus!
