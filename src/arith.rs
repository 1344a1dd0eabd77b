//! Arithmetic on normalized values. Each result is normalized again, with
//! the exponent compensated.

use vstd::prelude::*;
use vstd::arithmetic::div_mod::lemma_basic_div;
use crate::powers::{pow10, lemma_pow10_monotone, lemma_pow10_positive, pow10_exec};
use crate::big_int::{
    BigInt, ArithmeticError, MANTISSA_LENGTH, MANTISSA_MIN, MANTISSA_BOUND, abs, with_sign, fits_i128,
    normalize, lemma_mantissa_limits, scale_mag, lemma_scale_mag,
};

verus! {

/// `m` with `d` trailing decimal digits dropped, toward zero.
pub open spec fn shift_down(m: int, d: nat) -> int {
    with_sign(m < 0, abs(m) / pow10(d))
}

/// The sum before normalization: the operand with the smaller exponent is
/// shifted to the larger one, losing the digits that fall off.
pub open spec fn sum_raw(a: BigInt, b: BigInt) -> (int, int) {
    if a.exponent == b.exponent {
        (a.mantissa + b.mantissa, a.exponent as int)
    } else if a.exponent > b.exponent {
        (a.mantissa + shift_down(b.mantissa as int, (a.exponent - b.exponent) as nat), a.exponent as int)
    } else {
        (b.mantissa + shift_down(a.mantissa as int, (b.exponent - a.exponent) as nat), b.exponent as int)
    }
}

/// The normalized sum; a zero operand leaves the other as it is.
pub open spec fn sum_pair(a: BigInt, b: BigInt) -> (int, int) {
    if a.mantissa == 0 {
        b.pair()
    } else if b.mantissa == 0 {
        a.pair()
    } else {
        normalize(sum_raw(a, b).0, sum_raw(a, b).1)
    }
}

pub open spec fn negated(a: BigInt) -> BigInt {
    BigInt { exponent: a.exponent, mantissa: (-a.mantissa) as i128 }
}

/// The product before normalization: mantissas multiplied and descaled
/// toward zero, exponents added.
pub open spec fn product_raw(a: BigInt, b: BigInt) -> (int, int) {
    (
        with_sign(
            (a.mantissa < 0) != (b.mantissa < 0),
            abs(a.mantissa as int) * abs(b.mantissa as int) / pow10(MANTISSA_LENGTH as nat),
        ),
        a.exponent + b.exponent,
    )
}

/// `x / y` rounded to the nearest integer, halves upward.
pub open spec fn round_div(x: nat, y: nat) -> nat {
    if 2 * (x % y) >= y {
        x / y + 1
    } else {
        x / y
    }
}

/// The quotient before normalization: the mantissas divided at full scale
/// and rounded half away from zero, the exponents subtracted.
pub open spec fn quotient_raw(a: BigInt, b: BigInt) -> (int, int) {
    (
        with_sign(
            (a.mantissa < 0) != (b.mantissa < 0),
            round_div(abs(a.mantissa as int) * pow10(MANTISSA_LENGTH as nat), abs(b.mantissa as int)),
        ),
        a.exponent - b.exponent,
    )
}

/// Magnitude of a normalized mantissa.
fn magnitude_of(m: i128) -> (r: u128)
    requires
        abs(m as int) < MANTISSA_BOUND,
    ensures
        r == abs(m as int),
{
    if m < 0 {
        (-m) as u128
    } else {
        m as u128
    }
}

/// Drops the `hi - lo` last digits of a normalized mantissa.
fn shift_mantissa(m: i128, hi: i128, lo: i128) -> (r: i128)
    requires
        hi > lo,
        abs(m as int) < MANTISSA_BOUND,
    ensures
        r == shift_down(m as int, (hi - lo) as nat),
        abs(r as int) < MANTISSA_BOUND,
{
    let ghost d = (hi - lo) as nat;
    proof {
        lemma_mantissa_limits();
        lemma_pow10_positive(d);
    }
    let small = match hi.checked_sub(lo) {
        Some(diff) => diff < MANTISSA_LENGTH as i128,
        None => false,
    };
    if small {
        let diff = (hi - lo) as u32;
        let a = magnitude_of(m) / pow10_exec(diff);
        proof {
            let x = abs(m as int) as int;
            let y = pow10(d) as int;
            assert(x / y <= x) by (nonlinear_arith)
                requires
                    x >= 0,
                    y >= 1,
            ;
        }
        if m < 0 {
            -(a as i128)
        } else {
            a as i128
        }
    } else {
        proof {
            lemma_pow10_monotone(MANTISSA_LENGTH as nat, d);
            lemma_basic_div(abs(m as int) as int, pow10(d) as int);
        }
        0
    }
}

impl BigInt {
    /// The value with its sign flipped; normal form is kept.
    pub fn neg(&self) -> (r: BigInt)
        requires
            self.normalized(),
        ensures
            r == negated(*self),
            r.normalized(),
    {
        BigInt { exponent: self.exponent, mantissa: -self.mantissa }
    }

    /// The sum. When the exponents differ by the mantissa's width or more,
    /// the smaller operand contributes nothing. Fails with `Overflow`
    /// exactly when the result's exponent leaves `i128`.
    pub fn checked_add(&self, other: &BigInt) -> (r: Result<BigInt, ArithmeticError>)
        requires
            self.normalized(),
            other.normalized(),
        ensures
            r is Ok <==> fits_i128(sum_pair(*self, *other).1),
            r is Ok ==> r->Ok_0.pair() == sum_pair(*self, *other),
            r is Ok ==> r->Ok_0.normalized(),
            r is Err ==> r->Err_0 == ArithmeticError::Overflow,
    {
        proof {
            lemma_mantissa_limits();
            crate::big_int::lemma_normalize_is_normalized(sum_raw(*self, *other).0, sum_raw(*self, *other).1);
        }
        if self.mantissa == 0 {
            return Ok(*other);
        }
        if other.mantissa == 0 {
            return Ok(*self);
        }
        if self.exponent == other.exponent {
            BigInt::reconstruct(self.mantissa + other.mantissa, self.exponent)
        } else if self.exponent > other.exponent {
            let shifted = shift_mantissa(other.mantissa, self.exponent, other.exponent);
            BigInt::reconstruct(self.mantissa + shifted, self.exponent)
        } else {
            let shifted = shift_mantissa(self.mantissa, other.exponent, self.exponent);
            BigInt::reconstruct(other.mantissa + shifted, other.exponent)
        }
    }

    /// The difference, as the sum with the negated right operand.
    pub fn checked_sub(&self, other: &BigInt) -> (r: Result<BigInt, ArithmeticError>)
        requires
            self.normalized(),
            other.normalized(),
        ensures
            r is Ok <==> fits_i128(sum_pair(*self, negated(*other)).1),
            r is Ok ==> r->Ok_0.pair() == sum_pair(*self, negated(*other)),
            r is Ok ==> r->Ok_0.normalized(),
            r is Err ==> r->Err_0 == ArithmeticError::Overflow,
    {
        self.checked_add(&other.neg())
    }

    /// The product. Fails with `Overflow` exactly when the sum of the
    /// exponents, or the result's exponent, leaves `i128`.
    pub fn checked_mul(&self, other: &BigInt) -> (r: Result<BigInt, ArithmeticError>)
        requires
            self.normalized(),
            other.normalized(),
        ensures
            r is Ok <==> fits_i128(product_raw(*self, *other).1)
                && fits_i128(normalize(product_raw(*self, *other).0, product_raw(*self, *other).1).1),
            r is Ok ==> r->Ok_0.pair() == normalize(product_raw(*self, *other).0, product_raw(*self, *other).1),
            r is Ok ==> r->Ok_0.normalized(),
            r is Err ==> r->Err_0 == ArithmeticError::Overflow,
    {
        proof {
            lemma_mantissa_limits();
            crate::big_int::lemma_normalize_is_normalized(product_raw(*self, *other).0, product_raw(*self, *other).1);
        }
        let e = match self.exponent.checked_add(other.exponent) {
            Some(e) => e,
            None => return Err(ArithmeticError::Overflow),
        };
        let a = magnitude_of(self.mantissa);
        let b = magnitude_of(other.mantissa);
        proof {
            assert(a * b < MANTISSA_BOUND * MANTISSA_BOUND) by (nonlinear_arith)
                requires
                    a < MANTISSA_BOUND,
                    b < MANTISSA_BOUND,
            ;
        }
        let p = (a * b) / pow10_exec(MANTISSA_LENGTH);
        let m = if (self.mantissa < 0) != (other.mantissa < 0) {
            -(p as i128)
        } else {
            p as i128
        };
        BigInt::reconstruct(m, e)
    }

    /// The quotient. Fails with `DivisionByZero` exactly when the divisor
    /// is zero; otherwise with `Overflow` exactly when the difference of the
    /// exponents, or the result's exponent, leaves `i128`.
    pub fn checked_div(&self, other: &BigInt) -> (r: Result<BigInt, ArithmeticError>)
        requires
            self.normalized(),
            other.normalized(),
        ensures
            other.mantissa == 0 <==> r == Err::<BigInt, ArithmeticError>(ArithmeticError::DivisionByZero),
            other.mantissa != 0 ==> (r is Ok <==> fits_i128(quotient_raw(*self, *other).1)
                && fits_i128(normalize(quotient_raw(*self, *other).0, quotient_raw(*self, *other).1).1)),
            r is Ok ==> r->Ok_0.pair() == normalize(quotient_raw(*self, *other).0, quotient_raw(*self, *other).1),
            r is Ok ==> r->Ok_0.normalized(),
            other.mantissa != 0 && r is Err ==> r->Err_0 == ArithmeticError::Overflow,
    {
        proof {
            lemma_mantissa_limits();
            crate::big_int::lemma_normalize_is_normalized(quotient_raw(*self, *other).0, quotient_raw(*self, *other).1);
        }
        if other.mantissa == 0 {
            return Err(ArithmeticError::DivisionByZero);
        }
        let e = match self.exponent.checked_sub(other.exponent) {
            Some(e) => e,
            None => return Err(ArithmeticError::Overflow),
        };
        let a = magnitude_of(self.mantissa);
        let b = magnitude_of(other.mantissa);
        let x = a * pow10_exec(MANTISSA_LENGTH);
        let q = x / b;
        let rem = x % b;
        proof {
            assert(q <= x) by (nonlinear_arith)
                requires
                    q == x / b,
                    b >= 1,
            ;
        }
        let rounded = if rem >= b - rem {
            q + 1
        } else {
            q
        };
        let m = if (self.mantissa < 0) != (other.mantissa < 0) {
            -(rounded as i128)
        } else {
            rounded as i128
        };
        BigInt::reconstruct(m, e)
    }
}

/// When the exponents differ by the mantissa's width or more, the sum is
/// the nonzero operand with the larger exponent, unchanged.
pub proof fn lemma_negligible_operand(a: BigInt, b: BigInt)
    requires
        a.normalized(),
        b.normalized(),
        a.mantissa != 0,
        a.exponent - b.exponent >= MANTISSA_LENGTH,
    ensures
        sum_pair(a, b) == a.pair(),
        sum_pair(b, a) == a.pair(),
{
    lemma_mantissa_limits();
    if b.mantissa != 0 {
        let d = (a.exponent - b.exponent) as nat;
        lemma_pow10_monotone(MANTISSA_LENGTH as nat, d);
        lemma_basic_div(abs(b.mantissa as int) as int, pow10(d) as int);
        assert(shift_down(b.mantissa as int, d) == 0);
        assert(sum_raw(a, b) == (a.mantissa as int, a.exponent as int));
        assert(sum_raw(b, a) == (a.mantissa as int, a.exponent as int));
        crate::big_int::lemma_normalize_idempotent(a.mantissa as int, a.exponent as int);
    }
}

/// Normalizing a mantissa in `[MANTISSA_MIN, 10 * MANTISSA_BOUND]` raises
/// the exponent by at most two.
proof fn lemma_scale_wide(q: nat)
    requires
        MANTISSA_MIN <= q <= 10 * MANTISSA_BOUND,
    ensures
        0 <= scale_mag(q).1 <= 2,
{
    lemma_scale_mag(q);
    if q >= MANTISSA_BOUND {
        lemma_scale_mag(q / 10);
        if q / 10 >= MANTISSA_BOUND {
            lemma_scale_mag(q / 100);
            assert(q / 10 / 10 == q / 100);
        }
    }
}

/// Division by a nonzero value succeeds whenever both exponents stay
/// within `[-2^125, 2^125]`: an `Overflow` needs exponents near the ends of
/// the `i128` range.
pub proof fn lemma_division_succeeds(a: BigInt, b: BigInt)
    requires
        a.normalized(),
        b.normalized(),
        b.mantissa != 0,
        -0x2000_0000_0000_0000_0000_0000_0000_0000 <= a.exponent <= 0x2000_0000_0000_0000_0000_0000_0000_0000,
        -0x2000_0000_0000_0000_0000_0000_0000_0000 <= b.exponent <= 0x2000_0000_0000_0000_0000_0000_0000_0000,
    ensures
        fits_i128(quotient_raw(a, b).1),
        fits_i128(normalize(quotient_raw(a, b).0, quotient_raw(a, b).1).1),
{
    lemma_mantissa_limits();
    let x = abs(a.mantissa as int) * pow10(MANTISSA_LENGTH as nat);
    let y = abs(b.mantissa as int);
    if a.mantissa != 0 {
        let xa = abs(a.mantissa as int) as int;
        let yi = y as int;
        let q = x as int / yi;
        assert(MANTISSA_MIN <= q < 10 * MANTISSA_BOUND) by (nonlinear_arith)
            requires
                MANTISSA_MIN <= xa < MANTISSA_BOUND,
                MANTISSA_MIN <= yi < MANTISSA_BOUND,
                x == xa * MANTISSA_BOUND,
                q == x as int / yi,
                MANTISSA_MIN == 10_000_000,
                MANTISSA_BOUND == 100_000_000,
        ;
        let r = round_div(x, y);
        assert(MANTISSA_MIN <= r <= 10 * MANTISSA_BOUND);
        lemma_scale_wide(r);
        assert(abs(quotient_raw(a, b).0) == r);
        assert(quotient_raw(a, b).0 != 0);
        assert(normalize(quotient_raw(a, b).0, quotient_raw(a, b).1).1
            == quotient_raw(a, b).1 + scale_mag(r).1);
    } else {
        assert(abs(a.mantissa as int) == 0);
        assert(x == 0) by (nonlinear_arith)
            requires
                x == abs(a.mantissa as int) * pow10(MANTISSA_LENGTH as nat),
                abs(a.mantissa as int) == 0,
        ;
        assert(round_div(x, y) == 0);
    }
}

} // verus!
