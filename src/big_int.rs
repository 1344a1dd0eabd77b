//! The scaled decimal type, its normal form, and its construction.
//!
//! A normalized value holds a mantissa of exactly `MANTISSA_LENGTH`
//! significant digits and a decimal exponent: it stands for
//! `mantissa * 10^(exponent - MANTISSA_LENGTH)`, so its magnitude lies in
//! `[10^(exponent - 1), 10^exponent)`. Zero has the single form
//! `mantissa == 0 && exponent == 0`.

use vstd::prelude::*;
use vstd::arithmetic::div_mod::{lemma_fundamental_div_mod, lemma_mod_bound};
use crate::powers::{
    pow10, log10, lemma_pow10_add, lemma_pow10_positive, lemma_log10_bounds, lemma_log10_u128,
    pow10_exec, log10_exec,
};

verus! {

/// The number of significant digits of a nonzero normalized mantissa.
pub const MANTISSA_LENGTH: u32 = 8;

/// `10^(MANTISSA_LENGTH - 1)`: the least magnitude of a nonzero normalized mantissa.
pub const MANTISSA_MIN: i128 = 10_000_000;

/// `10^MANTISSA_LENGTH`: every normalized magnitude stays below it.
pub const MANTISSA_BOUND: i128 = 100_000_000;

pub proof fn lemma_mantissa_limits()
    ensures
        pow10((MANTISSA_LENGTH - 1) as nat) == MANTISSA_MIN,
        pow10(MANTISSA_LENGTH as nat) == MANTISSA_BOUND,
        pow10(MANTISSA_LENGTH as nat + 1) == 10 * MANTISSA_BOUND,
{
    reveal_with_fuel(pow10, 10);
}

/// A decimal number of bounded precision and very wide range.
///
/// Fields are ordered so that the derived `Ord` compares exponents first.
#[derive(Debug, Clone, Copy, PartialEq, Eq, Structural, PartialOrd, Ord, Hash)]
pub struct BigInt {
    pub exponent: i128,
    pub mantissa: i128,
}

/// A native number that has no scaled decimal form: a negative one.
#[derive(Debug, Clone, Copy, PartialEq, Eq, Structural)]
pub struct ConversionError;

/// Failure of an arithmetic operation.
#[derive(Debug, Clone, Copy, PartialEq, Eq, Structural)]
pub enum ArithmeticError {
    /// The divisor was zero.
    DivisionByZero,
    /// An exponent, in the result or on the way to it, left the `i128` range.
    Overflow,
}

pub open spec fn abs(m: int) -> nat {
    if m < 0 {
        (-m) as nat
    } else {
        m as nat
    }
}

pub open spec fn with_sign(negative: bool, a: nat) -> int {
    if negative {
        -a
    } else {
        a as int
    }
}

pub open spec fn fits_i128(x: int) -> bool {
    i128::MIN <= x <= i128::MAX
}

/// The normal form of a pair: zero, or a magnitude in `[MANTISSA_MIN, MANTISSA_BOUND)`.
pub open spec fn is_normalized_pair(m: int, e: int) -> bool {
    (m == 0 && e == 0) || (MANTISSA_MIN <= abs(m) < MANTISSA_BOUND)
}

/// Scaling a positive magnitude into `[MANTISSA_MIN, MANTISSA_BOUND)` by
/// repeated truncating division or multiplication by ten: the scaled
/// magnitude and the number of divisions (negative for multiplications).
pub open spec fn scale_mag(a: nat) -> (nat, int)
    decreases
            (if a >= MANTISSA_BOUND { a } else { 0 }),
            (if a < MANTISSA_MIN { (MANTISSA_MIN - a) as nat } else { 0 }),
{
    if a == 0 {
        (0, 0)
    } else if a >= MANTISSA_BOUND {
        let r = scale_mag(a / 10);
        (r.0, r.1 + 1)
    } else if a < MANTISSA_MIN {
        let r = scale_mag(a * 10);
        (r.0, r.1 - 1)
    } else {
        (a, 0)
    }
}

/// Exponent-compensating normalization: the value is kept, up to the
/// digits that truncation drops.
pub open spec fn normalize(m: int, e: int) -> (int, int) {
    if m == 0 {
        (0, 0)
    } else {
        (with_sign(m < 0, scale_mag(abs(m)).0), e + scale_mag(abs(m)).1)
    }
}

/// Exponent-preserving normalization: only the mantissa's width is fixed.
pub open spec fn normalize_keep(m: int, e: int) -> (int, int) {
    if m == 0 {
        (0, 0)
    } else {
        (normalize(m, e).0, e)
    }
}

/// Scaling lands in the normal range, and leaves a normal magnitude as it is.
pub proof fn lemma_scale_mag(a: nat)
    requires
        a > 0,
    ensures
        MANTISSA_MIN <= scale_mag(a).0 < MANTISSA_BOUND,
        MANTISSA_MIN <= a < MANTISSA_BOUND ==> scale_mag(a) == (a, 0int),
        a >= MANTISSA_MIN ==> scale_mag(a).1 >= 0,
        a < MANTISSA_BOUND ==> scale_mag(a).1 <= 0,
    decreases
            (if a >= MANTISSA_BOUND { a } else { 0 }),
            (if a < MANTISSA_MIN { (MANTISSA_MIN - a) as nat } else { 0 }),
{
    if a >= MANTISSA_BOUND {
        lemma_scale_mag(a / 10);
    } else if a < MANTISSA_MIN {
        lemma_scale_mag(a * 10);
    }
}

/// The result of either normalization is normalized.
pub proof fn lemma_normalize_is_normalized(m: int, e: int)
    ensures
        is_normalized_pair(normalize(m, e).0, normalize(m, e).1),
        is_normalized_pair(normalize_keep(m, e).0, normalize_keep(m, e).1),
{
    if m != 0 {
        lemma_scale_mag(abs(m));
    }
}

/// Scales a positive magnitude as `scale_mag` does.
fn scale_magnitude(a0: u128) -> (r: (u128, i128))
    requires
        0 < a0 <= i128::MAX as u128 + 1,
    ensures
        r.0 == scale_mag(a0 as nat).0,
        r.1 == scale_mag(a0 as nat).1,
{
    let mut a: u128 = a0;
    let mut shift: i128 = 0;
    while a >= MANTISSA_BOUND as u128
        invariant
            0 < a <= a0 <= i128::MAX as u128 + 1,
            0 <= shift <= a0 - a,
            scale_mag(a as nat).0 == scale_mag(a0 as nat).0,
            scale_mag(a as nat).1 + shift == scale_mag(a0 as nat).1,
        decreases a,
    {
        a = a / 10;
        shift = shift + 1;
    }
    while a < MANTISSA_MIN as u128
        invariant
            0 < a < MANTISSA_BOUND,
            -(a as int) <= shift,
            scale_mag(a as nat).0 == scale_mag(a0 as nat).0,
            scale_mag(a as nat).1 + shift == scale_mag(a0 as nat).1,
        decreases MANTISSA_BOUND - a,
    {
        a = a * 10;
        shift = shift - 1;
    }
    (a, shift)
}

/// The magnitude of an `i128`, as a `u128`.
fn magnitude(m: i128) -> (r: u128)
    ensures
        r == abs(m as int),
        r <= i128::MAX as u128 + 1,
{
    if m < 0 {
        ((-(m + 1)) as u128) + 1
    } else {
        m as u128
    }
}

/// Applies a sign to a magnitude that the normal form bounds.
fn signed(negative: bool, a: u128) -> (r: i128)
    requires
        a < MANTISSA_BOUND,
    ensures
        r == with_sign(negative, a as nat),
{
    if negative {
        -(a as i128)
    } else {
        a as i128
    }
}

impl BigInt {
    pub open spec fn normalized(&self) -> bool {
        is_normalized_pair(self.mantissa as int, self.exponent as int)
    }

    pub open spec fn pair(&self) -> (int, int) {
        (self.mantissa as int, self.exponent as int)
    }

    /// Whether the value is in normal form.
    pub fn is_normal(&self) -> (r: bool)
        ensures
            r == self.normalized(),
    {
        if self.mantissa == 0 {
            self.exponent == 0
        } else {
            let a = magnitude(self.mantissa);
            MANTISSA_MIN as u128 <= a && a < MANTISSA_BOUND as u128
        }
    }

    /// The value zero, in its single normal form.
    pub fn zero() -> (r: BigInt)
        ensures
            r.mantissa == 0,
            r.exponent == 0,
    {
        BigInt { exponent: 0, mantissa: 0 }
    }

    /// Exponent-compensating normalization of a raw pair, as after arithmetic.
    /// Fails with `Overflow` exactly when the normalized exponent leaves `i128`.
    pub fn reconstruct(mantissa: i128, exponent: i128) -> (r: Result<BigInt, ArithmeticError>)
        ensures
            r is Ok <==> fits_i128(normalize(mantissa as int, exponent as int).1),
            r is Ok ==> r->Ok_0.pair() == normalize(mantissa as int, exponent as int),
            r is Err ==> r->Err_0 == ArithmeticError::Overflow,
    {
        if mantissa == 0 {
            return Ok(BigInt::zero());
        }
        let (a, shift) = scale_magnitude(magnitude(mantissa));
        proof {
            lemma_scale_mag(abs(mantissa as int));
        }
        match exponent.checked_add(shift) {
            Some(e) => Ok(BigInt { exponent: e, mantissa: signed(mantissa < 0, a) }),
            None => Err(ArithmeticError::Overflow),
        }
    }

    /// Exponent-preserving normalization of a raw pair, for a pair whose
    /// exponent is already the intended one.
    pub fn construct_new(mantissa: i128, exponent: i128) -> (r: BigInt)
        ensures
            r.pair() == normalize_keep(mantissa as int, exponent as int),
            r.normalized(),
    {
        proof {
            lemma_normalize_is_normalized(mantissa as int, exponent as int);
        }
        if mantissa == 0 {
            return BigInt::zero();
        }
        let (a, _shift) = scale_magnitude(magnitude(mantissa));
        proof {
            lemma_scale_mag(abs(mantissa as int));
        }
        BigInt { exponent, mantissa: signed(mantissa < 0, a) }
    }

    /// Normalizes this value, compensating the exponent.
    pub fn verify(&self) -> (r: Result<BigInt, ArithmeticError>)
        ensures
            r is Ok <==> fits_i128(normalize(self.mantissa as int, self.exponent as int).1),
            r is Ok ==> r->Ok_0.pair() == normalize(self.mantissa as int, self.exponent as int),
            r is Err ==> r->Err_0 == ArithmeticError::Overflow,
    {
        BigInt::reconstruct(self.mantissa, self.exponent)
    }
}

/// Normalizing a normalized value changes nothing, with either entry point.
pub proof fn lemma_normalize_idempotent(m: int, e: int)
    requires
        is_normalized_pair(m, e),
    ensures
        normalize(m, e) == (m, e),
        normalize_keep(m, e) == (m, e),
{
    if m != 0 {
        lemma_scale_mag(abs(m));
    }
}

/// The mantissa that conversion takes from the positive decimal
/// `d / 10^scale`, before normalization: padded with zeros when `d` has at
/// most `MANTISSA_LENGTH` digits; otherwise cut to that many digits,
/// truncated when the input's order of magnitude `floor(log10)` is at
/// least `MANTISSA_LENGTH` and rounded half up below it. Only a rounding
/// carry leaves it one digit too wide.
pub open spec fn raw_mantissa(d: nat, scale: nat) -> nat {
    let k = log10(d);
    if k < MANTISSA_LENGTH {
        d * pow10((MANTISSA_LENGTH - 1 - k) as nat)
    } else {
        let p = pow10((k + 1 - MANTISSA_LENGTH) as nat);
        if k - scale >= MANTISSA_LENGTH || 2 * (d % p) < p {
            d / p
        } else {
            d / p + 1
        }
    }
}

/// The pair that the decimal `d / 10^scale` converts to: the raw mantissa
/// with exponent `floor(log10(d / 10^scale)) + 1`, normalized.
pub open spec fn decimal_pair(d: int, scale: nat) -> (int, int) {
    if d == 0 {
        (0, 0)
    } else {
        normalize(raw_mantissa(d as nat, scale) as int, log10(d as nat) - scale + 1)
    }
}

proof fn lemma_quotient_bounds(x: int, q: int, lo: int, hi: int)
    requires
        q > 0,
        lo * q <= x < hi * q,
    ensures
        lo <= x / q < hi,
{
    lemma_fundamental_div_mod(x, q);
    lemma_mod_bound(x, q);
    let y = x / q;
    assert(lo < y + 1) by (nonlinear_arith)
        requires
            lo * q <= x,
            x == q * y + x % q,
            x % q < q,
            q > 0,
    ;
    assert(y < hi) by (nonlinear_arith)
        requires
            x < hi * q,
            x == q * y + x % q,
            x % q >= 0,
            q > 0,
    ;
}

/// The raw mantissa lies in `[MANTISSA_MIN, MANTISSA_BOUND]`, and below the
/// bound when no digit is dropped.
pub proof fn lemma_raw_mantissa_bounds(d: nat, scale: nat)
    requires
        d > 0,
    ensures
        MANTISSA_MIN <= raw_mantissa(d, scale) <= MANTISSA_BOUND,
        log10(d) < MANTISSA_LENGTH ==> raw_mantissa(d, scale) < MANTISSA_BOUND,
{
    lemma_mantissa_limits();
    let k = log10(d);
    lemma_log10_bounds(d);
    let l = (MANTISSA_LENGTH - 1) as nat;
    if k <= l {
        let j = (l - k) as nat;
        lemma_pow10_positive(j);
        lemma_pow10_add(k, j);
        lemma_pow10_add(k + 1, j);
        let pk = pow10(k) as int;
        let pj = pow10(j) as int;
        let pk1 = pow10(k + 1) as int;
        assert(pk * pj <= d * pj < pk1 * pj) by (nonlinear_arith)
            requires
                pk <= d < pk1,
                pj >= 1,
        ;
        assert(k + j == l);
        assert(k + 1 + j == l + 1);
    } else {
        let j = (k - l) as nat;
        lemma_pow10_positive(j);
        lemma_pow10_add(l, j);
        lemma_pow10_add(l + 1, j);
        assert(l + j == k);
        assert(l + 1 + j == k + 1);
        let p = pow10(j) as int;
        lemma_quotient_bounds(d as int, p, MANTISSA_MIN as int, MANTISSA_BOUND as int);
    }
}

/// Normalizing a raw mantissa moves the exponent by at most one.
proof fn lemma_normalize_raw(m: nat, e: int)
    requires
        MANTISSA_MIN <= m <= MANTISSA_BOUND,
    ensures
        e <= normalize(m as int, e).1 <= e + 1,
{
    if m == MANTISSA_BOUND {
        assert(scale_mag(m / 10) == (m / 10, 0int));
        assert(scale_mag(m) == (m / 10, 1int));
    } else {
        lemma_scale_mag(m);
    }
}

/// The pieces of `raw_mantissa`, computed.
fn raw_mantissa_exec(d: u128, k: u32, scale: u32) -> (r: u128)
    requires
        0 < d <= i128::MAX as u128,
        k == log10(d as nat),
    ensures
        r == raw_mantissa(d as nat, scale as nat),
{
    proof {
        lemma_log10_u128(d);
        lemma_raw_mantissa_bounds(d as nat, scale as nat);
        lemma_mantissa_limits();
    }
    if k < MANTISSA_LENGTH {
        d * pow10_exec(MANTISSA_LENGTH - 1 - k)
    } else {
        let p = pow10_exec(k + 1 - MANTISSA_LENGTH);
        proof {
            lemma_pow10_positive((k + 1 - MANTISSA_LENGTH) as nat);
        }
        let q = d / p;
        let rem = d % p;
        if (k as i128) - (scale as i128) >= MANTISSA_LENGTH as i128 || rem < p - rem {
            q
        } else {
            q + 1
        }
    }
}

impl BigInt {
    /// Converts the decimal `digits / 10^scale` (so `15` and `1` give `1.5`).
    /// Zero gives the zero value; a negative number fails.
    pub fn from_decimal(digits: i128, scale: u32) -> (r: Result<BigInt, ConversionError>)
        ensures
            r is Ok <==> digits >= 0,
            r is Ok ==> r->Ok_0.pair() == decimal_pair(digits as int, scale as nat),
            r is Ok ==> r->Ok_0.normalized(),
    {
        if digits < 0 {
            return Err(ConversionError);
        }
        if digits == 0 {
            return Ok(BigInt::zero());
        }
        let d = digits as u128;
        let k = log10_exec(d);
        proof {
            lemma_log10_u128(d);
            lemma_raw_mantissa_bounds(d as nat, scale as nat);
            lemma_mantissa_limits();
        }
        let m = raw_mantissa_exec(d, k, scale);
        let e = (k as i128) - (scale as i128) + 1;
        proof {
            lemma_normalize_raw(m as nat, e as int);
            lemma_normalize_is_normalized(m as int, e as int);
        }
        match BigInt::reconstruct(m as i128, e) {
            Ok(v) => Ok(v),
            Err(_) => Err(ConversionError),
        }
    }

    /// Converts an integer. Zero gives the zero value; a negative number fails.
    pub fn new(val: i128) -> (r: Result<BigInt, ConversionError>)
        ensures
            r is Ok <==> val >= 0,
            r is Ok ==> r->Ok_0.pair() == decimal_pair(val as int, 0),
            r is Ok ==> r->Ok_0.normalized(),
    {
        BigInt::from_decimal(val, 0)
    }
}

} // verus!
