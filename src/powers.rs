//! Powers of ten and decimal logarithms, in spec and exec form.

use vstd::prelude::*;
use vstd::arithmetic::div_mod::{
    lemma_fundamental_div_mod, lemma_div_multiples_vanish, lemma_mod_multiples_basic,
};
use vstd::arithmetic::mul::lemma_mul_is_commutative;

verus! {

/// `10^n`.
pub open spec fn pow10(n: nat) -> nat
    decreases n,
{
    if n == 0 {
        1
    } else {
        10 * pow10((n - 1) as nat)
    }
}

/// `floor(log10(n))`, taken as `0` for `n < 10`.
pub open spec fn log10(n: nat) -> nat
    decreases n,
{
    if n < 10 {
        0
    } else {
        1 + log10(n / 10)
    }
}

pub proof fn lemma_pow10_positive(n: nat)
    ensures
        pow10(n) >= 1,
    decreases n,
{
    if n > 0 {
        lemma_pow10_positive((n - 1) as nat);
    }
}

pub proof fn lemma_pow10_add(a: nat, b: nat)
    ensures
        pow10(a + b) == pow10(a) * pow10(b),
    decreases a,
{
    if a > 0 {
        let j = (a - 1) as nat;
        lemma_pow10_add(j, b);
        assert(a + b == (j + b) + 1);
        assert(pow10(a + b) == 10 * pow10(j + b));
        assert(pow10(a) == 10 * pow10(j));
        let x = pow10(j) as int;
        let y = pow10(b) as int;
        assert(10 * (x * y) == (10 * x) * y) by (nonlinear_arith);
    } else {
        assert(pow10(0) == 1);
        assert(a + b == b);
    }
}

pub proof fn lemma_pow10_monotone(a: nat, b: nat)
    requires
        a <= b,
    ensures
        pow10(a) <= pow10(b),
    decreases b,
{
    if a < b {
        lemma_pow10_monotone(a, (b - 1) as nat);
        lemma_pow10_positive((b - 1) as nat);
    }
}

/// The decimal logarithm brackets its argument between two powers of ten.
pub proof fn lemma_log10_bounds(n: nat)
    requires
        n >= 1,
    ensures
        pow10(log10(n)) <= n < pow10(log10(n) + 1),
    decreases n,
{
    if n >= 10 {
        lemma_log10_bounds(n / 10);
        assert(log10(n) == 1 + log10(n / 10));
        assert(pow10(log10(n)) == 10 * pow10(log10(n / 10)));
        assert(pow10(log10(n) + 1) == 10 * pow10(log10(n / 10) + 1));
        lemma_fundamental_div_mod(n as int, 10);
    } else {
        assert(pow10(1) == 10) by {
            reveal_with_fuel(pow10, 2);
        }
    }
}

/// `n * 10^k` divided by `10^k` gives `n` back, with no remainder.
pub proof fn lemma_scale_back(n: nat, k: nat)
    ensures
        (n * pow10(k)) / pow10(k) == n,
        (n * pow10(k)) % pow10(k) == 0,
{
    lemma_pow10_positive(k);
    let p = pow10(k) as int;
    lemma_div_multiples_vanish(n as int, p);
    lemma_mod_multiples_basic(n as int, p);
    lemma_mul_is_commutative(n as int, p);
}

/// A `u128` has at most 39 decimal digits.
pub proof fn lemma_log10_u128(n: u128)
    ensures
        log10(n as nat) <= 38,
{
    if n >= 1 && log10(n as nat) > 38 {
        lemma_log10_bounds(n as nat);
        lemma_pow10_monotone(39, log10(n as nat));
        assert(pow10(39) == 1_000_000_000_000_000_000_000_000_000_000_000_000_000) by {
            reveal_with_fuel(pow10, 40);
        }
    }
}

/// `10^n` as an exec value.
pub fn pow10_exec(n: u32) -> (r: u128)
    requires
        n <= 38,
    ensures
        r == pow10(n as nat),
{
    proof {
        assert(pow10(38) == 100_000_000_000_000_000_000_000_000_000_000_000_000) by {
            reveal_with_fuel(pow10, 39);
        }
    }
    let mut r: u128 = 1;
    let mut i: u32 = 0;
    while i < n
        invariant
            i <= n <= 38,
            r == pow10(i as nat),
            pow10(38) == 100_000_000_000_000_000_000_000_000_000_000_000_000,
        decreases n - i,
    {
        proof {
            lemma_pow10_monotone((i + 1) as nat, 38);
        }
        r = r * 10;
        i = i + 1;
    }
    r
}

/// `floor(log10(n))` as an exec value.
pub fn log10_exec(n: u128) -> (r: u32)
    ensures
        r == log10(n as nat),
{
    proof {
        lemma_log10_u128(n);
    }
    let mut a: u128 = n;
    let mut k: u32 = 0;
    while a >= 10
        invariant
            k + log10(a as nat) == log10(n as nat),
            k <= 39 - log10(a as nat),
            log10(n as nat) <= 38,
        decreases a,
    {
        a = a / 10;
        k = k + 1;
    }
    k
}

} // verus!
