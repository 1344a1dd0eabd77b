//! Rendering a normalized value as text.
//!
//! A value whose exponent is at most `MANTISSA_LENGTH` is written as the
//! exact decimal `mantissa / 10^(MANTISSA_LENGTH - exponent)`: the integer
//! part, then a point and the fractional digits if any are nonzero
//! (trailing zeros dropped), as in `75`, `1.5` or `0.005`. A larger value is
//! written in scientific form: the leading digit, a point, the next four
//! digits (truncated), `e` and the power of ten of the leading digit, as in
//! `1.2345e12`.

use vstd::prelude::*;
use crate::powers::{
    pow10, log10, lemma_pow10_positive, lemma_pow10_monotone, lemma_log10_bounds, lemma_scale_back,
    pow10_exec,
};
use crate::big_int::{
    BigInt, MANTISSA_LENGTH, MANTISSA_MIN, abs, decimal_pair, raw_mantissa, lemma_mantissa_limits,
    lemma_raw_mantissa_bounds, lemma_scale_mag,
};

verus! {

pub open spec fn digit_char(d: nat) -> char {
    if d == 0 {
        '0'
    } else if d == 1 {
        '1'
    } else if d == 2 {
        '2'
    } else if d == 3 {
        '3'
    } else if d == 4 {
        '4'
    } else if d == 5 {
        '5'
    } else if d == 6 {
        '6'
    } else if d == 7 {
        '7'
    } else if d == 8 {
        '8'
    } else {
        '9'
    }
}

/// The decimal digits of `n`, without leading zeros.
pub open spec fn dec(n: nat) -> Seq<char>
    decreases n,
{
    if n < 10 {
        seq![digit_char(n)]
    } else {
        dec(n / 10).push(digit_char(n % 10))
    }
}

/// The last `w` decimal digits of `n`, with leading zeros.
pub open spec fn dec_pad(n: nat, w: nat) -> Seq<char>
    decreases w,
{
    if w == 0 {
        seq![]
    } else {
        dec_pad(n / 10, (w - 1) as nat).push(digit_char(n % 10))
    }
}

/// A `w`-digit fraction `f` with its trailing zeros removed.
pub open spec fn trim_zeros(f: nat, w: nat) -> (nat, nat)
    decreases w,
{
    if w > 0 && f % 10 == 0 {
        trim_zeros(f / 10, (w - 1) as nat)
    } else {
        (f, w)
    }
}

pub open spec fn sign_prefix(negative: bool) -> Seq<char> {
    if negative {
        seq!['-']
    } else {
        seq![]
    }
}

/// `n` zero digits.
pub open spec fn zeros(n: nat) -> Seq<char> {
    Seq::new(n, |i: int| '0')
}

/// The text of a normalized pair.
pub open spec fn display_spec(m: int, e: int) -> Seq<char> {
    let a = abs(m);
    let s = sign_prefix(m < 0);
    if m == 0 {
        seq!['0']
    } else if 0 <= e <= MANTISSA_LENGTH {
        let p = (MANTISSA_LENGTH - e) as nat;
        let whole = a / pow10(p);
        let frac = a % pow10(p);
        if frac == 0 {
            s + dec(whole)
        } else {
            s + dec(whole) + seq!['.'] + dec_pad(trim_zeros(frac, p).0, trim_zeros(frac, p).1)
        }
    } else if e < 0 {
        s + seq!['0', '.'] + zeros(abs(e)) + dec(trim_zeros(a, MANTISSA_LENGTH as nat).0)
    } else {
        s + seq![digit_char(a / (MANTISSA_MIN as nat))] + seq!['.'] + dec_pad((a / 1000) % 10000, 4)
            + seq!['e'] + dec((e - 1) as nat)
    }
}

fn digit_str(d: u128) -> (r: &'static str)
    requires
        d < 10,
    ensures
        r@ == seq![digit_char(d as nat)],
{
    if d == 0 {
        proof { reveal_strlit("0"); }
        "0"
    } else if d == 1 {
        proof { reveal_strlit("1"); }
        "1"
    } else if d == 2 {
        proof { reveal_strlit("2"); }
        "2"
    } else if d == 3 {
        proof { reveal_strlit("3"); }
        "3"
    } else if d == 4 {
        proof { reveal_strlit("4"); }
        "4"
    } else if d == 5 {
        proof { reveal_strlit("5"); }
        "5"
    } else if d == 6 {
        proof { reveal_strlit("6"); }
        "6"
    } else if d == 7 {
        proof { reveal_strlit("7"); }
        "7"
    } else if d == 8 {
        proof { reveal_strlit("8"); }
        "8"
    } else {
        proof { reveal_strlit("9"); }
        "9"
    }
}

/// Appends the decimal digits of `n`.
fn push_dec(out: &mut String, n: u128)
    ensures
        final(out)@ == old(out)@ + dec(n as nat),
    decreases n,
{
    if n >= 10 {
        push_dec(out, n / 10);
    }
    out.append(digit_str(n % 10));
    assert(final(out)@ =~= old(out)@ + dec(n as nat));
}

/// Appends the last `w` decimal digits of `n`.
fn push_dec_pad(out: &mut String, n: u128, w: u32)
    ensures
        final(out)@ == old(out)@ + dec_pad(n as nat, w as nat),
    decreases w,
{
    if w > 0 {
        push_dec_pad(out, n / 10, w - 1);
        out.append(digit_str(n % 10));
    }
    assert(final(out)@ =~= old(out)@ + dec_pad(n as nat, w as nat));
}

fn trim_fraction(f: u128, w: u32) -> (r: (u128, u32))
    ensures
        r.0 == trim_zeros(f as nat, w as nat).0,
        r.1 == trim_zeros(f as nat, w as nat).1,
{
    let mut g: u128 = f;
    let mut v: u32 = w;
    while v > 0 && g % 10 == 0
        invariant
            trim_zeros(g as nat, v as nat) == trim_zeros(f as nat, w as nat),
        decreases v,
    {
        g = g / 10;
        v = v - 1;
    }
    (g, v)
}

/// Appends `n` zero digits.
fn push_zeros(out: &mut String, n: u128)
    ensures
        final(out)@ == old(out)@ + zeros(n as nat),
{
    let ghost start = out@;
    let mut i: u128 = 0;
    while i < n
        invariant
            i <= n,
            out@ == start + zeros(i as nat),
        decreases n - i,
    {
        proof { reveal_strlit("0"); }
        out.append("0");
        assert(out@ =~= start + zeros((i + 1) as nat));
        i = i + 1;
    }
}

fn push_str(out: &mut String, s: &str)
    ensures
        final(out)@ == old(out)@ + s@,
{
    out.append(s);
}

impl BigInt {
    /// The value as text.
    pub fn to_string(&self) -> (r: String)
        requires
            self.normalized(),
        ensures
            r@ == display_spec(self.mantissa as int, self.exponent as int),
    {
        proof {
            lemma_mantissa_limits();
        }
        let mut out = String::new();
        if self.mantissa == 0 {
            proof { reveal_strlit("0"); }
            push_str(&mut out, "0");
            assert(out@ =~= display_spec(self.mantissa as int, self.exponent as int));
            return out;
        }
        let a: u128 = if self.mantissa < 0 {
            (-self.mantissa) as u128
        } else {
            self.mantissa as u128
        };
        if self.mantissa < 0 {
            proof { reveal_strlit("-"); }
            push_str(&mut out, "-");
        }
        let ghost s = out@;
        assert(s =~= sign_prefix(self.mantissa < 0));
        if 0 <= self.exponent && self.exponent <= MANTISSA_LENGTH as i128 {
            let p = MANTISSA_LENGTH - (self.exponent as u32);
            let scale = pow10_exec(p);
            proof {
                lemma_pow10_positive(p as nat);
            }
            let whole = a / scale;
            let frac = a % scale;
            push_dec(&mut out, whole);
            if frac != 0 {
                proof { reveal_strlit("."); }
                push_str(&mut out, ".");
                let (t, w) = trim_fraction(frac, p);
                push_dec_pad(&mut out, t, w);
            }
        } else if self.exponent < 0 {
            proof { reveal_strlit("0."); }
            push_str(&mut out, "0.");
            let count: u128 = ((-(self.exponent + 1)) as u128) + 1;
            push_zeros(&mut out, count);
            let (t, _w) = trim_fraction(a, MANTISSA_LENGTH);
            push_dec(&mut out, t);
        } else {
            push_dec(&mut out, a / (MANTISSA_MIN as u128));
            proof { reveal_strlit("."); }
            push_str(&mut out, ".");
            push_dec_pad(&mut out, (a / 1000) % 10000, 4);
            proof { reveal_strlit("e"); }
            push_str(&mut out, "e");
            push_dec(&mut out, (self.exponent - 1) as u128);
        }
        assert(out@ =~= display_spec(self.mantissa as int, self.exponent as int));
        out
    }
}

/// Converting a positive integer of at most `MANTISSA_LENGTH` digits and
/// displaying the result gives back the integer's decimal digits.
pub proof fn lemma_round_trip(n: int)
    requires
        0 < n < pow10(MANTISSA_LENGTH as nat),
    ensures
        display_spec(decimal_pair(n, 0).0, decimal_pair(n, 0).1) == dec(n as nat),
{
    lemma_mantissa_limits();
    let d = n as nat;
    let k = log10(d);
    lemma_log10_bounds(d);
    if k >= MANTISSA_LENGTH {
        lemma_pow10_monotone(MANTISSA_LENGTH as nat, k);
    }
    assert(k < MANTISSA_LENGTH);
    lemma_raw_mantissa_bounds(d, 0);
    let raw = raw_mantissa(d, 0);
    let p = (MANTISSA_LENGTH - 1 - k) as nat;
    assert(raw == d * pow10(p));
    lemma_scale_mag(raw);
    assert(decimal_pair(n, 0) == (raw as int, (k + 1) as int));
    lemma_scale_back(d, p);
    lemma_pow10_positive(p);
    assert(abs(raw as int) == raw);
    assert(sign_prefix(false) + dec(d) =~= dec(d));
}

} // verus!
