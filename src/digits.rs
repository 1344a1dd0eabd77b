//! A number held as the list of its leading decimal digits.

use vstd::prelude::*;

verus! {

pub open spec fn is_digit(c: char) -> bool {
    '0' <= c && c <= '9'
}

pub open spec fn digit_value(c: char) -> u32 {
    (c as u32 - '0' as u32) as u32
}

/// The length of the run of decimal digits that starts `s`.
pub open spec fn leading_digits(s: Seq<char>, n: int) -> bool {
    &&& 0 <= n <= s.len()
    &&& forall|j: int| 0 <= j < n ==> is_digit(#[trigger] s[j])
    &&& n == s.len() || !is_digit(s[n])
}

/// The decimal digits of a number, most significant first.
pub struct BigInt {
    pub int_array: Vec<u32>,
}

impl BigInt {
    /// The digits that start the text, up to the first character that is
    /// not a decimal digit (so `"123.45"` gives `[1, 2, 3]`).
    pub fn from_text(s: &str) -> (r: BigInt)
        ensures
            leading_digits(s@, r.int_array@.len() as int),
            forall|j: int| 0 <= j < r.int_array@.len() ==> #[trigger] r.int_array@[j] == digit_value(s@[j]),
    {
        let n = s.unicode_len();
        let mut out: Vec<u32> = Vec::new();
        let mut i: usize = 0;
        while i < n
            invariant
                n == s@.len(),
                i <= n,
                out@.len() == i,
                forall|j: int| 0 <= j < i ==> is_digit(#[trigger] s@[j]),
                forall|j: int| 0 <= j < i ==> #[trigger] out@[j] == digit_value(s@[j]),
            ensures
                i <= n,
                out@.len() == i,
                forall|j: int| 0 <= j < i ==> is_digit(#[trigger] s@[j]),
                forall|j: int| 0 <= j < i ==> #[trigger] out@[j] == digit_value(s@[j]),
                i == n || !is_digit(s@[i as int]),
            decreases n - i,
        {
            let c = s.get_char(i);
            if !('0' <= c && c <= '9') {
                break;
            }
            out.push((c as u32) - ('0' as u32));
            i = i + 1;
        }
        BigInt { int_array: out }
    }
}

} // verus!
