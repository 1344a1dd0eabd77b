//! Checks on player records.

use vstd::prelude::*;

verus! {

/// Whether no value occurs twice among the ids.
pub fn no_unique_elements(ids: &Vec<u64>) -> (r: bool)
    ensures
        r == ids@.no_duplicates(),
{
    let n = ids.len();
    let mut i: usize = 0;
    while i < n
        invariant
            n == ids@.len(),
            i <= n,
            forall|a: int, b: int| 0 <= a < b < n && a < i ==> ids@[a] != ids@[b],
        decreases n - i,
    {
        let mut j: usize = i + 1;
        while j < n
            invariant
                n == ids@.len(),
                i < n,
                i < j <= n,
                forall|a: int, b: int| 0 <= a < b < n && a < i ==> ids@[a] != ids@[b],
                forall|b: int| i < b < j ==> ids@[i as int] != ids@[b],
            decreases n - j,
        {
            if ids[i] == ids[j] {
                return false;
            }
            j = j + 1;
        }
        i = i + 1;
    }
    true
}

/// How a computation ended: its integer arithmetic overflowed (`Int`), it
/// reached the largest `i64`, where a cast of the largest float lands
/// (`Float`), or neither (`Safe`).
#[derive(Debug, Clone, Copy, PartialEq, Eq, Structural)]
pub enum Overflows {
    Float,
    Int,
    Safe,
}

/// Classifies the outcome of a checked computation: `None` when its
/// integer arithmetic overflowed.
pub fn overflow_check(result: Option<i64>) -> (r: Overflows)
    ensures
        result is None ==> r == Overflows::Int,
        result is Some && result->0 == i64::MAX ==> r == Overflows::Float,
        result is Some && result->0 < i64::MAX ==> r == Overflows::Safe,
{
    match result {
        None => Overflows::Int,
        Some(v) => {
            if v >= i64::MAX {
                Overflows::Float
            } else {
                Overflows::Safe
            }
        },
    }
}

} // verus!
