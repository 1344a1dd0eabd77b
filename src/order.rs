//! Total order over normalized values: exponent first, then mantissa.

use vstd::prelude::*;
use core::cmp::Ordering;
use crate::big_int::BigInt;

verus! {

pub open spec fn compare_spec(a: BigInt, b: BigInt) -> Ordering {
    if a.exponent < b.exponent {
        Ordering::Less
    } else if a.exponent > b.exponent {
        Ordering::Greater
    } else if a.mantissa < b.mantissa {
        Ordering::Less
    } else if a.mantissa > b.mantissa {
        Ordering::Greater
    } else {
        Ordering::Equal
    }
}

impl BigInt {
    /// Compares exponents, and mantissas where the exponents are equal.
    pub fn compare(&self, other: &BigInt) -> (r: Ordering)
        requires
            self.normalized(),
            other.normalized(),
        ensures
            r == compare_spec(*self, *other),
            r == Ordering::Equal <==> *self == *other,
    {
        if self.exponent < other.exponent {
            Ordering::Less
        } else if self.exponent > other.exponent {
            Ordering::Greater
        } else if self.mantissa < other.mantissa {
            Ordering::Less
        } else if self.mantissa > other.mantissa {
            Ordering::Greater
        } else {
            Ordering::Equal
        }
    }
}

/// A value with the larger exponent is the greater one, whatever the
/// mantissas hold.
pub proof fn lemma_exponent_dominates(a: BigInt, b: BigInt)
    requires
        a.normalized(),
        b.normalized(),
        a.exponent > b.exponent,
    ensures
        compare_spec(a, b) == Ordering::Greater,
        compare_spec(b, a) == Ordering::Less,
{
}

/// Swapping the operands reverses the order.
pub proof fn lemma_compare_antisymmetric(a: BigInt, b: BigInt)
    ensures
        compare_spec(a, b) == Ordering::Less <==> compare_spec(b, a) == Ordering::Greater,
        compare_spec(a, b) == Ordering::Equal <==> a == b,
{
}

} // verus!
