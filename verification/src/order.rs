//! Equality and order of big numbers.

use crate::big_number::BigNumber;
use crate::digits::{compare_digits, lemma_seq_order_mag, mag, seq_order};
use std::cmp::Ordering;
use vstd::prelude::*;

verus! {

/// The order that -1, 0 and 1 stand for.
pub open spec fn ordering_of(c: int) -> Ordering {
    if c < 0 {
        Ordering::Less
    } else if c == 0 {
        Ordering::Equal
    } else {
        Ordering::Greater
    }
}

/// The order of two integers.
pub open spec fn int_order(a: int, b: int) -> Ordering {
    ordering_of(a - b)
}

impl BigNumber {
    /// How the absolute values compare, read off the digits: -1, 0 or 1.
    pub open spec fn abs_order(&self, other: &BigNumber) -> int {
        seq_order(self.digits(), other.digits())
    }

    /// How the numbers compare, read off signs and digits: -1, 0 or 1. Of two
    /// negative numbers the one with the larger absolute value is the smaller.
    pub open spec fn order(&self, other: &BigNumber) -> int {
        if self.signum() < other.signum() {
            -1
        } else if self.signum() > other.signum() {
            1
        } else if self.signum() < 0 {
            -self.abs_order(other)
        } else {
            self.abs_order(other)
        }
    }

    /// On numbers in normal form `abs_order` is the order of the absolute
    /// values.
    pub proof fn lemma_abs_order(&self, other: &BigNumber)
        requires
            self.wf(),
            other.wf(),
        ensures
            self.abs_order(other) == -1 <==> mag(self.digits()) < mag(other.digits()),
            self.abs_order(other) == 0 <==> mag(self.digits()) == mag(other.digits()),
            self.abs_order(other) == 1 <==> mag(self.digits()) > mag(other.digits()),
    {
        lemma_seq_order_mag(self.number@, other.number@);
    }

    /// On numbers in normal form `order` is the order of the integers.
    pub proof fn lemma_order(&self, other: &BigNumber)
        requires
            self.wf(),
            other.wf(),
        ensures
            self.order(other) == -1 <==> self@ < other@,
            self.order(other) == 0 <==> self@ == other@,
            self.order(other) == 1 <==> self@ > other@,
    {
        self.lemma_sign();
        other.lemma_sign();
        lemma_seq_order_mag(self.number@, other.number@);
    }

    /// Whether the absolute value is smaller than that of `other`.
    pub fn abs_less(&self, other: &BigNumber) -> (out: bool)
        ensures
            out == (self.abs_order(other) < 0),
    {
        match self.cmp_abs(other) {
            Some(Ordering::Less) => true,
            _ => false,
        }
    }

    /// Compares the absolute values: by length first, then digit by digit
    /// from the most significant.
    pub fn cmp_abs(&self, other: &BigNumber) -> (out: Option<Ordering>)
        ensures
            out == Some(ordering_of(self.abs_order(other))),
    {
        let c: i8 = compare_digits(&self.number, &other.number);
        if c < 0 {
            Some(Ordering::Less)
        } else if c == 0 {
            Some(Ordering::Equal)
        } else {
            Some(Ordering::Greater)
        }
    }

    /// The two numbers, the one with the smaller absolute value first; as
    /// given where the absolute values are equal.
    pub fn smaller_bigger_abs<'a>(l: &'a BigNumber, r: &'a BigNumber) -> (out: (
        &'a BigNumber,
        &'a BigNumber,
    ))
        ensures
            out == if l.abs_order(r) > 0 {
                (r, l)
            } else {
                (l, r)
            },
    {
        match l.cmp_abs(r) {
            Some(Ordering::Greater) => (r, l),
            _ => (l, r),
        }
    }

    /// The larger of the two; `other` where they are equal.
    pub fn max<'a>(&'a self, other: &'a BigNumber) -> (out: &'a BigNumber)
        requires
            self.wf(),
            other.wf(),
        ensures
            out == if self@ > other@ {
                self
            } else {
                other
            },
    {
        proof {
            self.lemma_order(other);
        }
        match self.partial_cmp(other) {
            Some(Ordering::Greater) => self,
            _ => other,
        }
    }

    /// The smaller of the two; `other` where they are equal.
    pub fn min<'a>(&'a self, other: &'a BigNumber) -> (out: &'a BigNumber)
        requires
            self.wf(),
            other.wf(),
        ensures
            out == if self@ < other@ {
                self
            } else {
                other
            },
    {
        proof {
            self.lemma_order(other);
        }
        match self.partial_cmp(other) {
            Some(Ordering::Less) => self,
            _ => other,
        }
    }
}

impl PartialEq for BigNumber {
    fn eq(&self, other: &BigNumber) -> (out: bool) {
        if self.sign != other.sign {
            return false;
        }
        if self.number.len() != other.number.len() {
            return false;
        }
        let n: usize = self.number.len();
        let mut i: usize = 0;
        while i < n
            invariant
                n == self.number.len(),
                n == other.number.len(),
                0 <= i <= n,
                forall|j: int| 0 <= j < i ==> self.number@[j] == other.number@[j],
            decreases n - i,
        {
            if self.number[i] != other.number[i] {
                return false;
            }
            i += 1;
        }
        assert(self.number@ =~= other.number@);
        true
    }
}

impl vstd::std_specs::cmp::PartialEqSpecImpl for BigNumber {
    open spec fn obeys_eq_spec() -> bool {
        true
    }

    open spec fn eq_spec(&self, other: &BigNumber) -> bool {
        self.same(other)
    }
}

impl PartialOrd for BigNumber {
    fn partial_cmp(&self, other: &BigNumber) -> (out: Option<Ordering>) {
        if self.sign < other.sign {
            return Some(Ordering::Less);
        }
        if self.sign > other.sign {
            return Some(Ordering::Greater);
        }
        let by_abs = self.cmp_abs(other);
        if self.sign < 0 {
            match by_abs {
                Some(Ordering::Less) => Some(Ordering::Greater),
                Some(Ordering::Greater) => Some(Ordering::Less),
                _ => Some(Ordering::Equal),
            }
        } else {
            by_abs
        }
    }
}

impl vstd::std_specs::cmp::PartialOrdSpecImpl for BigNumber {
    open spec fn obeys_partial_cmp_spec() -> bool {
        true
    }

    open spec fn partial_cmp_spec(&self, other: &BigNumber) -> Option<Ordering> {
        Some(ordering_of(self.order(other)))
    }
}

} // verus!
