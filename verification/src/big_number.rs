//! The number type: a sign and the decimal digits of the absolute value.

use crate::digits::{
    copy_digits, digits_of, lemma_canonical_unique, lemma_digits_of, lemma_mag_lower, mag,
    no_leading_zero, strip_leading_zeros, valid_digits,
};
use vstd::prelude::*;

verus! {

/// A signed integer of any size.
///
/// `number` holds the decimal digits of the absolute value, the most
/// significant first; zero is the empty sequence and has the sign 1.
#[derive(Debug)]
pub struct BigNumber {
    pub(crate) sign: i8,
    pub(crate) number: Vec<i8>,
}

impl BigNumber {
    /// The digits of the absolute value, the most significant first.
    pub open(crate) spec fn digits(&self) -> Seq<i8> {
        self.number@
    }

    /// The stored sign: 1 or -1 in every number that a function hands out.
    pub open(crate) spec fn signum(&self) -> int {
        self.sign as int
    }

    /// The integer that the number denotes.
    pub open spec fn view(&self) -> int {
        self.signum() * mag(self.digits())
    }

    /// The sign is 1 or -1 and the digits are decimal digits; nothing is
    /// said of leading zeros.
    pub open spec fn well_signed(&self) -> bool {
        &&& (self.signum() == 1 || self.signum() == -1)
        &&& valid_digits(self.digits())
    }

    /// The number is in its one normal form: no leading zero, and zero has
    /// the sign 1.
    pub open spec fn wf(&self) -> bool {
        &&& self.well_signed()
        &&& no_leading_zero(self.digits())
        &&& (self.digits().len() == 0 ==> self.signum() == 1)
    }

    /// Two numbers have the same sign and the same digits.
    pub open spec fn same(&self, other: &BigNumber) -> bool {
        self.signum() == other.signum() && self.digits() == other.digits()
    }

    /// In normal form the sign follows from the value, and only zero has no
    /// digits.
    pub proof fn lemma_sign(&self)
        requires
            self.wf(),
        ensures
            self@ == 0 <==> self.digits().len() == 0,
            self@ > 0 <==> (self.signum() == 1 && self.digits().len() > 0),
            self@ < 0 <==> self.signum() == -1,
            mag(self.digits()) == if self@ < 0 { -self@ } else { self@ },
    {
        let s = self.signum();
        let m = mag(self.digits());
        assert(s * m == if s == 1 { m } else { -m }) by (nonlinear_arith)
            requires
                s == 1 || s == -1,
        ;
        if self.digits().len() > 0 {
            lemma_mag_lower(self.digits());
        }
    }

    /// A number has one normal form only.
    pub proof fn lemma_unique(&self, other: &BigNumber)
        requires
            self.wf(),
            other.wf(),
            self@ == other@,
        ensures
            self.same(other),
    {
        self.lemma_sign();
        other.lemma_sign();
        lemma_canonical_unique(self.number@, other.number@);
    }

    /// The normal form follows from the value: the sign is that of the
    /// value, and the digits are those of its absolute value.
    pub proof fn lemma_normal_form(&self)
        requires
            self.wf(),
        ensures
            self.signum() == if self@ < 0 { -1int } else { 1int },
            self.digits() == digits_of(vstd::math::abs(self@)),
    {
        self.lemma_sign();
        let n = vstd::math::abs(self@);
        lemma_digits_of(n);
        lemma_canonical_unique(self.number@, digits_of(n));
    }

    /// Brings a number into normal form: strips the leading zeros and gives
    /// zero the sign 1. The value stays.
    pub fn normalize(self) -> (out: BigNumber)
        requires
            self.well_signed(),
        ensures
            out.wf(),
            out@ == self@,
    {
        let sign = self.sign;
        let digits = strip_leading_zeros(self.number);
        if digits.len() == 0 {
            BigNumber { sign: 1, number: digits }
        } else {
            BigNumber { sign, number: digits }
        }
    }

    /// Whether the number is zero.
    pub fn is_zero(&self) -> (out: bool)
        requires
            self.wf(),
        ensures
            out == (self@ == 0),
    {
        proof {
            self.lemma_sign();
        }
        self.number.len() == 0
    }

    /// The same number with the opposite sign.
    pub fn negative(&self) -> (out: BigNumber)
        requires
            self.wf(),
        ensures
            out.wf(),
            out@ == -self@,
    {
        let number = copy_digits(&self.number);
        if number.len() == 0 {
            BigNumber { sign: 1, number }
        } else {
            proof {
                let s = self.sign as int;
                let m = mag(self.number@);
                assert((-s) * m == -(s * m)) by (nonlinear_arith);
            }
            BigNumber { sign: -self.sign, number }
        }
    }

    /// The absolute value.
    pub fn abs(&self) -> (out: BigNumber)
        requires
            self.wf(),
        ensures
            out.wf(),
            out@ == if self@ < 0 { -self@ } else { self@ },
    {
        proof {
            self.lemma_sign();
        }
        BigNumber { sign: 1, number: copy_digits(&self.number) }
    }
}

impl Clone for BigNumber {
    fn clone(&self) -> (out: BigNumber)
        ensures
            out.same(self),
    {
        BigNumber { sign: self.sign, number: copy_digits(&self.number) }
    }
}

} // verus!
