//! Addition, subtraction, multiplication and truncating division.

use crate::big_number::BigNumber;
use crate::convert::abs_int;
use crate::digits::{combine, lemma_low_step, lemma_mag_bounds, low, mag, pow10, scale, valid_digits};
use crate::error::BigNumberError;
use std::cmp::Ordering;
use vstd::arithmetic::div_mod::lemma_fundamental_div_mod_converse;
use vstd::prelude::*;

verus! {

/// Division that rounds toward zero: the quotient of the absolute values,
/// negative where exactly one of the two is.
pub open spec fn trunc_div(a: int, b: int) -> int
    recommends
        b != 0,
{
    let q = abs_int(a) / abs_int(b);
    if (a < 0) != (b < 0) {
        -q
    } else {
        q
    }
}

/// What division by `b` leaves of `a`: zero or of the sign of `a`.
pub open spec fn trunc_rem(a: int, b: int) -> int
    recommends
        b != 0,
{
    a - b * trunc_div(a, b)
}

/// A quotient and a remainder of the absolute values, with the signs put
/// back, are the truncated quotient.
pub proof fn lemma_trunc_div(a: int, b: int, q: int, r: int)
    requires
        b != 0,
        abs_int(a) == q * abs_int(b) + r,
        0 <= r < abs_int(b),
    ensures
        trunc_div(a, b) == if (a < 0) != (b < 0) {
            -q
        } else {
            q
        },
{
    lemma_fundamental_div_mod_converse(abs_int(a), abs_int(b), q, r);
}

/// Counts how often `r` can be taken from `l`, and what is left: one
/// digit of a long division.
pub fn divider(l: &BigNumber, r: &BigNumber) -> (out: (i8, BigNumber))
    requires
        l.wf(),
        r.wf(),
        l@ >= 0,
        r@ > 0,
        l@ < 10 * r@,
    ensures
        0 <= out.0 <= 9,
        out.1.wf(),
        0 <= out.1@ < r@,
        out.0 * r@ + out.1@ == l@,
{
    let mut rest = l.clone();
    let mut i: i8 = 0;
    proof {
        assert(0 * r@ == 0);
    }
    while !rest.abs_less(r)
        invariant
            l.wf(),
            r.wf(),
            rest.wf(),
            r@ > 0,
            rest@ >= 0,
            l@ < 10 * r@,
            0 <= i <= 9,
            i * r@ + rest@ == l@,
        decreases rest@,
    {
        proof {
            rest.lemma_abs_order(r);
            rest.lemma_sign();
            r.lemma_sign();
            assert(i < 9 && (i + 1) * r@ + (rest@ - r@) == l@) by (nonlinear_arith)
                requires
                    i * r@ + rest@ == l@,
                    rest@ >= r@,
                    l@ < 10 * r@,
                    r@ > 0,
            ;
        }
        rest = rest.sub(r);
        i += 1;
    }
    proof {
        rest.lemma_abs_order(r);
        rest.lemma_sign();
        r.lemma_sign();
    }
    (i, rest)
}

impl BigNumber {
    /// The sum.
    pub fn add(&self, rhs: &BigNumber) -> (out: BigNumber)
        requires
            self.wf(),
            rhs.wf(),
        ensures
            out.wf(),
            out@ == self@ + rhs@,
    {
        if self.sign == rhs.sign {
            let number = combine(&self.number, &rhs.number, false);
            proof {
                let s = self.signum();
                let a = mag(self.number@);
                let b = mag(rhs.number@);
                assert(s * (a + b) == s * a + s * b) by (nonlinear_arith);
            }
            BigNumber { sign: self.sign, number }.normalize()
        } else {
            let (small, big) = BigNumber::smaller_bigger_abs(self, rhs);
            proof {
                self.lemma_abs_order(rhs);
            }
            let number = combine(&big.number, &small.number, true);
            proof {
                let s = big.signum();
                let a = mag(big.number@);
                let b = mag(small.number@);
                assert(s * (a - b) == s * a + (-s) * b) by (nonlinear_arith);
                assert(small.signum() == -s);
            }
            BigNumber { sign: big.sign, number }.normalize()
        }
    }

    /// The difference.
    pub fn sub(&self, rhs: &BigNumber) -> (out: BigNumber)
        requires
            self.wf(),
            rhs.wf(),
        ensures
            out.wf(),
            out@ == self@ - rhs@,
    {
        self.add(&rhs.negative())
    }

    /// The product, by long multiplication: one partial product for each
    /// digit of `self`, shifted to that digit's place.
    pub fn mul(&self, rhs: &BigNumber) -> (out: BigNumber)
        requires
            self.wf(),
            rhs.wf(),
        ensures
            out.wf(),
            out@ == self@ * rhs@,
    {
        let n: usize = self.number.len();
        let mut res = BigNumber::from_int(0);
        let mut z: usize = 0;
        let ghost m = mag(rhs.number@);
        proof {
            lemma_low_step(self.number@, 0);
            assert(0 * m == 0);
        }
        while z < n
            invariant
                n == self.number.len(),
                0 <= z <= n,
                self.wf(),
                rhs.wf(),
                res.wf(),
                m == mag(rhs.number@),
                res@ == low(self.number@, z as nat) * m,
            decreases n - z,
        {
            let d: i8 = self.number[n - 1 - z];
            let part = scale(&rhs.number, d, z);
            let partial = BigNumber { sign: 1, number: part }.normalize();
            proof {
                lemma_low_step(self.number@, z as nat);
                let p = pow10(z as nat);
                let l = low(self.number@, z as nat);
                assert((d * p + l) * m == d * m * p + l * m) by (nonlinear_arith);
                assert(partial@ == d * m * p);
            }
            res = res.add(&partial);
            z += 1;
        }
        proof {
            let a = mag(self.number@);
            lemma_mag_bounds(self.number@);
            lemma_mag_bounds(rhs.number@);
            assert(a * m >= 0) by (nonlinear_arith)
                requires
                    a >= 0,
                    m >= 0,
            ;
            res.lemma_sign();
            let s1 = self.signum();
            let s2 = rhs.signum();
            assert((s1 * s2) * (a * m) == (s1 * a) * (s2 * m)) by (nonlinear_arith);
            assert(s1 * s2 == 1 || s1 * s2 == -1) by (nonlinear_arith)
                requires
                    s1 == 1 || s1 == -1,
                    s2 == 1 || s2 == -1,
            ;
        }
        let sign: i8 = self.sign * rhs.sign;
        BigNumber { sign, number: res.number }.normalize()
    }

    /// Long division of a digit sequence by a positive number: the digits
    /// of the quotient, and the remainder.
    pub fn long_division(dividend: &Vec<i8>, divisor: &BigNumber) -> (out: (Vec<i8>, BigNumber))
        requires
            valid_digits(dividend@),
            divisor.wf(),
            divisor@ > 0,
        ensures
            valid_digits(out.0@),
            out.0@.len() == dividend@.len(),
            out.1.wf(),
            0 <= out.1@ < divisor@,
            mag(dividend@) == mag(out.0@) * divisor@ + out.1@,
    {
        let n: usize = dividend.len();
        let mut quotient: Vec<i8> = Vec::new();
        let mut rest = BigNumber::from_int(0);
        let mut i: usize = 0;
        proof {
            assert(dividend@.subrange(0, 0) =~= Seq::<i8>::empty());
            assert(0 * divisor@ == 0);
        }
        while i < n
            invariant
                n == dividend.len(),
                0 <= i <= n,
                valid_digits(dividend@),
                divisor.wf(),
                divisor@ > 0,
                valid_digits(quotient@),
                quotient@.len() == i,
                rest.wf(),
                0 <= rest@ < divisor@,
                mag(dividend@.subrange(0, i as int)) == mag(quotient@) * divisor@ + rest@,
            decreases n - i,
        {
            let d: i8 = dividend[i];
            let ghost old_rest = rest@;
            let ghost old_quotient = quotient@;
            proof {
                rest.lemma_sign();
            }
            let mut digits = rest.number;
            let ghost before = digits@;
            digits.push(d);
            proof {
                assert(digits@.drop_last() =~= before);
                assert(mag(digits@) == old_rest * 10 + d);
            }
            let shifted = BigNumber { sign: 1, number: digits }.normalize();
            let (q, r) = divider(&shifted, divisor);
            quotient.push(q);
            proof {
                assert(quotient@.drop_last() =~= old_quotient);
                let prefix = dividend@.subrange(0, i + 1);
                assert(prefix.drop_last() =~= dividend@.subrange(0, i as int));
                let b = divisor@;
                let h = mag(old_quotient);
                assert((h * b + old_rest) * 10 + d == (h * 10 + q) * b + r@) by (nonlinear_arith)
                    requires
                        q * b + r@ == old_rest * 10 + d,
                ;
            }
            rest = r;
            i += 1;
        }
        proof {
            assert(dividend@.subrange(0, n as int) =~= dividend@);
        }
        (quotient, rest)
    }

    /// Puts the sum in the place of `self`.
    pub fn add_assign(&mut self, rhs: &BigNumber)
        requires
            old(self).wf(),
            rhs.wf(),
        ensures
            final(self).wf(),
            final(self)@ == old(self)@ + rhs@,
    {
        let sum = self.add(rhs);
        *self = sum;
    }

    /// Puts the difference in the place of `self`.
    pub fn sub_assign(&mut self, rhs: &BigNumber)
        requires
            old(self).wf(),
            rhs.wf(),
        ensures
            final(self).wf(),
            final(self)@ == old(self)@ - rhs@,
    {
        let difference = self.sub(rhs);
        *self = difference;
    }

    /// Puts the product in the place of `self`.
    pub fn mul_assign(&mut self, rhs: &BigNumber)
        requires
            old(self).wf(),
            rhs.wf(),
        ensures
            final(self).wf(),
            final(self)@ == old(self)@ * rhs@,
    {
        let product = self.mul(rhs);
        *self = product;
    }

    /// Puts the quotient in the place of `self`. Where the divisor is zero
    /// it fails and leaves `self` as it was.
    pub fn div_assign(&mut self, rhs: &BigNumber) -> (out: Result<(), BigNumberError>)
        requires
            old(self).wf(),
            rhs.wf(),
        ensures
            final(self).wf(),
            match out {
                Ok(_) => rhs@ != 0 && final(self)@ == trunc_div(old(self)@, rhs@),
                Err(e) => rhs@ == 0 && e == BigNumberError::DivisionByZero && final(self).same(
                    old(self),
                ),
            },
    {
        match self.div(rhs) {
            Ok(quotient) => {
                *self = quotient;
                Ok(())
            },
            Err(e) => Err(e),
        }
    }

    /// The quotient, rounded toward zero. Fails where the divisor is zero.
    pub fn div(&self, rhs: &BigNumber) -> (out: Result<BigNumber, BigNumberError>)
        requires
            self.wf(),
            rhs.wf(),
        ensures
            match out {
                Ok(q) => rhs@ != 0 && q.wf() && q@ == trunc_div(self@, rhs@),
                Err(e) => rhs@ == 0 && e == BigNumberError::DivisionByZero,
            },
    {
        proof {
            self.lemma_sign();
            rhs.lemma_sign();
            self.lemma_abs_order(rhs);
        }
        if rhs.number.len() == 0 {
            return Err(BigNumberError::DivisionByZero);
        }
        let ghost s1 = self.signum();
        let ghost s2 = rhs.signum();
        let ghost a = mag(self.digits());
        let ghost b = mag(rhs.digits());
        proof {
            assert((s1 * s2 == 1 || s1 * s2 == -1) && (s1 * s2 == -1 <==> (self@ < 0) != (rhs@
                < 0))) by (nonlinear_arith)
                requires
                    s1 == 1 || s1 == -1,
                    s2 == 1 || s2 == -1,
                    self@ < 0 <==> s1 == -1,
                    rhs@ < 0 <==> s2 == -1,
            ;
        }
        let sign: i8 = self.sign * rhs.sign;
        match self.cmp_abs(rhs) {
            Some(Ordering::Less) => {
                proof {
                    assert(a == 0 * b + a);
                    lemma_trunc_div(self@, rhs@, 0, a);
                }
                Ok(BigNumber::from_int(0))
            },
            Some(Ordering::Equal) => {
                proof {
                    assert(a == 1 * b + 0);
                    lemma_trunc_div(self@, rhs@, 1, 0);
                }
                Ok(BigNumber::from_int(sign.into()))
            },
            _ => {
                let divisor = rhs.abs();
                let (number, rest) = BigNumber::long_division(&self.number, &divisor);
                let raw = BigNumber { sign, number };
                proof {
                    lemma_trunc_div(self@, rhs@, mag(number@), rest@);
                    assert(1 * mag(number@) == mag(number@));
                    assert((-1) * mag(number@) == -mag(number@));
                }
                Ok(raw.normalize())
            },
        }
    }
}

} // verus!
