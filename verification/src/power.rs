//! Powers by repeated squaring, and the remainder of a division.

use crate::arith::trunc_rem;
use crate::big_number::BigNumber;
use crate::digits::lemma_mag_parity;
use crate::error::BigNumberError;
use vstd::prelude::*;

verus! {

/// `b` multiplied with itself `e` times.
pub open spec fn power(b: int, e: nat) -> int
    decreases e,
{
    if e == 0 {
        1
    } else {
        b * power(b, (e - 1) as nat)
    }
}

/// Halving the exponent squares the base; an odd exponent leaves one factor.
pub proof fn lemma_power_halve(b: int, e: nat)
    ensures
        power(b, e) == if e % 2 == 1 {
            b * power(b * b, e / 2)
        } else {
            power(b * b, e / 2)
        },
    decreases e,
{
    if e == 0 {
    } else if e == 1 {
        assert(power(b, 0) == 1);
        assert(power(b * b, 0) == 1);
        assert(power(b, 1) == b * power(b, 0));
    } else {
        let f = (e - 2) as nat;
        lemma_power_halve(b, f);
        assert(power(b, e) == b * power(b, (e - 1) as nat));
        assert(power(b, (e - 1) as nat) == b * power(b, f));
        assert(e / 2 == f / 2 + 1);
        let x = power(b * b, f / 2);
        assert(power(b * b, e / 2) == (b * b) * x);
        assert(b * (b * (b * x)) == b * ((b * b) * x)) by (nonlinear_arith);
        assert(b * (b * x) == (b * b) * x) by (nonlinear_arith);
    }
}

impl BigNumber {
    /// Whether the number is odd.
    pub fn is_odd(&self) -> (out: bool)
        requires
            self.wf(),
        ensures
            out == (self@ % 2 != 0),
    {
        let n: usize = self.number.len();
        if n == 0 {
            return false;
        }
        proof {
            lemma_mag_parity(self.number@);
            let m = crate::digits::mag(self.number@);
            assert((-m) % 2 != 0 <==> m % 2 != 0);
            assert(1 * m == m && (-1) * m == -m);
        }
        self.number[n - 1] % 2 != 0
    }

    /// `self` to the power `p`, which is not negative.
    pub fn pow(&self, p: &BigNumber) -> (out: BigNumber)
        requires
            self.wf(),
            p.wf(),
            p@ >= 0,
        ensures
            out.wf(),
            out@ == power(self@, p@ as nat),
    {
        let ghost target = power(self@, p@ as nat);
        let mut p = p.clone();
        let mut base = self.clone();
        let mut res = BigNumber::from_int(1);
        let two = BigNumber::from_int(2);
        proof {
            assert(1 * target == target);
        }
        loop
            invariant_except_break
                res@ * power(base@, p@ as nat) == target,
            invariant
                base.wf(),
                res.wf(),
                p.wf(),
                p@ >= 0,
                two.wf(),
                two@ == 2,
            ensures
                res@ == target,
            decreases p@,
        {
            let ghost e = p@ as nat;
            let ghost b = base@;
            let ghost r = res@;
            proof {
                lemma_power_halve(b, e);
                assert(power(b * b, 0) == 1);
            }
            if p.is_odd() {
                res = res.mul(&base);
            }
            p =
            match p.div(&two) {
                Ok(half) => half,
                Err(_) => BigNumber::from_int(0),
            };
            proof {
                assert(p@ == e / 2);
                let x = power(b * b, e / 2);
                assert((r * b) * x == r * (b * x)) by (nonlinear_arith);
                assert(res@ * 1 == res@);
            }
            if p.is_zero() {
                break ;
            }
            base = base.mul(&base);
        }
        res
    }

    /// `self` to the power `p`, which is not negative.
    pub fn powi(&self, p: i32) -> (out: BigNumber)
        requires
            self.wf(),
            p >= 0,
        ensures
            out.wf(),
            out@ == power(self@, p as nat),
    {
        let ghost target = power(self@, p as nat);
        let mut p: i32 = p;
        let mut base = self.clone();
        let mut res = BigNumber::from_int(1);
        proof {
            assert(1 * target == target);
        }
        loop
            invariant_except_break
                res@ * power(base@, p as nat) == target,
            invariant
                base.wf(),
                res.wf(),
                p >= 0,
            ensures
                res@ == target,
            decreases p,
        {
            let ghost e = p as nat;
            let ghost b = base@;
            let ghost r = res@;
            proof {
                lemma_power_halve(b, e);
                assert(power(b * b, 0) == 1);
            }
            if p % 2 == 1 {
                res = res.mul(&base);
            }
            p = p / 2;
            proof {
                let x = power(b * b, e / 2);
                assert((r * b) * x == r * (b * x)) by (nonlinear_arith);
                assert(res@ * 1 == res@);
            }
            if p == 0 {
                break ;
            }
            base = base.mul(&base);
        }
        res
    }

    /// What the truncating division by `rhs` leaves of `self`. Fails where
    /// `rhs` is zero.
    pub fn rem(&self, rhs: &BigNumber) -> (out: Result<BigNumber, BigNumberError>)
        requires
            self.wf(),
            rhs.wf(),
        ensures
            match out {
                Ok(r) => rhs@ != 0 && r.wf() && r@ == trunc_rem(self@, rhs@),
                Err(e) => rhs@ == 0 && e == BigNumberError::DivisionByZero,
            },
    {
        match self.div(rhs) {
            Ok(q) => Ok(self.sub(&rhs.mul(&q))),
            Err(e) => Err(e),
        }
    }
}

} // verus!
