//! Making a big number from a machine integer.

use crate::big_number::BigNumber;
use crate::digits::{lemma_mag_prepend, lemma_pow10_positive, mag, pow10, valid_digits};
use vstd::arithmetic::div_mod::{
    lemma_basic_div, lemma_breakdown, lemma_div_denominator, lemma_small_mod,
};
use vstd::prelude::*;

verus! {

/// The absolute value of an integer.
pub open spec fn abs_int(x: int) -> int {
    if x < 0 {
        -x
    } else {
        x
    }
}

/// The sign of a machine integer; that of zero is 1.
pub fn sign_of(n: i32) -> (out: i8)
    ensures
        out == if n >= 0 { 1i8 } else { -1i8 },
{
    if n >= 0 {
        1
    } else {
        -1
    }
}

/// How many decimal digits the absolute value has; zero has none.
pub fn how_many_digits(n: i32) -> (out: usize)
    ensures
        abs_int(n as int) < pow10(out as nat),
        out > 0 ==> pow10((out - 1) as nat) <= abs_int(n as int),
{
    let wide: i64 = n as i64;
    let mut m: i64 = if wide < 0 {
        -wide
    } else {
        wide
    };
    let ghost target: int = abs_int(n as int);
    let mut s: usize = 0;
    assert(m * pow10(0) == m) by (nonlinear_arith)
        requires
            pow10(0) == 1,
    ;
    while m > 0
        invariant
            0 <= m <= target <= 0x8000_0000,
            m * pow10(s as nat) <= target < (m + 1) * pow10(s as nat),
            s > 0 ==> pow10((s - 1) as nat) <= target,
            s + m <= target,
        decreases m,
    {
        proof {
            let p = pow10(s as nat);
            lemma_pow10_positive(s as nat);
            assert(pow10((s + 1) as nat) == 10 * p);
            let h = m / 10;
            assert(h * (10 * p) <= m * p && (m + 1) * p <= (h + 1) * (10 * p))
                by (nonlinear_arith)
                requires
                    h * 10 <= m < h * 10 + 10,
                    p > 0,
            ;
            assert(p <= m * p) by (nonlinear_arith)
                requires
                    m >= 1,
                    p > 0,
            ;
        }
        m = m / 10;
        s += 1;
    }
    proof {
        assert((0 + 1) * pow10(s as nat) == pow10(s as nat)) by (nonlinear_arith);
    }
    s
}

/// The decimal digit of the absolute value at place `i`, counted from the
/// least significant.
pub fn get_i_digit(n: i32, i: usize) -> (out: i8)
    ensures
        out == (abs_int(n as int) / pow10(i as nat)) % 10,
{
    let wide: i64 = n as i64;
    let mut m: i64 = if wide < 0 {
        -wide
    } else {
        wide
    };
    let ghost target: int = abs_int(n as int);
    let mut k: usize = 0;
    proof {
        assert(target / 1 == target);
    }
    while k < i && m > 0
        invariant
            0 <= k <= i,
            0 <= m <= target <= 0x8000_0000,
            target == abs_int(n as int),
            m == target / pow10(k as nat),
        decreases i - k,
    {
        proof {
            lemma_pow10_positive(k as nat);
            lemma_div_denominator(target, pow10(k as nat), 10);
            assert(pow10((k + 1) as nat) == pow10(k as nat) * 10);
        }
        m = m / 10;
        k += 1;
    }
    proof {
        if k < i {
            lemma_pow10_positive(k as nat);
            lemma_pow10_positive(i as nat);
            crate::digits::lemma_pow10_monotonic(k as nat, i as nat);
            let pk = pow10(k as nat);
            let pi = pow10(i as nat);
            vstd::arithmetic::div_mod::lemma_fundamental_div_mod(target, pk);
            assert(target < pk) by (nonlinear_arith)
                requires
                    target == pk * (target / pk) + target % pk,
                    0 <= target % pk < pk,
                    target / pk == 0,
                    pk > 0,
            ;
            lemma_basic_div(target, pi);
        }
    }
    (m % 10) as i8
}

impl BigNumber {
    /// The big number that equals a machine integer.
    pub fn from_int(n: i32) -> (out: BigNumber)
        ensures
            out.wf(),
            out@ == n,
    {
        let count: usize = how_many_digits(n);
        let ghost target: int = abs_int(n as int);
        let mut number: Vec<i8> = Vec::new();
        let mut i: usize = 0;
        proof {
            assert(target % 1 == 0);
        }
        while i < count
            invariant
                0 <= i <= count,
                target == abs_int(n as int),
                number.len() == i,
                valid_digits(number@),
                mag(number@) == target % pow10(i as nat),
            decreases count - i,
        {
            let d: i8 = get_i_digit(n, i);
            let ghost before = number@;
            number.insert(0, d);
            proof {
                assert(number@ =~= seq![d] + before);
                lemma_mag_prepend(d, before);
                lemma_pow10_positive(i as nat);
                lemma_breakdown(target, pow10(i as nat), 10);
                assert(pow10((i + 1) as nat) == pow10(i as nat) * 10);
            }
            i += 1;
        }
        proof {
            lemma_pow10_positive(count as nat);
            lemma_small_mod(target as nat, pow10(count as nat) as nat);
            assert(mag(number@) == target);
            assert(1 * target == target && (-1) * target == -target);
        }
        let sign: i8 = sign_of(n);
        let raw = BigNumber { sign, number };
        assert(raw@ == n);
        raw.normalize()
    }
}

} // verus!
