//! What holds of the operations together.
//!
//! Every operation hands out a number in normal form whose value is given by
//! its contract. The laws below take such results as parameters, named by
//! the expression they stand for, and state that two of them are the same
//! number: same sign, same digits, equal under `==`.

use crate::arith::{trunc_div, trunc_rem};
use crate::big_number::BigNumber;
use crate::convert::abs_int;
use crate::digits::digits_of;
use crate::order::int_order;
use crate::power::power;
use crate::text::{decimal_text, decimal_value, is_decimal, render};
use std::cmp::Ordering;
use vstd::arithmetic::div_mod::lemma_fundamental_div_mod;
use vstd::prelude::*;
use vstd::std_specs::cmp::{PartialEqSpec, PartialOrdSpec};

verus! {

/// Two numbers in normal form are `==` exactly when they denote the same
/// integer.
pub proof fn law_equality_is_value(a: BigNumber, b: BigNumber)
    requires
        a.wf(),
        b.wf(),
    ensures
        a.eq_spec(&b) <==> a@ == b@,
{
    if a@ == b@ {
        a.lemma_unique(&b);
    }
}

/// A number written as text and read back is the number: the text is
/// decimal text, and `back`, read from it, equals `a`.
pub proof fn law_text_round_trip(a: BigNumber, back: BigNumber)
    requires
        a.wf(),
        back.wf(),
        back@ == decimal_value(render(a.signum(), a.digits())),
    ensures
        is_decimal(render(a.signum(), a.digits())),
        back.eq_spec(&a),
{
    a.lemma_round_trip();
    back.lemma_unique(&a);
}

/// The text of a number is the decimal text of the integer it denotes.
pub proof fn law_text_of_value(a: BigNumber)
    requires
        a.wf(),
    ensures
        render(a.signum(), a.digits()) == decimal_text(a@),
{
    a.lemma_normal_form();
}

/// `a + b == b + a`.
pub proof fn law_add_commutative(a: BigNumber, b: BigNumber, ab: BigNumber, ba: BigNumber)
    requires
        ab.wf(),
        ba.wf(),
        ab@ == a@ + b@,
        ba@ == b@ + a@,
    ensures
        ab.eq_spec(&ba),
{
    ab.lemma_unique(&ba);
}

/// `a * b == b * a`.
pub proof fn law_mul_commutative(a: BigNumber, b: BigNumber, ab: BigNumber, ba: BigNumber)
    requires
        ab.wf(),
        ba.wf(),
        ab@ == a@ * b@,
        ba@ == b@ * a@,
    ensures
        ab.eq_spec(&ba),
{
    assert(a@ * b@ == b@ * a@) by (nonlinear_arith);
    ab.lemma_unique(&ba);
}

/// `(a + b) + c == a + (b + c)`.
pub proof fn law_add_associative(
    a: BigNumber,
    b: BigNumber,
    c: BigNumber,
    ab: BigNumber,
    bc: BigNumber,
    left: BigNumber,
    right: BigNumber,
)
    requires
        left.wf(),
        right.wf(),
        ab@ == a@ + b@,
        bc@ == b@ + c@,
        left@ == ab@ + c@,
        right@ == a@ + bc@,
    ensures
        left.eq_spec(&right),
{
    left.lemma_unique(&right);
}

/// `(a * b) * c == a * (b * c)`.
pub proof fn law_mul_associative(
    a: BigNumber,
    b: BigNumber,
    c: BigNumber,
    ab: BigNumber,
    bc: BigNumber,
    left: BigNumber,
    right: BigNumber,
)
    requires
        left.wf(),
        right.wf(),
        ab@ == a@ * b@,
        bc@ == b@ * c@,
        left@ == ab@ * c@,
        right@ == a@ * bc@,
    ensures
        left.eq_spec(&right),
{
    assert((a@ * b@) * c@ == a@ * (b@ * c@)) by (nonlinear_arith);
    left.lemma_unique(&right);
}

/// `a + negate(a)` is zero: the number without digits, of sign 1.
pub proof fn law_additive_inverse(a: BigNumber, neg: BigNumber, sum: BigNumber)
    requires
        sum.wf(),
        neg@ == -a@,
        sum@ == a@ + neg@,
    ensures
        sum@ == 0,
        sum.digits().len() == 0,
        sum.signum() == 1,
{
    sum.lemma_sign();
}

/// `a * (b + c) == a * b + a * c`.
pub proof fn law_distributive(
    a: BigNumber,
    b: BigNumber,
    c: BigNumber,
    bc: BigNumber,
    ab: BigNumber,
    ac: BigNumber,
    left: BigNumber,
    right: BigNumber,
)
    requires
        left.wf(),
        right.wf(),
        bc@ == b@ + c@,
        ab@ == a@ * b@,
        ac@ == a@ * c@,
        left@ == a@ * bc@,
        right@ == ab@ + ac@,
    ensures
        left.eq_spec(&right),
{
    assert(a@ * (b@ + c@) == a@ * b@ + a@ * c@) by (nonlinear_arith);
    left.lemma_unique(&right);
}

/// `b * (a / b) + (a - b * (a / b)) == a` for `b` other than zero.
pub proof fn law_division_identity(
    a: BigNumber,
    b: BigNumber,
    q: BigNumber,
    bq: BigNumber,
    r: BigNumber,
    whole: BigNumber,
)
    requires
        a.wf(),
        whole.wf(),
        b@ != 0,
        q@ == trunc_div(a@, b@),
        bq@ == b@ * q@,
        r@ == a@ - bq@,
        whole@ == bq@ + r@,
    ensures
        whole.eq_spec(&a),
        r@ == trunc_rem(a@, b@),
{
    whole.lemma_unique(&a);
}

/// Division rounds toward zero: the quotient times the divisor does not
/// pass the dividend, and what is left is smaller than the divisor and
/// never of the other sign than the dividend.
pub proof fn law_division_truncates(a: int, b: int)
    requires
        b != 0,
    ensures
        abs_int(trunc_rem(a, b)) < abs_int(b),
        a >= 0 ==> trunc_rem(a, b) >= 0,
        a <= 0 ==> trunc_rem(a, b) <= 0,
        abs_int(trunc_div(a, b)) == abs_int(a) / abs_int(b),
{
    let x = abs_int(a);
    let y = abs_int(b);
    let q = x / y;
    lemma_fundamental_div_mod(x, y);
    assert(0 <= x % y < y);
    assert(x == y * q + x % y);
    assert(q >= 0) by (nonlinear_arith)
        requires
            x == y * q + x % y,
            0 <= x % y < y,
            x >= 0,
            y > 0,
    ;
    assert(b * (-q) == -(b * q)) by (nonlinear_arith);
    assert((-b) * q == -(b * q)) by (nonlinear_arith);
    assert((-b) * (-q) == b * q) by (nonlinear_arith);
}

/// Of `a < b`, `a == b` and `a > b` exactly one holds, the one that holds of
/// the integers.
pub proof fn law_trichotomy(a: BigNumber, b: BigNumber)
    requires
        a.wf(),
        b.wf(),
    ensures
        a.partial_cmp_spec(&b) == Some(int_order(a@, b@)),
        a.partial_cmp_spec(&b) == Some(Ordering::Less) <==> a@ < b@,
        a.partial_cmp_spec(&b) == Some(Ordering::Equal) <==> a.eq_spec(&b),
        a.partial_cmp_spec(&b) == Some(Ordering::Greater) <==> a@ > b@,
{
    a.lemma_order(&b);
    law_equality_is_value(a, b);
}

/// The order is transitive.
pub proof fn law_order_transitive(a: BigNumber, b: BigNumber, c: BigNumber)
    requires
        a.wf(),
        b.wf(),
        c.wf(),
        a.partial_cmp_spec(&b) == Some(Ordering::Less),
        b.partial_cmp_spec(&c) == Some(Ordering::Less),
    ensures
        a.partial_cmp_spec(&c) == Some(Ordering::Less),
{
    a.lemma_order(&b);
    b.lemma_order(&c);
    a.lemma_order(&c);
}

/// `pow(a, 0)` is one, and `pow(a, n) == a * pow(a, n - 1)` for `n > 0`.
pub proof fn law_pow_unfolds(
    a: BigNumber,
    n: BigNumber,
    less: BigNumber,
    to_n: BigNumber,
    to_less: BigNumber,
    product: BigNumber,
)
    requires
        to_n.wf(),
        product.wf(),
        n@ >= 0,
        to_n@ == power(a@, n@ as nat),
        n@ > 0 ==> less@ == n@ - 1 && to_less@ == power(a@, less@ as nat) && product@ == a@
            * to_less@,
    ensures
        n@ == 0 ==> to_n@ == 1 && to_n.digits() == seq![1i8] && to_n.signum() == 1,
        n@ > 0 ==> to_n.eq_spec(&product),
{
    if n@ == 0 {
        to_n.lemma_normal_form();
        assert(digits_of(1) =~= digits_of(0).push(1i8));
        assert(digits_of(1) =~= seq![1i8]);
    } else {
        to_n.lemma_unique(&product);
    }
}

/// `powi` and `pow` give the same number for the same exponent.
pub proof fn law_pow_agrees(
    a: BigNumber,
    p: BigNumber,
    k: i32,
    by_number: BigNumber,
    by_int: BigNumber,
)
    requires
        by_number.wf(),
        by_int.wf(),
        k >= 0,
        p@ == k,
        by_number@ == power(a@, p@ as nat),
        by_int@ == power(a@, k as nat),
    ensures
        by_number.eq_spec(&by_int),
{
    by_number.lemma_unique(&by_int);
}

} // verus!
