//! Sequences of decimal digits, most significant digit first, and the
//! digit-level steps that the arithmetic is built from.

use vstd::prelude::*;

verus! {

/// Ten to the power `n`.
pub open spec fn pow10(n: nat) -> int
    decreases n,
{
    if n == 0 {
        1
    } else {
        10 * pow10((n - 1) as nat)
    }
}

/// Every element is a decimal digit.
pub open spec fn valid_digits(s: Seq<i8>) -> bool {
    forall|i: int| 0 <= i < s.len() ==> 0 <= #[trigger] s[i] <= 9
}

/// The first digit, where there is one, is not zero.
pub open spec fn no_leading_zero(s: Seq<i8>) -> bool {
    s.len() > 0 ==> s[0] != 0
}

/// The number that the digits denote in base ten.
pub open spec fn mag(s: Seq<i8>) -> int
    decreases s.len(),
{
    if s.len() == 0 {
        0
    } else {
        mag(s.drop_last()) * 10 + s.last()
    }
}

/// The digit at position `k` counted from the least significant end; zero
/// beyond the most significant digit.
pub open spec fn digit_at(s: Seq<i8>, k: nat) -> int {
    if k < s.len() {
        s[s.len() - 1 - k] as int
    } else {
        0
    }
}

/// The number denoted by the `k` least significant digits.
pub open spec fn low(s: Seq<i8>, k: nat) -> int {
    if k < s.len() {
        mag(s.subrange(s.len() - k, s.len() as int))
    } else {
        mag(s)
    }
}

pub proof fn lemma_pow10_positive(n: nat)
    ensures
        pow10(n) > 0,
    decreases n,
{
    if n > 0 {
        lemma_pow10_positive((n - 1) as nat);
    }
}

pub proof fn lemma_pow10_monotonic(a: nat, b: nat)
    requires
        a <= b,
    ensures
        pow10(a) <= pow10(b),
    decreases b,
{
    if a < b {
        lemma_pow10_monotonic(a, (b - 1) as nat);
        lemma_pow10_positive((b - 1) as nat);
    }
}

/// Writing `b` behind `a` shifts `a` by the length of `b`.
pub proof fn lemma_mag_concat(a: Seq<i8>, b: Seq<i8>)
    ensures
        mag(a + b) == mag(a) * pow10(b.len()) + mag(b),
    decreases b.len(),
{
    if b.len() == 0 {
        assert(a + b =~= a);
    } else {
        let b0 = b.drop_last();
        assert((a + b).drop_last() =~= a + b0);
        assert((a + b).last() == b.last());
        lemma_mag_concat(a, b0);
        let p = pow10(b0.len());
        assert(pow10(b.len()) == 10 * p);
        assert((mag(a) * p + mag(b0)) * 10 + b.last() == mag(a) * (10 * p) + (mag(b0) * 10
            + b.last())) by (nonlinear_arith);
    }
}

pub proof fn lemma_mag_single(d: i8)
    ensures
        mag(seq![d]) == d,
{
    assert(seq![d].drop_last() =~= Seq::<i8>::empty());
    assert(mag(seq![d]) == mag(seq![d].drop_last()) * 10 + seq![d].last());
}

/// A digit written in front counts by the length of what follows.
pub proof fn lemma_mag_prepend(d: i8, s: Seq<i8>)
    ensures
        mag(seq![d] + s) == d * pow10(s.len()) + mag(s),
{
    lemma_mag_concat(seq![d], s);
    lemma_mag_single(d);
}

pub proof fn lemma_mag_bounds(s: Seq<i8>)
    requires
        valid_digits(s),
    ensures
        0 <= mag(s) < pow10(s.len()),
    decreases s.len(),
{
    if s.len() > 0 {
        lemma_mag_bounds(s.drop_last());
    }
}

/// A number without a leading zero has as many digits as it needs.
pub proof fn lemma_mag_lower(s: Seq<i8>)
    requires
        valid_digits(s),
        s.len() > 0,
        s[0] != 0,
    ensures
        mag(s) >= pow10((s.len() - 1) as nat),
        mag(s) > 0,
{
    let t = s.subrange(1, s.len() as int);
    assert(s =~= seq![s[0]] + t);
    lemma_mag_prepend(s[0], t);
    lemma_mag_bounds(t);
    let p = pow10(t.len());
    lemma_pow10_positive(t.len());
    assert(s[0] * p >= p) by (nonlinear_arith)
        requires
            s[0] >= 1,
            p > 0,
    ;
}

/// Leading zeros do not count.
pub proof fn lemma_mag_skip_zeros(s: Seq<i8>, i: int)
    requires
        0 <= i <= s.len(),
        forall|j: int| 0 <= j < i ==> s[j] == 0,
    ensures
        mag(s.subrange(i, s.len() as int)) == mag(s),
    decreases i,
{
    if i == 0 {
        assert(s.subrange(0, s.len() as int) =~= s);
    } else {
        lemma_mag_skip_zeros(s, i - 1);
        let t = s.subrange(i, s.len() as int);
        assert(s.subrange(i - 1, s.len() as int) =~= seq![0i8] + t);
        lemma_mag_prepend(0i8, t);
        assert(0 * pow10(t.len()) == 0);
    }
}

/// Two digit sequences of one length that denote one number are the same.
pub proof fn lemma_mag_unique(a: Seq<i8>, b: Seq<i8>)
    requires
        valid_digits(a),
        valid_digits(b),
        a.len() == b.len(),
        mag(a) == mag(b),
    ensures
        a =~= b,
    decreases a.len(),
{
    if a.len() > 0 {
        let a0 = a.drop_last();
        let b0 = b.drop_last();
        assert(mag(a0) * 10 + a.last() == mag(b0) * 10 + b.last());
        lemma_mag_unique(a0, b0);
        assert(a =~= a0.push(a.last()));
        assert(b =~= b0.push(b.last()));
    }
}

/// Two digit sequences without leading zeros that denote one number are
/// the same.
pub proof fn lemma_canonical_unique(a: Seq<i8>, b: Seq<i8>)
    requires
        valid_digits(a),
        valid_digits(b),
        no_leading_zero(a),
        no_leading_zero(b),
        mag(a) == mag(b),
    ensures
        a =~= b,
{
    lemma_mag_bounds(a);
    lemma_mag_bounds(b);
    if a.len() < b.len() {
        lemma_mag_lower(b);
        lemma_pow10_monotonic(a.len(), (b.len() - 1) as nat);
    } else if a.len() > b.len() {
        lemma_mag_lower(a);
        lemma_pow10_monotonic(b.len(), (a.len() - 1) as nat);
    } else {
        lemma_mag_unique(a, b);
    }
}

/// The decimal digits of a natural number, the most significant first;
/// none for zero.
pub open spec fn digits_of(n: nat) -> Seq<i8>
    decreases n,
{
    if n == 0 {
        Seq::empty()
    } else {
        digits_of(n / 10).push((n % 10) as i8)
    }
}

/// `digits_of` gives decimal digits without a leading zero that denote the
/// number.
pub proof fn lemma_digits_of(n: nat)
    ensures
        valid_digits(digits_of(n)),
        no_leading_zero(digits_of(n)),
        mag(digits_of(n)) == n,
        n > 0 ==> digits_of(n).len() > 0,
    decreases n,
{
    if n > 0 {
        let h = digits_of(n / 10);
        let s = digits_of(n);
        lemma_digits_of(n / 10);
        assert(s.drop_last() =~= h);
        assert(s.last() == (n % 10) as i8);
        if n / 10 > 0 {
            assert(s[0] == h[0]);
        }
    }
}

/// One more low digit adds that digit at its place.
pub proof fn lemma_low_step(s: Seq<i8>, k: nat)
    ensures
        low(s, k + 1) == digit_at(s, k) * pow10(k) + low(s, k),
        low(s, 0) == 0,
{
    let n = s.len();
    assert(s.subrange(n as int, n as int) =~= Seq::<i8>::empty());
    if k < n {
        let t = s.subrange(n - k, n as int);
        let u = s.subrange(n - k - 1, n as int);
        assert(u =~= seq![s[n - k - 1]] + t);
        lemma_mag_prepend(s[n - k - 1], t);
        if k + 1 == n {
            assert(u =~= s);
        }
    } else {
        assert(0 * pow10(k) == 0);
    }
}

/// The last digit decides whether the number is even.
pub proof fn lemma_mag_parity(s: Seq<i8>)
    requires
        s.len() > 0,
    ensures
        mag(s) % 2 == (s.last() as int) % 2,
{
    let h = mag(s.drop_last());
    assert((h * 10 + s.last()) % 2 == (s.last() as int) % 2) by (nonlinear_arith);
}

/// One column of an addition: the sum of two digits and a carry, as a digit
/// and the carry for the next column. A negative sum borrows ten.
pub fn adder(r: i8, l: i8, p: i8) -> (out: (i8, i8))
    requires
        0 <= r <= 9,
        -9 <= l <= 9,
        -1 <= p <= 1,
    ensures
        0 <= out.0 <= 9,
        -1 <= out.1 <= 1,
        out.0 + 10 * out.1 == r + l + p,
        out.1 == (r + l + p) / 10,
{
    let res: i8 = r + l + p;
    if res < 0 {
        (10 + res, -1)
    } else {
        (res % 10, res / 10)
    }
}

/// One column of a multiplication: the product of two digits plus a carry, as
/// a digit and the carry for the next column.
pub fn multiplier(r: i8, l: i8, p: i8) -> (out: (i8, i8))
    requires
        0 <= r <= 9,
        0 <= l <= 9,
        0 <= p <= 8,
    ensures
        0 <= out.0 <= 9,
        0 <= out.1 <= 8,
        out.0 == (r * l + p) % 10,
        out.1 == (r * l + p) / 10,
{
    assert(0 <= r * l <= 81) by (nonlinear_arith)
        requires
            0 <= r <= 9,
            0 <= l <= 9,
    ;
    let res: i8 = r * l + p;
    (res % 10, res / 10)
}

/// Removes the zeros in front of the first digit that is not zero.
pub fn strip_leading_zeros(v: Vec<i8>) -> (out: Vec<i8>)
    ensures
        no_leading_zero(out@),
        mag(out@) == mag(v@),
        out@.len() <= v@.len(),
        exists|i: int|
            0 <= i <= v@.len() && out@ == v@.subrange(i, v@.len() as int) && forall|j: int|
                0 <= j < i ==> v@[j] == 0,
{
    let mut v = v;
    let ghost orig = v@;
    let mut i: usize = 0;
    while i < v.len() && v[i] == 0
        invariant
            v@ == orig,
            0 <= i <= v.len(),
            forall|j: int| 0 <= j < i ==> v@[j] == 0,
        decreases v.len() - i,
    {
        i += 1;
    }
    let out = v.split_off(i);
    proof {
        lemma_mag_skip_zeros(orig, i as int);
    }
    out
}

/// The length of the longer of two sequences.
pub open spec fn longer(a: Seq<i8>, b: Seq<i8>) -> nat {
    if a.len() > b.len() {
        a.len()
    } else {
        b.len()
    }
}

/// `x`, or its negative where `minus` is set.
pub open spec fn signed_by(minus: bool, x: int) -> int {
    if minus {
        -x
    } else {
        x
    }
}

/// A copy of the digits.
pub fn copy_digits(v: &Vec<i8>) -> (out: Vec<i8>)
    ensures
        out@ == v@,
{
    let out = v.clone();
    assert(out@ =~= v@);
    out
}

/// Adds two digit sequences column by column, or takes the second from the
/// first where `minus` is set; the first is then the larger of the two.
pub fn combine(a: &Vec<i8>, b: &Vec<i8>, minus: bool) -> (out: Vec<i8>)
    requires
        valid_digits(a@),
        valid_digits(b@),
        minus ==> mag(a@) >= mag(b@),
    ensures
        valid_digits(out@),
        mag(out@) == mag(a@) + signed_by(minus, mag(b@)),
        out@.len() == longer(a@, b@) + if mag(a@) + signed_by(minus, mag(b@)) >= pow10(
            longer(a@, b@),
        ) {
            1int
        } else {
            0int
        },
{
    let n: usize = if a.len() > b.len() {
        a.len()
    } else {
        b.len()
    };
    let mut out: Vec<i8> = vec![0i8; n];
    let mut carry: i8 = 0;
    let mut k: usize = 0;
    proof {
        lemma_low_step(a@, 0);
        lemma_low_step(b@, 0);
        assert(out@.subrange(n as int, n as int) =~= Seq::<i8>::empty());
    }
    while k < n
        invariant
            n >= a.len(),
            n >= b.len(),
            out.len() == n,
            0 <= k <= n,
            valid_digits(a@),
            valid_digits(b@),
            valid_digits(out@),
            minus ==> -1 <= carry <= 0,
            !minus ==> 0 <= carry <= 1,
            mag(out@.subrange(n - k, n as int)) + carry * pow10(k as nat) == low(a@, k as nat)
                + signed_by(minus, low(b@, k as nat)),
        decreases n - k,
    {
        let da: i8 = if k < a.len() {
            a[a.len() - 1 - k]
        } else {
            0
        };
        let db: i8 = if k < b.len() {
            b[b.len() - 1 - k]
        } else {
            0
        };
        let signed: i8 = if minus {
            -db
        } else {
            db
        };
        let (d, c) = adder(da, signed, carry);
        let ghost before = out@;
        out.set(n - 1 - k, d);
        proof {
            let t = before.subrange(n - k, n as int);
            assert(out@.subrange(n - k - 1, n as int) =~= seq![d] + t);
            assert(out@.subrange(n - k, n as int) =~= t);
            lemma_mag_prepend(d, t);
            lemma_low_step(a@, k as nat);
            lemma_low_step(b@, k as nat);
            let p = pow10(k as nat);
            assert(pow10((k + 1) as nat) == 10 * p);
            assert(da == digit_at(a@, k as nat));
            assert(db == digit_at(b@, k as nat));
            let sum = da + signed + carry;
            assert(sum * p == da * p + signed * p + carry * p) by (nonlinear_arith)
                requires
                    sum == da + signed + carry,
            ;
            assert(sum * p == d * p + c * (10 * p)) by (nonlinear_arith)
                requires
                    sum == d + 10 * c,
            ;
            assert(signed * p == signed_by(minus, db * p)) by (nonlinear_arith)
                requires
                    signed == signed_by(minus, db as int),
            ;
        }
        carry = c;
        k += 1;
    }
    proof {
        assert(out@.subrange(0, n as int) =~= out@);
        lemma_mag_bounds(out@);
        lemma_mag_bounds(a@);
        lemma_mag_bounds(b@);
        lemma_pow10_positive(n as nat);
        assert(carry * pow10(n as nat) == if carry == 0 {
            0
        } else if carry == 1 {
            pow10(n as nat)
        } else {
            -pow10(n as nat)
        }) by (nonlinear_arith)
            requires
                -1 <= carry <= 1,
        ;
    }
    if carry > 0 {
        let ghost before = out@;
        out.insert(0, carry);
        proof {
            assert(out@ =~= seq![carry] + before);
            lemma_mag_prepend(carry, before);
        }
    }
    out
}

/// The digits of `d` times the number in `b`, followed by `z` zeros.
pub fn scale(b: &Vec<i8>, d: i8, z: usize) -> (out: Vec<i8>)
    requires
        valid_digits(b@),
        0 <= d <= 9,
    ensures
        valid_digits(out@),
        mag(out@) == d * mag(b@) * pow10(z as nat),
        out@.len() == b@.len() + z + if d * mag(b@) >= pow10(b@.len()) {
            1int
        } else {
            0int
        },
{
    let n: usize = b.len();
    let mut out: Vec<i8> = vec![0i8; n];
    let mut carry: i8 = 0;
    let mut k: usize = 0;
    proof {
        lemma_low_step(b@, 0);
        assert(out@.subrange(n as int, n as int) =~= Seq::<i8>::empty());
        assert(d * 0 == 0);
    }
    while k < n
        invariant
            n == b.len(),
            out.len() == n,
            0 <= k <= n,
            0 <= d <= 9,
            valid_digits(b@),
            valid_digits(out@),
            0 <= carry <= 8,
            mag(out@.subrange(n - k, n as int)) + carry * pow10(k as nat) == d * low(
                b@,
                k as nat,
            ),
        decreases n - k,
    {
        let db: i8 = b[n - 1 - k];
        let (x, c) = multiplier(d, db, carry);
        let ghost before = out@;
        out.set(n - 1 - k, x);
        proof {
            let t = before.subrange(n - k, n as int);
            assert(out@.subrange(n - k - 1, n as int) =~= seq![x] + t);
            assert(out@.subrange(n - k, n as int) =~= t);
            lemma_mag_prepend(x, t);
            lemma_low_step(b@, k as nat);
            let p = pow10(k as nat);
            assert(pow10((k + 1) as nat) == 10 * p);
            assert(db == digit_at(b@, k as nat));
            let lb = low(b@, k as nat);
            let sum = d * db + carry;
            assert(sum * p == x * p + c * (10 * p)) by (nonlinear_arith)
                requires
                    sum == x + 10 * c,
            ;
            assert(sum * p == d * (db * p) + carry * p) by (nonlinear_arith)
                requires
                    sum == d * db + carry,
            ;
            assert(d * (db * p + lb) == d * (db * p) + d * lb) by (nonlinear_arith);
        }
        carry = c;
        k += 1;
    }
    proof {
        assert(out@.subrange(0, n as int) =~= out@);
        lemma_mag_bounds(out@);
        lemma_pow10_positive(n as nat);
        assert(carry >= 1 ==> carry * pow10(n as nat) >= pow10(n as nat)) by (nonlinear_arith)
            requires
                pow10(n as nat) > 0,
        ;
    }
    if carry != 0 {
        let ghost before = out@;
        out.insert(0, carry);
        proof {
            assert(out@ =~= seq![carry] + before);
            lemma_mag_prepend(carry, before);
        }
    } else {
        assert(0 * pow10(n as nat) == 0);
    }
    let ghost base = mag(out@);
    let ghost width = out@.len();
    let mut j: usize = 0;
    assert(base * pow10(0) == base);
    while j < z
        invariant
            0 <= j <= z,
            valid_digits(out@),
            mag(out@) == base * pow10(j as nat),
            out@.len() == width + j,
        decreases z - j,
    {
        let ghost before = out@;
        out.push(0i8);
        proof {
            assert(out@.drop_last() =~= before);
            assert(base * pow10(j as nat) * 10 == base * (10 * pow10(j as nat)))
                by (nonlinear_arith);
        }
        j += 1;
    }
    out
}

/// Compares two digit sequences: the longer one is the larger; of two of one
/// length, the one with the larger digit at the first place where they
/// differ. The result is -1, 0 or 1.
pub open spec fn seq_order(a: Seq<i8>, b: Seq<i8>) -> int
    decreases a.len(),
{
    if a.len() < b.len() {
        -1
    } else if a.len() > b.len() {
        1
    } else if a.len() == 0 {
        0
    } else if a[0] < b[0] {
        -1
    } else if a[0] > b[0] {
        1
    } else {
        seq_order(a.subrange(1, a.len() as int), b.subrange(1, b.len() as int))
    }
}

/// Among digit sequences of one length, the order of the digits is the order
/// of the numbers.
pub proof fn lemma_seq_order_same_length(a: Seq<i8>, b: Seq<i8>)
    requires
        valid_digits(a),
        valid_digits(b),
        a.len() == b.len(),
    ensures
        seq_order(a, b) == -1 <==> mag(a) < mag(b),
        seq_order(a, b) == 0 <==> mag(a) == mag(b),
        seq_order(a, b) == 1 <==> mag(a) > mag(b),
    decreases a.len(),
{
    if a.len() > 0 {
        let ta = a.subrange(1, a.len() as int);
        let tb = b.subrange(1, b.len() as int);
        assert(a =~= seq![a[0]] + ta);
        assert(b =~= seq![b[0]] + tb);
        lemma_mag_prepend(a[0], ta);
        lemma_mag_prepend(b[0], tb);
        lemma_mag_bounds(ta);
        lemma_mag_bounds(tb);
        let p = pow10(ta.len());
        if a[0] < b[0] {
            assert(a[0] * p + p <= b[0] * p) by (nonlinear_arith)
                requires
                    a[0] + 1 <= b[0],
                    p > 0,
            ;
        } else if a[0] > b[0] {
            assert(b[0] * p + p <= a[0] * p) by (nonlinear_arith)
                requires
                    b[0] + 1 <= a[0],
                    p > 0,
            ;
        } else {
            lemma_seq_order_same_length(ta, tb);
        }
    }
}

/// Among digit sequences without leading zeros, `seq_order` is the order of
/// the numbers.
pub proof fn lemma_seq_order_mag(a: Seq<i8>, b: Seq<i8>)
    requires
        valid_digits(a),
        valid_digits(b),
        no_leading_zero(a),
        no_leading_zero(b),
    ensures
        seq_order(a, b) == -1 <==> mag(a) < mag(b),
        seq_order(a, b) == 0 <==> mag(a) == mag(b),
        seq_order(a, b) == 1 <==> mag(a) > mag(b),
{
    lemma_mag_bounds(a);
    lemma_mag_bounds(b);
    if a.len() < b.len() {
        lemma_mag_lower(b);
        lemma_pow10_monotonic(a.len(), (b.len() - 1) as nat);
    } else if a.len() > b.len() {
        lemma_mag_lower(a);
        lemma_pow10_monotonic(b.len(), (a.len() - 1) as nat);
    } else {
        lemma_seq_order_same_length(a, b);
    }
}

/// Compares two digit sequences as `seq_order` says.
pub fn compare_digits(a: &Vec<i8>, b: &Vec<i8>) -> (out: i8)
    ensures
        out == seq_order(a@, b@),
{
    if a.len() < b.len() {
        return -1;
    }
    if a.len() > b.len() {
        return 1;
    }
    let n: usize = a.len();
    let mut i: usize = 0;
    assert(a@.subrange(0, n as int) =~= a@);
    assert(b@.subrange(0, n as int) =~= b@);
    while i < n
        invariant
            n == a.len(),
            n == b.len(),
            0 <= i <= n,
            seq_order(a@, b@) == seq_order(
                a@.subrange(i as int, n as int),
                b@.subrange(i as int, n as int),
            ),
        decreases n - i,
    {
        let x: i8 = a[i];
        let y: i8 = b[i];
        if x < y {
            return -1;
        }
        if x > y {
            return 1;
        }
        proof {
            let sa = a@.subrange(i as int, n as int);
            let sb = b@.subrange(i as int, n as int);
            assert(sa.subrange(1, sa.len() as int) =~= a@.subrange(i + 1, n as int));
            assert(sb.subrange(1, sb.len() as int) =~= b@.subrange(i + 1, n as int));
        }
        i += 1;
    }
    0
}

} // verus!
