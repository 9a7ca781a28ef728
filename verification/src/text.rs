//! Decimal text: reading a big number from it and writing one as it.

use crate::big_number::BigNumber;
use crate::digits::{digits_of, mag, valid_digits};
use crate::error::BigNumberError;
use vstd::prelude::*;

verus! {

/// The character is one of `0` to `9`.
pub open spec fn is_digit_char(c: char) -> bool {
    48 <= c as u32 <= 57
}

/// The digit that a digit character stands for.
pub open spec fn digit_of_char(c: char) -> i8 {
    (c as u32 - 48) as i8
}

/// The character that stands for a digit.
pub open spec fn char_of_digit(d: i8) -> char {
    ((d + 48) as u8) as char
}

/// The text starts with a minus sign.
pub open spec fn has_minus(s: Seq<char>) -> bool {
    s.len() > 0 && s[0] == '-'
}

/// The text behind the minus sign, or all of it where there is none.
pub open spec fn digit_chars(s: Seq<char>) -> Seq<char> {
    if has_minus(s) {
        s.subrange(1, s.len() as int)
    } else {
        s
    }
}

/// Behind an optional minus sign the text holds decimal digits only.
pub open spec fn is_decimal(s: Seq<char>) -> bool {
    forall|i: int| 0 <= i < digit_chars(s).len() ==> is_digit_char(#[trigger] digit_chars(s)[i])
}

/// The digits that the text holds, in its order.
pub open spec fn decimal_digits(s: Seq<char>) -> Seq<i8> {
    Seq::new(digit_chars(s).len(), |i: int| digit_of_char(digit_chars(s)[i]))
}

/// The integer that a decimal text denotes.
pub open spec fn decimal_value(s: Seq<char>) -> int {
    if has_minus(s) {
        -mag(decimal_digits(s))
    } else {
        mag(decimal_digits(s))
    }
}

/// The decimal text of a number given by sign and digits: `0` for no
/// digits, else the digits behind a minus sign where the sign is -1.
pub open spec fn render(sign: int, digits: Seq<i8>) -> Seq<char> {
    if digits.len() == 0 {
        seq!['0']
    } else if sign == -1 {
        seq!['-'] + Seq::new(digits.len(), |i: int| char_of_digit(digits[i]))
    } else {
        Seq::new(digits.len(), |i: int| char_of_digit(digits[i]))
    }
}

/// The decimal text of an integer: its digits, behind a minus sign where it
/// is negative; `0` for zero.
pub open spec fn decimal_text(v: int) -> Seq<char> {
    render(if v < 0 { -1int } else { 1int }, digits_of(vstd::math::abs(v)))
}

/// The text of one digit.
pub fn digit_text(d: i8) -> (out: &'static str)
    requires
        0 <= d <= 9,
    ensures
        out@ == seq![char_of_digit(d)],
{
    proof {
        reveal_strlit("0");
        reveal_strlit("1");
        reveal_strlit("2");
        reveal_strlit("3");
        reveal_strlit("4");
        reveal_strlit("5");
        reveal_strlit("6");
        reveal_strlit("7");
        reveal_strlit("8");
        reveal_strlit("9");
    }
    let out = match d {
        0 => "0",
        1 => "1",
        2 => "2",
        3 => "3",
        4 => "4",
        5 => "5",
        6 => "6",
        7 => "7",
        8 => "8",
        _ => "9",
    };
    assert(out@ =~= seq![char_of_digit(d)]);
    out
}

impl BigNumber {
    /// Reads a number from decimal text with an optional minus sign in
    /// front. Leading zeros are dropped. Fails where another character
    /// occurs.
    pub fn from_string(s: &str) -> (out: Result<BigNumber, BigNumberError>)
        ensures
            match out {
                Ok(b) => is_decimal(s@) && b.wf() && b@ == decimal_value(s@),
                Err(e) => !is_decimal(s@) && e == BigNumberError::InvalidDigit,
            },
    {
        let n: usize = s.unicode_len();
        let mut sign: i8 = 1;
        let mut i: usize = 0;
        if n > 0 && s.get_char(0) == '-' {
            sign = -1;
            i = 1;
        }
        let start: usize = i;
        let ghost body = digit_chars(s@);
        let mut number: Vec<i8> = Vec::new();
        while i < n
            invariant
                n == s@.len(),
                start <= i <= n,
                start == if has_minus(s@) { 1int } else { 0int },
                body == digit_chars(s@),
                body.len() == n - start,
                number@.len() == i - start,
                valid_digits(number@),
                forall|j: int|
                    0 <= j < i - start ==> is_digit_char(#[trigger] body[j]) && number@[j]
                        == digit_of_char(body[j]),
            decreases n - i,
        {
            let c: char = s.get_char(i);
            let u: u32 = c as u32;
            assert(body[i - start] == c);
            if u < 48 || u > 57 {
                return Err(BigNumberError::InvalidDigit);
            }
            number.push((u - 48) as i8);
            i += 1;
        }
        proof {
            assert(number@ =~= decimal_digits(s@));
            assert(1 * mag(number@) == mag(number@));
            assert((-1) * mag(number@) == -mag(number@));
        }
        Ok(BigNumber { sign, number }.normalize())
    }

    /// The decimal text of the number: zero is `0`, a negative number has a
    /// minus sign in front.
    pub fn to_string(&self) -> (out: String)
        requires
            self.wf(),
        ensures
            out@ == render(self.signum(), self.digits()),
    {
        let mut text = String::new();
        let n: usize = self.number.len();
        if n == 0 {
            text.append(digit_text(0));
            assert(text@ =~= seq!['0']);
            return text;
        }
        if self.sign == -1 {
            proof {
                reveal_strlit("-");
            }
            text.append("-");
        }
        let ghost head = text@;
        assert(head =~= if self.sign == -1 { seq!['-'] } else { Seq::<char>::empty() });
        let mut i: usize = 0;
        while i < n
            invariant
                n == self.number.len(),
                0 <= i <= n,
                self.wf(),
                text@ =~= head + Seq::new(i as nat, |j: int| char_of_digit(self.number@[j])),
            decreases n - i,
        {
            text.append(digit_text(self.number[i]));
            i += 1;
        }
        assert(text@ =~= render(self.signum(), self.digits()));
        text
    }

    /// Text written by `to_string` is decimal text, and denotes the number
    /// it was written from.
    pub proof fn lemma_round_trip(&self)
        requires
            self.wf(),
        ensures
            is_decimal(render(self.signum(), self.digits())),
            decimal_value(render(self.signum(), self.digits())) == self@,
    {
        let d = self.number@;
        let t = render(self.signum(), d);
        let chars = Seq::new(d.len(), |i: int| char_of_digit(d[i]));
        self.lemma_sign();
        if d.len() == 0 {
            assert(!has_minus(t));
            assert(decimal_digits(t) =~= seq![0i8]);
            crate::digits::lemma_mag_single(0i8);
        } else {
            assert(forall|i: int| 0 <= i < d.len() ==> is_digit_char(#[trigger] chars[i]));
            assert(chars[0] != '-');
            if self.sign == -1 {
                assert(has_minus(t));
                assert(digit_chars(t) =~= chars);
            } else {
                assert(!has_minus(t));
                assert(digit_chars(t) =~= chars);
            }
            assert(decimal_digits(t) =~= d);
            assert(1 * mag(d) == mag(d));
            assert((-1) * mag(d) == -mag(d));
        }
    }
}

} // verus!
