use big_number::arith::divider;
use big_number::{BigNumber, BigNumberError};

fn big(n: i32) -> BigNumber {
    BigNumber::from_int(n)
}

fn parse(s: &str) -> BigNumber {
    BigNumber::from_string(s).unwrap()
}

#[test]
fn add_mixed_signs_renders_100() {
    assert_eq!(big(123).add(&big(-23)).to_string(), "100");
}

#[test]
fn div_truncates_toward_zero() {
    assert_eq!(big(-7).div(&big(2)).unwrap().to_string(), "-3");
    assert_eq!(big(-7).div(&big(2)).unwrap(), big(-3));
    assert_ne!(big(-7).div(&big(2)).unwrap(), big(-4));
    assert_eq!(big(7).div(&big(-2)).unwrap(), big(-3));
    assert_eq!(big(-7).div(&big(-2)).unwrap(), big(3));
    assert_eq!(big(7).div(&big(2)).unwrap(), big(3));
}

#[test]
fn mul_999_by_999() {
    assert_eq!(big(999).mul(&big(999)).to_string(), "998001");
}

#[test]
fn minus_zero_text_is_zero() {
    let z = parse("-0");
    assert_eq!(z.to_string(), "0");
    assert_eq!(z, big(0));
    assert!(z.is_zero());
}

#[test]
fn powi_two_to_the_tenth() {
    assert_eq!(big(2).powi(10).to_string(), "1024");
}

#[test]
fn div_by_zero_fails() {
    assert_eq!(big(5).div(&big(0)), Err(BigNumberError::DivisionByZero));
    assert_eq!(big(0).div(&big(0)), Err(BigNumberError::DivisionByZero));
    assert_eq!(big(5).rem(&big(0)), Err(BigNumberError::DivisionByZero));
}

#[test]
fn from_string_rejects_other_characters() {
    assert_eq!(BigNumber::from_string("12a3"), Err(BigNumberError::InvalidDigit));
    assert_eq!(BigNumber::from_string("--1"), Err(BigNumberError::InvalidDigit));
    assert_eq!(BigNumber::from_string("1-"), Err(BigNumberError::InvalidDigit));
    assert_eq!(BigNumber::from_string("+1"), Err(BigNumberError::InvalidDigit));
    assert_eq!(BigNumber::from_string(" 1"), Err(BigNumberError::InvalidDigit));
    assert_eq!(BigNumber::from_string("1_000"), Err(BigNumberError::InvalidDigit));
    assert_eq!(BigNumber::from_string("1e5"), Err(BigNumberError::InvalidDigit));
    assert_eq!(BigNumber::from_string("\u{0661}"), Err(BigNumberError::InvalidDigit));
}

#[test]
fn from_string_drops_leading_zeros() {
    assert_eq!(parse("007"), big(7));
    assert_eq!(parse("007").to_string(), "7");
    assert_eq!(parse("-000120").to_string(), "-120");
    assert_eq!(parse("0000"), big(0));
}

#[test]
fn from_string_without_digits_is_zero() {
    assert_eq!(parse(""), big(0));
    assert_eq!(parse("-"), big(0));
}

#[test]
fn from_int_renders_as_the_machine_does() {
    for n in [0, 1, -1, 9, 10, -10, 99, 100, 12345, -98765, 1_000_000_000, i32::MAX, i32::MIN, i32::MIN + 1] {
        assert_eq!(big(n).to_string(), format!("{}", n));
    }
}

#[test]
fn text_round_trip() {
    for n in [0, 5, -5, 10, 1200, -340, i32::MAX, i32::MIN] {
        let a = big(n);
        assert_eq!(parse(&a.to_string()), a);
    }
    let long = "-23984871283974891273453245234523453123423409812083759021834072138421093848217395742037404";
    assert_eq!(parse(long).to_string(), long);
}

#[test]
fn negative_and_abs() {
    assert_eq!(big(5).negative(), big(-5));
    assert_eq!(big(-5).negative(), big(5));
    assert_eq!(big(0).negative(), big(0));
    assert_eq!(big(0).negative().to_string(), "0");
    assert_eq!(big(-5).abs(), big(5));
    assert_eq!(big(5).abs(), big(5));
    assert_eq!(big(0).abs(), big(0));
}

#[test]
fn normalize_keeps_normal_forms() {
    assert_eq!(big(120).normalize(), big(120));
    assert_eq!(big(0).normalize(), big(0));
    assert_eq!(big(-3).normalize(), big(-3));
}

#[test]
fn clone_is_equal() {
    let a = parse("-123456789012345678901234567890");
    assert_eq!(a.clone(), a);
}

#[test]
fn add_carries_into_a_new_digit() {
    assert_eq!(big(999).add(&big(1)).to_string(), "1000");
    assert_eq!(big(-999).add(&big(-1)).to_string(), "-1000");
    assert_eq!(parse("99999999999999999999").add(&big(1)).to_string(), "100000000000000000000");
}

#[test]
fn sub_borrows_across_zeros() {
    assert_eq!(big(1000).sub(&big(1)).to_string(), "999");
    assert_eq!(big(1).sub(&big(1000)).to_string(), "-999");
    assert_eq!(big(5).sub(&big(5)).to_string(), "0");
    assert_eq!(big(-5).sub(&big(-5)), big(0));
    assert_eq!(parse("100000000000000000000").sub(&big(1)).to_string(), "99999999999999999999");
}

#[test]
fn mul_signs_and_zero() {
    assert_eq!(big(-12).mul(&big(12)).to_string(), "-144");
    assert_eq!(big(-12).mul(&big(-12)).to_string(), "144");
    assert_eq!(big(-12).mul(&big(0)).to_string(), "0");
    assert_eq!(big(0).mul(&big(-12)), big(0));
    assert_eq!(
        parse("123456789123456789").mul(&parse("987654321987654321")).to_string(),
        "121932631356500531347203169112635269"
    );
}

#[test]
fn div_three_ways() {
    assert_eq!(big(3).div(&big(10)).unwrap(), big(0));
    assert_eq!(big(-3).div(&big(10)).unwrap().to_string(), "0");
    assert_eq!(big(10).div(&big(10)).unwrap(), big(1));
    assert_eq!(big(-10).div(&big(10)).unwrap(), big(-1));
    assert_eq!(big(1000).div(&big(7)).unwrap().to_string(), "142");
    assert_eq!(
        parse("121932631356500531347203169112635269").div(&parse("987654321987654321")).unwrap(),
        parse("123456789123456789")
    );
}

#[test]
fn rem_has_the_sign_of_the_dividend() {
    assert_eq!(big(7).rem(&big(2)).unwrap(), big(1));
    assert_eq!(big(-7).rem(&big(2)).unwrap(), big(-1));
    assert_eq!(big(7).rem(&big(-2)).unwrap(), big(1));
    assert_eq!(big(-7).rem(&big(-2)).unwrap(), big(-1));
    assert_eq!(big(6).rem(&big(3)).unwrap(), big(0));
}

#[test]
fn pow_and_powi() {
    assert_eq!(big(7).pow(&big(0)), big(1));
    assert_eq!(big(7).powi(0), big(1));
    assert_eq!(big(0).powi(0), big(1));
    assert_eq!(big(0).powi(3), big(0));
    assert_eq!(big(-2).powi(3), big(-8));
    assert_eq!(big(-2).pow(&big(4)), big(16));
    assert_eq!(big(3).pow(&big(5)).to_string(), "243");
    assert_eq!(big(2).pow(&big(100)).to_string(), "1267650600228229401496703205376");
    assert_eq!(big(10).powi(30).to_string(), "1000000000000000000000000000000");
}

#[test]
fn pow_unfolds_and_agrees_with_powi() {
    for a in [-3, -1, 0, 1, 2, 7] {
        for n in 1..12 {
            let left = big(a).pow(&big(n));
            let right = big(a).mul(&big(a).pow(&big(n - 1)));
            assert_eq!(left, right);
            assert_eq!(big(a).powi(n), left);
        }
    }
}

#[test]
fn max_and_min() {
    let a = big(-5);
    let b = big(3);
    assert_eq!(*a.max(&b), big(3));
    assert_eq!(*a.min(&b), big(-5));
    assert_eq!(*b.max(&a), big(3));
    assert_eq!(*b.min(&a), big(-5));
    let c = big(-50);
    assert_eq!(*a.max(&c), big(-5));
    assert_eq!(*a.min(&c), big(-50));
}

#[test]
fn order_of_negative_numbers() {
    assert!(big(-10) < big(-2));
    assert!(big(-2) > big(-10));
    assert!(big(-2) < big(1));
    assert!(big(0) < big(1));
    assert!(big(-1) < big(0));
    assert!(big(99) < big(100));
    assert!(big(123) < big(124));
    assert!(big(-124) < big(-123));
    assert_eq!(big(4).partial_cmp(&big(4)), Some(std::cmp::Ordering::Equal));
    assert_eq!(big(30).cmp_abs(&big(-200)), Some(std::cmp::Ordering::Less));
    assert_eq!(big(-200).cmp_abs(&big(30)), Some(std::cmp::Ordering::Greater));
    assert_eq!(big(-30).cmp_abs(&big(30)), Some(std::cmp::Ordering::Equal));
    assert!(big(30).abs_less(&big(-31)));
    assert!(!big(30).abs_less(&big(-30)));
}

#[test]
fn smaller_bigger_abs_orders_by_absolute_value() {
    let a = big(-200);
    let b = big(30);
    let (s, l) = BigNumber::smaller_bigger_abs(&a, &b);
    assert_eq!((s, l), (&b, &a));
    let (s, l) = BigNumber::smaller_bigger_abs(&b, &a);
    assert_eq!((s, l), (&b, &a));
    let c = big(-30);
    let (s, l) = BigNumber::smaller_bigger_abs(&c, &b);
    assert_eq!((s, l), (&c, &b));
}

#[test]
fn divider_counts_subtractions() {
    let (q, r) = divider(&big(47), &big(5));
    assert_eq!(q, 9);
    assert_eq!(r, big(2));
    let (q, r) = divider(&big(3), &big(5));
    assert_eq!(q, 0);
    assert_eq!(r, big(3));
}

#[test]
fn long_division_gives_quotient_digits_and_remainder() {
    let (q, r) = BigNumber::long_division(&vec![1, 0, 0, 0], &big(7));
    assert_eq!(q, vec![0, 1, 4, 2]);
    assert_eq!(r, big(6));
}

#[test]
fn is_odd_reads_the_last_digit() {
    assert!(big(7).is_odd());
    assert!(big(-7).is_odd());
    assert!(!big(10).is_odd());
    assert!(!big(0).is_odd());
}

#[test]
fn compound_forms_replace_the_left_operand() {
    let mut a = big(123);
    a.add_assign(&big(-23));
    assert_eq!(a, big(100));
    a.sub_assign(&big(250));
    assert_eq!(a, big(-150));
    a.mul_assign(&big(-4));
    assert_eq!(a, big(600));
    assert_eq!(a.div_assign(&big(-7)), Ok(()));
    assert_eq!(a, big(-85));
    assert_eq!(a.div_assign(&big(0)), Err(BigNumberError::DivisionByZero));
    assert_eq!(a, big(-85));
}
