use big_number::convert::{get_i_digit, how_many_digits, sign_of};
use big_number::digits::{
    adder, combine, compare_digits, copy_digits, multiplier, scale, strip_leading_zeros,
};
use big_number::text::digit_text;

#[test]
fn adder_carries_and_borrows() {
    assert_eq!(adder(9, 9, 1), (9, 1));
    assert_eq!(adder(5, 4, 0), (9, 0));
    assert_eq!(adder(5, 5, 0), (0, 1));
    assert_eq!(adder(0, -9, -1), (0, -1));
    assert_eq!(adder(3, -5, 0), (8, -1));
    assert_eq!(adder(5, -5, 0), (0, 0));
    assert_eq!(adder(0, 0, -1), (9, -1));
}

#[test]
fn multiplier_carries() {
    assert_eq!(multiplier(9, 9, 8), (9, 8));
    assert_eq!(multiplier(0, 9, 3), (3, 0));
    assert_eq!(multiplier(7, 6, 0), (2, 4));
}

#[test]
fn sign_of_zero_is_positive() {
    assert_eq!(sign_of(0), 1);
    assert_eq!(sign_of(17), 1);
    assert_eq!(sign_of(-17), -1);
    assert_eq!(sign_of(i32::MIN), -1);
}

#[test]
fn how_many_digits_counts() {
    assert_eq!(how_many_digits(0), 0);
    assert_eq!(how_many_digits(9), 1);
    assert_eq!(how_many_digits(-10), 2);
    assert_eq!(how_many_digits(999), 3);
    assert_eq!(how_many_digits(1000), 4);
    assert_eq!(how_many_digits(i32::MAX), 10);
    assert_eq!(how_many_digits(i32::MIN), 10);
}

#[test]
fn get_i_digit_picks_a_place() {
    assert_eq!(get_i_digit(1234, 0), 4);
    assert_eq!(get_i_digit(1234, 3), 1);
    assert_eq!(get_i_digit(-1234, 1), 3);
    assert_eq!(get_i_digit(1234, 4), 0);
    assert_eq!(get_i_digit(1234, 40), 0);
    assert_eq!(get_i_digit(i32::MIN, 9), 2);
    assert_eq!(get_i_digit(i32::MIN, 0), 8);
}

#[test]
fn strip_leading_zeros_keeps_the_rest() {
    assert_eq!(strip_leading_zeros(vec![0, 0, 1, 0]), vec![1, 0]);
    assert_eq!(strip_leading_zeros(vec![0, 0]), Vec::<i8>::new());
    assert_eq!(strip_leading_zeros(vec![]), Vec::<i8>::new());
    assert_eq!(strip_leading_zeros(vec![5]), vec![5]);
}

#[test]
fn combine_adds_and_subtracts() {
    assert_eq!(combine(&vec![9, 9], &vec![1], false), vec![1, 0, 0]);
    assert_eq!(combine(&vec![1], &vec![9, 9], false), vec![1, 0, 0]);
    assert_eq!(combine(&vec![1, 0, 0], &vec![1], true), vec![0, 9, 9]);
    assert_eq!(combine(&vec![4, 2], &vec![4, 2], true), vec![0, 0]);
    assert_eq!(combine(&vec![], &vec![], false), Vec::<i8>::new());
}

#[test]
fn scale_multiplies_and_shifts() {
    assert_eq!(scale(&vec![9, 9], 9, 0), vec![8, 9, 1]);
    assert_eq!(scale(&vec![1, 2], 3, 2), vec![3, 6, 0, 0]);
    assert_eq!(scale(&vec![1, 2], 0, 1), vec![0, 0, 0]);
}

#[test]
fn compare_digits_by_length_then_digits() {
    assert_eq!(compare_digits(&vec![9], &vec![1, 0]), -1);
    assert_eq!(compare_digits(&vec![1, 0], &vec![9]), 1);
    assert_eq!(compare_digits(&vec![1, 2, 3], &vec![1, 2, 4]), -1);
    assert_eq!(compare_digits(&vec![2, 0, 0], &vec![1, 9, 9]), 1);
    assert_eq!(compare_digits(&vec![1, 2], &vec![1, 2]), 0);
    assert_eq!(compare_digits(&vec![], &vec![]), 0);
}

#[test]
fn copy_digits_copies() {
    assert_eq!(copy_digits(&vec![1, 2, 3]), vec![1, 2, 3]);
}

#[test]
fn digit_text_of_each_digit() {
    let all: Vec<&str> = (0..10).map(digit_text).collect();
    assert_eq!(all, vec!["0", "1", "2", "3", "4", "5", "6", "7", "8", "9"]);
}
