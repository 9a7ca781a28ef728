use big_number::BigNumber;
use rand::Rng;

fn big(n: i32) -> BigNumber {
    BigNumber::from_int(n)
}

fn check_pair(a: i32, b: i32) {
    let x = big(a);
    let y = big(b);
    assert_eq!(x.add(&y).to_string(), format!("{}", a + b));
    assert_eq!(x.sub(&y).to_string(), format!("{}", a - b));
    assert_eq!(x.mul(&y).to_string(), format!("{}", a * b));
    if b != 0 {
        assert_eq!(x.div(&y).unwrap().to_string(), format!("{}", a / b));
        assert_eq!(x.rem(&y).unwrap().to_string(), format!("{}", a % b));
    }
    assert_eq!(x < y, a < b);
    assert_eq!(x == y, a == b);
    assert_eq!(x > y, a > b);
    assert_eq!(x.partial_cmp(&y), a.partial_cmp(&b));
    assert_eq!(x.max(&y).to_string(), format!("{}", a.max(b)));
    assert_eq!(x.min(&y).to_string(), format!("{}", a.min(b)));
}

#[test]
fn small_numbers_agree_with_the_machine() {
    for a in -25..25 {
        for b in -25..25 {
            check_pair(a, b);
        }
    }
}

#[test]
fn random_numbers_agree_with_the_machine() {
    let mut rng = rand::thread_rng();
    let r = 10000;
    for _ in 0..2000 {
        let a = rng.gen_range(-r..r);
        let b = rng.gen_range(-r..r);
        check_pair(a, b);
    }
}

#[test]
fn ring_laws_on_random_numbers() {
    let mut rng = rand::thread_rng();
    let zero = big(0);
    for _ in 0..300 {
        let a = big(rng.gen_range(-100000..100000));
        let b = big(rng.gen_range(-100000..100000));
        let c = big(rng.gen_range(-100000..100000));
        assert_eq!(a.add(&b), b.add(&a));
        assert_eq!(a.mul(&b), b.mul(&a));
        assert_eq!(a.add(&b).add(&c), a.add(&b.add(&c)));
        assert_eq!(a.mul(&b).mul(&c), a.mul(&b.mul(&c)));
        assert_eq!(a.add(&a.negative()), zero);
        assert_eq!(a.mul(&b.add(&c)), a.mul(&b).add(&a.mul(&c)));
        if !b.is_zero() {
            let q = a.div(&b).unwrap();
            let bq = b.mul(&q);
            assert_eq!(bq.add(&a.sub(&bq)), a);
        }
        let lt = a < b;
        let eq = a == b;
        let gt = a > b;
        assert_eq!(lt as u8 + eq as u8 + gt as u8, 1);
        if a < b && b < c {
            assert!(a < c);
        }
    }
}
