use elliptic::algo::WrappingAdd;
use elliptic::natural::{Integer, Natural};

use num_bigint::BigInt;
use num_traits::Zero;

fn big(v: &Integer) -> BigInt {
    let m = BigInt::from(num_bigint::BigUint::from_bytes_le(&v.magnitude.bytes));
    if v.negative {
        -m
    } else {
        m
    }
}

fn integer(v: u64) -> Integer {
    Integer::from_u64(v)
}

fn replace<T>(src: T, dest: &mut T) -> T {
    std::mem::replace(dest, src)
}

fn gcd_isize(mut a: isize, mut b: isize) -> isize {
    while b != 0 {
        a = replace(a % b, &mut b);
    }
    a
}

fn gcd_big(mut a: BigInt, mut b: BigInt) -> BigInt {
    while !b.is_zero() {
        a = replace(a % b.clone(), &mut b);
    }
    a
}

#[test]
fn counts_gcd() {
    let (a, b) = (4, 18);
    let (_, x, y) = elliptic::algo::extended_gcd(&integer(a as u64), &integer(b as u64));
    let (x, y) = (big(&x), big(&y));
    assert_eq!(
        BigInt::from(a) * x + BigInt::from(b) * y,
        BigInt::from(gcd_isize(a, b))
    );
}

#[test]
fn repeats_correctly() {
    for n in 0..100000usize {
        assert_eq!(
            elliptic::algo::repeat_monoid(WrappingAdd, Natural::from_u64(n as u64), 1, 0),
            n
        );
    }
}

#[test]
fn repeat_monoid() {
    for n in 0..100000usize {
        let r = elliptic::algo::repeat_monoid(WrappingAdd, Natural::from_u64(n as u64), 1usize, 0usize);
        assert_eq!(r, n);
    }
}

#[test]
fn extended_gcd() {
    for a in 1..800u64 {
        for b in 1..=a {
            let (g, x, y) = elliptic::algo::extended_gcd(&integer(a), &integer(b));
            let (g, x, y) = (big(&g), big(&x), big(&y));
            assert_eq!(g, BigInt::from(a) * x + BigInt::from(b) * y);
            assert_eq!(g, gcd_big(BigInt::from(a), BigInt::from(b)));
        }
    }
}

#[test]
fn repeat_monoid_wraps_around() {
    let r = elliptic::algo::repeat_monoid(WrappingAdd, Natural::from_u64(3), usize::MAX, 5usize);
    assert_eq!(r, 2);
}

#[test]
fn repeat_monoid_zero_count_gives_result() {
    let r = elliptic::algo::repeat_monoid(WrappingAdd, Natural::from_u64(0), 7usize, 11usize);
    assert_eq!(r, 11);
}

#[test]
fn extended_gcd_with_zero() {
    let (g, x, y) = elliptic::algo::extended_gcd(&integer(12), &integer(0));
    assert_eq!(big(&g), BigInt::from(12));
    assert_eq!(big(&x), BigInt::from(1));
    assert_eq!(big(&y), BigInt::from(0));
}

#[test]
fn extended_gcd_exact_coefficients() {
    let (g, x, y) = elliptic::algo::extended_gcd(&integer(240), &integer(46));
    assert_eq!(big(&g), BigInt::from(2));
    assert_eq!(big(&x), BigInt::from(-9));
    assert_eq!(big(&y), BigInt::from(47));
}

fn is_prime(value: u64) -> bool {
    elliptic::algo::is_prime(&Natural::from_u64(value))
}

#[test]
fn is_prime_test() {
    assert!(!is_prime(1));
    assert!(is_prime(2));
    assert!(is_prime(3));
    assert!(!is_prime(4));
    assert!(is_prime(5));
    assert!(is_prime(79));
    assert!(is_prime(113));
    assert!(!is_prime(79 * 113));
}

#[test]
fn is_prime_of_zero_and_squares() {
    assert!(!is_prime(0));
    assert!(!is_prime(49));
    assert!(is_prime(7919));
}

#[test]
fn modular_inverse_cases() {
    match elliptic::algo::modular_inverse(&integer(5), &integer(18)) {
        Ok(x) => assert_eq!((big(&x) * 5 % 18 + 18) % 18, BigInt::from(1)),
        Err(_) => panic!("5 is invertible modulo 18"),
    }
    assert!(elliptic::algo::modular_inverse(&integer(6), &integer(18)).is_err());
}
