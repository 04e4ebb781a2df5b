use ibig::add::{add_in_place, sub_in_place, add_signed_word_in_place};
use ibig::mul::{add_mul_word_in_place, mul_word_in_place};
use ibig::primitive::{add_with_carry, mul_add_carry, sub_with_borrow};
use ibig::simple_mul::add_signed_mul;
use ibig::Sign;

// A fixed linear-congruential sequence stands in for random test words.
fn pseudo_words(seed: u64, len: usize) -> Vec<u64> {
    let mut v = Vec::with_capacity(len);
    let mut x = seed;
    for _ in 0..len {
        x = x
            .wrapping_mul(6364136223846793005)
            .wrapping_add(1442695040888963407);
        v.push(x);
    }
    v
}

// Value of a word slice as a big number, in 128-bit chunks for checking
// small cases exactly.
fn value2(s: &[u64]) -> u128 {
    assert!(s.len() <= 2);
    let mut v: u128 = 0;
    for (i, w) in s.iter().enumerate() {
        v += (*w as u128) << (64 * i);
    }
    v
}

#[test]
fn test_add_with_carry() {
    assert_eq!(add_with_carry(u64::MAX, 1, false), (0, true));
    assert_eq!(add_with_carry(u64::MAX, u64::MAX, true), (u64::MAX, true));
    assert_eq!(add_with_carry(2, 3, true), (6, false));
}

#[test]
fn test_sub_with_borrow() {
    assert_eq!(sub_with_borrow(0, 1, false), (u64::MAX, true));
    assert_eq!(sub_with_borrow(5, 2, true), (2, false));
    assert_eq!(sub_with_borrow(0, u64::MAX, true), (0, true));
}

#[test]
fn test_mul_add_carry() {
    // u64::MAX^2 + 2 * u64::MAX = 2^128 - 1.
    assert_eq!(
        mul_add_carry(u64::MAX, u64::MAX, u64::MAX, u64::MAX),
        (u64::MAX, u64::MAX)
    );
    assert_eq!(mul_add_carry(3, 4, 5, 6), (23, 0));
}

#[test]
fn test_add_in_place_carry_identity() {
    // value(c') + carry * 2^(64 len) == value(c) + value(a).
    let mut c = vec![u64::MAX, u64::MAX];
    let a = vec![1u64, 0];
    let carry = add_in_place(&mut c, &a);
    assert!(carry);
    assert_eq!(c, vec![0, 0]);

    let mut c = vec![u64::MAX, 5, 77];
    let a = vec![1u64];
    let carry = add_in_place(&mut c, &a);
    // The tail is left unchanged: the caller propagates the carry.
    assert!(carry);
    assert_eq!(c, vec![0, 5, 77]);

    // Exact value check on random-looking words.
    let a = pseudo_words(11, 2);
    let c0 = pseudo_words(22, 2);
    let mut c = c0.clone();
    let carry = add_in_place(&mut c, &a);
    let full = value2(&c0) as u128;
    let (sum, overflow) = full.overflowing_add(value2(&a));
    assert_eq!(carry, overflow);
    assert_eq!(value2(&c), sum);
}

#[test]
fn test_sub_in_place_borrow_identity() {
    let mut c = vec![0u64, 0];
    let a = vec![1u64, 0];
    let borrow = sub_in_place(&mut c, &a);
    assert!(borrow);
    assert_eq!(c, vec![u64::MAX, u64::MAX]);
}

#[test]
fn test_add_signed_word_in_place() {
    let mut w = vec![0u64, 0];
    let r = add_signed_word_in_place(&mut w, 0, 2, -1);
    assert_eq!(r, -1);
    assert_eq!(w, vec![u64::MAX, u64::MAX]);

    let mut w = vec![u64::MAX, 0];
    let r = add_signed_word_in_place(&mut w, 0, 2, 5);
    assert_eq!(r, 0);
    assert_eq!(w, vec![4, 1]);
}

#[test]
fn test_add_mul_word_in_place() {
    // c[0..2] += 3 * [a], never touching c beyond the range.
    let mut c = vec![u64::MAX, u64::MAX, 9];
    let a = vec![2u64, 0];
    let carry = add_mul_word_in_place(&mut c, 0, 3, &a, 0, 2);
    assert_eq!(carry, 1);
    assert_eq!(c, vec![5, 0, 9]);
}

#[test]
fn test_mul_word_in_place() {
    let mut w = vec![u64::MAX, 1];
    let carry = mul_word_in_place(&mut w, 4);
    // (2^64 + ... ) * 4
    assert_eq!(carry, 0);
    assert_eq!(w, vec![u64::MAX - 3, 7]);
}

#[test]
fn test_add_signed_mul_identity() {
    // value(c') + carry * 2^(64 c.len) == value(c) + sign * value(a) * value(b)
    let a = vec![3u64];
    let b = vec![5u64];
    let mut c = vec![7u64, 0];
    let carry = add_signed_mul(&mut c, Sign::Positive, &a, &b);
    assert_eq!(carry, 0);
    assert_eq!(c, vec![22, 0]);

    // 7 - 15 = -8: the slice wraps and the signed carry balances it.
    let mut c = vec![7u64, 0];
    let carry = add_signed_mul(&mut c, Sign::Negative, &a, &b);
    assert_eq!(carry, -1);
    assert_eq!(c, vec![u64::MAX - 7, u64::MAX]);
    let mut c = vec![0u64, 0];
    let carry = add_signed_mul(&mut c, Sign::Negative, &a, &b);
    assert_eq!(carry, -1);
    assert_eq!(c, vec![u64::MAX - 14, u64::MAX]);

    // A product crossing the word boundary, against u128 arithmetic.
    let a = pseudo_words(5, 1);
    let b = pseudo_words(9, 1);
    let mut c = vec![0u64, 0];
    let carry = add_signed_mul(&mut c, Sign::Positive, &a, &b);
    assert_eq!(carry, 0);
    assert_eq!(value2(&c), a[0] as u128 * b[0] as u128);
}

#[test]
fn test_simple_mul_power_of_two() {
    // 2^1024 * 2^1024 on 32-limb factors: the only non-zero limb of the
    // product is limb 32 (bit 2048), and no carry leaves the buffer.
    let mut a = vec![0u64; 32];
    a[16] = 1;
    let b = a.clone();
    let mut c = vec![0u64; 64];
    let carry = add_signed_mul(&mut c, Sign::Positive, &a, &b);
    assert_eq!(carry, 0);
    for (i, w) in c.iter().enumerate() {
        if i == 32 {
            assert_eq!(*w, 1);
        } else {
            assert_eq!(*w, 0);
        }
    }
}
