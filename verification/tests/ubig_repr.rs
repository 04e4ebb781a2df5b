use ibig::Buffer;
use ibig::Repr;
use ibig::UBig;

fn gen_ubig(num_words: usize) -> UBig {
    let mut buf = Buffer::allocate(num_words);
    for i in 0..num_words {
        buf.push(i as u64);
    }
    UBig::from_buffer(buf)
}

#[test]
fn test_buffer_to_ubig() {
    let buf = Buffer::allocate(5);
    let num: UBig = UBig::from_buffer(buf);
    assert_eq!(num, UBig::from_word(0));

    let mut buf = Buffer::allocate(5);
    buf.push(7);
    let num: UBig = UBig::from_buffer(buf);
    assert_eq!(num, UBig::from_word(7));

    let mut buf = Buffer::allocate(100);
    buf.push(7);
    buf.push(0);
    buf.push(0);
    let num: UBig = UBig::from_buffer(buf);
    assert_eq!(num, UBig::from_word(7));

    let mut buf = Buffer::allocate(5);
    buf.push(1);
    buf.push(2);
    buf.push(3);
    buf.push(4);
    let num: UBig = UBig::from_buffer(buf);
    assert_eq!(num.capacity(), 7);

    let mut buf = Buffer::allocate(100);
    buf.push(1);
    buf.push(2);
    buf.push(3);
    buf.push(4);
    let num: UBig = UBig::from_buffer(buf);
    assert_eq!(num.capacity(), 6);
}

#[test]
fn ubig_test_clone() {
    let a = UBig::from_word(5);
    assert_eq!(a.clone(), a);

    let a = gen_ubig(10);
    let b = a.clone();
    assert_eq!(a, b);
    assert_eq!(a.capacity(), b.capacity());
}

#[test]
fn ubig_test_clone_from() {
    let num: UBig = gen_ubig(10);

    let mut a = UBig::from_word(3);
    a.clone_from(&num);
    assert_eq!(a, num);
    let b = UBig::from_word(7);
    a.clone_from(&b);
    assert_eq!(a, b);
    a.clone_from(&b);
    assert_eq!(a, b);

    let mut a = gen_ubig(9);
    let prev_cap = a.capacity();
    a.clone_from(&num);
    // The buffer should be reused, 9 is close enough to 10.
    assert_eq!(a.capacity(), prev_cap);
    assert_ne!(a.capacity(), num.capacity());

    let mut a = gen_ubig(2);
    let prev_cap = a.capacity();
    a.clone_from(&num);
    // The buffer should now be reallocated, it's too small.
    assert_ne!(a.capacity(), prev_cap);
    assert_eq!(a.capacity(), num.capacity());

    let mut a = gen_ubig(100);
    let prev_cap = a.capacity();
    a.clone_from(&num);
    // The buffer should now be reallocated, it's too large.
    assert_ne!(a.capacity(), prev_cap);
    assert_eq!(a.capacity(), num.capacity());
}

#[test]
fn test_normalization_small_iff_below_word_base() {
    // One word: Small.
    let u = UBig::from_str_radix("ffffffffffffffff", 16).unwrap();
    assert!(matches!(u.repr(), Repr::Small(0xffff_ffff_ffff_ffff)));
    assert_eq!(u, UBig::from_word(u64::MAX));
    // One more: Large with two limbs, top limb non-zero.
    let v = UBig::from_str_radix("10000000000000000", 16).unwrap();
    match v.repr() {
        Repr::Small(_) => panic!("two-word value stored inline"),
        Repr::Large(b) => {
            assert_eq!(b.len(), 2);
            assert_eq!(b.get(0), 0);
            assert_eq!(b.get(1), 1);
        }
    }
}

#[test]
fn test_is_zero() {
    assert!(UBig::from_word(0).is_zero());
    assert!(!UBig::from_word(3).is_zero());
    assert!(UBig::from_str_radix("0000", 7).unwrap().is_zero());
}
