use ibig::Buffer;
use ibig::UBig;

fn gen_large(num_words: usize) -> UBig {
    let mut buf = Buffer::allocate(num_words);
    for i in 0..num_words {
        buf.push(i as u64);
    }
    UBig::from_buffer(buf)
}

#[test]
fn memory_test_clone() {
    let a = UBig::from_word(5);
    assert_eq!(a.clone(), a);

    let mut buf = Buffer::allocate(10);
    for i in 0..9 {
        buf.push(i as u64);
    }
    let a: UBig = UBig::from_buffer(buf);
    let b = a.clone();
    assert_eq!(a, b);
    assert_ne!(a.capacity(), b.capacity());
}

#[test]
fn memory_test_clone_from() {
    let num: UBig = gen_large(10);

    let mut a = UBig::from_word(3);
    a.clone_from(&num);
    assert_eq!(a, num);
    let b = UBig::from_word(7);
    a.clone_from(&b);
    assert_eq!(a, b);
    a.clone_from(&b);
    assert_eq!(a, b);

    let mut a = gen_large(9);
    let prev_cap = a.capacity();
    a.clone_from(&num);
    // The buffer should be reused, 9 is close enough to 10.
    assert_eq!(a.capacity(), prev_cap);
    assert_ne!(a.capacity(), num.capacity());

    let mut a = gen_large(2);
    let prev_cap = a.capacity();
    a.clone_from(&num);
    // The buffer should now be reallocated, it's too small.
    assert_ne!(a.capacity(), prev_cap);
    assert_eq!(a.capacity(), num.capacity());

    let mut a = gen_large(100);
    let prev_cap = a.capacity();
    a.clone_from(&num);
    // The buffer should now be reallocated, it's too large.
    assert_ne!(a.capacity(), prev_cap);
    assert_eq!(a.capacity(), num.capacity());
}

#[test]
fn test_buffer_push_pop_last() {
    let mut buf = Buffer::allocate(4);
    assert_eq!(buf.last(), None);
    buf.push(1);
    buf.push(2);
    assert_eq!(buf.len(), 2);
    assert_eq!(buf.last(), Some(2));
    assert_eq!(buf.get(0), 1);
    assert_eq!(buf.pop(), Some(2));
    assert_eq!(buf.pop(), Some(1));
    assert_eq!(buf.pop(), None);
}

#[test]
fn test_buffer_shrink_band() {
    // Far above the compact band: shrink reallocates to len + len/8 + 2.
    let mut buf = Buffer::allocate(100);
    for i in 0..4 {
        buf.push(i as u64 + 1);
    }
    buf.shrink();
    assert_eq!(buf.capacity(), 6);
    // Within the compact band: shrink keeps the allocation.
    let mut buf2 = Buffer::allocate(5);
    for i in 0..4 {
        buf2.push(i as u64 + 1);
    }
    buf2.shrink();
    assert_eq!(buf2.capacity(), 7);
}
