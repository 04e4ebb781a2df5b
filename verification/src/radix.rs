//! Radix metadata and digit decoding, with the specification of what a
//! digit string in a given radix is worth.

use vstd::prelude::*;
use vstd::arithmetic::power::{pow, lemma_pow_positive, lemma_pow1, lemma_pow_adds};
use vstd::arithmetic::power2::{pow2, lemma2_to64, lemma_pow2_adds, lemma_pow2_strictly_increases};
use crate::primitive::Word;

verus! {

/// Radix of conversions: 2 to 36.
pub type Digit = u32;

/// A radix the parser accepts.
pub open spec fn radix_in_range(radix: int) -> bool {
    2 <= radix <= 36
}

/// Value of an ASCII code point as a digit: '0'-'9' are 0-9, letters of
/// either case are 10-35, and anything else gets 36, invalid in every
/// radix.
pub open spec fn digit_value_code(code: int) -> int {
    if 48 <= code <= 57 {
        code - 48
    } else if 97 <= code <= 122 {
        code - 87
    } else if 65 <= code <= 90 {
        code - 55
    } else {
        36
    }
}

/// Is the code point a digit of the radix?
pub open spec fn is_digit_code(code: int, radix: int) -> bool {
    digit_value_code(code) < radix
}

/// Every byte of the sequence is a digit of the radix.
pub open spec fn bytes_are_digits(s: Seq<u8>, radix: int) -> bool {
    forall|i: int| 0 <= i < s.len() ==> is_digit_code(s[i] as int, radix)
}

/// Numeric value of a digit byte string, most significant digit first.
pub open spec fn bytes_value(s: Seq<u8>, radix: int) -> nat
    decreases s.len(),
{
    if s.len() == 0 {
        0
    } else {
        (bytes_value(s.drop_last(), radix) * radix + digit_value_code(s.last() as int)) as nat
    }
}

/// Every char of the sequence is a digit of the radix.
pub open spec fn chars_are_digits(s: Seq<char>, radix: int) -> bool {
    forall|i: int| 0 <= i < s.len() ==> is_digit_code(s[i] as u32 as int, radix)
}

/// Numeric value of a digit char string, most significant digit first.
pub open spec fn chars_value(s: Seq<char>, radix: int) -> nat
    decreases s.len(),
{
    if s.len() == 0 {
        0
    } else {
        (chars_value(s.drop_last(), radix) * radix + digit_value_code(s.last() as u32 as int)) as nat
    }
}

/// A byte sequence carrying the same ASCII codes as a char sequence has
/// the same digits and the same value.
pub proof fn lemma_bytes_chars_agree(s: Seq<char>, b: Seq<u8>, radix: int)
    requires
        b.len() == s.len(),
        forall|i: int| 0 <= i < s.len() ==> b[i] as int == s[i] as u32 as int,
    ensures
        bytes_value(b, radix) == chars_value(s, radix),
        bytes_are_digits(b, radix) <==> chars_are_digits(s, radix),
    decreases s.len(),
{
    if s.len() == 0 {
    } else {
        lemma_bytes_chars_agree(s.drop_last(), b.drop_last(), radix);
        assert(b.last() as int == s.last() as u32 as int);
        assert(bytes_are_digits(b, radix) <==> chars_are_digits(s, radix)) by {
            if bytes_are_digits(b, radix) {
                assert forall|i: int| 0 <= i < s.len() implies is_digit_code(
                    s[i] as u32 as int,
                    radix,
                ) by {
                    assert(is_digit_code(b[i] as int, radix));
                }
            }
            if chars_are_digits(s, radix) {
                assert forall|i: int| 0 <= i < b.len() implies is_digit_code(
                    b[i] as int,
                    radix,
                ) by {
                    assert(is_digit_code(s[i] as u32 as int, radix));
                }
            }
        }
    }
}

/// Splitting a digit string splits its value: the prefix is scaled by the
/// radix to the power of the suffix length.
pub proof fn lemma_bytes_value_concat(s: Seq<u8>, mid: int, radix: int)
    requires
        0 <= mid <= s.len(),
        radix >= 2,
    ensures
        bytes_value(s, radix) == bytes_value(s.subrange(0, mid), radix) * pow(
            radix,
            (s.len() - mid) as nat,
        ) + bytes_value(s.subrange(mid, s.len() as int), radix),
    decreases s.len() - mid,
{
    lemma_pow_positive(radix, (s.len() - mid) as nat);
    if mid == s.len() {
        lemma_pow1(radix);
        vstd::arithmetic::power::lemma_pow0(radix);
        assert(s.subrange(0, mid) =~= s);
        assert(s.subrange(mid, s.len() as int) =~= Seq::<u8>::empty());
        assert(bytes_value(s, radix) * 1 == bytes_value(s, radix)) by (nonlinear_arith);
    } else {
        let d = s.drop_last();
        lemma_bytes_value_concat(d, mid, radix);
        assert(d.subrange(0, mid) =~= s.subrange(0, mid));
        assert(d.subrange(mid, d.len() as int) =~= s.subrange(mid, s.len() as int).drop_last());
        let suf = s.subrange(mid, s.len() as int);
        assert(suf.last() == s.last());
        let pv = bytes_value(s.subrange(0, mid), radix) as int;
        let m = (d.len() - mid) as nat;
        lemma_pow1(radix);
        lemma_pow_adds(radix, m, 1);
        lemma_pow_positive(radix, m);
        let dc = digit_value_code(s.last() as int);
        // value(s) == value(d)*r + dc; expand value(d) and regroup.
        assert((pv * pow(radix, m) + bytes_value(suf.drop_last(), radix)) * radix == pv * (pow(
            radix,
            m,
        ) * radix) + bytes_value(suf.drop_last(), radix) * radix) by (nonlinear_arith);
    }
}

/// A string of valid digits is worth less than radix^length.
pub proof fn lemma_bytes_value_bound(s: Seq<u8>, radix: int)
    requires
        radix >= 2,
        bytes_are_digits(s, radix),
    ensures
        bytes_value(s, radix) < pow(radix, s.len()),
    decreases s.len(),
{
    if s.len() == 0 {
        vstd::arithmetic::power::lemma_pow0(radix);
    } else {
        let d = s.drop_last();
        assert(bytes_are_digits(d, radix)) by {
            assert(forall|i: int| 0 <= i < d.len() ==> d[i] == s[i]);
        }
        lemma_bytes_value_bound(d, radix);
        lemma_pow1(radix);
        lemma_pow_adds(radix, (s.len() - 1) as nat, 1);
        lemma_pow_positive(radix, (s.len() - 1) as nat);
        let dv = bytes_value(d, radix) as int;
        let p = pow(radix, (s.len() - 1) as nat);
        assert(dv * radix + (radix - 1) <= (p - 1) * radix + (radix - 1)) by (nonlinear_arith)
            requires
                dv <= p - 1,
                radix >= 2,
        ;
        assert((p - 1) * radix + (radix - 1) == p * radix - 1) by (nonlinear_arith);
    }
}

/// Leading zero digits do not change the value.
pub proof fn lemma_bytes_value_zeros(s: Seq<u8>, radix: int)
    requires
        radix >= 2,
        forall|i: int| 0 <= i < s.len() ==> s[i] == 48,
    ensures
        bytes_value(s, radix) == 0,
    decreases s.len(),
{
    if s.len() > 0 {
        assert(forall|i: int| 0 <= i < s.drop_last().len() ==> s.drop_last()[i] == 48);
        lemma_bytes_value_zeros(s.drop_last(), radix);
        assert(s.last() == 48);
        assert(digit_value_code(48) == 0);
        assert(0 * radix == 0) by (nonlinear_arith);
    }
}

/// The radices whose digits pack whole bits.
pub open spec fn radix_is_power_of_two(radix: int) -> bool {
    radix == 2 || radix == 4 || radix == 8 || radix == 16 || radix == 32
}

/// Bits per digit for a power-of-two radix.
pub open spec fn radix_log2(radix: int) -> nat {
    if radix == 2 {
        1
    } else if radix == 4 {
        2
    } else if radix == 8 {
        3
    } else if radix == 16 {
        4
    } else {
        5
    }
}

/// Is the radix in the accepted range?
pub fn is_radix_valid(radix: Digit) -> (r: bool)
    ensures
        r == radix_in_range(radix as int),
{
    radix >= 2 && radix <= 36
}

/// The radix must be in range; a radix outside 2..=36 is a programmer
/// error that the callers' contracts rule out.
pub fn check_radix_valid(radix: Digit)
    requires
        radix_in_range(radix as int),
{
}

/// Does the radix pack whole bits per digit?
pub fn is_power_of_two(radix: Digit) -> (r: bool)
    requires
        radix_in_range(radix as int),
    ensures
        r == radix_is_power_of_two(radix as int),
{
    let r = radix & (radix - 1) == 0;
    proof {
        assert(((radix & ((radix - 1) as u32)) == 0) == (radix == 2 || radix == 4 || radix == 8
            || radix == 16 || radix == 32)) by (bit_vector)
            requires
                2 <= radix <= 36,
        ;
    }
    r
}

/// Bits per digit of a power-of-two radix.
pub fn log2_of_radix(radix: Digit) -> (r: u32)
    requires
        radix_is_power_of_two(radix as int),
    ensures
        r == radix_log2(radix as int),
        1 <= r <= 5,
{
    match radix {
        2 => 1,
        4 => 2,
        8 => 3,
        16 => 4,
        _ => 5,
    }
}

/// Decodes an ASCII byte as a digit of the radix.
pub fn digit_from_byte(byte: u8, radix: Digit) -> (r: Option<Digit>)
    requires
        radix_in_range(radix as int),
    ensures
        match r {
            Some(d) => is_digit_code(byte as int, radix as int) && d == digit_value_code(
                byte as int,
            ),
            None => !is_digit_code(byte as int, radix as int),
        },
{
    let v: Digit = if 48 <= byte && byte <= 57 {
        (byte - 48) as Digit
    } else if 97 <= byte && byte <= 122 {
        (byte - 97) as Digit + 10
    } else if 65 <= byte && byte <= 90 {
        (byte - 65) as Digit + 10
    } else {
        36
    };
    if v < radix {
        Some(v)
    } else {
        None
    }
}

/// Largest power of the radix that fits in one word: returns (k, base)
/// with base == radix^k <= Word::MAX < radix^(k+1).
pub fn radix_block_info(radix: Digit) -> (r: (usize, Word))
    requires
        radix_in_range(radix as int),
    ensures
        r.1 == pow(radix as int, r.0 as nat),
        r.0 >= 1,
        radix as int * radix as int <= r.1 <= Word::MAX,
        (radix as int) * (r.1 as int) > Word::MAX,
{
    let r64: Word = radix as Word;
    proof {
        assert(4 <= r64 * r64 <= 36 * 36) by (nonlinear_arith)
            requires
                2 <= r64 <= 36,
        ;
        lemma_pow1(radix as int);
        lemma_pow_adds(radix as int, 1, 1);
        lemma2_to64();
    }
    let mut k: usize = 2;
    let mut base: Word = r64 * r64;
    while base <= Word::MAX / r64
        invariant
            2 <= radix <= 36,
            r64 == radix,
            base == pow(radix as int, k as nat),
            pow2(k as nat) <= base,
            radix as int * radix as int <= base <= Word::MAX,
            2 <= k <= 64,
        decreases Word::MAX - base,
    {
        proof {
            lemma_pow_positive(radix as int, k as nat);
            assert(base * r64 == pow(radix as int, (k + 1) as nat)) by {
                lemma_pow1(radix as int);
                lemma_pow_adds(radix as int, k as nat, 1);
                assert((radix as int) * (base as int) == (base as int) * (radix as int))
                    by (nonlinear_arith);
            }
            vstd::arithmetic::div_mod::lemma_fundamental_div_mod(
                Word::MAX as int,
                r64 as int,
            );
            assert(base * r64 <= (Word::MAX as int / r64 as int) * r64) by (nonlinear_arith)
                requires
                    base <= Word::MAX as int / r64 as int,
                    r64 >= 2,
            ;
            assert((Word::MAX as int / r64 as int) * r64 <= Word::MAX as int)
                by (nonlinear_arith)
                requires
                    Word::MAX as int == (Word::MAX as int / r64 as int) * r64 + (
                    Word::MAX as int % r64 as int),
                    Word::MAX as int % r64 as int >= 0,
            ;
            assert(base * 2 <= base * r64) by (nonlinear_arith)
                requires
                    r64 >= 2,
                    base >= 1,
            ;
            assert(k < 64) by {
                crate::arith::lemma_pow_base_one();
                if k > 64 {
                    lemma_pow2_strictly_increases(64, k as nat);
                }
            }
            lemma_pow2_adds(k as nat, 1);
            lemma2_to64();
            assert(pow2((k + 1) as nat) <= base * r64) by (nonlinear_arith)
                requires
                    pow2((k + 1) as nat) == pow2(k as nat) * 2,
                    pow2(k as nat) <= base,
                    r64 >= 2,
                    base >= 1,
            ;
        }
        base = base * r64;
        k = k + 1;
    }
    proof {
        assert((radix as int) * (base as int) == (base as int) * (radix as int))
            by (nonlinear_arith);
        assert(base * r64 > Word::MAX) by {
            if base > Word::MAX / r64 {
                assert(base >= Word::MAX / r64 + 1);
                assert((Word::MAX / r64 + 1) * r64 > Word::MAX) by (nonlinear_arith)
                    requires
                        r64 >= 2,
                        Word::MAX / r64 == ((Word::MAX as int) / (r64 as int)),
                ;
                assert(base * r64 >= (Word::MAX / r64 + 1) * r64) by (nonlinear_arith)
                    requires
                        base >= Word::MAX / r64 + 1,
                        r64 >= 2,
                ;
            }
        }
    }
    (k, base)
}


} // verus!
