//! Laws relating the parser's specification functions: formatting a
//! number and parsing it back, radix equivalence, leading zeros, and sign
//! handling.

use vstd::prelude::*;
use vstd::arithmetic::div_mod::lemma_fundamental_div_mod;
use crate::radix::{
    bytes_value, bytes_are_digits, digit_value_code, is_digit_code, lemma_bytes_value_concat,
    lemma_bytes_value_zeros,
};
use crate::parse::{strip_sign, sign_of};
use crate::sign::Sign;

verus! {

/// The ASCII byte of a digit value: '0'-'9' then lowercase letters.
pub open spec fn digit_to_byte(v: int) -> u8 {
    if v < 10 {
        (48 + v) as u8
    } else {
        (87 + v) as u8
    }
}

/// The digit string of n in the given radix: most significant digit
/// first, no leading zeros, lowercase letters; zero is "0".
pub open spec fn digits_of(n: nat, radix: int) -> Seq<u8>
    decreases n,
    when radix >= 2
    via digits_of_decreases
{
    if radix < 2 {
        Seq::empty()
    } else if n < radix {
        seq![digit_to_byte(n as int)]
    } else {
        digits_of(n / (radix as nat), radix).push(digit_to_byte((n % (radix as nat)) as int))
    }
}

#[via_fn]
proof fn digits_of_decreases(n: nat, radix: int) {
    if radix >= 2 && n >= radix {
        lemma_fundamental_div_mod(n as int, radix);
        assert(n / (radix as nat) < n) by (nonlinear_arith)
            requires
                n as int == radix * ((n as int) / radix) + (n as int) % radix,
                0 <= (n as int) % radix < radix,
                radix >= 2,
                n >= radix,
                n / (radix as nat) == (n as int) / radix,
        ;
    }
}

/// Parse/format round trip: for every n and radix in range, the digit
/// string of n consists of valid digits and parses back to n.
pub proof fn lemma_parse_format_roundtrip(n: nat, radix: int)
    requires
        2 <= radix <= 36,
    ensures
        digits_of(n, radix).len() > 0,
        bytes_are_digits(digits_of(n, radix), radix),
        bytes_value(digits_of(n, radix), radix) == n,
    decreases n,
{
    if n < radix {
        let b = digit_to_byte(n as int);
        let s = seq![b];
        assert(s.drop_last() =~= Seq::<u8>::empty());
        assert(s.last() == b);
        if n < 10 {
            assert(b as int == 48 + n);
        } else {
            assert(b as int == 87 + n);
        }
        assert(digit_value_code(b as int) == n);
        assert(bytes_value(s.drop_last(), radix) == 0);
        assert(0 * radix == 0) by (nonlinear_arith);
        assert(bytes_value(s, radix) == n);
    } else {
        let rn = radix as nat;
        lemma_fundamental_div_mod(n as int, radix);
        assert(n / rn < n) by (nonlinear_arith)
            requires
                n as int == radix * ((n as int) / radix) + (n as int) % radix,
                0 <= (n as int) % radix < radix,
                radix >= 2,
                n >= radix,
                n / rn == (n as int) / radix,
        ;
        lemma_parse_format_roundtrip(n / rn, radix);
        let pre = digits_of(n / rn, radix);
        let b = digit_to_byte((n % rn) as int);
        let s = pre.push(b);
        assert(s.drop_last() =~= pre);
        assert(s.last() == b);
        assert(digit_value_code(b as int) == n % rn);
        assert(bytes_value(s, radix) == (bytes_value(pre, radix) * radix + (n % rn) as int)
            as nat);
        assert((n / rn) * rn + n % rn == n) by (nonlinear_arith)
            requires
                n as int == radix * ((n as int) / radix) + (n as int) % radix,
                rn == radix,
                n / rn == (n as int) / radix,
                n % rn == (n as int) % radix,
        ;
        assert(bytes_are_digits(s, radix)) by {
            assert(forall|i: int|
                0 <= i < s.len() ==> s[i] == if i < pre.len() {
                    pre[i]
                } else {
                    b
                });
        }
    }
}

/// Radix equivalence: a decimal digit string and the hexadecimal digit
/// string of its value parse to the same number.
pub proof fn lemma_radix_equivalence(s: Seq<u8>)
    requires
        bytes_are_digits(s, 10),
    ensures
        bytes_value(digits_of(bytes_value(s, 10), 16), 16) == bytes_value(s, 10),
{
    lemma_parse_format_roundtrip(bytes_value(s, 10), 16);
}

/// A run of k ASCII zeros.
pub open spec fn zero_bytes(k: nat) -> Seq<u8> {
    Seq::new(k, |i: int| 48u8)
}

/// Leading-zero invariance: prepending zeros changes neither the validity
/// nor the value of a digit string.
pub proof fn lemma_leading_zero_invariance(k: nat, s: Seq<u8>, radix: int)
    requires
        2 <= radix <= 36,
    ensures
        bytes_value(zero_bytes(k) + s, radix) == bytes_value(s, radix),
        bytes_are_digits(zero_bytes(k) + s, radix) <==> bytes_are_digits(s, radix),
{
    let w = zero_bytes(k) + s;
    lemma_bytes_value_concat(w, k as int, radix);
    assert(w.subrange(0, k as int) =~= zero_bytes(k));
    assert(w.subrange(k as int, w.len() as int) =~= s);
    lemma_bytes_value_zeros(zero_bytes(k), radix);
    assert(0 * vstd::arithmetic::power::pow(radix, s.len()) == 0) by (nonlinear_arith);
    assert(bytes_are_digits(w, radix) <==> bytes_are_digits(s, radix)) by {
        if bytes_are_digits(s, radix) {
            assert forall|i: int| 0 <= i < w.len() implies is_digit_code(w[i] as int, radix) by {
                if i < k {
                    assert(w[i] == 48);
                } else {
                    assert(w[i] == s[i - k]);
                }
            }
        }
        if bytes_are_digits(w, radix) {
            assert forall|i: int| 0 <= i < s.len() implies is_digit_code(s[i] as int, radix) by {
                assert(s[i] == w[i + k]);
            }
        }
    }
}

/// Sign parse: prepending '-' to an unsigned input makes the parsed sign
/// negative over the same digits; prepending '+' keeps it positive; an
/// input without a sign is positive.  (An input that itself starts with a
/// sign character is excluded: there the prepended sign hides it.)
pub proof fn lemma_sign_parse(s: Seq<char>)
    requires
        s.len() == 0 || (s[0] != '-' && s[0] != '+'),
    ensures
        sign_of(seq!['-'] + s) == Sign::Negative,
        strip_sign(seq!['-'] + s) =~= s,
        sign_of(seq!['+'] + s) == Sign::Positive,
        strip_sign(seq!['+'] + s) =~= s,
        sign_of(s) == Sign::Positive,
        strip_sign(s) =~= s,
{
    assert((seq!['-'] + s)[0] == '-');
    assert((seq!['+'] + s)[0] == '+');
}

} // verus!
