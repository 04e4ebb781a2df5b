//! Parser for power-of-two radices: each digit contributes exactly
//! log2(radix) bits, packed from the least significant end into words.

use vstd::prelude::*;
use vstd::arithmetic::power::{pow, lemma_pow0, lemma_pow1, lemma_pow_adds};
use vstd::arithmetic::power2::{
    pow2, lemma2_to64, lemma_pow2_adds, lemma_pow2_subtracts, lemma_pow2_strictly_increases,
};
use vstd::arithmetic::div_mod::lemma_fundamental_div_mod;
use crate::arith::{seq_value, pow_base, word_base, lemma_pow_base_one, lemma_seq_value_push};
use crate::buffer::{Buffer, default_cap};
use crate::error::ParseError;
use crate::primitive::{Word, WORD_BASE_U128};
use crate::radix::{
    Digit, radix_in_range, radix_is_power_of_two, radix_log2, bytes_are_digits, bytes_value,
    digit_value_code, is_digit_code, log2_of_radix, digit_from_byte, lemma_bytes_value_concat,
};
use crate::ubig::UBig;

verus! {

/// A power of a power-of-two radix is the power of two with multiplied
/// exponents.
proof fn lemma_pow_pow2(k: nat, m: nat)
    ensures
        pow(pow2(k) as int, m) == pow2(k * m),
    decreases m,
{
    if m == 0 {
        lemma_pow0(pow2(k) as int);
        lemma2_to64();
        assert(k * 0 == 0) by (nonlinear_arith);
    } else {
        lemma_pow_pow2(k, (m - 1) as nat);
        lemma_pow1(pow2(k) as int);
        lemma_pow_adds(pow2(k) as int, 1, (m - 1) as nat);
        lemma_pow2_adds(k, k * (m - 1) as nat);
        assert(k * m == k + k * (m - 1)) by (nonlinear_arith)
            requires
                m >= 1,
        ;
    }
}

/// Words needed for d digits of k bits each: the preallocation leaves
/// room for the final partial word.
proof fn lemma_parse_capacity(d: int, k: int)
    requires
        d >= 0,
        1 <= k <= 5,
    ensures
        64 * ((d / 64) * k + ((d % 64) * k) / 64 + 2) >= k * d + 65,
{
    lemma_fundamental_div_mod(d, 64);
    let q = d / 64;
    let s0 = d % 64;
    lemma_fundamental_div_mod(s0 * k, 64);
    let q2 = (s0 * k) / 64;
    let r2 = (s0 * k) % 64;
    assert(k * d == 64 * (q * k) + s0 * k) by (nonlinear_arith)
        requires
            d == 64 * q + s0,
    ;
    assert(64 * (q * k + q2 + 2) == 64 * (q * k) + 64 * q2 + 128);
    assert(s0 * k == 64 * q2 + r2);
}

/// Parses the digits s[lo..] in a power-of-two radix, packing bits from
/// the least significant end and normalizing the resulting buffer.
#[verifier::loop_isolation(false)]
#[verifier::rlimit(100)]
pub fn parse(s: &[u8], lo: usize, radix: Digit) -> (r: Result<UBig, ParseError>)
    requires
        radix_in_range(radix as int),
        radix_is_power_of_two(radix as int),
        lo <= s@.len(),
        s@.len() <= usize::MAX / 8,
    ensures
        match r {
            Ok(u) => u.wf() && bytes_are_digits(
                s@.subrange(lo as int, s@.len() as int),
                radix as int,
            ) && u@ == bytes_value(s@.subrange(lo as int, s@.len() as int), radix as int),
            Err(e) => e == ParseError::InvalidDigit && !bytes_are_digits(
                s@.subrange(lo as int, s@.len() as int),
                radix as int,
            ),
        },
{
    let n = s.len();
    let k32 = log2_of_radix(radix);
    let k = k32 as usize;
    let d = n - lo;
    proof {
        assert((d as int / 64) * k <= (d as int / 64) * 5 <= (usize::MAX as int / 512) * 5)
            by (nonlinear_arith)
            requires
                1 <= k <= 5,
                0 <= d as int / 64 <= usize::MAX as int / 512,
        ;
        assert(((d as int % 64) * k) / 64 <= 5);
        lemma_parse_capacity(d as int, k as int);
    }
    let num_words = (d / 64) * k + ((d % 64) * k) / 64 + 2;
    let mut buffer = Buffer::allocate(num_words);
    let mut acc: u128 = 0;
    let mut mult: u128 = 1;
    let ghost mut bits: nat = 0nat;
    let mut i = n;
    proof {
        lemma_pow_base_one();
        lemma2_to64();
        assert(s@.subrange(n as int, n as int) =~= Seq::<u8>::empty());
        assert(0 * pow_base(0) == 0) by (nonlinear_arith);
    }
    while i > lo
        invariant
            lo <= i <= n == s@.len(),
            mult == pow2(bits),
            bits < 64,
            acc < mult,
            64 * buffer@.len() + bits == k * (n - i),
            buffer.wf(),
            buffer.cap == default_cap(num_words as int),
            num_words <= buffer.cap,
            bytes_are_digits(s@.subrange(i as int, n as int), radix as int),
            bytes_value(s@.subrange(i as int, n as int), radix as int) == seq_value(buffer@) + (
            acc as nat) * pow_base(buffer@.len()),
        decreases i,
    {
        let i2 = i - 1;
        let dig = match digit_from_byte(s[i2], radix) {
            Some(dg) => dg,
            None => {
                proof {
                    assert(s@.subrange(lo as int, n as int)[i2 - lo] == s@[i2 as int]);
                    assert(!is_digit_code(
                        s@.subrange(lo as int, n as int)[i2 - lo] as int,
                        radix as int,
                    ));
                }
                return Err(ParseError::InvalidDigit);
            },
        };
        proof {
            // Peel the new most significant digit off the processed suffix.
            let suf = s@.subrange(i2 as int, n as int);
            lemma_bytes_value_concat(suf, 1, radix as int);
            assert(suf.subrange(1, suf.len() as int) =~= s@.subrange(i as int, n as int));
            assert(suf.subrange(0, 1).drop_last() =~= Seq::<u8>::empty());
            let one = suf.subrange(0, 1);
            assert(one.len() == 1);
            assert(one.last() == one[0] && one[0] == s@[i2 as int]);
            assert(one.drop_last() =~= Seq::<u8>::empty());
            assert(bytes_value(one.drop_last(), radix as int) == 0);
            assert(0 * (radix as int) == 0) by (nonlinear_arith);
            assert(bytes_value(one, radix as int) == digit_value_code(s@[i2 as int] as int));
            assert(k * ((n - i2) as int) == k * ((n - i) as int) + k) by (nonlinear_arith)
                requires
                    (n - i2) as int == (n - i) as int + 1,
            ;
            // radix^(n - i) == 2^(k (n - i)) == pow_base(len) * mult.
            assert(radix == pow2(radix_log2(radix as int)));
            lemma_pow_pow2(k as nat, (n - i) as nat);
            lemma_pow2_adds(64 * buffer@.len(), bits);
            assert(pow_base(buffer@.len()) == pow2(64 * buffer@.len()));
            // The accumulator keeps room: acc + dig * mult < radix * mult.
            assert(acc + dig * mult < (radix as u128) * mult) by (nonlinear_arith)
                requires
                    acc < mult,
                    (dig as int) < radix as int,
                    mult >= 1,
            ;
            lemma_pow2_strictly_increases(bits, 64);
            lemma_pow2_adds(bits, radix_log2(radix as int));
            assert((radix as u128) * mult == pow2(bits + radix_log2(radix as int)))
                by (nonlinear_arith)
                requires
                    mult == pow2(bits),
                    radix as u128 == pow2(radix_log2(radix as int)),
                    pow2(bits + radix_log2(radix as int)) == pow2(bits) * pow2(
                        radix_log2(radix as int),
                    ),
            ;
            lemma2_to64();
            vstd::arithmetic::power2::lemma2_to64_rest();
            assert(mult <= 0x8000_0000_0000_0000) by {
                if bits < 63 {
                    lemma_pow2_strictly_increases(bits, 63);
                }
            }
            assert((radix as u128) * mult <= 32 * 0x8000_0000_0000_0000u128) by (nonlinear_arith)
                requires
                    radix as u128 <= 32,
                    0 <= mult <= 0x8000_0000_0000_0000u128,
            ;
            // The new digit joins the value identity.
            assert((digit_value_code(s@[i2 as int] as int) * pow2((k * (n - i)) as nat) + (seq_value(
                buffer@,
            ) + (acc as nat) * pow_base(buffer@.len()))) == seq_value(buffer@) + ((acc + dig
                * mult) as nat) * pow_base(buffer@.len())) by (nonlinear_arith)
                requires
                    pow2((k * (n - i)) as nat) == pow_base(buffer@.len()) * mult,
                    dig == digit_value_code(s@[i2 as int] as int),
                    acc as nat + (dig as nat) * (mult as nat) == ((acc + dig * mult) as nat),
            ;
        }
        proof {
            assert(mult * (radix as u128) == (radix as u128) * mult) by (nonlinear_arith);
        }
        acc = acc + (dig as u128) * mult;
        mult = mult * (radix as u128);
        proof {
            bits = bits + k as nat;
        }
        if mult >= WORD_BASE_U128 {
            proof {
                assert(bits >= 64) by {
                    if bits < 64 {
                        lemma_pow2_strictly_increases(bits, 64);
                    }
                }
                lemma_pow2_subtracts(64, bits);
                assert(pow2(64) == WORD_BASE_U128);
                lemma_fundamental_div_mod(acc as int, WORD_BASE_U128 as int);
                // Room for the push.
                lemma_parse_capacity(d as int, k as int);
                assert(64 * buffer@.len() + bits == k * (n - i2));
                assert(k * (n - i2) <= k * d) by (nonlinear_arith)
                    requires
                        n - i2 <= d,
                        k >= 1,
                ;
            }
            let low = (acc % WORD_BASE_U128) as u64;
            let ghost prev = buffer@;
            buffer.push(low);
            proof {
                lemma_seq_value_push(prev, low);
                lemma_pow_base_one();
                crate::arith::lemma_pow_base_adds(prev.len(), 1);
                // Splitting acc at the word base keeps the value identity.
                assert(seq_value(prev) + (acc as nat) * pow_base(prev.len()) == seq_value(
                    buffer@,
                ) + ((acc / WORD_BASE_U128) as nat) * pow_base(buffer@.len())) by (nonlinear_arith)
                    requires
                        acc as int == word_base() * ((acc / WORD_BASE_U128) as int) + (low as int),
                        seq_value(buffer@) == seq_value(prev) + (low as nat) * pow_base(
                            prev.len(),
                        ),
                        pow_base(buffer@.len()) == pow_base(prev.len()) * word_base(),
                        buffer@.len() == prev.len() + 1,
                ;
                // The shifted accumulator stays below the shifted multiplier.
                lemma_pow2_adds((bits - 64) as nat, 64);
                assert(mult == (mult / WORD_BASE_U128) * WORD_BASE_U128) by {
                    assert(pow2(bits) == pow2((bits - 64) as nat) * pow2(64));
                    assert(mult / WORD_BASE_U128 == pow2((bits - 64) as nat));
                }
                assert((acc / WORD_BASE_U128) < mult / WORD_BASE_U128) by (nonlinear_arith)
                    requires
                        acc < mult,
                        mult == (mult / WORD_BASE_U128) * WORD_BASE_U128,
                        acc / WORD_BASE_U128 == ((acc as int) / (WORD_BASE_U128 as int)),
                        acc as int == WORD_BASE_U128 * ((acc as int) / (WORD_BASE_U128 as int)) + (
                        acc as int % (WORD_BASE_U128 as int)),
                        0 <= acc as int % (WORD_BASE_U128 as int),
                        WORD_BASE_U128 > 0,
                ;
            }
            acc = acc / WORD_BASE_U128;
            mult = mult / WORD_BASE_U128;
            proof {
                bits = (bits - 64) as nat;
            }
        }
        i = i2;
        proof {
            assert(bytes_are_digits(s@.subrange(i as int, n as int), radix as int)) by {
                let cur = s@.subrange(i as int, n as int);
                assert(forall|j: int|
                    0 <= j < cur.len() ==> cur[j] == if j == 0 {
                        s@[i as int]
                    } else {
                        s@.subrange(i + 1, n as int)[j - 1]
                    });
            }
        }
    }
    proof {
        assert(acc < word_base()) by {
            if bits < 64 {
                lemma_pow2_strictly_increases(bits, 64);
            }
        }
        // Room for the final push.
        lemma_parse_capacity(d as int, k as int);
        assert(k * (n - lo) <= k * d) by (nonlinear_arith)
            requires
                n - lo <= d,
                k >= 1,
        ;
    }
    let ghost prev = buffer@;
    buffer.push(acc as u64);
    proof {
        lemma_seq_value_push(prev, acc as u64);
    }
    Ok(UBig::from_buffer(buffer))
}

} // verus!
