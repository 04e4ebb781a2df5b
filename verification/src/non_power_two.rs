//! Parser for general (non-power-of-two) radices: the digit string is
//! split into blocks of max_digits_per_word digits, each block is parsed
//! into one word, and the buffer is multiplied by the block base and
//! incremented block by block.

use vstd::prelude::*;
use vstd::arithmetic::power::{pow, lemma_pow_positive, lemma_pow1, lemma_pow_adds, lemma_pow_increases};
use vstd::arithmetic::div_mod::lemma_fundamental_div_mod;
use crate::arith::{seq_value, pow_base, lemma_seq_value_push, lemma_mul_pow0};
use crate::buffer::{Buffer, BUF_MAX_LEN, default_cap};
use crate::error::ParseError;
use crate::primitive::Word;
use crate::radix::{
    Digit, radix_in_range, bytes_are_digits, bytes_value, is_digit_code, digit_from_byte,
    radix_block_info, lemma_bytes_value_concat,
};
use crate::mul::mul_word_in_place;
use crate::add::add_word_in_place;
use crate::ubig::UBig;

verus! {

/// Parses the digit block s[from..to] into one word by iterated
/// acc = acc * radix + digit.
#[verifier::loop_isolation(false)]
fn parse_block(s: &[u8], from: usize, to: usize, radix: Digit) -> (r: Result<Word, ParseError>)
    requires
        from <= to <= s@.len(),
        radix_in_range(radix as int),
        pow(radix as int, (to - from) as nat) <= Word::MAX as int + 1,
    ensures
        match r {
            Ok(w) => bytes_are_digits(s@.subrange(from as int, to as int), radix as int) && w
                == bytes_value(s@.subrange(from as int, to as int), radix as int),
            Err(e) => e == ParseError::InvalidDigit && !bytes_are_digits(
                s@.subrange(from as int, to as int),
                radix as int,
            ),
        },
{
    let mut acc: Word = 0;
    let mut j = from;
    proof {
        assert(s@.subrange(from as int, from as int) =~= Seq::<u8>::empty());
        vstd::arithmetic::power::lemma_pow0(radix as int);
    }
    while j < to
        invariant
            from <= j <= to,
            bytes_are_digits(s@.subrange(from as int, j as int), radix as int),
            acc == bytes_value(s@.subrange(from as int, j as int), radix as int),
            acc < pow(radix as int, (j - from) as nat),
        decreases to - j,
    {
        let dig = match digit_from_byte(s[j], radix) {
            Some(dg) => dg,
            None => {
                proof {
                    assert(s@.subrange(from as int, to as int)[j - from] == s@[j as int]);
                }
                return Err(ParseError::InvalidDigit);
            },
        };
        proof {
            // acc * radix + dig stays below radix^(j - from + 1) <= the
            // block base, which fits a word.
            lemma_pow1(radix as int);
            lemma_pow_adds(radix as int, (j - from) as nat, 1);
            lemma_pow_increases(radix as nat, (j + 1 - from) as nat, (to - from) as nat);
            lemma_pow_positive(radix as int, (j - from) as nat);
            let p = pow(radix as int, (j - from) as nat);
            assert(acc * radix + dig <= (p - 1) * radix + (radix - 1)) by (nonlinear_arith)
                requires
                    acc <= p - 1,
                    (dig as int) < radix as int,
                    radix >= 2,
            ;
            assert((p - 1) * radix + (radix - 1) == p * radix - 1) by (nonlinear_arith);
            // The new digit extends the block value.
            let nsub = s@.subrange(from as int, j + 1);
            assert(nsub.drop_last() =~= s@.subrange(from as int, j as int));
            assert(nsub.last() == s@[j as int]);
            assert(bytes_are_digits(nsub, radix as int)) by {
                assert(forall|t: int|
                    0 <= t < nsub.len() ==> nsub[t] == if t < j - from {
                        s@.subrange(from as int, j as int)[t]
                    } else {
                        s@[j as int]
                    });
            }
        }
        acc = acc * (radix as Word) + (dig as Word);
        j = j + 1;
    }
    proof {
        assert(s@.subrange(from as int, j as int) =~= s@.subrange(from as int, to as int));
    }
    Ok(acc)
}

/// Parses the digits s[lo..] in a general radix: blocks of
/// max_digits_per_word digits (the most significant block possibly
/// shorter) accumulate into the buffer by multiply-by-block-base and add.
#[verifier::loop_isolation(false)]
#[verifier::rlimit(100)]
pub fn parse(s: &[u8], lo: usize, radix: Digit) -> (r: Result<UBig, ParseError>)
    requires
        radix_in_range(radix as int),
        lo < s@.len(),
        s@.len() <= usize::MAX / 64,
    ensures
        match r {
            Ok(u) => u.wf() && bytes_are_digits(
                s@.subrange(lo as int, s@.len() as int),
                radix as int,
            ) && u@ == bytes_value(s@.subrange(lo as int, s@.len() as int), radix as int),
            Err(e) => e == ParseError::InvalidDigit && !bytes_are_digits(
                s@.subrange(lo as int, s@.len() as int),
                radix as int,
            ),
        },
{
    let n = s.len();
    let d = n - lo;
    let (k, big_base) = radix_block_info(radix);
    proof {
        // k >= 2 because the block base is at least radix * radix.
        assert(k >= 2) by {
            lemma_pow1(radix as int);
            if k == 1 {
                assert(pow(radix as int, 1) == radix as int);
                assert((radix as int) * (radix as int) > radix as int) by (nonlinear_arith)
                    requires
                        radix >= 2,
                ;
            }
        }
        lemma_fundamental_div_mod(d as int, k as int);
    }
    let rem = d % k;
    let first = if rem == 0 {
        k
    } else {
        rem
    };
    let ghost total_t: int = if rem == 0 {
        d as int / k as int - 1
    } else {
        d as int / k as int
    };
    proof {
        // d - first == total_t * k, and total_t <= d / k.
        let q = d as int / k as int;
        assert(d == q * k + rem) by (nonlinear_arith)
            requires
                d == (k as int) * q + rem,
        ;
        if rem == 0 {
            assert(d as int >= k as int) by (nonlinear_arith)
                requires
                    d == q * k,
                    d >= 1,
                    k >= 2,
                    q >= 0,
            ;
            assert(d - first == (q - 1) * k) by (nonlinear_arith)
                requires
                    d == q * k,
                    first == k as int,
            ;
        }
        assert(total_t >= 0) by (nonlinear_arith)
            requires
                total_t * (k as int) == d - first,
                k >= 2,
                d - first >= 0,
        ;
        // The preallocation fits the buffer bound.
        assert(2 * q <= d) by (nonlinear_arith)
            requires
                d == q * k + rem,
                k >= 2,
                rem >= 0,
                q >= 0,
        ;
    }
    let num_words = 2 * (d / k) + 4;
    let mut buffer = Buffer::allocate(num_words);
    proof {
        lemma_pow_increases(radix as nat, (first - 0) as nat, k as nat);
    }
    let w0 = match parse_block(s, lo, lo + first, radix) {
        Ok(w) => w,
        Err(e) => {
            proof {
                lemma_block_invalid(s@, lo as int, lo as int, lo + first, n as int, radix as int);
            }
            return Err(ParseError::InvalidDigit);
        },
    };
    let ghost empty_words = buffer@;
    buffer.push(w0);
    proof {
        lemma_seq_value_push(empty_words, w0);
        lemma_mul_pow0(w0 as int);
    }
    let mut pos = lo + first;
    let ghost mut t: nat = 0nat;
    while pos < n
        invariant
            lo + first <= pos <= n == s@.len(),
            t <= total_t,
            pos == lo + first + t * k,
            d - first == total_t * k,
            total_t <= d as int / k as int,
            buffer.wf(),
            buffer.cap == default_cap(num_words as int),
            num_words <= buffer.cap,
            buffer@.len() <= 1 + 2 * t,
            buffer@.len() >= 1,
            bytes_are_digits(s@.subrange(lo as int, pos as int), radix as int),
            seq_value(buffer@) == bytes_value(s@.subrange(lo as int, pos as int), radix as int),
        decreases n - pos,
    {
        proof {
            // The remaining digits form a positive number of k-blocks.
            assert(n - pos == (total_t - t) * k) by (nonlinear_arith)
                requires
                    pos == lo + first + t * k,
                    d - first == total_t * k,
                    n == lo + d,
            ;
            assert(t < total_t && n - pos >= k) by (nonlinear_arith)
                requires
                    n - pos == (total_t - t) * k,
                    n - pos >= 1,
                    k >= 2,
                    t <= total_t,
            ;
            // Room for this block's two potential pushes.
            assert(2 * (t + 1) + 1 < num_words) by (nonlinear_arith)
                requires
                    t + 1 <= total_t <= d as int / k as int,
                    num_words == 2 * (d as int / k as int) + 4,
            ;
        }
        let w = match parse_block(s, pos, pos + k, radix) {
            Ok(w) => w,
            Err(e) => {
                proof {
                    lemma_block_invalid(
                        s@,
                        lo as int,
                        pos as int,
                        pos + k,
                        n as int,
                        radix as int,
                    );
                }
                return Err(ParseError::InvalidDigit);
            },
        };
        let ghost v0 = buffer@;
        let carry1 = mul_word_in_place(&mut buffer.words, big_base);
        proof {
            lemma_seq_value_push(buffer@, carry1);
        }
        if carry1 > 0 {
            buffer.push(carry1);
        }
        proof {
            // Either way the buffer is now worth big_base * old value.
            assert(seq_value(buffer@) == big_base * seq_value(v0)) by {
                if carry1 == 0 {
                    lemma_mul_pow0(0int);
                    assert(0 * pow_base(v0.len()) == 0) by (nonlinear_arith);
                }
            }
        }
        let ghost v1 = buffer@;
        let hi = buffer.len();
        let carry2 = add_word_in_place(&mut buffer.words, 0, hi, w);
        proof {
            assert(buffer@.subrange(0, hi as int) =~= buffer@);
            assert(v1.subrange(0, hi as int) =~= v1);
            lemma_seq_value_push(buffer@, carry2);
        }
        if carry2 > 0 {
            buffer.push(carry2);
        }
        proof {
            assert(seq_value(buffer@) == big_base * seq_value(v0) + w) by {
                if carry2 == 0 {
                    assert(0 * pow_base(v1.len()) == 0) by (nonlinear_arith);
                }
            }
            // Splice the block into the digit-string value.
            lemma_bytes_value_concat(s@.subrange(lo as int, pos + k), pos - lo, radix as int);
            assert(s@.subrange(lo as int, pos + k).subrange(0, pos - lo) =~= s@.subrange(
                lo as int,
                pos as int,
            ));
            assert(s@.subrange(lo as int, pos + k).subrange(pos - lo, (pos + k) - lo)
                =~= s@.subrange(pos as int, pos + k));
            assert(bytes_are_digits(s@.subrange(lo as int, pos + k), radix as int)) by {
                let whole = s@.subrange(lo as int, pos + k);
                assert(forall|j: int|
                    0 <= j < whole.len() ==> whole[j] == if j < pos - lo {
                        s@.subrange(lo as int, pos as int)[j]
                    } else {
                        s@.subrange(pos as int, pos + k)[j - (pos - lo)]
                    });
            }
            assert(t * k + k == (t + 1) * k) by (nonlinear_arith);
            assert((big_base as int) * (seq_value(v0) as int) == (seq_value(v0) as int) * (
            big_base as int)) by (nonlinear_arith);
        }
        pos = pos + k;
        proof {
            t = t + 1;
        }
    }
    proof {
        assert(s@.subrange(lo as int, pos as int) =~= s@.subrange(lo as int, n as int));
    }
    Ok(UBig::from_buffer(buffer))
}

/// An invalid digit inside one block makes the whole digit string invalid.
proof fn lemma_block_invalid(s: Seq<u8>, lo: int, from: int, to: int, n: int, radix: int)
    requires
        0 <= lo <= from <= to <= n <= s.len(),
        !bytes_are_digits(s.subrange(from, to), radix),
    ensures
        !bytes_are_digits(s.subrange(lo, n), radix),
{
    let sub = s.subrange(from, to);
    assert(exists|j: int| 0 <= j < sub.len() && !is_digit_code(sub[j] as int, radix)) by {
        if forall|j: int| 0 <= j < sub.len() ==> is_digit_code(#[trigger] sub[j] as int, radix) {
            assert(bytes_are_digits(sub, radix));
        }
    }
    let j = choose|j: int| 0 <= j < sub.len() && !is_digit_code(sub[j] as int, radix);
    assert(s.subrange(lo, n)[from - lo + j] == sub[j]);
}

} // verus!
