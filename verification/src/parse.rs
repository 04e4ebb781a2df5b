//! Parsing numbers from strings: sign handling, radix prefixes, zero
//! stripping, and dispatch to the power-of-two or general radix parser.

use vstd::prelude::*;
use vstd::string::StrSliceExecFns;
use vstd::arithmetic::power::pow;
use crate::error::ParseError;
use crate::ibig::IBig;
use crate::non_power_two;
use crate::power_two;
use crate::radix::{
    self, Digit, radix_in_range, bytes_are_digits, bytes_value, chars_are_digits, chars_value,
    digit_value_code, is_digit_code, lemma_bytes_chars_agree, lemma_bytes_value_concat,
    lemma_bytes_value_zeros,
};
use crate::sign::Sign;
use crate::ubig::UBig;

verus! {

/// The input with one leading '+' removed.
pub open spec fn strip_plus(s: Seq<char>) -> Seq<char> {
    if s.len() > 0 && s[0] == '+' {
        s.subrange(1, s.len() as int)
    } else {
        s
    }
}

/// The sign announced by a leading '-'.
pub open spec fn sign_of(s: Seq<char>) -> Sign {
    if s.len() > 0 && s[0] == '-' {
        Sign::Negative
    } else {
        Sign::Positive
    }
}

/// The input with one leading '+' or '-' removed.
pub open spec fn strip_sign(s: Seq<char>) -> Seq<char> {
    if s.len() > 0 && (s[0] == '-' || s[0] == '+') {
        s.subrange(1, s.len() as int)
    } else {
        s
    }
}

/// The radix announced by a 0b / 0o / 0x prefix; decimal without one.
pub open spec fn prefix_radix(s: Seq<char>) -> int {
    if s.len() >= 2 && s[0] == '0' && s[1] == 'b' {
        2
    } else if s.len() >= 2 && s[0] == '0' && s[1] == 'o' {
        8
    } else if s.len() >= 2 && s[0] == '0' && s[1] == 'x' {
        16
    } else {
        10
    }
}

/// The input with its radix prefix removed.
pub open spec fn strip_prefix_radix(s: Seq<char>) -> Seq<char> {
    if prefix_radix(s) != 10 {
        s.subrange(2, s.len() as int)
    } else {
        s
    }
}

/// What every string parser returns: the digit part decides between a
/// value, NoDigits and InvalidDigit.
pub open spec fn parse_result_ok(
    r: Result<UBig, ParseError>,
    body: Seq<char>,
    radix: int,
) -> bool {
    match r {
        Ok(u) => u.wf() && body.len() > 0 && chars_are_digits(body, radix) && u@ == chars_value(
            body,
            radix,
        ),
        Err(ParseError::NoDigits) => body.len() == 0,
        Err(ParseError::InvalidDigit) => body.len() > 0 && !chars_are_digits(body, radix),
    }
}

/// The ASCII bytes of the string, or None when some char is beyond ASCII.
fn ascii_bytes(src: &str) -> (r: Option<Vec<u8>>)
    ensures
        match r {
            Some(b) => b@.len() == src@.len() && forall|i: int|
                0 <= i < src@.len() ==> b@[i] as int == src@[i] as u32 as int,
            None => exists|i: int| 0 <= i < src@.len() && (src@[i] as u32) > 127,
        },
{
    let n = src.unicode_len();
    let mut b: Vec<u8> = Vec::new();
    let mut i: usize = 0;
    while i < n
        invariant
            i <= n == src@.len(),
            b@.len() == i,
            forall|j: int| 0 <= j < i ==> b@[j] as int == src@[j] as u32 as int,
        decreases n - i,
    {
        let c = src.get_char(i);
        let cu = c as u32;
        if cu > 127 {
            return None;
        }
        b.push(cu as u8);
        proof {
            assert((cu as u8) as int == cu as int) by (bit_vector)
                requires
                    cu <= 127,
            ;
        }
        i = i + 1;
    }
    Some(b)
}

/// Byte suffixes carrying the codes of a char suffix have the same digit
/// validity and value.
proof fn lemma_suffix_agree(s: Seq<char>, b: Seq<u8>, start: int, radix: int)
    requires
        b.len() == s.len(),
        forall|i: int| 0 <= i < s.len() ==> b[i] as int == s[i] as u32 as int,
        0 <= start <= s.len(),
    ensures
        bytes_value(b.subrange(start, b.len() as int), radix) == chars_value(
            s.subrange(start, s.len() as int),
            radix,
        ),
        bytes_are_digits(b.subrange(start, b.len() as int), radix) <==> chars_are_digits(
            s.subrange(start, s.len() as int),
            radix,
        ),
{
    let bs = b.subrange(start, b.len() as int);
    let cs = s.subrange(start, s.len() as int);
    assert(forall|i: int| 0 <= i < cs.len() ==> bs[i] as int == cs[i] as u32 as int);
    lemma_bytes_chars_agree(cs, bs, radix);
}

/// A char beyond ASCII is not a digit, so the whole body is invalid.
proof fn lemma_non_ascii_invalid(body: Seq<char>, j: int, radix: int)
    requires
        0 <= j < body.len(),
        (body[j] as u32) > 127,
        radix <= 36,
    ensures
        body.len() > 0,
        !chars_are_digits(body, radix),
{
    assert(digit_value_code(body[j] as u32 as int) == 36);
}

impl UBig {
    /// Converts an unsigned byte string to UBig: rejects an empty digit
    /// run, strips leading zeros, and dispatches on the radix kind.
    #[verifier::loop_isolation(false)]
    pub fn from_bytes_radix_no_sign(strbytes: &[u8], numindex: usize, radix: Digit) -> (r: Result<
        UBig,
        ParseError,
    >)
        requires
            radix_in_range(radix as int),
            numindex <= strbytes@.len(),
            strbytes@.len() <= usize::MAX / 64,
        ensures
            ({
                let digits = strbytes@.subrange(numindex as int, strbytes@.len() as int);
                match r {
                    Ok(u) => u.wf() && digits.len() > 0 && bytes_are_digits(digits, radix as int)
                        && u@ == bytes_value(digits, radix as int),
                    Err(ParseError::NoDigits) => digits.len() == 0,
                    Err(ParseError::InvalidDigit) => digits.len() > 0 && !bytes_are_digits(
                        digits,
                        radix as int,
                    ),
                }
            }),
    {
        let n = strbytes.len();
        let ghost digits = strbytes@.subrange(numindex as int, n as int);
        if numindex == n {
            return Err(ParseError::NoDigits);
        }
        let mut idx = numindex;
        while idx < n && strbytes[idx] == 48
            invariant
                numindex <= idx <= n,
                forall|j: int| numindex <= j < idx ==> strbytes@[j] == 48,
            decreases n - idx,
        {
            idx = idx + 1;
        }
        proof {
            // The stripped zeros are valid digits worth nothing.
            lemma_bytes_value_concat(digits, idx - numindex, radix as int);
            assert(digits.subrange(0, idx - numindex) =~= strbytes@.subrange(
                numindex as int,
                idx as int,
            ));
            assert(digits.subrange(idx - numindex, digits.len() as int) =~= strbytes@.subrange(
                idx as int,
                n as int,
            ));
            lemma_bytes_value_zeros(strbytes@.subrange(numindex as int, idx as int), radix as int);
            assert(0 * pow(radix as int, (n - idx) as nat) == 0) by (nonlinear_arith);
            assert(bytes_are_digits(digits, radix as int) <==> bytes_are_digits(
                strbytes@.subrange(idx as int, n as int),
                radix as int,
            )) by {
                let tail = strbytes@.subrange(idx as int, n as int);
                if bytes_are_digits(tail, radix as int) {
                    assert forall|j: int| 0 <= j < digits.len() implies is_digit_code(
                        digits[j] as int,
                        radix as int,
                    ) by {
                        if j < idx - numindex {
                            assert(digits[j] == 48);
                        } else {
                            assert(digits[j] == tail[j - (idx - numindex)]);
                        }
                    }
                }
                if bytes_are_digits(digits, radix as int) {
                    assert forall|j: int| 0 <= j < tail.len() implies is_digit_code(
                        tail[j] as int,
                        radix as int,
                    ) by {
                        assert(tail[j] == digits[j + (idx - numindex)]);
                    }
                }
            }
        }
        if idx == n {
            proof {
                assert(digits.subrange(idx - numindex, digits.len() as int)
                    =~= Seq::<u8>::empty());
            }
            return Ok(UBig::from_word(0));
        }
        if radix::is_power_of_two(radix) {
            power_two::parse(strbytes, idx, radix)
        } else {
            non_power_two::parse(strbytes, idx, radix)
        }
    }

    /// Convert an unsigned string (no sign prefix) in a given base to
    /// UBig.  The machine limit on the length keeps the parser's buffer
    /// arithmetic inside usize.
    pub fn from_str_radix_no_sign(src: &str, radix: Digit) -> (r: Result<UBig, ParseError>)
        requires
            radix_in_range(radix as int),
            src@.len() <= usize::MAX / 64,
        ensures
            parse_result_ok(r, src@, radix as int),
    {
        let bytes = match ascii_bytes(src) {
            Some(b) => b,
            None => {
                proof {
                    let j = choose|i: int| 0 <= i < src@.len() && (src@[i] as u32) > 127;
                    lemma_non_ascii_invalid(src@, j, radix as int);
                }
                return Err(ParseError::InvalidDigit);
            },
        };
        proof {
            assert(src@.subrange(0, src@.len() as int) =~= src@);
            assert(bytes@.subrange(0, bytes@.len() as int) =~= bytes@);
            lemma_suffix_agree(src@, bytes@, 0, radix as int);
        }
        UBig::from_bytes_radix_no_sign(bytes.as_slice(), 0, radix)
    }

    /// Convert a string in a given base to UBig.  The string may carry one
    /// leading '+'.
    pub fn from_str_radix(src: &str, radix: u32) -> (r: Result<UBig, ParseError>)
        requires
            radix_in_range(radix as int),
            src@.len() <= usize::MAX / 64,
        ensures
            parse_result_ok(r, strip_plus(src@), radix as int),
    {
        radix::check_radix_valid(radix);
        let rest = strip_plus_exec(src);
        UBig::from_str_radix_no_sign(rest, radix)
    }

    /// Convert an unsigned string with an optional radix prefix (0b, 0o,
    /// 0x; none means decimal) to UBig.
    pub fn from_str_with_radix_prefix_no_sign(src: &str) -> (r: Result<UBig, ParseError>)
        requires
            src@.len() <= usize::MAX / 64,
        ensures
            parse_result_ok(r, strip_prefix_radix(src@), prefix_radix(src@)),
    {
        let bytes = match ascii_bytes(src) {
            Some(b) => b,
            None => {
                proof {
                    let j = choose|i: int| 0 <= i < src@.len() && (src@[i] as u32) > 127;
                    let body = strip_prefix_radix(src@);
                    if prefix_radix(src@) != 10 {
                        assert(j >= 2) by {
                            assert(('0' as u32) <= 127 && ('b' as u32) <= 127 && ('o' as u32)
                                <= 127 && ('x' as u32) <= 127);
                        }
                        assert(body[j - 2] == src@[j]);
                        lemma_non_ascii_invalid(body, j - 2, prefix_radix(src@));
                    } else {
                        lemma_non_ascii_invalid(body, j, prefix_radix(src@));
                    }
                }
                return Err(ParseError::InvalidDigit);
            },
        };
        let sl = bytes.as_slice();
        let (start, radix): (usize, Digit) = if bytes.len() >= 2 && *vstd::slice::slice_index_get(
            sl,
            0,
        ) == 48 {
            let b1 = *vstd::slice::slice_index_get(sl, 1);
            if b1 == 98 {
                (2, 2)
            } else if b1 == 111 {
                (2, 8)
            } else if b1 == 120 {
                (2, 16)
            } else {
                (0, 10)
            }
        } else {
            (0, 10)
        };
        proof {
            if src@.len() >= 2 {
                vstd::utf8::char_u32_cast(src@[0], src@[0] as u32);
                vstd::utf8::char_u32_cast(src@[1], src@[1] as u32);
                vstd::utf8::char_u32_cast('0', 48);
                vstd::utf8::char_u32_cast('b', 98);
                vstd::utf8::char_u32_cast('o', 111);
                vstd::utf8::char_u32_cast('x', 120);
            }
            assert(radix as int == prefix_radix(src@));
            assert(strip_prefix_radix(src@) =~= src@.subrange(start as int, src@.len() as int));
            lemma_suffix_agree(src@, bytes@, start as int, radix as int);
        }
        UBig::from_bytes_radix_no_sign(sl, start, radix)
    }

    /// Convert a string with an optional radix prefix to UBig.  One '+'
    /// may precede the prefix.
    pub fn from_str_with_radix_prefix(src: &str) -> (r: Result<UBig, ParseError>)
        requires
            src@.len() <= usize::MAX / 64,
        ensures
            parse_result_ok(
                r,
                strip_prefix_radix(strip_plus(src@)),
                prefix_radix(strip_plus(src@)),
            ),
    {
        let rest = strip_plus_exec(src);
        UBig::from_str_with_radix_prefix_no_sign(rest)
    }
}

/// Strips one leading '+' from the string.
fn strip_plus_exec(src: &str) -> (r: &str)
    ensures
        r@ == strip_plus(src@),
        r@.len() <= src@.len(),
{
    let n = src.unicode_len();
    if n > 0 {
        let c = src.get_char(0);
        if c == '+' {
            src.substring_char(1, n)
        } else {
            proof {
                assert(src@.subrange(0, src@.len() as int) =~= src@);
            }
            src.substring_char(0, n)
        }
    } else {
        src
    }
}

/// Strips one leading '+' or '-' from the string and reports the sign.
fn strip_sign_exec(src: &str) -> (r: (Sign, &str))
    ensures
        r.1@ == strip_sign(src@),
        r.0 == sign_of(src@),
        r.1@.len() <= src@.len(),
{
    let n = src.unicode_len();
    if n > 0 {
        let c = src.get_char(0);
        if c == '-' {
            (Sign::Negative, src.substring_char(1, n))
        } else if c == '+' {
            (Sign::Positive, src.substring_char(1, n))
        } else {
            proof {
                assert(src@.subrange(0, src@.len() as int) =~= src@);
            }
            (Sign::Positive, src.substring_char(0, n))
        }
    } else {
        (Sign::Positive, src)
    }
}

/// What the signed string parsers return: sign and digits decide value
/// and errors.
pub open spec fn parse_signed_result_ok(r: Result<IBig, ParseError>, s: Seq<char>, radix: int) -> bool {
    let body = strip_sign(s);
    match r {
        Ok(x) => x.wf() && body.len() > 0 && chars_are_digits(body, radix) && x@ == sign_of(
            s,
        ).to_int() * chars_value(body, radix),
        Err(ParseError::NoDigits) => body.len() == 0,
        Err(ParseError::InvalidDigit) => body.len() > 0 && !chars_are_digits(body, radix),
    }
}

impl IBig {
    /// Convert a string in a given base to IBig, stripping the sign from
    /// the string before parsing the magnitude.
    pub fn from_str_radix1(src: &str, radix: u32) -> (r: Result<IBig, ParseError>)
        requires
            radix_in_range(radix as int),
            src@.len() <= usize::MAX / 64,
        ensures
            parse_signed_result_ok(r, src@, radix as int),
    {
        radix::check_radix_valid(radix);
        let (sign, rest) = strip_sign_exec(src);
        let mag = match UBig::from_str_radix_no_sign(rest, radix) {
            Ok(mag) => mag,
            Err(e) => {
                return Err(e);
            },
        };
        Ok(IBig::from_sign_magnitude(sign, mag))
    }

    /// Convert a string in a given base to IBig, finding the sign by
    /// inspecting the leading byte.
    pub fn from_str_radix(src: &str, radix: u32) -> (r: Result<IBig, ParseError>)
        requires
            radix_in_range(radix as int),
            src@.len() <= usize::MAX / 64,
        ensures
            parse_signed_result_ok(r, src@, radix as int),
    {
        radix::check_radix_valid(radix);
        let bytes = match ascii_bytes(src) {
            Some(b) => b,
            None => {
                proof {
                    let j = choose|i: int| 0 <= i < src@.len() && (src@[i] as u32) > 127;
                    let body = strip_sign(src@);
                    if src@.len() > 0 && (src@[0] == '-' || src@[0] == '+') {
                        assert(j >= 1) by {
                            assert(('+' as u32) <= 127 && ('-' as u32) <= 127);
                        }
                        assert(body[j - 1] == src@[j]);
                        lemma_non_ascii_invalid(body, j - 1, radix as int);
                    } else {
                        lemma_non_ascii_invalid(body, j, radix as int);
                    }
                }
                return Err(ParseError::InvalidDigit);
            },
        };
        let sl = bytes.as_slice();
        let (sign, numindex): (Sign, usize) = if bytes.len() >= 1 {
            let b0 = *vstd::slice::slice_index_get(sl, 0);
            if b0 == 45 {
                (Sign::Negative, 1)
            } else if b0 == 43 {
                (Sign::Positive, 1)
            } else {
                (Sign::Positive, 0)
            }
        } else {
            (Sign::Positive, 0)
        };
        proof {
            if src@.len() > 0 {
                vstd::utf8::char_u32_cast(src@[0], src@[0] as u32);
                vstd::utf8::char_u32_cast('-', 45);
                vstd::utf8::char_u32_cast('+', 43);
            }
            assert(sign == sign_of(src@));
            assert(strip_sign(src@) =~= src@.subrange(numindex as int, src@.len() as int));
            lemma_suffix_agree(src@, bytes@, numindex as int, radix as int);
        }
        let mag = match UBig::from_bytes_radix_no_sign(sl, numindex, radix) {
            Ok(mag) => mag,
            Err(e) => {
                return Err(e);
            },
        };
        Ok(IBig::from_sign_magnitude(sign, mag))
    }

    /// Convert a string with an optional radix prefix to IBig.  One '+' or
    /// '-' may precede the prefix.
    pub fn from_str_with_radix_prefix(src: &str) -> (r: Result<IBig, ParseError>)
        requires
            src@.len() <= usize::MAX / 64,
        ensures
            ({
                let body = strip_prefix_radix(strip_sign(src@));
                let radix = prefix_radix(strip_sign(src@));
                match r {
                    Ok(x) => x.wf() && body.len() > 0 && chars_are_digits(body, radix) && x@
                        == sign_of(src@).to_int() * chars_value(body, radix),
                    Err(ParseError::NoDigits) => body.len() == 0,
                    Err(ParseError::InvalidDigit) => body.len() > 0 && !chars_are_digits(
                        body,
                        radix,
                    ),
                }
            }),
    {
        let (sign, rest) = strip_sign_exec(src);
        let mag = match UBig::from_str_with_radix_prefix_no_sign(rest) {
            Ok(mag) => mag,
            Err(e) => {
                return Err(e);
            },
        };
        Ok(IBig::from_sign_magnitude(sign, mag))
    }
}

} // verus!
