use ibig::IBig;
use ibig::ParseError;
use ibig::Repr;
use ibig::Sign;
use ibig::UBig;

#[test]
fn test_ubig_from_str_radix_base32() {
    assert_eq!(UBig::from_str_radix("+7ab", 32).unwrap(), UBig::from_word(7499));
    assert_eq!(UBig::from_str_radix("7ab", 32).unwrap(), UBig::from_word(7499));
    assert_eq!(UBig::from_str_radix("7AB", 32).unwrap(), UBig::from_word(7499));
}

#[test]
fn test_ubig_radix_prefix_hex() {
    assert_eq!(
        UBig::from_str_with_radix_prefix("0x1f").unwrap(),
        UBig::from_word(31)
    );
    assert_eq!(
        UBig::from_str_with_radix_prefix("+0x1f").unwrap(),
        UBig::from_word(31)
    );
}

#[test]
fn test_ubig_radix_prefix_octal_binary_decimal() {
    assert_eq!(
        UBig::from_str_with_radix_prefix("0o17").unwrap(),
        UBig::from_word(15)
    );
    assert_eq!(
        UBig::from_str_with_radix_prefix("0b101").unwrap(),
        UBig::from_word(5)
    );
    assert_eq!(
        UBig::from_str_with_radix_prefix("42").unwrap(),
        UBig::from_word(42)
    );
}

#[test]
fn test_ibig_from_str_radix_negative() {
    let x = IBig::from_str_radix("-7ab", 32).unwrap();
    assert_eq!(
        x,
        IBig::from_sign_magnitude(Sign::Negative, UBig::from_word(7499))
    );
    assert_eq!(x.sign, Sign::Negative);
    assert_eq!(x.magnitude, UBig::from_word(7499));
    let y = IBig::from_str_radix1("-7ab", 32).unwrap();
    assert_eq!(x, y);
}

#[test]
fn test_no_digits_error() {
    assert_eq!(UBig::from_str_radix("", 10), Err(ParseError::NoDigits));
    assert_eq!(UBig::from_str_radix("+", 10), Err(ParseError::NoDigits));
    assert_eq!(IBig::from_str_radix("-", 10), Err(ParseError::NoDigits));
    assert_eq!(
        UBig::from_str_with_radix_prefix("0x"),
        Err(ParseError::NoDigits)
    );
}

#[test]
fn test_invalid_digit_error() {
    assert_eq!(UBig::from_str_radix("12a", 10), Err(ParseError::InvalidDigit));
    assert_eq!(UBig::from_str_radix("2", 2), Err(ParseError::InvalidDigit));
    assert_eq!(
        IBig::from_str_radix("-12\u{20AC}", 10),
        Err(ParseError::InvalidDigit)
    );
    assert_eq!(
        UBig::from_str_with_radix_prefix("0b12"),
        Err(ParseError::InvalidDigit)
    );
}

#[test]
fn test_all_zeros_is_small_zero() {
    let u = UBig::from_str_radix("00000", 10).unwrap();
    assert_eq!(u, UBig::from_word(0));
    assert!(matches!(u.repr(), Repr::Small(0)));
}

#[test]
fn test_leading_zero_invariance() {
    assert_eq!(
        UBig::from_str_radix("0007ab", 32).unwrap(),
        UBig::from_str_radix("7ab", 32).unwrap()
    );
    assert_eq!(
        UBig::from_str_radix("000255", 10).unwrap(),
        UBig::from_str_radix("255", 10).unwrap()
    );
}

#[test]
fn test_radix_equivalence() {
    // The same number written in several radices.
    let dec = UBig::from_str_radix("255", 10).unwrap();
    assert_eq!(dec, UBig::from_str_radix("ff", 16).unwrap());
    assert_eq!(dec, UBig::from_str_radix("11111111", 2).unwrap());
    assert_eq!(dec, UBig::from_str_radix("377", 8).unwrap());
    let big_dec = UBig::from_str_radix("18446744073709551616", 10).unwrap();
    let big_hex = UBig::from_str_radix("10000000000000000", 16).unwrap();
    assert_eq!(big_dec, big_hex);
}

#[test]
fn test_sign_parse() {
    let pos = IBig::from_str_radix("12", 10).unwrap();
    let plus = IBig::from_str_radix("+12", 10).unwrap();
    let neg = IBig::from_str_radix("-12", 10).unwrap();
    assert_eq!(pos, plus);
    assert_eq!(pos.sign, Sign::Positive);
    assert_eq!(neg.sign, Sign::Negative);
    assert_eq!(neg.magnitude, pos.magnitude);
    let signed_prefix = IBig::from_str_with_radix_prefix("-0x1f").unwrap();
    assert_eq!(
        signed_prefix,
        IBig::from_sign_magnitude(Sign::Negative, UBig::from_word(31))
    );
}

#[test]
fn test_negative_zero_is_positive() {
    let z = IBig::from_str_radix("-0", 10).unwrap();
    assert_eq!(z.sign, Sign::Positive);
    assert_eq!(
        z,
        IBig::from_sign_magnitude(Sign::Positive, UBig::from_word(0))
    );
    assert_eq!(
        IBig::from_sign_magnitude(Sign::Negative, UBig::from_word(0)).sign,
        Sign::Positive
    );
}

#[test]
fn test_parse_format_roundtrip_samples() {
    // Digit strings produced independently, parsed in every radix kind.
    let n: u128 = 0xfedc_ba98_7654_3210_0123;
    // decimal
    let dec = format!("{}", n);
    // hexadecimal
    let hex = format!("{:x}", n);
    // binary
    let bin = format!("{:b}", n);
    let from_dec = UBig::from_str_radix(&dec, 10).unwrap();
    let from_hex = UBig::from_str_radix(&hex, 16).unwrap();
    let from_bin = UBig::from_str_radix(&bin, 2).unwrap();
    assert_eq!(from_dec, from_hex);
    assert_eq!(from_dec, from_bin);
}

#[test]
fn test_general_radix_multi_block() {
    // More digits than fit one word: exercises the block loop.
    let u = UBig::from_str_radix("340282366920938463463374607431768211456", 10).unwrap();
    // 2^128
    match u.repr() {
        Repr::Small(_) => panic!("2^128 stored inline"),
        Repr::Large(b) => {
            assert_eq!(b.len(), 3);
            assert_eq!(b.get(0), 0);
            assert_eq!(b.get(1), 0);
            assert_eq!(b.get(2), 1);
        }
    }
}
