use kaydle_primitives::error::{ErrorKind, ParseError};
use kaydle_primitives::number::{
    parse_number, BoundsError, IntBuilder, KdlInt, KdlNumber, NumberBuilder, Sign,
};

fn error(kind: ErrorKind, remaining: usize, fatal: bool) -> ParseError {
    ParseError { kind, remaining, fatal, contexts: Vec::new() }
}

fn number(input: &str) -> (KdlNumber, &str) {
    let (tail, value) = parse_number::<KdlNumber>(input).expect("parse error");
    (value, tail)
}

fn float_of(value: KdlNumber) -> f64 {
    match value {
        KdlNumber::Float(text) => text.parse().expect("no float"),
        other => panic!("{:?} is no float", other),
    }
}

#[test]
fn decimal() {
    assert_eq!(number("10 "), (KdlNumber::Unsigned(10), " "));
}

#[test]
fn negative() {
    assert_eq!(number("-10 "), (KdlNumber::Signed(-10), " "));
}

#[test]
fn underscores() {
    assert_eq!(number("1_000_000 "), (KdlNumber::Unsigned(1000000), " "));
}

#[test]
fn float() {
    let (value, tail) = number("-10.5 ");
    assert_eq!(tail, " ");
    assert_eq!(value, KdlNumber::Float(String::from("-10.5")));
    assert_eq!(float_of(value), -10.5);
}

#[test]
fn exponent() {
    let (value, tail) = number("10.5e3 ");
    assert_eq!(tail, " ");
    assert_eq!(float_of(value), 10500.0);
}

#[test]
fn hex() {
    assert_eq!(number("0xFF "), (KdlNumber::Unsigned(0xFF), " "));
}

#[test]
fn neg_hex() {
    assert_eq!(number("-0x0A "), (KdlNumber::Signed(-0x0A), " "));
}

#[test]
fn hex_underscore() {
    assert_eq!(number("0xFF_FF "), (KdlNumber::Unsigned(0xFFFF), " "));
}

#[test]
fn binary() {
    assert_eq!(number("0b00001111 "), (KdlNumber::Unsigned(15), " "));
}

#[test]
fn octal() {
    assert_eq!(number("-0o777_7 "), (KdlNumber::Signed(-0o7777), " "));
}

#[test]
fn number_round_trip() {
    assert_eq!(number("10"), (KdlNumber::Unsigned(10), ""));
    assert_eq!(number("-10"), (KdlNumber::Signed(-10), ""));
    assert_eq!(float_of(number("-10.5").0), -10.5);
    assert_eq!(float_of(number("10.5e3").0), 10500.0);
    assert_eq!(number("0xFF"), (KdlNumber::Unsigned(255), ""));
    assert_eq!(number("-0x0A"), (KdlNumber::Signed(-10), ""));
    assert_eq!(number("0b00001111"), (KdlNumber::Unsigned(15), ""));
    assert_eq!(number("-0o7777"), (KdlNumber::Signed(-4095), ""));
    assert_eq!(number("1_000_000"), (KdlNumber::Unsigned(1000000), ""));
}

#[test]
fn sign_decides_between_signed_and_unsigned() {
    assert_eq!(number("+10"), (KdlNumber::Unsigned(10), ""));
    assert_eq!(number("0"), (KdlNumber::Unsigned(0), ""));
    assert_eq!(number("-0"), (KdlNumber::Signed(0), ""));
    assert_eq!(number("+0x10"), (KdlNumber::Unsigned(16), ""));
    assert_eq!(number("-0x0"), (KdlNumber::Signed(0), ""));
    assert_eq!(number("-0b101"), (KdlNumber::Signed(-5), ""));
    assert_eq!(number("007"), (KdlNumber::Unsigned(7), ""));
}

#[test]
fn fraction_or_exponent_makes_a_float() {
    assert_eq!(number("1.0"), (KdlNumber::Float(String::from("1.0")), ""));
    assert_eq!(number("3e6"), (KdlNumber::Float(String::from("3e6")), ""));
    assert_eq!(number("3E6"), (KdlNumber::Float(String::from("3E6")), ""));
    assert_eq!(number("-10.5e7"), (KdlNumber::Float(String::from("-10.5e7")), ""));
    assert_eq!(number("1e-3 "), (KdlNumber::Float(String::from("1e-3")), " "));
    assert_eq!(number("1e+3 "), (KdlNumber::Float(String::from("1e+3")), " "));
    assert_eq!(number("+1.5"), (KdlNumber::Float(String::from("+1.5")), ""));
    assert_eq!(number("1_0.2_5e1_0x"), (KdlNumber::Float(String::from("10.25e10")), "x"));
    assert_eq!(float_of(number("3e6").0), 3000000.0);
    assert_eq!(float_of(number("1e-3").0), 0.001);
    assert_eq!(float_of(number("1_0.2_5e0_1").0), 102.5);
    assert_eq!(float_of(number("1e400").0), f64::INFINITY);
}

#[test]
fn digits_of_each_radix() {
    assert_eq!(number("0xabcdef"), (KdlNumber::Unsigned(0xabcdef), ""));
    assert_eq!(number("0xABCDEF"), (KdlNumber::Unsigned(0xabcdef), ""));
    assert_eq!(number("0x0123456789"), (KdlNumber::Unsigned(0x0123456789), ""));
    assert_eq!(number("0o01234567"), (KdlNumber::Unsigned(0o01234567), ""));
    assert_eq!(number("0b01"), (KdlNumber::Unsigned(1), ""));
    // The number ends where the digits of its radix end.
    assert_eq!(number("0b102"), (KdlNumber::Unsigned(2), "2"));
    assert_eq!(number("0o78"), (KdlNumber::Unsigned(7), "8"));
    assert_eq!(number("0xfg"), (KdlNumber::Unsigned(15), "g"));
    assert_eq!(number("12a"), (KdlNumber::Unsigned(12), "a"));
    assert_eq!(number("1-2"), (KdlNumber::Unsigned(1), "-2"));
    assert_eq!(number("1.5.5"), (KdlNumber::Float(String::from("1.5")), ".5"));
    // An upper-case prefix is none: the zero is a decimal number.
    assert_eq!(number("0XFF"), (KdlNumber::Unsigned(0), "XFF"));
}

#[test]
fn largest_and_smallest_integers() {
    assert_eq!(number("18446744073709551615"), (KdlNumber::Unsigned(u64::MAX), ""));
    assert_eq!(number("-9223372036854775808"), (KdlNumber::Signed(i64::MIN), ""));
    assert_eq!(number("000018446744073709551615"), (KdlNumber::Unsigned(u64::MAX), ""));
    assert_eq!(number("0xFFFF_FFFF_FFFF_FFFF"), (KdlNumber::Unsigned(u64::MAX), ""));
    assert_eq!(number("-0x8000_0000_0000_0000"), (KdlNumber::Signed(i64::MIN), ""));
    assert_eq!(number("0x0000_FFFF_FFFF_FFFF_FFFF"), (KdlNumber::Unsigned(u64::MAX), ""));
    assert_eq!(
        number("0b1111111111111111111111111111111111111111111111111111111111111111"),
        (KdlNumber::Unsigned(u64::MAX), "")
    );
    assert_eq!(number("0o1777777777777777777777"), (KdlNumber::Unsigned(u64::MAX), ""));
    assert_eq!(number("-0o1000000000000000000000"), (KdlNumber::Signed(i64::MIN), ""));
}

#[test]
fn integers_out_of_bounds() {
    assert_eq!(
        parse_number::<KdlNumber>("18446744073709551616 "),
        Err(error(ErrorKind::Bounds, 21, true))
    );
    assert_eq!(
        parse_number::<KdlNumber>("-9223372036854775809"),
        Err(error(ErrorKind::Bounds, 20, true))
    );
    assert_eq!(
        parse_number::<KdlNumber>("9_9_9_9_9_9_9_9_9_9_9_9_9_9_9_9_9_9_9_9_9"),
        Err(error(ErrorKind::Bounds, 41, true))
    );
    assert_eq!(
        parse_number::<KdlNumber>("0x1_0000_0000_0000_0000"),
        Err(error(ErrorKind::Bounds, 4, true))
    );
    assert_eq!(
        parse_number::<KdlNumber>("0x10000000000000000 "),
        Err(error(ErrorKind::Bounds, 18, true))
    );
    assert_eq!(
        parse_number::<KdlNumber>("-0x8000_0000_0000_0001"),
        Err(error(ErrorKind::Bounds, 4, true))
    );
    assert_eq!(
        parse_number::<KdlNumber>("0o2000000000000000000000"),
        Err(error(ErrorKind::Bounds, 22, true))
    );
}

#[test]
fn recognizing_checks_no_bounds() {
    assert_eq!(parse_number::<()>("18446744073709551616 "), Ok((" ", ())));
    assert_eq!(parse_number::<()>("-9223372036854775809"), Ok(("", ())));
    assert_eq!(parse_number::<()>("0x1_0000_0000_0000_0000;"), Ok((";", ())));
    assert_eq!(parse_number::<()>("10.5e3 "), Ok((" ", ())));
    assert_eq!(parse_number::<()>("1_000"), Ok(("", ())));
    let long = format!("1_{}", "0".repeat(100));
    assert_eq!(parse_number::<()>(&long), Ok(("", ())));
}

#[test]
fn recognizing_checks_the_grammar() {
    assert_eq!(parse_number::<()>("abc"), Err(error(ErrorKind::Digit, 3, false)));
    assert_eq!(parse_number::<()>("0x"), Err(error(ErrorKind::Digit, 0, true)));
    assert_eq!(parse_number::<()>("1.x"), Err(error(ErrorKind::Digit, 1, true)));
    assert_eq!(parse_number::<()>("1_"), Err(error(ErrorKind::Digit, 0, false)));
}

#[test]
fn a_text_with_separators_may_be_of_any_length() {
    // Without its separators the text fills the buffer of 64 bytes.
    let fits = format!("1_{}.5", "0".repeat(61));
    let (value, tail) = number(&fits);
    assert_eq!(tail, "");
    assert_eq!(value, KdlNumber::Float(format!("1{}.5", "0".repeat(61))));

    // One byte more, and more.
    for zeros in [62, 63, 100, 1000] {
        let long = format!("1_{}.5e1_0", "0".repeat(zeros));
        let (value, tail) = number(&long);
        assert_eq!(tail, "");
        assert_eq!(value, KdlNumber::Float(format!("1{}.5e10", "0".repeat(zeros))));
    }

    let long = format!("{}_1_2", "0".repeat(70));
    assert_eq!(number(&long), (KdlNumber::Unsigned(12), ""));
    let long = format!("-{}_1_2 ", "0".repeat(70));
    assert_eq!(number(&long), (KdlNumber::Signed(-12), " "));
    let long = format!("{}_18446744073709551615", "0".repeat(64));
    assert_eq!(number(&long), (KdlNumber::Unsigned(u64::MAX), ""));
    let long = format!("{}_18446744073709551616", "0".repeat(64));
    assert_eq!(
        parse_number::<KdlNumber>(&long),
        Err(error(ErrorKind::Bounds, long.len(), true))
    );
    let long = format!("0_{}", "_0".repeat(100));
    assert_eq!(parse_number::<KdlNumber>(&long), Err(error(ErrorKind::Digit, 200, false)));
    let long = format!("0{}", "_0".repeat(100));
    assert_eq!(number(&long), (KdlNumber::Unsigned(0), ""));

    let unseparated = format!("1{}.5", "0".repeat(80));
    let (value, tail) = number(&unseparated);
    assert_eq!(tail, "");
    assert_eq!(value, KdlNumber::Float(unseparated.clone()));
}

#[test]
fn what_is_no_number() {
    assert_eq!(parse_number::<KdlNumber>("abc"), Err(error(ErrorKind::Digit, 3, false)));
    assert_eq!(parse_number::<KdlNumber>(""), Err(error(ErrorKind::Digit, 0, false)));
    assert_eq!(parse_number::<KdlNumber>("-"), Err(error(ErrorKind::Digit, 0, false)));
    assert_eq!(parse_number::<KdlNumber>("+x"), Err(error(ErrorKind::Digit, 1, false)));
    assert_eq!(parse_number::<KdlNumber>(".5"), Err(error(ErrorKind::Digit, 2, false)));
    assert_eq!(parse_number::<KdlNumber>("_1"), Err(error(ErrorKind::Digit, 2, false)));
    assert_eq!(parse_number::<KdlNumber>("--1"), Err(error(ErrorKind::Digit, 2, false)));
}

#[test]
fn separators_stand_between_digits_one_at_a_time() {
    assert_eq!(number("1_2_3"), (KdlNumber::Unsigned(123), ""));
    assert_eq!(parse_number::<KdlNumber>("1_ "), Err(error(ErrorKind::Digit, 1, false)));
    assert_eq!(parse_number::<KdlNumber>("1__0"), Err(error(ErrorKind::Digit, 2, false)));
    assert_eq!(parse_number::<KdlNumber>("0x_1"), Err(error(ErrorKind::Digit, 2, true)));
    assert_eq!(parse_number::<KdlNumber>("0x1_"), Err(error(ErrorKind::Digit, 0, true)));
    assert_eq!(parse_number::<KdlNumber>("0x1__0"), Err(error(ErrorKind::Digit, 2, true)));
    assert_eq!(parse_number::<KdlNumber>("1._5"), Err(error(ErrorKind::Digit, 2, true)));
    assert_eq!(parse_number::<KdlNumber>("1.5_"), Err(error(ErrorKind::Digit, 0, true)));
    assert_eq!(parse_number::<KdlNumber>("1e5_ "), Err(error(ErrorKind::Digit, 1, true)));
}

#[test]
fn behind_a_prefix_or_a_dot_or_an_exponent_every_error_is_fatal() {
    assert_eq!(parse_number::<KdlNumber>("0x"), Err(error(ErrorKind::Digit, 0, true)));
    assert_eq!(parse_number::<KdlNumber>("0xg"), Err(error(ErrorKind::Digit, 1, true)));
    assert_eq!(parse_number::<KdlNumber>("-0b2"), Err(error(ErrorKind::Digit, 1, true)));
    assert_eq!(parse_number::<KdlNumber>("0o8"), Err(error(ErrorKind::Digit, 1, true)));
    assert_eq!(parse_number::<KdlNumber>("1."), Err(error(ErrorKind::Digit, 0, true)));
    assert_eq!(parse_number::<KdlNumber>("1.x"), Err(error(ErrorKind::Digit, 1, true)));
    assert_eq!(parse_number::<KdlNumber>("1e"), Err(error(ErrorKind::Digit, 0, true)));
    assert_eq!(parse_number::<KdlNumber>("1e+"), Err(error(ErrorKind::Digit, 0, true)));
    assert_eq!(parse_number::<KdlNumber>("1.5ex"), Err(error(ErrorKind::Digit, 1, true)));
    assert_eq!(parse_number::<KdlNumber>("1.-5"), Err(error(ErrorKind::Digit, 2, true)));
}

#[test]
fn number_from_long_text() {
    for zeros in [63, 64, 65, 200] {
        let long = format!("_{}_7", "0".repeat(zeros));
        assert_eq!(KdlNumber::from_str(&long), Ok(KdlNumber::Unsigned(7)));
        let long = format!("-_{}_7", "0".repeat(zeros));
        assert_eq!(KdlNumber::from_str(&long), Ok(KdlNumber::Signed(-7)));
        let long = format!("{}_7.2_5", "0".repeat(zeros));
        assert_eq!(
            KdlNumber::from_str(&long),
            Ok(KdlNumber::Float(format!("{}7.25", "0".repeat(zeros))))
        );
    }
    let unseparated = "0".repeat(65);
    assert_eq!(KdlNumber::from_str(&unseparated), Ok(KdlNumber::Unsigned(0)));
}

#[test]
fn number_from_text() {
    assert_eq!(KdlNumber::from_str("10"), Ok(KdlNumber::Unsigned(10)));
    assert_eq!(KdlNumber::from_str("+10"), Ok(KdlNumber::Unsigned(10)));
    assert_eq!(KdlNumber::from_str("-10"), Ok(KdlNumber::Signed(-10)));
    assert_eq!(KdlNumber::from_str("1_000_000"), Ok(KdlNumber::Unsigned(1000000)));
    assert_eq!(KdlNumber::from_str("-1_0"), Ok(KdlNumber::Signed(-10)));
    assert_eq!(KdlNumber::from_str("_1__0_"), Ok(KdlNumber::Unsigned(10)));
    assert_eq!(KdlNumber::from_str("1_0.5"), Ok(KdlNumber::Float(String::from("10.5"))));
    assert_eq!(KdlNumber::from_str("1.5"), Ok(KdlNumber::Float(String::from("1.5"))));
    assert_eq!(KdlNumber::from_str("18446744073709551615"), Ok(KdlNumber::Unsigned(u64::MAX)));
    assert_eq!(KdlNumber::from_str("-9223372036854775808"), Ok(KdlNumber::Signed(i64::MIN)));
    assert_eq!(KdlNumber::from_str("-9223372036854775807"), Ok(KdlNumber::Signed(i64::MIN + 1)));
    assert_eq!(KdlNumber::from_str("9223372036854775808"), Ok(KdlNumber::Unsigned(1 << 63)));
}

#[test]
fn text_that_is_no_number_that_fits() {
    assert_eq!(KdlNumber::from_str("18446744073709551616"), Err(BoundsError));
    assert_eq!(KdlNumber::from_str("-9223372036854775809"), Err(BoundsError));
    assert_eq!(KdlNumber::from_str("99999999999999999999999999"), Err(BoundsError));
    assert_eq!(KdlNumber::from_str(""), Err(BoundsError));
    assert_eq!(KdlNumber::from_str("+"), Err(BoundsError));
    assert_eq!(KdlNumber::from_str("-"), Err(BoundsError));
    assert_eq!(KdlNumber::from_str("_"), Err(BoundsError));
    assert_eq!(KdlNumber::from_str("12a"), Err(BoundsError));
    assert_eq!(KdlNumber::from_str("a12"), Err(BoundsError));
    assert_eq!(KdlNumber::from_str("--1"), Err(BoundsError));
    assert_eq!(KdlNumber::from_str("+-1"), Err(BoundsError));
    assert_eq!(KdlNumber::from_str("1 "), Err(BoundsError));
    let long = format!("_{}_", "9".repeat(65));
    assert_eq!(KdlNumber::from_str(&long), Err(BoundsError));
    let long = format!("_{}_x", "0".repeat(65));
    assert_eq!(KdlNumber::from_str(&long), Err(BoundsError));
    let long = format!("_{}_.", "0".repeat(65));
    assert_eq!(KdlNumber::from_str(&long), Err(BoundsError));
}

#[test]
fn unit_builder_takes_any_text() {
    assert_eq!(<() as NumberBuilder>::from_str("10"), Ok(()));
    assert_eq!(<() as NumberBuilder>::from_str("99999999999999999999999999"), Ok(()));
    assert_eq!(<() as NumberBuilder>::from_str("abc"), Ok(()));
    assert_eq!(<() as NumberBuilder>::from_int(()), ());
    assert_eq!(<() as IntBuilder>::start(Sign::Negative), ());
    assert_eq!(<() as IntBuilder>::add_digit((), 9, 10), Ok(()));
}

#[test]
fn integer_builder_adds_digits() {
    assert_eq!(KdlInt::start(Sign::Positive), KdlInt::Unsigned(0));
    assert_eq!(KdlInt::start(Sign::Negative), KdlInt::Signed(0));
    assert_eq!(KdlInt::Unsigned(12).add_digit(3, 10), Ok(KdlInt::Unsigned(123)));
    assert_eq!(KdlInt::Signed(-12).add_digit(3, 10), Ok(KdlInt::Signed(-123)));
    assert_eq!(KdlInt::Unsigned(0xF).add_digit(0xA, 16), Ok(KdlInt::Unsigned(0xFA)));
    assert_eq!(KdlInt::Signed(-1).add_digit(1, 2), Ok(KdlInt::Signed(-3)));
    assert_eq!(KdlInt::Unsigned(0).add_digit(0, 8), Ok(KdlInt::Unsigned(0)));
}

#[test]
fn integer_builder_checks_bounds() {
    let most = KdlInt::Unsigned(u64::MAX / 10);
    assert_eq!(most.add_digit(5, 10), Ok(KdlInt::Unsigned(u64::MAX)));
    assert_eq!(most.add_digit(6, 10), Err(BoundsError));
    assert_eq!(KdlInt::Unsigned(u64::MAX / 10 + 1).add_digit(0, 10), Err(BoundsError));
    assert_eq!(KdlInt::Unsigned(u64::MAX).add_digit(0, 2), Err(BoundsError));

    let least = KdlInt::Signed(i64::MIN / 10);
    assert_eq!(least.add_digit(8, 10), Ok(KdlInt::Signed(i64::MIN)));
    assert_eq!(least.add_digit(9, 10), Err(BoundsError));
    assert_eq!(KdlInt::Signed(i64::MIN / 10 - 1).add_digit(0, 10), Err(BoundsError));
    assert_eq!(KdlInt::Signed(i64::MIN).add_digit(0, 2), Err(BoundsError));
}

#[test]
fn number_from_integer() {
    assert_eq!(KdlNumber::from_int(KdlInt::Signed(-5)), KdlNumber::Signed(-5));
    assert_eq!(KdlNumber::from_int(KdlInt::Unsigned(5)), KdlNumber::Unsigned(5));
    assert_eq!(KdlNumber::default(), KdlNumber::Signed(0));
}

#[test]
fn number_from_plain_integers() {
    assert_eq!(KdlNumber::from(5u64), KdlNumber::Unsigned(5));
    assert_eq!(KdlNumber::from(-5i64), KdlNumber::Signed(-5));
    assert_eq!(KdlNumber::from(5i64), KdlNumber::Signed(5));
    assert_eq!(KdlNumber::from(KdlInt::Unsigned(7)), KdlNumber::Unsigned(7));
    assert_eq!(KdlNumber::from(KdlInt::Signed(-7)), KdlNumber::Signed(-7));
}

#[test]
fn integer_builder_adds_digits_to_any_integer() {
    // A signed integer above zero is no number that is being read, and is
    // handled all the same: the digit is taken off the product.
    assert_eq!(KdlInt::Signed(5).add_digit(1, 10), Ok(KdlInt::Signed(49)));
    assert_eq!(KdlInt::Signed(0).add_digit(0, 10), Ok(KdlInt::Signed(0)));
    assert_eq!(KdlInt::Signed(i64::MAX / 10).add_digit(0, 10), Ok(KdlInt::Signed(i64::MAX / 10 * 10)));
    // The product is checked before the digit is taken off.
    assert_eq!(KdlInt::Signed(1 << 62).add_digit(1, 2), Err(BoundsError));
    assert_eq!(KdlInt::Signed(i64::MAX).add_digit(9, 10), Err(BoundsError));
    assert_eq!(KdlInt::Unsigned(1).add_digit(u32::MAX, u32::MAX), Ok(KdlInt::Unsigned(2 * (u32::MAX as u64))));
    assert_eq!(KdlInt::Signed(-1).add_digit(u32::MAX, u32::MAX), Ok(KdlInt::Signed(-2 * (u32::MAX as i64))));
    assert_eq!(KdlInt::Unsigned(7).add_digit(3, 0), Ok(KdlInt::Unsigned(3)));
}
