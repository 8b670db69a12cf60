use kaydle_primitives::error::{Context, ErrorKind, ParseError};
use kaydle_primitives::number::{BoundsError, KdlNumber, NumberBuilder};
use kaydle_primitives::string::KdlString;
use kaydle_primitives::util::{back, digit_of, same_bytes, split_text, tail_from};

#[test]
fn back_is_the_empty_end_of_a_text() {
    let text = "abc é";
    let end = back(text);
    assert_eq!(end, "");
    assert_eq!(end.as_ptr() as usize, text.as_ptr() as usize + text.len());
    assert_eq!(back(""), "");
}

#[test]
fn texts_are_parted_at_byte_indices() {
    assert_eq!(split_text("abc é", 3), ("abc", " é"));
    assert_eq!(split_text("abc", 0), ("", "abc"));
    assert_eq!(split_text("abc", 3), ("abc", ""));
    assert_eq!(split_text("é日", 2), ("é", "日"));
    assert_eq!(tail_from("abc é", 4), "é");
    assert_eq!(tail_from("abc", 3), "");
}

#[test]
fn bytes_are_compared() {
    assert!(same_bytes(b"abc", b"abc"));
    assert!(same_bytes(b"", b""));
    assert!(!same_bytes(b"abc", b"abd"));
    assert!(!same_bytes(b"abc", b"ab"));
    assert!(!same_bytes(b"ab", b"abc"));
    assert!(!same_bytes(b"xbc", b"abc"));
}

#[test]
fn digits_of_each_radix_have_their_value() {
    for radix in [2u32, 8, 10, 16] {
        for b in 0u8..=255 {
            let expected = (b as char).to_digit(radix);
            assert_eq!(digit_of(b, radix), expected, "{:?} in radix {}", b as char, radix);
        }
    }
    assert_eq!(digit_of(b'7', 8), Some(7));
    assert_eq!(digit_of(b'8', 8), None);
    assert_eq!(digit_of(b'f', 16), Some(15));
    assert_eq!(digit_of(b'F', 16), Some(15));
    assert_eq!(digit_of(b'g', 16), None);
}

#[test]
fn strings_are_equal_where_their_texts_are() {
    let borrowed = KdlString::from_borrowed("abc");
    let owned = KdlString::from_string(String::from("abc"));
    assert_eq!(borrowed, owned);
    assert_ne!(borrowed, KdlString::from_borrowed("abd"));
    assert_ne!(borrowed, KdlString::from_borrowed("ab"));
    assert_eq!(KdlString::new(), KdlString::from_string(String::new()));
    assert!(borrowed.eq_str("abc"));
    assert!(owned.eq_str("abc"));
    assert!(!owned.eq_str("abcd"));
    assert!(!owned.eq_str(""));
    assert!(KdlString::new().eq_str(""));
}

#[test]
fn errors_are_built_step_by_step() {
    let error = ParseError::new(ErrorKind::Digit, 7);
    assert_eq!(
        error,
        ParseError { kind: ErrorKind::Digit, remaining: 7, fatal: false, contexts: vec![] }
    );
    let error = error.within(Context::Number).cut().within(Context::Value);
    assert_eq!(
        error,
        ParseError {
            kind: ErrorKind::Digit,
            remaining: 7,
            fatal: true,
            contexts: vec![Context::Number, Context::Value],
        }
    );
    assert_eq!(error.offset(10), 3);
    assert_eq!(error.offset(7), 0);
    assert_eq!(error.offset(6), 0);
    assert_eq!(
        BoundsError.at(5),
        ParseError { kind: ErrorKind::Bounds, remaining: 5, fatal: false, contexts: vec![] }
    );
}

#[test]
fn contexts_have_names() {
    let names = [
        (Context::Annotation, "annotation"),
        (Context::EscapedString, "escaped string"),
        (Context::Key, "key"),
        (Context::Node, "node"),
        (Context::Number, "number"),
        (Context::Property, "property"),
        (Context::RawString, "raw string"),
        (Context::String, "string"),
        (Context::Value, "value"),
    ];
    for (context, name) in names {
        assert_eq!(context.name(), name);
    }
}

#[test]
fn a_float_is_the_text_of_a_decimal_number() {
    assert_eq!(KdlNumber::from_str("1.5"), Ok(KdlNumber::Float(String::from("1.5"))));
    assert_eq!(KdlNumber::from_str("-1.5e-10"), Ok(KdlNumber::Float(String::from("-1.5e-10"))));
    assert_eq!(KdlNumber::from_str("+1E5"), Ok(KdlNumber::Float(String::from("+1E5"))));
    assert_eq!(KdlNumber::from_str("1_0.5_0"), Ok(KdlNumber::Float(String::from("10.50"))));
    assert_eq!(KdlNumber::from_str("hello"), Err(BoundsError));
    assert_eq!(KdlNumber::from_str("e"), Err(BoundsError));
    assert_eq!(KdlNumber::from_str("."), Err(BoundsError));
    assert_eq!(KdlNumber::from_str("1."), Err(BoundsError));
    assert_eq!(KdlNumber::from_str(".5"), Err(BoundsError));
    assert_eq!(KdlNumber::from_str("1e"), Err(BoundsError));
    assert_eq!(KdlNumber::from_str("1.5x"), Err(BoundsError));
    assert_eq!(KdlNumber::from_str("1.5 "), Err(BoundsError));
    assert_eq!(KdlNumber::from_str("1e5e5"), Err(BoundsError));
    assert_eq!(KdlNumber::from_str("0x1.5"), Err(BoundsError));
}
