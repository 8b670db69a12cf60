//! Numbers. A number is written in decimal, with a fraction and an
//! exponent if it has them, or as an integer in hexadecimal, octal or
//! binary. The format knows one kind of number; the parsers tell three
//! apart: a number with a fraction or exponent is a float, any other is a
//! signed integer where it is written with `-` and an unsigned one where it
//! is not.

use arrayvec::ArrayString;
use vstd::prelude::*;
use vstd::slice::slice_subrange;
use vstd::string::*;
use vstd::utf8::*;
use crate::error::{
    cut, cut_error, fail, or_else, same_unless_bounds, same_unless_fatal_bounds, ErrorKind,
    ParseError, Parsed, };
use crate::string::{lemma_encode_concat, lemma_encode_empty};
use crate::util::{
    bytes_of, digit_of, digit_value, digits_value, first_index, is_digit, lemma_boundary_ascii,
    lemma_first_index, lemma_first_index_is, lemma_text_valid, split_text, starts_with2, tail_from,
    DOT, LOWER_B, LOWER_E, LOWER_O, LOWER_X, MINUS, PLUS, UNDERSCORE, UPPER_E, ZERO,
};

verus! {

/// The sign of a number.
#[derive(Debug, Clone, Copy, PartialEq, Eq, Structural)]
pub enum Sign {
    /// `+`, or no sign at all.
    Positive,
    /// `-`.
    Negative,
}

/// A number did not fit the type that was to hold it.
#[derive(Debug, Clone, Copy, PartialEq, Eq, Structural)]
pub struct BoundsError;

impl BoundsError {
    /// The error of a number that does not fit, as a parse error at the
    /// place where `remaining` bytes were unread.
    pub fn at(self, remaining: usize) -> (e: ParseError)
        ensures
            e@ == fail(ErrorKind::Bounds, remaining as nat),
    {
        ParseError::new(ErrorKind::Bounds, remaining)
    }
}

/// An integer in the model: the sign it was written with, and its
/// magnitude, which has no bound.
pub struct Integer {
    pub sign: Sign,
    pub magnitude: nat,
}

impl Integer {
    /// Zero, to which the digits of a number with this sign are added.
    pub open spec fn start(sign: Sign) -> Integer {
        Integer { sign, magnitude: 0 }
    }

    /// The integer with one more digit behind its digits.
    pub open spec fn add_digit(self, digit: nat, radix: nat) -> Integer {
        Integer { sign: self.sign, magnitude: self.magnitude * radix + digit }
    }

    /// The integer with more digits behind its digits.
    pub open spec fn add_digits(self, digits: Seq<u8>, radix: nat) -> Integer
        decreases digits.len(),
    {
        if digits.len() == 0 {
            self
        } else {
            self.add_digits(digits.drop_last(), radix).add_digit(digit_value(digits.last()), radix)
        }
    }

    /// The value of the integer.
    pub open spec fn value(self) -> int {
        match self.sign {
            Sign::Positive => self.magnitude as int,
            Sign::Negative => -(self.magnitude as int),
        }
    }

    /// Whether the integer fits the type for its sign: `u64` where it is
    /// positive, `i64` where it is negative.
    pub open spec fn fits(self) -> bool {
        match self.sign {
            Sign::Positive => self.magnitude <= u64::MAX,
            Sign::Negative => self.magnitude <= 0x8000_0000_0000_0000,
        }
    }
}

/// A number in the model.
pub enum Number {
    /// An integer, of any size.
    Integer(Integer),
    /// A float, as it is written: sign, digits, fraction and exponent,
    /// without the `_` between the digits.
    Float(Seq<u8>),
}

/// An integer: signed where it was written with `-`, unsigned where not.
#[derive(Debug, Clone, Copy, Hash, PartialEq, Eq)]
pub enum KdlInt {
    /// An integer that was written with `-`.
    Signed(i64),
    /// An integer that was written without `-`.
    Unsigned(u64),
}

/// What the parser of integers fills: it starts a number with its sign and
/// adds the digits one by one.
pub trait IntBuilder: Sized {
    /// Whether this value may stand for the integer `value`.
    spec fn denotes(&self, value: Integer) -> bool;

    /// Whether the builder reports an integer that does not fit.
    spec fn checked() -> bool;

    /// A builder that holds zero with the given sign.
    fn start(sign: Sign) -> (r: Self)
        ensures
            r.denotes(Integer::start(sign)),
    ;

    /// Puts one digit behind the digits of the integer.
    fn add_digit(self, digit: u32, radix: u32) -> (r: Result<Self, BoundsError>)
        ensures
            forall|k: Integer| #[trigger]
                self.denotes(k) ==> if Self::checked() && !k.add_digit(
                    digit as nat,
                    radix as nat,
                ).fits() {
                    r is Err
                } else {
                    r matches Ok(v) && v.denotes(k.add_digit(digit as nat, radix as nat))
                },
    ;
}

impl KdlInt {
    /// The integer with one more digit behind its digits, as checked
    /// arithmetic gives it: the integer times the radix, less the digit
    /// where it is signed and plus the digit where it is unsigned. Where
    /// the product or the result is beyond `i64` or `u64`, there is none.
    pub open spec fn checked_add_digit(self, digit: u32, radix: u32) -> Result<
        KdlInt,
        BoundsError,
    > {
        match self {
            KdlInt::Signed(v) => if i64::MIN <= v * radix <= i64::MAX && i64::MIN <= v * radix
                - digit <= i64::MAX {
                Ok(KdlInt::Signed((v * radix - digit) as i64))
            } else {
                Err(BoundsError)
            },
            KdlInt::Unsigned(v) => if v * radix <= u64::MAX && v * radix + digit <= u64::MAX {
                Ok(KdlInt::Unsigned((v * radix + digit) as u64))
            } else {
                Err(BoundsError)
            },
        }
    }
}

impl IntBuilder for KdlInt {
    /// A signed integer stands for a number written with `-`, which is
    /// zero or less; an unsigned one for a number written without.
    open spec fn denotes(&self, value: Integer) -> bool {
        match *self {
            KdlInt::Signed(v) => value.sign == Sign::Negative && v == -(value.magnitude as int),
            KdlInt::Unsigned(v) => value.sign == Sign::Positive && v == value.magnitude,
        }
    }

    open spec fn checked() -> bool {
        true
    }

    fn start(sign: Sign) -> (r: Self) {
        match sign {
            Sign::Positive => KdlInt::Unsigned(0),
            Sign::Negative => KdlInt::Signed(0),
        }
    }

    fn add_digit(self, digit: u32, radix: u32) -> (r: Result<Self, BoundsError>)
        ensures
            r == self.checked_add_digit(digit, radix),
    {
        match self {
            KdlInt::Signed(value) => {
                proof {
                    if value <= 0 {
                        assert(value * (radix as int) <= 0) by (nonlinear_arith)
                            requires
                                value <= 0,
                                radix >= 0,
                        ;
                        assert((-value) * (radix as int) == -(value * (radix as int)))
                            by (nonlinear_arith);
                    }
                }
                match value.checked_mul(radix as i64) {
                    None => Err(BoundsError),
                    Some(product) => match product.checked_sub(digit as i64) {
                        None => Err(BoundsError),
                        Some(v) => Ok(KdlInt::Signed(v)),
                    },
                }
            },
            KdlInt::Unsigned(value) => {
                match value.checked_mul(radix as u64) {
                    None => Err(BoundsError),
                    Some(product) => match product.checked_add(digit as u64) {
                        None => Err(BoundsError),
                        Some(v) => Ok(KdlInt::Unsigned(v)),
                    },
                }
            },
        }
    }
}

/// The unit type takes note that an integer was there and keeps nothing.
impl IntBuilder for () {
    open spec fn denotes(&self, value: Integer) -> bool {
        true
    }

    open spec fn checked() -> bool {
        false
    }

    fn start(sign: Sign) -> (r: Self) {
        ()
    }

    fn add_digit(self, digit: u32, radix: u32) -> (r: Result<Self, BoundsError>) {
        Ok(())
    }
}

/// The bytes that are no digits of the radix.
pub open spec fn ends_digits(radix: nat) -> spec_fn(u8) -> bool {
    |b: u8| !is_digit(b, radix)
}

/// The length of the run of digits of the radix that `s` begins with.
pub open spec fn digit_run_len(s: Seq<u8>, radix: nat) -> int {
    first_index(s, ends_digits(radix))
}

/// The digits of an integer, put behind those of `acc`: one or more groups
/// of digits with one `_` between each two. Where `checked`, a group that
/// makes the integer too large for its type is an error at the start of
/// that group. The comparison of lengths serves the termination of the
/// definition and always holds.
pub open spec fn spec_integer_part(s: Seq<u8>, radix: nat, acc: Integer, checked: bool) -> Parsed<
    Integer,
>
    decreases s.len(),
{
    let n = digit_run_len(s, radix);
    if n <= 0 {
        Err(fail(ErrorKind::Digit, s.len()))
    } else {
        let acc2 = acc.add_digits(s.take(n), radix);
        let rest = s.skip(n);
        if checked && !acc2.fits() {
            Err(fail(ErrorKind::Bounds, s.len()))
        } else if rest.len() >= 1 && rest[0] == UNDERSCORE && rest.len() <= s.len() {
            spec_integer_part(rest.skip(1), radix, acc2, checked)
        } else {
            Ok((acc2, rest))
        }
    }
}

/// A sign if there is one, and what follows it. No sign is a positive sign.
pub open spec fn spec_optional_sign(s: Seq<u8>) -> (Sign, Seq<u8>) {
    if s.len() >= 1 && s[0] == PLUS {
        (Sign::Positive, s.skip(1))
    } else if s.len() >= 1 && s[0] == MINUS {
        (Sign::Negative, s.skip(1))
    } else {
        (Sign::Positive, s)
    }
}

/// The radix that the prefix `0x`, `0o` or `0b` stands for.
pub open spec fn spec_base(s: Seq<u8>) -> Option<nat> {
    if starts_with2(s, ZERO, LOWER_X) {
        Some(16)
    } else if starts_with2(s, ZERO, LOWER_O) {
        Some(8)
    } else if starts_with2(s, ZERO, LOWER_B) {
        Some(2)
    } else {
        None
    }
}

/// An integer in hexadecimal, octal or binary: a sign if there is one, the
/// prefix of the radix, and the digits. Behind the prefix every error is
/// fatal.
pub open spec fn spec_weird_number(s: Seq<u8>, checked: bool) -> Parsed<Integer> {
    let (sign, t) = spec_optional_sign(s);
    match spec_base(t) {
        None => Err(fail(ErrorKind::Digit, t.len())),
        Some(radix) => cut(spec_integer_part(t.skip(2), radix, Integer::start(sign), checked)),
    }
}

/// One run of decimal digits with `_` between its groups.
pub open spec fn spec_decimal_component(s: Seq<u8>) -> Parsed<()> {
    match spec_integer_part(s, 10, Integer::start(Sign::Positive), false) {
        Ok((_, rest)) => Ok(((), rest)),
        Err(e) => Err(e),
    }
}

/// The fraction of a decimal number, if there is one: a dot and digits.
/// Behind the dot every error is fatal.
pub open spec fn spec_fraction(s: Seq<u8>) -> Parsed<()> {
    if s.len() >= 1 && s[0] == DOT {
        cut(spec_decimal_component(s.skip(1)))
    } else {
        Ok(((), s))
    }
}

/// The exponent of a decimal number, if there is one: `e` or `E`, a sign if
/// there is one, and digits. Behind the letter every error is fatal.
pub open spec fn spec_exponent(s: Seq<u8>) -> Parsed<()> {
    if s.len() >= 1 && (s[0] == LOWER_E || s[0] == UPPER_E) {
        cut(spec_decimal_component(spec_optional_sign(s.skip(1)).1))
    } else {
        Ok(((), s))
    }
}

/// The text of a decimal number: a sign if there is one, digits, and a
/// fraction and an exponent if there are any.
pub open spec fn spec_decimal_token(s: Seq<u8>) -> Parsed<()> {
    match spec_decimal_component(spec_optional_sign(s).1) {
        Err(e) => Err(e),
        Ok((_, rest)) => match spec_fraction(rest) {
            Err(e) => Err(e),
            Ok((_, rest)) => spec_exponent(rest),
        },
    }
}

/// `s` without its underscores.
pub open spec fn without_underscores(s: Seq<u8>) -> Seq<u8>
    decreases s.len(),
{
    if s.len() == 0 {
        s
    } else if s[0] == UNDERSCORE {
        without_underscores(s.skip(1))
    } else {
        seq![s[0]] + without_underscores(s.skip(1))
    }
}

/// Whether all the bytes of `s` are decimal digits, and there is one at
/// least.
pub open spec fn is_decimal(s: Seq<u8>) -> bool {
    s.len() > 0 && forall|j: int| 0 <= j < s.len() ==> is_digit(#[trigger] s[j], 10)
}

/// The number that the text of a decimal number stands for: a float where
/// the text holds a dot or an exponent, else an integer with the sign that
/// is written.
pub open spec fn text_number(s: Seq<u8>) -> Number {
    let t = without_underscores(s);
    if t.contains(DOT) || t.contains(LOWER_E) || t.contains(UPPER_E) {
        Number::Float(t)
    } else if t.len() >= 1 && t[0] == MINUS {
        Number::Integer(Integer { sign: Sign::Negative, magnitude: digits_value(t.skip(1), 10) })
    } else if t.len() >= 1 && t[0] == PLUS {
        Number::Integer(Integer { sign: Sign::Positive, magnitude: digits_value(t.skip(1), 10) })
    } else {
        Number::Integer(Integer { sign: Sign::Positive, magnitude: digits_value(t, 10) })
    }
}

/// Whether the whole of `t` is the text of a decimal number.
pub open spec fn is_decimal_text(t: Seq<u8>) -> bool {
    spec_decimal_token(t) matches Ok((_, rest)) && rest.len() == 0
}

/// Whether a text stands for a number that the number type can hold:
/// where it holds a dot or an exponent it is, without its `_`, the text of
/// a decimal number; and where it holds none it is, without its `_`, made
/// of a sign and digits and fits `i64` with `-` and `u64` without.
pub open spec fn text_fits(s: Seq<u8>) -> bool {
    let t = without_underscores(s);
    if t.contains(DOT) || t.contains(LOWER_E) || t.contains(UPPER_E) {
        is_decimal_text(t)
    } else if t.len() >= 1 && t[0] == MINUS {
        is_decimal(t.skip(1)) && digits_value(t.skip(1), 10) <= 0x8000_0000_0000_0000
    } else if t.len() >= 1 && t[0] == PLUS {
        is_decimal(t.skip(1)) && digits_value(t.skip(1), 10) <= u64::MAX
    } else {
        is_decimal(t) && digits_value(t, 10) <= u64::MAX
    }
}

/// A decimal number. Where `checked`, a number that the number type cannot
/// hold is a fatal error at the start of the number.
pub open spec fn spec_decimal_number(s: Seq<u8>, checked: bool) -> Parsed<Number> {
    match spec_decimal_token(s) {
        Err(e) => Err(e),
        Ok((_, rest)) => {
            let token = s.take(s.len() - rest.len());
            if checked && !text_fits(token) {
                Err(cut_error(fail(ErrorKind::Bounds, s.len())))
            } else {
                Ok((text_number(token), rest))
            }
        },
    }
}

/// A result whose integer is taken for a number.
pub open spec fn as_number(p: Parsed<Integer>) -> Parsed<Number> {
    match p {
        Ok((k, rest)) => Ok((Number::Integer(k), rest)),
        Err(e) => Err(e),
    }
}

/// A number: an integer with a radix prefix, or else a decimal number. The
/// prefix is tried first, because the `-0` of `-0xFF` is a decimal number
/// too.
pub open spec fn spec_number(s: Seq<u8>, checked_int: bool, checked: bool) -> Parsed<Number> {
    or_else(as_number(spec_weird_number(s, checked_int)), spec_decimal_number(s, checked))
}

/// A number: a signed integer, an unsigned integer or a float.
#[derive(Debug, Clone, PartialEq, Eq)]
pub enum KdlNumber {
    /// An integer that was written with `-`.
    Signed(i64),
    /// An integer that was written without `-`.
    Unsigned(u64),
    /// A number with a fraction or an exponent, as it is written, without
    /// the `_` between its digits. Its value is what `f64::from_str` makes
    /// of this text.
    Float(String),
}

impl KdlNumber {
    /// Whether this value stands for the number `n`.
    pub open spec fn stands_for(&self, n: Number) -> bool {
        match (*self, n) {
            (KdlNumber::Signed(v), Number::Integer(k)) => k.sign == Sign::Negative && v == -(
            k.magnitude as int),
            (KdlNumber::Unsigned(v), Number::Integer(k)) => k.sign == Sign::Positive && v
                == k.magnitude,
            (KdlNumber::Float(f), Number::Float(t)) => encode_utf8(f@) == t,
            _ => false,
        }
    }
}

impl From<u64> for KdlNumber {
    fn from(value: u64) -> (r: Self) {
        KdlNumber::Unsigned(value)
    }
}

impl vstd::std_specs::convert::FromSpecImpl<u64> for KdlNumber {
    open spec fn obeys_from_spec() -> bool {
        true
    }

    open spec fn from_spec(value: u64) -> Self {
        KdlNumber::Unsigned(value)
    }
}

impl From<i64> for KdlNumber {
    fn from(value: i64) -> (r: Self) {
        KdlNumber::Signed(value)
    }
}

impl vstd::std_specs::convert::FromSpecImpl<i64> for KdlNumber {
    open spec fn obeys_from_spec() -> bool {
        true
    }

    open spec fn from_spec(value: i64) -> Self {
        KdlNumber::Signed(value)
    }
}

impl From<KdlInt> for KdlNumber {
    fn from(value: KdlInt) -> (r: Self) {
        match value {
            KdlInt::Signed(value) => KdlNumber::Signed(value),
            KdlInt::Unsigned(value) => KdlNumber::Unsigned(value),
        }
    }
}

impl vstd::std_specs::convert::FromSpecImpl<KdlInt> for KdlNumber {
    open spec fn obeys_from_spec() -> bool {
        true
    }

    open spec fn from_spec(value: KdlInt) -> Self {
        match value {
            KdlInt::Signed(value) => KdlNumber::Signed(value),
            KdlInt::Unsigned(value) => KdlNumber::Unsigned(value),
        }
    }
}

impl Default for KdlNumber {
    fn default() -> (r: Self)
        ensures
            r == KdlNumber::Signed(0),
    {
        KdlNumber::Signed(0)
    }
}

/// What the parser of numbers fills: it hands over the text of a decimal
/// number, or the integer that was built from digits with a radix prefix.
pub trait NumberBuilder: Sized {
    /// The builder of the integers that have a radix prefix.
    type IntForm: IntBuilder;

    /// Whether this value may stand for the number `n`.
    spec fn denotes(&self, n: Number) -> bool;

    /// Whether the builder reports a decimal number that does not fit.
    spec fn checked() -> bool;

    /// Builds a number from the text of a decimal number, which may hold a
    /// sign, a fraction and an exponent, and `_` between digits.
    fn from_str(input: &str) -> (r: Result<Self, BoundsError>)
        ensures
            if Self::checked() && !text_fits(bytes_of(input)) {
                r is Err
            } else {
                r matches Ok(v) && v.denotes(text_number(bytes_of(input)))
            },
    ;

    /// Builds a number from an integer.
    fn from_int(input: Self::IntForm) -> (r: Self)
        ensures
            forall|k: Integer| #[trigger] input.denotes(k) ==> r.denotes(Number::Integer(k)),
    ;
}

/// The unit type takes note that a number was there and keeps nothing.
impl NumberBuilder for () {
    type IntForm = ();

    open spec fn denotes(&self, n: Number) -> bool {
        true
    }

    open spec fn checked() -> bool {
        false
    }

    fn from_str(input: &str) -> (r: Result<Self, BoundsError>) {
        Ok(())
    }

    fn from_int(input: ()) -> (r: Self) {
        ()
    }
}

/// What an `ArrayString` of 64 bytes holds.
pub uninterp spec fn array_string_bytes(s: ArrayString<64>) -> Seq<u8>;

/// `ArrayString` is a string in an array of fixed size.
#[verifier::external_type_specification]
#[verifier::external_body]
pub struct ExArrayString<const CAP: usize>(ArrayString<CAP>);

/// `ArrayString::new` returns an empty string.
#[verifier::external_body]
fn array_string_new() -> (r: ArrayString<64>)
    ensures
        array_string_bytes(r) == Seq::<u8>::empty(),
{
    ArrayString::new()
}

/// `ArrayString::try_push_str` puts `s` behind what the string holds where
/// that leaves it within its 64 bytes, and else leaves it as it is and
/// fails.
#[verifier::external_body]
fn array_string_try_push_str(buffer: &mut ArrayString<64>, s: &str) -> (ok: bool)
    ensures
        ok <==> array_string_bytes(*old(buffer)).len() + bytes_of(s).len() <= 64,
        ok ==> array_string_bytes(*final(buffer)) == array_string_bytes(*old(buffer)) + bytes_of(s),
        !ok ==> array_string_bytes(*final(buffer)) == array_string_bytes(*old(buffer)),
{
    buffer.try_push_str(s).is_ok()
}

/// `ArrayString::as_str` returns what the string holds.
#[verifier::external_body]
fn array_string_as_str(buffer: &ArrayString<64>) -> (r: &str)
    ensures
        bytes_of(r) == array_string_bytes(*buffer),
{
    buffer.as_str()
}

/// Up to an underscore, a text without its underscores is the text.
pub proof fn lemma_without_underscores_piece(s: Seq<u8>, i: int)
    requires
        0 <= i <= s.len(),
        forall|j: int| 0 <= j < i ==> s[j] != UNDERSCORE,
    ensures
        without_underscores(s) == s.take(i) + without_underscores(s.skip(i)),
    decreases i,
{
    if i == 0 {
        assert(s.skip(0) =~= s);
        assert(s.take(0) + without_underscores(s) =~= without_underscores(s));
    } else {
        let t = s.skip(1);
        assert forall|j: int| 0 <= j < i - 1 implies t[j] != UNDERSCORE by {
            assert(t[j] == s[j + 1]);
        }
        lemma_without_underscores_piece(t, i - 1);
        assert(t.skip(i - 1) =~= s.skip(i));
        assert(seq![s[0]] + t.take(i - 1) =~= s.take(i));
        assert(seq![s[0]] + (t.take(i - 1) + without_underscores(s.skip(i))) =~= s.take(i)
            + without_underscores(s.skip(i)));
    }
}

/// A text without underscores is itself without its underscores.
pub proof fn lemma_without_underscores_none(s: Seq<u8>)
    requires
        forall|j: int| 0 <= j < s.len() ==> s[j] != UNDERSCORE,
    ensures
        without_underscores(s) == s,
{
    lemma_without_underscores_piece(s, s.len() as int);
    assert(s.take(s.len() as int) =~= s);
    assert(s.skip(s.len() as int) =~= Seq::<u8>::empty());
    assert(s + Seq::<u8>::empty() =~= s);
}

/// The digits of a number stand for no less than those of its beginning.
pub proof fn lemma_digits_value_monotone(s: Seq<u8>, i: int)
    requires
        0 <= i <= s.len(),
    ensures
        digits_value(s.take(i), 10) <= digits_value(s, 10),
    decreases s.len(),
{
    if i == s.len() {
        assert(s.take(i) =~= s);
    } else {
        let t = s.drop_last();
        assert(t.take(i) =~= s.take(i));
        lemma_digits_value_monotone(t, i);
        assert(digits_value(t, 10) * 10 >= digits_value(t, 10)) by (nonlinear_arith);
    }
}

/// Reads the magnitude of a decimal integer: the number that the digits
/// stand for, where they are digits all of them, one at least, and the
/// number is at most `limit`.
fn magnitude_of(digits: &[u8], limit: u64) -> (r: Option<u64>)
    requires
        limit >= 9,
    ensures
        r is Some <==> is_decimal(digits@) && digits_value(digits@, 10) <= limit,
        r matches Some(v) ==> v == digits_value(digits@, 10),
{
    let n = digits.len();
    if n == 0 {
        return None;
    }
    let mut v: u64 = 0;
    let mut i: usize = 0;
    proof {
        assert(digits@.take(0) =~= Seq::<u8>::empty());
    }
    while i < n
        invariant
            n == digits@.len(),
            n > 0,
            i <= n,
            limit >= 9,
            forall|j: int| 0 <= j < i ==> is_digit(#[trigger] digits@[j], 10),
            v == digits_value(digits@.take(i as int), 10),
            v <= limit,
        decreases n - i,
    {
        let d = match digit_of(digits[i], 10) {
            Some(d) => d as u64,
            None => {
                return None;
            },
        };
        proof {
            assert(digits@.take(i + 1).drop_last() =~= digits@.take(i as int));
            assert(digits@.take(i + 1).last() == digits@[i as int]);
            lemma_digits_value_monotone(digits@, i + 1);
        }
        if v > (limit - d) / 10 {
            return None;
        }
        v = v * 10 + d;
        i += 1;
    }
    proof {
        assert(digits@.take(n as int) =~= digits@);
    }
    Some(v)
}

/// Whether `bytes` holds the byte `b`.
fn holds_byte(b: u8, bytes: &[u8]) -> (r: bool)
    ensures
        r == bytes@.contains(b),
{
    match memchr::memchr(b, bytes) {
        Some(i) => {
            assert(bytes@[i as int] == b);
            true
        },
        None => false,
    }
}

/// Reads the text of a decimal integer or float that holds no underscore.
fn number_of_plain_text(text: &str) -> (r: Result<KdlNumber, BoundsError>)
    requires
        without_underscores(bytes_of(text)) == bytes_of(text),
    ensures
        match r {
            Ok(v) => v.stands_for(text_number(bytes_of(text))) && text_fits(bytes_of(text)),
            Err(_) => !text_fits(bytes_of(text)),
        },
{
    let b = text.as_bytes();
    let n = b.len();
    let float = match memchr::memchr3(DOT, LOWER_E, UPPER_E, b) {
        Some(i) => {
            assert(b@[i as int] == DOT || b@[i as int] == LOWER_E || b@[i as int] == UPPER_E);
            true
        },
        None => false,
    };
    if float {
        match recognize_decimal_token(b) {
            Ok(end) => {
                if end == n {
                    Ok(KdlNumber::Float(text.to_owned()))
                } else {
                    Err(BoundsError)
                }
            },
            Err(_) => Err(BoundsError),
        }
    } else if n >= 1 && b[0] == MINUS {
        match magnitude_of(slice_subrange(b, 1, n), 0x8000_0000_0000_0000) {
            Some(m) => {
                if m == 0x8000_0000_0000_0000 {
                    Ok(KdlNumber::Signed(i64::MIN))
                } else {
                    Ok(KdlNumber::Signed(-(m as i64)))
                }
            },
            None => Err(BoundsError),
        }
    } else if n >= 1 && b[0] == PLUS {
        match magnitude_of(slice_subrange(b, 1, n), u64::MAX) {
            Some(m) => Ok(KdlNumber::Unsigned(m)),
            None => Err(BoundsError),
        }
    } else {
        match magnitude_of(b, u64::MAX) {
            Some(m) => Ok(KdlNumber::Unsigned(m)),
            None => Err(BoundsError),
        }
    }
}

impl NumberBuilder for KdlNumber {
    type IntForm = KdlInt;

    open spec fn denotes(&self, n: Number) -> bool {
        self.stands_for(n)
    }

    open spec fn checked() -> bool {
        true
    }

    /// A text with `_` is first copied without them: into a buffer of 64
    /// bytes where that holds it, and else into a `String`.
    fn from_str(input: &str) -> (r: Result<Self, BoundsError>) {
        let b = input.as_bytes();
        if !holds_byte(UNDERSCORE, b) {
            proof {
                lemma_without_underscores_none(b@);
            }
            return number_of_plain_text(input);
        }
        let mut buffer = array_string_new();
        let mut cur = input;
        proof {
            assert(Seq::<u8>::empty() + without_underscores(b@) =~= without_underscores(b@));
            lemma_without_underscores_twice(b@);
        }
        loop
            invariant
                b@ == bytes_of(input),
                without_underscores(without_underscores(b@)) == without_underscores(b@),
                without_underscores(b@) == array_string_bytes(buffer) + without_underscores(
                    bytes_of(cur),
                ),
            decreases bytes_of(cur).len(),
        {
            let c = cur.as_bytes();
            let ghost held = array_string_bytes(buffer);
            match memchr::memchr(UNDERSCORE, c) {
                None => {
                    proof {
                        lemma_without_underscores_none(c@);
                    }
                    if !array_string_try_push_str(&mut buffer, cur) {
                        return number_of_long_text(input);
                    }
                    return number_of_plain_text(array_string_as_str(&buffer));
                },
                Some(i) => {
                    proof {
                        lemma_text_valid(cur);
                        lemma_boundary_ascii(c@, i as int);
                        lemma_without_underscores_piece(c@, i as int);
                        assert(c@.skip(i as int).skip(1) =~= c@.skip(i + 1));
                        assert(c@.skip(i as int)[0] == UNDERSCORE);
                        assert(held + (c@.take(i as int) + without_underscores(c@.skip(i + 1)))
                            =~= (held + c@.take(i as int)) + without_underscores(c@.skip(i + 1)));
                    }
                    let (piece, rest) = split_text(cur, i);
                    proof {
                        lemma_text_valid(rest);
                        lemma_boundary_ascii(bytes_of(rest), 0);
                        assert(bytes_of(rest).skip(1) =~= c@.skip(i + 1));
                    }
                    if !array_string_try_push_str(&mut buffer, piece) {
                        return number_of_long_text(input);
                    }
                    cur = tail_from(rest, 1);
                },
            }
        }
    }

    fn from_int(input: KdlInt) -> (r: Self) {
        KdlNumber::from(input)
    }
}

/// Copies a text without its underscores into a `String`.
fn without_separators(input: &str) -> (r: String)
    ensures
        encode_utf8(r@) == without_underscores(bytes_of(input)),
{
    let mut owned = String::new();
    let mut cur = input;
    proof {
        lemma_encode_empty(owned@);
        assert(encode_utf8(owned@) + without_underscores(bytes_of(input)) =~= without_underscores(
            bytes_of(input),
        ));
    }
    loop
        invariant
            without_underscores(bytes_of(input)) == encode_utf8(owned@) + without_underscores(
                bytes_of(cur),
            ),
        decreases bytes_of(cur).len(),
    {
        let c = cur.as_bytes();
        let ghost held = encode_utf8(owned@);
        match memchr::memchr(UNDERSCORE, c) {
            None => {
                proof {
                    lemma_without_underscores_none(c@);
                    lemma_encode_concat(owned@, cur@);
                }
                owned.append(cur);
                return owned;
            },
            Some(i) => {
                proof {
                    lemma_text_valid(cur);
                    lemma_boundary_ascii(c@, i as int);
                    lemma_without_underscores_piece(c@, i as int);
                    assert(c@.skip(i as int).skip(1) =~= c@.skip(i + 1));
                    assert(c@.skip(i as int)[0] == UNDERSCORE);
                    assert(held + (c@.take(i as int) + without_underscores(c@.skip(i + 1))) =~= (
                    held + c@.take(i as int)) + without_underscores(c@.skip(i + 1)));
                }
                let (piece, rest) = split_text(cur, i);
                proof {
                    lemma_text_valid(rest);
                    lemma_boundary_ascii(bytes_of(rest), 0);
                    assert(bytes_of(rest).skip(1) =~= c@.skip(i + 1));
                    lemma_encode_concat(owned@, piece@);
                }
                owned.append(piece);
                cur = tail_from(rest, 1);
            },
        }
    }
}

/// Reads the text of a decimal number that is too long for the buffer
/// without its underscores.
fn number_of_long_text(input: &str) -> (r: Result<KdlNumber, BoundsError>)
    ensures
        match r {
            Ok(v) => v.stands_for(text_number(bytes_of(input))) && text_fits(bytes_of(input)),
            Err(_) => !text_fits(bytes_of(input)),
        },
{
    let owned = without_separators(input);
    proof {
        lemma_without_underscores_twice(bytes_of(input));
    }
    number_of_plain_text(owned.as_str())
}

/// A text without its underscores has none to lose.
pub proof fn lemma_without_underscores_twice(s: Seq<u8>)
    ensures
        without_underscores(without_underscores(s)) == without_underscores(s),
{
    assert forall|j: int| 0 <= j < without_underscores(s).len() implies without_underscores(s)[j]
        != UNDERSCORE by {
        lemma_without_underscores_has_none(s, j);
    }
    lemma_without_underscores_none(without_underscores(s));
}

/// A text without its underscores holds no underscore.
pub proof fn lemma_without_underscores_has_none(s: Seq<u8>, j: int)
    requires
        0 <= j < without_underscores(s).len(),
    ensures
        without_underscores(s)[j] != UNDERSCORE,
    decreases s.len(),
{
    if s.len() == 0 {
    } else if s[0] == UNDERSCORE {
        lemma_without_underscores_has_none(s.skip(1), j);
    } else if j > 0 {
        lemma_without_underscores_has_none(s.skip(1), j - 1);
    }
}

/// Whether the result of a parser that works at an index of the input
/// agrees with the model: a builder that stands for the same integer and
/// the index where the same rest begins, or the same error. The last byte
/// that was read is a digit.
pub open spec fn agrees_at<T: IntBuilder>(
    r: Result<(usize, T), ParseError>,
    b: Seq<u8>,
    at: int,
    p: Parsed<Integer>,
) -> bool {
    match r {
        Ok((end, v)) => p matches Ok((k, rest)) && v.denotes(k) && at < end <= b.len() && rest
            == b.skip(end as int) && b[end - 1] < 0x80,
        Err(e) => p matches Err(se) && e@ == se,
    }
}

/// Whether the result of a number parser agrees with the model: a builder
/// that stands for the same number and the bytes of the same rest, or the
/// same error.
pub open spec fn agrees_number<T: NumberBuilder>(
    r: Result<(&str, T), ParseError>,
    p: Parsed<Number>,
) -> bool {
    match r {
        Ok((rest, v)) => p matches Ok((n, srest)) && v.denotes(n) && bytes_of(rest) == srest,
        Err(e) => p matches Err(se) && e@ == se,
    }
}

/// The radix of an integer that is written with a prefix.
#[derive(Debug, Clone, Copy, PartialEq, Eq)]
enum Base {
    Binary,
    Octal,
    Hex,
}

impl Base {
    spec fn spec_radix(self) -> nat {
        match self {
            Base::Binary => 2,
            Base::Octal => 8,
            Base::Hex => 16,
        }
    }

    fn radix(self) -> (r: u32)
        ensures
            r == self.spec_radix(),
    {
        match self {
            Base::Binary => 2,
            Base::Octal => 8,
            Base::Hex => 16,
        }
    }
}

/// Reads `+` or `-` at the index `at`.
fn parse_sign(b: &[u8], at: usize) -> (r: Option<Sign>)
    requires
        at <= b@.len(),
    ensures
        r == if at < b@.len() && b@[at as int] == PLUS {
            Some(Sign::Positive)
        } else if at < b@.len() && b@[at as int] == MINUS {
            Some(Sign::Negative)
        } else {
            None::<Sign>
        },
{
    if at < b.len() && b[at] == PLUS {
        Some(Sign::Positive)
    } else if at < b.len() && b[at] == MINUS {
        Some(Sign::Negative)
    } else {
        None
    }
}

/// Reads a sign at the index `at` if there is one, and yields the index
/// behind it.
fn parse_optional_sign(b: &[u8], at: usize) -> (r: (usize, Sign))
    requires
        at <= b@.len(),
    ensures
        (r.1, b@.skip(r.0 as int)) == spec_optional_sign(b@.skip(at as int)),
        at <= r.0 <= b@.len(),
        r.0 <= at + 1,
{
    let n = b.len();
    proof {
        if at < n {
            assert(b@.skip(at as int).skip(1) =~= b@.skip(at + 1));
        }
    }
    match parse_sign(b, at) {
        Some(sign) => (at + 1, sign),
        None => (at, Sign::Positive),
    }
}

/// Reads `0x`, `0o` or `0b` at the index `at`.
fn parse_base(b: &[u8], at: usize) -> (r: Option<Base>)
    requires
        at <= b@.len(),
    ensures
        match r {
            Some(base) => spec_base(b@.skip(at as int)) == Some(base.spec_radix()),
            None => spec_base(b@.skip(at as int)) is None,
        },
        r is Some ==> at + 2 <= b@.len(),
{
    if b.len() - at >= 2 && b[at] == ZERO {
        if b[at + 1] == LOWER_X {
            Some(Base::Hex)
        } else if b[at + 1] == LOWER_O {
            Some(Base::Octal)
        } else if b[at + 1] == LOWER_B {
            Some(Base::Binary)
        } else {
            None
        }
    } else {
        None
    }
}

/// The digits of a number stand for no less than those of its beginning,
/// whatever stands before them.
pub proof fn lemma_add_digits_monotone(acc: Integer, digits: Seq<u8>, radix: nat, i: int)
    requires
        0 <= i <= digits.len(),
        radix >= 1,
    ensures
        acc.add_digits(digits.take(i), radix).magnitude <= acc.add_digits(digits, radix).magnitude,
        acc.add_digits(digits, radix).sign == acc.sign,
    decreases digits.len(),
{
    if digits.len() == 0 {
        assert(digits.take(i) =~= digits);
    } else if i == digits.len() {
        assert(digits.take(i) =~= digits);
        lemma_add_digits_monotone(acc, digits.drop_last(), radix, 0);
    } else {
        let t = digits.drop_last();
        assert(t.take(i) =~= digits.take(i));
        lemma_add_digits_monotone(acc, t, radix, i);
        let m = acc.add_digits(t, radix).magnitude;
        assert(m * radix >= m) by (nonlinear_arith)
            requires
                radix >= 1,
        ;
    }
}

/// Reads the digits of an integer from the index `at` on into a builder:
/// groups of digits of the radix with one `_` between each two.
fn parse_integer_part<T: IntBuilder>(b: &[u8], at: usize, radix: u32, sign: Sign) -> (r: Result<
    (usize, T),
    ParseError,
>)
    requires
        at <= b@.len(),
        radix == 2 || radix == 8 || radix == 10 || radix == 16,
    ensures
        agrees_at(
            r,
            b@,
            at as int,
            spec_integer_part(b@.skip(at as int), radix as nat, Integer::start(sign), T::checked()),
        ),
{
    let n = b.len();
    let mut value = T::start(sign);
    let ghost mut k = Integer::start(sign);
    let mut pos = at;
    loop
        invariant
            n == b@.len(),
            at <= pos <= n,
            radix == 2 || radix == 8 || radix == 10 || radix == 16,
            value.denotes(k),
            spec_integer_part(b@.skip(pos as int), radix as nat, k, T::checked())
                == spec_integer_part(
                b@.skip(at as int),
                radix as nat,
                Integer::start(sign),
                T::checked(),
            ),
        decreases n - pos,
    {
        let ghost s = b@.skip(pos as int);
        let ghost k0 = k;
        let mut i = pos;
        proof {
            assert(s.take(0) =~= Seq::<u8>::empty());
            lemma_first_index(s, ends_digits(radix as nat));
        }
        loop
            invariant
                n == b@.len(),
                pos <= i <= n,
                s == b@.skip(pos as int),
                radix == 2 || radix == 8 || radix == 10 || radix == 16,
                forall|j: int| 0 <= j < i - pos ==> is_digit(s[j], radix as nat),
                value.denotes(k),
                k == k0.add_digits(s.take(i - pos), radix as nat),
                i > pos ==> !(T::checked() && !k.fits()),
                spec_integer_part(s, radix as nat, k0, T::checked()) == spec_integer_part(
                    b@.skip(at as int),
                    radix as nat,
                    Integer::start(sign),
                    T::checked(),
                ),
            ensures
                i == n || !is_digit(b@[i as int], radix as nat),
            decreases n - i,
        {
            if i == n {
                break ;
            }
            let d = match digit_of(b[i], radix) {
                Some(d) => d,
                None => {
                    break ;
                },
            };
            proof {
                assert(s[i - pos] == b@[i as int]);
                assert(s.take(i - pos + 1).drop_last() =~= s.take(i - pos));
                assert(s.take(i - pos + 1).last() == s[i - pos]);
                assert(value.denotes(k));
            }
            match value.add_digit(d, radix) {
                Ok(v) => {
                    value = v;
                    proof {
                        k = k.add_digit(d as nat, radix as nat);
                    }
                },
                Err(bounds) => {
                    proof {
                        let run = digit_run_len(s, radix as nat);
                        lemma_first_index(s, ends_digits(radix as nat));
                        if run < i - pos + 1 {
                            assert(ends_digits(radix as nat)(s[run]));
                        }
                        assert(s.take(run).take(i - pos + 1) =~= s.take(i - pos + 1));
                        lemma_add_digits_monotone(k0, s.take(run), radix as nat, i - pos + 1);
                        lemma_add_digits_monotone(k0, s.take(i - pos + 1), radix as nat, 0);
                        let k1 = k.add_digit(d as nat, radix as nat);
                        assert(k1 == k0.add_digits(s.take(i - pos + 1), radix as nat));
                        assert(T::checked() && !k1.fits());
                        assert(!k0.add_digits(s.take(run), radix as nat).fits());
                    }
                    return Err(bounds.at(n - pos));
                },
            }
            i += 1;
        }
        proof {
            lemma_first_index_is(s, ends_digits(radix as nat), i - pos);
        }
        if i == pos {
            return Err(ParseError::new(ErrorKind::Digit, n - pos));
        }
        proof {
            assert(s.skip(i - pos) =~= b@.skip(i as int));
            assert(s[i - pos - 1] == b@[i - 1]);
        }
        if i < n && b[i] == UNDERSCORE {
            proof {
                assert(b@.skip(i as int).skip(1) =~= b@.skip(i + 1));
            }
            pos = i + 1;
        } else {
            return Ok((i, value));
        }
    }
}

/// Reads an integer in hexadecimal, octal or binary from the index `at` on
/// into a builder.
fn parse_weird_number<T: IntBuilder>(b: &[u8], at: usize) -> (r: Result<(usize, T), ParseError>)
    requires
        at <= b@.len(),
    ensures
        agrees_at(r, b@, at as int, spec_weird_number(b@.skip(at as int), T::checked())),
{
    let n = b.len();
    let (pos, sign) = parse_optional_sign(b, at);
    let base = match parse_base(b, pos) {
        Some(base) => base,
        None => {
            return Err(ParseError::new(ErrorKind::Digit, n - pos));
        },
    };
    proof {
        assert(b@.skip(pos as int).skip(2) =~= b@.skip(pos + 2));
    }
    match parse_integer_part::<T>(b, pos + 2, base.radix(), sign) {
        Ok(r) => Ok(r),
        Err(e) => Err(e.cut()),
    }
}

/// Reads one run of decimal digits with `_` between its groups from the
/// index `at` on, and yields the index behind it.
fn recognize_decimal_component(b: &[u8], at: usize) -> (r: Result<usize, ParseError>)
    requires
        at <= b@.len(),
    ensures
        match r {
            Ok(end) => spec_decimal_component(b@.skip(at as int)) matches Ok((_, rest)) && at < end
                <= b@.len() && rest == b@.skip(end as int) && b@[end - 1] < 0x80,
            Err(e) => spec_decimal_component(b@.skip(at as int)) matches Err(se) && e@ == se,
        },
{
    match parse_integer_part::<()>(b, at, 10, Sign::Positive) {
        Ok((end, _)) => Ok(end),
        Err(e) => Err(e),
    }
}

/// Reads the fraction of a decimal number from the index `at` on, if
/// there is one, and yields the index behind it.
fn recognize_fraction(b: &[u8], at: usize) -> (r: Result<usize, ParseError>)
    requires
        0 < at <= b@.len(),
        b@[at - 1] < 0x80,
    ensures
        match r {
            Ok(end) => spec_fraction(b@.skip(at as int)) matches Ok((_, rest)) && at <= end
                <= b@.len() && rest == b@.skip(end as int) && b@[end - 1] < 0x80,
            Err(e) => spec_fraction(b@.skip(at as int)) matches Err(se) && e@ == se,
        },
{
    if at < b.len() && b[at] == DOT {
        proof {
            assert(b@.skip(at as int).skip(1) =~= b@.skip(at + 1));
        }
        match recognize_decimal_component(b, at + 1) {
            Ok(end) => Ok(end),
            Err(e) => Err(e.cut()),
        }
    } else {
        Ok(at)
    }
}

/// Reads the exponent of a decimal number from the index `at` on, if there
/// is one, and yields the index behind it.
fn recognize_exponent(b: &[u8], at: usize) -> (r: Result<usize, ParseError>)
    requires
        0 < at <= b@.len(),
        b@[at - 1] < 0x80,
    ensures
        match r {
            Ok(end) => spec_exponent(b@.skip(at as int)) matches Ok((_, rest)) && at <= end
                <= b@.len() && rest == b@.skip(end as int) && b@[end - 1] < 0x80,
            Err(e) => spec_exponent(b@.skip(at as int)) matches Err(se) && e@ == se,
        },
{
    if at < b.len() && (b[at] == LOWER_E || b[at] == UPPER_E) {
        proof {
            assert(b@.skip(at as int).skip(1) =~= b@.skip(at + 1));
        }
        let (pos, _) = parse_optional_sign(b, at + 1);
        match recognize_decimal_component(b, pos) {
            Ok(end) => Ok(end),
            Err(e) => Err(e.cut()),
        }
    } else {
        Ok(at)
    }
}

/// Reads the text of a decimal number from the start of `b` on, and yields
/// the index behind it.
fn recognize_decimal_token(b: &[u8]) -> (r: Result<usize, ParseError>)
    ensures
        match r {
            Ok(end) => spec_decimal_token(b@) matches Ok((_, rest)) && 0 < end <= b@.len() && rest
                == b@.skip(end as int) && b@[end - 1] < 0x80,
            Err(e) => spec_decimal_token(b@) matches Err(se) && e@ == se,
        },
{
    proof {
        assert(b@.skip(0) =~= b@);
    }
    let (pos, _) = parse_optional_sign(b, 0);
    let end = match recognize_decimal_component(b, pos) {
        Ok(end) => end,
        Err(e) => {
            return Err(e);
        },
    };
    let end = match recognize_fraction(b, end) {
        Ok(end) => end,
        Err(e) => {
            return Err(e);
        },
    };
    recognize_exponent(b, end)
}

/// Reads a decimal number into a builder: its text is recognized and then
/// handed to the builder.
fn parse_decimal_number<'i, T: NumberBuilder>(input: &'i str) -> (r: Result<(&'i str, T), ParseError>)
    ensures
        agrees_number(r, spec_decimal_number(bytes_of(input), T::checked())),
{
    let b = input.as_bytes();
    let n = b.len();
    let end = match recognize_decimal_token(b) {
        Ok(end) => end,
        Err(e) => {
            return Err(e);
        },
    };
    proof {
        lemma_text_valid(input);
        lemma_boundary_ascii(b@, end - 1);
    }
    let (token, rest) = split_text(input, end);
    match T::from_str(token) {
        Ok(v) => Ok((rest, v)),
        Err(bounds) => Err(bounds.at(n).cut()),
    }
}

/// Reads a number into a builder.
pub fn parse_number<'i, T: NumberBuilder>(input: &'i str) -> (r: Result<(&'i str, T), ParseError>)
    ensures
        agrees_number(
            r,
            spec_number(bytes_of(input), <T::IntForm as IntBuilder>::checked(), T::checked()),
        ),
{
    let b = input.as_bytes();
    proof {
        assert(b@.skip(0) =~= b@);
    }
    match parse_weird_number::<T::IntForm>(b, 0) {
        Ok((end, i)) => {
            proof {
                lemma_text_valid(input);
                lemma_boundary_ascii(b@, end - 1);
            }
            Ok((tail_from(input, end), T::from_int(i)))
        },
        Err(e) => {
            if e.fatal {
                Err(e)
            } else {
                parse_decimal_number::<T>(input)
            }
        },
    }
}

/// The digits of an integer take at least one byte.
pub proof fn lemma_integer_part_shorter(s: Seq<u8>, radix: nat, acc: Integer, checked: bool)
    ensures
        spec_integer_part(s, radix, acc, checked) matches Ok((_, rest)) ==> rest.len() < s.len(),
    decreases s.len(),
{
    lemma_first_index(s, ends_digits(radix));
    let n = digit_run_len(s, radix);
    if n > 0 {
        let rest = s.skip(n);
        if rest.len() >= 1 && rest[0] == UNDERSCORE {
            lemma_integer_part_shorter(rest.skip(1), radix, acc.add_digits(s.take(n), radix), checked);
        }
    }
}

/// A number takes at least one byte.
pub proof fn lemma_number_shorter(s: Seq<u8>, checked_int: bool, checked: bool)
    ensures
        spec_number(s, checked_int, checked) matches Ok((_, rest)) ==> rest.len() < s.len(),
{
    let (sign, t) = spec_optional_sign(s);
    if spec_base(t) is Some {
        lemma_integer_part_shorter(t.skip(2), spec_base(t)->0, Integer::start(sign), checked_int);
    }
    lemma_integer_part_shorter(t, 10, Integer::start(Sign::Positive), false);
    if let Ok((_, u)) = spec_decimal_component(t) {
        if u.len() >= 1 && u[0] == DOT {
            lemma_integer_part_shorter(u.skip(1), 10, Integer::start(Sign::Positive), false);
        }
        if let Ok((_, v)) = spec_fraction(u) {
            if v.len() >= 1 && (v[0] == LOWER_E || v[0] == UPPER_E) {
                lemma_integer_part_shorter(
                    spec_optional_sign(v.skip(1)).1,
                    10,
                    Integer::start(Sign::Positive),
                    false,
                );
            }
        }
    }
}

/// The digits of an integer are read alike with and without the check of
/// its bounds, unless the check fails.
pub proof fn lemma_integer_part_unchecked(s: Seq<u8>, radix: nat, acc: Integer, checked: bool)
    ensures
        same_unless_bounds(
            spec_integer_part(s, radix, acc, checked),
            spec_integer_part(s, radix, acc, false),
        ),
    decreases s.len(),
{
    let n = digit_run_len(s, radix);
    if n > 0 {
        let acc2 = acc.add_digits(s.take(n), radix);
        let rest = s.skip(n);
        if !(checked && !acc2.fits()) && rest.len() >= 1 && rest[0] == UNDERSCORE && rest.len()
            <= s.len() {
            lemma_integer_part_unchecked(rest.skip(1), radix, acc2, checked);
        }
    }
}

/// A number is read alike with and without the check of its bounds, unless
/// the check fails, and then the error is fatal: a number that does not
/// fit is never read as anything else.
pub proof fn lemma_number_unchecked(s: Seq<u8>, checked_int: bool, checked: bool)
    ensures
        same_unless_fatal_bounds(
            spec_number(s, checked_int, checked),
            spec_number(s, false, false),
        ),
{
    let (sign, t) = spec_optional_sign(s);
    if let Some(radix) = spec_base(t) {
        lemma_integer_part_unchecked(t.skip(2), radix, Integer::start(sign), checked_int);
    }
}

/// The digits of a number that come first, and then those that follow.
pub proof fn lemma_add_digits_concat(acc: Integer, a: Seq<u8>, b: Seq<u8>, radix: nat)
    ensures
        acc.add_digits(a + b, radix) == acc.add_digits(a, radix).add_digits(b, radix),
    decreases b.len(),
{
    if b.len() == 0 {
        assert(a + b =~= a);
    } else {
        assert((a + b).drop_last() =~= a + b.drop_last());
        assert((a + b).last() == b.last());
        lemma_add_digits_concat(acc, a, b.drop_last(), radix);
    }
}

/// The digits that are added to zero make the number that they stand for.
pub proof fn lemma_add_digits_value(sign: Sign, digits: Seq<u8>, radix: nat)
    ensures
        Integer::start(sign).add_digits(digits, radix) == (Integer {
            sign,
            magnitude: digits_value(digits, radix),
        }),
    decreases digits.len(),
{
    if digits.len() > 0 {
        lemma_add_digits_value(sign, digits.drop_last(), radix);
    }
}

/// The integer that is read is made of the digits that were read, without
/// the `_` between them, behind the digits of `acc`.
pub proof fn lemma_integer_part_digits(s: Seq<u8>, radix: nat, acc: Integer, checked: bool)
    ensures
        spec_integer_part(s, radix, acc, checked) matches Ok((k, rest)) ==> rest.len() < s.len()
            && k == acc.add_digits(without_underscores(s.take(s.len() - rest.len())), radix) && (
        checked ==> k.fits()),
    decreases s.len(),
{
    lemma_first_index(s, ends_digits(radix));
    let n = digit_run_len(s, radix);
    if n > 0 {
        let group = s.take(n);
        let acc2 = acc.add_digits(group, radix);
        let after = s.skip(n);
        assert forall|j: int| 0 <= j < n implies s[j] != UNDERSCORE by {
            assert(!ends_digits(radix)(s[j]));
        }
        if !(checked && !acc2.fits()) {
            if after.len() >= 1 && after[0] == UNDERSCORE {
                let more = after.skip(1);
                lemma_integer_part_digits(more, radix, acc2, checked);
                lemma_integer_part_shorter(more, radix, acc2, checked);
                if let Ok((k, rest)) = spec_integer_part(more, radix, acc2, checked) {
                    let read = s.take(s.len() - rest.len());
                    let read_more = more.take(more.len() - rest.len());
                    lemma_without_underscores_piece(read, n);
                    assert(read.take(n) =~= group);
                    assert(read.skip(n)[0] == UNDERSCORE);
                    assert(read.skip(n).skip(1) =~= read_more);
                    lemma_add_digits_concat(acc, group, without_underscores(read_more), radix);
                }
            } else {
                let read = s.take(s.len() - after.len());
                assert(read =~= group);
                lemma_without_underscores_none(group);
            }
        }
    }
}

} // verus!
