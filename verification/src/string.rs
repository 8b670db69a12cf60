//! Strings and identifiers: the string type, the builders that a parser
//! fills, and the parsers of bare identifiers, quoted strings and raw
//! strings.

use std::borrow::Cow;
use vstd::prelude::*;
use vstd::string::*;
use vstd::utf8::*;
use crate::error::{
    context, cut, cut_error, fail, or_else, Context, ErrorKind, ParseError, Parsed, SpecError,
};
use crate::util::{
    agrees, agrees_text, bytes_of, digit_of, digits_value, first_index, is_digit,
    lemma_boundary_ascii, lemma_encode_parts, lemma_first_index, lemma_first_index_is,
    lemma_first_index_skip, lemma_scalar_bytes, lemma_text_of_bytes, lemma_text_valid, same_bytes,
    split_text, starts_with2, tail_from, BACKSLASH, CLOSE_BRACE, CLOSE_BRACKET, CLOSE_PAREN, COMMA,
    EQUALS, GREATER_THAN, HASH, LESS_THAN, LOWER_R, LOWER_U, OPEN_BRACE, OPEN_BRACKET, OPEN_PAREN,
    QUOTE, SEMICOLON, SLASH,
};

verus! {

/// A string in the model: its bytes, and whether it is a copy or a part of
/// the input.
pub struct Text {
    /// The UTF-8 encoding of the string.
    pub bytes: Seq<u8>,
    /// Whether the string had to be copied.
    pub owned: bool,
}

impl Text {
    /// A part of the input.
    pub open spec fn borrowed(bytes: Seq<u8>) -> Text {
        Text { bytes, owned: false }
    }

    /// The empty string.
    pub open spec fn empty() -> Text {
        Text::borrowed(Seq::empty())
    }

    /// The string with a part of the input behind it. Behind the empty
    /// string the part is borrowed; behind any other it is copied.
    pub open spec fn push_str(self, bytes: Seq<u8>) -> Text {
        if self.bytes.len() == 0 {
            Text::borrowed(bytes)
        } else {
            Text { bytes: self.bytes + bytes, owned: true }
        }
    }

    /// The string with one character behind it, which is always copied.
    pub open spec fn push_char(self, c: char) -> Text {
        Text { bytes: self.bytes + encode_scalar(c as u32), owned: true }
    }
}

/// The encoding of a concatenation is the concatenation of the encodings.
pub proof fn lemma_encode_concat(a: Seq<char>, b: Seq<char>)
    ensures
        encode_utf8(a + b) == encode_utf8(a) + encode_utf8(b),
    decreases a.len(),
{
    if a.len() == 0 {
        assert(a + b =~= b);
        assert(encode_utf8(a) + encode_utf8(b) =~= encode_utf8(b));
    } else {
        assert((a + b).drop_first() =~= a.drop_first() + b);
        lemma_encode_concat(a.drop_first(), b);
        assert(encode_utf8(a + b) =~= encode_utf8(a) + encode_utf8(b));
    }
}

/// The encoding of a sequence with one more character.
pub proof fn lemma_encode_push(a: Seq<char>, c: char)
    ensures
        encode_utf8(a.push(c)) == encode_utf8(a) + encode_scalar(c as u32),
{
    lemma_encode_concat(a, seq![c]);
    assert(a.push(c) =~= a + seq![c]);
    assert(seq![c].drop_first() =~= Seq::<char>::empty());
    reveal_with_fuel(encode_utf8, 2);
    assert(encode_utf8(seq![c]) =~= encode_scalar(c as u32));
}

/// Only the empty sequence of characters has an empty encoding.
pub proof fn lemma_encode_empty(a: Seq<char>)
    ensures
        encode_utf8(a).len() == 0 <==> a.len() == 0,
{
    if a.len() > 0 {
        assert(encode_scalar(a[0] as u32).len() >= 1);
    }
}

/// `String::push` appends one character.
pub assume_specification[ std::string::String::push ](s: &mut std::string::String, ch: char)
    ensures
        final(s)@ == old(s)@.push(ch),
;

/// `Cow::clone` copies a `Cow`. Nothing is claimed of the copy.
pub assume_specification<'a, B>[ <std::borrow::Cow<'a, B> as std::clone::Clone>::clone ](
    c: &std::borrow::Cow<'a, B>,
) -> (r: std::borrow::Cow<'a, B>) where B: std::borrow::ToOwned + ?Sized
;

/// A string read from a document: a part of the document's text where that
/// was possible, a copy where escapes had to be resolved.
#[derive(Debug, Clone, Hash)]
pub struct KdlString<'a> {
    inner: Cow<'a, str>,
}

/// What a `Cow` stands for in the model.
pub open spec fn cow_text(cow: Cow<'_, str>) -> Text {
    match cow {
        Cow::Borrowed(s) => Text { bytes: bytes_of(s), owned: false },
        Cow::Owned(s) => Text { bytes: encode_utf8(s@), owned: true },
    }
}

impl<'a> KdlString<'a> {
    /// What the string stands for in the model.
    pub closed spec fn text(&self) -> Text {
        cow_text(self.inner)
    }

    /// The empty string.
    pub fn new() -> (r: Self)
        ensures
            r.text() == Text::empty(),
    {
        let r = Self::from_borrowed("");
        proof {
            reveal_strlit("");
            lemma_encode_empty(""@);
            assert(r.text().bytes =~= Seq::<u8>::empty());
        }
        r
    }

    /// The string that `cow` holds.
    pub fn from_cow(cow: Cow<'a, str>) -> (r: Self)
        ensures
            r.text() == cow_text(cow),
    {
        Self { inner: cow }
    }

    /// A string that is a part of a longer-lived text.
    pub fn from_borrowed(s: &'a str) -> (r: Self)
        ensures
            r.text() == Text::borrowed(bytes_of(s)),
    {
        Self::from_cow(Cow::Borrowed(s))
    }

    /// A string that owns its text.
    pub fn from_string(s: String) -> (r: Self)
        ensures
            r.text() == (Text { bytes: encode_utf8(s@), owned: true }),
    {
        Self::from_cow(Cow::Owned(s))
    }

    /// The text as an owned `String`, copied where it was borrowed.
    pub fn into_string(self) -> (r: String)
        ensures
            encode_utf8(r@) == self.text().bytes,
    {
        match self.inner {
            Cow::Borrowed(s) => s.to_owned(),
            Cow::Owned(s) => s,
        }
    }

    /// The text.
    pub fn as_str(&self) -> (r: &str)
        ensures
            bytes_of(r) == self.text().bytes,
    {
        match &self.inner {
            Cow::Borrowed(s) => s,
            Cow::Owned(s) => s.as_str(),
        }
    }

    /// Whether the string is a part of the input and not a copy.
    pub fn is_borrowed(&self) -> (r: bool)
        ensures
            r == !self.text().owned,
    {
        match &self.inner {
            Cow::Borrowed(_) => true,
            Cow::Owned(_) => false,
        }
    }
}

impl<'a> KdlString<'a> {
    /// Whether the string is the text `other`.
    pub fn eq_str(&self, other: &str) -> (r: bool)
        ensures
            r == (self.text().bytes == bytes_of(other)),
    {
        same_bytes(self.as_str().as_bytes(), other.as_bytes())
    }
}

/// Two strings are equal where their texts are, borrowed or not.
impl<'a> PartialEq for KdlString<'a> {
    fn eq(&self, other: &Self) -> (r: bool) {
        same_bytes(self.as_str().as_bytes(), other.as_str().as_bytes())
    }
}

impl<'a> vstd::std_specs::cmp::PartialEqSpecImpl for KdlString<'a> {
    open spec fn obeys_eq_spec() -> bool {
        true
    }

    open spec fn eq_spec(&self, other: &Self) -> bool {
        self.text().bytes == other.text().bytes
    }
}

impl<'a> Eq for KdlString<'a> {

}

impl<'a> Default for KdlString<'a> {
    fn default() -> (r: Self)
        ensures
            r.text() == Text::empty(),
    {
        Self::new()
    }
}

/// What a string parser fills. A parser hands it the parts of the input and
/// the characters that make up one string, in order; a builder may keep
/// them, or only take note that a string was there.
pub trait StringBuilder<'a>: Sized {
    /// Whether this value may stand for the string `text`.
    spec fn denotes(&self, text: Text) -> bool;

    /// Puts a part of the input behind what was built so far.
    fn push_str(&mut self, s: &'a str)
        ensures
            forall|t: Text| #[trigger] old(self).denotes(t) ==> final(self).denotes(t.push_str(bytes_of(s))),
    ;

    /// Puts one character behind what was built so far.
    fn push_char(&mut self, c: char)
        ensures
            forall|t: Text| #[trigger] old(self).denotes(t) ==> final(self).denotes(t.push_char(c)),
    ;

    /// A builder that holds a part of the input.
    fn from_str(s: &'a str) -> (r: Self)
        ensures
            r.denotes(Text::borrowed(bytes_of(s))),
    ;

    /// A builder that holds the empty string.
    fn empty() -> (r: Self)
        ensures
            r.denotes(Text::empty()),
    ;
}

/// The unit type takes note that a string was there and keeps nothing.
impl<'a> StringBuilder<'a> for () {
    open spec fn denotes(&self, text: Text) -> bool {
        true
    }

    fn push_str(&mut self, s: &'a str) {
    }

    fn push_char(&mut self, c: char) {
    }

    fn from_str(s: &'a str) -> (r: Self) {
        ()
    }

    fn empty() -> (r: Self) {
        ()
    }
}

/// A `String` keeps a copy of everything.
impl<'a> StringBuilder<'a> for String {
    open spec fn denotes(&self, text: Text) -> bool {
        encode_utf8(self@) == text.bytes
    }

    fn push_str(&mut self, s: &'a str) {
        proof {
            lemma_encode_concat(self@, s@);
            assert forall|t: Text| #[trigger] self.denotes(t) implies (t.push_str(bytes_of(s))).bytes
                == encode_utf8(self@ + s@) by {
                if t.bytes.len() == 0 {
                    assert(encode_utf8(self@) + encode_utf8(s@) =~= encode_utf8(s@));
                }
            }
        }
        self.append(s);
    }

    fn push_char(&mut self, c: char) {
        proof {
            lemma_encode_push(self@, c);
        }
        self.push(c);
    }

    fn from_str(s: &'a str) -> (r: Self) {
        s.to_owned()
    }

    fn empty() -> (r: Self) {
        let r = String::new();
        proof {
            lemma_encode_empty(r@);
            assert(encode_utf8(r@) =~= Seq::<u8>::empty());
        }
        r
    }
}

/// A `KdlString` borrows while it can and copies when it must.
impl<'a> StringBuilder<'a> for KdlString<'a> {
    open spec fn denotes(&self, text: Text) -> bool {
        self.text() == text
    }

    fn push_str(&mut self, s: &'a str) {
        let ghost before = self.text();
        let current = self.as_str();
        let empty = current.is_empty();
        proof {
            lemma_encode_empty(current@);
        }
        if empty {
            self.inner = Cow::Borrowed(s);
        } else {
            match &mut self.inner {
                Cow::Owned(o) => {
                    proof {
                        lemma_encode_concat(o@, s@);
                    }
                    o.append(s);
                },
                Cow::Borrowed(b) => {
                    let mut owned = (*b).to_owned();
                    proof {
                        lemma_encode_concat(owned@, s@);
                    }
                    owned.append(s);
                    self.inner = Cow::Owned(owned);
                },
            }
        }
        assert(self.text() == before.push_str(bytes_of(s)));
    }

    fn push_char(&mut self, c: char) {
        let ghost before = self.text();
        match &mut self.inner {
            Cow::Owned(o) => {
                proof {
                    lemma_encode_push(o@, c);
                }
                o.push(c);
            },
            Cow::Borrowed(b) => {
                let mut owned = (*b).to_owned();
                proof {
                    lemma_encode_push(owned@, c);
                }
                owned.push(c);
                self.inner = Cow::Owned(owned);
            },
        }
        assert(self.text() == before.push_char(c));
    }

    fn from_str(s: &'a str) -> (r: Self) {
        Self::from_borrowed(s)
    }

    fn empty() -> (r: Self) {
        Self::new()
    }
}

/// Whether the result of a string parser agrees with the model: a builder
/// that stands for the same string and the bytes of the same rest, or the
/// same error.
pub open spec fn agrees_string<'a, T: StringBuilder<'a>>(
    r: Result<(&str, T), ParseError>,
    p: Parsed<Text>,
) -> bool {
    match r {
        Ok((rest, v)) => p matches Ok((t, srest)) && v.denotes(t) && bytes_of(rest) == srest,
        Err(e) => p matches Err(se) && e@ == se,
    }
}

/// A result whose value is taken for a borrowed string.
pub open spec fn as_borrowed(p: Parsed<Seq<u8>>) -> Parsed<Text> {
    match p {
        Ok((b, rest)) => Ok((Text::borrowed(b), rest)),
        Err(e) => Err(e),
    }
}

/// The number of `#` that `s` begins with.
pub open spec fn count_hashes(s: Seq<u8>) -> nat
    decreases s.len(),
{
    if s.len() > 0 && s[0] == HASH {
        1 + count_hashes(s.skip(1))
    } else {
        0
    }
}

/// Whether `s` begins with `n` times `#`.
pub open spec fn all_hashes(s: Seq<u8>, n: nat) -> bool {
    s.len() >= n && forall|k: int| 0 <= k < n ==> s[k] == HASH
}

/// The index of the quote that closes a raw string with `hashes` hashes: the
/// first quote of `s` that has so many `#` behind it. `None` where `s`
/// holds no such quote.
pub open spec fn raw_close(s: Seq<u8>, hashes: nat) -> Option<int>
    decreases s.len(),
{
    if s.len() == 0 {
        None
    } else if s[0] == QUOTE && all_hashes(s.skip(1), hashes) {
        Some(0)
    } else {
        match raw_close(s.skip(1), hashes) {
            Some(i) => Some(i + 1),
            None => None,
        }
    }
}

/// An index, moved by `by`.
pub open spec fn moved(i: Option<int>, by: int) -> Option<int> {
    match i {
        Some(i) => Some(i + by),
        None => None,
    }
}

/// A raw string: `r`, any number of `#`, a quote, the content, and the
/// first quote that has the same number of `#` behind it. The content is
/// taken as it stands. A raw string that is never closed is a fatal error at
/// the end of the input.
pub open spec fn spec_raw_string(s: Seq<u8>) -> Parsed<Seq<u8>> {
    if !(s.len() >= 1 && s[0] == LOWER_R) {
        Err(fail(ErrorKind::Char(LOWER_R), s.len()))
    } else {
        let h = count_hashes(s.skip(1));
        if !(s.len() > 1 + h && s[1 + h as int] == QUOTE) {
            Err(fail(ErrorKind::Char(QUOTE), (s.len() - 1) as nat))
        } else {
            let body = s.skip(2 + h as int);
            match raw_close(body, h) {
                Some(i) => Ok((body.take(i), body.skip(i + 1 + h as int))),
                None => Err(cut_error(fail(ErrorKind::UnexpectedEnd, 0))),
            }
        }
    }
}

/// Whether the byte may stand in a bare identifier: any byte above the
/// space but the fourteen characters that have a meaning of their own.
/// The bytes of the characters beyond ASCII are all of them.
pub open spec fn is_identifier_byte(b: u8) -> bool {
    b > 0x20 && b != BACKSLASH && b != SLASH && b != OPEN_PAREN && b != CLOSE_PAREN && b
        != OPEN_BRACE && b != CLOSE_BRACE && b != LESS_THAN && b != GREATER_THAN && b != SEMICOLON
        && b != OPEN_BRACKET && b != CLOSE_BRACKET && b != EQUALS && b != COMMA && b != QUOTE
}

/// Whether the byte may start a bare identifier: an identifier byte that is
/// no digit.
pub open spec fn is_initial_identifier_byte(b: u8) -> bool {
    is_identifier_byte(b) && !(0x30 <= b <= 0x39)
}

/// Whether the character may stand in a bare identifier.
pub open spec fn is_identifier_char(c: char) -> bool {
    let p = c as u32;
    p > 0x20 && p <= 0x10FFFF && p != 0x5c && p != 0x2f && p != 0x28 && p != 0x29 && p != 0x7b
        && p != 0x7d && p != 0x3c && p != 0x3e && p != 0x3b && p != 0x5b && p != 0x5d && p != 0x3d
        && p != 0x2c && p != 0x22
}

/// Whether the character may start a bare identifier.
pub open spec fn is_initial_identifier_char(c: char) -> bool {
    is_identifier_char(c) && !(0x30 <= c as u32 <= 0x39)
}

/// The bytes that end a bare identifier.
pub open spec fn ends_identifier() -> spec_fn(u8) -> bool {
    |b: u8| !is_identifier_byte(b)
}

/// The bytes that are no hexadecimal digits.
pub open spec fn ends_hex() -> spec_fn(u8) -> bool {
    |b: u8| !is_digit(b, 16)
}

/// The bytes that end a run of text in a quoted string.
pub open spec fn ends_run() -> spec_fn(u8) -> bool {
    |b: u8| b == QUOTE || b == BACKSLASH
}

/// The length of the run of identifier bytes that `s` begins with.
pub open spec fn identifier_len(s: Seq<u8>) -> int {
    first_index(s, ends_identifier())
}

/// A bare identifier: the longest run of identifier bytes, the first of
/// which is no digit.
pub open spec fn spec_bare_identifier(s: Seq<u8>) -> Parsed<Seq<u8>> {
    if s.len() >= 1 && is_initial_identifier_byte(s[0]) {
        Ok((s.take(identifier_len(s)), s.skip(identifier_len(s))))
    } else {
        Err(fail(ErrorKind::Identifier, s.len()))
    }
}

/// The number of hexadecimal digits that `s` begins with, up to six.
pub open spec fn hex_run_len(s: Seq<u8>) -> int {
    let n = first_index(s, ends_hex());
    if n < 6 {
        n
    } else {
        6
    }
}

/// The escape `u{..}` with one to six hexadecimal digits, which stands for
/// the character with that number. Behind `u{` every error is fatal.
pub open spec fn spec_unicode_escape(s: Seq<u8>) -> Parsed<char> {
    if !starts_with2(s, LOWER_U, OPEN_BRACE) {
        Err(fail(ErrorKind::Char(LOWER_U), s.len()))
    } else {
        let t = s.skip(2);
        let n = hex_run_len(t);
        let v = digits_value(t.take(n), 16);
        if n == 0 {
            Err(cut_error(fail(ErrorKind::HexDigit, t.len())))
        } else if !is_scalar(v as u32) {
            Err(cut_error(fail(ErrorKind::CodePoint, t.len())))
        } else if !(t.len() > n && t[n] == CLOSE_BRACE) {
            Err(cut_error(fail(ErrorKind::Char(CLOSE_BRACE), (t.len() - n) as nat)))
        } else {
            Ok(((v as u32) as char, t.skip(n + 1)))
        }
    }
}

/// The character that a one-letter escape stands for.
pub open spec fn simple_escape(b: u8) -> Option<char> {
    if b == 0x6e {
        Some('\n')
    } else if b == 0x72 {
        Some('\r')
    } else if b == 0x74 {
        Some('\t')
    } else if b == BACKSLASH {
        Some('\\')
    } else if b == SLASH {
        Some('/')
    } else if b == QUOTE {
        Some('"')
    } else if b == 0x62 {
        Some('\u{08}')
    } else if b == 0x66 {
        Some('\u{0C}')
    } else {
        None
    }
}

/// An escape: a backslash and one of `n r t \ / " b f`, or a backslash and
/// a `u{..}` escape.
pub open spec fn spec_escape(s: Seq<u8>) -> Parsed<char> {
    if !(s.len() >= 1 && s[0] == BACKSLASH) {
        Err(fail(ErrorKind::Char(BACKSLASH), s.len()))
    } else {
        let t = s.skip(1);
        if t.len() >= 1 && simple_escape(t[0]) is Some {
            Ok((simple_escape(t[0])->0, t.skip(1)))
        } else {
            spec_unicode_escape(t)
        }
    }
}

/// One piece of a quoted string in the model.
pub enum Chunk {
    /// A run of the input without quote and backslash.
    Run(Seq<u8>),
    /// The character of an escape.
    Char(char),
}

/// The length of the run without quote and backslash that `s` begins with.
pub open spec fn run_len(s: Seq<u8>) -> int {
    first_index(s, ends_run())
}

/// One piece of a quoted string: a run without quote and backslash that is
/// not empty and ends before the end of the input, or else an escape.
pub open spec fn spec_chunk(s: Seq<u8>) -> Parsed<Chunk> {
    let n = run_len(s);
    if 0 < n < s.len() {
        Ok((Chunk::Run(s.take(n)), s.skip(n)))
    } else {
        match spec_escape(s) {
            Ok((c, rest)) => Ok((Chunk::Char(c), rest)),
            Err(e) => Err(e),
        }
    }
}

/// The string with one more piece.
pub open spec fn push_chunk(acc: Text, chunk: Chunk) -> Text {
    match chunk {
        Chunk::Run(b) => acc.push_str(b),
        Chunk::Char(c) => acc.push_char(c),
    }
}

/// The pieces of a quoted string up to the closing quote, put behind `acc`:
/// one piece or more. The comparison of lengths serves the termination of
/// the definition: a piece takes a byte at least, so that it always holds.
pub open spec fn spec_string_body(s: Seq<u8>, acc: Text) -> Parsed<Text>
    decreases s.len(),
{
    match spec_chunk(s) {
        Err(e) => Err(e),
        Ok((chunk, rest)) => {
            let acc2 = push_chunk(acc, chunk);
            if rest.len() >= 1 && rest[0] == QUOTE {
                Ok((acc2, rest.skip(1)))
            } else if rest.len() < s.len() {
                spec_string_body(rest, acc2)
            } else {
                Err(fail(ErrorKind::Char(QUOTE), s.len()))
            }
        },
    }
}

/// A quoted string: a quote, runs of text and escapes, and a quote. Behind
/// the opening quote every error is fatal: an escape that is malformed
/// behind `u{` is reported where it stands, and anything else as a missing
/// quote at the start of the content.
pub open spec fn spec_escaped_string(s: Seq<u8>) -> Parsed<Text> {
    if !(s.len() >= 1 && s[0] == QUOTE) {
        Err(fail(ErrorKind::Char(QUOTE), s.len()))
    } else {
        let t = s.skip(1);
        match spec_string_body(t, Text::empty()) {
            Ok(r) => Ok(r),
            Err(e) => if e.fatal {
                Err(e)
            } else if t.len() >= 1 && t[0] == QUOTE {
                Ok((Text::empty(), t.skip(1)))
            } else {
                Err(cut_error(fail(ErrorKind::Char(QUOTE), t.len())))
            },
        }
    }
}

/// A string: a quoted string, or else a raw string.
pub open spec fn spec_string(s: Seq<u8>) -> Parsed<Text> {
    or_else(
        context(spec_escaped_string(s), Context::EscapedString),
        context(as_borrowed(spec_raw_string(s)), Context::RawString),
    )
}

/// An identifier: a bare identifier, or else a string.
pub open spec fn spec_identifier(s: Seq<u8>) -> Parsed<Text> {
    or_else(as_borrowed(spec_bare_identifier(s)), context(spec_string(s), Context::String))
}

/// Before the first quote of `s` no raw string closes.
pub proof fn lemma_raw_close_skip(s: Seq<u8>, hashes: nat, k: int)
    requires
        0 <= k <= s.len(),
        forall|j: int| 0 <= j < k ==> s[j] != QUOTE,
    ensures
        raw_close(s, hashes) == moved(raw_close(s.skip(k), hashes), k),
    decreases k,
{
    if k == 0 {
        assert(s.skip(0) =~= s);
    } else {
        assert(s[0] != QUOTE);
        assert forall|j: int| 0 <= j < k - 1 implies s.skip(1)[j] != QUOTE by {
            assert(s.skip(1)[j] == s[j + 1]);
        }
        lemma_raw_close_skip(s.skip(1), hashes, k - 1);
        assert(s.skip(1).skip(k - 1) =~= s.skip(k));
    }
}

/// A text that is too short to hold a quote and the hashes holds no end of
/// a raw string.
pub proof fn lemma_raw_close_short(s: Seq<u8>, hashes: nat)
    requires
        s.len() < 1 + hashes,
    ensures
        raw_close(s, hashes) is None,
    decreases s.len(),
{
    if s.len() > 0 {
        lemma_raw_close_short(s.skip(1), hashes);
    }
}

/// The closing quote of a raw string is a quote with the hashes behind it,
/// and the first such.
pub proof fn lemma_raw_close_is_first(s: Seq<u8>, hashes: nat)
    ensures
        raw_close(s, hashes) matches Some(i) ==> 0 <= i < s.len() && s[i] == QUOTE && all_hashes(
            s.skip(i + 1),
            hashes,
        ) && forall|j: int|
            0 <= j < i ==> !(s[j] == QUOTE && all_hashes(#[trigger] s.skip(j + 1), hashes)),
        raw_close(s, hashes) is None ==> forall|j: int|
            0 <= j < s.len() ==> !(s[j] == QUOTE && all_hashes(#[trigger] s.skip(j + 1), hashes)),
    decreases s.len(),
{
    if s.len() == 0 {
    } else if s[0] == QUOTE && all_hashes(s.skip(1), hashes) {
    } else {
        let t = s.skip(1);
        lemma_raw_close_is_first(t, hashes);
        match raw_close(t, hashes) {
            Some(i) => {
                assert(s.skip(i + 2) =~= t.skip(i + 1));
                assert forall|j: int| 0 <= j < i + 1 implies !(s[j] == QUOTE && all_hashes(
                    #[trigger] s.skip(j + 1),
                    hashes,
                )) by {
                    if j > 0 {
                        assert(s.skip(j + 1) =~= t.skip(j - 1 + 1));
                        assert(s[j] == t[j - 1]);
                    }
                }
            },
            None => {
                assert forall|j: int| 0 <= j < s.len() implies !(s[j] == QUOTE && all_hashes(
                    #[trigger] s.skip(j + 1),
                    hashes,
                )) by {
                    if j > 0 {
                        assert(s.skip(j + 1) =~= t.skip(j - 1 + 1));
                        assert(s[j] == t[j - 1]);
                    }
                }
            },
        }
    }
}

/// An escape takes at least two bytes.
pub proof fn lemma_escape_shorter(s: Seq<u8>)
    ensures
        spec_escape(s) matches Ok((_, rest)) ==> rest.len() + 2 <= s.len(),
{
    if s.len() >= 1 {
        lemma_first_index(s.skip(1).skip(2), ends_hex());
    }
}

/// A piece of a quoted string takes at least one byte.
pub proof fn lemma_chunk_shorter(s: Seq<u8>)
    ensures
        spec_chunk(s) matches Ok((_, rest)) ==> rest.len() < s.len(),
{
    lemma_first_index(s, ends_run());
    lemma_escape_shorter(s);
}

/// A cursor over a text: the text is parted at a point, which moves on.
struct SliceShifter<'a> {
    base: &'a str,
    point: usize,
}

impl<'a> SliceShifter<'a> {
    /// The point lies on a character boundary of the text.
    spec fn wf(&self) -> bool {
        self.point <= bytes_of(self.base).len() && is_char_boundary(
            bytes_of(self.base),
            self.point as int,
        )
    }

    fn new(base: &'a str) -> (r: Self)
        ensures
            r.wf(),
            r.base == base,
            r.point == 0,
    {
        proof {
            lemma_text_valid(base);
        }
        Self { base, point: 0 }
    }

    /// The text before the point.
    fn head(&self) -> (r: &'a str)
        requires
            self.wf(),
        ensures
            bytes_of(r) == bytes_of(self.base).take(self.point as int),
    {
        let (head, _) = split_text(self.base, self.point);
        head
    }

    /// The text from the point on.
    fn tail(&self) -> (r: &'a str)
        requires
            self.wf(),
        ensures
            bytes_of(r) == bytes_of(self.base).skip(self.point as int),
    {
        tail_from(self.base, self.point)
    }

    /// Moves the point on by `amount` bytes.
    fn shift(&mut self, amount: usize)
        requires
            old(self).wf(),
            old(self).point + amount <= bytes_of(old(self).base).len(),
            is_char_boundary(bytes_of(old(self).base), old(self).point + amount),
        ensures
            final(self).wf(),
            final(self).base == old(self).base,
            final(self).point == old(self).point + amount,
    {
        proof {
            lemma_text_valid(self.base);
        }
        let ghost len = bytes_of(self.base).len();
        let n = self.base.as_bytes().len();
        assert(n == len);
        self.point += amount
    }
}

/// Whether the first `count` bytes of `bytes` are all `#`.
fn starts_with_hashes(bytes: &[u8], count: usize) -> (r: bool)
    requires
        count <= bytes@.len(),
    ensures
        r == all_hashes(bytes@, count as nat),
{
    let mut k: usize = 0;
    while k < count
        invariant
            k <= count <= bytes@.len(),
            forall|j: int| 0 <= j < k ==> bytes@[j] == HASH,
        decreases count - k,
    {
        if bytes[k] != HASH {
            return false;
        }
        k += 1;
    }
    true
}

/// Reads a raw string, such as `r##"abc"##`, and yields its content as it
/// stands in the input.
pub fn parse_raw_string<'i>(input: &'i str) -> (r: Result<(&'i str, &'i str), ParseError>)
    ensures
        agrees_text(r, spec_raw_string(bytes_of(input))),
{
    let b = input.as_bytes();
    let n = b.len();
    if !(n >= 1 && b[0] == LOWER_R) {
        return Err(ParseError::new(ErrorKind::Char(LOWER_R), n));
    }
    let mut i: usize = 1;
    while i < n && b[i] == HASH
        invariant
            1 <= i <= n,
            b@.len() == n,
            count_hashes(b@.skip(1)) == (i - 1) + count_hashes(b@.skip(i as int)),
        decreases n - i,
    {
        proof {
            assert(b@.skip(i as int).skip(1) =~= b@.skip(i + 1));
        }
        i += 1;
    }
    let hash_count = i - 1;
    if !(i < n && b[i] == QUOTE) {
        return Err(ParseError::new(ErrorKind::Char(QUOTE), n - 1));
    }
    proof {
        lemma_text_valid(input);
        lemma_boundary_ascii(b@, i as int);
    }
    let body = tail_from(input, i + 1);
    let mut shifter = SliceShifter::new(body);
    let ghost bs = bytes_of(body);
    let ghost h = hash_count as nat;
    proof {
        lemma_text_valid(body);
        assert(bs.skip(0) =~= bs);
    }
    loop
        invariant
            shifter.wf(),
            shifter.base == body,
            bs == bytes_of(body),
            valid_utf8(bs),
            h == hash_count,
            raw_close(bs, h) == moved(raw_close(bs.skip(shifter.point as int), h), shifter.point as int),
            spec_raw_string(bytes_of(input)) == (match raw_close(bs, h) {
                Some(i) => Ok::<(Seq<u8>, Seq<u8>), SpecError>((bs.take(i), bs.skip(i + 1 + h as int))),
                None => Err(cut_error(fail(ErrorKind::UnexpectedEnd, 0))),
            }),
        decreases bs.len() - shifter.point,
    {
        let ghost p = shifter.point as int;
        let tail = shifter.tail().as_bytes();
        match memchr::memchr(QUOTE, tail) {
            None => {
                proof {
                    lemma_raw_close_skip(tail@, h, tail@.len() as int);
                }
                return Err(ParseError::new(ErrorKind::UnexpectedEnd, 0).cut());
            },
            Some(quote_idx) => {
                proof {
                    lemma_raw_close_skip(tail@, h, quote_idx as int);
                    assert(tail@.skip(quote_idx as int) =~= bs.skip(p + quote_idx));
                    assert(bs[p + quote_idx] == tail@[quote_idx as int]);
                    lemma_boundary_ascii(bs, p + quote_idx);
                }
                shifter.shift(quote_idx);
                let payload = shifter.head();
                shifter.shift(1);
                let after = shifter.tail().as_bytes();
                proof {
                    assert(bs.skip(p + quote_idx).skip(1) =~= after@);
                }
                if after.len() < hash_count {
                    proof {
                        lemma_raw_close_short(bs.skip(p + quote_idx), h);
                    }
                    return Err(ParseError::new(ErrorKind::UnexpectedEnd, 0).cut());
                }
                if starts_with_hashes(after, hash_count) {
                    proof {
                        if hash_count > 0 {
                            assert(after@[hash_count - 1] == bs[p + quote_idx + hash_count]);
                            lemma_boundary_ascii(bs, p + quote_idx + hash_count);
                        }
                    }
                    shifter.shift(hash_count);
                    return Ok((shifter.tail(), payload));
                }
            },
        }
    }
}

/// Whether the character may stand in a bare identifier.
pub fn is_identifier(c: char) -> (r: bool)
    ensures
        r == is_identifier_char(c),
{
    let p: u32 = c as u32;
    p > 0x20 && p <= 0x10FFFF && p != 0x5c && p != 0x2f && p != 0x28 && p != 0x29 && p != 0x7b
        && p != 0x7d && p != 0x3c && p != 0x3e && p != 0x3b && p != 0x5b && p != 0x5d && p != 0x3d
        && p != 0x2c && p != 0x22
}

/// Whether the character may start a bare identifier.
pub fn is_initial_identifier(c: char) -> (r: bool)
    ensures
        r == is_initial_identifier_char(c),
{
    let p: u32 = c as u32;
    is_identifier(c) && !(0x30 <= p && p <= 0x39)
}

/// Whether the byte may stand in a bare identifier.
fn identifier_byte(b: u8) -> (r: bool)
    ensures
        r == is_identifier_byte(b),
{
    b > 0x20 && b != BACKSLASH && b != SLASH && b != OPEN_PAREN && b != CLOSE_PAREN && b
        != OPEN_BRACE && b != CLOSE_BRACE && b != LESS_THAN && b != GREATER_THAN && b != SEMICOLON
        && b != OPEN_BRACKET && b != CLOSE_BRACKET && b != EQUALS && b != COMMA && b != QUOTE
}

/// Reads a bare identifier and yields it as it stands in the input.
pub fn parse_bare_identifier<'i>(input: &'i str) -> (r: Result<(&'i str, &'i str), ParseError>)
    ensures
        agrees_text(r, spec_bare_identifier(bytes_of(input))),
        r is Ok <==> input@.len() > 0 && is_initial_identifier_char(input@[0]),
        r matches Ok((rest, ident)) ==> ident@ == input@.take(identifier_chars(input@)) && rest@
            == input@.skip(identifier_chars(input@)),
{
    proof {
        lemma_identifier_of_characters(input@);
    }
    let b = input.as_bytes();
    let n = b.len();
    if !(n >= 1 && identifier_byte(b[0]) && !(0x30 <= b[0] && b[0] <= 0x39)) {
        return Err(ParseError::new(ErrorKind::Identifier, n));
    }
    let mut i: usize = 1;
    while i < n && identifier_byte(b[i])
        invariant
            1 <= i <= n,
            b@.len() == n,
            forall|j: int| 0 <= j < i ==> is_identifier_byte(b@[j]),
        decreases n - i,
    {
        i += 1;
    }
    proof {
        lemma_first_index_is(b@, ends_identifier(), i as int);
        lemma_text_valid(input);
        if i < n {
            lemma_boundary_ascii(b@, i as int);
        }
    }
    let (ident, tail) = split_text(input, i);
    proof {
        let k = identifier_chars(input@);
        lemma_encode_parts(input@, k);
        lemma_text_of_bytes(ident, input@.take(k));
        lemma_text_of_bytes(tail, input@.skip(k));
    }
    Ok((tail, ident))
}

/// Sixteen to the power of `k`.
spec fn pow16(k: nat) -> nat
    decreases k,
{
    if k == 0 {
        1
    } else {
        16 * pow16((k - 1) as nat)
    }
}

/// `char::from_u32` returns the character with the given number, and `None`
/// where the number is no Unicode scalar value.
pub assume_specification[ char::from_u32 ](i: u32) -> (r: Option<char>)
    ensures
        r == (if is_scalar(i) {
            Some(i as char)
        } else {
            None::<char>
        }),
;

/// Reads the escape `u{..}`, which stands behind a backslash.
fn parse_unicode_escape<'i>(input: &'i str) -> (r: Result<(&'i str, char), ParseError>)
    ensures
        agrees(r, spec_unicode_escape(bytes_of(input))),
{
    let b = input.as_bytes();
    let n = b.len();
    if !(n >= 2 && b[0] == LOWER_U && b[1] == OPEN_BRACE) {
        return Err(ParseError::new(ErrorKind::Char(LOWER_U), n));
    }
    let ghost t = b@.skip(2);
    let mut k: usize = 0;
    let mut v: u32 = 0;
    proof {
        assert(t.take(0) =~= Seq::<u8>::empty());
    }
    loop
        invariant
            b@.len() == n,
            t == b@.skip(2),
            k <= 6,
            2 + k <= n,
            forall|j: int| 0 <= j < k ==> is_digit(t[j], 16),
            v == digits_value(t.take(k as int), 16),
            v < pow16(k as nat),
        ensures
            k == 6 || 2 + k == n || !is_digit(t[k as int], 16),
        decreases 6 - k,
    {
        if k == 6 || 2 + k == n {
            break ;
        }
        match digit_of(b[2 + k], 16) {
            Some(d) => {
                proof {
                    reveal_with_fuel(pow16, 8);
                    assert(t.take(k + 1).drop_last() =~= t.take(k as int));
                    assert(t.take(k + 1).last() == t[k as int]);
                }
                v = v * 16 + d;
                k += 1;
            },
            None => {
                break ;
            },
        }
    }
    proof {
        lemma_first_index(t, ends_hex());
        if k < 6 {
            lemma_first_index_is(t, ends_hex(), k as int);
        } else {
            let f = first_index(t, ends_hex());
            if f < 6 {
                assert(ends_hex()(t[f]));
            }
        }
        assert(hex_run_len(t) == k);
        lemma_text_valid(input);
    }
    if k == 0 {
        return Err(ParseError::new(ErrorKind::HexDigit, n - 2).cut());
    }
    let c = match char::from_u32(v) {
        Some(c) => c,
        None => {
            return Err(ParseError::new(ErrorKind::CodePoint, n - 2).cut());
        },
    };
    if !(2 + k < n && b[2 + k] == CLOSE_BRACE) {
        return Err(ParseError::new(ErrorKind::Char(CLOSE_BRACE), n - 2 - k).cut());
    }
    proof {
        lemma_boundary_ascii(b@, 2 + k);
        assert(t.skip(k + 1) =~= b@.skip(2 + k + 1));
    }
    Ok((tail_from(input, 2 + k + 1), c))
}

/// The character that a one-letter escape stands for.
fn simple_escape_of(b: u8) -> (r: Option<char>)
    ensures
        r == simple_escape(b),
{
    if b == 0x6e {
        Some('\n')
    } else if b == 0x72 {
        Some('\r')
    } else if b == 0x74 {
        Some('\t')
    } else if b == BACKSLASH {
        Some('\\')
    } else if b == SLASH {
        Some('/')
    } else if b == QUOTE {
        Some('"')
    } else if b == 0x62 {
        Some('\u{08}')
    } else if b == 0x66 {
        Some('\u{0C}')
    } else {
        None
    }
}

/// Reads one escape of a quoted string.
fn parse_escape<'i>(input: &'i str) -> (r: Result<(&'i str, char), ParseError>)
    ensures
        agrees(r, spec_escape(bytes_of(input))),
{
    let b = input.as_bytes();
    let n = b.len();
    if !(n >= 1 && b[0] == BACKSLASH) {
        return Err(ParseError::new(ErrorKind::Char(BACKSLASH), n));
    }
    proof {
        lemma_text_valid(input);
        lemma_boundary_ascii(b@, 0);
    }
    if n >= 2 {
        match simple_escape_of(b[1]) {
            Some(c) => {
                proof {
                    lemma_boundary_ascii(b@, 1);
                    assert(b@.skip(1).skip(1) =~= b@.skip(2));
                }
                return Ok((tail_from(input, 2), c));
            },
            None => {},
        }
    }
    parse_unicode_escape(tail_from(input, 1))
}

/// Reads a run of a quoted string: the text up to the next quote or
/// backslash. `None` where the run is empty or no quote or backslash
/// follows.
fn parse_unescaped_chunk<'i>(input: &'i str) -> (r: Option<(&'i str, &'i str)>)
    ensures
        match r {
            Some((rest, run)) => 0 < run_len(bytes_of(input)) < bytes_of(input).len() && bytes_of(
                run,
            ) == bytes_of(input).take(run_len(bytes_of(input))) && bytes_of(rest) == bytes_of(
                input,
            ).skip(run_len(bytes_of(input))),
            None => !(0 < run_len(bytes_of(input)) < bytes_of(input).len()),
        },
{
    let b = input.as_bytes();
    match memchr::memchr2(QUOTE, BACKSLASH, b) {
        None => {
            proof {
                lemma_first_index_is(b@, ends_run(), b@.len() as int);
            }
            None
        },
        Some(n) => {
            proof {
                lemma_first_index_is(b@, ends_run(), n as int);
            }
            if n == 0 {
                None
            } else {
                proof {
                    lemma_text_valid(input);
                    lemma_boundary_ascii(b@, n as int);
                }
                let (head, tail) = split_text(input, n);
                Some((tail, head))
            }
        },
    }
}

/// One piece of a quoted string.
enum StringChunk<'a> {
    /// A run of the input without quote and backslash.
    Chunk(&'a str),
    /// The character of an escape.
    Char(char),
}

impl<'a> StringChunk<'a> {
    /// What the piece stands for in the model.
    spec fn model(self) -> Chunk {
        match self {
            StringChunk::Chunk(s) => Chunk::Run(bytes_of(s)),
            StringChunk::Char(c) => Chunk::Char(c),
        }
    }
}

/// Reads one piece of a quoted string: a run of text, or else an escape.
fn parse_chunk<'i>(input: &'i str) -> (r: Result<(&'i str, StringChunk<'i>), ParseError>)
    ensures
        match r {
            Ok((rest, chunk)) => spec_chunk(bytes_of(input)) matches Ok((c, srest)) && chunk.model()
                == c && bytes_of(rest) == srest,
            Err(e) => spec_chunk(bytes_of(input)) matches Err(se) && e@ == se,
        },
{
    match parse_unescaped_chunk(input) {
        Some((rest, run)) => Ok((rest, StringChunk::Chunk(run))),
        None => match parse_escape(input) {
            Ok((rest, c)) => Ok((rest, StringChunk::Char(c))),
            Err(e) => Err(e),
        },
    }
}

/// Reads a quoted string with its escapes into a builder. The builder is
/// handed the runs of text between the escapes as parts of the input, so
/// that a string without escapes can be kept without a copy.
pub fn parse_escaped_string<'i, T: StringBuilder<'i>>(input: &'i str) -> (r: Result<
    (&'i str, T),
    ParseError,
>)
    ensures
        agrees_string(r, spec_escaped_string(bytes_of(input))),
{
    let b = input.as_bytes();
    if !(b.len() >= 1 && b[0] == QUOTE) {
        return Err(ParseError::new(ErrorKind::Char(QUOTE), b.len()));
    }
    proof {
        lemma_text_valid(input);
        lemma_boundary_ascii(b@, 0);
    }
    let body = tail_from(input, 1);
    let mut string = T::empty();
    let ghost mut acc = Text::empty();
    let mut cur = body;
    loop
        invariant
            string.denotes(acc),
            spec_string_body(bytes_of(cur), acc) == spec_string_body(bytes_of(body), Text::empty()),
            b@ == bytes_of(input),
            b@.len() >= 1,
            b@[0] == QUOTE,
            bytes_of(body) == b@.skip(1),
        decreases bytes_of(cur).len(),
    {
        proof {
            lemma_chunk_shorter(bytes_of(cur));
        }
        match parse_chunk(cur) {
            Err(e) => {
                if e.fatal {
                    return Err(e);
                }
                let body_bytes = body.as_bytes();
                if body_bytes.len() >= 1 && body_bytes[0] == QUOTE {
                    proof {
                        lemma_text_valid(body);
                        lemma_boundary_ascii(body_bytes@, 0);
                    }
                    return Ok((tail_from(body, 1), T::empty()));
                }
                return Err(ParseError::new(ErrorKind::Char(QUOTE), body_bytes.len()).cut());
            },
            Ok((rest, chunk)) => {
                let ghost before = acc;
                assert(string.denotes(before));
                match chunk {
                    StringChunk::Chunk(run) => {
                        string.push_str(run);
                    },
                    StringChunk::Char(c) => {
                        string.push_char(c);
                    },
                }
                proof {
                    acc = push_chunk(before, chunk.model());
                }
                let rest_bytes = rest.as_bytes();
                if rest_bytes.len() >= 1 && rest_bytes[0] == QUOTE {
                    proof {
                        lemma_text_valid(rest);
                        lemma_boundary_ascii(rest_bytes@, 0);
                    }
                    return Ok((tail_from(rest, 1), string));
                }
                cur = rest;
            },
        }
    }
}

/// Reads a string, quoted or raw, into a builder.
pub fn parse_string<'i, T: StringBuilder<'i>>(input: &'i str) -> (r: Result<(&'i str, T), ParseError>)
    ensures
        agrees_string(r, spec_string(bytes_of(input))),
{
    match parse_escaped_string::<T>(input) {
        Ok(r) => Ok(r),
        Err(e) => {
            if e.fatal {
                Err(e.within(Context::EscapedString))
            } else {
                match parse_raw_string(input) {
                    Ok((rest, s)) => Ok((rest, T::from_str(s))),
                    Err(e) => Err(e.within(Context::RawString)),
                }
            }
        },
    }
}

/// Reads an identifier, bare or written as a string, into a builder.
pub fn parse_identifier<'i, T: StringBuilder<'i>>(input: &'i str) -> (r: Result<
    (&'i str, T),
    ParseError,
>)
    ensures
        agrees_string(r, spec_identifier(bytes_of(input))),
{
    match parse_bare_identifier(input) {
        Ok((rest, s)) => Ok((rest, T::from_str(s))),
        Err(_) => match parse_string::<T>(input) {
            Ok(r) => Ok(r),
            Err(e) => Err(e.within(Context::String)),
        },
    }
}

/// A raw string takes at least one byte.
pub proof fn lemma_raw_string_shorter(s: Seq<u8>)
    ensures
        spec_raw_string(s) matches Ok((_, rest)) ==> rest.len() < s.len(),
{
    if s.len() >= 1 && s[0] == LOWER_R {
        let h = count_hashes(s.skip(1));
        if s.len() > 1 + h {
            lemma_raw_close_is_first(s.skip(2 + h as int), h);
        }
    }
}

/// A bare identifier takes at least one byte.
pub proof fn lemma_bare_identifier_shorter(s: Seq<u8>)
    ensures
        spec_bare_identifier(s) matches Ok((_, rest)) ==> rest.len() < s.len(),
{
    lemma_first_index(s, ends_identifier());
    if s.len() >= 1 && is_initial_identifier_byte(s[0]) {
        if identifier_len(s) == 0 {
            assert(ends_identifier()(s[0]));
        }
    }
}

/// The pieces of a quoted string take at least one byte.
pub proof fn lemma_string_body_shorter(s: Seq<u8>, acc: Text)
    ensures
        spec_string_body(s, acc) matches Ok((_, rest)) ==> rest.len() < s.len(),
    decreases s.len(),
{
    lemma_chunk_shorter(s);
    if let Ok((chunk, rest)) = spec_chunk(s) {
        if !(rest.len() >= 1 && rest[0] == QUOTE) {
            lemma_string_body_shorter(rest, push_chunk(acc, chunk));
        }
    }
}

/// A string takes at least one byte.
pub proof fn lemma_string_shorter(s: Seq<u8>)
    ensures
        spec_escaped_string(s) matches Ok((_, rest)) ==> rest.len() < s.len(),
        spec_string(s) matches Ok((_, rest)) ==> rest.len() < s.len(),
{
    if s.len() >= 1 {
        lemma_string_body_shorter(s.skip(1), Text::empty());
    }
    lemma_raw_string_shorter(s);
}

/// An identifier takes at least one byte.
pub proof fn lemma_identifier_shorter(s: Seq<u8>)
    ensures
        spec_identifier(s) matches Ok((_, rest)) ==> rest.len() < s.len(),
{
    lemma_bare_identifier_shorter(s);
    lemma_string_shorter(s);
}

/// A quoted string without escapes is a part of the input: where no
/// backslash and no quote stands between the two quotes, the string is
/// what stands between them, and it is borrowed.
pub proof fn lemma_plain_string_is_borrowed(content: Seq<u8>, rest: Seq<u8>)
    requires
        forall|j: int| 0 <= j < content.len() ==> content[j] != QUOTE && content[j] != BACKSLASH,
    ensures
        spec_escaped_string(seq![QUOTE] + content + seq![QUOTE] + rest) == Ok::<
            (Text, Seq<u8>),
            SpecError,
        >((Text::borrowed(content), rest)),
{
    let s = seq![QUOTE] + content + seq![QUOTE] + rest;
    let t = s.skip(1);
    assert(t =~= content + seq![QUOTE] + rest);
    let n = content.len() as int;
    assert(t[n] == QUOTE);
    assert(ends_run()(t[n]));
    assert forall|j: int| 0 <= j < n implies !ends_run()(#[trigger] t[j]) by {
        assert(t[j] == content[j]);
    }
    lemma_first_index_is(t, ends_run(), n);
    assert(t.skip(n).skip(1) =~= rest);
    assert(t.skip(n)[0] == QUOTE);
    if n == 0 {
        assert(content =~= Seq::<u8>::empty());
        assert(t.skip(1) =~= rest);
    } else {
        assert(t.take(n) =~= content);
    }
}

/// The pieces of a quoted string make a copy if and only if one of them
/// is an escape, or something stood before them.
pub proof fn lemma_string_body_owned(s: Seq<u8>, acc: Text)
    ensures
        spec_string_body(s, acc) matches Ok((t, rest)) ==> rest.len() < s.len() && t.bytes.len()
            > 0 && (t.owned <==> acc.bytes.len() > 0 || s.take(s.len() - rest.len()).contains(
            BACKSLASH,
        )),
    decreases s.len(),
{
    lemma_chunk_shorter(s);
    lemma_first_index(s, ends_run());
    if let Ok((chunk, after)) = spec_chunk(s) {
        let acc2 = push_chunk(acc, chunk);
        let n = s.len() - after.len();
        assert(after == s.skip(n)) by {
            lemma_chunk_rest(s);
        }
        match chunk {
            Chunk::Run(run) => {
                assert(run == s.take(n));
                assert(forall|j: int| 0 <= j < n ==> s[j] != BACKSLASH) by {
                    assert forall|j: int| 0 <= j < n implies s[j] != BACKSLASH by {
                        assert(!ends_run()(s[j]));
                    }
                }
                assert(ends_run()(s[n]));
            },
            Chunk::Char(c) => {
                assert(encode_scalar(c as u32).len() >= 1);
                assert(s[0] == BACKSLASH);
            },
        }
        if after.len() >= 1 && after[0] == QUOTE {
            let read = s.take(s.len() - after.skip(1).len());
            assert(read =~= s.take(n).push(QUOTE));
            if chunk is Run {
                assert(!read.contains(BACKSLASH)) by {
                    if read.contains(BACKSLASH) {
                        let j = choose|j: int| 0 <= j < read.len() && read[j] == BACKSLASH;
                        assert(read[j] == s[j]);
                    }
                }
            } else {
                assert(read[0] == BACKSLASH);
            }
        } else {
            lemma_string_body_owned(after, acc2);
            if let Ok((t, rest)) = spec_string_body(after, acc2) {
                let read = s.take(s.len() - rest.len());
                if chunk is Run {
                    assert(after[0] == s[n]);
                    assert(read[n] == BACKSLASH);
                } else {
                    assert(read[0] == BACKSLASH);
                }
            }
        }
    }
}

/// What a piece of a quoted string leaves is the text behind the piece.
pub proof fn lemma_chunk_rest(s: Seq<u8>)
    ensures
        spec_chunk(s) matches Ok((_, rest)) ==> rest.len() <= s.len() && rest == s.skip(
            s.len() - rest.len(),
        ),
{
    lemma_first_index(s, ends_run());
    let n = run_len(s);
    if 0 < n < s.len() {
    } else if s.len() >= 1 && s[0] == BACKSLASH {
        let t = s.skip(1);
        if t.len() >= 1 && simple_escape(t[0]) is Some {
            assert(t.skip(1) =~= s.skip(2));
        } else if starts_with2(t, LOWER_U, OPEN_BRACE) {
            let u = t.skip(2);
            lemma_first_index(u, ends_hex());
            let k = hex_run_len(u);
            if spec_chunk(s) is Ok {
                assert(u.skip(k + 1) =~= s.skip(k + 4));
            }
        }
    }
}

/// A quoted string is a copy if and only if it holds an escape: a string
/// that was read is borrowed exactly where no backslash stands between its
/// quotes.
pub proof fn lemma_string_owned_iff_escaped(s: Seq<u8>)
    ensures
        spec_escaped_string(s) matches Ok((t, rest)) ==> rest.len() < s.len() && (t.owned
            <==> s.take(s.len() - rest.len()).contains(BACKSLASH)),
{
    if s.len() >= 1 && s[0] == QUOTE {
        let body = s.skip(1);
        lemma_string_body_owned(body, Text::empty());
        match spec_string_body(body, Text::empty()) {
            Ok((t, rest)) => {
                let read = s.take(s.len() - rest.len());
                let read_body = body.take(body.len() - rest.len());
                assert(read =~= seq![QUOTE] + read_body);
                if read_body.contains(BACKSLASH) {
                    let j = choose|j: int| 0 <= j < read_body.len() && read_body[j] == BACKSLASH;
                    assert(read[j + 1] == BACKSLASH);
                }
                if read.contains(BACKSLASH) {
                    let j = choose|j: int| 0 <= j < read.len() && read[j] == BACKSLASH;
                    assert(read_body[j - 1] == BACKSLASH);
                }
            },
            Err(e) => {
                if !e.fatal && body.len() >= 1 && body[0] == QUOTE {
                    let read = s.take(s.len() - body.skip(1).len());
                    assert(read =~= seq![QUOTE, QUOTE]);
                    if read.contains(BACKSLASH) {
                        let j = choose|j: int| 0 <= j < read.len() && read[j] == BACKSLASH;
                    }
                }
            },
        }
    }
}

/// The number of identifier characters that `chars` begins with.
pub open spec fn identifier_chars(chars: Seq<char>) -> int
    decreases chars.len(),
{
    if chars.len() == 0 || !is_identifier_char(chars[0]) {
        0
    } else {
        1 + identifier_chars(chars.skip(1))
    }
}

/// The identifier bytes are the bytes of the identifier characters: the
/// run of identifier bytes that a text begins with is the encoding of the
/// run of identifier characters that it begins with, and the first byte may
/// start an identifier where the first character may.
pub proof fn lemma_identifier_of_characters(chars: Seq<char>)
    ensures
        0 <= identifier_chars(chars) <= chars.len(),
        identifier_len(encode_utf8(chars)) == encode_utf8(
            chars.take(identifier_chars(chars)),
        ).len(),
        chars.len() == 0 <==> encode_utf8(chars).len() == 0,
        chars.len() > 0 ==> (is_initial_identifier_byte(encode_utf8(chars)[0])
            <==> is_initial_identifier_char(chars[0])),
    decreases chars.len(),
{
    let bytes = encode_utf8(chars);
    lemma_encode_empty(chars);
    if chars.len() == 0 {
        assert(chars.take(0) =~= chars);
    } else {
        let c = chars[0] as u32;
        let first = encode_scalar(c);
        let others = chars.skip(1);
        assert(others =~= chars.drop_first());
        char_is_scalar(chars[0]);
        lemma_scalar_bytes(c);
        assert(bytes[0] == first[0]);
        lemma_first_index(bytes, ends_identifier());
        if !is_identifier_char(chars[0]) {
            assert(ends_identifier()(bytes[0]));
            lemma_first_index_is(bytes, ends_identifier(), 0);
            assert(chars.take(0) =~= Seq::<char>::empty());
            lemma_encode_empty(chars.take(0));
        } else {
            let w = first.len() as int;
            assert forall|j: int| 0 <= j < w implies !ends_identifier()(#[trigger] bytes[j]) by {
                assert(bytes[j] == first[j]);
            }
            lemma_first_index_skip(bytes, ends_identifier(), w);
            assert(bytes.skip(w) =~= encode_utf8(others));
            lemma_identifier_of_characters(others);
            let k = identifier_chars(others);
            assert(chars.take(k + 1) =~= seq![chars[0]] + others.take(k));
            lemma_encode_concat(seq![chars[0]], others.take(k));
            lemma_encode_push(Seq::<char>::empty(), chars[0]);
            assert(Seq::<char>::empty().push(chars[0]) =~= seq![chars[0]]);
            lemma_encode_empty(Seq::<char>::empty());
            assert(encode_utf8(seq![chars[0]]) =~= first);
        }
    }
}

} // verus!
