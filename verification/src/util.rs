//! Slicing of texts at byte indices, and the byte searches that the parsers
//! share.

use vstd::prelude::*;
use vstd::slice::*;
use vstd::string::*;
use vstd::utf8::*;

verus! {

// The ASCII characters that the grammar names.
pub const TAB: u8 = 0x09;
pub const LINE_FEED: u8 = 0x0a;
pub const FORM_FEED: u8 = 0x0c;
pub const CARRIAGE_RETURN: u8 = 0x0d;
pub const SPACE: u8 = 0x20;
pub const QUOTE: u8 = 0x22;
pub const HASH: u8 = 0x23;
pub const OPEN_PAREN: u8 = 0x28;
pub const CLOSE_PAREN: u8 = 0x29;
pub const STAR: u8 = 0x2a;
pub const PLUS: u8 = 0x2b;
pub const COMMA: u8 = 0x2c;
pub const MINUS: u8 = 0x2d;
pub const DOT: u8 = 0x2e;
pub const SLASH: u8 = 0x2f;
pub const ZERO: u8 = 0x30;
pub const SEMICOLON: u8 = 0x3b;
pub const LESS_THAN: u8 = 0x3c;
pub const EQUALS: u8 = 0x3d;
pub const GREATER_THAN: u8 = 0x3e;
pub const UPPER_E: u8 = 0x45;
pub const OPEN_BRACKET: u8 = 0x5b;
pub const BACKSLASH: u8 = 0x5c;
pub const CLOSE_BRACKET: u8 = 0x5d;
pub const UNDERSCORE: u8 = 0x5f;
pub const LOWER_B: u8 = 0x62;
pub const LOWER_E: u8 = 0x65;
pub const LOWER_O: u8 = 0x6f;
pub const LOWER_R: u8 = 0x72;
pub const LOWER_U: u8 = 0x75;
pub const LOWER_X: u8 = 0x78;
pub const OPEN_BRACE: u8 = 0x7b;
pub const CLOSE_BRACE: u8 = 0x7d;

/// The bytes of a text: its UTF-8 encoding.
pub open spec fn bytes_of(s: &str) -> Seq<u8> {
    s.spec_bytes()
}

/// Whether the result of a parser agrees with the model: the same value and
/// the bytes of the same rest, or the same error.
pub open spec fn agrees<V>(r: Result<(&str, V), crate::error::ParseError>, p: crate::error::Parsed<V>) -> bool {
    match r {
        Ok((rest, v)) => p matches Ok((sv, srest)) && v == sv && bytes_of(rest) == srest,
        Err(e) => p matches Err(se) && e@ == se,
    }
}

/// Whether the result of a parser that yields a part of its input agrees
/// with the model: the bytes of the same part and of the same rest, or the
/// same error.
pub open spec fn agrees_text(
    r: Result<(&str, &str), crate::error::ParseError>,
    p: crate::error::Parsed<Seq<u8>>,
) -> bool {
    match r {
        Ok((rest, v)) => p matches Ok((sv, srest)) && bytes_of(v) == sv && bytes_of(rest) == srest,
        Err(e) => p matches Err(se) && e@ == se,
    }
}

/// Whether `s` begins with the two bytes `a`, `b`.
pub open spec fn starts_with2(s: Seq<u8>, a: u8, b: u8) -> bool {
    s.len() >= 2 && s[0] == a && s[1] == b
}

/// Whether `s` begins with the three bytes `a`, `b`, `c`.
pub open spec fn starts_with3(s: Seq<u8>, a: u8, b: u8, c: u8) -> bool {
    s.len() >= 3 && s[0] == a && s[1] == b && s[2] == c
}

/// Whether the byte is a digit of the radix, which is 2, 8, 10 or 16.
pub open spec fn is_digit(b: u8, radix: nat) -> bool {
    if radix <= 10 {
        0x30 <= b < 0x30 + radix
    } else {
        (0x30 <= b <= 0x39) || (0x41 <= b <= 0x46) || (0x61 <= b <= 0x66)
    }
}

/// The number that a digit stands for.
pub open spec fn digit_value(b: u8) -> nat {
    if b <= 0x39 {
        (b - 0x30) as nat
    } else if b <= 0x46 {
        (b - 0x41 + 10) as nat
    } else {
        (b - 0x61 + 10) as nat
    }
}

/// The number that a sequence of digits stands for in the radix.
pub open spec fn digits_value(s: Seq<u8>, radix: nat) -> nat
    decreases s.len(),
{
    if s.len() == 0 {
        0
    } else {
        digits_value(s.drop_last(), radix) * radix + digit_value(s.last())
    }
}

/// Whether the byte is a digit of the radix, and if so its value.
pub fn digit_of(b: u8, radix: u32) -> (r: Option<u32>)
    requires
        radix == 2 || radix == 8 || radix == 10 || radix == 16,
    ensures
        r is Some <==> is_digit(b, radix as nat),
        r matches Some(v) ==> v == digit_value(b) && v < radix,
{
    if radix <= 10 {
        if 0x30 <= b && ((b - 0x30) as u32) < radix {
            Some((b - 0x30) as u32)
        } else {
            None
        }
    } else if 0x30 <= b && b <= 0x39 {
        Some((b - 0x30) as u32)
    } else if 0x41 <= b && b <= 0x46 {
        Some((b - 0x41 + 10) as u32)
    } else if 0x61 <= b && b <= 0x66 {
        Some((b - 0x61 + 10) as u32)
    } else {
        None
    }
}

/// The index of the first byte of `s` that satisfies `wanted`, or the length
/// of `s` where none does.
pub open spec fn first_index(s: Seq<u8>, wanted: spec_fn(u8) -> bool) -> int
    decreases s.len(),
{
    if s.len() == 0 || wanted(s[0]) {
        0
    } else {
        1 + first_index(s.skip(1), wanted)
    }
}

/// `first_index` is the least index of a wanted byte.
pub proof fn lemma_first_index(s: Seq<u8>, wanted: spec_fn(u8) -> bool)
    ensures
        0 <= first_index(s, wanted) <= s.len(),
        first_index(s, wanted) < s.len() ==> wanted(s[first_index(s, wanted)]),
        forall|j: int| 0 <= j < first_index(s, wanted) ==> !wanted(#[trigger] s[j]),
    decreases s.len(),
{
    if s.len() == 0 || wanted(s[0]) {
    } else {
        let t = s.skip(1);
        lemma_first_index(t, wanted);
        assert forall|j: int| 0 <= j < first_index(s, wanted) implies !wanted(#[trigger] s[j]) by {
            if j > 0 {
                assert(s[j] == t[j - 1]);
            }
        }
    }
}

/// Behind bytes that are not wanted, the first wanted byte is the first
/// wanted byte of what follows them.
pub proof fn lemma_first_index_skip(s: Seq<u8>, wanted: spec_fn(u8) -> bool, w: int)
    requires
        0 <= w <= s.len(),
        forall|j: int| 0 <= j < w ==> !wanted(#[trigger] s[j]),
    ensures
        first_index(s, wanted) == w + first_index(s.skip(w), wanted),
{
    let t = s.skip(w);
    lemma_first_index(t, wanted);
    let f = first_index(t, wanted);
    assert forall|j: int| 0 <= j < w + f implies !wanted(#[trigger] s[j]) by {
        if j >= w {
            assert(s[j] == t[j - w]);
        }
    }
    if f < t.len() {
        assert(s[w + f] == t[f]);
    }
    lemma_first_index_is(s, wanted, w + f);
}

/// The bytes of a character: an ASCII character is its own byte, and the
/// bytes of any other character are all above ASCII.
pub proof fn lemma_scalar_bytes(c: u32)
    requires
        is_scalar(c),
    ensures
        encode_scalar(c).len() >= 1,
        c <= 0x7f ==> encode_scalar(c) == seq![c as u8],
        c > 0x7f ==> forall|j: int| 0 <= j < encode_scalar(c).len() ==> encode_scalar(c)[j] >= 0x80,
{
    assert(c <= 0x7f ==> (c & 0x7F) as u8 == c) by (bit_vector);
    assert((0xC0u8 | ((c >> 6) & 0x1F) as u8) >= 0x80) by (bit_vector);
    assert((0xE0u8 | ((c >> 12) & 0x0F) as u8) >= 0x80) by (bit_vector);
    assert((0xF0u8 | ((c >> 18) & 0x7) as u8) >= 0x80) by (bit_vector);
    assert((0x80u8 | (c & 0x3F) as u8) >= 0x80) by (bit_vector);
    assert((0x80u8 | ((c >> 6) & 0x3F) as u8) >= 0x80) by (bit_vector);
    assert((0x80u8 | ((c >> 12) & 0x3F) as u8) >= 0x80) by (bit_vector);
    if c <= 0x7f {
        assert(encode_scalar(c) =~= seq![c as u8]);
    }
}

/// The bytes of a text behind its first `k` characters are the bytes of
/// the characters that follow them.
pub proof fn lemma_encode_parts(chars: Seq<char>, k: int)
    requires
        0 <= k <= chars.len(),
    ensures
        encode_utf8(chars.take(k)).len() <= encode_utf8(chars).len(),
        encode_utf8(chars).take(encode_utf8(chars.take(k)).len() as int) == encode_utf8(
            chars.take(k),
        ),
        encode_utf8(chars).skip(encode_utf8(chars.take(k)).len() as int) == encode_utf8(
            chars.skip(k),
        ),
    decreases k,
{
    if k == 0 {
        assert(chars.take(0) =~= Seq::<char>::empty());
        assert(chars.skip(0) =~= chars);
        assert(encode_utf8(chars).skip(0) =~= encode_utf8(chars));
        assert(encode_utf8(chars).take(0) =~= Seq::<u8>::empty());
    } else {
        let first = encode_scalar(chars[0] as u32);
        let others = chars.drop_first();
        lemma_encode_parts(others, k - 1);
        assert(chars.take(k).drop_first() =~= others.take(k - 1));
        assert(others.skip(k - 1) =~= chars.skip(k));
        let n = encode_utf8(others.take(k - 1)).len() as int;
        assert(encode_utf8(chars.take(k)) =~= first + encode_utf8(others.take(k - 1)));
        assert(encode_utf8(chars).skip(first.len() + n) =~= encode_utf8(others).skip(n));
        assert(encode_utf8(chars).take(first.len() + n) =~= first + encode_utf8(others).take(n));
    }
}

/// A text with the bytes of a sequence of characters is that sequence.
pub proof fn lemma_text_of_bytes(s: &str, chars: Seq<char>)
    requires
        bytes_of(s) == encode_utf8(chars),
    ensures
        s@ == chars,
{
    encode_utf8_decode_utf8(s@);
    encode_utf8_decode_utf8(chars);
}

/// The first byte of the encoding of a character tells how many bytes the
/// encoding has.
pub proof fn lemma_scalar_width(c: u32)
    requires
        is_scalar(c),
    ensures
        has_width_1_encoding(c) ==> encode_scalar(c).len() == 1 && encode_scalar(c)[0] <= 0x7f,
        has_width_2_encoding(c) ==> encode_scalar(c).len() == 2 && 0xc0 <= encode_scalar(c)[0]
            <= 0xdf,
        has_width_3_encoding(c) ==> encode_scalar(c).len() == 3 && 0xe0 <= encode_scalar(c)[0]
            <= 0xef,
        has_width_4_encoding(c) ==> encode_scalar(c).len() == 4 && 0xf0 <= encode_scalar(c)[0],
{
    assert((c & 0x7F) as u8 <= 0x7f) by (bit_vector);
    assert(0xc0 <= (0xC0u8 | ((c >> 6) & 0x1F) as u8) <= 0xdf) by (bit_vector);
    assert(0xe0 <= (0xE0u8 | ((c >> 12) & 0x0F) as u8) <= 0xef) by (bit_vector);
    assert(0xf0 <= (0xF0u8 | ((c >> 18) & 0x7) as u8)) by (bit_vector);
}

/// An index with the two properties of `first_index` is `first_index`.
pub proof fn lemma_first_index_is(s: Seq<u8>, wanted: spec_fn(u8) -> bool, i: int)
    requires
        0 <= i <= s.len(),
        i < s.len() ==> wanted(s[i]),
        forall|j: int| 0 <= j < i ==> !wanted(#[trigger] s[j]),
    ensures
        first_index(s, wanted) == i,
{
    lemma_first_index(s, wanted);
    let f = first_index(s, wanted);
    if f < i {
        assert(!wanted(s[f]));
    }
}

/// In valid UTF-8 an index that holds an ASCII byte is a character boundary,
/// and so is the index after it.
pub proof fn lemma_boundary_ascii(bytes: Seq<u8>, i: int)
    requires
        valid_utf8(bytes),
        0 <= i < bytes.len(),
        bytes[i] < 0x80,
    ensures
        is_char_boundary(bytes, i),
        is_char_boundary(bytes, i + 1),
{
    broadcast use group_utf8_lib;

    is_char_boundary_iff_not_is_continuation_byte(bytes, i);
    valid_utf8_split(bytes, i);
    let s2 = bytes.subrange(i, bytes.len() as int);
    assert(valid_utf8(s2));
    assert(s2[0] == bytes[i]);
    reveal_with_fuel(valid_utf8, 2);
    assert(length_of_first_scalar(s2) == 1);
    if i + 1 < bytes.len() {
        let s3 = pop_first_scalar(s2);
        assert(s3 =~= bytes.subrange(i + 1, bytes.len() as int));
        assert(valid_first_scalar(s3));
        assert(s3[0] == bytes[i + 1]);
    }
}

/// In valid UTF-8 a byte that starts a character of two or three bytes is
/// followed by its continuation bytes, and the index after them is a
/// character boundary.
pub proof fn lemma_boundary_wide(bytes: Seq<u8>, i: int)
    requires
        valid_utf8(bytes),
        0 <= i < bytes.len(),
        0xc0 <= bytes[i] <= 0xef,
    ensures
        is_char_boundary(bytes, i),
        bytes[i] <= 0xdf ==> i + 2 <= bytes.len() && is_char_boundary(bytes, i + 2),
        bytes[i] >= 0xe0 ==> i + 3 <= bytes.len() && is_char_boundary(bytes, i + 3),
{
    broadcast use group_utf8_lib;

    is_char_boundary_iff_not_is_continuation_byte(bytes, i);
    valid_utf8_split(bytes, i);
    let s2 = bytes.subrange(i, bytes.len() as int);
    assert(valid_utf8(s2));
    assert(s2[0] == bytes[i]);
    reveal_with_fuel(valid_utf8, 2);
    let w = length_of_first_scalar(s2);
    assert(w == if bytes[i] <= 0xdf { 2int } else { 3int });
    assert(w <= s2.len());
    if i + w < bytes.len() {
        let s3 = pop_first_scalar(s2);
        assert(s3 =~= bytes.subrange(i + w, bytes.len() as int));
        assert(valid_first_scalar(s3));
        assert(s3[0] == bytes[i + w]);
    }
}

/// The bytes of a text are valid UTF-8, and both of their ends are character
/// boundaries.
pub proof fn lemma_text_valid(s: &str)
    ensures
        valid_utf8(bytes_of(s)),
        is_char_boundary(bytes_of(s), 0),
        is_char_boundary(bytes_of(s), bytes_of(s).len() as int),
{
    encode_utf8_valid_utf8(s@);
    is_char_boundary_start_end_of_seq(bytes_of(s));
}

/// Whether two byte strings are the same.
pub fn same_bytes(a: &[u8], b: &[u8]) -> (r: bool)
    ensures
        r == (a@ == b@),
{
    if a.len() != b.len() {
        return false;
    }
    let mut i: usize = 0;
    while i < a.len()
        invariant
            a@.len() == b@.len(),
            i <= a@.len(),
            forall|j: int| 0 <= j < i ==> a@[j] == b@[j],
        decreases a@.len() - i,
    {
        if a[i] != b[i] {
            return false;
        }
        i += 1;
    }
    assert(a@ =~= b@);
    true
}

/// The empty text at the end of `input`.
pub fn back<'a>(input: &'a str) -> (r: &'a str)
    ensures
        bytes_of(r) == Seq::<u8>::empty(),
{
    proof {
        lemma_text_valid(input);
    }
    let (_, tail) = input.split_at(input.as_bytes().len());
    tail
}

/// The two parts of `input` before and from the byte index `mid`.
pub fn split_text<'a>(input: &'a str, mid: usize) -> (r: (&'a str, &'a str))
    requires
        mid <= bytes_of(input).len(),
        is_char_boundary(bytes_of(input), mid as int),
    ensures
        bytes_of(r.0) == bytes_of(input).take(mid as int),
        bytes_of(r.1) == bytes_of(input).skip(mid as int),
{
    input.split_at(mid)
}

/// The part of `input` from the byte index `mid`.
pub fn tail_from<'a>(input: &'a str, mid: usize) -> (r: &'a str)
    requires
        mid <= bytes_of(input).len(),
        is_char_boundary(bytes_of(input), mid as int),
    ensures
        bytes_of(r) == bytes_of(input).skip(mid as int),
{
    let (_, tail) = input.split_at(mid);
    tail
}

/// `memchr::memchr` returns the index of the first byte of `haystack` that
/// equals `needle`, and `None` where no byte does.
pub assume_specification[ memchr::memchr ](needle: u8, haystack: &[u8]) -> (r: Option<usize>)
    ensures
        match r {
            Some(i) => i < haystack@.len() && haystack@[i as int] == needle && forall|j: int|
                0 <= j < i ==> haystack@[j] != needle,
            None => forall|j: int| 0 <= j < haystack@.len() ==> haystack@[j] != needle,
        },
;

/// `memchr::memchr2` returns the index of the first byte of `haystack` that
/// equals one of the two needles, and `None` where no byte does.
pub assume_specification[ memchr::memchr2 ](needle1: u8, needle2: u8, haystack: &[u8]) -> (r:
    Option<usize>)
    ensures
        match r {
            Some(i) => i < haystack@.len() && (haystack@[i as int] == needle1 || haystack@[i as int]
                == needle2) && forall|j: int|
                0 <= j < i ==> haystack@[j] != needle1 && haystack@[j] != needle2,
            None => forall|j: int|
                0 <= j < haystack@.len() ==> haystack@[j] != needle1 && haystack@[j] != needle2,
        },
;

/// `memchr::memchr3` returns the index of the first byte of `haystack` that
/// equals one of the three needles, and `None` where no byte does.
pub assume_specification[ memchr::memchr3 ](
    needle1: u8,
    needle2: u8,
    needle3: u8,
    haystack: &[u8],
) -> (r: Option<usize>)
    ensures
        match r {
            Some(i) => i < haystack@.len() && (haystack@[i as int] == needle1 || haystack@[i as int]
                == needle2 || haystack@[i as int] == needle3) && forall|j: int|
                0 <= j < i ==> haystack@[j] != needle1 && haystack@[j] != needle2 && haystack@[j]
                    != needle3,
            None => forall|j: int|
                0 <= j < haystack@.len() ==> haystack@[j] != needle1 && haystack@[j] != needle2
                    && haystack@[j] != needle3,
        },
;

} // verus!
