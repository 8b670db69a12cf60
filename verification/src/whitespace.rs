//! Space, comments and line ends. None of them carries a value: each parser
//! yields the text that follows.

use vstd::prelude::*;
use vstd::string::*;
use vstd::utf8::*;
use crate::error::{fail, ErrorKind, ParseError, Parsed, SpecError};
use crate::util::{
    agrees, bytes_of, lemma_boundary_ascii, lemma_boundary_wide, lemma_encode_parts,
    lemma_scalar_bytes, lemma_scalar_width, lemma_text_of_bytes, lemma_text_valid, starts_with2,
    starts_with3, tail_from, BACKSLASH, CARRIAGE_RETURN, FORM_FEED, LINE_FEED, SEMICOLON, SLASH,
    SPACE, STAR, TAB,
};

verus! {

/// The number of bytes of the space character that `s` begins with, or 0
/// where it begins with none. The space characters are the tab, the Unicode
/// space separators and the byte order mark.
pub open spec fn space_len(s: Seq<u8>) -> nat {
    if s.len() >= 1 && (s[0] == TAB || s[0] == SPACE) {
        1
    } else if starts_with2(s, 0xc2, 0xa0) {
        2
    } else if starts_with3(s, 0xe1, 0x9a, 0x80) {
        3
    } else if s.len() >= 3 && s[0] == 0xe2 && s[1] == 0x80 && (0x80 <= s[2] <= 0x8a || s[2]
        == 0xaf) {
        3
    } else if starts_with3(s, 0xe2, 0x81, 0x9f) {
        3
    } else if starts_with3(s, 0xe3, 0x80, 0x80) {
        3
    } else if starts_with3(s, 0xef, 0xbb, 0xbf) {
        3
    } else {
        0
    }
}

/// The number of bytes of the line terminator that `s` begins with, or 0
/// where it begins with none. A carriage return with a line feed behind it
/// is one terminator.
pub open spec fn newline_len(s: Seq<u8>) -> nat {
    if starts_with2(s, CARRIAGE_RETURN, LINE_FEED) {
        2
    } else if s.len() >= 1 && (s[0] == CARRIAGE_RETURN || s[0] == LINE_FEED || s[0] == FORM_FEED) {
        1
    } else if starts_with2(s, 0xc2, 0x85) {
        2
    } else if s.len() >= 3 && s[0] == 0xe2 && s[1] == 0x80 && (s[2] == 0xa8 || s[2] == 0xa9) {
        3
    } else {
        0
    }
}

/// What follows the end of the `depth` block comments that are open at the
/// start of `s`, or `None` where one of them is never closed.
pub open spec fn comment_end(s: Seq<u8>, depth: nat) -> Option<Seq<u8>>
    decreases s.len(),
{
    if depth == 0 {
        Some(s)
    } else if s.len() < 2 {
        None
    } else if s[0] == SLASH && s[1] == STAR {
        comment_end(s.skip(2), depth + 1)
    } else if s[0] == STAR && s[1] == SLASH {
        comment_end(s.skip(2), (depth - 1) as nat)
    } else {
        comment_end(s.skip(1), depth)
    }
}

/// The rest of a block comment whose `/*` has been read.
pub open spec fn spec_finish_block_comment(s: Seq<u8>) -> Parsed<()> {
    match comment_end(s, 1) {
        Some(rest) => Ok(((), rest)),
        None => Err(fail(ErrorKind::UnexpectedEnd, 0)),
    }
}

/// A block comment, with the block comments nested in it.
pub open spec fn spec_block_comment(s: Seq<u8>) -> Parsed<()> {
    if starts_with2(s, SLASH, STAR) {
        spec_finish_block_comment(s.skip(2))
    } else {
        Err(fail(ErrorKind::BlockComment, s.len()))
    }
}

/// One space character or one block comment.
pub open spec fn spec_plain_whitespace_item(s: Seq<u8>) -> Parsed<()> {
    if space_len(s) > 0 {
        Ok(((), s.skip(space_len(s) as int)))
    } else {
        spec_block_comment(s)
    }
}

/// What is left of `s` after all the space characters and block comments
/// that it begins with.
pub open spec fn skip_plain_whitespace(s: Seq<u8>) -> Seq<u8>
    decreases s.len(),
{
    match spec_plain_whitespace_item(s) {
        Ok((_, rest)) => if rest.len() < s.len() {
            skip_plain_whitespace(rest)
        } else {
            s
        },
        Err(_) => s,
    }
}

/// One or more space characters and block comments.
pub open spec fn spec_plain_whitespace(s: Seq<u8>) -> Parsed<()> {
    match spec_plain_whitespace_item(s) {
        Ok((_, rest)) => Ok(((), skip_plain_whitespace(rest))),
        Err(e) => Err(e),
    }
}

/// One line terminator.
pub open spec fn spec_newline(s: Seq<u8>) -> Parsed<()> {
    if newline_len(s) > 0 {
        Ok(((), s.skip(newline_len(s) as int)))
    } else {
        Err(fail(ErrorKind::Newline, s.len()))
    }
}

/// What of `s` begins at its first line terminator; nothing where `s` holds
/// none.
pub open spec fn line_end(s: Seq<u8>) -> Seq<u8>
    decreases s.len(),
{
    if s.len() == 0 || newline_len(s) > 0 {
        s
    } else {
        line_end(s.skip(1))
    }
}

/// A comment from `//` up to the next line terminator, which is no part of
/// it, or up to the end of the input.
pub open spec fn spec_single_line_comment(s: Seq<u8>) -> Parsed<()> {
    if starts_with2(s, SLASH, SLASH) {
        Ok(((), line_end(s.skip(2))))
    } else {
        Err(fail(ErrorKind::LineComment, s.len()))
    }
}

/// A line terminator, or else a single-line comment.
pub open spec fn spec_endline(s: Seq<u8>) -> Parsed<()> {
    match spec_newline(s) {
        Ok(r) => Ok(r),
        Err(_) => spec_single_line_comment(s),
    }
}

/// One line terminator or one single-line comment, or else one run of
/// plain whitespace.
pub open spec fn spec_linespace_item(s: Seq<u8>) -> Parsed<()> {
    match spec_endline(s) {
        Ok(r) => Ok(r),
        Err(_) => spec_plain_whitespace(s),
    }
}

/// What is left of `s` after all the line terminators, single-line
/// comments and plain whitespace that it begins with.
pub open spec fn skip_linespace(s: Seq<u8>) -> Seq<u8>
    decreases s.len(),
{
    match spec_linespace_item(s) {
        Ok((_, rest)) => if rest.len() < s.len() {
            skip_linespace(rest)
        } else {
            s
        },
        Err(_) => s,
    }
}

/// Any number of line terminators, single-line comments and runs of plain
/// whitespace; it never fails.
pub open spec fn spec_linespace(s: Seq<u8>) -> Parsed<()> {
    Ok(((), skip_linespace(s)))
}

/// `s` without the plain whitespace that it begins with, if any.
pub open spec fn after_optional_plain_whitespace(s: Seq<u8>) -> Seq<u8> {
    match spec_plain_whitespace(s) {
        Ok((_, rest)) => rest,
        Err(_) => s,
    }
}

/// A backslash, plain whitespace if there is any, and a line terminator:
/// the line goes on.
pub open spec fn spec_escaped_endline(s: Seq<u8>) -> Parsed<()> {
    if s.len() >= 1 && s[0] == BACKSLASH {
        spec_newline(after_optional_plain_whitespace(s.skip(1)))
    } else {
        Err(fail(ErrorKind::Char(BACKSLASH), s.len()))
    }
}

/// One run of plain whitespace, or one escaped end of line.
pub open spec fn spec_node_space_item(s: Seq<u8>) -> Parsed<()> {
    match spec_plain_whitespace(s) {
        Ok(r) => Ok(r),
        Err(_) => spec_escaped_endline(s),
    }
}

/// What is left of `s` after all the plain whitespace and the escaped ends
/// of line that it begins with.
pub open spec fn skip_node_space(s: Seq<u8>) -> Seq<u8>
    decreases s.len(),
{
    match spec_node_space_item(s) {
        Ok((_, rest)) => if rest.len() < s.len() {
            skip_node_space(rest)
        } else {
            s
        },
        Err(_) => s,
    }
}

/// The space between the parts of one node: one or more runs of plain
/// whitespace and escaped ends of line.
pub open spec fn spec_node_space(s: Seq<u8>) -> Parsed<()> {
    match spec_node_space_item(s) {
        Ok((_, rest)) => Ok(((), skip_node_space(rest))),
        Err(e) => Err(e),
    }
}

/// The end of a node: a line terminator, the end of the input, or a
/// semicolon.
pub open spec fn spec_node_terminator(s: Seq<u8>) -> Parsed<()> {
    match spec_newline(s) {
        Ok(r) => Ok(r),
        Err(_) => if s.len() == 0 {
            Ok(((), s))
        } else if s[0] == SEMICOLON {
            Ok(((), s.skip(1)))
        } else {
            Err(fail(ErrorKind::Char(SEMICOLON), s.len()))
        },
    }
}

/// Whether `rest` is what is left of `s` after some of its first bytes.
pub open spec fn is_suffix(rest: Seq<u8>, s: Seq<u8>) -> bool {
    rest.len() <= s.len() && rest == s.skip(s.len() - rest.len())
}

/// A suffix of a suffix is a suffix.
pub proof fn lemma_suffix_trans(a: Seq<u8>, b: Seq<u8>, c: Seq<u8>)
    requires
        is_suffix(a, b),
        is_suffix(b, c),
    ensures
        is_suffix(a, c),
{
    assert(b.skip(b.len() - a.len()) =~= c.skip(c.len() - a.len()));
}

/// Closing the open block comments leaves a suffix, and a shorter one where
/// a comment was open.
pub proof fn lemma_comment_end_suffix(s: Seq<u8>, depth: nat)
    ensures
        comment_end(s, depth) matches Some(rest) ==> is_suffix(rest, s) && (depth > 0
            ==> rest.len() < s.len()),
    decreases s.len(),
{
    if depth == 0 {
        assert(s.skip(0) =~= s);
    } else if s.len() < 2 {
    } else {
        let (t, d) = if s[0] == SLASH && s[1] == STAR {
            (s.skip(2), depth + 1)
        } else if s[0] == STAR && s[1] == SLASH {
            (s.skip(2), (depth - 1) as nat)
        } else {
            (s.skip(1), depth)
        };
        lemma_comment_end_suffix(t, d);
        if comment_end(t, d) is Some {
            lemma_suffix_trans(comment_end(t, d).unwrap(), t, s);
        }
    }
}

/// One item of plain whitespace leaves a shorter suffix.
pub proof fn lemma_plain_whitespace_item_suffix(s: Seq<u8>)
    ensures
        spec_plain_whitespace_item(s) matches Ok((_, rest)) ==> is_suffix(rest, s) && rest.len()
            < s.len(),
{
    if space_len(s) > 0 {
    } else if starts_with2(s, SLASH, STAR) {
        lemma_comment_end_suffix(s.skip(2), 1);
        if comment_end(s.skip(2), 1) is Some {
            lemma_suffix_trans(comment_end(s.skip(2), 1).unwrap(), s.skip(2), s);
        }
    }
}

/// Skipping plain whitespace leaves a suffix.
pub proof fn lemma_skip_plain_whitespace_suffix(s: Seq<u8>)
    ensures
        is_suffix(skip_plain_whitespace(s), s),
    decreases s.len(),
{
    lemma_plain_whitespace_item_suffix(s);
    match spec_plain_whitespace_item(s) {
        Ok((_, rest)) => {
            lemma_skip_plain_whitespace_suffix(rest);
            lemma_suffix_trans(skip_plain_whitespace(rest), rest, s);
        },
        Err(_) => {
            assert(s.skip(0) =~= s);
        },
    }
}

/// Plain whitespace leaves a shorter suffix.
pub proof fn lemma_plain_whitespace_suffix(s: Seq<u8>)
    ensures
        spec_plain_whitespace(s) matches Ok((_, rest)) ==> is_suffix(rest, s) && rest.len()
            < s.len(),
{
    lemma_plain_whitespace_item_suffix(s);
    if let Ok((_, rest)) = spec_plain_whitespace_item(s) {
        lemma_skip_plain_whitespace_suffix(rest);
        lemma_suffix_trans(skip_plain_whitespace(rest), rest, s);
    }
}

/// The end of a line is a suffix.
pub proof fn lemma_line_end_suffix(s: Seq<u8>)
    ensures
        is_suffix(line_end(s), s),
    decreases s.len(),
{
    if s.len() == 0 || newline_len(s) > 0 {
        assert(s.skip(0) =~= s);
    } else {
        lemma_line_end_suffix(s.skip(1));
        lemma_suffix_trans(line_end(s.skip(1)), s.skip(1), s);
    }
}

/// A line terminator or a single-line comment leaves a shorter suffix.
pub proof fn lemma_endline_suffix(s: Seq<u8>)
    ensures
        spec_endline(s) matches Ok((_, rest)) ==> is_suffix(rest, s) && rest.len() < s.len(),
{
    if newline_len(s) > 0 {
    } else if starts_with2(s, SLASH, SLASH) {
        lemma_line_end_suffix(s.skip(2));
        lemma_suffix_trans(line_end(s.skip(2)), s.skip(2), s);
    }
}

/// One item of linespace leaves a shorter suffix.
pub proof fn lemma_linespace_item_suffix(s: Seq<u8>)
    ensures
        spec_linespace_item(s) matches Ok((_, rest)) ==> is_suffix(rest, s) && rest.len()
            < s.len(),
{
    lemma_endline_suffix(s);
    lemma_plain_whitespace_suffix(s);
}

/// Skipping linespace leaves a suffix.
pub proof fn lemma_skip_linespace_suffix(s: Seq<u8>)
    ensures
        is_suffix(skip_linespace(s), s),
    decreases s.len(),
{
    lemma_linespace_item_suffix(s);
    match spec_linespace_item(s) {
        Ok((_, rest)) => {
            lemma_skip_linespace_suffix(rest);
            lemma_suffix_trans(skip_linespace(rest), rest, s);
        },
        Err(_) => {
            assert(s.skip(0) =~= s);
        },
    }
}

/// An escaped end of line leaves a shorter suffix.
pub proof fn lemma_escaped_endline_suffix(s: Seq<u8>)
    ensures
        spec_escaped_endline(s) matches Ok((_, rest)) ==> is_suffix(rest, s) && rest.len()
            < s.len(),
{
    if s.len() >= 1 && s[0] == BACKSLASH {
        let t = s.skip(1);
        let u = after_optional_plain_whitespace(t);
        lemma_plain_whitespace_suffix(t);
        assert(is_suffix(u, t)) by {
            assert(t.skip(0) =~= t);
        }
        if let Ok((_, rest)) = spec_newline(u) {
            lemma_suffix_trans(rest, u, t);
            lemma_suffix_trans(rest, t, s);
        }
    }
}

/// One item of node space leaves a shorter suffix.
pub proof fn lemma_node_space_item_suffix(s: Seq<u8>)
    ensures
        spec_node_space_item(s) matches Ok((_, rest)) ==> is_suffix(rest, s) && rest.len()
            < s.len(),
{
    lemma_plain_whitespace_suffix(s);
    lemma_escaped_endline_suffix(s);
}

/// Skipping node space leaves a suffix.
pub proof fn lemma_skip_node_space_suffix(s: Seq<u8>)
    ensures
        is_suffix(skip_node_space(s), s),
    decreases s.len(),
{
    lemma_node_space_item_suffix(s);
    match spec_node_space_item(s) {
        Ok((_, rest)) => {
            lemma_skip_node_space_suffix(rest);
            lemma_suffix_trans(skip_node_space(rest), rest, s);
        },
        Err(_) => {
            assert(s.skip(0) =~= s);
        },
    }
}

/// Node space leaves a shorter suffix.
pub proof fn lemma_node_space_suffix(s: Seq<u8>)
    ensures
        spec_node_space(s) matches Ok((_, rest)) ==> is_suffix(rest, s) && rest.len() < s.len(),
{
    lemma_node_space_item_suffix(s);
    if let Ok((_, rest)) = spec_node_space_item(s) {
        lemma_skip_node_space_suffix(rest);
        lemma_suffix_trans(skip_node_space(rest), rest, s);
    }
}

/// A node terminator leaves a suffix.
pub proof fn lemma_node_terminator_suffix(s: Seq<u8>)
    ensures
        spec_node_terminator(s) matches Ok((_, rest)) ==> is_suffix(rest, s),
{
    assert(s.skip(0) =~= s);
}

/// The width in bytes of the space character at index `i` of `b`, or 0.
fn space_width(b: &[u8], i: usize) -> (w: usize)
    requires
        i <= b@.len(),
    ensures
        w == space_len(b@.skip(i as int)),
{
    let n = b.len() - i;
    if n >= 1 && (b[i] == TAB || b[i] == SPACE) {
        1
    } else if n >= 2 && b[i] == 0xc2 && b[i + 1] == 0xa0 {
        2
    } else if n >= 3 && b[i] == 0xe1 && b[i + 1] == 0x9a && b[i + 2] == 0x80 {
        3
    } else if n >= 3 && b[i] == 0xe2 && b[i + 1] == 0x80 && ((0x80 <= b[i + 2] && b[i + 2] <= 0x8a)
        || b[i + 2] == 0xaf) {
        3
    } else if n >= 3 && b[i] == 0xe2 && b[i + 1] == 0x81 && b[i + 2] == 0x9f {
        3
    } else if n >= 3 && b[i] == 0xe3 && b[i + 1] == 0x80 && b[i + 2] == 0x80 {
        3
    } else if n >= 3 && b[i] == 0xef && b[i + 1] == 0xbb && b[i + 2] == 0xbf {
        3
    } else {
        0
    }
}

/// The width in bytes of the line terminator at index `i` of `b`, or 0.
fn newline_width(b: &[u8], i: usize) -> (w: usize)
    requires
        i <= b@.len(),
    ensures
        w == newline_len(b@.skip(i as int)),
{
    let n = b.len() - i;
    if n >= 2 && b[i] == CARRIAGE_RETURN && b[i + 1] == LINE_FEED {
        2
    } else if n >= 1 && (b[i] == CARRIAGE_RETURN || b[i] == LINE_FEED || b[i] == FORM_FEED) {
        1
    } else if n >= 2 && b[i] == 0xc2 && b[i + 1] == 0x85 {
        2
    } else if n >= 3 && b[i] == 0xe2 && b[i + 1] == 0x80 && (b[i + 2] == 0xa8 || b[i + 2] == 0xa9) {
        3
    } else {
        0
    }
}

/// In a text, the index behind a space character is a character boundary.
proof fn lemma_space_boundary(b: Seq<u8>, i: int)
    requires
        valid_utf8(b),
        0 <= i <= b.len(),
        space_len(b.skip(i)) > 0,
    ensures
        i + space_len(b.skip(i)) <= b.len(),
        is_char_boundary(b, i + space_len(b.skip(i))),
{
    assert(b.skip(i)[0] == b[i]);
    if b[i] < 0x80 {
        lemma_boundary_ascii(b, i);
    } else {
        lemma_boundary_wide(b, i);
    }
}

/// In a text, the index behind a line terminator is a character boundary.
proof fn lemma_newline_boundary(b: Seq<u8>, i: int)
    requires
        valid_utf8(b),
        0 <= i <= b.len(),
        newline_len(b.skip(i)) > 0,
    ensures
        i + newline_len(b.skip(i)) <= b.len(),
        is_char_boundary(b, i + newline_len(b.skip(i))),
{
    assert(b.skip(i)[0] == b[i]);
    if starts_with2(b.skip(i), CARRIAGE_RETURN, LINE_FEED) {
        assert(b.skip(i)[1] == b[i + 1]);
        lemma_boundary_ascii(b, i + 1);
    } else if b[i] < 0x80 {
        lemma_boundary_ascii(b, i);
    } else {
        lemma_boundary_wide(b, i);
    }
}

/// Reads the rest of a block comment whose `/*` has been read, with the
/// block comments nested in it. A comment that is never closed is an error
/// at the end of the input.
pub fn finish_block_comment<'i>(input: &'i str) -> (r: Result<(&'i str, ()), ParseError>)
    ensures
        agrees(r, spec_finish_block_comment(bytes_of(input))),
{
    let b = input.as_bytes();
    let n = b.len();
    let mut i: usize = 0;
    let mut depth: usize = 1;
    proof {
        lemma_text_valid(input);
        assert(b@.skip(0) =~= b@);
    }
    while depth > 0
        invariant
            b@ == bytes_of(input),
            n == b@.len(),
            i <= n,
            depth <= i + 1,
            valid_utf8(b@),
            comment_end(b@.skip(i as int), depth as nat) == comment_end(b@, 1),
            depth == 0 ==> is_char_boundary(b@, i as int),
        decreases n - i,
    {
        if n - i < 2 {
            return Err(ParseError::new(ErrorKind::UnexpectedEnd, 0));
        }
        proof {
            assert(b@.skip(i as int).skip(2) =~= b@.skip(i + 2));
            assert(b@.skip(i as int).skip(1) =~= b@.skip(i + 1));
        }
        if b[i] == SLASH && b[i + 1] == STAR {
            i += 2;
            depth += 1;
        } else if b[i] == STAR && b[i + 1] == SLASH {
            proof {
                lemma_boundary_ascii(b@, i + 1);
            }
            i += 2;
            depth -= 1;
        } else {
            i += 1;
        }
    }
    Ok((tail_from(input, i), ()))
}

/// Reads a block comment, with the block comments nested in it.
pub fn parse_block_comment<'i>(input: &'i str) -> (r: Result<(&'i str, ()), ParseError>)
    ensures
        agrees(r, spec_block_comment(bytes_of(input))),
{
    let b = input.as_bytes();
    if b.len() >= 2 && b[0] == SLASH && b[1] == STAR {
        proof {
            lemma_text_valid(input);
            lemma_boundary_ascii(b@, 1);
        }
        finish_block_comment(tail_from(input, 2))
    } else {
        Err(ParseError::new(ErrorKind::BlockComment, b.len()))
    }
}

/// Reads one space character or one block comment.
fn plain_whitespace_item<'i>(input: &'i str) -> (r: Result<(&'i str, ()), ParseError>)
    ensures
        agrees(r, spec_plain_whitespace_item(bytes_of(input))),
{
    let b = input.as_bytes();
    proof {
        assert(b@.skip(0) =~= b@);
    }
    let w = space_width(b, 0);
    if w > 0 {
        proof {
            lemma_text_valid(input);
            lemma_space_boundary(b@, 0);
        }
        Ok((tail_from(input, w), ()))
    } else {
        parse_block_comment(input)
    }
}

/// Reads plain whitespace: one or more space characters and block comments,
/// as many as there are.
pub fn parse_plain_whitespace<'i>(input: &'i str) -> (r: Result<(&'i str, ()), ParseError>)
    ensures
        agrees(r, spec_plain_whitespace(bytes_of(input))),
{
    let mut cur = match plain_whitespace_item(input) {
        Ok((rest, _)) => rest,
        Err(e) => {
            return Err(e);
        },
    };
    let ghost target = skip_plain_whitespace(bytes_of(cur));
    loop
        invariant
            skip_plain_whitespace(bytes_of(cur)) == target,
            spec_plain_whitespace(bytes_of(input)) == Ok::<((), Seq<u8>), SpecError>(((), target)),
        decreases bytes_of(cur).len(),
    {
        proof {
            lemma_plain_whitespace_item_suffix(bytes_of(cur));
        }
        match plain_whitespace_item(cur) {
            Ok((rest, _)) => {
                cur = rest;
            },
            Err(_) => {
                return Ok((cur, ()));
            },
        }
    }
}

/// Reads one line terminator.
pub fn parse_newline<'i>(input: &'i str) -> (r: Result<(&'i str, ()), ParseError>)
    ensures
        agrees(r, spec_newline(bytes_of(input))),
        r is Ok <==> input@.len() > 0 && is_newline_char(input@[0]),
        r matches Ok((rest, _)) ==> rest@ == input@.skip(newline_chars(input@)),
{
    let b = input.as_bytes();
    proof {
        assert(b@.skip(0) =~= b@);
        lemma_newline_of_characters(input@);
        let chars = input@;
        let k = newline_chars(chars);
        if chars.len() > 0 && is_newline_char(chars[0]) {
            lemma_encode_parts(chars, k);
            char_is_scalar(chars[0]);
            lemma_scalar_bytes(chars[0] as u32);
            reveal_with_fuel(encode_utf8, 3);
            assert(chars.take(1).drop_first() =~= Seq::<char>::empty());
            if k == 2 {
                char_is_scalar(chars[1]);
                lemma_scalar_bytes(chars[1] as u32);
                assert(chars.take(2).drop_first() =~= seq![chars[1]]);
                assert(seq![chars[1]].drop_first() =~= Seq::<char>::empty());
            }
        }
    }
    let w = newline_width(b, 0);
    if w > 0 {
        proof {
            lemma_text_valid(input);
            lemma_newline_boundary(b@, 0);
        }
        let rest = tail_from(input, w);
        proof {
            lemma_text_of_bytes(rest, input@.skip(newline_chars(input@)));
        }
        Ok((rest, ()))
    } else {
        Err(ParseError::new(ErrorKind::Newline, b.len()))
    }
}

/// Reads a comment from `//` up to the next line terminator, which is left
/// unread, or up to the end of the input.
pub fn parse_single_line_comment<'i>(input: &'i str) -> (r: Result<(&'i str, ()), ParseError>)
    ensures
        agrees(r, spec_single_line_comment(bytes_of(input))),
{
    let b = input.as_bytes();
    let n = b.len();
    if !(n >= 2 && b[0] == SLASH && b[1] == SLASH) {
        return Err(ParseError::new(ErrorKind::LineComment, n));
    }
    let mut i: usize = 2;
    proof {
        lemma_text_valid(input);
    }
    loop
        invariant
            b@ == bytes_of(input),
            n == b@.len(),
            2 <= i <= n,
            valid_utf8(b@),
            line_end(b@.skip(i as int)) == line_end(b@.skip(2)),
            starts_with2(b@, SLASH, SLASH),
        decreases n - i,
    {
        if i == n {
            proof {
                lemma_text_valid(input);
            }
            return Ok((tail_from(input, n), ()));
        }
        let w = newline_width(b, i);
        if w > 0 {
            proof {
                assert(b@.skip(i as int)[0] == b@[i as int]);
                if b@[i as int] < 0x80 {
                    lemma_boundary_ascii(b@, i as int);
                } else {
                    lemma_boundary_wide(b@, i as int);
                }
            }
            return Ok((tail_from(input, i), ()));
        }
        proof {
            assert(b@.skip(i as int).skip(1) =~= b@.skip(i + 1));
        }
        i += 1;
    }
}

/// Reads a line terminator, or else a single-line comment.
pub fn parse_endline<'i>(input: &'i str) -> (r: Result<(&'i str, ()), ParseError>)
    ensures
        agrees(r, spec_endline(bytes_of(input))),
{
    match parse_newline(input) {
        Ok(r) => Ok(r),
        Err(_) => parse_single_line_comment(input),
    }
}

/// Reads one line terminator or one single-line comment, or else one run
/// of plain whitespace.
fn linespace_item<'i>(input: &'i str) -> (r: Result<(&'i str, ()), ParseError>)
    ensures
        agrees(r, spec_linespace_item(bytes_of(input))),
{
    match parse_endline(input) {
        Ok(r) => Ok(r),
        Err(_) => parse_plain_whitespace(input),
    }
}

/// Reads linespace, the space that may stand before a node: any number of
/// line terminators, single-line comments and runs of plain whitespace. It
/// never fails.
pub fn parse_linespace<'i>(input: &'i str) -> (r: Result<(&'i str, ()), ParseError>)
    ensures
        agrees(r, spec_linespace(bytes_of(input))),
        r is Ok,
{
    let mut cur = input;
    loop
        invariant
            skip_linespace(bytes_of(cur)) == skip_linespace(bytes_of(input)),
        decreases bytes_of(cur).len(),
    {
        proof {
            lemma_linespace_item_suffix(bytes_of(cur));
        }
        match linespace_item(cur) {
            Ok((rest, _)) => {
                cur = rest;
            },
            Err(_) => {
                return Ok((cur, ()));
            },
        }
    }
}

/// Reads an escaped end of line: a backslash, plain whitespace if there is
/// any, and a line terminator.
pub fn parse_escaped_endline<'i>(input: &'i str) -> (r: Result<(&'i str, ()), ParseError>)
    ensures
        agrees(r, spec_escaped_endline(bytes_of(input))),
{
    let b = input.as_bytes();
    if b.len() >= 1 && b[0] == BACKSLASH {
        proof {
            lemma_text_valid(input);
            lemma_boundary_ascii(b@, 0);
        }
        let rest = tail_from(input, 1);
        let rest = match parse_plain_whitespace(rest) {
            Ok((tail, _)) => tail,
            Err(_) => rest,
        };
        match parse_newline(rest) {
            Ok(r) => Ok(r),
            Err(e) => Err(e),
        }
    } else {
        Err(ParseError::new(ErrorKind::Char(BACKSLASH), b.len()))
    }
}

/// Reads one run of plain whitespace or one escaped end of line.
fn node_space_item<'i>(input: &'i str) -> (r: Result<(&'i str, ()), ParseError>)
    ensures
        agrees(r, spec_node_space_item(bytes_of(input))),
{
    match parse_plain_whitespace(input) {
        Ok(r) => Ok(r),
        Err(_) => parse_escaped_endline(input),
    }
}

/// Reads node space, the space between the parts of one node: one or more
/// runs of plain whitespace and escaped ends of line, as many as there are.
pub fn parse_node_space<'i>(input: &'i str) -> (r: Result<(&'i str, ()), ParseError>)
    ensures
        agrees(r, spec_node_space(bytes_of(input))),
{
    let mut cur = match node_space_item(input) {
        Ok((rest, _)) => rest,
        Err(e) => {
            return Err(e);
        },
    };
    let ghost target = skip_node_space(bytes_of(cur));
    loop
        invariant
            skip_node_space(bytes_of(cur)) == target,
            spec_node_space(bytes_of(input)) == Ok::<((), Seq<u8>), SpecError>(((), target)),
        decreases bytes_of(cur).len(),
    {
        proof {
            lemma_node_space_item_suffix(bytes_of(cur));
        }
        match node_space_item(cur) {
            Ok((rest, _)) => {
                cur = rest;
            },
            Err(_) => {
                return Ok((cur, ()));
            },
        }
    }
}

/// Reads the end of a node: a line terminator, the end of the input, or a
/// semicolon.
pub fn parse_node_terminator<'i>(input: &'i str) -> (r: Result<(&'i str, ()), ParseError>)
    ensures
        agrees(r, spec_node_terminator(bytes_of(input))),
{
    match parse_newline(input) {
        Ok(r) => Ok(r),
        Err(_) => {
            let b = input.as_bytes();
            if b.len() == 0 {
                Ok((input, ()))
            } else if b[0] == SEMICOLON {
                proof {
                    lemma_text_valid(input);
                    lemma_boundary_ascii(b@, 0);
                }
                Ok((tail_from(input, 1), ()))
            } else {
                Err(ParseError::new(ErrorKind::Char(SEMICOLON), b.len()))
            }
        },
    }
}

/// Whether the character is a space character: the tab, a Unicode space
/// separator, or the byte order mark.
pub open spec fn is_space_char(c: char) -> bool {
    let p = c as u32;
    p == 0x09 || p == 0x20 || p == 0xA0 || p == 0x1680 || (0x2000 <= p <= 0x200A) || p == 0x202F
        || p == 0x205F || p == 0x3000 || p == 0xFEFF
}

/// Whether the character is a line terminator: carriage return, line feed,
/// next line, form feed, line separator or paragraph separator.
pub open spec fn is_newline_char(c: char) -> bool {
    let p = c as u32;
    p == 0x0D || p == 0x0A || p == 0x85 || p == 0x0C || p == 0x2028 || p == 0x2029
}

/// The number of characters of the line terminator that `chars` begins
/// with: two for a carriage return with a line feed behind it, and else
/// one.
pub open spec fn newline_chars(chars: Seq<char>) -> int {
    if chars.len() >= 2 && chars[0] as u32 == 0x0D && chars[1] as u32 == 0x0A {
        2
    } else {
        1
    }
}

/// The encodings of the space characters and of the line terminators
/// beyond ASCII, and of no other character.
proof fn lemma_wide_patterns(c: u32)
    requires
        is_scalar(c),
        c > 0x7f,
    ensures
        has_width_2_encoding(c) ==> (encode_scalar(c)[0] == 0xc2 && encode_scalar(c)[1] == 0xa0
            <==> c == 0xA0),
        has_width_2_encoding(c) ==> (encode_scalar(c)[0] == 0xc2 && encode_scalar(c)[1] == 0x85
            <==> c == 0x85),
        has_width_3_encoding(c) ==> (encode_scalar(c)[0] == 0xe1 && encode_scalar(c)[1] == 0x9a
            && encode_scalar(c)[2] == 0x80 <==> c == 0x1680),
        has_width_3_encoding(c) ==> (encode_scalar(c)[0] == 0xe2 && encode_scalar(c)[1] == 0x80 && (
        0x80 <= encode_scalar(c)[2] <= 0x8a || encode_scalar(c)[2] == 0xaf) <==> (0x2000 <= c
            <= 0x200A) || c == 0x202F),
        has_width_3_encoding(c) ==> (encode_scalar(c)[0] == 0xe2 && encode_scalar(c)[1] == 0x80 && (
        encode_scalar(c)[2] == 0xa8 || encode_scalar(c)[2] == 0xa9) <==> c == 0x2028 || c
            == 0x2029),
        has_width_3_encoding(c) ==> (encode_scalar(c)[0] == 0xe2 && encode_scalar(c)[1] == 0x81
            && encode_scalar(c)[2] == 0x9f <==> c == 0x205F),
        has_width_3_encoding(c) ==> (encode_scalar(c)[0] == 0xe3 && encode_scalar(c)[1] == 0x80
            && encode_scalar(c)[2] == 0x80 <==> c == 0x3000),
        has_width_3_encoding(c) ==> (encode_scalar(c)[0] == 0xef && encode_scalar(c)[1] == 0xbb
            && encode_scalar(c)[2] == 0xbf <==> c == 0xFEFF),
{
    assert(0x80 <= c <= 0x7FF ==> ((0xC0u8 | ((c >> 6) & 0x1F) as u8) == 0xc2 && (0x80u8 | (c
        & 0x3F) as u8) == 0xa0 <==> c == 0xA0)) by (bit_vector);
    assert(0x80 <= c <= 0x7FF ==> ((0xC0u8 | ((c >> 6) & 0x1F) as u8) == 0xc2 && (0x80u8 | (c
        & 0x3F) as u8) == 0x85 <==> c == 0x85)) by (bit_vector);
    assert(0x800 <= c <= 0xFFFF ==> ((0xE0u8 | ((c >> 12) & 0x0F) as u8) == 0xe1 && (0x80u8 | ((c
        >> 6) & 0x3F) as u8) == 0x9a && (0x80u8 | (c & 0x3F) as u8) == 0x80 <==> c == 0x1680))
        by (bit_vector);
    assert(0x800 <= c <= 0xFFFF ==> ((0xE0u8 | ((c >> 12) & 0x0F) as u8) == 0xe2 && (0x80u8 | ((c
        >> 6) & 0x3F) as u8) == 0x80 && (0x80 <= (0x80u8 | (c & 0x3F) as u8) <= 0x8a || (0x80u8 | (c
        & 0x3F) as u8) == 0xaf) <==> (0x2000 <= c <= 0x200A) || c == 0x202F)) by (bit_vector);
    assert(0x800 <= c <= 0xFFFF ==> ((0xE0u8 | ((c >> 12) & 0x0F) as u8) == 0xe2 && (0x80u8 | ((c
        >> 6) & 0x3F) as u8) == 0x80 && ((0x80u8 | (c & 0x3F) as u8) == 0xa8 || (0x80u8 | (c
        & 0x3F) as u8) == 0xa9) <==> c == 0x2028 || c == 0x2029)) by (bit_vector);
    assert(0x800 <= c <= 0xFFFF ==> ((0xE0u8 | ((c >> 12) & 0x0F) as u8) == 0xe2 && (0x80u8 | ((c
        >> 6) & 0x3F) as u8) == 0x81 && (0x80u8 | (c & 0x3F) as u8) == 0x9f <==> c == 0x205F))
        by (bit_vector);
    assert(0x800 <= c <= 0xFFFF ==> ((0xE0u8 | ((c >> 12) & 0x0F) as u8) == 0xe3 && (0x80u8 | ((c
        >> 6) & 0x3F) as u8) == 0x80 && (0x80u8 | (c & 0x3F) as u8) == 0x80 <==> c == 0x3000))
        by (bit_vector);
    assert(0x800 <= c <= 0xFFFF ==> ((0xE0u8 | ((c >> 12) & 0x0F) as u8) == 0xef && (0x80u8 | ((c
        >> 6) & 0x3F) as u8) == 0xbb && (0x80u8 | (c & 0x3F) as u8) == 0xbf <==> c == 0xFEFF))
        by (bit_vector);
}

/// The space bytes are the bytes of the space characters: a text begins
/// with the bytes of a space if and only if it begins with a space
/// character, and the space has the bytes of that character.
pub proof fn lemma_space_of_characters(chars: Seq<char>)
    ensures
        space_len(encode_utf8(chars)) == if chars.len() > 0 && is_space_char(chars[0]) {
            encode_scalar(chars[0] as u32).len()
        } else {
            0
        },
{
    let bytes = encode_utf8(chars);
    if chars.len() > 0 {
        let c = chars[0] as u32;
        let first = encode_scalar(c);
        char_is_scalar(chars[0]);
        lemma_scalar_bytes(c);
        lemma_scalar_width(c);
        assert forall|j: int| 0 <= j < first.len() implies bytes[j] == first[j] by {}
        if c > 0x7f {
            lemma_wide_patterns(c);
        }
    }
}

/// The line terminator bytes are the bytes of the line terminators: a text
/// begins with the bytes of a line terminator if and only if it begins
/// with a line terminator, and a carriage return with a line feed behind it
/// is one terminator of two bytes.
pub proof fn lemma_newline_of_characters(chars: Seq<char>)
    ensures
        newline_len(encode_utf8(chars)) == if chars.len() >= 2 && chars[0] as u32 == 0x0D
            && chars[1] as u32 == 0x0A {
            2
        } else if chars.len() > 0 && is_newline_char(chars[0]) {
            encode_scalar(chars[0] as u32).len()
        } else {
            0
        },
{
    let bytes = encode_utf8(chars);
    if chars.len() > 0 {
        let c = chars[0] as u32;
        let first = encode_scalar(c);
        char_is_scalar(chars[0]);
        lemma_scalar_bytes(c);
        lemma_scalar_width(c);
        assert forall|j: int| 0 <= j < first.len() implies bytes[j] == first[j] by {}
        if c > 0x7f {
            lemma_wide_patterns(c);
        } else {
            let others = chars.drop_first();
            assert(bytes.skip(1) =~= encode_utf8(others));
            if others.len() > 0 {
                let d = others[0] as u32;
                char_is_scalar(others[0]);
                lemma_scalar_bytes(d);
                assert(bytes[1] == encode_scalar(d)[0]);
                assert(others[0] == chars[1]);
            } else {
                assert(bytes.len() == 1);
            }
        }
    }
}

} // verus!
