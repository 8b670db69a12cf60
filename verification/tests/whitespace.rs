use kaydle_primitives::error::{ErrorKind, ParseError};
use kaydle_primitives::whitespace::{
    finish_block_comment, parse_block_comment, parse_endline, parse_escaped_endline,
    parse_linespace, parse_newline, parse_node_space, parse_node_terminator,
    parse_plain_whitespace, parse_single_line_comment,
};

fn error(kind: ErrorKind, remaining: usize) -> ParseError {
    ParseError { kind, remaining, fatal: false, contexts: Vec::new() }
}

#[test]
fn whitespace_basic() {
    assert_eq!(parse_block_comment("/* abcd */123"), Ok(("123", ())));
}

#[test]
fn nested() {
    assert_eq!(parse_block_comment("/* abc /* def */ ghi */123"), Ok(("123", ())));
}

#[test]
fn failure() {
    assert_eq!(parse_block_comment("/*abc"), Err(error(ErrorKind::UnexpectedEnd, 0)));
}

#[test]
fn nested_failure() {
    assert_eq!(
        parse_block_comment("/* abc /* def */ ghi"),
        Err(error(ErrorKind::UnexpectedEnd, 0))
    );
}

#[test]
fn block_comment_basic() {
    assert_eq!(parse_block_comment("/* abc */ def"), Ok((" def", ())));
}

#[test]
fn block_comment_newlines() {
    assert_eq!(parse_block_comment("/*\nabc\n123*/ def"), Ok((" def", ())));
}

#[test]
fn block_comment_nested() {
    assert_eq!(parse_block_comment("/* abc /* 123 */ def */ 456"), Ok((" 456", ())));
}

#[test]
fn block_comment_missing_terminator() {
    assert_eq!(parse_block_comment("/* 123"), Err(error(ErrorKind::UnexpectedEnd, 0)));
}

#[test]
fn block_comment_missing_nested_terminator() {
    assert_eq!(
        parse_block_comment("/* 123 /* abc */ def"),
        Err(error(ErrorKind::UnexpectedEnd, 0))
    );
}

#[test]
fn block_comment_adjacent() {
    assert_eq!(
        parse_block_comment("/* 123 */ abc /* 456 */ def"),
        Ok((" abc /* 456 */ def", ()))
    );
}

#[test]
fn block_comment_edges() {
    assert_eq!(parse_block_comment("/**/x"), Ok(("x", ())));
    assert_eq!(parse_block_comment("/***/x"), Ok(("x", ())));
    assert_eq!(parse_block_comment("/*/*/x"), Err(error(ErrorKind::UnexpectedEnd, 0)));
    assert_eq!(parse_block_comment("/*/**/*/x"), Ok(("x", ())));
    assert_eq!(parse_block_comment("/*/**/x"), Err(error(ErrorKind::UnexpectedEnd, 0)));
    assert_eq!(parse_block_comment("/* é 日本 */é"), Ok(("é", ())));
    assert_eq!(parse_block_comment("/"), Err(error(ErrorKind::BlockComment, 1)));
    assert_eq!(parse_block_comment("// x"), Err(error(ErrorKind::BlockComment, 4)));
    assert_eq!(parse_block_comment(""), Err(error(ErrorKind::BlockComment, 0)));
    assert_eq!(parse_block_comment("/*"), Err(error(ErrorKind::UnexpectedEnd, 0)));
    assert_eq!(parse_block_comment("/* *"), Err(error(ErrorKind::UnexpectedEnd, 0)));
}

#[test]
fn rest_of_a_block_comment() {
    assert_eq!(finish_block_comment(" abc */ def"), Ok((" def", ())));
    assert_eq!(finish_block_comment("/* */ */x"), Ok(("x", ())));
    assert_eq!(finish_block_comment(" abc "), Err(error(ErrorKind::UnexpectedEnd, 0)));
}

#[test]
fn every_space_character() {
    let spaces = [
        '\u{0009}', '\u{0020}', '\u{00A0}', '\u{1680}', '\u{2000}', '\u{2001}', '\u{2002}',
        '\u{2003}', '\u{2004}', '\u{2005}', '\u{2006}', '\u{2007}', '\u{2008}', '\u{2009}',
        '\u{200A}', '\u{202F}', '\u{205F}', '\u{3000}', '\u{FEFF}',
    ];
    for c in spaces {
        let input = format!("{}x", c);
        assert_eq!(parse_plain_whitespace(&input), Ok(("x", ())), "U+{:04X}", c as u32);
    }
    let all: String = spaces.iter().collect();
    let input = format!("{}x", all);
    assert_eq!(parse_plain_whitespace(&input), Ok(("x", ())));
}

#[test]
fn characters_that_are_no_space() {
    for c in ['\u{200B}', '\u{2028}', '\u{0085}', '\u{00A1}', '\u{180E}', '\u{FFEF}', 'a', '\n', '\r', '\u{0B}'] {
        let input = format!("{}x", c);
        assert_eq!(
            parse_plain_whitespace(&input),
            Err(error(ErrorKind::BlockComment, input.len())),
            "U+{:04X}",
            c as u32
        );
    }
    assert_eq!(parse_plain_whitespace(""), Err(error(ErrorKind::BlockComment, 0)));
}

#[test]
fn plain_whitespace_takes_comments_and_stops_at_a_line_end() {
    assert_eq!(parse_plain_whitespace("  /* a */\t/* b */ x"), Ok(("x", ())));
    assert_eq!(parse_plain_whitespace("  \n x"), Ok(("\n x", ())));
    assert_eq!(parse_plain_whitespace(" // x"), Ok(("// x", ())));
    // A comment that is never closed is no whitespace: what stands before it is.
    assert_eq!(parse_plain_whitespace("  /* a"), Ok(("/* a", ())));
    assert_eq!(parse_plain_whitespace("/* a"), Err(error(ErrorKind::UnexpectedEnd, 0)));
}

#[test]
fn every_line_terminator() {
    for nl in ["\r\n", "\r", "\n", "\u{85}", "\u{0C}", "\u{2028}", "\u{2029}"] {
        let input = format!("{}x", nl);
        assert_eq!(parse_newline(&input), Ok(("x", ())));
        let input = format!("{}\rx", nl);
        assert_eq!(parse_newline(&input), Ok(("\rx", ())));
    }
    assert_eq!(parse_newline("\r\n\nx"), Ok(("\nx", ())));
    assert_eq!(parse_newline("\n\rx"), Ok(("\rx", ())));
    assert_eq!(parse_newline("x"), Err(error(ErrorKind::Newline, 1)));
    assert_eq!(parse_newline(" \n"), Err(error(ErrorKind::Newline, 2)));
    assert_eq!(parse_newline(""), Err(error(ErrorKind::Newline, 0)));
    assert_eq!(parse_newline("\u{2027}"), Err(error(ErrorKind::Newline, 3)));
}

#[test]
fn single_line_comment() {
    assert_eq!(parse_single_line_comment("// c\nx"), Ok(("\nx", ())));
    assert_eq!(parse_single_line_comment("// abc\ndef"), Ok(("\ndef", ())));
    assert_eq!(parse_single_line_comment("// abc\r\ndef"), Ok(("\r\ndef", ())));
    assert_eq!(parse_single_line_comment("// abc\rdef"), Ok(("\rdef", ())));
    assert_eq!(parse_single_line_comment("// abc\u{2028}def"), Ok(("\u{2028}def", ())));
    assert_eq!(parse_single_line_comment("// abc\u{85}def"), Ok(("\u{85}def", ())));
    assert_eq!(parse_single_line_comment("// abc\u{0C}def"), Ok(("\u{0C}def", ())));
    assert_eq!(parse_single_line_comment("// é日本\u{2029}é"), Ok(("\u{2029}é", ())));
    assert_eq!(parse_single_line_comment("// abc"), Ok(("", ())));
    assert_eq!(parse_single_line_comment("//"), Ok(("", ())));
    assert_eq!(parse_single_line_comment("//\n"), Ok(("\n", ())));
    assert_eq!(parse_single_line_comment("// /* \n */"), Ok(("\n */", ())));
    assert_eq!(parse_single_line_comment("/ / abc"), Err(error(ErrorKind::LineComment, 7)));
    assert_eq!(parse_single_line_comment("/* */"), Err(error(ErrorKind::LineComment, 5)));
    assert_eq!(parse_single_line_comment(""), Err(error(ErrorKind::LineComment, 0)));
}

#[test]
fn endline() {
    assert_eq!(parse_endline("\nx"), Ok(("x", ())));
    assert_eq!(parse_endline("// c\nx"), Ok(("\nx", ())));
    assert_eq!(parse_endline("// c"), Ok(("", ())));
    assert_eq!(parse_endline(" \nx"), Err(error(ErrorKind::LineComment, 3)));
    assert_eq!(parse_endline(""), Err(error(ErrorKind::LineComment, 0)));
}

#[test]
fn linespace_never_fails() {
    assert_eq!(parse_linespace(""), Ok(("", ())));
    assert_eq!(parse_linespace("x"), Ok(("x", ())));
    assert_eq!(parse_linespace("  \n\t// c\n /* d */\r\n x y"), Ok(("x y", ())));
    assert_eq!(parse_linespace("\n\n\n"), Ok(("", ())));
    assert_eq!(parse_linespace("// c\n// d\nx"), Ok(("x", ())));
    assert_eq!(parse_linespace("// c"), Ok(("", ())));
    assert_eq!(parse_linespace(" /* a"), Ok(("/* a", ())));
    assert_eq!(parse_linespace("\\\n x"), Ok(("\\\n x", ())));
}

#[test]
fn escaped_endline() {
    assert_eq!(parse_escaped_endline("\\\nx"), Ok(("x", ())));
    assert_eq!(parse_escaped_endline("\\  \t\r\nx"), Ok(("x", ())));
    assert_eq!(parse_escaped_endline("\\ /* c */ \nx"), Ok(("x", ())));
    assert_eq!(parse_escaped_endline("\\\u{2028}x"), Ok(("x", ())));
    // A comment is no line terminator.
    assert_eq!(parse_escaped_endline("\\ /* c */ // d\nx"), Err(error(ErrorKind::Newline, 6)));
    assert_eq!(parse_escaped_endline("\\ // d"), Err(error(ErrorKind::Newline, 4)));
    assert_eq!(parse_escaped_endline("\\ x"), Err(error(ErrorKind::Newline, 1)));
    assert_eq!(parse_escaped_endline("\\"), Err(error(ErrorKind::Newline, 0)));
    assert_eq!(parse_escaped_endline("\nx"), Err(error(ErrorKind::Char(b'\\'), 2)));
    assert_eq!(parse_escaped_endline(""), Err(error(ErrorKind::Char(b'\\'), 0)));
}

#[test]
fn node_space_goes_on_over_escaped_line_ends() {
    assert_eq!(parse_node_space(" x"), Ok(("x", ())));
    assert_eq!(parse_node_space(" \\\n  x"), Ok(("x", ())));
    assert_eq!(parse_node_space("\\\n\\\nx"), Ok(("x", ())));
    assert_eq!(parse_node_space("  \n x"), Ok(("\n x", ())));
    assert_eq!(parse_node_space(" /* c */ \\ \n\t; x"), Ok(("; x", ())));
    assert_eq!(parse_node_space(" // c\nx"), Ok(("// c\nx", ())));
    assert_eq!(parse_node_space("x"), Err(error(ErrorKind::Char(b'\\'), 1)));
    assert_eq!(parse_node_space("\nx"), Err(error(ErrorKind::Char(b'\\'), 2)));
    assert_eq!(parse_node_space(""), Err(error(ErrorKind::Char(b'\\'), 0)));
    assert_eq!(parse_node_space("\\x"), Err(error(ErrorKind::Newline, 1)));
    // An escape without a line terminator behind it ends the space before it.
    assert_eq!(parse_node_space("  \\x"), Ok(("\\x", ())));
    assert_eq!(parse_node_space("  \\ // c\nx"), Ok(("\\ // c\nx", ())));
}

#[test]
fn node_terminator() {
    assert_eq!(parse_node_terminator("\nx"), Ok(("x", ())));
    assert_eq!(parse_node_terminator("\r\nx"), Ok(("x", ())));
    assert_eq!(parse_node_terminator(";x"), Ok(("x", ())));
    assert_eq!(parse_node_terminator(";;"), Ok((";", ())));
    assert_eq!(parse_node_terminator(""), Ok(("", ())));
    // A comment is no line terminator.
    assert_eq!(parse_node_terminator("// c\nx"), Err(error(ErrorKind::Char(b';'), 6)));
    assert_eq!(parse_node_terminator("x"), Err(error(ErrorKind::Char(b';'), 1)));
    assert_eq!(parse_node_terminator(" ;"), Err(error(ErrorKind::Char(b';'), 2)));
    assert_eq!(parse_node_terminator("}"), Err(error(ErrorKind::Char(b';'), 1)));
}
