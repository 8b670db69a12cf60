//! Parsers and cursor types for KDL documents.
//!
//! A document is a list of nodes; a node has a name, arguments, properties
//! and, between braces, a list of child nodes. The parsers here work on the
//! text of a document and hand back slices of it wherever no escape forces a
//! copy. Every parser is stated against a model of the grammar over the
//! UTF-8 bytes of its input, and proved to agree with it.

pub mod annotation;
pub mod error;
pub mod node;
pub mod number;
pub mod property;
pub mod string;
pub mod util;
pub mod value;
pub mod whitespace;

use vstd::prelude::*;
use crate::error::{fail, ErrorKind, ParseError, Parsed};
use crate::util::{agrees, bytes_of, lemma_boundary_ascii, lemma_text_valid, tail_from};

verus! {

/// `null`.
pub open spec fn spec_null(s: Seq<u8>) -> Parsed<()> {
    if s.len() >= 4 && s[0] == 0x6e && s[1] == 0x75 && s[2] == 0x6c && s[3] == 0x6c {
        Ok(((), s.skip(4)))
    } else {
        Err(fail(ErrorKind::Null, s.len()))
    }
}

/// `true` or `false`.
pub open spec fn spec_bool(s: Seq<u8>) -> Parsed<bool> {
    if s.len() >= 4 && s[0] == 0x74 && s[1] == 0x72 && s[2] == 0x75 && s[3] == 0x65 {
        Ok((true, s.skip(4)))
    } else if s.len() >= 5 && s[0] == 0x66 && s[1] == 0x61 && s[2] == 0x6c && s[3] == 0x73 && s[4]
        == 0x65 {
        Ok((false, s.skip(5)))
    } else {
        Err(fail(ErrorKind::Bool, s.len()))
    }
}

/// Reads the word `null`.
pub fn parse_null<'i>(input: &'i str) -> (r: Result<(&'i str, ()), ParseError>)
    ensures
        agrees(r, spec_null(bytes_of(input))),
{
    let b = input.as_bytes();
    if b.len() >= 4 && b[0] == 0x6e && b[1] == 0x75 && b[2] == 0x6c && b[3] == 0x6c {
        proof {
            lemma_text_valid(input);
            lemma_boundary_ascii(b@, 3);
        }
        Ok((tail_from(input, 4), ()))
    } else {
        Err(ParseError::new(ErrorKind::Null, b.len()))
    }
}

/// Reads the word `true` or the word `false`.
pub fn parse_bool<'i>(input: &'i str) -> (r: Result<(&'i str, bool), ParseError>)
    ensures
        agrees(r, spec_bool(bytes_of(input))),
{
    let b = input.as_bytes();
    if b.len() >= 4 && b[0] == 0x74 && b[1] == 0x72 && b[2] == 0x75 && b[3] == 0x65 {
        proof {
            lemma_text_valid(input);
            lemma_boundary_ascii(b@, 3);
        }
        Ok((tail_from(input, 4), true))
    } else if b.len() >= 5 && b[0] == 0x66 && b[1] == 0x61 && b[2] == 0x6c && b[3] == 0x73 && b[4]
        == 0x65 {
        proof {
            lemma_text_valid(input);
            lemma_boundary_ascii(b@, 4);
        }
        Ok((tail_from(input, 5), false))
    } else {
        Err(ParseError::new(ErrorKind::Bool, b.len()))
    }
}

} // verus!
