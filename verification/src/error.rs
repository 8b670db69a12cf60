//! The error that every parser of this crate reports.

use vstd::prelude::*;

verus! {

/// What a parser was looking for when it gave up.
#[derive(Clone, Copy, Debug, PartialEq, Eq, Structural)]
pub enum ErrorKind {
    /// The input ended inside a block comment or a string.
    UnexpectedEnd,
    /// The input should have ended here.
    EndOfInput,
    /// This ASCII character was required.
    Char(u8),
    /// A line terminator was required.
    Newline,
    /// `//` was required.
    LineComment,
    /// `/*` was required.
    BlockComment,
    /// `null` was required.
    Null,
    /// `true` or `false` was required.
    Bool,
    /// A bare identifier was required.
    Identifier,
    /// A hexadecimal digit was required inside `\u{..}`.
    HexDigit,
    /// The number inside `\u{..}` is no Unicode scalar value.
    CodePoint,
    /// A digit was required.
    Digit,
    /// A number does not fit the type that holds it.
    Bounds,
}

/// The construct that was being read when an error arose.
#[derive(Clone, Copy, Debug, PartialEq, Eq, Structural)]
pub enum Context {
    /// An annotation: a name in parentheses.
    Annotation,
    /// A quoted string.
    EscapedString,
    /// The key of a property.
    Key,
    /// The name of a node, with its annotation.
    Node,
    /// A number.
    Number,
    /// A property.
    Property,
    /// A raw string.
    RawString,
    /// A string, quoted or raw.
    String,
    /// A value, with its annotation.
    Value,
}

impl Context {
    /// The name of the construct, as it is written in diagnostics.
    pub fn name(&self) -> (r: &'static str)
        ensures
            r@ == context_name(*self)@,
    {
        match self {
            Context::Annotation => "annotation",
            Context::EscapedString => "escaped string",
            Context::Key => "key",
            Context::Node => "node",
            Context::Number => "number",
            Context::Property => "property",
            Context::RawString => "raw string",
            Context::String => "string",
            Context::Value => "value",
        }
    }
}

/// The name of each construct.
pub open spec fn context_name(c: Context) -> &'static str {
    match c {
        Context::Annotation => "annotation",
        Context::EscapedString => "escaped string",
        Context::Key => "key",
        Context::Node => "node",
        Context::Number => "number",
        Context::Property => "property",
        Context::RawString => "raw string",
        Context::String => "string",
        Context::Value => "value",
    }
}

/// A parse error in the mathematical model.
pub struct SpecError {
    /// What was required.
    pub kind: ErrorKind,
    /// How many bytes of the input were still unread where the parser gave up.
    pub remaining: nat,
    /// Whether the error forbids trying another reading of the same text.
    pub fatal: bool,
    /// The constructs that were being read, innermost first.
    pub contexts: Seq<Context>,
}

/// What a parser yields in the model: a value and the unread rest, or an error.
pub type Parsed<T> = Result<(T, Seq<u8>), SpecError>;

/// A recoverable error without context.
pub open spec fn fail(kind: ErrorKind, remaining: nat) -> SpecError {
    SpecError { kind, remaining, fatal: false, contexts: Seq::empty() }
}

/// The same error, made fatal.
pub open spec fn cut_error(e: SpecError) -> SpecError {
    SpecError { fatal: true, ..e }
}

/// The same error inside one more construct.
pub open spec fn in_context(e: SpecError, c: Context) -> SpecError {
    SpecError { contexts: e.contexts.push(c), ..e }
}

/// A result whose error, if any, is made fatal.
pub open spec fn cut<T>(p: Parsed<T>) -> Parsed<T> {
    match p {
        Ok(v) => Ok(v),
        Err(e) => Err(cut_error(e)),
    }
}

/// A result whose error, if any, is put inside one more construct.
pub open spec fn context<T>(p: Parsed<T>, c: Context) -> Parsed<T> {
    match p {
        Ok(v) => Ok(v),
        Err(e) => Err(in_context(e, c)),
    }
}

/// The first reading of a text, or the second where the first failed and
/// its error allows another reading. Of a reading that fails so nothing is
/// kept: where all readings fail, the error is that of the last.
pub open spec fn or_else<T>(first: Parsed<T>, second: Parsed<T>) -> Parsed<T> {
    match first {
        Ok(v) => Ok(v),
        Err(e) => if e.fatal {
            Err(e)
        } else {
            second
        },
    }
}

/// Whether two readings of one text agree but for the bounds of numbers:
/// they are the same, or the reading that checks the bounds has found a
/// number that does not fit.
pub open spec fn same_unless_bounds<T>(checked: Parsed<T>, unchecked: Parsed<T>) -> bool {
    checked == unchecked || (checked matches Err(e) && e.kind == ErrorKind::Bounds)
}

/// Whether two readings of one text agree but for the bounds of numbers,
/// and a number that does not fit is a fatal error.
pub open spec fn same_unless_fatal_bounds<T>(checked: Parsed<T>, unchecked: Parsed<T>) -> bool {
    checked == unchecked || (checked matches Err(e) && e.kind == ErrorKind::Bounds && e.fatal)
}

/// A parse error: what was required, where, and inside which constructs.
///
/// The place is given as the number of bytes that were still unread; the
/// offset of the failure in a document is the document's length less that
/// number.
#[derive(Clone, Debug, PartialEq, Eq)]
pub struct ParseError {
    /// What was required.
    pub kind: ErrorKind,
    /// How many bytes of the input were still unread where the parser gave up.
    pub remaining: usize,
    /// Whether the error forbids trying another reading of the same text.
    pub fatal: bool,
    /// The constructs that were being read, innermost first.
    pub contexts: Vec<Context>,
}

impl View for ParseError {
    type V = SpecError;

    open spec fn view(&self) -> SpecError {
        SpecError {
            kind: self.kind,
            remaining: self.remaining as nat,
            fatal: self.fatal,
            contexts: self.contexts@,
        }
    }
}

impl ParseError {
    /// A recoverable error without context.
    pub fn new(kind: ErrorKind, remaining: usize) -> (e: ParseError)
        ensures
            e@ == fail(kind, remaining as nat),
    {
        ParseError { kind, remaining, fatal: false, contexts: Vec::new() }
    }

    /// The same error, made fatal.
    pub fn cut(self) -> (e: ParseError)
        ensures
            e@ == cut_error(self@),
    {
        ParseError { kind: self.kind, remaining: self.remaining, fatal: true, contexts: self.contexts }
    }

    /// The same error inside one more construct.
    pub fn within(self, c: Context) -> (e: ParseError)
        ensures
            e@ == in_context(self@, c),
    {
        let mut contexts = self.contexts;
        contexts.push(c);
        ParseError { kind: self.kind, remaining: self.remaining, fatal: self.fatal, contexts }
    }

    /// The offset of the failure in a document of `len` bytes.
    pub fn offset(&self, len: usize) -> (r: usize)
        ensures
            r == if self.remaining <= len { len - self.remaining } else { 0 },
    {
        if self.remaining <= len {
            len - self.remaining
        } else {
            0
        }
    }
}

} // verus!
