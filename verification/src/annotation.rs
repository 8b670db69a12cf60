//! Annotations: a name in parentheses that may stand before a node or a
//! value, most often to say of what type it is.

use vstd::prelude::*;
use vstd::string::*;
use vstd::utf8::*;
use crate::error::{context, cut, fail, Context, ErrorKind, ParseError, Parsed};
use crate::string::{parse_identifier, spec_identifier, KdlString, StringBuilder, Text};
use crate::util::{bytes_of, lemma_boundary_ascii, lemma_text_valid, tail_from, CLOSE_PAREN, OPEN_PAREN};

verus! {

/// An annotation: an identifier in parentheses, with no space inside them.
/// Behind the opening parenthesis every error is fatal.
pub open spec fn spec_annotation(s: Seq<u8>) -> Parsed<Text> {
    if !(s.len() >= 1 && s[0] == OPEN_PAREN) {
        Err(fail(ErrorKind::Char(OPEN_PAREN), s.len()))
    } else {
        cut(
            match spec_identifier(s.skip(1)) {
                Err(e) => Err(e),
                Ok((name, rest)) => if rest.len() >= 1 && rest[0] == CLOSE_PAREN {
                    Ok((name, rest.skip(1)))
                } else {
                    Err(fail(ErrorKind::Char(CLOSE_PAREN), rest.len()))
                },
            },
        )
    }
}

/// An annotation where there is one: none where the text does not begin
/// with a parenthesis, and an error where it does and no annotation
/// follows.
pub open spec fn spec_maybe_annotation(s: Seq<u8>) -> Parsed<Option<Text>> {
    match context(spec_annotation(s), Context::Annotation) {
        Ok((name, rest)) => Ok((Some(name), rest)),
        Err(e) => if e.fatal {
            Err(e)
        } else {
            Ok((None, s))
        },
    }
}

/// Reads an annotation into a string builder.
pub fn parse_annotation<'i, T: StringBuilder<'i>>(input: &'i str) -> (r: Result<
    (&'i str, T),
    ParseError,
>)
    ensures
        crate::string::agrees_string(r, spec_annotation(bytes_of(input))),
{
    let b = input.as_bytes();
    if !(b.len() >= 1 && b[0] == OPEN_PAREN) {
        return Err(ParseError::new(ErrorKind::Char(OPEN_PAREN), b.len()));
    }
    proof {
        lemma_text_valid(input);
        lemma_boundary_ascii(b@, 0);
    }
    match parse_identifier::<T>(tail_from(input, 1)) {
        Err(e) => Err(e.cut()),
        Ok((rest, name)) => {
            let rb = rest.as_bytes();
            if rb.len() >= 1 && rb[0] == CLOSE_PAREN {
                proof {
                    lemma_text_valid(rest);
                    lemma_boundary_ascii(rb@, 0);
                }
                Ok((tail_from(rest, 1), name))
            } else {
                Err(ParseError::new(ErrorKind::Char(CLOSE_PAREN), rb.len()).cut())
            }
        },
    }
}

/// What is made of an annotation that was read, or of its absence. A
/// builder may keep the annotation, or only that there was one, or
/// nothing.
pub trait AnnotationBuilder<'i>: Sized {
    /// The builder of the annotation's name.
    type String: StringBuilder<'i>;

    /// Whether this value may stand for the annotation, or for its absence.
    spec fn denotes(&self, annotation: Option<Text>) -> bool;

    /// Builds the value from the name that was read, if any.
    fn build(annotation: Option<Self::String>) -> (r: Self)
        ensures
            annotation is None ==> r.denotes(None),
            forall|t: Text|
                annotation is Some && #[trigger] annotation->Some_0.denotes(t) ==> r.denotes(
                    Some(t),
                ),
    ;
}

/// The unit type keeps nothing of an annotation.
impl<'i> AnnotationBuilder<'i> for () {
    type String = ();

    open spec fn denotes(&self, annotation: Option<Text>) -> bool {
        true
    }

    fn build(annotation: Option<()>) -> (r: Self) {
        ()
    }
}

/// An `Option` keeps the annotation where there is one.
impl<'i, S: StringBuilder<'i>> AnnotationBuilder<'i> for Option<S> {
    type String = S;

    open spec fn denotes(&self, annotation: Option<Text>) -> bool {
        match (*self, annotation) {
            (None, None) => true,
            (Some(s), Some(t)) => s.denotes(t),
            _ => false,
        }
    }

    fn build(annotation: Option<S>) -> (r: Self) {
        annotation
    }
}

/// Something with the annotation that stands before it.
#[derive(Debug, Copy, Clone, PartialEq, Eq)]
pub struct GenericAnnotated<A, T> {
    /// The annotation.
    pub annotation: A,
    /// What is annotated.
    pub item: T,
}

impl<A, T> GenericAnnotated<A, T> {
    /// The same annotation before what `op` makes of the item.
    pub fn map_item<U, F: FnOnce(T) -> U>(self, op: F) -> (r: GenericAnnotated<A, U>)
        requires
            op.requires((self.item,)),
        ensures
            r.annotation == self.annotation,
            op.ensures((self.item,), r.item),
    {
        GenericAnnotated { item: op(self.item), annotation: self.annotation }
    }
}

/// Something with the annotation that stands before it, if there is one,
/// as a `KdlString`.
pub type Annotated<'i, T> = GenericAnnotated<Option<KdlString<'i>>, T>;

/// Something of which the annotation was read and dropped.
pub type RecognizedAnnotation<T> = GenericAnnotated<(), T>;

/// Something that was read and dropped, annotation and all.
pub type RecognizedAnnotated = RecognizedAnnotation<()>;

/// Reads the annotation that may stand before something into an annotation
/// builder.
pub fn parse_maybe_annotation<'i, A: AnnotationBuilder<'i>>(input: &'i str) -> (r: Result<
    (&'i str, A),
    ParseError,
>)
    ensures
        match r {
            Ok((rest, a)) => spec_maybe_annotation(bytes_of(input)) matches Ok((m, srest))
                && a.denotes(m) && bytes_of(rest) == srest,
            Err(e) => spec_maybe_annotation(bytes_of(input)) matches Err(se) && e@ == se,
        },
{
    match parse_annotation::<A::String>(input) {
        Ok((rest, name)) => {
            let ghost t = spec_annotation(bytes_of(input))->Ok_0.0;
            let ghost held = Some(name);
            let a = A::build(Some(name));
            assert(held->Some_0.denotes(t));
            assert(a.denotes(Some(t)));
            Ok((rest, a))
        },
        Err(e) => {
            if e.fatal {
                Err(e.within(Context::Annotation))
            } else {
                let a = A::build(None);
                assert(a.denotes(None));
                Ok((input, a))
            }
        },
    }
}

/// Reads what `parser` reads, with the annotation that may stand before it.
/// An annotation that is begun and malformed is an error; no annotation is
/// none.
pub fn with_annotation<'i, A, T, P>(parser: P, input: &'i str) -> (r: Result<
    (&'i str, GenericAnnotated<A, T>),
    ParseError,
>) where A: AnnotationBuilder<'i>, P: FnOnce(&'i str) -> Result<(&'i str, T), ParseError>
    requires
        forall|s: &'i str| #[trigger] parser.requires((s,)),
    ensures
        match spec_maybe_annotation(bytes_of(input)) {
            Err(e) => r matches Err(re) && re@ == e,
            Ok((a, rest)) => exists|mid: &'i str| #[trigger]
                bytes_of(mid) == rest && match r {
                    Ok((tail, v)) => parser.ensures((mid,), Ok((tail, v.item)))
                        && v.annotation.denotes(a),
                    Err(e) => parser.ensures((mid,), Err(e)),
                },
        },
{
    match parse_maybe_annotation::<A>(input) {
        Err(e) => Err(e),
        Ok((mid, annotation)) => match parser(mid) {
            Ok((tail, item)) => Ok((tail, GenericAnnotated { annotation, item })),
            Err(e) => Err(e),
        },
    }
}

/// An annotation that may be there takes no more than there is, and at
/// least two bytes where it is there.
pub proof fn lemma_maybe_annotation_shorter(s: Seq<u8>)
    ensures
        spec_maybe_annotation(s) matches Ok((a, rest)) ==> rest.len() <= s.len() && (a is Some
            ==> rest.len() < s.len()),
{
    if s.len() >= 1 {
        crate::string::lemma_identifier_shorter(s.skip(1));
    }
}

} // verus!
