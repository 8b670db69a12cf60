//! Properties: a key and a value with `=` between them.

use vstd::prelude::*;
use crate::annotation::{AnnotationBuilder, GenericAnnotated};
use crate::error::{
    context, cut, fail, same_unless_fatal_bounds, Context, ErrorKind, ParseError, Parsed,
};
use crate::string::{parse_identifier, spec_identifier, KdlString, StringBuilder, Text};
use crate::util::{bytes_of, lemma_boundary_ascii, lemma_text_valid, tail_from, EQUALS};
use crate::value::{
    checks_decimals, checks_integers, parse_value, spec_value, KdlValue, Value, ValueBuilder,
};

verus! {

/// A property: a key, and a value with its annotation.
#[derive(Debug, Clone, Copy, PartialEq, Eq)]
pub struct GenericProperty<K, A, V> {
    /// The key.
    pub key: K,
    /// The value, with its annotation.
    pub value: GenericAnnotated<A, V>,
}

/// A property with all that was written.
pub type Property<'a> = GenericProperty<KdlString<'a>, Option<KdlString<'a>>, KdlValue<'a>>;

/// A property of which nothing is kept but that it was there.
pub type RecognizedProperty = GenericProperty<(), (), ()>;

/// A property in the model.
pub type PropertyModel = GenericProperty<Text, Option<Text>, Value>;

/// A property: an identifier, `=`, and a value with the annotation that may
/// stand before it, with no space between them. Behind the `=` every error
/// is fatal: no other reading of the text can be right.
pub open spec fn spec_property(s: Seq<u8>, checked_int: bool, checked: bool) -> Parsed<
    PropertyModel,
> {
    match context(spec_identifier(s), Context::Key) {
        Err(e) => Err(e),
        Ok((key, rest)) => if !(rest.len() >= 1 && rest[0] == EQUALS) {
            Err(fail(ErrorKind::Char(EQUALS), rest.len()))
        } else {
            match cut(context(spec_value(rest.skip(1), checked_int, checked), Context::Value)) {
                Err(e) => Err(e),
                Ok((value, rest)) => Ok((GenericProperty { key, value }, rest)),
            }
        },
    }
}

/// Whether the result of the property parser agrees with the model.
pub open spec fn agrees_property<
    'a,
    K: StringBuilder<'a>,
    A: AnnotationBuilder<'a>,
    V: ValueBuilder<'a>,
>(r: Result<(&str, GenericProperty<K, A, V>), ParseError>, p: Parsed<PropertyModel>) -> bool {
    match r {
        Ok((rest, v)) => p matches Ok((m, srest)) && v.key.denotes(m.key)
            && v.value.annotation.denotes(m.value.annotation) && v.value.item.denotes(m.value.item)
            && bytes_of(rest) == srest,
        Err(e) => p matches Err(se) && e@ == se,
    }
}

/// Reads a property into the builders of its key, of the annotation of its
/// value, and of its value.
pub fn parse_property<'i, K, A, V>(input: &'i str) -> (r: Result<
    (&'i str, GenericProperty<K, A, V>),
    ParseError,
>) where K: StringBuilder<'i>, A: AnnotationBuilder<'i>, V: ValueBuilder<'i>
    ensures
        agrees_property(
            r,
            spec_property(bytes_of(input), checks_integers::<V>(), checks_decimals::<V>()),
        ),
{
    let (rest, key) = match parse_identifier::<K>(input) {
        Ok(r) => r,
        Err(e) => {
            return Err(e.within(Context::Key));
        },
    };
    let b = rest.as_bytes();
    if !(b.len() >= 1 && b[0] == EQUALS) {
        return Err(ParseError::new(ErrorKind::Char(EQUALS), b.len()));
    }
    proof {
        lemma_text_valid(rest);
        lemma_boundary_ascii(b@, 0);
    }
    match parse_value::<V, A>(tail_from(rest, 1)) {
        Ok((rest, value)) => Ok((rest, GenericProperty { key, value })),
        Err(e) => Err(e.within(Context::Value).cut()),
    }
}

/// A property takes at least one byte.
pub proof fn lemma_property_shorter(s: Seq<u8>, checked_int: bool, checked: bool)
    ensures
        spec_property(s, checked_int, checked) matches Ok((_, rest)) ==> rest.len() < s.len(),
{
    crate::string::lemma_identifier_shorter(s);
    if let Ok((_, rest)) = spec_identifier(s) {
        if rest.len() >= 1 {
            crate::value::lemma_value_shorter(rest.skip(1), checked_int, checked);
        }
    }
}

/// A property is read alike with and without the check of the bounds of
/// numbers, unless the check fails, and then the error is fatal.
pub proof fn lemma_property_unchecked(s: Seq<u8>, checked_int: bool, checked: bool)
    ensures
        same_unless_fatal_bounds(
            spec_property(s, checked_int, checked),
            spec_property(s, false, false),
        ),
{
    if let Ok((_, rest)) = spec_identifier(s) {
        if rest.len() >= 1 {
            crate::value::lemma_value_unchecked(rest.skip(1), checked_int, checked);
        }
    }
}

} // verus!
