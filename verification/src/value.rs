//! Values: `null`, `true`, `false`, a number or a string, with the
//! annotation that may stand before them.

use vstd::prelude::*;
use crate::annotation::{
    spec_maybe_annotation, with_annotation, AnnotationBuilder, GenericAnnotated,
};
use crate::error::{context, or_else, same_unless_fatal_bounds, Context, ParseError, Parsed};
use crate::number::{parse_number, spec_number, IntBuilder, KdlNumber, Number, NumberBuilder};
use crate::string::{parse_string, spec_string, KdlString, StringBuilder, Text};
use crate::util::bytes_of;
use crate::{parse_bool, parse_null, spec_bool, spec_null};

verus! {

/// A value in the model.
pub enum Value {
    Null,
    Bool(bool),
    Number(Number),
    String(Text),
}

/// A value. What a number and a string are is for the builders to say.
#[derive(Debug, Clone, Copy, PartialEq, Eq)]
pub enum GenericValue<N, S> {
    /// `null`.
    Null,
    /// `true` or `false`.
    Bool(bool),
    /// A number.
    Number(N),
    /// A string.
    String(S),
}

/// A value with all that was written.
pub type KdlValue<'a> = GenericValue<KdlNumber, KdlString<'a>>;

/// A value of which only the kind is kept, and what a boolean says.
pub type RecognizedValue = GenericValue<(), ()>;

/// A value with its annotation, if it has one.
pub type AnnotatedValue<'i> = GenericAnnotated<Option<KdlString<'i>>, KdlValue<'i>>;

/// A value whose annotation was read and dropped.
pub type RecognizedAnnotationValue<'i> = GenericAnnotated<(), KdlValue<'i>>;

/// What is made of a value that was read. A builder may keep the value, or
/// only its kind, or nothing.
pub trait ValueBuilder<'a>: Sized {
    /// The builder of the numbers.
    type Number: NumberBuilder;

    /// The builder of the strings.
    type String: StringBuilder<'a>;

    /// Whether this value may stand for `value`.
    spec fn denotes(&self, value: Value) -> bool;

    /// Builds `null`.
    fn from_null() -> (r: Self)
        ensures
            r.denotes(Value::Null),
    ;

    /// Builds `true` or `false`.
    fn from_bool(value: bool) -> (r: Self)
        ensures
            r.denotes(Value::Bool(value)),
    ;

    /// Builds a value from a number.
    fn from_number(value: Self::Number) -> (r: Self)
        ensures
            forall|n: Number| #[trigger] value.denotes(n) ==> r.denotes(Value::Number(n)),
    ;

    /// Builds a value from a string.
    fn from_string(value: Self::String) -> (r: Self)
        ensures
            forall|t: Text| #[trigger] value.denotes(t) ==> r.denotes(Value::String(t)),
    ;
}

impl<'a, N: NumberBuilder, S: StringBuilder<'a>> ValueBuilder<'a> for GenericValue<N, S> {
    type Number = N;

    type String = S;

    open spec fn denotes(&self, value: Value) -> bool {
        match (*self, value) {
            (GenericValue::Null, Value::Null) => true,
            (GenericValue::Bool(a), Value::Bool(b)) => a == b,
            (GenericValue::Number(a), Value::Number(n)) => a.denotes(n),
            (GenericValue::String(a), Value::String(t)) => a.denotes(t),
            _ => false,
        }
    }

    fn from_null() -> (r: Self) {
        GenericValue::Null
    }

    fn from_bool(value: bool) -> (r: Self) {
        GenericValue::Bool(value)
    }

    fn from_number(value: N) -> (r: Self) {
        GenericValue::Number(value)
    }

    fn from_string(value: S) -> (r: Self) {
        GenericValue::String(value)
    }
}

/// The unit type takes note that a value was there and keeps nothing.
impl<'a> ValueBuilder<'a> for () {
    type Number = ();

    type String = ();

    open spec fn denotes(&self, value: Value) -> bool {
        true
    }

    fn from_null() -> (r: Self) {
        ()
    }

    fn from_bool(value: bool) -> (r: Self) {
        ()
    }

    fn from_number(value: ()) -> (r: Self) {
        ()
    }

    fn from_string(value: ()) -> (r: Self) {
        ()
    }
}

/// A result whose value is turned into another.
pub open spec fn map_parsed<T, U>(p: Parsed<T>, f: spec_fn(T) -> U) -> Parsed<U> {
    match p {
        Ok((v, rest)) => Ok((f(v), rest)),
        Err(e) => Err(e),
    }
}

/// A value without annotation: `null`, or else a boolean, or else a string,
/// or else a number. A word that begins like an identifier is never a
/// number, so the number comes last.
pub open spec fn spec_bare_value(s: Seq<u8>, checked_int: bool, checked: bool) -> Parsed<Value> {
    or_else(
        map_parsed(spec_null(s), |u: ()| Value::Null),
        or_else(
            map_parsed(spec_bool(s), |b: bool| Value::Bool(b)),
            or_else(
                context(map_parsed(spec_string(s), |t: Text| Value::String(t)), Context::String),
                context(
                    map_parsed(spec_number(s, checked_int, checked), |n: Number| Value::Number(n)),
                    Context::Number,
                ),
            ),
        ),
    )
}

/// A value with the annotation that may stand before it.
pub open spec fn spec_value(s: Seq<u8>, checked_int: bool, checked: bool) -> Parsed<
    GenericAnnotated<Option<Text>, Value>,
> {
    match spec_maybe_annotation(s) {
        Err(e) => Err(e),
        Ok((annotation, rest)) => match spec_bare_value(rest, checked_int, checked) {
            Err(e) => Err(e),
            Ok((item, rest)) => Ok((GenericAnnotated { annotation, item }, rest)),
        },
    }
}

/// Whether the integers of the numbers of a value builder are checked.
pub open spec fn checks_integers<'a, T: ValueBuilder<'a>>() -> bool {
    <<T::Number as NumberBuilder>::IntForm as IntBuilder>::checked()
}

/// Whether the decimal numbers of a value builder are checked.
pub open spec fn checks_decimals<'a, T: ValueBuilder<'a>>() -> bool {
    <T::Number as NumberBuilder>::checked()
}

/// Whether the result of a value parser agrees with the model: a builder
/// that stands for the same value and the bytes of the same rest, or the
/// same error.
pub open spec fn agrees_value<'a, T: ValueBuilder<'a>>(
    r: Result<(&str, T), ParseError>,
    p: Parsed<Value>,
) -> bool {
    match r {
        Ok((rest, v)) => p matches Ok((m, srest)) && v.denotes(m) && bytes_of(rest) == srest,
        Err(e) => p matches Err(se) && e@ == se,
    }
}

/// Whether the result of a parser of annotated values agrees with the
/// model.
pub open spec fn agrees_annotated_value<'a, A: AnnotationBuilder<'a>, T: ValueBuilder<'a>>(
    r: Result<(&str, GenericAnnotated<A, T>), ParseError>,
    p: Parsed<GenericAnnotated<Option<Text>, Value>>,
) -> bool {
    match r {
        Ok((rest, v)) => p matches Ok((m, srest)) && v.annotation.denotes(m.annotation)
            && v.item.denotes(m.item) && bytes_of(rest) == srest,
        Err(e) => p matches Err(se) && e@ == se,
    }
}

/// Reads a value without annotation into a builder.
pub fn parse_bare_value<'i, T: ValueBuilder<'i>>(input: &'i str) -> (r: Result<
    (&'i str, T),
    ParseError,
>)
    ensures
        agrees_value(
            r,
            spec_bare_value(bytes_of(input), checks_integers::<T>(), checks_decimals::<T>()),
        ),
{
    match parse_null(input) {
        Ok((rest, _)) => {
            return Ok((rest, T::from_null()));
        },
        Err(_) => {},
    }
    match parse_bool(input) {
        Ok((rest, b)) => {
            return Ok((rest, T::from_bool(b)));
        },
        Err(_) => {},
    }
    match parse_string::<T::String>(input) {
        Ok((rest, s)) => {
            let ghost held = s;
            let v = T::from_string(s);
            assert(held.denotes(spec_string(bytes_of(input))->Ok_0.0));
            return Ok((rest, v));
        },
        Err(e) => {
            if e.fatal {
                return Err(e.within(Context::String));
            }
        },
    }
    match parse_number::<T::Number>(input) {
        Ok((rest, n)) => {
            let ghost held = n;
            let v = T::from_number(n);
            assert(held.denotes(
                spec_number(bytes_of(input), checks_integers::<T>(), checks_decimals::<T>())->Ok_0.0,
            ));
            Ok((rest, v))
        },
        Err(e) => Err(e.within(Context::Number)),
    }
}

/// Reads a value with the annotation that may stand before it.
pub fn parse_value<'i, T: ValueBuilder<'i>, A: AnnotationBuilder<'i>>(input: &'i str) -> (r: Result<
    (&'i str, GenericAnnotated<A, T>),
    ParseError,
>)
    ensures
        agrees_annotated_value(
            r,
            spec_value(bytes_of(input), checks_integers::<T>(), checks_decimals::<T>()),
        ),
{
    with_annotation(parse_bare_value::<T>, input)
}

/// A value takes at least one byte.
pub proof fn lemma_value_shorter(s: Seq<u8>, checked_int: bool, checked: bool)
    ensures
        spec_bare_value(s, checked_int, checked) matches Ok((_, rest)) ==> rest.len() < s.len(),
        spec_value(s, checked_int, checked) matches Ok((_, rest)) ==> rest.len() < s.len(),
{
    crate::string::lemma_string_shorter(s);
    crate::number::lemma_number_shorter(s, checked_int, checked);
    crate::annotation::lemma_maybe_annotation_shorter(s);
    if let Ok((_, t)) = spec_maybe_annotation(s) {
        crate::string::lemma_string_shorter(t);
        crate::number::lemma_number_shorter(t, checked_int, checked);
    }
}

/// A value is read alike with and without the check of the bounds of
/// numbers, unless the check fails, and then the error is fatal.
pub proof fn lemma_value_unchecked(s: Seq<u8>, checked_int: bool, checked: bool)
    ensures
        same_unless_fatal_bounds(
            spec_bare_value(s, checked_int, checked),
            spec_bare_value(s, false, false),
        ),
        same_unless_fatal_bounds(spec_value(s, checked_int, checked), spec_value(s, false, false)),
{
    crate::number::lemma_number_unchecked(s, checked_int, checked);
    if let Ok((_, t)) = spec_maybe_annotation(s) {
        crate::number::lemma_number_unchecked(t, checked_int, checked);
    }
}

} // verus!
