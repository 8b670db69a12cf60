//! Nodes and lists of nodes, read step by step.
//!
//! A [`Document`] yields the nodes of a document one by one. Each [`Node`]
//! has its name and a [`NodeContent`], which yields the arguments and
//! properties of the node one by one, then its [`Children`] if it has any,
//! which are a list of nodes again. All of them read from the one text of
//! the document: a list cannot yield its next node before the node that it
//! yielded last has been read to its end.

use vstd::prelude::*;
use crate::annotation::{
    lemma_maybe_annotation_shorter, spec_maybe_annotation, with_annotation, AnnotationBuilder,
    GenericAnnotated,
};
use crate::error::{
    context, fail, or_else, same_unless_fatal_bounds, Context, ErrorKind, ParseError, Parsed,
    SpecError,
};
use crate::property::{
    lemma_property_shorter, lemma_property_unchecked, parse_property, spec_property,
    GenericProperty, PropertyModel,
};
use crate::string::{
    lemma_identifier_shorter, parse_identifier, spec_identifier, StringBuilder, Text,
};
use crate::util::{
    bytes_of, lemma_boundary_ascii, lemma_text_valid, tail_from, CLOSE_BRACE, OPEN_BRACE,
};
use crate::value::{
    checks_decimals, checks_integers, lemma_value_shorter, lemma_value_unchecked, map_parsed,
    parse_value, spec_value,
    Value, ValueBuilder,
};
use crate::whitespace::{
    lemma_node_space_suffix, lemma_node_terminator_suffix, lemma_skip_linespace_suffix,
    parse_linespace, parse_node_space, parse_node_terminator, skip_linespace, spec_node_space,
    spec_node_terminator,
};

verus! {

/// What became of the text that a drain passed over.
#[derive(Debug, Clone, Copy, PartialEq, Eq, Structural)]
pub enum DrainOutcome {
    /// There was nothing there.
    Empty,
    /// There was something there.
    NotEmpty,
}

/// The name of a node in the model, with its annotation.
pub type NameModel = GenericAnnotated<Option<Text>, Text>;

/// An argument in the model.
pub type ArgumentModel = GenericAnnotated<Option<Text>, Value>;

/// Which numbers are checked against the bounds of their types while the
/// content of a node is read.
pub struct Checks {
    /// The integers with a radix prefix among the arguments.
    pub argument_integers: bool,
    /// The decimal numbers among the arguments.
    pub argument_decimals: bool,
    /// The integers with a radix prefix among the values of properties.
    pub property_integers: bool,
    /// The decimal numbers among the values of properties.
    pub property_decimals: bool,
}

impl Checks {
    /// No number is checked: the text is only recognized.
    pub open spec fn none() -> Checks {
        Checks {
            argument_integers: false,
            argument_decimals: false,
            property_integers: false,
            property_decimals: false,
        }
    }

    /// The checks that the builders of an argument and of the value of a
    /// property make.
    pub open spec fn of<'a, V: ValueBuilder<'a>, P: ValueBuilder<'a>>() -> Checks {
        Checks {
            argument_integers: checks_integers::<V>(),
            argument_decimals: checks_decimals::<V>(),
            property_integers: checks_integers::<P>(),
            property_decimals: checks_decimals::<P>(),
        }
    }
}

/// One piece of the content of a node in the model.
pub enum EventModel {
    /// An argument.
    Argument(ArgumentModel),
    /// A property.
    Property(PropertyModel),
    /// The brace that opens the children.
    Children,
    /// The end of the node.
    End,
}

/// The name of a node with the annotation that may stand before it.
pub open spec fn spec_annotated_name(s: Seq<u8>) -> Parsed<NameModel> {
    match spec_maybe_annotation(s) {
        Err(e) => Err(e),
        Ok((annotation, rest)) => match spec_identifier(rest) {
            Err(e) => Err(e),
            Ok((item, rest)) => Ok((GenericAnnotated { annotation, item }, rest)),
        },
    }
}

/// The end of a list of nodes: the end of the input for the nodes of the
/// document, a closing brace for the children of a node.
pub open spec fn spec_list_end(s: Seq<u8>, top_level: bool) -> Parsed<()> {
    if top_level {
        if s.len() == 0 {
            Ok(((), s))
        } else {
            Err(fail(ErrorKind::EndOfInput, s.len()))
        }
    } else {
        if s.len() >= 1 && s[0] == CLOSE_BRACE {
            Ok(((), s.skip(1)))
        } else {
            Err(fail(ErrorKind::Char(CLOSE_BRACE), s.len()))
        }
    }
}

/// The start of the next node of a list: linespace, and the name of a node
/// with its annotation, or else the end of the list, for which `None`
/// stands.
#[verifier::opaque]
pub open spec fn spec_node_start(s: Seq<u8>, top_level: bool) -> Parsed<Option<NameModel>> {
    let t = skip_linespace(s);
    or_else(
        context(map_parsed(spec_annotated_name(t), |n: NameModel| Some(n)), Context::Node),
        map_parsed(spec_list_end(t, top_level), |u: ()| None::<NameModel>),
    )
}

/// A property or else an argument, behind node space.
pub open spec fn spec_spaced_item(s: Seq<u8>, checks: Checks) -> Parsed<EventModel> {
    match spec_node_space(s) {
        Err(e) => Err(e),
        Ok((_, t)) => or_else(
            context(
                map_parsed(
                    spec_property(t, checks.property_integers, checks.property_decimals),
                    |p: PropertyModel| EventModel::Property(p),
                ),
                Context::Property,
            ),
            context(
                map_parsed(
                    spec_value(t, checks.argument_integers, checks.argument_decimals),
                    |a: ArgumentModel| EventModel::Argument(a),
                ),
                Context::Value,
            ),
        ),
    }
}

/// `s` without the node space that it begins with, if any.
pub open spec fn after_optional_node_space(s: Seq<u8>) -> Seq<u8> {
    match spec_node_space(s) {
        Ok((_, rest)) => rest,
        Err(_) => s,
    }
}

/// The brace that opens the children.
pub open spec fn spec_open_children(s: Seq<u8>) -> Parsed<EventModel> {
    if s.len() >= 1 && s[0] == OPEN_BRACE {
        Ok((EventModel::Children, s.skip(1)))
    } else {
        Err(fail(ErrorKind::Char(OPEN_BRACE), s.len()))
    }
}

/// The brace that opens the children or else the end of the node, behind
/// node space if there is any.
pub open spec fn spec_node_close(s: Seq<u8>) -> Parsed<EventModel> {
    let t = after_optional_node_space(s);
    or_else(spec_open_children(t), map_parsed(spec_node_terminator(t), |u: ()| EventModel::End))
}

/// The next piece of the content of a node. Behind node space a property
/// is tried, then an argument: the key of a property may be a string, and
/// a string alone is an argument. Where neither is there, the children or
/// the end of the node must follow.
#[verifier::opaque]
pub open spec fn spec_node_event(s: Seq<u8>, checks: Checks) -> Parsed<EventModel> {
    or_else(spec_spaced_item(s, checks), spec_node_close(s))
}

/// What is left behind the content of a node that is passed over, and
/// whether there was any content: an argument, a property, or children that
/// held a node.
///
/// The comparisons of lengths serve the termination of the definition:
/// every piece but the end of the node takes a byte at least, so that they
/// always hold.
pub open spec fn spec_drain_content(s: Seq<u8>) -> Parsed<DrainOutcome>
    decreases s.len(), 0nat,
{
    match spec_node_event(s, Checks::none()) {
        Err(e) => Err(e),
        Ok((event, rest)) => match event {
            EventModel::End => Ok((DrainOutcome::Empty, rest)),
            EventModel::Children => if rest.len() < s.len() {
                match spec_drain_list(rest, false) {
                    Err(e) => Err(e),
                    Ok((count, rest)) => Ok(
                        (
                            if count == 0 {
                                DrainOutcome::Empty
                            } else {
                                DrainOutcome::NotEmpty
                            },
                            rest,
                        ),
                    ),
                }
            } else {
                Err(fail(ErrorKind::UnexpectedEnd, 0))
            },
            _ => if rest.len() < s.len() {
                match spec_drain_content(rest) {
                    Err(e) => Err(e),
                    Ok((_, rest)) => Ok((DrainOutcome::NotEmpty, rest)),
                }
            } else {
                Err(fail(ErrorKind::UnexpectedEnd, 0))
            },
        },
    }
}

/// What is left behind a list of nodes that is passed over, and the number
/// of its nodes.
///
/// The comparisons of lengths serve the termination of the definition: the
/// name of a node takes a byte at least, and to pass over its content adds
/// nothing, so that they always hold.
pub open spec fn spec_drain_list(s: Seq<u8>, top_level: bool) -> Parsed<nat>
    decreases s.len(), 1nat,
{
    match spec_node_start(s, top_level) {
        Err(e) => Err(e),
        Ok((None, rest)) => Ok((0, rest)),
        Ok((Some(_), rest)) => if rest.len() < s.len() {
            match spec_drain_content(rest) {
                Err(e) => Err(e),
                Ok((_, rest)) => if rest.len() < s.len() {
                    match spec_drain_list(rest, top_level) {
                        Err(e) => Err(e),
                        Ok((count, rest)) => Ok((count + 1, rest)),
                    }
                } else {
                    Err(fail(ErrorKind::UnexpectedEnd, 0))
                },
            }
        } else {
            Err(fail(ErrorKind::UnexpectedEnd, 0))
        },
    }
}

/// Where a cursor stands after the content of a node was passed over,
/// with or without error: behind the node where there was none, and else
/// before the piece or the node that could not be read.
pub open spec fn spec_drain_content_stop(s: Seq<u8>) -> Seq<u8>
    decreases s.len(), 0nat,
{
    match spec_node_event(s, Checks::none()) {
        Err(_) => s,
        Ok((event, rest)) => match event {
            EventModel::End => rest,
            EventModel::Children => if rest.len() < s.len() {
                spec_drain_list_stop(rest, false)
            } else {
                s
            },
            _ => if rest.len() < s.len() {
                spec_drain_content_stop(rest)
            } else {
                s
            },
        },
    }
}

/// Where a cursor stands after a list of nodes was passed over, with or
/// without error: behind the list where there was none, and else before
/// the piece or the node that could not be read.
pub open spec fn spec_drain_list_stop(s: Seq<u8>, top_level: bool) -> Seq<u8>
    decreases s.len(), 1nat,
{
    match spec_node_start(s, top_level) {
        Err(_) => s,
        Ok((None, rest)) => rest,
        Ok((Some(_), rest)) => if rest.len() < s.len() {
            let after = spec_drain_content_stop(rest);
            if spec_drain_content(rest) is Ok && after.len() < s.len() {
                spec_drain_list_stop(after, top_level)
            } else {
                after
            }
        } else {
            s
        },
    }
}

/// A drain that gives no error stops behind what it passed over.
pub proof fn lemma_drain_stops_behind(s: Seq<u8>, top_level: bool)
    ensures
        spec_drain_content(s) matches Ok((_, rest)) ==> spec_drain_content_stop(s) == rest,
        spec_drain_list(s, top_level) matches Ok((_, rest)) ==> spec_drain_list_stop(s, top_level)
            == rest,
    decreases s.len(),
{
    lemma_node_event_shorter(s, Checks::none());
    if let Ok((event, rest)) = spec_node_event(s, Checks::none()) {
        if rest.len() < s.len() {
            lemma_drain_stops_behind(rest, false);
        }
    }
    lemma_node_start_shorter(s, top_level);
    if let Ok((Some(_), rest)) = spec_node_start(s, top_level) {
        lemma_drain_stops_behind(rest, top_level);
        lemma_drain_shorter(rest, top_level);
        if let Ok((_, after)) = spec_drain_content(rest) {
            lemma_drain_stops_behind(after, top_level);
        }
    }
}

/// Whether the text is a document: a list of nodes up to the end of the
/// input.
pub open spec fn is_document(s: Seq<u8>) -> bool {
    spec_drain_list(s, true) is Ok
}

/// The number of the nodes of a document, its top level only.
pub open spec fn node_count(s: Seq<u8>) -> nat
    recommends
        is_document(s),
{
    spec_drain_list(s, true)->Ok_0.0
}

/// The start of a node takes no more than there is, and at least one byte
/// where there is a node.
pub proof fn lemma_node_start_shorter(s: Seq<u8>, top_level: bool)
    ensures
        spec_node_start(s, top_level) matches Ok((name, rest)) ==> rest.len() <= s.len() && (name
            is Some ==> rest.len() < s.len()),
{
    reveal(spec_node_start);
    let t = skip_linespace(s);
    lemma_skip_linespace_suffix(s);
    lemma_maybe_annotation_shorter(t);
    if let Ok((_, u)) = spec_maybe_annotation(t) {
        lemma_identifier_shorter(u);
    }
}

/// A piece of the content of a node takes no more than there is, and at
/// least one byte where it is not the end of the node.
pub proof fn lemma_node_event_shorter(s: Seq<u8>, checks: Checks)
    ensures
        spec_node_event(s, checks) matches Ok((event, rest)) ==> rest.len() <= s.len() && (event
            !is End ==> rest.len() < s.len()),
{
    reveal(spec_node_event);
    lemma_node_space_suffix(s);
    if let Ok((_, t)) = spec_node_space(s) {
        lemma_property_shorter(t, checks.property_integers, checks.property_decimals);
        lemma_value_shorter(t, checks.argument_integers, checks.argument_decimals);
    }
    lemma_node_terminator_suffix(after_optional_node_space(s));
}

/// Passing over content and lists leaves no more than there was.
pub proof fn lemma_drain_shorter(s: Seq<u8>, top_level: bool)
    ensures
        spec_drain_content(s) matches Ok((_, rest)) ==> rest.len() <= s.len(),
        spec_drain_list(s, top_level) matches Ok((_, rest)) ==> rest.len() <= s.len(),
    decreases s.len(),
{
    lemma_node_event_shorter(s, Checks::none());
    if let Ok((event, rest)) = spec_node_event(s, Checks::none()) {
        if rest.len() < s.len() {
            lemma_drain_shorter(rest, false);
        }
    }
    lemma_node_start_shorter(s, top_level);
    if let Ok((Some(_), rest)) = spec_node_start(s, top_level) {
        lemma_drain_shorter(rest, top_level);
        if let Ok((_, rest2)) = spec_drain_content(rest) {
            lemma_drain_shorter(rest2, top_level);
        }
    }
}

/// Whether a name that was read stands for the name of the model.
pub open spec fn name_denotes<'i, A: AnnotationBuilder<'i>, N: StringBuilder<'i>>(
    annotation: A,
    name: N,
    m: NameModel,
) -> bool {
    annotation.denotes(m.annotation) && name.denotes(m.item)
}

/// Whether an argument that was read stands for the argument of the model.
pub open spec fn argument_denotes<'i, A: AnnotationBuilder<'i>, V: ValueBuilder<'i>>(
    argument: GenericAnnotated<A, V>,
    m: ArgumentModel,
) -> bool {
    argument.annotation.denotes(m.annotation) && argument.item.denotes(m.item)
}

/// Whether a property that was read stands for the property of the model.
pub open spec fn property_denotes<
    'i,
    K: StringBuilder<'i>,
    A: AnnotationBuilder<'i>,
    V: ValueBuilder<'i>,
>(property: GenericProperty<K, A, V>, m: PropertyModel) -> bool {
    property.key.denotes(m.key) && property.value.annotation.denotes(m.value.annotation)
        && property.value.item.denotes(m.value.item)
}

/// Reads the end of a list of nodes.
fn parse_list_end<'i>(input: &'i str, top_level: bool) -> (r: Result<(&'i str, ()), ParseError>)
    ensures
        crate::util::agrees(r, spec_list_end(bytes_of(input), top_level)),
{
    let b = input.as_bytes();
    if top_level {
        if b.len() == 0 {
            Ok((input, ()))
        } else {
            Err(ParseError::new(ErrorKind::EndOfInput, b.len()))
        }
    } else {
        if b.len() >= 1 && b[0] == CLOSE_BRACE {
            proof {
                lemma_text_valid(input);
                lemma_boundary_ascii(b@, 0);
            }
            Ok((tail_from(input, 1), ()))
        } else {
            Err(ParseError::new(ErrorKind::Char(CLOSE_BRACE), b.len()))
        }
    }
}

/// Reads the start of the next node of a list: the name of the node with
/// its annotation, or the end of the list, for which `None` stands.
fn parse_node_start<'i, T: StringBuilder<'i>, A: AnnotationBuilder<'i>>(
    input: &'i str,
    top_level: bool,
) -> (r: Result<(&'i str, Option<GenericAnnotated<A, T>>), ParseError>)
    ensures
        match r {
            Ok((rest, name)) => spec_node_start(bytes_of(input), top_level) matches Ok((m, srest))
                && bytes_of(rest) == srest && match (name, m) {
                (Some(n), Some(nm)) => name_denotes(n.annotation, n.item, nm),
                (None, None) => true,
                _ => false,
            },
            Err(e) => spec_node_start(bytes_of(input), top_level) matches Err(se) && e@ == se,
        },
{
    proof {
        reveal(spec_node_start);
    }
    let start = match parse_linespace(input) {
        Ok((rest, _)) => rest,
        Err(e) => {
            return Err(e);
        },
    };
    match with_annotation::<A, T, _>(parse_identifier::<T>, start) {
        Ok((rest, name)) => {
            return Ok((rest, Some(name)));
        },
        Err(e) => {
            if e.fatal {
                return Err(e.within(Context::Node));
            }
        },
    }
    match parse_list_end(start, top_level) {
        Ok((rest, _)) => Ok((rest, None)),
        Err(e) => Err(e),
    }
}

/// One piece of the content of a node, as it is read.
enum InternalNodeEvent<VA, V, K, PA, P> {
    Argument(GenericAnnotated<VA, V>),
    Property(GenericProperty<K, PA, P>),
    Children,
    End,
}

/// Whether a piece that was read stands for the piece of the model.
spec fn internal_denotes<
    'i,
    VA: AnnotationBuilder<'i>,
    V: ValueBuilder<'i>,
    K: StringBuilder<'i>,
    PA: AnnotationBuilder<'i>,
    P: ValueBuilder<'i>,
>(event: InternalNodeEvent<VA, V, K, PA, P>, m: EventModel) -> bool {
    match (event, m) {
        (InternalNodeEvent::Argument(a), EventModel::Argument(am)) => argument_denotes(a, am),
        (InternalNodeEvent::Property(p), EventModel::Property(pm)) => property_denotes(p, pm),
        (InternalNodeEvent::Children, EventModel::Children) => true,
        (InternalNodeEvent::End, EventModel::End) => true,
        _ => false,
    }
}

/// Reads the next piece of the content of a node.
fn parse_node_event<'i, VA, V, K, PA, P>(input: &'i str) -> (r: Result<
    (&'i str, InternalNodeEvent<VA, V, K, PA, P>),
    ParseError,
>) where
    VA: AnnotationBuilder<'i>,
    V: ValueBuilder<'i>,
    K: StringBuilder<'i>,
    PA: AnnotationBuilder<'i>,
    P: ValueBuilder<'i>,

    ensures
        match r {
            Ok((rest, event)) => spec_node_event(bytes_of(input), Checks::of::<V, P>()) matches Ok(
                (m, srest),
            ) && bytes_of(rest) == srest && internal_denotes(event, m),
            Err(e) => spec_node_event(bytes_of(input), Checks::of::<V, P>()) matches Err(se) && e@
                == se,
        },
{
    proof {
        reveal(spec_node_event);
    }
    let close = match parse_node_space(input) {
        Ok((spaced, _)) => {
            match parse_property::<K, PA, P>(spaced) {
                Ok((rest, property)) => {
                    return Ok((rest, InternalNodeEvent::Property(property)));
                },
                Err(e) => {
                    if e.fatal {
                        return Err(e.within(Context::Property));
                    }
                },
            }
            match parse_value::<V, VA>(spaced) {
                Ok((rest, argument)) => {
                    return Ok((rest, InternalNodeEvent::Argument(argument)));
                },
                Err(e) => {
                    if e.fatal {
                        return Err(e.within(Context::Value));
                    }
                },
            }
            spaced
        },
        Err(_) => input,
    };
    let b = close.as_bytes();
    if b.len() >= 1 && b[0] == OPEN_BRACE {
        proof {
            lemma_text_valid(close);
            lemma_boundary_ascii(b@, 0);
        }
        return Ok((tail_from(close, 1), InternalNodeEvent::Children));
    }
    match parse_node_terminator(close) {
        Ok((rest, _)) => Ok((rest, InternalNodeEvent::End)),
        Err(e) => Err(e),
    }
}

/// The outcome of a drain that passed over `count` nodes.
pub open spec fn outcome_of(count: nat) -> DrainOutcome {
    if count == 0 {
        DrainOutcome::Empty
    } else {
        DrainOutcome::NotEmpty
    }
}

/// A node: its name, and the cursor that reads its content.
#[derive(Debug)]
pub struct Node<'i, 'a, Name> {
    /// The name of the node.
    pub name: Name,
    /// The cursor over the arguments, properties and children of the node.
    pub content: NodeContent<'i, 'a>,
}

/// A node of which the name was read and dropped.
pub type RecognizedNode<'i, 'a> = Node<'i, 'a, ()>;

/// The cursor over the content of one node. It borrows the text and the
/// flag of the list that yielded the node. Each step consumes the cursor
/// and hands back the cursor for the rest, so that no piece can be asked
/// for twice; the step that reads the end of the node lowers the flag of
/// the list.
#[derive(Debug)]
pub struct NodeContent<'i, 'p> {
    /// The text that is still unread.
    state: &'p mut &'i str,
    /// Whether the node is still being read; the list that yielded the
    /// node owns this flag.
    in_progress: &'p mut bool,
}

/// The cursor over the children of one node: the nodes between its braces.
/// It borrows the text and the flag of the list that yielded the node, and
/// lowers the flag when it reads the closing brace.
#[derive(Debug)]
pub struct Children<'i, 'p> {
    /// The text that is still unread.
    state: &'p mut &'i str,
    /// Whether the closing brace is still unread; the list that yielded
    /// the node owns this flag.
    in_progress: &'p mut bool,
    /// Whether a child that this list yielded is still being read.
    child_in_progress: bool,
}

/// One piece of the content of a node.
#[derive(Debug)]
pub enum NodeEvent<'i, 'p, ArgumentAnnotation, Argument, PropertyKey, PropertyValueAnnotation, PropertyValue> {
    /// An argument.
    Argument {
        /// The value, with its annotation.
        argument: GenericAnnotated<ArgumentAnnotation, Argument>,
        /// The cursor over the rest of the node.
        tail: NodeContent<'i, 'p>,
    },
    /// A property.
    Property {
        /// The property.
        property: GenericProperty<PropertyKey, PropertyValueAnnotation, PropertyValue>,
        /// The cursor over the rest of the node.
        tail: NodeContent<'i, 'p>,
    },
    /// The children of the node, with which the node ends.
    Children {
        /// The cursor over the children.
        children: Children<'i, 'p>,
    },
    /// The end of the node.
    End,
}

/// A piece of the content of a node of which only the kind is kept.
pub type RecognizedNodeEvent<'i, 'p> = NodeEvent<'i, 'p, (), (), (), (), ()>;

/// Whether a piece that was read stands for the piece of the model, and
/// the cursor that it carries stands at `rest` with its flag as it was.
pub open spec fn event_denotes<
    'i,
    'p,
    VA: AnnotationBuilder<'i>,
    V: ValueBuilder<'i>,
    K: StringBuilder<'i>,
    PA: AnnotationBuilder<'i>,
    P: ValueBuilder<'i>,
>(event: NodeEvent<'i, 'p, VA, V, K, PA, P>, m: EventModel, rest: Seq<u8>, flag: bool) -> bool {
    match (event, m) {
        (NodeEvent::Argument { argument, tail }, EventModel::Argument(am)) => argument_denotes(
            argument,
            am,
        ) && bytes_of(*tail.text()) == rest && *tail.flag() == flag,
        (NodeEvent::Property { property, tail }, EventModel::Property(pm)) => property_denotes(
            property,
            pm,
        ) && bytes_of(*tail.text()) == rest && *tail.flag() == flag,
        (NodeEvent::Children { children }, EventModel::Children) => bytes_of(*children.text())
            == rest && *children.flag() == flag && !children.busy(),
        (NodeEvent::End, EventModel::End) => true,
        _ => false,
    }
}

impl<'i, 'p> NodeContent<'i, 'p> {
    /// The borrow of the text that is still unread. Its value now is the
    /// place of the cursor; its final value is where the list that lent it
    /// goes on.
    pub closed spec fn text(&self) -> &'p mut &'i str {
        self.state
    }

    /// The borrow of the flag that says whether the node is still being
    /// read. The list that yielded the node owns it.
    pub closed spec fn flag(&self) -> &'p mut bool {
        self.in_progress
    }

    /// Whether the node is still being read.
    pub fn in_progress(&self) -> (r: bool)
        ensures
            r == *old(self.flag()),
    {
        *self.in_progress
    }

    /// Reads the next piece of the content of the node: an argument, a
    /// property, the children, or the end of the node.
    ///
    /// An argument and a property come with the cursor for the rest of the
    /// node. The children come with the cursor over them, which takes the
    /// place of this one. The end of the node lowers the flag of the list,
    /// which may then yield its next node. After an error nothing has been
    /// read.
    pub fn next_event<ArgumentAnnotation, Argument, PropertyKey, PropertyValueAnnotation, PropertyValue>(
        self,
    ) -> (r: Result<
        NodeEvent<'i, 'p, ArgumentAnnotation, Argument, PropertyKey, PropertyValueAnnotation, PropertyValue>,
        ParseError,
    >) where
        ArgumentAnnotation: AnnotationBuilder<'i>,
        Argument: ValueBuilder<'i>,
        PropertyKey: StringBuilder<'i>,
        PropertyValueAnnotation: AnnotationBuilder<'i>,
        PropertyValue: ValueBuilder<'i>,

        ensures
            match spec_node_event(
                bytes_of(*old(self.text())),
                Checks::of::<Argument, PropertyValue>(),
            ) {
                Ok((m, rest)) => r matches Ok(event) && event_denotes(
                    event,
                    m,
                    rest,
                    *old(self.flag()),
                ),
                Err(e) => r matches Err(re) && re@ == e,
            },
            r matches Ok(NodeEvent::Argument { tail, .. }) ==> *final(tail.text()) == *final(self.text()) && *final(tail.flag()) == *final(self.flag()),
            r matches Ok(NodeEvent::Property { tail, .. }) ==> *final(tail.text()) == *final(self.text()) && *final(tail.flag()) == *final(self.flag()),
            r matches Ok(NodeEvent::Children { children }) ==> *final(children.text()) == *final(self.text()) && *final(children.flag()) == *final(self.flag()),
            r matches Ok(NodeEvent::End) ==> !*final(self.flag()) && Ok::<Seq<u8>, SpecError>(
                bytes_of(*final(self.text())),
            ) == rest_of(
                spec_node_event(bytes_of(*old(self.text())), Checks::of::<Argument, PropertyValue>()),
            ),
            r is Err ==> *final(self.text()) == *old(self.text()) && *final(self.flag())
                == *old(self.flag()),
    {
        match parse_node_event::<
            ArgumentAnnotation,
            Argument,
            PropertyKey,
            PropertyValueAnnotation,
            PropertyValue,
        >(*self.state) {
            Err(e) => Err(e),
            Ok((rest, event)) => {
                *self.state = rest;
                match event {
                    InternalNodeEvent::Argument(argument) => Ok(
                        NodeEvent::Argument { argument, tail: self },
                    ),
                    InternalNodeEvent::Property(property) => Ok(
                        NodeEvent::Property { property, tail: self },
                    ),
                    InternalNodeEvent::Children => Ok(
                        NodeEvent::Children {
                            children: Children {
                                state: self.state,
                                in_progress: self.in_progress,
                                child_in_progress: false,
                            },
                        },
                    ),
                    InternalNodeEvent::End => {
                        *self.in_progress = false;
                        Ok(NodeEvent::End)
                    },
                }
            },
        }
    }

    /// Passes over the rest of the node, its children included: the text is
    /// read and checked, and nothing of it is kept. The outcome is `Empty`
    /// unless an argument, a property or a child was passed over. Where the
    /// text is well-formed, the node has been read to its end and the list
    /// may yield its next node.
    pub fn drain(self) -> (r: Result<DrainOutcome, ParseError>)
        requires
            *self.flag(),
        ensures
            match spec_drain_content(bytes_of(*old(self.text()))) {
                Ok((outcome, rest)) => r == Ok::<DrainOutcome, ParseError>(outcome) && bytes_of(
                    *final(self.text()),
                ) == rest && !*final(self.flag()),
                Err(e) => r matches Err(re) && re@ == e && *final(self.flag()),
            },
            bytes_of(*final(self.text())) == spec_drain_content_stop(bytes_of(*old(self.text()))),
        decreases bytes_of(*old(self.text())).len(), 0nat,
    {
        let mut cur = self;
        let mut outcome = DrainOutcome::Empty;
        let ghost all = bytes_of(*self.state);
        loop
            invariant
                all == bytes_of(*self.text()),
                *cur.flag(),
                *final(cur.text()) == *final(self.text()),
                *final(cur.flag()) == *final(self.flag()),
                bytes_of(*cur.text()).len() <= all.len(),
                spec_drain_content_stop(bytes_of(*cur.text())) == spec_drain_content_stop(all),
                outcome == DrainOutcome::Empty ==> bytes_of(*cur.text()) == all,
                outcome == DrainOutcome::NotEmpty ==> spec_drain_content(all) == (
                match spec_drain_content(bytes_of(*cur.text())) {
                    Ok((_, rest)) => Ok::<(DrainOutcome, Seq<u8>), SpecError>(
                        (DrainOutcome::NotEmpty, rest),
                    ),
                    Err(e) => Err(e),
                }),
            decreases bytes_of(*cur.text()).len(),
        {
            let ghost here = bytes_of(*cur.state);
            proof {
                lemma_node_event_shorter(here, Checks::none());
            }
            match cur.next_event::<(), (), (), (), ()>() {
                Err(e) => {
                    return Err(e);
                },
                Ok(NodeEvent::Argument { tail, .. }) => {
                    cur = tail;
                    outcome = DrainOutcome::NotEmpty;
                },
                Ok(NodeEvent::Property { tail, .. }) => {
                    cur = tail;
                    outcome = DrainOutcome::NotEmpty;
                },
                Ok(NodeEvent::Children { children }) => {
                    match children.drain() {
                        Err(e) => {
                            return Err(e);
                        },
                        Ok(inner) => {
                            return Ok(
                                match outcome {
                                    DrainOutcome::NotEmpty => DrainOutcome::NotEmpty,
                                    DrainOutcome::Empty => inner,
                                },
                            );
                        },
                    }
                },
                Ok(NodeEvent::End) => {
                    return Ok(outcome);
                },
            }
        }
    }
}

impl<'i, 'p> Children<'i, 'p> {
    /// The borrow of the text that is still unread.
    pub closed spec fn text(&self) -> &'p mut &'i str {
        self.state
    }

    /// The borrow of the flag that says whether the closing brace is still
    /// unread. The list that yielded the parent owns it.
    pub closed spec fn flag(&self) -> &'p mut bool {
        self.in_progress
    }

    /// Whether a child that this list yielded is still being read.
    pub closed spec fn busy(&self) -> bool {
        self.child_in_progress
    }

    /// Whether the closing brace is still unread.
    pub fn in_progress(&self) -> (r: bool)
        ensures
            r == *old(self.flag()),
    {
        *self.in_progress
    }

    /// The text that is still unread.
    pub fn remaining_text(&self) -> (r: &'i str)
        ensures
            r == *old(self.text()),
    {
        *self.state
    }

    /// Reads the start of the next child: its name, with the cursor over
    /// its content, or `None` at the closing brace, which lowers the flag
    /// of the list that yielded the parent. Once the closing brace has been
    /// read the answer is `None` for good, and nothing more is read.
    ///
    /// The child that was yielded last must have been read to its end. After
    /// an error nothing has been read.
    pub fn next_node<'s, A: AnnotationBuilder<'i>, N: StringBuilder<'i>>(&'s mut self) -> (r: Result<
        Option<GenericAnnotated<A, Node<'i, 's, N>>>,
        ParseError,
    >)
        requires
            !old(self).busy(),
        ensures
            *final(final(self).text()) == *final(old(self).text()),
            *final(final(self).flag()) == *final(old(self).flag()),
            !*old(self).flag() ==> (r matches Ok(None) && *final(self).text() == *old(self).text()
                && !*final(self).flag() && !final(self).busy()),
            *old(self).flag() ==> match spec_node_start(bytes_of(*old(self).text()), false) {
                Err(e) => r matches Err(re) && re@ == e && *final(self).text() == *old(self).text()
                    && *final(self).flag() && !final(self).busy(),
                Ok((None, rest)) => r matches Ok(None) && bytes_of(*final(self).text()) == rest
                    && !*final(self).flag() && !final(self).busy(),
                Ok((Some(m), rest)) => r matches Ok(Some(node)) && name_denotes(
                    node.annotation,
                    node.item.name,
                    m,
                ) && bytes_of(*node.item.content.text()) == rest && *node.item.content.flag()
                    && *final(self).text() == *final(node.item.content.text()) && final(self).busy() == *final(node.item.content.flag()) && *final(self).flag(),
            },
    {
        if !*self.in_progress {
            return Ok(None);
        }
        match parse_node_start::<N, A>(*self.state, false) {
            Err(e) => Err(e),
            Ok((rest, None)) => {
                *self.state = rest;
                *self.in_progress = false;
                Ok(None)
            },
            Ok((rest, Some(name))) => {
                *self.state = rest;
                self.child_in_progress = true;
                Ok(
                    Some(
                        GenericAnnotated {
                            annotation: name.annotation,
                            item: Node {
                                name: name.item,
                                content: NodeContent {
                                    state: self.state,
                                    in_progress: &mut self.child_in_progress,
                                },
                            },
                        },
                    ),
                )
            },
        }
    }

    /// Passes over the rest of the children up to the closing brace: the
    /// text is read and checked, and nothing of it is kept. The outcome is
    /// `NotEmpty` if a child was passed over.
    pub fn drain(self) -> (r: Result<DrainOutcome, ParseError>)
        requires
            !self.busy(),
        ensures
            !*old(self.flag()) ==> r == Ok::<DrainOutcome, ParseError>(DrainOutcome::Empty)
                && bytes_of(*final(self.text())) == bytes_of(*old(self.text())) && !*final(
                self.flag()),
            *old(self.flag()) ==> match spec_drain_list(bytes_of(*old(self.text())), false) {
                Ok((count, rest)) => r == Ok::<DrainOutcome, ParseError>(outcome_of(count))
                    && bytes_of(*final(self.text())) == rest && !*final(self.flag()),
                Err(e) => r matches Err(re) && re@ == e && *final(self.flag()),
            },
            *old(self.flag()) ==> bytes_of(*final(self.text())) == spec_drain_list_stop(
                bytes_of(*old(self.text())),
                false,
            ),
        decreases bytes_of(*old(self.text())).len(), 2nat,
    {
        let mut list = self;
        let ghost measure = bytes_of(*list.text()).len();
        drain_list_measured(&mut list, Ghost(measure))
    }
}

/// The rest that a parser leaves, without the value.
pub open spec fn rest_of<T>(p: Parsed<T>) -> Result<Seq<u8>, SpecError> {
    match p {
        Ok((_, rest)) => Ok(rest),
        Err(e) => Err(e),
    }
}

/// The count of a list, with the nodes that stood before it.
pub open spec fn plus(p: Parsed<nat>, n: nat) -> Parsed<nat> {
    match p {
        Ok((count, rest)) => Ok((count + n, rest)),
        Err(e) => Err(e),
    }
}

impl<'i, 'p> NodeContent<'i, 'p> {
    /// The text that is still unread. It is a copy of the cursor's place,
    /// for looking ahead: what is read from it moves no cursor.
    pub fn remaining_text(&self) -> (r: &'i str)
        ensures
            r == *old(self.text()),
    {
        *self.state
    }

    /// A copy of the cursor's place, for looking ahead: what is read from
    /// the copy moves no cursor and changes no flag of any list.
    pub fn fork(&self) -> (f: Fork<'i>)
        ensures
            f.remaining() == bytes_of(*old(self.text())),
    {
        Fork { state: *self.state, in_progress: true }
    }
}

/// A copy of the place of a content cursor. It owns the place and the flag
/// that the cursors over it borrow, and is thrown away after the look
/// ahead.
#[derive(Debug, Clone)]
pub struct Fork<'i> {
    /// The text that is still unread.
    state: &'i str,
    /// Whether the content that was looked at last is still being read.
    in_progress: bool,
}

impl<'i> Fork<'i> {
    /// The bytes of the text that is still unread.
    pub closed spec fn remaining(&self) -> Seq<u8> {
        bytes_of(self.state)
    }

    /// A cursor over the content from the place of the copy on. What it
    /// reads moves the copy.
    pub fn content<'s>(&'s mut self) -> (c: NodeContent<'i, 's>)
        ensures
            bytes_of(*c.text()) == (*old(self)).remaining(),
            *c.flag(),
            (*final(self)).remaining() == bytes_of(*final(c.text())),
    {
        self.in_progress = true;
        NodeContent { state: &mut self.state, in_progress: &mut self.in_progress }
    }

    /// The text that is still unread.
    pub fn remaining_text(&self) -> (r: &'i str)
        ensures
            bytes_of(r) == self.remaining(),
    {
        self.state
    }
}

/// The cursor over the nodes of a document.
#[derive(Debug, Clone)]
pub struct Document<'i> {
    /// The text that is still unread.
    state: &'i str,
    /// Whether a node that this list yielded is still being read.
    child_in_progress: bool,
}

impl<'i> Document<'i> {
    /// The bytes of the text that is still unread.
    pub closed spec fn remaining(&self) -> Seq<u8> {
        bytes_of(self.state)
    }

    /// Whether the document may yield its next node: the node that it
    /// yielded last has been read to its end.
    pub closed spec fn ready(&self) -> bool {
        !self.child_in_progress
    }

    /// A cursor at the start of the text of a document.
    pub fn new(input: &'i str) -> (r: Self)
        ensures
            r.remaining() == bytes_of(input),
            r.ready(),
    {
        Self { state: input, child_in_progress: false }
    }

    /// Whether a node that the document yielded is still being read. While
    /// it is, the document must not be asked for its next node.
    pub fn child_in_progress(&self) -> (r: bool)
        ensures
            r == !self.ready(),
    {
        self.child_in_progress
    }

    /// The text that is still unread.
    pub fn remaining_text(&self) -> (r: &'i str)
        ensures
            bytes_of(r) == self.remaining(),
    {
        self.state
    }

    /// Reads the start of the next node: its name, with the cursor over
    /// its content, or `None` at the end of the input.
    ///
    /// The node that was yielded last must have been read to its end. After
    /// an error nothing has been read.
    pub fn next_node<'s, A: AnnotationBuilder<'i>, N: StringBuilder<'i>>(&'s mut self) -> (r: Result<
        Option<GenericAnnotated<A, Node<'i, 's, N>>>,
        ParseError,
    >)
        requires
            (*old(self)).ready(),
        ensures
            match spec_node_start((*old(self)).remaining(), true) {
                Err(e) => r matches Err(re) && re@ == e && (*final(self)).remaining() == (*old(self)).remaining() && (*final(self)).ready(),
                Ok((None, rest)) => r matches Ok(None) && (*final(self)).remaining() == rest && (*final(self)).ready(),
                Ok((Some(m), rest)) => r matches Ok(Some(node)) && name_denotes(
                    node.annotation,
                    node.item.name,
                    m,
                ) && bytes_of(*node.item.content.text()) == rest && *node.item.content.flag()
                    && (*final(self)).remaining() == bytes_of(*final(node.item.content.text()))
                    && (*final(self)).ready() == !*final(node.item.content.flag()),
            },
    {
        match parse_node_start::<N, A>(self.state, true) {
            Err(e) => Err(e),
            Ok((rest, None)) => {
                self.state = rest;
                Ok(None)
            },
            Ok((rest, Some(name))) => {
                self.state = rest;
                self.child_in_progress = true;
                Ok(
                    Some(
                        GenericAnnotated {
                            annotation: name.annotation,
                            item: Node {
                                name: name.item,
                                content: NodeContent {
                                    state: &mut self.state,
                                    in_progress: &mut self.child_in_progress,
                                },
                            },
                        },
                    ),
                )
            },
        }
    }

    /// Passes over the rest of the document: the text is read and checked,
    /// and nothing of it is kept. A text that is a document never gives an
    /// error, and the outcome is `NotEmpty` if and only if a node was
    /// passed over.
    pub fn drain(self) -> (r: Result<DrainOutcome, ParseError>)
        requires
            self.ready(),
        ensures
            match spec_drain_list(self.remaining(), true) {
                Ok((count, _)) => r == Ok::<DrainOutcome, ParseError>(outcome_of(count)),
                Err(e) => r matches Err(re) && re@ == e,
            },
            is_document(self.remaining()) <==> r is Ok,
            r == Ok::<DrainOutcome, ParseError>(DrainOutcome::NotEmpty) <==> is_document(self.remaining()) && node_count(self.remaining()) > 0,
    {
        let mut list = self;
        let ghost measure = list.remaining().len();
        drain_list_measured(&mut list, Ghost(measure))
    }
}

/// Whether two lists hold borrows alike: both, or none of them.
pub open spec fn same_borrows(
    before: Option<(&mut &str, &mut bool)>,
    after: Option<(&mut &str, &mut bool)>,
) -> bool {
    before is Some <==> after is Some
}

/// A list of nodes: the nodes of a document, or the children of a node.
/// What is left of any list is passed over by [`drain_list`].
pub trait NodeList<'i>: Sized {
    /// The bytes of the text that is still unread.
    spec fn remaining(&self) -> Seq<u8>;

    /// Whether the list may yield its next node: the node that it yielded
    /// last has been read to its end.
    spec fn ready(&self) -> bool;

    /// Whether the end of the list is still unread. Once it has been read,
    /// the list yields no node and reads nothing.
    spec fn live(&self) -> bool;

    /// Whether the list ends with the input, and not with a closing brace.
    spec fn top_level(&self) -> bool;

    /// The borrows that the list holds of the list that yielded its parent:
    /// of the text, and of the flag that says whether the end of this list
    /// is still unread. A list that owns its text holds none.
    spec fn lent(&self) -> Option<(&'i mut &'i str, &'i mut bool)>;

    /// Whether a node that the list yielded is still being read. While it
    /// is, the list must not be asked for its next node.
    fn child_in_progress(&self) -> (r: bool)
        ensures
            r == !self.ready(),
    ;

    /// Reads the start of the next node: its name, with the cursor over
    /// its content, or `None` at the end of the list.
    ///
    /// The node that was yielded last must have been read to its end. After
    /// an error nothing has been read.
    fn next_node<'s, A: AnnotationBuilder<'i>, N: StringBuilder<'i>>(&'s mut self) -> (r: Result<
        Option<GenericAnnotated<A, Node<'i, 's, N>>>,
        ParseError,
    >)
        requires
            (*old(self)).ready(),
        ensures
            (*final(self)).top_level() == (*old(self)).top_level(),
            same_borrows((*old(self)).lent(), (*final(self)).lent()),
            match ((*old(self)).lent(), (*final(self)).lent()) {
                (Some((t, f)), Some((u, g))) => *final(u) == *final(t) && *final(g) == *final(f),
                _ => true,
            },
            !(*old(self)).live() ==> (r matches Ok(None) && (*final(self)).remaining() == (*old(self)).remaining()
                && !(*final(self)).live() && (*final(self)).ready()),
            (*old(self)).live() ==> match spec_node_start((*old(self)).remaining(), (*old(self)).top_level()) {
                Err(e) => r matches Err(re) && re@ == e && (*final(self)).remaining() == (*old(self)).remaining()
                    && (*final(self)).ready() && (*final(self)).live(),
                Ok((None, rest)) => r matches Ok(None) && (*final(self)).remaining() == rest && (*final(self)).ready()
                    && (*final(self)).live() == (*final(self)).top_level(),
                Ok((Some(m), rest)) => r matches Ok(Some(node)) && name_denotes(
                    node.annotation,
                    node.item.name,
                    m,
                ) && bytes_of(*node.item.content.text()) == rest && *node.item.content.flag()
                    && (*final(self)).remaining() == bytes_of(*final(node.item.content.text()))
                    && (*final(self)).ready() == !*final(node.item.content.flag()) && (*final(self)).live(),
            },
    ;
}

impl<'i> NodeList<'i> for Document<'i> {
    open spec fn remaining(&self) -> Seq<u8> {
        Document::remaining(self)
    }

    open spec fn ready(&self) -> bool {
        Document::ready(self)
    }

    open spec fn live(&self) -> bool {
        true
    }

    open spec fn top_level(&self) -> bool {
        true
    }

    open spec fn lent(&self) -> Option<(&'i mut &'i str, &'i mut bool)> {
        None
    }

    fn child_in_progress(&self) -> (r: bool) {
        Document::child_in_progress(self)
    }

    fn next_node<'s, A: AnnotationBuilder<'i>, N: StringBuilder<'i>>(&'s mut self) -> (r: Result<
        Option<GenericAnnotated<A, Node<'i, 's, N>>>,
        ParseError,
    >) {
        Document::next_node(self)
    }
}

impl<'i, 'p> NodeList<'i> for Children<'i, 'p> {
    open spec fn remaining(&self) -> Seq<u8> {
        bytes_of(*self.text())
    }

    open spec fn ready(&self) -> bool {
        !self.busy()
    }

    open spec fn live(&self) -> bool {
        *self.flag()
    }

    open spec fn top_level(&self) -> bool {
        false
    }

    open spec fn lent(&self) -> Option<(&'i mut &'i str, &'i mut bool)> {
        Some((self.text(), self.flag()))
    }

    fn child_in_progress(&self) -> (r: bool) {
        self.child_in_progress
    }

    fn next_node<'s, A: AnnotationBuilder<'i>, N: StringBuilder<'i>>(&'s mut self) -> (r: Result<
        Option<GenericAnnotated<A, Node<'i, 's, N>>>,
        ParseError,
    >) {
        Children::next_node(self)
    }
}

/// A list that is borrowed is a list: what is read through the borrow has
/// been read from the list.
impl<'i, T: NodeList<'i>> NodeList<'i> for &mut T {
    open spec fn remaining(&self) -> Seq<u8> {
        (**self).remaining()
    }

    open spec fn ready(&self) -> bool {
        (**self).ready()
    }

    open spec fn live(&self) -> bool {
        (**self).live()
    }

    open spec fn top_level(&self) -> bool {
        (**self).top_level()
    }

    open spec fn lent(&self) -> Option<(&'i mut &'i str, &'i mut bool)> {
        (**self).lent()
    }

    fn child_in_progress(&self) -> (r: bool) {
        T::child_in_progress(&**self)
    }

    fn next_node<'s, A: AnnotationBuilder<'i>, N: StringBuilder<'i>>(&'s mut self) -> (r: Result<
        Option<GenericAnnotated<A, Node<'i, 's, N>>>,
        ParseError,
    >) {
        T::next_node(*self)
    }
}

/// Passes over the rest of a list: the text is read and checked, and
/// nothing of it is kept. The outcome is `NotEmpty` if and only if a node
/// was passed over. The list is left where the drain stopped: behind its
/// end, or before what could not be read.
///
/// The node that the list yielded last must have been read to its end.
pub fn drain_list<'i, L: NodeList<'i>>(list: &mut L) -> (r: Result<DrainOutcome, ParseError>)
    requires
        (*old(list)).ready(),
    ensures
        !(*old(list)).live() ==> r == Ok::<DrainOutcome, ParseError>(DrainOutcome::Empty),
        (*old(list)).live() ==> match spec_drain_list(
            (*old(list)).remaining(),
            (*old(list)).top_level(),
        ) {
            Ok((count, _)) => r == Ok::<DrainOutcome, ParseError>(outcome_of(count)),
            Err(e) => r matches Err(re) && re@ == e,
        },
        (*final(list)).top_level() == (*old(list)).top_level(),
        same_borrows((*old(list)).lent(), (*final(list)).lent()),
        match ((*old(list)).lent(), (*final(list)).lent()) {
            (Some((t, f)), Some((u, g))) => *final(u) == *final(t) && *final(g) == *final(f),
            _ => true,
        },
        (*old(list)).live() && r is Err ==> (*final(list)).live(),
        !(*old(list)).live() ==> (*final(list)).remaining() == (*old(list)).remaining() && !(
        *final(list)).live() && (*final(list)).ready(),
        (*old(list)).live() && r is Ok ==> (*final(list)).ready() && (*final(list)).live() == (
        *final(list)).top_level() && Ok::<Seq<u8>, SpecError>((*final(list)).remaining())
            == rest_of(spec_drain_list((*old(list)).remaining(), (*old(list)).top_level())),
        (*old(list)).live() ==> (*final(list)).remaining() == spec_drain_list_stop(
            (*old(list)).remaining(),
            (*old(list)).top_level(),
        ),
{
    let ghost measure = list.remaining().len();
    drain_list_measured(list, Ghost(measure))
}

/// The one loop of every drain of a list. The measure is the length of the
/// text that is still unread, by which the drains of lists and of the
/// content of nodes end.
fn drain_list_measured<'i, L: NodeList<'i>>(list: &mut L, Ghost(measure): Ghost<nat>) -> (r: Result<
    DrainOutcome,
    ParseError,
>)
    requires
        (*old(list)).ready(),
        measure == (*old(list)).remaining().len(),
    ensures
        !(*old(list)).live() ==> r == Ok::<DrainOutcome, ParseError>(DrainOutcome::Empty),
        (*old(list)).live() ==> match spec_drain_list(
            (*old(list)).remaining(),
            (*old(list)).top_level(),
        ) {
            Ok((count, _)) => r == Ok::<DrainOutcome, ParseError>(outcome_of(count)),
            Err(e) => r matches Err(re) && re@ == e,
        },
        (*final(list)).top_level() == (*old(list)).top_level(),
        same_borrows((*old(list)).lent(), (*final(list)).lent()),
        match ((*old(list)).lent(), (*final(list)).lent()) {
            (Some((t, f)), Some((u, g))) => *final(u) == *final(t) && *final(g) == *final(f),
            _ => true,
        },
        (*old(list)).live() && r is Err ==> (*final(list)).live(),
        !(*old(list)).live() ==> (*final(list)).remaining() == (*old(list)).remaining() && !(
        *final(list)).live() && (*final(list)).ready(),
        (*old(list)).live() && r is Ok ==> (*final(list)).ready() && (*final(list)).live() == (
        *final(list)).top_level() && Ok::<Seq<u8>, SpecError>((*final(list)).remaining())
            == rest_of(spec_drain_list((*old(list)).remaining(), (*old(list)).top_level())),
        (*old(list)).live() ==> (*final(list)).remaining() == spec_drain_list_stop(
            (*old(list)).remaining(),
            (*old(list)).top_level(),
        ),
    decreases measure, 1nat,
{
    let mut outcome = DrainOutcome::Empty;
    let ghost all = list.remaining();
    let ghost top = list.top_level();
    let ghost live = list.live();
    let ghost lent = list.lent();
    loop
        invariant
            all == (*old(list)).remaining(),
            measure == all.len(),
            top == (*old(list)).top_level(),
            live == (*old(list)).live(),
            lent == (*old(list)).lent(),
            list.top_level() == top,
            list.ready(),
            same_borrows(lent, list.lent()),
            match (lent, list.lent()) {
                (Some((t, f)), Some((u, g))) => *final(u) == *final(t) && *final(g) == *final(f),
                _ => true,
            },
            spec_drain_list_stop(list.remaining(), top) == spec_drain_list_stop(all, top),
            list.remaining().len() <= all.len(),
            outcome == DrainOutcome::Empty ==> list.remaining() == all && list.live() == live,
            outcome == DrainOutcome::NotEmpty ==> live && list.live() && exists|n: nat|
                n > 0 && spec_drain_list(all, top) == (#[trigger] plus(
                    spec_drain_list(list.remaining(), top),
                    n,
                )),
        decreases list.remaining().len(), list.live() as int,
    {
        let ghost here = list.remaining();
        let ghost before = outcome;
        proof {
            lemma_node_start_shorter(here, top);
        }
        match L::next_node::<(), ()>(list) {
            Err(e) => {
                return Err(e);
            },
            Ok(None) => {
                return Ok(outcome);
            },
            Ok(Some(node)) => {
                let ghost inside = bytes_of(*node.item.content.state);
                proof {
                    lemma_drain_shorter(inside, top);
                }
                match node.item.content.drain() {
                    Err(e) => {
                        return Err(e);
                    },
                    Ok(_) => {},
                }
                outcome = DrainOutcome::NotEmpty;
                proof {
                    let after = spec_drain_content(inside)->Ok_0.1;
                    assert(spec_drain_list(here, top) == plus(spec_drain_list(after, top), 1));
                    if before == DrainOutcome::NotEmpty {
                        let n = choose|n: nat|
                            n > 0 && spec_drain_list(all, top) == (#[trigger] plus(
                                spec_drain_list(here, top),
                                n,
                            ));
                        assert(spec_drain_list(all, top) == plus(
                            spec_drain_list(after, top),
                            n + 1,
                        ));
                    } else {
                        assert(spec_drain_list(all, top) == plus(spec_drain_list(after, top), 1));
                    }
                }
            },
        }
    }
}

/// Passing over a node that stands at its end finds nothing and gives no
/// error: where the next piece of the content is the end of the node, the
/// drain reads that end and its outcome is `Empty`.
pub proof fn lemma_drain_at_end(s: Seq<u8>)
    requires
        spec_node_event(s, Checks::none()) matches Ok((EventModel::End, _)),
    ensures
        spec_drain_content(s) == Ok::<(DrainOutcome, Seq<u8>), SpecError>(
            (DrainOutcome::Empty, spec_node_event(s, Checks::none())->Ok_0.1),
        ),
{
}

/// A property is never read as an argument: where a property stands behind
/// node space, the next piece of the content of the node is that property,
/// whatever else the text could be read as.
pub proof fn lemma_property_before_argument(s: Seq<u8>, checks: Checks)
    requires
        spec_node_space(s) is Ok,
        spec_property(
            spec_node_space(s)->Ok_0.1,
            checks.property_integers,
            checks.property_decimals,
        ) is Ok,
    ensures
        spec_node_event(s, checks) matches Ok((EventModel::Property(p), rest)) && Ok::<
            (PropertyModel, Seq<u8>),
            SpecError,
        >((p, rest)) == spec_property(
            spec_node_space(s)->Ok_0.1,
            checks.property_integers,
            checks.property_decimals,
        ),
{
    reveal(spec_node_event);
}

/// A list of nodes that is passed over without error is read to its end,
/// and the lists inside it too: nothing is left of a document.
pub proof fn lemma_document_is_read_whole(s: Seq<u8>)
    requires
        is_document(s),
    ensures
        spec_drain_list(s, true)->Ok_0.1.len() == 0,
    decreases s.len(),
{
    reveal(spec_node_start);
    lemma_node_start_shorter(s, true);
    match spec_node_start(s, true) {
        Ok((Some(_), rest)) => {
            lemma_drain_shorter(rest, true);
            lemma_document_is_read_whole(spec_drain_content(rest)->Ok_0.1);
        },
        _ => {},
    }
}

/// Recognizing reads what reading reads. The content of a node is read
/// alike by builders that check the bounds of numbers and by builders that
/// keep nothing, with one exception: a number that does not fit is a fatal
/// error for the builders that check. Where they find none, both readings
/// give the same piece and the same rest, or the same error.
pub proof fn lemma_recognizing_reads_alike(s: Seq<u8>, checks: Checks)
    ensures
        same_unless_fatal_bounds(spec_node_event(s, checks), spec_node_event(s, Checks::none())),
{
    reveal(spec_node_event);
    if let Ok((_, t)) = spec_node_space(s) {
        lemma_property_unchecked(t, checks.property_integers, checks.property_decimals);
        lemma_value_unchecked(t, checks.argument_integers, checks.argument_decimals);
    }
}

} // verus!
