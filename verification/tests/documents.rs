use kaydle_primitives::node::{Document, DrainOutcome};

/// If draining works, every parser below it has done its part.
#[test]
fn test_full_document_drain() {
    let content = r##"
    // This is a KDL document!
    node1 "arg1" prop=10 {
        (u8)item 10
        (u8)item 20
        items {
            a /* An important note here */ "abc"
            d "def"; g "ghi"
        }
    }
    (annotated)node2
    primitives null false true 10 10.5 -10 -10.5 3e6 0x10c 0b00001111 0o755
    (a)annotated (n)null (f)false (t)true (i)10 (f)10.5 (n)-10.5e7
    "##;

    let processor = Document::new(content);

    let res = processor.drain();
    assert_eq!(res.expect("parse error"), DrainOutcome::NotEmpty);
}

use kaydle_primitives::annotation::GenericAnnotated;
use kaydle_primitives::error::{Context, ErrorKind, ParseError};
use kaydle_primitives::node::{
    drain_list, Children, Node, NodeContent, NodeEvent, NodeList, RecognizedNodeEvent,
};
use kaydle_primitives::number::KdlNumber;
use kaydle_primitives::property::GenericProperty;
use kaydle_primitives::string::KdlString;
use kaydle_primitives::value::{parse_bare_value, GenericValue, KdlValue};

type Event<'i, 'p> =
    NodeEvent<'i, 'p, Option<KdlString<'i>>, KdlValue<'i>, KdlString<'i>, Option<KdlString<'i>>, KdlValue<'i>>;

fn event<'i, 'p>(content: NodeContent<'i, 'p>) -> Event<'i, 'p> {
    content.next_event().expect("parse error")
}

fn node<'i, 's, L: NodeList<'i>>(
    list: &'s mut L,
) -> Option<GenericAnnotated<Option<KdlString<'i>>, Node<'i, 's, KdlString<'i>>>> {
    list.next_node().expect("parse error")
}

fn argument<'i, 'p>(content: NodeContent<'i, 'p>) -> (Option<KdlString<'i>>, KdlValue<'i>, NodeContent<'i, 'p>) {
    match event(content) {
        NodeEvent::Argument { argument, tail } => (argument.annotation, argument.item, tail),
        other => panic!("expected an argument, got {:?}", other),
    }
}

fn children<'i, 'p>(content: NodeContent<'i, 'p>) -> Children<'i, 'p> {
    match event(content) {
        NodeEvent::Children { children } => children,
        other => panic!("expected children, got {:?}", other),
    }
}

fn end(content: NodeContent<'_, '_>) {
    match event(content) {
        NodeEvent::End => {}
        other => panic!("expected the end of the node, got {:?}", other),
    }
}

fn unsigned(n: u64) -> KdlValue<'static> {
    GenericValue::Number(KdlNumber::Unsigned(n))
}

fn string(text: &str) -> KdlValue<'_> {
    GenericValue::String(KdlString::from_borrowed(text))
}

const SCENARIO: &str = "node1 \"arg1\" prop=10 {
    (u8)item 10
    items {
        a \"abc\"
        d \"def\"; g \"ghi\"
    }
}
(annotated)node2
";

#[test]
fn full_document_drains() {
    assert_eq!(Document::new(SCENARIO).drain(), Ok(DrainOutcome::NotEmpty));
}

#[test]
fn full_document_walk() {
    let mut document = Document::new(SCENARIO);

    let node1 = node(&mut document).expect("no node");
    assert_eq!(node1.annotation, None);
    assert_eq!(node1.item.name.as_str(), "node1");

    let (annotation, value, tail) = argument(node1.item.content);
    assert_eq!(annotation, None);
    assert_eq!(value, string("arg1"));

    let tail = match event(tail) {
        NodeEvent::Property { property, tail } => {
            assert_eq!(
                property,
                GenericProperty {
                    key: KdlString::from_borrowed("prop"),
                    value: GenericAnnotated { annotation: None, item: unsigned(10) },
                }
            );
            tail
        }
        other => panic!("expected a property, got {:?}", other),
    };

    let mut kids = children(tail);

    let item = node(&mut kids).expect("no child");
    assert_eq!(item.annotation, Some(KdlString::from_borrowed("u8")));
    assert_eq!(item.item.name.as_str(), "item");
    let (annotation, value, tail) = argument(item.item.content);
    assert_eq!(annotation, None);
    assert_eq!(value, unsigned(10));
    end(tail);

    let items = node(&mut kids).expect("no child");
    assert_eq!(items.item.name.as_str(), "items");
    let mut grandkids = children(items.item.content);
    for (name, text) in [("a", "abc"), ("d", "def"), ("g", "ghi")] {
        let child = node(&mut grandkids).expect("no grandchild");
        assert_eq!(child.item.name.as_str(), name);
        let (_, value, tail) = argument(child.item.content);
        assert_eq!(value, string(text));
        end(tail);
    }
    assert!(node(&mut grandkids).is_none());

    assert!(node(&mut kids).is_none());

    let node2 = node(&mut document).expect("no node");
    assert_eq!(node2.annotation, Some(KdlString::from_borrowed("annotated")));
    assert_eq!(node2.item.name.as_str(), "node2");
    end(node2.item.content);

    assert!(node(&mut document).is_none());
    assert!(!document.child_in_progress());
    assert_eq!(document.remaining_text(), "");
}

#[test]
fn property_is_no_argument() {
    let mut document = Document::new("node prop=10");
    let node = node(&mut document).expect("no node");
    let tail = match event(node.item.content) {
        NodeEvent::Property { property, tail } => {
            assert_eq!(property.key.as_str(), "prop");
            assert_eq!(property.value.item, unsigned(10));
            tail
        }
        other => panic!("expected a property, got {:?}", other),
    };
    end(tail);
    assert!(node_is_none(&mut document));
}

fn node_is_none(document: &mut Document<'_>) -> bool {
    node(document).is_none()
}

#[test]
fn quoted_key_is_no_argument() {
    let mut document = Document::new("node \"abc\"=10 \"abc\" abc=\"abc\"");
    let node = node(&mut document).expect("no node");
    let tail = match event(node.item.content) {
        NodeEvent::Property { property, tail } => {
            assert_eq!(property.key.as_str(), "abc");
            assert_eq!(property.value.item, unsigned(10));
            tail
        }
        other => panic!("expected a property, got {:?}", other),
    };
    let (_, value, tail) = argument(tail);
    assert_eq!(value, string("abc"));
    let tail = match event(tail) {
        NodeEvent::Property { property, tail } => {
            assert_eq!(property.key.as_str(), "abc");
            assert_eq!(property.value.item, string("abc"));
            tail
        }
        other => panic!("expected a property, got {:?}", other),
    };
    end(tail);
}

#[test]
fn drain_at_the_end_of_a_node_is_empty() {
    for text in ["node", "node\n", "node;", "node /* c */\n", "node  ", "node \\\n ;next"] {
        let mut document = Document::new(text);
        let node = node(&mut document).expect("no node");
        assert_eq!(node.item.content.drain(), Ok(DrainOutcome::Empty), "{:?}", text);
        assert!(!document.child_in_progress());
    }

    let mut document = Document::new("node 1 2\nnext");
    let node = node(&mut document).expect("no node");
    let (_, _, tail) = argument(node.item.content);
    let (_, _, tail) = argument(tail);
    assert_eq!(tail.drain(), Ok(DrainOutcome::Empty));
    assert_eq!(document.remaining_text(), "next");
}

#[test]
fn drain_of_a_node_tells_whether_anything_was_left() {
    let outcome = |text: &'static str| {
        let mut document = Document::new(text);
        let node = node(&mut document).expect("no node");
        node.item.content.drain()
    };
    assert_eq!(outcome("node 1"), Ok(DrainOutcome::NotEmpty));
    assert_eq!(outcome("node a=1"), Ok(DrainOutcome::NotEmpty));
    assert_eq!(outcome("node { }"), Ok(DrainOutcome::Empty));
    assert_eq!(outcome("node {\n\n}"), Ok(DrainOutcome::Empty));
    assert_eq!(outcome("node { child; }"), Ok(DrainOutcome::NotEmpty));
    assert_eq!(outcome("node {\n    child\n}"), Ok(DrainOutcome::NotEmpty));
    assert_eq!(outcome("node 1 { }"), Ok(DrainOutcome::NotEmpty));
    assert_eq!(outcome("node{}"), Ok(DrainOutcome::Empty));
}

#[test]
fn drain_of_a_list_tells_whether_it_held_a_node() {
    assert_eq!(Document::new("").drain(), Ok(DrainOutcome::Empty));
    assert_eq!(Document::new("  \n // c\n /* d */ \n").drain(), Ok(DrainOutcome::Empty));
    assert_eq!(Document::new("node").drain(), Ok(DrainOutcome::NotEmpty));
    assert_eq!(Document::new("a;b;c").drain(), Ok(DrainOutcome::NotEmpty));
    assert_eq!(Document::new("a { b { c { d 1 2 e=3; } } } f").drain(), Ok(DrainOutcome::NotEmpty));

    let mut document = Document::new("node { }\nnode { a; b; }");
    let first = node(&mut document).expect("no node");
    assert_eq!(children(first.item.content).drain(), Ok(DrainOutcome::Empty));
    let second = node(&mut document).expect("no node");
    assert_eq!(children(second.item.content).drain(), Ok(DrainOutcome::NotEmpty));
    assert!(node(&mut document).is_none());

    let mut document = Document::new("a;b");
    assert_eq!(drain_list(&mut document), Ok(DrainOutcome::NotEmpty));
    assert_eq!(drain_list(&mut document), Ok(DrainOutcome::Empty));
    assert_eq!(document.drain(), Ok(DrainOutcome::Empty));
}

#[test]
fn drain_reads_numbers_of_any_size() {
    assert_eq!(
        Document::new("node 99999999999999999999999 0xFFFFFFFFFFFFFFFFFFFFF a=(b)-1e99999").drain(),
        Ok(DrainOutcome::NotEmpty)
    );
    let mut document = Document::new("node 99999999999999999999999");
    let node = node(&mut document).expect("no node");
    let result: Result<Event, ParseError> = node.item.content.next_event();
    assert_eq!(
        result.expect_err("parse success"),
        ParseError {
            kind: ErrorKind::Bounds,
            remaining: 23,
            fatal: true,
            contexts: vec![Context::Number, Context::Value],
        }
    );
    assert!(document.child_in_progress());
}

#[test]
fn lists_are_fused() {
    let mut document = Document::new("node { child; }");
    let node1 = node(&mut document).expect("no node");
    let mut kids = children(node1.item.content);
    let child = node(&mut kids).expect("no child");
    end(child.item.content);
    assert!(node(&mut kids).is_none());
    assert!(node(&mut kids).is_none());
    assert!(node(&mut kids).is_none());
    assert_eq!(kids.drain(), Ok(DrainOutcome::Empty));
    assert!(node(&mut document).is_none());
    assert!(node(&mut document).is_none());
    assert_eq!(document.drain(), Ok(DrainOutcome::Empty));
}

#[test]
fn a_node_that_is_left_unread_keeps_its_list_busy() {
    let mut document = Document::new("node 1 2\nnext");
    assert!(!document.child_in_progress());
    {
        let node = node(&mut document).expect("no node");
        let (_, _, _tail) = argument(node.item.content);
    }
    assert!(document.child_in_progress());

    let mut document = Document::new("node { child 1 }\nnext");
    {
        let node1 = node(&mut document).expect("no node");
        let mut kids = children(node1.item.content);
        assert!(!NodeList::child_in_progress(&kids));
        {
            let _child = node(&mut kids).expect("no child");
        }
        assert!(NodeList::child_in_progress(&kids));
        assert!(kids.in_progress());
    }
    assert!(document.child_in_progress());

    let mut document = Document::new("node { }\nnext");
    {
        let node1 = node(&mut document).expect("no node");
        let _kids = children(node1.item.content);
    }
    // The closing brace is still unread.
    assert!(document.child_in_progress());
}

#[test]
fn terminators_are_interchangeable() {
    for text in ["a 1;b 2;c 3", "a 1\nb 2\nc 3", "a 1\r\nb 2;c 3\n", "a 1 /* x */\nb 2; c 3;"] {
        let mut document = Document::new(text);
        for (name, n) in [("a", 1), ("b", 2), ("c", 3)] {
            let node = node(&mut document).expect("no node");
            assert_eq!(node.item.name.as_str(), name);
            let (_, value, tail) = argument(node.item.content);
            assert_eq!(value, unsigned(n));
            end(tail);
        }
        assert!(node(&mut document).is_none(), "{:?}", text);
    }
}

#[test]
fn the_end_of_the_input_ends_the_last_node_of_a_document_only() {
    assert_eq!(Document::new("node 1").drain(), Ok(DrainOutcome::NotEmpty));
    assert_eq!(
        Document::new("node { child 1").drain(),
        Err(ParseError { kind: ErrorKind::Char(b'}'), remaining: 0, fatal: false, contexts: vec![] })
    );
    assert_eq!(
        Document::new("node {").drain(),
        Err(ParseError { kind: ErrorKind::Char(b'}'), remaining: 0, fatal: false, contexts: vec![] })
    );
    assert_eq!(
        Document::new("node }").drain(),
        Err(ParseError { kind: ErrorKind::Char(b';'), remaining: 1, fatal: false, contexts: vec![] })
    );
    assert_eq!(
        Document::new("}").drain(),
        Err(ParseError { kind: ErrorKind::EndOfInput, remaining: 1, fatal: false, contexts: vec![] })
    );
}

#[test]
fn a_child_ends_before_the_closing_brace() {
    assert_eq!(
        Document::new("node { child }").drain(),
        Err(ParseError { kind: ErrorKind::Char(b';'), remaining: 1, fatal: false, contexts: vec![] })
    );
    assert_eq!(Document::new("node { child; }").drain(), Ok(DrainOutcome::NotEmpty));
    assert_eq!(Document::new("node { child\n}").drain(), Ok(DrainOutcome::NotEmpty));
    assert_eq!(Document::new("node { child /* c */\n}").drain(), Ok(DrainOutcome::NotEmpty));
}

#[test]
fn children_need_no_terminator_behind_them() {
    let mut document = Document::new("a { b; } c { d; };e");
    for name in ["a", "c"] {
        let node = node(&mut document).expect("no node");
        assert_eq!(node.item.name.as_str(), name);
        assert_eq!(children(node.item.content).drain(), Ok(DrainOutcome::NotEmpty));
    }
    // The semicolon is no node.
    let result: Result<Option<GenericAnnotated<(), Node<()>>>, ParseError> = document.next_node();
    assert_eq!(
        result.expect_err("parse success"),
        ParseError { kind: ErrorKind::EndOfInput, remaining: 2, fatal: false, contexts: vec![] }
    );
    assert_eq!(document.remaining_text(), "};e".get(1..).unwrap());
}

#[test]
fn errors_of_nodes() {
    let error_of = |text: &'static str| Document::new(text).drain().expect_err("parse success");
    assert_eq!(
        error_of("node (u8 10"),
        ParseError {
            kind: ErrorKind::Char(b')'),
            remaining: 3,
            fatal: true,
            contexts: vec![Context::Annotation, Context::Value],
        }
    );
    assert_eq!(
        error_of("(u8 node"),
        ParseError {
            kind: ErrorKind::Char(b')'),
            remaining: 5,
            fatal: true,
            contexts: vec![Context::Annotation, Context::Node],
        }
    );
    assert_eq!(
        error_of("node \"abc"),
        ParseError {
            kind: ErrorKind::Char(b'"'),
            remaining: 3,
            fatal: true,
            contexts: vec![Context::EscapedString, Context::String, Context::Key, Context::Property],
        }
    );
    assert_eq!(
        error_of("node a=b"),
        ParseError {
            kind: ErrorKind::Digit,
            remaining: 1,
            fatal: true,
            contexts: vec![Context::Number, Context::Value, Context::Property],
        }
    );
    assert_eq!(
        error_of("node abc"),
        ParseError { kind: ErrorKind::Char(b';'), remaining: 3, fatal: false, contexts: vec![] }
    );
    assert_eq!(
        error_of("node 1 2 3x"),
        ParseError { kind: ErrorKind::Char(b';'), remaining: 1, fatal: false, contexts: vec![] }
    );
    assert_eq!(
        error_of("node 0x"),
        ParseError {
            kind: ErrorKind::Digit,
            remaining: 0,
            fatal: true,
            contexts: vec![Context::Number, Context::Value],
        }
    );
    assert_eq!(
        error_of("10"),
        ParseError { kind: ErrorKind::EndOfInput, remaining: 2, fatal: false, contexts: vec![] }
    );
    assert_eq!(
        error_of("a /* b"),
        ParseError { kind: ErrorKind::Char(b';'), remaining: 4, fatal: false, contexts: vec![] }
    );
}

#[test]
fn an_error_reads_nothing() {
    let mut document = Document::new("  10");
    let result: Result<Option<GenericAnnotated<(), Node<()>>>, ParseError> = document.next_node();
    assert!(result.is_err());
    assert_eq!(document.remaining_text(), "  10");
    assert!(!document.child_in_progress());

    let mut document = Document::new("node 1 abc");
    let node = node(&mut document).expect("no node");
    let (_, _, tail) = argument(node.item.content);
    assert_eq!(tail.remaining_text(), " abc");
    let result: Result<RecognizedNodeEvent, ParseError> = tail.next_event();
    assert!(result.is_err());
    assert_eq!(document.remaining_text(), " abc");
    assert!(document.child_in_progress());
}

#[test]
fn the_offset_of_an_error() {
    let text = "node 1 2 3x";
    let error = Document::new(text).drain().expect_err("parse success");
    assert_eq!(error.remaining, 1);
    assert_eq!(error.offset(text.len()), 10);
    assert_eq!(error.offset(0), 0);
}

#[test]
fn looking_ahead_moves_no_cursor() {
    let mut document = Document::new("node null 2");
    let node = node(&mut document).expect("no node");
    let peek = node.item.content.remaining_text();
    assert_eq!(peek, " null 2");
    let (tail, value) = parse_bare_value::<KdlValue>(peek.trim_start()).expect("parse error");
    assert_eq!((tail, value), (" 2", GenericValue::Null));
    let (_, value, tail) = argument(node.item.content);
    assert_eq!(value, GenericValue::Null);
    let (_, value, tail) = argument(tail);
    assert_eq!(value, unsigned(2));
    end(tail);
}

#[test]
fn names_and_annotations_are_recognized() {
    let mut document = Document::new("(t)\"a\\tb\" 1\n(u)c");
    let first: GenericAnnotated<Option<()>, Node<()>> =
        document.next_node().expect("parse error").expect("no node");
    assert_eq!(first.annotation, Some(()));
    assert_eq!(first.item.name, ());
    assert_eq!(first.item.content.drain(), Ok(DrainOutcome::NotEmpty));
    let second: GenericAnnotated<Option<String>, Node<String>> =
        document.next_node().expect("parse error").expect("no node");
    assert_eq!(second.annotation, Some(String::from("u")));
    assert_eq!(second.item.name, "c");
    assert_eq!(second.item.content.drain(), Ok(DrainOutcome::Empty));
}

#[test]
fn nodes_over_several_lines() {
    let mut document = Document::new("node 1 \\\n  2 \\  \n  a=3 \\\n{\n}\n");
    let node = node(&mut document).expect("no node");
    let (_, value, tail) = argument(node.item.content);
    assert_eq!(value, unsigned(1));
    let (_, value, tail) = argument(tail);
    assert_eq!(value, unsigned(2));
    let tail = match event(tail) {
        NodeEvent::Property { tail, .. } => tail,
        other => panic!("expected a property, got {:?}", other),
    };
    assert_eq!(children(tail).drain(), Ok(DrainOutcome::Empty));
    assert!(node_is_none(&mut document));
}

#[test]
fn a_fork_looks_ahead_and_is_thrown_away() {
    let mut document = Document::new("node null 2 {\n}\nnext");
    let node = node(&mut document).expect("no node");

    let mut fork = node.item.content.fork();
    assert_eq!(fork.remaining_text(), " null 2 {\n}\nnext");
    let (_, value, tail) = argument(fork.content());
    assert_eq!(value, GenericValue::Null);
    let (_, value, _tail) = argument(tail);
    assert_eq!(value, unsigned(2));
    assert_eq!(fork.remaining_text(), " {\n}\nnext");
    assert_eq!(fork.content().drain(), Ok(DrainOutcome::Empty));
    assert_eq!(fork.remaining_text(), "\nnext");

    // The node itself has not moved.
    assert_eq!(node.item.content.remaining_text(), " null 2 {\n}\nnext");
    let (_, value, tail) = argument(node.item.content);
    assert_eq!(value, GenericValue::Null);
    assert_eq!(tail.drain(), Ok(DrainOutcome::NotEmpty));
    assert_eq!(document.remaining_text(), "\nnext");
    assert!(!document.child_in_progress());
}

#[test]
fn a_copy_of_a_document_reads_for_itself() {
    let mut document = Document::new("a;b;c");
    let first = node(&mut document).expect("no node");
    end(first.item.content);
    let copy = document.clone();
    assert_eq!(copy.drain(), Ok(DrainOutcome::NotEmpty));
    assert_eq!(document.remaining_text(), "b;c");
    let second = node(&mut document).expect("no node");
    assert_eq!(second.item.name.as_str(), "b");
}

#[test]
fn lists_tell_whether_a_child_is_being_read() {
    let mut document = Document::new("node { child; }");
    assert!(!NodeList::child_in_progress(&document));
    {
        let borrowed = &mut document;
        assert!(!NodeList::child_in_progress(&borrowed));
        let node1 = borrowed.next_node::<(), ()>().expect("parse error").expect("no node");
        let mut kids = children(node1.item.content);
        assert!(!NodeList::child_in_progress(&kids));
        let _child = kids.next_node::<(), ()>().expect("parse error").expect("no child");
    }
    assert!(NodeList::child_in_progress(&document));
}

#[test]
fn a_drain_through_a_borrow_reads_the_list_to_its_end() {
    let mut document = Document::new("a { b; c 1; }\nd");
    let a = node(&mut document).expect("no node");
    let mut kids = children(a.item.content);
    assert_eq!(drain_list(&mut kids), Ok(DrainOutcome::NotEmpty));
    assert!(!kids.in_progress());
    assert_eq!(kids.remaining_text(), "\nd");
    assert_eq!(drain_list(&mut kids), Ok(DrainOutcome::Empty));
    assert_eq!(kids.drain(), Ok(DrainOutcome::Empty));
    assert_eq!(document.remaining_text(), "\nd");
    assert_eq!(drain_list(&mut document), Ok(DrainOutcome::NotEmpty));
    assert_eq!(document.remaining_text(), "");
}

#[test]
fn a_drain_that_fails_stops_before_what_it_could_not_read() {
    let mut document = Document::new("a 1; b 2 x; c");
    assert_eq!(
        drain_list(&mut document),
        Err(ParseError { kind: ErrorKind::Char(b';'), remaining: 4, fatal: false, contexts: vec![] })
    );
    assert_eq!(document.remaining_text(), " x; c");
    assert!(document.child_in_progress());

    let mut document = Document::new("a { b 1; 2 }\nc");
    let a = node(&mut document).expect("no node");
    assert_eq!(
        a.item.content.drain(),
        Err(ParseError { kind: ErrorKind::Char(b'}'), remaining: 5, fatal: false, contexts: vec![] })
    );
    assert_eq!(document.remaining_text(), " 2 }\nc");
    assert!(document.child_in_progress());

    let mut document = Document::new("a;\n 10");
    assert!(drain_list(&mut document).is_err());
    assert_eq!(document.remaining_text(), "\n 10");
    assert!(!document.child_in_progress());
}

#[test]
fn line_comments_stand_between_nodes() {
    assert_eq!(Document::new("// c\na\n// d\nb\n// e").drain(), Ok(DrainOutcome::NotEmpty));
    assert_eq!(Document::new("// only a comment").drain(), Ok(DrainOutcome::Empty));
    assert_eq!(Document::new("a {\n// c\n}").drain(), Ok(DrainOutcome::NotEmpty));
    // A line comment is no node terminator: the line terminator behind it is.
    assert_eq!(
        Document::new("a // c\nb").drain(),
        Err(ParseError { kind: ErrorKind::Char(b';'), remaining: 6, fatal: false, contexts: vec![] })
    );
    assert_eq!(
        Document::new("a 1 \\ // c\n 2").drain(),
        Err(ParseError { kind: ErrorKind::Char(b';'), remaining: 9, fatal: false, contexts: vec![] })
    );
    assert_eq!(Document::new("a; // c\nb").drain(), Ok(DrainOutcome::NotEmpty));
}

#[test]
fn a_content_cursor_tells_whether_its_node_is_being_read() {
    let mut document = Document::new("node 1");
    let node = node(&mut document).expect("no node");
    assert!(node.item.content.in_progress());
    let (_, _, tail) = argument(node.item.content);
    assert!(tail.in_progress());
    end(tail);
    assert!(!document.child_in_progress());
}
