//! Parser tests for cases that are not covered by the YAML test suite.
use deser_yaml::event::{EventKind, ScalarStyle};
use deser_yaml::model::{Atom, DataEvent};
use deser_yaml::parser::Parser;
use deser_yaml::ser::{to_string, SerEvent};
use deser_yaml::suite::parse_to_test_events;

fn assert_events(input: &str, expected: &str) {
    let (events, err) = parse_to_test_events(input);
    assert_eq!(err, None, "unexpected error for {:?}", input);
    assert_eq!(events, expected, "wrong events for {:?}", input);
}

fn assert_error(input: &str, expected: &str) {
    let (_, err) = parse_to_test_events(input);
    let err = err.unwrap_or_else(|| panic!("expected an error for {:?}", input));
    assert!(
        err.contains(expected),
        "unexpected error for {:?}: {}",
        input,
        err
    );
}

#[test]
fn test_empty_block_scalar_before_less_indented_key() {
    assert_events(
        "a: |\n   \nb: c",
        "+STR\n+DOC\n+MAP\n=VAL :a\n=VAL |\n=VAL :b\n=VAL :c\n-MAP\n-DOC\n-STR\n",
    );
    assert_events(
        "a: |+\n   \nb: c",
        "+STR\n+DOC\n+MAP\n=VAL :a\n=VAL |\\n\n=VAL :b\n=VAL :c\n-MAP\n-DOC\n-STR\n",
    );
}

#[test]
fn test_block_scalar_without_final_line_break() {
    assert_events("|\n  x", "+STR\n+DOC\n=VAL |x\\n\n-DOC\n-STR\n");
    assert_events("|-\n  x", "+STR\n+DOC\n=VAL |x\n-DOC\n-STR\n");
}

#[test]
fn test_quoted_scalar_continuation_indentation() {
    assert_error("key: \"a\n\"", "invalid indentation");
    assert_events(
        "key: \"a\n \"",
        "+STR\n+DOC\n+MAP\n=VAL :key\n=VAL \"a \n-MAP\n-DOC\n-STR\n",
    );
}

#[test]
fn test_flow_pairs() {
    assert_events(
        "[a: 1, : x]",
        "+STR\n+DOC\n+SEQ []\n+MAP {}\n=VAL :a\n=VAL :1\n-MAP\n+MAP {}\n=VAL :\n=VAL :x\n-MAP\n-SEQ\n-DOC\n-STR\n",
    );
}

#[test]
fn test_implicit_key_length_limit() {
    let key = "a".repeat(1025);
    assert_error(&format!("{}: b", key), "mapping values are not allowed");
    let key = "a".repeat(1000);
    assert_events(
        &format!("{}: b", key),
        &format!(
            "+STR\n+DOC\n+MAP\n=VAL :{}\n=VAL :b\n-MAP\n-DOC\n-STR\n",
            key
        ),
    );
}

#[test]
fn test_deep_nesting() {
    // nesting does not use the native stack
    let depth = 100_000;
    let input = "[".repeat(depth) + &"]".repeat(depth);
    let (events, err) = parse_to_test_events(&input);
    assert_eq!(err, None);
    assert_eq!(events.lines().count(), depth * 2 + 4);

    let input = "{".repeat(depth) + &"}".repeat(depth) + ": x";
    assert_error(&input, "mapping values are not allowed");
}

#[test]
fn test_parser_documents_and_tags() {
    assert_events(
        "%TAG !e! tag:example.com,2000:\n--- !e!point {x: 1}\n",
        "+STR\n+DOC ---\n+MAP {} <tag:example.com,2000:point>\n=VAL :x\n=VAL :1\n-MAP\n-DOC\n-STR\n",
    );
    assert_events(
        "- &a \"x\\ty\"\n- *a\n- !!str 'it''s'\n",
        "+STR\n+DOC\n+SEQ\n=VAL &a \"x\\ty\n=ALI *a\n=VAL <tag:yaml.org,2002:str> 'it's\n-SEQ\n-DOC\n-STR\n",
    );
    assert_error("a: b: c", "mapping values are not allowed");
    assert_error("[1, 2", "syntax error");
}

/// A document of one plain scalar line reads as that scalar, and the
/// serializer writes a plain string as such a document.
#[test]
fn test_plain_document_events() {
    for text in ["hello world", "a", "x:y", "-1a", "key#no comment", "a  b"] {
        let written = to_string(&[SerEvent::plain(DataEvent::Atom(Atom::Str(text.chars().collect())))]).unwrap();
        assert_eq!(written, format!("{}\n", text));
        for input in [written.clone(), format!("{}\n\n  \n", text)] {
            let mut parser = Parser::new(&input);
            let mut kinds = Vec::new();
            loop {
                let event = parser.next_event().unwrap();
                let end = event.kind == EventKind::StreamEnd;
                kinds.push(event.kind);
                if end {
                    break;
                }
            }
            assert_eq!(kinds.len(), 5, "{:?}", input);
            assert_eq!(kinds[0], EventKind::StreamStart);
            assert_eq!(kinds[1], EventKind::DocumentStart { explicit: false, version: None });
            match &kinds[2] {
                EventKind::Scalar { props, style, value } => {
                    assert_eq!(props.anchor, None);
                    assert_eq!(props.tag, None);
                    assert_eq!(*style, ScalarStyle::Plain);
                    assert_eq!(value.iter().collect::<String>(), text);
                },
                other => panic!("unexpected {:?}", other),
            }
            assert_eq!(kinds[3], EventKind::DocumentEnd { explicit: false });
        }
    }
}

/// Escapes in tags are decoded; malformed ones are errors.
#[test]
fn test_tag_uri_escapes() {
    assert_events("!<tag:%41b> x\n", "+STR\n+DOC\n=VAL <tag:Ab> :x\n-DOC\n-STR\n");
    assert_events(
        "%TAG !e! tag:e%2Cf,\n--- !e!x y\n",
        "+STR\n+DOC ---\n=VAL <tag:e,f,x> :y\n-DOC\n-STR\n",
    );
    assert_error("!<%zz> x\n", "invalid URI escape");
    assert_error("!<> x\n", "invalid verbatim tag");
}

/// Unknown directives are skipped; a header indicator of 0 is refused.
#[test]
fn test_reserved_directive_and_block_header() {
    assert_events("%FOO bar baz\n--- x\n", "+STR\n+DOC ---\n=VAL :x\n-DOC\n-STR\n");
    assert_error("|0\n x\n", "must not be 0");
    assert_events("|2\n   x\n", "+STR\n+DOC\n=VAL | x\\n\n-DOC\n-STR\n");
}

/// The events of a document of one plain scalar.
#[test]
fn test_plain_document_test_events() {
    assert_events("hello", "+STR\n+DOC\n=VAL :hello\n-DOC\n-STR\n");
    assert_events("  # only a comment\n", "+STR\n-STR\n");
}
