//! Tests of the scanner's token queue and of the first parser event.
use deser_yaml::event::{EventKind, Mark, ScalarStyle};
use deser_yaml::model::{Atom, FloatRepr};
use deser_yaml::parser::Parser;
use deser_yaml::resolve::{is_collection_tag, parse_core_int, parse_yaml11_int};
use deser_yaml::scanner::{Scanner, TokenKind, TokenType};

fn chars(s: &str) -> Vec<char> {
    s.chars().collect()
}

fn block_scalar_text(input: &str) -> String {
    let mut scanner = Scanner::new(input);
    loop {
        scanner.peek_type().unwrap();
        let token = scanner.next_token();
        match token.kind {
            TokenKind::Scalar(ScalarStyle::Literal, text) | TokenKind::Scalar(ScalarStyle::Folded, text) => {
                return text.iter().collect();
            },
            TokenKind::StreamEnd => panic!("no block scalar in {:?}", input),
            _ => {},
        }
    }
}

/// A peeked token stays at the head of the queue until it is taken.
#[test]
fn test_repeated_peek_agrees() {
    for input in ["a: b\nc: [d, {e: f}]\n", "? x\n: y\n", "- &a 1\n- *a\n", "\"k\": 'v'\n"] {
        let mut scanner = Scanner::new(input);
        loop {
            let t = scanner.peek_type().unwrap();
            assert_eq!(scanner.peek_type().unwrap(), t);
            let head = scanner.peek_token().unwrap().clone();
            assert_eq!(head.kind.ty(), t);
            let taken = scanner.next_token();
            assert_eq!(taken.kind, head.kind);
            assert_eq!(taken.start, head.start);
            if t == TokenType::StreamEnd {
                break;
            }
        }
    }
}

/// The stream starts at offset 0, also before a byte order mark.
#[test]
fn test_stream_start_at_origin() {
    let origin = Mark { offset: 0, line: 0, column: 0 };
    for input in ["", "\u{feff}a", "[1, 2]", "  # comment\n", "a: b"] {
        let mut parser = Parser::new(input);
        let event = parser.next_event().unwrap();
        assert_eq!(event.kind, EventKind::StreamStart);
        assert_eq!(event.start, origin);
        assert_eq!(event.end, origin);
    }
}

/// Strip drops the final line break, clip keeps one, keep keeps all.
#[test]
fn test_block_scalar_chomping() {
    assert_eq!(block_scalar_text("|-\n  x\n\n"), "x");
    assert_eq!(block_scalar_text("|\n  x\n\n"), "x\n");
    assert_eq!(block_scalar_text("|+\n  x\n\n"), "x\n\n");
    assert_eq!(block_scalar_text("|2+\n  x\n\n\n"), "x\n\n\n");
    assert_eq!(block_scalar_text("|\n  x"), "x\n");
    assert_eq!(block_scalar_text(">\n  a\n  b\n"), "a b\n");
}

/// A standard tag of the other kind of collection is an error.
#[test]
fn test_collection_tag_message() {
    let msg = "tag does not apply to this kind of node";
    assert_eq!(is_collection_tag(&chars("tag:yaml.org,2002:map"), false), Err(msg));
    assert_eq!(is_collection_tag(&chars("tag:yaml.org,2002:seq"), true), Err(msg));
    assert_eq!(is_collection_tag(&chars("tag:yaml.org,2002:map"), true), Ok(true));
    assert_eq!(is_collection_tag(&chars("!color"), false), Ok(false));
}

/// Integers beyond 128 bits keep their digits for the float.
#[test]
fn test_big_int_digits() {
    let text = "1".to_string() + &"0".repeat(42);
    match parse_core_int(&chars(&text)) {
        Some(Atom::Float(FloatRepr::BigInt { negative, radix, digits })) => {
            assert!(!negative);
            assert_eq!(radix, 10);
            assert_eq!(digits.iter().collect::<String>(), text);
        },
        other => panic!("unexpected {:?}", other),
    }
    let hex = "0x".to_string() + &"f".repeat(40);
    match parse_core_int(&chars(&hex)) {
        Some(Atom::Float(FloatRepr::BigInt { radix: 16, digits, .. })) => assert_eq!(digits.len(), 40),
        other => panic!("unexpected {:?}", other),
    }
    let base60 = "-1".to_string() + &":59".repeat(30);
    match parse_yaml11_int(&chars(&base60)) {
        Some(Atom::Float(FloatRepr::Sexagesimal { negative, head, digits, fraction })) => {
            assert!(negative);
            assert_eq!(head, vec!['1']);
            assert_eq!(digits, vec![59u8; 30]);
            assert!(fraction.is_empty());
        },
        other => panic!("unexpected {:?}", other),
    }
}
