//! Lexical atoms, struct fields and duplicate keys.
use deser_yaml::error::ErrorKind;
use deser_yaml::fields::{duplicate_field, int_error, invalid, mark_seen, parse_bool, DuplicateKeys};
use deser_yaml::state::State;

#[test]
fn test_parse_bool() {
    for value in ["true", "TRUE", "Yes", "on", "1"] {
        assert!(parse_bool(value).unwrap(), "{}", value);
    }
    for value in ["false", "False", "NO", "off", "0"] {
        assert!(!parse_bool(value).unwrap(), "{}", value);
    }
    for value in ["", "2", "y", "n", "t", "truee", " true"] {
        assert!(parse_bool(value).is_err(), "{}", value);
    }
}

#[test]
fn test_invalid_truncates() {
    let err = invalid(&"x".repeat(100), "u32");
    assert_eq!(
        err.message(),
        format!("invalid value {:?}..., expected u32", "x".repeat(64))
    );
}

#[test]
fn test_invalid_messages() {
    let err = parse_bool("maybe").unwrap_err();
    assert_eq!(err.kind, ErrorKind::Unexpected);
    assert_eq!(
        err.message(),
        "invalid value \"maybe\", expected bool (true, yes, on, 1, false, no, off or 0)"
    );
    // exactly 64 characters are quoted whole, escapes included
    let err = invalid(&"\"".repeat(64), "u8");
    assert_eq!(err.message(), format!("invalid value {:?}, expected u8", "\"".repeat(64)));
    let err = invalid("\u{e4}\n", "u8");
    assert_eq!(err.message(), "invalid value \"\u{e4}\\n\", expected u8");
    let err = int_error("300", true, "u8");
    assert_eq!(err.kind, ErrorKind::OutOfRange);
    assert_eq!(err.message(), "value out of range for type");
    let err = int_error("x", false, "u8");
    assert_eq!(err.kind, ErrorKind::Unexpected);
    assert_eq!(err.message(), "invalid value \"x\", expected u8");
}

#[test]
fn test_mark_seen() {
    let mut seen = vec![0u64; 2];
    assert!(!mark_seen(&mut seen, 3));
    assert!(mark_seen(&mut seen, 3));
    assert!(!mark_seen(&mut seen, 67));
    assert!(!mark_seen(&mut seen, 64));
    assert!(mark_seen(&mut seen, 67));
    assert_eq!(seen, [8, 9]);
    assert!(!mark_seen(&mut seen, 63));
    assert_eq!(seen[0], 8 | (1 << 63));
}

#[test]
fn test_duplicate_field() {
    let mut state = State::new();
    assert_eq!(state.duplicate_keys, DuplicateKeys::default());
    assert!(duplicate_field("a", &state).unwrap());
    state.set_duplicate_keys(DuplicateKeys::First);
    assert!(!duplicate_field("a", &state).unwrap());
    state.set_duplicate_keys(DuplicateKeys::Error);
    let err = duplicate_field("name", &state).unwrap_err();
    assert_eq!(err.kind, ErrorKind::Unexpected);
    assert_eq!(err.message(), "duplicate field 'name'");
    assert_eq!(err.to_string(), "Unexpected: duplicate field 'name'");
}
