//! Tests of how scalars and tags are written.
use deser_yaml::quote::{is_plain_safe, write_double_quoted, write_single_quoted, write_tag, Literal};
use deser_yaml::resolve::Version;

#[test]
fn test_plain() {
    for s in ["hello", "a b", "-a", "?a", "::1", "a:b", "a#b", "a,b", "yes!", "2001-1"] {
        assert!(is_plain_safe(s, Version::V1_2), "{}", s);
    }
    for s in [
        "", " a", "a ", "- a", "-", "a: b", "a:", "a #b", "#a", "---", "...", "--- a", "<<", "true",
        "null", "~", "1", "1.5", "0x10", ".inf", "a\nb", "a\tb", "'a", "!a", "&a", "*a", "%a", "@a",
        "`a", "|", ">",
    ] {
        assert!(!is_plain_safe(s, Version::V1_2), "{:?}", s);
    }
    // strings that are only special in YAML 1.1
    for s in ["yes", "on", "Off", "y", "0b10", "1:30", "1_000", "2001-12-14", "="] {
        assert!(is_plain_safe(s, Version::V1_2), "{}", s);
        assert!(!is_plain_safe(s, Version::V1_1), "{}", s);
    }
}

#[test]
fn quote_test_tags() {
    let t = |tag: &str| {
        let mut out = String::new();
        write_tag(&mut out, tag);
        out
    };
    assert_eq!(t("tag:yaml.org,2002:set"), "!!set");
    assert_eq!(t("!color"), "!color");
    assert_eq!(t("!"), "!");
    assert_eq!(t("tag:example.com,2000:app/foo"), "!<tag:example.com,2000:app/foo>");
    assert_eq!(t("!a b"), "!<!a%20b>");
}

#[test]
fn test_quoted_scalars() {
    let mut out = String::new();
    write_single_quoted(&mut out, "it's");
    assert_eq!(out, "'it''s'");
    let mut out = String::new();
    write_double_quoted(&mut out, "a\"b\\\u{7}\u{2028}\u{1}\u{ffff}\u{10ffff}\té\u{feff}");
    assert_eq!(out, "\"a\\\"b\\\\\\a\\L\\x01\\uffff\u{10ffff}\\té\\ufeff\"");
    let mut out = String::new();
    write_tag(&mut out, "!é");
    assert_eq!(out, "!<!%C3%A9>");
}

#[test]
fn test_literal_blocks() {
    assert!(Literal::new("no break").is_none());
    assert!(Literal::new("a\rb\n").is_none());
    let l = Literal::new("  a\nb\n\n").unwrap();
    assert_eq!(l.trailing, 2);
    assert!(l.needs_indicator);
    let mut out = String::new();
    l.write_header(&mut out, 2);
    l.write_body(&mut out, 4);
    assert_eq!(out, "|2+      a\n    b\n\n");
    let l = Literal::new("\n").unwrap();
    let mut out = String::new();
    l.write_header(&mut out, 2);
    l.write_body(&mut out, 2);
    assert_eq!(out, "|+\n");
}

/// The string of a document that is a single string scalar.
fn read_string(yaml: &str) -> String {
    let events = deser_yaml::de::from_str(yaml).unwrap();
    assert_eq!(events.len(), 1, "{:?}", yaml);
    match &events[0].event {
        deser_yaml::model::DataEvent::Atom(deser_yaml::model::Atom::Str(t)) => t.iter().collect(),
        other => panic!("not a string {:?} for {:?}", other, yaml),
    }
}

#[test]
fn test_quoted_scalars_read_back() {
    for s in [
        "",
        "plain",
        "it's",
        "''",
        "a\"b\\c",
        "tab\there",
        "line\nbreak\r\n",
        "\u{0}\u{1}\u{1f}\u{7f}\u{85}\u{a0}\u{2028}\u{2029}\u{feff}\u{ffff}\u{10ffff}",
        "  spaced  out  ",
        "\u{e4}\u{f6}\u{fc} \u{1f600}",
    ] {
        let mut out = String::new();
        write_double_quoted(&mut out, s);
        assert_eq!(read_string(&out), s, "{:?}", out);
        if !s.chars().any(|c| c == '\n' || c == '\r' || c == '\t' || (c as u32) < 0x20 || c == '\u{85}' || c == '\u{feff}'
            || c == '\u{2028}' || c == '\u{2029}' || c == '\u{7f}' || c == '\u{ffff}')
        {
            let mut out = String::new();
            write_single_quoted(&mut out, s);
            assert_eq!(read_string(&out), s, "{:?}", out);
        }
    }
    // a plain-safe string reads back as itself
    for s in ["hello", "a b", "::1", "a:b", "yes!", "2001-1"] {
        assert!(is_plain_safe(s, Version::V1_2), "{}", s);
        assert_eq!(read_string(s), s);
    }
}
