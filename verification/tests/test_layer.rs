//! Layers: the events passing through them and the limits layer.
use deser_yaml::layer::{LayerEvent, Limits};
use deser_yaml::model::{Atom, DataEvent};
use deser_yaml::recording::Recording;
use deser_yaml::de::{DeEvent, EventSink};
use deser_yaml::state::State;
use deser_yaml::style::ScalarStyle;
use deser_yaml::tag::{take_tag, Tagged};

fn s(text: &str) -> DataEvent {
    DataEvent::Atom(Atom::Str(text.chars().collect()))
}

#[test]
fn test_limits_depth() {
    let mut limits = Limits::new().max_depth(1);
    limits.event(&DataEvent::SeqStart, false, 0).unwrap();
    let err = limits.event(&DataEvent::SeqStart, false, 1).unwrap_err();
    assert_eq!(err.to_string(), "Unexpected: recursion limit exceeded");
    // atoms are not limited by depth
    assert!(limits.event(&s("a"), false, 1).is_ok());
}

#[test]
fn test_limits_events() {
    let mut limits = Limits::new().max_events(3);
    assert!(limits.event(&DataEvent::SeqStart, false, 0).is_ok());
    assert!(limits.event(&s("a"), false, 1).is_ok());
    assert!(limits.event(&DataEvent::SeqEnd, false, 1).is_ok());
    let err = limits.event(&DataEvent::SeqStart, false, 0).unwrap_err();
    assert_eq!(err.to_string(), "Unexpected: too many events");
    // the end of a container counts too
    assert!(limits.event(&DataEvent::SeqEnd, false, 1).is_err());
}

#[test]
fn test_limits_items() {
    let mut limits = Limits::new().max_items(2);
    limits.event(&DataEvent::MapStart, false, 0).unwrap();
    // entries of maps count at their key
    for _ in 0..2 {
        limits.event(&s("k"), true, 1).unwrap();
        limits.event(&DataEvent::SeqStart, false, 1).unwrap();
        limits.event(&s("x"), false, 2).unwrap();
        limits.event(&s("y"), false, 2).unwrap();
        let err = limits.event(&s("z"), false, 2).unwrap_err();
        assert_eq!(err.to_string(), "Unexpected: too many items");
        limits.event(&DataEvent::SeqEnd, false, 2).unwrap();
    }
    assert!(limits.event(&s("k"), true, 1).is_err());
}

#[test]
fn test_limits_len() {
    let mut limits = Limits::new().max_len(3);
    assert!(limits.event(&s("abc"), false, 0).is_ok());
    // the length is counted in UTF-8 bytes
    let err = limits.event(&s("a\u{e4}c"), false, 0).unwrap_err();
    assert_eq!(err.to_string(), "Unexpected: string or bytes too long");
    assert!(limits.event(&DataEvent::Atom(Atom::Bytes(vec![1, 2, 3])), false, 0).is_ok());
    assert!(limits.event(&DataEvent::Atom(Atom::Bytes(vec![1, 2, 3, 4])), false, 0).is_err());
    assert!(limits.event(&DataEvent::Atom(Atom::U64(123456)), false, 0).is_ok());
}

#[test]
fn test_no_limits() {
    let mut limits = Limits::default();
    for depth in 0..100 {
        assert!(limits.event(&DataEvent::SeqStart, false, depth).is_ok());
    }
    assert!(limits.event(&s(&"x".repeat(10000)), false, 100).is_ok());
    for depth in (0..100).rev() {
        assert!(limits.event(&DataEvent::SeqEnd, false, depth + 1).is_ok());
    }
}

#[test]
fn test_layer_event() {
    let e = LayerEvent::new(DataEvent::MapStart);
    assert!(!e.is_borrowed());
    assert_eq!(e.event(), &DataEvent::MapStart);
    let e = LayerEvent::borrowed(s("a"));
    assert!(e.is_borrowed());
    assert_eq!(e.event(), &s("a"));
}

#[test]
fn test_tags_and_styles() {
    let mut state = State::new();
    assert_eq!(ScalarStyle::of(&state), None);
    ScalarStyle::Literal.set(&mut state);
    assert_eq!(ScalarStyle::of(&state), Some(ScalarStyle::Literal));
    assert_eq!(take_tag(&mut state), None);
    state.tag = Some("!color".to_string());
    assert_eq!(take_tag(&mut state).as_deref(), Some("!color"));
    assert_eq!(take_tag(&mut state), None);
    assert_eq!(ScalarStyle::of(&state), Some(ScalarStyle::Literal));

    let t = Tagged::new("!color", "red".to_string());
    assert_eq!(t.tag.as_deref(), Some("!color"));
    assert_eq!(t.into_inner(), "red");
    let t = Tagged::untagged(1u32);
    assert_eq!(t.tag, None);
    assert_eq!(t.value, 1);
}

#[test]
fn test_recording() {
    let mut rec = Recording::new();
    assert!(rec.is_empty());
    assert_eq!(rec.as_str(), None);
    let ev = |event: DataEvent, start: usize, end: usize| DeEvent { event, tag: None, start, end, compact: false };
    rec.event(ev(s("key"), 0, 3)).unwrap();
    assert!(!rec.is_empty());
    assert_eq!(rec.as_str(), Some("key".chars().collect()));
    rec.event(ev(DataEvent::Atom(Atom::Null), 5, 9)).unwrap();
    assert_eq!(rec.as_str(), None);
    assert_eq!(rec.events().len(), 2);
    assert_eq!(rec.events()[1].start, 5);
    rec.clear();
    assert!(rec.is_empty());
    rec.event(ev(DataEvent::Atom(Atom::U64(1)), 0, 1)).unwrap();
    assert_eq!(rec.as_str(), None);
}
