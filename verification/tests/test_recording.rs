//! Tests of recordings.
use deser_yaml::de::{from_str, EventSink};
use deser_yaml::recording::Recording;

/// A recording replayed into another recording gives the same events.
#[test]
fn test_recording_round_trip() {
    let events = from_str("a: [1, {b: c}]\nd: e\n").unwrap();
    let mut first = Recording::new();
    for e in events.iter() {
        first.event(e.clone()).unwrap();
    }
    assert_eq!(first.events(), events.as_slice());
    let mut second = Recording::new();
    first.replay(&mut second).unwrap();
    assert_eq!(second.events(), events.as_slice());
}
