//! Tests of the adapter wrappers.
use deser_yaml::adapters::{As, SerializeAsRef};

struct DisplayFromStr;

#[test]
fn test_as_wraps_value() {
    let values: Vec<As<u32, DisplayFromStr>> = vec![As::new(1), As::new(2)];
    let inner: Vec<u32> = values.into_iter().map(|v| v.into_inner()).collect();
    assert_eq!(inner, vec![1, 2]);
}

#[test]
fn test_serialize_as_ref_get() {
    let wrapped: SerializeAsRef<DisplayFromStr, u32> = SerializeAsRef::wrap(42);
    assert_eq!(*wrapped.get(), 42);
}
