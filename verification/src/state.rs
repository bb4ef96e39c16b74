//! The data attached to the current event while values are serialized or
//! deserialized.
use vstd::prelude::*;

use crate::fields::DuplicateKeys;
use crate::style::ScalarStyle;

verus! {

/// The data attached to the current event: the tag of the node (other than
/// the standard tags, which determine the type of a value) and the scalar
/// style requested for it; and what happens to keys given more than once.
#[derive(Debug, Clone, PartialEq, Eq)]
pub struct State {
    pub tag: Option<String>,
    pub style: Option<ScalarStyle>,
    pub duplicate_keys: DuplicateKeys,
}

impl State {
    /// Creates a state without event data, where the last value of a key
    /// given more than once is used.
    pub fn new() -> (s: State)
        ensures
            s.tag is None,
            s.style is None,
            s.duplicate_keys == DuplicateKeys::Last,
    {
        State { tag: None, style: None, duplicate_keys: DuplicateKeys::Last }
    }

    /// Sets what happens to keys given more than once.
    pub fn set_duplicate_keys(&mut self, policy: DuplicateKeys)
        ensures
            final(self).duplicate_keys == policy,
            final(self).tag == old(self).tag,
            final(self).style == old(self).style,
    {
        self.duplicate_keys = policy;
    }
}

} // verus!
