//! Support for YAML tags.
//!
//! Standard tags that determine the type of a value (`!!str`, `!!int`,
//! `!!float`, `!!bool`, `!!null`, `!!binary`, `!!timestamp`, `!!seq` and
//! `!!map`) are handled by the format itself.  All other tags travel with
//! the current event: [`take_tag`] picks the tag up, and [`Tagged`] holds a
//! value with its tag.  Tags are fully resolved: `!foo` stays `!foo` but
//! `!!set` becomes `tag:yaml.org,2002:set`.
use vstd::prelude::*;

use crate::state::State;

verus! {

/// Takes the tag of the current node from the state.  Returns `None` if
/// the node has no tag (or only a standard tag).
pub fn take_tag(state: &mut State) -> (r: Option<String>)
    ensures
        r == old(state).tag,
        final(state).tag is None,
        final(state).style == old(state).style,
        final(state).duplicate_keys == old(state).duplicate_keys,
{
    if state.tag.is_some() {
        state.tag.take()
    } else {
        None
    }
}

/// A value with an optional YAML tag.
#[derive(Clone, PartialEq, Eq, Default, Debug)]
pub struct Tagged<T> {
    /// The tag of the value.
    pub tag: Option<String>,
    /// The value.
    pub value: T,
}

impl<T> Tagged<T> {
    /// Creates a tagged value.
    pub fn new(tag: &str, value: T) -> (t: Tagged<T>)
        ensures
            t.tag matches Some(s) && s@ == tag@,
            t.value == value,
    {
        Tagged { tag: Some(String::from_str(tag)), value }
    }

    /// Creates a value without a tag.
    pub fn untagged(value: T) -> (t: Tagged<T>)
        ensures
            t.tag is None,
            t.value == value,
    {
        Tagged { tag: None, value }
    }

    /// Returns the inner value.
    pub fn into_inner(self) -> (v: T)
        ensures
            v == self.value,
    {
        self.value
    }
}

} // verus!
