//! Hints for the style of YAML scalars.
//!
//! How a scalar is written is decided by the serializer.  Values can ask
//! for a specific style with a [`ScalarStyle`] hint, which is data attached
//! to the current event.  Hints only apply to strings and are preferences:
//! if a string cannot be written in the requested style without changing
//! it, it is written in a style that can represent it.
use vstd::prelude::*;

use crate::state::State;

verus! {

/// The style requested for a scalar.
#[derive(Debug, Clone, Copy, PartialEq, Eq, Structural, Hash)]
#[non_exhaustive]
pub enum ScalarStyle {
    /// Plain (`value`), if the string does not need quotes.
    Plain,
    /// Single-quoted (`'value'`), if the string does not need escapes.
    SingleQuoted,
    /// Double-quoted (`"value"`).
    DoubleQuoted,
    /// A literal block scalar (`|`), if the string only contains
    /// characters that can be written in it.
    Literal,
    /// A folded block scalar (`>`).
    Folded,
}

impl ScalarStyle {
    /// Returns the style requested for the current event.
    pub fn of(state: &State) -> (r: Option<ScalarStyle>)
        ensures
            r == state.style,
    {
        state.style
    }

    /// Requests the style for the value that is serialized.
    pub fn set(self, state: &mut State)
        ensures
            final(state).style == Some(self),
            final(state).tag == old(state).tag,
            final(state).duplicate_keys == old(state).duplicate_keys,
    {
        state.style = Some(self);
    }
}

} // verus!
