//! The YAML event model.
//!
//! This is the output of the parser and corresponds to the serialization
//! tree of the YAML specification (and the event stream of the YAML test
//! suite).
use vstd::prelude::*;

verus! {

/// A position in the input.
#[derive(Debug, Clone, Copy, PartialEq, Eq, Structural, Default)]
pub struct Mark {
    /// Byte offset.
    pub offset: usize,
    /// Zero based line.
    pub line: usize,
    /// Zero based column in characters.
    pub column: usize,
}

/// The presentation style of a scalar.
#[derive(Debug, Clone, Copy, PartialEq, Eq, Structural)]
pub enum ScalarStyle {
    Plain,
    SingleQuoted,
    DoubleQuoted,
    Literal,
    Folded,
}

/// The properties of a node.
#[derive(Debug, Clone, PartialEq, Eq, Default)]
pub struct Props {
    pub anchor: Option<Vec<char>>,
    /// The resolved tag (tag handles are already expanded).  The
    /// non-specific tag `!` is represented as `"!"`.
    pub tag: Option<Vec<char>>,
}

#[derive(Debug, Clone, PartialEq, Eq)]
pub enum EventKind {
    StreamStart,
    StreamEnd,
    DocumentStart {
        /// `---` was present.
        explicit: bool,
        /// The version declared with the `%YAML` directive.
        version: Option<(u32, u32)>,
    },
    DocumentEnd {
        /// `...` was present.
        explicit: bool,
    },
    SequenceStart { props: Props, flow: bool },
    SequenceEnd,
    MappingStart { props: Props, flow: bool },
    MappingEnd,
    Scalar { props: Props, style: ScalarStyle, value: Vec<char> },
    Alias { anchor: Vec<char> },
}

#[derive(Debug, Clone, PartialEq, Eq)]
pub struct Event {
    pub kind: EventKind,
    pub start: Mark,
    pub end: Mark,
}

/// Returns properties without anchor and tag.
pub fn no_props() -> (p: Props)
    ensures
        p.anchor is None,
        p.tag is None,
{
    Props { anchor: None, tag: None }
}

} // verus!
