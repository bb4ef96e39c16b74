//! Reads YAML documents as data model events: resolves scalars, expands
//! aliases and merge keys.
use vstd::prelude::*;

use crate::encoding::{BytesEncoding, BytesFormat};
use crate::error::{Error, ErrorKind};
use crate::event::{Event, EventKind, Mark, ScalarStyle};
use crate::model::{Atom, DataEvent, FloatRepr};
use crate::parser::{error_at, event_ok, Parser};
use crate::resolve::{
    classify_tag, is_collection_tag, is_plain_string, plain_result, resolve_plain, resolve_standard, spec_classify_tag,
    standard_ok, ScalarTag, Version,
};
use crate::scanner::{plain_document_at, plain_text, quiet_from, mark_ok, MAX_INPUT_CHARS};
use crate::text::{chars_eq, copy_chars, str_chars};

verus! {

/// The error for input that is not UTF-8: located at the end of the
/// longest valid prefix of the input.
pub open spec fn invalid_utf8_error(bytes: Seq<u8>, e: Error) -> bool {
    &&& e.kind == ErrorKind::Unexpected
    &&& e.message@ == "invalid UTF-8"@
    &&& e.position is None
    &&& e.offset matches Some(n) && n < bytes.len() && vstd::utf8::valid_utf8(bytes.take(n as int)) && forall|k: int|
        n < k <= bytes.len() ==> !vstd::utf8::valid_utf8(#[trigger] bytes.take(k))
}

/// The error for input of more characters than the scanner takes.
pub open spec fn too_large_error(e: Error) -> bool {
    &&& e.kind == ErrorKind::Unexpected
    &&& e.message@ == "input too large"@
    &&& e.position is None
    &&& e.offset is None
}

/// The default for [`DeserializerConfig::alias_limit`].
pub const DEFAULT_ALIAS_LIMIT: usize = 1_000_000;

/// Configures how YAML is read.  The configuration is independent of the
/// input so it can be created once and used for many inputs.
#[derive(Debug, Clone, Copy, PartialEq, Eq, Structural)]
pub struct DeserializerConfig {
    /// The YAML version for documents that do not declare one.
    pub version: Version,
    /// The limit of the nesting depth of sequences and mappings.
    pub max_depth: Option<usize>,
    /// The limit of the events that aliases can expand to per document.
    pub alias_limit: usize,
    /// Merge keys (`<<`) are enabled.
    pub merge_keys: bool,
    /// Locations are tracked.
    pub track_locations: bool,
    /// How strings are decoded into bytes.
    pub bytes: BytesFormat,
}

/// The default configuration.
pub open spec fn default_de_config() -> DeserializerConfig {
    DeserializerConfig {
        version: Version::V1_2,
        max_depth: None,
        alias_limit: DEFAULT_ALIAS_LIMIT,
        merge_keys: true,
        track_locations: false,
        bytes: BytesFormat { encoding: Some(BytesEncoding::Base64) },
    }
}

impl Default for DeserializerConfig {
    fn default() -> (c: DeserializerConfig)
        ensures
            c == default_de_config(),
    {
        DeserializerConfig::new()
    }
}

impl DeserializerConfig {
    /// Creates the default configuration.
    pub fn new() -> (c: DeserializerConfig)
        ensures
            c == default_de_config(),
    {
        DeserializerConfig {
            version: Version::V1_2,
            max_depth: None,
            alias_limit: DEFAULT_ALIAS_LIMIT,
            merge_keys: true,
            track_locations: false,
            bytes: BytesFormat::base64(),
        }
    }

    /// Sets the YAML version for documents that do not declare one.
    pub fn version(self, version: Version) -> (c: DeserializerConfig)
        ensures
            c == (DeserializerConfig { version, ..self }),
    {
        let mut c = self;
        c.version = version;
        c
    }

    /// Limits the nesting depth of sequences and mappings.
    pub fn max_depth(self, depth: usize) -> (c: DeserializerConfig)
        ensures
            c == (DeserializerConfig { max_depth: Some(depth), ..self }),
    {
        let mut c = self;
        c.max_depth = Some(depth);
        c
    }

    /// Limits the number of events that aliases can expand to per document.
    pub fn alias_limit(self, limit: usize) -> (c: DeserializerConfig)
        ensures
            c == (DeserializerConfig { alias_limit: limit, ..self }),
    {
        let mut c = self;
        c.alias_limit = limit;
        c
    }

    /// Enables or disables merge keys.
    pub fn merge_keys(self, yes: bool) -> (c: DeserializerConfig)
        ensures
            c == (DeserializerConfig { merge_keys: yes, ..self }),
    {
        let mut c = self;
        c.merge_keys = yes;
        c
    }

    /// Enables or disables location tracking.
    pub fn track_locations(self, yes: bool) -> (c: DeserializerConfig)
        ensures
            c == (DeserializerConfig { track_locations: yes, ..self }),
    {
        let mut c = self;
        c.track_locations = yes;
        c
    }

    /// Sets how strings are decoded into bytes.
    pub fn bytes(self, format: BytesFormat) -> (c: DeserializerConfig)
        ensures
            c == (DeserializerConfig { bytes: format, ..self }),
    {
        let mut c = self;
        c.bytes = format;
        c
    }
}

/// An event of a document: the data model event, the tag of the node (for
/// the first event of a node with a tag that is not standard), the byte
/// range in the input and whether a collection was written in flow style
/// (`[a]`, `{a: b}`).
#[derive(Debug, Clone, PartialEq, Eq)]
pub struct DeEvent {
    pub event: DataEvent,
    pub tag: Option<Vec<char>>,
    pub start: usize,
    pub end: usize,
    pub compact: bool,
}

/// A node event as it is recorded for anchors.
enum Node {
    Scalar { tag: Option<Vec<char>>, style: ScalarStyle, value: Vec<char>, start: Mark, end: usize },
    Start { tag: Option<Vec<char>>, is_map: bool, flow: bool, start: Mark, end: usize },
    End { is_map: bool, start: Mark, end: usize },
    /// An alias, resolved to the range of the anchored node in the
    /// recorded nodes.
    Alias { range: (usize, usize) },
}

/// A collection that is being recorded.
struct OpenNode {
    anchor: Option<Vec<char>>,
    /// The index of the start node in the recording.
    start: usize,
    /// The depth of the collection.
    depth: usize,
    /// The range should be stored in `captured` when the collection ends.
    capture: bool,
}

/// The per document state.
struct Document {
    version: Version,
    /// The recorded nodes.  Nodes are only recorded while an anchored (or
    /// captured) collection is open.
    nodes: Vec<Node>,
    /// The anchors and the range of their nodes in `nodes`.
    anchors: Vec<(Vec<char>, (usize, usize))>,
    /// The collections that are currently recorded.
    open: Vec<OpenNode>,
    /// The range of the last collection that was captured.
    captured: Option<(usize, usize)>,
    /// The depth of the collections from the parser (without aliases).
    depth: usize,
}

/// A range of recorded nodes.
pub open spec fn range_ok(r: (usize, usize), len: nat) -> bool {
    r.0 < r.1 <= len
}

/// The range that `range` stands for once aliases are followed.
spec fn resolved_range(nodes: Seq<Node>, range: (usize, usize)) -> (usize, usize)
    decreases range.0,
{
    if range.0 < nodes.len() {
        match nodes[range.0 as int] {
            Node::Alias { range: target } => if target.0 < range.0 {
                resolved_range(nodes, target)
            } else {
                range
            },
            _ => range,
        }
    } else {
        range
    }
}

/// Whether the node at the start of `range` begins a sequence.
spec fn starts_sequence(nodes: Seq<Node>, range: (usize, usize)) -> bool {
    range.0 < nodes.len() && nodes[range.0 as int] matches Node::Start { is_map: false, .. }
}

/// The merge sources from `k` on, each resolved, last first.
spec fn stacked_sources(nodes: Seq<Node>, sources: Seq<(usize, usize)>, k: int) -> Seq<(usize, usize)>
    decreases sources.len() - k,
{
    if 0 <= k < sources.len() {
        stacked_sources(nodes, sources, k + 1).push(resolved_range(nodes, sources[k]))
    } else {
        Seq::empty()
    }
}

/// The marks of a node can be reported.
spec fn node_ok(n: Node, i: int) -> bool {
    match n {
        Node::Scalar { start, .. } => mark_ok(start),
        Node::Start { start, .. } => mark_ok(start),
        Node::End { start, .. } => mark_ok(start),
        Node::Alias { range } => range.0 < range.1 <= i,
    }
}

/// Copies a node.
fn copy_node(n: &Node) -> (r: Node)
    ensures
        node_ok(*n, 0) ==> node_ok(r, 0),
        forall|i: int| node_ok(*n, i) ==> node_ok(r, i),
        r is Start <==> n is Start,
        r is End <==> n is End,
        r is Alias <==> n is Alias,
        r is Scalar <==> n is Scalar,
        *n matches Node::Alias { range } ==> r == (Node::Alias { range }),
        *n matches Node::Start { is_map, .. } ==> (r matches Node::Start { is_map: m, .. } && m == is_map),
        *n matches Node::End { is_map, start, end } ==> r == (Node::End { is_map, start, end }),
{
    match n {
        Node::Scalar { tag, style, value, start, end } => Node::Scalar {
            tag: match tag {
                Some(t) => Some(copy_chars(t)),
                None => None,
            },
            style: *style,
            value: copy_chars(value),
            start: *start,
            end: *end,
        },
        Node::Start { tag, is_map, flow, start, end } => Node::Start {
            tag: match tag {
                Some(t) => Some(copy_chars(t)),
                None => None,
            },
            is_map: *is_map,
            flow: *flow,
            start: *start,
            end: *end,
        },
        Node::End { is_map, start, end } => Node::End { is_map: *is_map, start: *start, end: *end },
        Node::Alias { range } => Node::Alias { range: *range },
    }
}

/// The range of the last definition of the anchor.
pub open spec fn last_anchor(anchors: Seq<(Vec<char>, (usize, usize))>, name: Seq<char>) -> Option<(usize, usize)>
    decreases anchors.len(),
{
    if anchors.len() == 0 {
        None
    } else if anchors.last().0@ == name {
        Some(anchors.last().1)
    } else {
        last_anchor(anchors.drop_last(), name)
    }
}

/// The node an event is recorded as (aliases aside).
spec fn event_node(e: Event) -> Option<Node> {
    match e.kind {
        EventKind::Scalar { props, style, value } => Some(
            Node::Scalar { tag: props.tag, style, value, start: e.start, end: e.end.offset },
        ),
        EventKind::SequenceStart { props, flow } => Some(
            Node::Start { tag: props.tag, is_map: false, flow, start: e.start, end: e.end.offset },
        ),
        EventKind::MappingStart { props, flow } => Some(
            Node::Start { tag: props.tag, is_map: true, flow, start: e.start, end: e.end.offset },
        ),
        EventKind::SequenceEnd => Some(Node::End { is_map: false, start: e.start, end: e.end.offset }),
        EventKind::MappingEnd => Some(Node::End { is_map: true, start: e.start, end: e.end.offset }),
        _ => None,
    }
}

/// An open collection carries the anchor.
spec fn names_open_anchor(open: Seq<OpenNode>, name: Seq<char>) -> bool {
    exists|i: int| 0 <= i < open.len() && ((#[trigger] open[i]).anchor matches Some(n) && n@ == name)
}

impl Document {
    spec fn wf(&self) -> bool {
        &&& forall|i: int| 0 <= i < self.nodes@.len() ==> #[trigger] node_ok(self.nodes@[i], i)
        &&& forall|i: int| 0 <= i < self.anchors@.len() ==> range_ok(#[trigger] self.anchors@[i].1, self.nodes@.len())
        &&& forall|i: int| 0 <= i < self.open@.len() ==> (#[trigger] self.open@[i]).start < self.nodes@.len()
        &&& self.captured matches Some(r) ==> range_ok(r, self.nodes@.len())
    }

    fn new(version: Version) -> (d: Document)
        ensures
            d.wf(),
            d.version == version,
            d.nodes@.len() == 0,
            d.anchors@.len() == 0,
            d.open@.len() == 0,
            d.captured is None,
            d.depth == 0,
    {
        Document { version, nodes: Vec::new(), anchors: Vec::new(), open: Vec::new(), captured: None, depth: 0 }
    }

    /// Returns the range of an anchor.
    fn anchor(&self, name: &[char]) -> (r: Option<(usize, usize)>)
        requires
            self.wf(),
        ensures
            r matches Some(range) ==> range_ok(range, self.nodes@.len()),
            r == last_anchor(self.anchors@, name@),
    {
        // later definitions of an anchor replace earlier ones
        let mut i = self.anchors.len();
        assert(self.anchors@.take(i as int) =~= self.anchors@);
        while i > 0
            invariant
                i <= self.anchors@.len(),
                self.wf(),
                last_anchor(self.anchors@, name@) == last_anchor(self.anchors@.take(i as int), name@),
            decreases i,
        {
            assert(self.anchors@.take(i as int).drop_last() =~= self.anchors@.take(i - 1));
            i = i - 1;
            if chars_eq(&self.anchors[i].0, name) {
                return Some(self.anchors[i].1);
            }
        }
        None
    }

    fn push_node(&mut self, node: Node)
        requires
            old(self).wf(),
            node_ok(node, old(self).nodes@.len() as int),
        ensures
            final(self).wf(),
            final(self).nodes@ == old(self).nodes@.push(node),
            final(self).anchors == old(self).anchors,
            final(self).open == old(self).open,
            final(self).captured == old(self).captured,
            final(self).depth == old(self).depth,
            final(self).version == old(self).version,
    {
        self.nodes.push(node);
        assert forall|i: int| 0 <= i < self.nodes@.len() implies #[trigger] node_ok(self.nodes@[i], i) by {
            if i < old(self).nodes@.len() {
                assert(self.nodes@[i] == old(self).nodes@[i]);
            }
        }
        assert forall|i: int| 0 <= i < self.anchors@.len() implies range_ok(#[trigger] self.anchors@[i].1, self.nodes@.len()) by {
            assert(range_ok(old(self).anchors@[i].1, old(self).nodes@.len()));
        }
        assert forall|i: int| 0 <= i < self.open@.len() implies (#[trigger] self.open@[i]).start < self.nodes@.len() by {
            assert(old(self).open@[i].start < old(self).nodes@.len());
        }
    }

    fn add_anchor(&mut self, name: Vec<char>, range: (usize, usize))
        requires
            old(self).wf(),
            range_ok(range, old(self).nodes@.len()),
        ensures
            final(self).wf(),
            final(self).nodes == old(self).nodes,
            final(self).open == old(self).open,
            final(self).captured == old(self).captured,
            final(self).depth == old(self).depth,
            final(self).version == old(self).version,
            final(self).anchors@ == old(self).anchors@.push((name, range)),
    {
        self.anchors.push((name, range));
        assert forall|i: int| 0 <= i < self.anchors@.len() implies range_ok(#[trigger] self.anchors@[i].1, self.nodes@.len()) by {
            if i < old(self).anchors@.len() {
                assert(self.anchors@[i] == old(self).anchors@[i]);
            }
        }
    }
}


/// The message of an alias to an anchor that was not defined.
pub open spec fn unknown_anchor_message(name: Seq<char>) -> Seq<char> {
    "unknown anchor '"@ + name + "'"@
}

fn unknown_anchor(mark: Mark, name: &[char]) -> (e: Error)
    requires
        mark_ok(mark),
    ensures
        e.kind == ErrorKind::Unexpected,
        e.message@ == unknown_anchor_message(name@),
{
    let mut m = str_chars("unknown anchor '");
    crate::text::push_chars(&mut m, name);
    m.push('\'');
    proof {
        reveal_strlit("'");
    }
    assert(m@ =~= unknown_anchor_message(name@));
    let msg = crate::text::chars_to_string(&m);
    let mut e = error_at(mark, "");
    e.message = msg;
    e
}

impl Document {
    /// Turns a parser event into a node and records anchors.
    ///
    /// If `capture` is set, a collection is recorded even without anchor
    /// and its range is stored in `captured` once it ends.
    fn record(&mut self, event: Event, capture: bool) -> (r: Result<Node, Error>)
        requires
            old(self).wf(),
            event_ok(event),
        ensures
            final(self).wf(),
            final(self).version == old(self).version,
            final(self).nodes@.len() >= old(self).nodes@.len(),
            r matches Ok(n) ==> node_ok(n, final(self).nodes@.len() as int),
            event_node(event) matches Some(n) ==> r == Ok::<Node, Error>(n),
            event.kind matches EventKind::Alias { anchor } ==> {
                &&& r is Ok <==> !names_open_anchor(old(self).open@, anchor@) && last_anchor(
                    old(self).anchors@,
                    anchor@,
                ) is Some
                &&& r is Ok ==> r == Ok::<Node, Error>(
                    Node::Alias { range: last_anchor(old(self).anchors@, anchor@)->0 },
                )
            },
            !(event.kind is Alias) && event_node(event) is None ==> r is Err,
    {
        let start = event.start;
        let end = event.end.offset;
        let (node, anchor) = match event.kind {
            EventKind::Scalar { props, style, value } => (
                Node::Scalar { tag: props.tag, style, value, start, end },
                props.anchor,
            ),
            EventKind::SequenceStart { props, flow } => {
                self.depth = self.depth.saturating_add(1);
                (Node::Start { tag: props.tag, is_map: false, flow, start, end }, props.anchor)
            },
            EventKind::MappingStart { props, flow } => {
                self.depth = self.depth.saturating_add(1);
                (Node::Start { tag: props.tag, is_map: true, flow, start, end }, props.anchor)
            },
            EventKind::SequenceEnd | EventKind::MappingEnd => {
                let is_map = match event.kind {
                    EventKind::MappingEnd => true,
                    _ => false,
                };
                if self.depth > 0 {
                    self.depth = self.depth - 1;
                }
                let node = Node::End { is_map, start, end };
                if self.open.len() > 0 {
                    self.push_node(Node::End { is_map, start, end });
                    let depth = self.depth.saturating_add(1);
                    let last = self.open.len() - 1;
                    if self.open[last].depth == depth {
                        let open = self.open.pop().unwrap();
                        assert(open.start < self.nodes@.len());
                        let range = (open.start, self.nodes.len());
                        match open.anchor {
                            Some(name) => self.add_anchor(name, range),
                            None => {},
                        }
                        if open.capture {
                            self.captured = Some(range);
                        }
                    }
                }
                return Ok(node);
            },
            EventKind::Alias { anchor } => {
                let mut i: usize = 0;
                while i < self.open.len()
                    invariant
                        i <= self.open@.len(),
                        self.wf(),
                        mark_ok(start),
                        self.version == old(self).version,
                        *self == *old(self),
                        forall|j: int| 0 <= j < i ==> !((#[trigger] self.open@[j]).anchor matches Some(n) && n@ == anchor@),
                        event.kind == (EventKind::Alias { anchor }),
                    decreases self.open@.len() - i,
                {
                    match &self.open[i].anchor {
                        Some(name) => {
                            if chars_eq(name, &anchor) {
                                return Err(error_at(start, "recursive alias"));
                            }
                        },
                        None => {},
                    }
                    i = i + 1;
                }
                let range = match self.anchor(&anchor) {
                    Some(range) => range,
                    None => return Err(unknown_anchor(start, &anchor)),
                };
                let node = Node::Alias { range };
                if self.open.len() > 0 {
                    self.push_node(Node::Alias { range });
                }
                return Ok(node);
            },
            _ => {
                return Err(Error::new(ErrorKind::Unexpected, "unexpected event in document"));
            },
        };
        let is_start = match node {
            Node::Start { .. } => true,
            _ => false,
        };
        if anchor.is_some() || (capture && is_start) || self.open.len() > 0 {
            let index = self.nodes.len();
            self.push_node(copy_node(&node));
            let after = self.nodes.len();
            if is_start && (anchor.is_some() || capture) {
                let d = self.depth;
                self.open.push(OpenNode { anchor, start: index, depth: d, capture });
                assert forall|i: int| 0 <= i < self.open@.len() implies (#[trigger] self.open@[i]).start < self.nodes@.len() by {
                    if i < self.open@.len() - 1 {
                        assert(self.open@[i] == old(self).open@[i]);
                    }
                }
            } else {
                match anchor {
                    Some(name) => self.add_anchor(name, (index, after)),
                    None => {},
                }
            }
        }
        Ok(node)
    }

    /// Returns the index after the recorded node that starts at `index`.
    fn node_end(&self, index: usize) -> (r: usize)
        requires
            index < self.nodes@.len(),
        ensures
            index < r <= self.nodes@.len(),
    {
        let is_start = match self.nodes[index] {
            Node::Start { .. } => true,
            _ => false,
        };
        let n = self.nodes.len();
        if !is_start {
            return index + 1;
        }
        let mut depth: usize = 0;
        let mut i = index;
        while i < self.nodes.len()
            invariant
                index <= i <= self.nodes@.len(),
                n == self.nodes@.len(),
                index < n,
                self.nodes@[index as int] is Start,
                depth <= i - index,
                i > index ==> depth > 0,
            decreases self.nodes@.len() - i,
        {
            match self.nodes[i] {
                Node::Start { .. } => {
                    depth = depth + 1;
                },
                Node::End { .. } => {
                    if depth > 0 {
                        depth = depth - 1;
                    }
                    if depth == 0 {
                        return i + 1;
                    }
                },
                _ => {},
            }
            i = i + 1;
        }
        // unbalanced recordings do not occur, the rest is the node then
        self.nodes.len()
    }

    /// Follows a recorded alias to the range of the node it refers to.
    fn resolve_range(&self, range: (usize, usize)) -> (r: (usize, usize))
        requires
            self.wf(),
            range_ok(range, self.nodes@.len()),
        ensures
            range_ok(r, self.nodes@.len()),
            !(self.nodes@[r.0 as int] is Alias),
            r == resolved_range(self.nodes@, range),
    {
        let mut cur = range;
        loop
            invariant
                self.wf(),
                range_ok(cur, self.nodes@.len()),
                resolved_range(self.nodes@, cur) == resolved_range(self.nodes@, range),
            decreases cur.0,
        {
            match self.nodes[cur.0] {
                Node::Alias { range: target } => {
                    assert(node_ok(self.nodes@[cur.0 as int], cur.0 as int));
                    cur = target;
                },
                _ => return cur,
            }
        }
    }

    /// Returns the ranges of the items of a recorded collection.
    fn items(&self, range: (usize, usize)) -> (r: Vec<(usize, usize)>)
        requires
            self.wf(),
            range_ok(range, self.nodes@.len()),
        ensures
            forall|i: int| 0 <= i < r@.len() ==> range_ok(#[trigger] r@[i], self.nodes@.len()),
            forall|i: int| 0 <= i < r@.len() ==> (#[trigger] r@[i]).0 < r@[i].1 && r@[i].0 + 1 < range.1,
            forall|i: int| 0 <= i < r@.len() - 1 ==> (#[trigger] r@[i]).1 == r@[i + 1].0,
            r@.len() > 0 ==> r@[0].0 == range.0 + 1 && r@.last().1 + 1 >= range.1,
            r@.len() == 0 ==> range.0 + 2 >= range.1,
    {
        let mut out: Vec<(usize, usize)> = Vec::new();
        let mut index = range.0 + 1;
        while index < range.1 && index + 1 < range.1
            invariant
                range.0 < index <= self.nodes@.len(),
                range_ok(range, self.nodes@.len()),
                forall|i: int| 0 <= i < out@.len() ==> range_ok(#[trigger] out@[i], self.nodes@.len()),
                forall|i: int| 0 <= i < out@.len() ==> (#[trigger] out@[i]).0 < out@[i].1 && out@[i].0 + 1 < range.1,
                forall|i: int| 0 <= i < out@.len() - 1 ==> (#[trigger] out@[i]).1 == out@[i + 1].0,
                out@.len() > 0 ==> out@[0].0 == range.0 + 1 && out@.last().1 == index,
                out@.len() == 0 ==> index == range.0 + 1,
            decreases self.nodes@.len() - index,
        {
            let e = self.node_end(index);
            out.push((index, e));
            index = e;
        }
        out
    }
}


/// The identity of a map key for the purpose of merge keys.  Only scalar
/// keys are compared; two keys are the same if they resolve to the same
/// value (so `1` and `0x1` are the same key).
enum KeyId {
    Null,
    Bool(bool),
    /// An integer as sign and magnitude.
    Int(bool, u128),
    Float(FloatRepr),
    Str(Vec<char>),
    Bytes(Vec<u8>),
    Tagged(Vec<char>, Vec<char>),
}

fn bytes_eq(a: &[u8], b: &[u8]) -> (r: bool)
    ensures
        r == (a@ == b@),
{
    if a.len() != b.len() {
        return false;
    }
    let mut i: usize = 0;
    while i < a.len()
        invariant
            i <= a@.len(),
            a@.len() == b@.len(),
            forall|k: int| 0 <= k < i ==> a@[k] == b@[k],
        decreases a@.len() - i,
    {
        if a[i] != b[i] {
            return false;
        }
        i = i + 1;
    }
    assert(a@ =~= b@);
    true
}

/// Two float keys are the same: equal decimal literals, infinities of the
/// same sign, not-a-number, or equal integers (base 60 numbers are never
/// compared equal).
spec fn same_float(a: FloatRepr, b: FloatRepr) -> bool {
    match (a, b) {
        (FloatRepr::Decimal(x), FloatRepr::Decimal(y)) => x@ == y@,
        (FloatRepr::Infinity { negative: x }, FloatRepr::Infinity { negative: y }) => x == y,
        (FloatRepr::NaN, FloatRepr::NaN) => true,
        (FloatRepr::Int { negative: n1, magnitude: m1 }, FloatRepr::Int { negative: n2, magnitude: m2 }) => n1 == n2
            && m1 == m2,
        (
            FloatRepr::BigInt { negative: n1, radix: r1, digits: d1 },
            FloatRepr::BigInt { negative: n2, radix: r2, digits: d2 },
        ) => n1 == n2 && r1 == r2 && d1@ == d2@,
        _ => false,
    }
}

/// Two keys are the same.
spec fn same_key(a: KeyId, b: KeyId) -> bool {
    match (a, b) {
        (KeyId::Null, KeyId::Null) => true,
        (KeyId::Bool(x), KeyId::Bool(y)) => x == y,
        (KeyId::Int(n1, m1), KeyId::Int(n2, m2)) => n1 == n2 && m1 == m2,
        (KeyId::Float(x), KeyId::Float(y)) => same_float(x, y),
        (KeyId::Str(x), KeyId::Str(y)) => x@ == y@,
        (KeyId::Bytes(x), KeyId::Bytes(y)) => x@ == y@,
        (KeyId::Tagged(t1, v1), KeyId::Tagged(t2, v2)) => t1@ == t2@ && v1@ == v2@,
        _ => false,
    }
}

fn float_eq(a: &FloatRepr, b: &FloatRepr) -> (r: bool)
    ensures
        r == same_float(*a, *b),
{
    match (a, b) {
        (FloatRepr::Decimal(x), FloatRepr::Decimal(y)) => chars_eq(x, y),
        (FloatRepr::Infinity { negative: x }, FloatRepr::Infinity { negative: y }) => *x == *y,
        (FloatRepr::NaN, FloatRepr::NaN) => true,
        (FloatRepr::Int { negative: n1, magnitude: m1 }, FloatRepr::Int { negative: n2, magnitude: m2 }) => *n1 == *n2
            && *m1 == *m2,
        (
            FloatRepr::BigInt { negative: n1, radix: r1, digits: d1 },
            FloatRepr::BigInt { negative: n2, radix: r2, digits: d2 },
        ) => *n1 == *n2 && *r1 == *r2 && chars_eq(d1, d2),
        _ => false,
    }
}

fn key_id_eq(a: &KeyId, b: &KeyId) -> (r: bool)
    ensures
        r == same_key(*a, *b),
{
    match (a, b) {
        (KeyId::Null, KeyId::Null) => true,
        (KeyId::Bool(x), KeyId::Bool(y)) => *x == *y,
        (KeyId::Int(n1, m1), KeyId::Int(n2, m2)) => *n1 == *n2 && *m1 == *m2,
        (KeyId::Float(x), KeyId::Float(y)) => float_eq(x, y),
        (KeyId::Str(x), KeyId::Str(y)) => chars_eq(x, y),
        (KeyId::Bytes(x), KeyId::Bytes(y)) => bytes_eq(x, y),
        (KeyId::Tagged(t1, v1), KeyId::Tagged(t2, v2)) => chars_eq(t1, t2) && chars_eq(v1, v2),
        _ => false,
    }
}

/// Adds a key to the set, returns `false` if it was there.
fn insert_key(keys: &mut Vec<KeyId>, id: KeyId) -> (r: bool)
    ensures
        final(keys)@.len() >= old(keys)@.len(),
        r == !exists|i: int| 0 <= i < old(keys)@.len() && same_key(#[trigger] old(keys)@[i], id),
        r ==> final(keys)@ == old(keys)@.push(id),
        !r ==> final(keys)@ == old(keys)@,
{
    let mut i: usize = 0;
    while i < keys.len()
        invariant
            i <= keys@.len(),
            keys@ == old(keys)@,
            forall|j: int| 0 <= j < i ==> !same_key(#[trigger] keys@[j], id),
        decreases keys@.len() - i,
    {
        if key_id_eq(&keys[i], &id) {
            return false;
        }
        i = i + 1;
    }
    keys.push(id);
    true
}

/// The identity of a scalar key, `None` if it has none (an invalid value
/// of a standard tag or a type that is not compared).
/// The key identity of a value: its sign and magnitude for integers, the
/// value itself for the other compared types.
spec fn key_of_atom(a: Atom) -> Option<KeyId> {
    match a {
        Atom::Null => Some(KeyId::Null),
        Atom::Bool(b) => Some(KeyId::Bool(b)),
        Atom::U64(v) => Some(KeyId::Int(false, v as u128)),
        Atom::I64(v) => Some(KeyId::Int(v < 0, (if v < 0 { -v } else { v as int }) as u128)),
        Atom::U128(v) => Some(KeyId::Int(false, v)),
        Atom::I128(v) => Some(KeyId::Int(v < 0, (if v < 0 { -v } else { v as int }) as u128)),
        Atom::Float(f) => Some(KeyId::Float(f)),
        Atom::Str(s) => Some(KeyId::Str(s)),
        Atom::Bytes(b) => Some(KeyId::Bytes(b)),
        _ => None,
    }
}

/// The key is the string of the characters.
spec fn is_str_key(k: Option<KeyId>, s: Seq<char>) -> bool {
    k matches Some(KeyId::Str(v)) && v@ == s
}

fn key_id_of_scalar(tag: &Option<Vec<char>>, style: ScalarStyle, value: &Vec<char>, version: Version) -> (r: Option<KeyId>)
    ensures
        match *tag {
            None => if style != ScalarStyle::Plain || is_plain_string(value@, version) {
                is_str_key(r, value@)
            } else {
                exists|a: Atom| #[trigger] plain_result(value@, version, Some(a)) && r == key_of_atom(a)
            },
            Some(t) => match spec_classify_tag(t@) {
                ScalarTag::Str => is_str_key(r, value@),
                ScalarTag::Custom => r matches Some(KeyId::Tagged(x, y)) && x@ == t@ && y@ == value@,
                ScalarTag::Standard(name) => exists|res: Result<Atom, &'static str>|
                    #[trigger] standard_ok(name, value@, version, res) && r == match res {
                        Ok(a) => key_of_atom(a),
                        Err(_) => None,
                    },
            },
        },
{
    let atom = match tag {
        None => {
            if style == ScalarStyle::Plain {
                resolve_plain(copy_chars(value), version)
            } else {
                return Some(KeyId::Str(copy_chars(value)));
            }
        },
        Some(tag) => match classify_tag(tag) {
            ScalarTag::Str => return Some(KeyId::Str(copy_chars(value))),
            ScalarTag::Standard(name) => match resolve_standard(name, copy_chars(value), version) {
                Ok(a) => a,
                Err(m) => {
                    assert(standard_ok(name, value@, version, Err(m)));
                    return None;
                },
            },
            ScalarTag::Custom => return Some(KeyId::Tagged(copy_chars(tag), copy_chars(value))),
        },
    };
    let ghost a0 = atom;
    let r = match atom {
        Atom::Null => Some(KeyId::Null),
        Atom::Bool(b) => Some(KeyId::Bool(b)),
        Atom::U64(v) => Some(KeyId::Int(false, v as u128)),
        Atom::I64(v) => {
            let m: u128 = if v < 0 {
                if v == i64::MIN { 0x8000_0000_0000_0000u128 } else { (-v) as u128 }
            } else {
                v as u128
            };
            Some(KeyId::Int(v < 0, m))
        },
        Atom::U128(v) => Some(KeyId::Int(false, v)),
        Atom::I128(v) => {
            let m: u128 = if v < 0 {
                if v == i128::MIN { 0x8000_0000_0000_0000_0000_0000_0000_0000u128 } else { (-v) as u128 }
            } else {
                v as u128
            };
            Some(KeyId::Int(v < 0, m))
        },
        Atom::Float(f) => Some(KeyId::Float(f)),
        Atom::Str(s) => Some(KeyId::Str(s)),
        Atom::Bytes(b) => Some(KeyId::Bytes(b)),
        _ => None,
    };
    assert(r == key_of_atom(a0));
    proof {
        if tag.is_none() && style == ScalarStyle::Plain && !is_plain_string(value@, version) {
            assert(plain_result(value@, version, Some(a0)));
        }
        if tag.is_none() && style == ScalarStyle::Plain && is_plain_string(value@, version) {
            assert(is_str_key(r, value@));
        }
    }
    r
}

/// A plain `<<` without tag is a merge key.
fn is_merge_key(tag: &Option<Vec<char>>, style: ScalarStyle, value: &[char]) -> (r: bool)
    ensures
        r == (tag is None && style == ScalarStyle::Plain && value@ == "<<"@),
{
    tag.is_none() && style == ScalarStyle::Plain && crate::resolve::eq_str(value, "<<")
}


/// The event of a document that is one plain scalar: the value that the
/// text resolves to, without tag.
pub open spec fn plain_doc_event(e: DeEvent, text: Seq<char>, version: Version) -> bool {
    e.tag is None && !e.compact && plain_event_ok(e.event, text, version)
}

/// A plain scalar node without tag with the given text.
spec fn plain_scalar_node(n: Node, text: Seq<char>) -> bool {
    n matches Node::Scalar { tag, style, value, .. } && tag is None && style == ScalarStyle::Plain && value@ == text
}

/// A plain scalar without anchor and tag with the given text.
pub open spec fn plain_scalar_kind(k: EventKind, text: Seq<char>) -> bool {
    k matches EventKind::Scalar { props, style, value } && props.anchor is None && props.tag is None && style
        == ScalarStyle::Plain && value@ == text
}

/// Receives the events of documents.
pub trait EventSink {
    /// Whether the sink keeps every event it is given (in `kept`).
    open spec fn keeps_events(&self) -> bool {
        false
    }

    /// The events the sink kept.
    open spec fn kept(&self) -> Seq<DeEvent> {
        Seq::empty()
    }

    /// Receives the next event.  An error ends the document.
    fn event(&mut self, event: DeEvent) -> (r: Result<(), Error>)
        ensures
            old(self).keeps_events() ==> r is Ok && final(self).keeps_events() && final(self).kept() == old(
                self,
            ).kept().push(event),
    ;
}

/// Collects events.
pub struct EventLog {
    pub events: Vec<DeEvent>,
}

impl EventSink for EventLog {
    open spec fn keeps_events(&self) -> bool {
        true
    }

    open spec fn kept(&self) -> Seq<DeEvent> {
        self.events@
    }

    fn event(&mut self, event: DeEvent) -> (r: Result<(), Error>)
        ensures
            r is Ok,
            final(self).events@ == old(self).events@.push(event),
    {
        self.events.push(event);
        Ok(())
    }
}

/// Accepts and discards every event.
pub struct Ignore;

impl EventSink for Ignore {
    fn event(&mut self, event: DeEvent) -> (r: Result<(), Error>)
        ensures
            r is Ok,
    {
        Ok(())
    }
}

/// Gives an error without position the position of a node.
fn located(err: Error, mark: Mark) -> (r: Error)
    requires
        mark_ok(mark),
    ensures
        r.kind == err.kind,
        r.message@ == err.message@,
        err.position is Some ==> r.position == err.position,
        err.position is None ==> r.position == Some((mark.offset, (mark.line + 1) as usize, (mark.column + 1) as usize)),
{
    let mut err = err;
    if err.position.is_none() {
        err.position = Some((mark.offset, mark.line + 1, mark.column + 1));
    }
    err
}

/// The bound of the steps of a loop over parser events.
pub const MAX_STEPS: usize = usize::MAX;

/// Something that is emitted before the next event from the parser.
enum Pend {
    /// A range of recorded nodes (for aliases and merged entries).
    Range(usize, usize),
    /// The end of a mapping that is emitted after its merged entries.
    End { is_map: bool, start: Mark, end: usize },
}

spec fn pend_ok(p: Pend, len: nat) -> bool {
    match p {
        Pend::Range(s, e) => s <= e <= len,
        Pend::End { start, .. } => mark_ok(start),
    }
}

/// An open collection while merge keys are tracked.
struct MergeFrame {
    is_map: bool,
    /// For maps: the next node is a key.
    expect_key: bool,
    /// The keys that were emitted so far.
    keys: Vec<KeyId>,
    /// The ranges of the merge key values.
    sources: Vec<(usize, usize)>,
}

spec fn frame_ok(f: MergeFrame, len: nat) -> bool {
    forall|i: int| 0 <= i < f.sources@.len() ==> range_ok(#[trigger] f.sources@[i], len)
}

/// Reads the documents of a YAML stream.
///
/// Every call to [`next_document`](Self::next_document) reads the next
/// document.  Aliases (`*name`) are expanded: the events of the anchored
/// node are replayed, limited by [`DeserializerConfig::alias_limit`].
pub struct Deserializer {
    parser: Parser,
    peeked: Option<Event>,
    started: bool,
    /// The parser returned the end of the stream.
    at_end: bool,
    /// An error that is reported by the next call.
    pending_error: Option<Error>,
    /// The parser failed, no further documents can be read.
    failed: bool,
    config: DeserializerConfig,
    /// Merge keys are enabled and the input contains `<<`.
    track_merges: bool,
    doc: Document,
}

fn contains_merge_marker(s: &[char]) -> (r: bool)
    ensures
        r == crate::quote::contains_pair(s@, '<', '<'),
{
    let mut i: usize = 0;
    while i < s.len() && i + 1 < s.len()
        invariant
            i <= s@.len(),
            forall|k: int| 0 <= k < i && k < s@.len() - 1 ==> !(#[trigger] s@[k] == '<' && s@[k + 1] == '<'),
        decreases s@.len() - i,
    {
        if s[i] == '<' && s[i + 1] == '<' {
            return true;
        }
        i = i + 1;
    }
    false
}

impl Deserializer {
    /// The internal invariant.
    pub closed spec fn wf(&self) -> bool {
        &&& self.parser.wf()
        &&& !self.at_end ==> !self.parser.is_done()
        &&& self.doc.wf()
        &&& self.peeked matches Some(e) ==> event_ok(e)
    }

    /// The configuration.
    pub closed spec fn spec_config(&self) -> DeserializerConfig {
        self.config
    }

    /// The error that the next read reports before reading anything.
    pub closed spec fn pending(&self) -> Option<Error> {
        self.pending_error
    }

    /// No further documents can be read.
    pub closed spec fn is_failed(&self) -> bool {
        self.failed
    }

    /// The reading state is that of `other`: the stream was started, no
    /// event is peeked, the end was not reached and nothing failed.
    spec fn plain_state_kept(&self, other: Deserializer) -> bool {
        &&& self.started && other.started
        &&& self.peeked is None && other.peeked is None
        &&& !self.at_end && !other.at_end
        &&& self.failed == other.failed
        &&& self.pending_error == other.pending_error
        &&& self.config == other.config
        &&& self.track_merges == other.track_merges
    }

    /// Nothing was read yet and the input is a document of one plain scalar.
    pub closed spec fn plain_input(&self) -> bool {
        &&& !self.started && self.peeked is None && !self.at_end && self.pending_error is None && !self.failed
        &&& self.parser.plain_doc_at_start()
    }

    /// The text of the plain scalar of the input.
    pub closed spec fn plain_input_text(&self) -> Seq<char> {
        self.parser.text_ahead()
    }

    /// A document of one plain scalar is next (its start was read ahead).
    pub closed spec fn plain_doc_next(&self) -> bool {
        &&& self.started && !self.at_end && !self.failed && self.pending_error is None
        &&& self.peeked matches Some(e) && e.kind == EventKind::DocumentStart { explicit: false, version: None }
        &&& self.parser.plain_node_ahead()
    }

    /// The text of the plain scalar of the next document.
    pub closed spec fn plain_doc_text(&self) -> Seq<char> {
        self.parser.node_text()
    }

    /// A document was read and only the end of the stream is left.
    pub closed spec fn plain_doc_done(&self) -> bool {
        &&& self.started && !self.at_end && !self.failed && self.pending_error is None && self.peeked is None
        &&& self.parser.stream_end_ahead()
    }

    /// Nothing was read yet and the input holds blanks, line breaks and
    /// comments only.
    pub closed spec fn blank_input(&self) -> bool {
        &&& !self.started
        &&& self.peeked is None
        &&& !self.at_end
        &&& self.pending_error is None
        &&& !self.failed
        &&& self.parser.blank_at_start()
    }

    /// Creates a deserializer for a string.
    pub fn from_str(input: &str) -> (d: Deserializer)
        ensures
            d.wf(),
            d.spec_config() == default_de_config(),
            input@.len() > MAX_INPUT_CHARS ==> d.is_failed() && (d.pending() matches Some(e) && too_large_error(e)),
            input@.len() <= MAX_INPUT_CHARS && quiet_from(input@, 0) ==> d.blank_input(),
            input@.len() <= MAX_INPUT_CHARS && plain_document_at(input@, 0) ==> d.plain_input() && d.plain_input_text()
                == plain_text(input@, 0),
    {
        Deserializer::from_str_with_config(input, &DeserializerConfig::new())
    }

    /// Creates a deserializer for a string with the given configuration.
    pub fn from_str_with_config(input: &str, config: &DeserializerConfig) -> (d: Deserializer)
        ensures
            d.wf(),
            d.spec_config() == *config,
            input@.len() > MAX_INPUT_CHARS ==> d.is_failed() && (d.pending() matches Some(e) && too_large_error(e)),
            input@.len() <= MAX_INPUT_CHARS && quiet_from(input@, 0) ==> d.blank_input(),
            input@.len() <= MAX_INPUT_CHARS && plain_document_at(input@, 0) ==> d.plain_input() && d.plain_input_text()
                == plain_text(input@, 0),
    {
        let chars = str_chars(input);
        if chars.len() > MAX_INPUT_CHARS {
            return Deserializer::failed_with(
                config,
                Error::new(ErrorKind::Unexpected, "input too large"),
            );
        }
        let track_merges = config.merge_keys && contains_merge_marker(&chars);
        Deserializer {
            parser: Parser::new(input),
            peeked: None,
            started: false,
            at_end: false,
            pending_error: None,
            failed: false,
            config: *config,
            track_merges,
            doc: Document::new(config.version),
        }
    }

    /// A deserializer that reports an error.
    fn failed_with(config: &DeserializerConfig, error: Error) -> (d: Deserializer)
        ensures
            d.wf(),
            d.spec_config() == *config,
            d.is_failed(),
            d.pending() == Some(error),
    {
        proof {
            reveal_strlit("");
        }
        Deserializer {
            parser: Parser::new(""),
            peeked: None,
            started: false,
            at_end: false,
            pending_error: Some(error),
            failed: true,
            config: *config,
            track_merges: false,
            doc: Document::new(config.version),
        }
    }

    /// Creates a deserializer for a byte slice.  The input must be UTF-8,
    /// otherwise reading fails.
    pub fn from_slice(input: &[u8]) -> (d: Deserializer)
        ensures
            d.wf(),
            d.spec_config() == default_de_config(),
            !vstd::utf8::valid_utf8(input@) ==> d.is_failed() && (d.pending() matches Some(e) && invalid_utf8_error(
                input@,
                e,
            )),
            vstd::utf8::valid_utf8(input@) && vstd::utf8::decode_utf8(input@).len() <= MAX_INPUT_CHARS && quiet_from(
                vstd::utf8::decode_utf8(input@),
                0,
            ) ==> d.blank_input(),
    {
        Deserializer::from_slice_with_config(input, &DeserializerConfig::new())
    }

    /// Creates a deserializer for a byte slice with the given
    /// configuration.  The input must be UTF-8, otherwise reading fails.
    pub fn from_slice_with_config(input: &[u8], config: &DeserializerConfig) -> (d: Deserializer)
        ensures
            d.wf(),
            d.spec_config() == *config,
            !vstd::utf8::valid_utf8(input@) ==> d.is_failed() && (d.pending() matches Some(e) && invalid_utf8_error(
                input@,
                e,
            )),
            vstd::utf8::valid_utf8(input@) && vstd::utf8::decode_utf8(input@).len() <= MAX_INPUT_CHARS && quiet_from(
                vstd::utf8::decode_utf8(input@),
                0,
            ) ==> d.blank_input(),
            vstd::utf8::valid_utf8(input@) && vstd::utf8::decode_utf8(input@).len() <= MAX_INPUT_CHARS && plain_document_at(
                vstd::utf8::decode_utf8(input@),
                0,
            ) ==> d.plain_input() && d.plain_input_text() == plain_text(vstd::utf8::decode_utf8(input@), 0),
    {
        if crate::text::is_valid_utf8(input) {
            let chars = crate::text::decode_valid_utf8(input);
            let s = crate::text::chars_to_string(&chars);
            Deserializer::from_str_with_config(s.as_str(), config)
        } else {
            let valid = crate::text::utf8_valid_up_to(input);
            Deserializer::failed_with(config, Error::new(ErrorKind::Unexpected, "invalid UTF-8").with_offset(valid))
        }
    }

    /// Returns the configuration.
    pub fn config(&self) -> (c: &DeserializerConfig)
        ensures
            *c == self.spec_config(),
    {
        &self.config
    }

    fn parser_event(&mut self) -> (r: Result<Event, Error>)
        requires
            old(self).wf(),
        ensures
            final(self).wf(),
            final(self).config == old(self).config,
            final(self).doc == old(self).doc,
            final(self).track_merges == old(self).track_merges,
            r matches Ok(e) ==> event_ok(e),
            final(self).peeked == old(self).peeked,
            final(self).started == old(self).started,
            final(self).pending_error == old(self).pending_error,
            !old(self).at_end && old(self).parser.blank_at_start() ==> (r matches Ok(e) && e.kind is StreamStart)
                && final(self).parser.blank_after_start() && !final(self).at_end,
            !old(self).at_end && old(self).parser.blank_after_start() ==> (r matches Ok(e) && e.kind is StreamEnd),
            old(self).at_end ==> (r matches Ok(e) && e.kind is StreamEnd) && final(self).at_end,
            !old(self).at_end && old(self).parser.plain_doc_at_start() ==> (r matches Ok(e) && e.kind is StreamStart)
                && final(self).parser.plain_doc_ahead() && final(self).parser.text_ahead() == old(self).parser.text_ahead()
                && !final(self).at_end,
            !old(self).at_end && old(self).parser.plain_doc_ahead() ==> (r matches Ok(e) && e.kind == EventKind::DocumentStart {
                explicit: false,
                version: None,
            }) && final(self).parser.plain_node_ahead() && final(self).parser.node_text() == old(self).parser.text_ahead()
                && !final(self).at_end,
            !old(self).at_end && old(self).parser.plain_node_ahead() ==> (r matches Ok(e) && plain_scalar_kind(
                e.kind,
                old(self).parser.node_text(),
            )) && final(self).parser.doc_end_ahead() && !final(self).at_end,
            !old(self).at_end && old(self).parser.doc_end_ahead() ==> (r matches Ok(e) && e.kind == EventKind::DocumentEnd {
                explicit: false,
            }) && final(self).parser.stream_end_ahead() && !final(self).at_end,
            !old(self).at_end && old(self).parser.stream_end_ahead() ==> (r matches Ok(e) && e.kind is StreamEnd)
                && final(self).at_end,
            r is Ok ==> final(self).failed == old(self).failed,
    {
        if self.at_end {
            let m = Mark { offset: 0, line: 0, column: 0 };
            return Ok(Event { kind: EventKind::StreamEnd, start: m, end: m });
        }
        let r = self.parser.next_event();
        match r {
            Ok(event) => {
                if matches!(event.kind, EventKind::StreamEnd) {
                    self.at_end = true;
                }
                Ok(event)
            },
            Err(e) => {
                self.failed = true;
                Err(e)
            },
        }
    }

    fn next_event(&mut self) -> (r: Result<Event, Error>)
        requires
            old(self).wf(),
        ensures
            final(self).wf(),
            final(self).config == old(self).config,
            final(self).doc == old(self).doc,
            final(self).track_merges == old(self).track_merges,
            r matches Ok(e) ==> event_ok(e),
            final(self).pending_error == old(self).pending_error,
            !old(self).started && old(self).peeked is None && !old(self).at_end && old(self).parser.blank_at_start()
                ==> (r matches Ok(e) && e.kind is StreamEnd),
            old(self).started && old(self).peeked is Some ==> r == Ok::<Event, Error>(old(self).peeked->0)
                && final(self).peeked is None && final(self).at_end == old(self).at_end
                && final(self).parser == old(self).parser,
            old(self).started && old(self).peeked is None && old(self).at_end ==> (r matches Ok(e) && e.kind is StreamEnd)
                && final(self).peeked is None && final(self).at_end,
            final(self).started,
            r is Ok ==> final(self).failed == old(self).failed,
            old(self).peeked is None ==> final(self).peeked is None,
            !old(self).started && old(self).peeked is None && !old(self).at_end && old(self).parser.plain_doc_at_start()
                ==> (r matches Ok(e) && e.kind == EventKind::DocumentStart { explicit: false, version: None })
                && final(self).parser.plain_node_ahead() && final(self).parser.node_text() == old(self).parser.text_ahead()
                && !final(self).at_end,
            old(self).started && old(self).peeked is None && !old(self).at_end && old(self).parser.plain_node_ahead()
                ==> (r matches Ok(e) && plain_scalar_kind(e.kind, old(self).parser.node_text()))
                && final(self).parser.doc_end_ahead() && !final(self).at_end,
            old(self).started && old(self).peeked is None && !old(self).at_end && old(self).parser.doc_end_ahead()
                ==> (r matches Ok(e) && e.kind == EventKind::DocumentEnd { explicit: false })
                && final(self).parser.stream_end_ahead() && !final(self).at_end,
            old(self).started && old(self).peeked is None && !old(self).at_end && old(self).parser.stream_end_ahead()
                ==> (r matches Ok(e) && e.kind is StreamEnd) && final(self).at_end,
    {
        if !self.started {
            self.started = true;
            match self.parser_event() {
                Ok(_) => {},
                Err(e) => return Err(e),
            }
        }
        match self.peeked.take() {
            Some(event) => Ok(event),
            None => self.parser_event(),
        }
    }

    /// Returns `true` if there are no more documents.  If the input is
    /// malformed this returns `false` and the next call of
    /// [`next_document`](Self::next_document) reports the error.
    pub fn is_end(&mut self) -> (r: bool)
        requires
            old(self).wf(),
        ensures
            final(self).wf(),
            final(self).spec_config() == old(self).spec_config(),
            old(self).is_failed() ==> final(self).is_failed() && final(self).pending() == old(self).pending() && r
                == (old(self).pending() is None),
            old(self).blank_input() ==> r,
            old(self).plain_doc_done() ==> r,
            old(self).plain_input() ==> !r && final(self).plain_doc_next() && final(self).plain_doc_text() == old(
                self,
            ).plain_input_text(),
    {
        if self.failed {
            return self.pending_error.is_none();
        }
        let event = match self.next_event() {
            Ok(event) => event,
            Err(e) => {
                self.pending_error = Some(e);
                return false;
            },
        };
        let end = matches!(event.kind, EventKind::StreamEnd);
        self.peeked = Some(event);
        end
    }

    /// Fails if there are more documents.
    pub fn end(&mut self) -> (r: Result<(), Error>)
        requires
            old(self).wf(),
        ensures
            final(self).wf(),
            final(self).spec_config() == old(self).spec_config(),
            old(self).is_failed() ==> final(self).is_failed() && match old(self).pending() {
                Some(e) => r == Err::<(), Error>(e),
                None => r is Ok,
            },
            old(self).plain_doc_done() ==> r is Ok,
    {
        if self.is_end() {
            Ok(())
        } else {
            match self.pending_error.take() {
                Some(e) => Err(e),
                None => Err(Error::new(ErrorKind::Unexpected, "expected a single document, found more")),
            }
        }
    }

    fn skip_document(&mut self) -> (r: Result<(), Error>)
        requires
            old(self).wf(),
        ensures
            final(self).wf(),
            final(self).config == old(self).config,
            old(self).started && (old(self).peeked matches Some(e) && (e.kind is DocumentEnd || e.kind is StreamEnd))
                ==> r is Ok,
            old(self).started && old(self).peeked is None && old(self).at_end ==> r is Ok && (final(self).peeked matches Some(
                e,
            ) && e.kind is StreamEnd),
    {
        let mut steps: usize = 0;
        while steps < MAX_STEPS
            invariant
                self.wf(),
                self.config == old(self).config,
                steps == 0 ==> *self == *old(self),
                old(self).started && ((old(self).peeked matches Some(e) && (e.kind is DocumentEnd || e.kind is StreamEnd))
                    || (old(self).peeked is None && old(self).at_end)) ==> steps == 0,
            decreases MAX_STEPS - steps,
        {
            let event = match self.next_event() {
                Ok(event) => event,
                Err(e) => return Err(e),
            };
            match event.kind {
                EventKind::DocumentEnd { .. } => return Ok(()),
                EventKind::StreamEnd => {
                    self.peeked = Some(event);
                    return Ok(());
                },
                _ => {},
            }
            steps = steps + 1;
        }
        Err(Error::new(ErrorKind::Unexpected, "too many events"))
    }
}


spec fn pending_ok(pending: Seq<Pend>, len: nat) -> bool {
    forall|i: int| 0 <= i < pending.len() ==> pend_ok(#[trigger] pending[i], len)
}

spec fn frames_ok(frames: Seq<MergeFrame>, len: nat) -> bool {
    forall|i: int| 0 <= i < frames.len() ==> frame_ok(#[trigger] frames[i], len)
}

proof fn lemma_grow(pending: Seq<Pend>, frames: Seq<MergeFrame>, a: nat, b: nat)
    requires
        a <= b,
        pending_ok(pending, a),
        frames_ok(frames, a),
    ensures
        pending_ok(pending, b),
        frames_ok(frames, b),
{
    assert forall|i: int| 0 <= i < pending.len() implies pend_ok(#[trigger] pending[i], b) by {
        assert(pend_ok(pending[i], a));
    }
    assert forall|i: int| 0 <= i < frames.len() implies frame_ok(#[trigger] frames[i], b) by {
        assert(frame_ok(frames[i], a));
        assert forall|k: int| 0 <= k < frames[i].sources@.len() implies range_ok(#[trigger] frames[i].sources@[k], b) by {
            assert(range_ok(frames[i].sources@[k], a));
        }
    }
}

/// The error when aliases expand to too many events.
fn alias_limit_error() -> (e: Error)
    ensures
        e.kind == ErrorKind::Unexpected,
        e.message@ == "aliases expand to too many events"@,
{
    Error::new(ErrorKind::Unexpected, "aliases expand to too many events")
}

impl Deserializer {
    fn count_replayed(&self, replayed: &mut usize, count: usize) -> (r: Result<(), Error>)
        ensures
            r is Ok <==> old(replayed) + count <= self.config.alias_limit,
            r is Ok ==> *final(replayed) == *old(replayed) + count,
            r is Err ==> *final(replayed) == *old(replayed),
    {
        if count > self.config.alias_limit || *replayed > self.config.alias_limit - count {
            return Err(alias_limit_error());
        }
        *replayed = *replayed + count;
        Ok(())
    }

    /// Returns the next node and its index if it was recorded.  Returns
    /// `None` at the end of the document.
    fn next_node(&mut self, pending: &mut Vec<Pend>, replayed: &mut usize, capture: bool) -> (r: Result<Option<(Node, Option<usize>)>, Error>)
        requires
            old(self).wf(),
            pending_ok(old(pending)@, old(self).doc.nodes@.len()),
        ensures
            final(self).wf(),
            final(self).config == old(self).config,
            final(self).track_merges == old(self).track_merges,
            final(self).doc.nodes@.len() >= old(self).doc.nodes@.len(),
            pending_ok(final(pending)@, final(self).doc.nodes@.len()),
            *final(replayed) >= *old(replayed),
            final(self).doc.version == old(self).doc.version,
            r matches Ok(Some((n, idx))) ==> node_ok(n, final(self).doc.nodes@.len() as int) && (idx matches Some(
                i,
            ) ==> i < final(self).doc.nodes@.len()),
            old(pending)@.len() > 0 && old(pending)@.last() is End ==> r == Ok::<Option<(Node, Option<usize>)>, Error>(
                Some(
                    (
                        Node::End {
                            is_map: old(pending)@.last()->End_is_map,
                            start: old(pending)@.last()->End_start,
                            end: old(pending)@.last()->End_end,
                        },
                        None,
                    ),
                ),
            ) && final(pending)@ == old(pending)@.drop_last(),
            old(pending)@.len() > 0 && old(pending)@.last() is Range && old(pending)@.last()->Range_0 < old(
                pending,
            )@.last()->Range_1 ==> (r matches Ok(x) ==> (x matches Some((n, i)) && i == Some(
                old(pending)@.last()->Range_0,
            ))),
            old(pending)@.len() == 0 && old(self).started && (old(self).peeked matches Some(e)
                && e.kind is DocumentEnd) ==> r == Ok::<Option<(Node, Option<usize>)>, Error>(None),
            old(pending)@.len() == 0 && old(self).started && old(self).peeked is None && !old(self).at_end
                && old(self).parser.plain_node_ahead() ==> (r matches Ok(Some((n, _))) && plain_scalar_node(
                n,
                old(self).parser.node_text(),
            )) && final(self).parser.doc_end_ahead() && final(self).plain_state_kept(*old(self))
                && final(pending)@.len() == 0,
            old(pending)@.len() == 0 && old(self).started && old(self).peeked is None && !old(self).at_end
                && old(self).parser.doc_end_ahead() ==> r == Ok::<Option<(Node, Option<usize>)>, Error>(None)
                && final(self).parser.stream_end_ahead() && final(self).plain_state_kept(*old(self)),
    {
        let ghost mut iters: int = 0;
        loop
            invariant
                self.wf(),
                self.config == old(self).config,
                self.track_merges == old(self).track_merges,
                self.doc == old(self).doc,
                pending_ok(pending@, self.doc.nodes@.len()),
                *replayed >= *old(replayed),
                iters >= 0,
                iters == 0 ==> pending@ == old(pending)@ && self.started == old(self).started && self.peeked
                    == old(self).peeked,
                (old(pending)@.len() > 0 && (old(pending)@.last() is End || (old(pending)@.last() is Range && old(
                    pending,
                )@.last()->Range_0 < old(pending)@.last()->Range_1))) || old(pending)@.len() == 0 ==> iters == 0,
                iters == 0 ==> self.at_end == old(self).at_end && self.failed == old(self).failed
                    && self.pending_error == old(self).pending_error && self.parser == old(self).parser,
            decreases pending@.len(),
        {
            let n = pending.len();
            if n == 0 {
                let event = match self.next_event() {
                    Ok(e) => e,
                    Err(e) => return Err(e),
                };
                if matches!(event.kind, EventKind::DocumentEnd { .. }) {
                    return Ok(None);
                }
                let ghost len0 = self.doc.nodes@.len();
                let r = self.doc.record(event, capture);
                proof {
                    assert(pending@.len() == 0);
                    assert(pending_ok(pending@, self.doc.nodes@.len()));
                }
                return match r {
                    Ok(node) => Ok(Some((node, None))),
                    Err(e) => Err(e),
                };
            }
            let ghost before = pending@;
            let last = pending.pop().unwrap();
            match last {
                Pend::Range(start, end) => {
                    assert(pend_ok(Pend::Range(start, end), self.doc.nodes@.len()));
                    if start == end {
                        assert(pending_ok(pending@, self.doc.nodes@.len()));
                        proof {
                            iters = iters + 1;
                        }
                        continue;
                    }
                    pending.push(Pend::Range(start + 1, end));
                    assert(pending_ok(pending@, self.doc.nodes@.len())) by {
                        assert forall|i: int| 0 <= i < pending@.len() implies pend_ok(#[trigger] pending@[i], self.doc.nodes@.len()) by {
                            if i < pending@.len() - 1 {
                                assert(pending@[i] == before[i]);
                            }
                        }
                    }
                    match self.count_replayed(replayed, 1) {
                        Ok(()) => {},
                        Err(e) => return Err(e),
                    }
                    let node = copy_node(&self.doc.nodes[start]);
                    assert(node_ok(self.doc.nodes@[start as int], start as int));
                    proof {
                        match node {
                            Node::Alias { range } => {},
                            _ => {},
                        }
                    }
                    return Ok(Some((node, Some(start))));
                },
                Pend::End { is_map, start, end } => {
                    assert(pending_ok(pending@, self.doc.nodes@.len()));
                    return Ok(Some((Node::End { is_map, start, end }, None)));
                },
            }
        }
    }
}


impl Deserializer {
    /// Consumes the value of a merge key and returns the range of its
    /// recorded nodes.
    fn merge_source(&mut self, node: Node, index: Option<usize>, pending: &mut Vec<Pend>) -> (r: Result<(usize, usize), Error>)
        requires
            old(self).wf(),
            node_ok(node, old(self).doc.nodes@.len() as int),
            index matches Some(i) ==> i < old(self).doc.nodes@.len(),
            pending_ok(old(pending)@, old(self).doc.nodes@.len()),
        ensures
            final(self).wf(),
            final(self).config == old(self).config,
            final(self).track_merges == old(self).track_merges,
            final(self).doc.nodes@.len() >= old(self).doc.nodes@.len(),
            pending_ok(final(pending)@, final(self).doc.nodes@.len()),
            r matches Ok(range) ==> range_ok(range, final(self).doc.nodes@.len()),
            node matches Node::Alias { range } ==> r == Ok::<(usize, usize), Error>(range),
            node is Start && index is Some ==> (r matches Ok(range) && range.0 == index->0 && range.0 < range.1),
            node is Scalar || node is End ==> (r matches Err(e) && e.kind == ErrorKind::Unexpected && e.message@
                == "the value of a merge key must be a mapping or a sequence of mappings"@),
    {
        match node {
            Node::Alias { range } => Ok(range),
            Node::Start { .. } => match index {
                Some(i) => {
                    let end = self.doc.node_end(i);
                    let n = pending.len();
                    if n > 0 {
                        let ghost before = pending@;
                        match pending.pop().unwrap() {
                            Pend::Range(s, e) => {
                                assert(pend_ok(before[n - 1], self.doc.nodes@.len()));
                                let s2 = if end > e { e } else if end > s { end } else { s };
                                pending.push(Pend::Range(s2, e));
                            },
                            other => pending.push(other),
                        }
                        assert(pending_ok(pending@, self.doc.nodes@.len())) by {
                            assert forall|k: int| 0 <= k < pending@.len() implies pend_ok(#[trigger] pending@[k], self.doc.nodes@.len()) by {
                                if k < pending@.len() - 1 {
                                    assert(pending@[k] == before[k]);
                                }
                            }
                        }
                    }
                    Ok((i, end))
                },
                None => {
                    let mut steps: usize = 0;
                    while steps < MAX_STEPS
                        invariant
                            self.wf(),
                            self.config == old(self).config,
                            self.track_merges == old(self).track_merges,
                            self.doc.nodes@.len() >= old(self).doc.nodes@.len(),
                            pending_ok(pending@, self.doc.nodes@.len()),
                            node is Start && index is None,
                        decreases MAX_STEPS - steps,
                    {
                        match self.doc.captured {
                            Some(range) => {
                                self.doc.captured = None;
                                return Ok(range);
                            },
                            None => {},
                        }
                        let event = match self.next_event() {
                            Ok(e) => e,
                            Err(e) => return Err(e),
                        };
                        let ghost len0 = self.doc.nodes@.len();
                        match self.doc.record(event, false) {
                            Ok(_) => {},
                            Err(e) => {
                                proof {
                                    lemma_grow(pending@, Seq::empty(), len0, self.doc.nodes@.len());
                                }
                                return Err(e);
                            },
                        }
                        proof {
                            lemma_grow(pending@, Seq::empty(), len0, self.doc.nodes@.len());
                        }
                        steps = steps + 1;
                    }
                    Err(Error::new(ErrorKind::Unexpected, "too many events"))
                },
            },
            Node::Scalar { start, .. } => Err(
                error_at(start, "the value of a merge key must be a mapping or a sequence of mappings"),
            ),
            Node::End { start, .. } => Err(
                error_at(start, "the value of a merge key must be a mapping or a sequence of mappings"),
            ),
        }
    }

    /// Adds the mappings of merge key values to the stack (in reverse order,
    /// so that the first mapping is processed first).
    fn push_merge_sources(&self, sources: &[(usize, usize)], stack: &mut Vec<(usize, usize)>)
        requires
            self.wf(),
            forall|i: int| 0 <= i < sources@.len() ==> range_ok(#[trigger] sources@[i], self.doc.nodes@.len()),
            forall|i: int| 0 <= i < old(stack)@.len() ==> range_ok(#[trigger] old(stack)@[i], self.doc.nodes@.len()),
        ensures
            forall|i: int| 0 <= i < final(stack)@.len() ==> range_ok(#[trigger] final(stack)@[i], self.doc.nodes@.len()),
            final(stack)@.len() >= old(stack)@.len(),
            final(stack)@.take(old(stack)@.len() as int) == old(stack)@,
            sources@.len() == 0 ==> final(stack)@ == old(stack)@,
            (forall|i: int| 0 <= i < sources@.len() ==> !starts_sequence(self.doc.nodes@, resolved_range(self.doc.nodes@, #[trigger] sources@[i])))
                ==> final(stack)@ == old(stack)@ + stacked_sources(self.doc.nodes@, sources@, 0),
            forall|i: int| 0 <= i < sources@.len() && !starts_sequence(self.doc.nodes@, resolved_range(self.doc.nodes@, #[trigger] sources@[i]))
                ==> exists|j: int| old(stack)@.len() <= j < final(stack)@.len() && final(stack)@[j] == resolved_range(self.doc.nodes@, sources@[i]),
            sources@.len() > 0 && !starts_sequence(self.doc.nodes@, resolved_range(self.doc.nodes@, sources@[0]))
                ==> final(stack)@.len() > 0 && final(stack)@.last() == resolved_range(self.doc.nodes@, sources@[0]),
    {
        let ghost plain = forall|i: int| 0 <= i < sources@.len() ==> !starts_sequence(self.doc.nodes@, resolved_range(self.doc.nodes@, #[trigger] sources@[i]));
        let mut k = sources.len();
        while k > 0
            invariant
                k <= sources@.len(),
                self.wf(),
                forall|i: int| 0 <= i < sources@.len() ==> range_ok(#[trigger] sources@[i], self.doc.nodes@.len()),
                forall|i: int| 0 <= i < stack@.len() ==> range_ok(#[trigger] stack@[i], self.doc.nodes@.len()),
                stack@.len() >= old(stack)@.len(),
                stack@.take(old(stack)@.len() as int) == old(stack)@,
                k == sources@.len() ==> stack@ == old(stack)@,
                plain == forall|i: int| 0 <= i < sources@.len() ==> !starts_sequence(self.doc.nodes@, resolved_range(self.doc.nodes@, #[trigger] sources@[i])),
                plain ==> stack@ == old(stack)@ + stacked_sources(self.doc.nodes@, sources@, k as int),
                forall|i: int| k <= i < sources@.len() && !starts_sequence(self.doc.nodes@, resolved_range(self.doc.nodes@, #[trigger] sources@[i]))
                    ==> exists|j: int| old(stack)@.len() <= j < stack@.len() && stack@[j] == resolved_range(self.doc.nodes@, sources@[i]),
                k < sources@.len() && !starts_sequence(self.doc.nodes@, resolved_range(self.doc.nodes@, sources@[k as int]))
                    ==> stack@.len() > 0 && stack@.last() == resolved_range(self.doc.nodes@, sources@[k as int]),
            decreases k,
        {
            k = k - 1;
            let ghost stack_before = stack@;
            let source = self.doc.resolve_range(sources[k]);
            let is_seq = match self.doc.nodes[source.0] {
                Node::Start { is_map, .. } => !is_map,
                _ => false,
            };
            if is_seq {
                let items = self.doc.items(source);
                let mut j = items.len();
                while j > 0
                    invariant
                        j <= items@.len(),
                        self.wf(),
                        forall|i: int| 0 <= i < items@.len() ==> range_ok(#[trigger] items@[i], self.doc.nodes@.len()),
                        forall|i: int| 0 <= i < stack@.len() ==> range_ok(#[trigger] stack@[i], self.doc.nodes@.len()),
                        stack@.len() >= old(stack)@.len(),
                        stack@.take(old(stack)@.len() as int) == old(stack)@,
                        stack@.len() >= stack_before.len(),
                        stack@.take(stack_before.len() as int) == stack_before,
                    decreases j,
                {
                    j = j - 1;
                    let item = self.doc.resolve_range(items[j]);
                    let ghost pre = stack@;
                    stack.push(item);
                    assert(stack@.take(old(stack)@.len() as int) =~= pre.take(old(stack)@.len() as int));
                    assert(stack@.take(stack_before.len() as int) =~= pre.take(stack_before.len() as int));
                }
                proof {
                    assert(!plain) by {
                        assert(starts_sequence(self.doc.nodes@, resolved_range(self.doc.nodes@, sources@[k as int])));
                    }
                }
            } else {
                let ghost pre = stack@;
                stack.push(source);
                assert(stack@.take(old(stack)@.len() as int) =~= pre.take(old(stack)@.len() as int));
                assert(stack@.take(stack_before.len() as int) =~= stack_before);
                proof {
                    if plain {
                        assert(stack@ =~= old(stack)@ + stacked_sources(self.doc.nodes@, sources@, k as int));
                    }
                }
            }
            proof {
                assert forall|i: int| k <= i < sources@.len() && !starts_sequence(self.doc.nodes@, resolved_range(self.doc.nodes@, #[trigger] sources@[i]))
                    implies exists|j: int| old(stack)@.len() <= j < stack@.len() && stack@[j] == resolved_range(self.doc.nodes@, sources@[i]) by {
                    if i == k {
                        assert(stack@[stack_before.len() as int] == resolved_range(self.doc.nodes@, sources@[i]));
                    } else {
                        let j = choose|j: int| old(stack)@.len() <= j < stack_before.len() && stack_before[j] == resolved_range(self.doc.nodes@, sources@[i]);
                        assert(stack@.take(stack_before.len() as int)[j] == stack_before[j]);
                        assert(stack@[j] == stack_before[j]);
                    }
                }
            }
        }
    }

    /// Returns the entries (key and value ranges) that the merge keys of a
    /// map add.  `keys` holds the keys the map already has, the merged keys
    /// are added.  Earlier sources take precedence over later ones, the
    /// merge keys of the sources are applied recursively.
    fn merged_entries(&self, sources: &[(usize, usize)], keys: &mut Vec<KeyId>, replayed: &mut usize) -> (r: Result<Vec<((usize, usize), (usize, usize))>, Error>)
        requires
            self.wf(),
            forall|i: int| 0 <= i < sources@.len() ==> range_ok(#[trigger] sources@[i], self.doc.nodes@.len()),
        ensures
            r matches Ok(entries) ==> forall|i: int| 0 <= i < entries@.len() ==> range_ok(#[trigger] entries@[i].0, self.doc.nodes@.len())
                && range_ok(entries@[i].1, self.doc.nodes@.len()),
            *final(replayed) >= *old(replayed),
            sources@.len() == 0 ==> (r matches Ok(entries) && entries@.len() == 0) && final(keys)@ == old(keys)@
                && *final(replayed) == *old(replayed),
            sources@.len() > 0 && self.doc.nodes@[resolved_range(self.doc.nodes@, sources@[0]).0 as int] is Scalar ==> r is Err,
    {
        let mut entries: Vec<((usize, usize), (usize, usize))> = Vec::new();
        let mut stack: Vec<(usize, usize)> = Vec::new();
        self.push_merge_sources(sources, &mut stack);
        let ghost no_sources = sources@.len() == 0;
        let ghost scalar_first = sources@.len() > 0 && self.doc.nodes@[resolved_range(self.doc.nodes@, sources@[0]).0 as int] is Scalar;
        while stack.len() > 0
            invariant
                no_sources == (sources@.len() == 0),
                no_sources ==> stack@.len() == 0,
                no_sources ==> entries@.len() == 0 && keys@ == old(keys)@ && *replayed == *old(replayed),
                scalar_first == (sources@.len() > 0 && self.doc.nodes@[resolved_range(self.doc.nodes@, sources@[0]).0 as int] is Scalar),
                scalar_first ==> stack@.len() > 0 && stack@.last() == resolved_range(self.doc.nodes@, sources@[0]),
                self.wf(),
                *replayed >= *old(replayed),
                *replayed <= self.config.alias_limit || *replayed == *old(replayed),
                forall|i: int| 0 <= i < stack@.len() ==> range_ok(#[trigger] stack@[i], self.doc.nodes@.len()),
                forall|i: int| 0 <= i < entries@.len() ==> range_ok(#[trigger] entries@[i].0, self.doc.nodes@.len())
                    && range_ok(entries@[i].1, self.doc.nodes@.len()),
            decreases self.config.alias_limit + 1 - *replayed, stack@.len(),
        {
            let range = stack.pop().unwrap();
            assert(range_ok(range, self.doc.nodes@.len()));
            match self.doc.nodes[range.0] {
                Node::Start { is_map: true, .. } => {},
                Node::Start { start, .. } => {
                    assert(node_ok(self.doc.nodes@[range.0 as int], range.0 as int));
                    return Err(error_at(start, "merge keys can only merge mappings or sequences of mappings"));
                },
                Node::Scalar { start, .. } => {
                    assert(node_ok(self.doc.nodes@[range.0 as int], range.0 as int));
                    return Err(error_at(start, "merge keys can only merge mappings or sequences of mappings"));
                },
                _ => {
                    return Err(Error::new(ErrorKind::Unexpected, "invalid merge source"));
                },
            }
            let ghost before = *replayed;
            match self.count_replayed(replayed, range.1 - range.0) {
                Ok(()) => {},
                Err(e) => return Err(e),
            }
            let mut nested: Vec<(usize, usize)> = Vec::new();
            let items = self.doc.items(range);
            let mut k: usize = 0;
            while k < items.len() && k + 1 < items.len()
                invariant
                    self.wf(),
                    k <= items@.len(),
                    forall|i: int| 0 <= i < items@.len() ==> range_ok(#[trigger] items@[i], self.doc.nodes@.len()),
                    forall|i: int| 0 <= i < nested@.len() ==> range_ok(#[trigger] nested@[i], self.doc.nodes@.len()),
                    forall|i: int| 0 <= i < entries@.len() ==> range_ok(#[trigger] entries@[i].0, self.doc.nodes@.len())
                        && range_ok(entries@[i].1, self.doc.nodes@.len()),
                decreases items@.len() - k,
            {
                let key = items[k];
                let value = items[k + 1];
                k = k + 2;
                let kr = self.doc.resolve_range(key);
                let mut skip = false;
                match &self.doc.nodes[kr.0] {
                    Node::Scalar { tag, style, value: key_value, .. } => {
                        if is_merge_key(tag, *style, key_value) {
                            nested.push(value);
                            skip = true;
                        } else {
                            match key_id_of_scalar(tag, *style, key_value, self.doc.version) {
                                Some(id) => {
                                    if !insert_key(keys, id) {
                                        // the map (or an earlier source) has the key
                                        skip = true;
                                    }
                                },
                                None => {},
                            }
                        }
                    },
                    _ => {},
                }
                if !skip {
                    entries.push((key, value));
                }
            }
            self.push_merge_sources(&nested, &mut stack);
        }
        Ok(entries)
    }
}


/// The event of a scalar: resolved by tag or content.
/// The data event of a plain scalar without tag: its string where the text
/// is read as string, else what the text resolves to.
pub open spec fn plain_event_ok(ev: DataEvent, s: Seq<char>, version: Version) -> bool {
    match ev {
        DataEvent::Atom(a) => (is_plain_string(s, version) ==> (a matches Atom::Str(t) && t@ == s)) && (
        !is_plain_string(s, version) ==> plain_result(s, version, Some(a))),
        _ => false,
    }
}

/// The result for a scalar with a standard tag: the value the tag gives the
/// text, or the error message it gives.
spec fn standard_event_ok(r: Result<DeEvent, Error>, name: crate::resolve::StandardTag, s: Seq<char>, version: Version) -> bool {
    match r {
        Ok(e) => e.tag is None && match e.event {
            DataEvent::Atom(a) => standard_ok(name, s, version, Ok(a)),
            _ => false,
        },
        Err(err) => err.kind == ErrorKind::Unexpected && exists|m: &'static str|
            #[trigger] standard_ok(name, s, version, Err(m)) && err.message@ == m@,
    }
}

fn scalar_event(tag: Option<Vec<char>>, style: ScalarStyle, value: Vec<char>, version: Version, start: Mark, end: usize) -> (r: Result<DeEvent, Error>)
    requires
        mark_ok(start),
    ensures
        r matches Ok(e) ==> e.start == start.offset && e.end == end && !e.compact,
        match tag {
            None => if style != ScalarStyle::Plain {
                r matches Ok(e) && e.tag is None && e.event == DataEvent::Atom(Atom::Str(value))
            } else {
                r matches Ok(e) && e.tag is None && plain_event_ok(e.event, value@, version)
            },
            Some(t) => match spec_classify_tag(t@) {
                ScalarTag::Str => r matches Ok(e) && e.tag is None && e.event == DataEvent::Atom(Atom::Str(value)),
                ScalarTag::Custom => r matches Ok(e) && e.tag == Some(t) && e.event == DataEvent::Atom(Atom::Str(value)),
                ScalarTag::Standard(name) => standard_event_ok(r, name, value@, version),
            },
        },
{
    let (atom, tag) = match tag {
        None => {
            if style == ScalarStyle::Plain {
                (resolve_plain(value, version), None)
            } else {
                (Atom::Str(value), None)
            }
        },
        Some(tag) => match classify_tag(&tag) {
            ScalarTag::Str => (Atom::Str(value), None),
            ScalarTag::Standard(name) => match resolve_standard(name, value, version) {
                Ok(atom) => (atom, None),
                Err(msg) => {
                    assert(standard_ok(name, value@, version, Err(msg)));
                    return Err(error_at(start, msg));
                },
            },
            ScalarTag::Custom => (Atom::Str(value), Some(tag)),
        },
    };
    Ok(DeEvent { event: DataEvent::Atom(atom), tag, start: start.offset, end, compact: false })
}

impl Deserializer {
    /// Feeds the events of the rest of the document into the sink.
    fn drive_document<S: EventSink>(&mut self, sink: &mut S) -> (r: Result<(), Error>)
        requires
            old(self).wf(),
        ensures
            final(self).wf(),
            final(self).config == old(self).config,
            old(self).started && (old(self).peeked matches Some(e) && e.kind is DocumentEnd) ==> r is Ok,
            old(self).started && old(self).peeked is None && !old(self).at_end && old(self).parser.plain_node_ahead()
                && old(sink).keeps_events() ==> r is Ok && final(self).parser.stream_end_ahead()
                && final(self).plain_state_kept(*old(self)) && final(sink).keeps_events() && exists|e: DeEvent|
                final(sink).kept() == old(sink).kept().push(e) && #[trigger] plain_doc_event(
                    e,
                    old(self).parser.node_text(),
                    old(self).doc.version,
                ),
    {
        let ghost ends_now = old(self).started && (old(self).peeked matches Some(e) && e.kind is DocumentEnd);
        let ghost plain0 = old(self).started && old(self).peeked is None && !old(self).at_end
            && old(self).parser.plain_node_ahead() && old(sink).keeps_events();
        let ghost text0 = old(self).parser.node_text();
        let ghost mut ev: DeEvent = arbitrary();
        let mut pending: Vec<Pend> = Vec::new();
        let mut replayed: usize = 0;
        let track_merges = self.track_merges;
        let mut frames: Vec<MergeFrame> = Vec::new();
        let mut merge_value_follows = false;
        let mut depth: usize = 0;
        let mut steps: usize = 0;
        while steps < MAX_STEPS
            invariant
                self.wf(),
                self.config == old(self).config,
                self.track_merges == track_merges,
                pending_ok(pending@, self.doc.nodes@.len()),
                frames_ok(frames@, self.doc.nodes@.len()),
                ends_now == (old(self).started && (old(self).peeked matches Some(e) && e.kind is DocumentEnd)),
                ends_now ==> steps == 0 && pending@.len() == 0 && self.started == old(self).started
                    && self.peeked == old(self).peeked,
                plain0 == (old(self).started && old(self).peeked is None && !old(self).at_end
                    && old(self).parser.plain_node_ahead() && old(sink).keeps_events()),
                text0 == old(self).parser.node_text(),
                plain0 ==> pending@.len() == 0 && frames@.len() == 0 && !merge_value_follows
                    && self.doc.version == old(self).doc.version && sink.keeps_events(),
                plain0 && steps == 0 ==> *self == *old(self) && *sink == *old(sink),
                plain0 && steps > 0 ==> steps == 1 && self.parser.doc_end_ahead() && self.plain_state_kept(*old(self))
                    && sink.kept() == old(sink).kept().push(ev) && plain_doc_event(ev, text0, old(self).doc.version),
            decreases MAX_STEPS - steps,
        {
            steps = steps + 1;
            let ghost len0 = self.doc.nodes@.len();
            let (node, index) = match self.next_node(&mut pending, &mut replayed, merge_value_follows) {
                Ok(Some(x)) => x,
                Ok(None) => return Ok(()),
                Err(e) => return Err(e),
            };
            proof {
                lemma_grow(Seq::empty(), frames@, len0, self.doc.nodes@.len());
            }
            if merge_value_follows {
                merge_value_follows = false;
                let ghost len1 = self.doc.nodes@.len();
                let range = match self.merge_source(node, index, &mut pending) {
                    Ok(r) => r,
                    Err(e) => return Err(e),
                };
                proof {
                    lemma_grow(Seq::empty(), frames@, len1, self.doc.nodes@.len());
                }
                let n = frames.len();
                if n > 0 {
                    let ghost fs = frames@;
                    let mut frame = frames.pop().unwrap();
                    assert(frame_ok(fs[n - 1], self.doc.nodes@.len()));
                    frame.sources.push(range);
                    frame.expect_key = true;
                    frames.push(frame);
                    assert(frames_ok(frames@, self.doc.nodes@.len())) by {
                        assert forall|i: int| 0 <= i < frames@.len() implies frame_ok(#[trigger] frames@[i], self.doc.nodes@.len()) by {
                            if i < frames@.len() - 1 {
                                assert(frames@[i] == fs[i]);
                            }
                        }
                    }
                }
                continue;
            }
            let n = frames.len();
            if track_merges && n > 0 && frames[n - 1].is_map {
                let ghost fs = frames@;
                let mut frame = frames.pop().unwrap();
                let mut merge_key = false;
                if frame.expect_key {
                    match &node {
                        Node::Scalar { tag, style, value, .. } => {
                            if is_merge_key(tag, *style, value) {
                                frame.expect_key = false;
                                merge_key = true;
                            } else {
                                match key_id_of_scalar(tag, *style, value, self.doc.version) {
                                    Some(id) => {
                                        insert_key(&mut frame.keys, id);
                                    },
                                    None => {},
                                }
                            }
                        },
                        _ => {},
                    }
                }
                if !merge_key {
                    // aliases are replayed, their nodes are counted
                    let counted = match node {
                        Node::Alias { .. } | Node::End { .. } => false,
                        _ => true,
                    };
                    if counted {
                        frame.expect_key = !frame.expect_key;
                    }
                }
                frames.push(frame);
                assert(frames_ok(frames@, self.doc.nodes@.len())) by {
                    assert forall|i: int| 0 <= i < frames@.len() implies frame_ok(#[trigger] frames@[i], self.doc.nodes@.len()) by {
                        if i < frames@.len() - 1 {
                            assert(frames@[i] == fs[i]);
                        } else {
                            assert(frame_ok(fs[n - 1], self.doc.nodes@.len()));
                        }
                    }
                }
                if merge_key {
                    merge_value_follows = true;
                    continue;
                }
            }
            match node {
                Node::Scalar { tag, style, value, start, end } => {
                    let version = self.doc.version;
                    match scalar_event(tag, style, value, version, start, end) {
                        Ok(e) => {
                            let ghost ge = e;
                            match sink.event(e) {
                                Ok(()) => {},
                                Err(err) => return Err(located(err, start)),
                            }
                            proof {
                                ev = ge;
                            }
                        },
                        Err(e) => return Err(e),
                    }
                },
                Node::Start { tag, is_map, flow, start, end } => {
                    match self.config.max_depth {
                        Some(max) => {
                            if depth >= max {
                                return Err(error_at(start, "recursion limit exceeded"));
                            }
                        },
                        None => {},
                    }
                    if track_merges {
                        let ghost fs = frames@;
                        frames.push(MergeFrame { is_map, expect_key: true, keys: Vec::new(), sources: Vec::new() });
                        assert(frames_ok(frames@, self.doc.nodes@.len())) by {
                            assert forall|i: int| 0 <= i < frames@.len() implies frame_ok(#[trigger] frames@[i], self.doc.nodes@.len()) by {
                                if i < frames@.len() - 1 {
                                    assert(frames@[i] == fs[i]);
                                }
                            }
                        }
                    }
                    let event = if is_map { DataEvent::MapStart } else { DataEvent::SeqStart };
                    let tag = match tag {
                        Some(tag) => match is_collection_tag(&tag, is_map) {
                            Ok(true) => None,
                            Ok(false) => Some(tag),
                            Err(msg) => return Err(error_at(start, msg)),
                        },
                        None => None,
                    };
                    match sink.event(DeEvent { event, tag, start: start.offset, end, compact: flow }) {
                        Ok(()) => {},
                        Err(err) => return Err(located(err, start)),
                    }
                    depth = depth.saturating_add(1);
                },
                Node::End { is_map, start, end } => {
                    let n = frames.len();
                    if track_merges && n > 0 {
                        if frames[n - 1].sources.len() > 0 {
                            // emit the merged entries before the end of the
                            // map, the end is emitted again afterwards
                            let ghost fs = frames@;
                            let mut frame = frames.pop().unwrap();
                            assert(frame_ok(fs[n - 1], self.doc.nodes@.len()));
                            let sources = frame.sources;
                            frame.sources = Vec::new();
                            let merged = self.merged_entries(&sources, &mut frame.keys, &mut replayed);
                            let entries = match merged {
                                Ok(e) => e,
                                Err(e) => return Err(e),
                            };
                            assert(forall|i: int| 0 <= i < entries@.len() ==> range_ok(#[trigger] entries@[i].0, self.doc.nodes@.len())
                                && range_ok(entries@[i].1, self.doc.nodes@.len()));
                            frames.push(frame);
                            assert(frames_ok(frames@, self.doc.nodes@.len())) by {
                                assert forall|i: int| 0 <= i < frames@.len() implies frame_ok(#[trigger] frames@[i], self.doc.nodes@.len()) by {
                                    if i < frames@.len() - 1 {
                                        assert(frames@[i] == fs[i]);
                                    }
                                }
                            }
                            assert(node_ok(Node::End { is_map, start, end }, 0));
                            let ghost p0 = pending@;
                            pending.push(Pend::End { is_map, start, end });
                            let mut k = entries.len();
                            while k > 0
                                invariant
                                    k <= entries@.len(),
                                    forall|i: int| 0 <= i < entries@.len() ==> range_ok(#[trigger] entries@[i].0, self.doc.nodes@.len())
                                        && range_ok(entries@[i].1, self.doc.nodes@.len()),
                                    pending_ok(pending@, self.doc.nodes@.len()),
                                decreases k,
                            {
                                k = k - 1;
                                let (key, value) = entries[k];
                                let ghost p1 = pending@;
                                pending.push(Pend::Range(value.0, value.1));
                                pending.push(Pend::Range(key.0, key.1));
                                assert(pending_ok(pending@, self.doc.nodes@.len())) by {
                                    assert forall|i: int| 0 <= i < pending@.len() implies pend_ok(#[trigger] pending@[i], self.doc.nodes@.len()) by {
                                        if i < p1.len() {
                                            assert(pending@[i] == p1[i]);
                                        }
                                    }
                                }
                            }
                            continue;
                        }
                        frames.pop();
                    }
                    let event = if is_map { DataEvent::MapEnd } else { DataEvent::SeqEnd };
                    match sink.event(DeEvent { event, tag: None, start: start.offset, end, compact: false }) {
                        Ok(()) => {},
                        Err(err) => return Err(located(err, start)),
                    }
                    if depth > 0 {
                        depth = depth - 1;
                    }
                },
                Node::Alias { range } => {
                    let ghost p0 = pending@;
                    pending.push(Pend::Range(range.0, range.1));
                    assert(pending_ok(pending@, self.doc.nodes@.len())) by {
                        assert forall|i: int| 0 <= i < pending@.len() implies pend_ok(#[trigger] pending@[i], self.doc.nodes@.len()) by {
                            if i < p0.len() {
                                assert(pending@[i] == p0[i]);
                            }
                        }
                    }
                },
            }
        }
        Err(Error::new(ErrorKind::Unexpected, "too many events"))
    }
}


/// The version a document declares (`%YAML 1.1` and older read as 1.1),
/// the configured one if it declares none.
pub open spec fn document_version(declared: Option<(u32, u32)>, default: Version) -> Version {
    match declared {
        Some((major, minor)) => if major == 1 && minor < 2 {
            Version::V1_1
        } else {
            Version::V1_2
        },
        None => default,
    }
}

impl Deserializer {
    /// Reads the events of the next document.
    ///
    /// Fails with [`ErrorKind::EndOfFile`] if there are no more documents.
    /// If a document fails (for instance with an invalid value), the rest
    /// of the document is skipped and the next call continues with the next
    /// document.  Syntax errors end the stream.
    pub fn next_document(&mut self) -> (r: Result<Vec<DeEvent>, Error>)
        requires
            old(self).wf(),
        ensures
            final(self).wf(),
            final(self).spec_config() == old(self).spec_config(),
            old(self).pending() matches Some(e) ==> r == Err::<Vec<DeEvent>, Error>(e),
            old(self).is_failed() ==> r is Err && final(self).is_failed(),
            old(self).plain_doc_next() ==> (r matches Ok(v) && v@.len() == 1 && plain_doc_event(
                v@[0],
                old(self).plain_doc_text(),
                old(self).spec_config().version,
            )) && final(self).plain_doc_done(),
    {
        let mut log = EventLog { events: Vec::new() };
        let ghost plain = old(self).plain_doc_next();
        let res = self.drive(&mut log);
        proof {
            if plain {
                let e = choose|e: DeEvent| log.kept() == Seq::<DeEvent>::empty().push(e) && #[trigger] plain_doc_event(
                    e,
                    old(self).plain_doc_text(),
                    old(self).spec_config().version,
                );
                assert(log.events@ =~= seq![e]);
            }
        }
        match res {
            Ok(()) => Ok(log.events),
            Err(e) => Err(e),
        }
    }

    /// Reads the next document and feeds its events into the sink.
    ///
    /// Fails with [`ErrorKind::EndOfFile`] if there are no more documents.
    /// If the document fails (an invalid value, or the sink fails), the
    /// rest of the document is skipped and the next call continues with the
    /// next document.  Syntax errors end the stream.  Errors of the sink
    /// without position get the position of the event.
    pub fn drive<S: EventSink>(&mut self, sink: &mut S) -> (r: Result<(), Error>)
        requires
            old(self).wf(),
        ensures
            final(self).wf(),
            final(self).spec_config() == old(self).spec_config(),
            old(self).pending() matches Some(e) ==> r == Err::<(), Error>(e),
            old(self).is_failed() ==> r is Err && final(self).is_failed(),
            old(self).plain_doc_next() && old(sink).keeps_events() ==> r is Ok && final(self).plain_doc_done()
                && final(sink).keeps_events() && exists|e: DeEvent| final(sink).kept() == old(sink).kept().push(e)
                && #[trigger] plain_doc_event(e, old(self).plain_doc_text(), old(self).spec_config().version),
    {
        match self.pending_error.take() {
            Some(e) => return Err(e),
            None => {},
        }
        if self.failed {
            return Err(Error::new(ErrorKind::Unexpected, "cannot continue after a syntax error"));
        }
        let event = match self.next_event() {
            Ok(e) => e,
            Err(e) => return Err(e),
        };
        let version = match event.kind {
            EventKind::DocumentStart { version, .. } => match version {
                Some((major, minor)) => {
                    if major == 1 && minor < 2 {
                        Version::V1_1
                    } else {
                        Version::V1_2
                    }
                },
                None => self.config.version,
            },
            EventKind::StreamEnd => {
                // stay at the end of the stream
                self.peeked = Some(event);
                return Err(Error::new(ErrorKind::EndOfFile, "no more documents"));
            },
            _ => {
                return Err(Error::new(ErrorKind::Unexpected, "expected the start of a document"));
            },
        };
        self.doc = Document::new(version);
        let ghost plain = old(self).plain_doc_next() && old(sink).keeps_events();
        let rv = self.drive_document(sink);
        proof {
            if plain {
                let e = choose|e: DeEvent| sink.kept() == old(sink).kept().push(e) && #[trigger] plain_doc_event(
                    e,
                    old(self).parser.node_text(),
                    old(self).config.version,
                );
                assert(plain_doc_event(e, old(self).plain_doc_text(), old(self).spec_config().version));
            }
        }
        if rv.is_err() && !self.failed {
            // skip the rest of the document so that the next one can be read
            match self.skip_document() {
                Ok(()) => {},
                Err(e) => {
                    self.pending_error = Some(e);
                },
            }
        }
        rv
    }
}

/// The events that an empty stream reads as: a single untagged null.
pub open spec fn null_document(v: Seq<DeEvent>) -> bool {
    &&& v.len() == 1
    &&& v[0].event == DataEvent::Atom(Atom::Null)
    &&& v[0].tag is None
    &&& v[0].start == 0 && v[0].end == 0
    &&& !v[0].compact
}

/// The events of a stream that holds at most one document: the document,
/// or a null for an empty stream.
fn single_document(de: &mut Deserializer) -> (r: Result<Vec<DeEvent>, Error>)
    requires
        old(de).wf(),
    ensures
        old(de).is_failed() && old(de).pending() is Some ==> r == Err::<Vec<DeEvent>, Error>(old(de).pending().unwrap()),
        old(de).blank_input() ==> (r matches Ok(v) && null_document(v@)),
        old(de).plain_input() ==> (r matches Ok(v) && v@.len() == 1 && plain_doc_event(
            v@[0],
            old(de).plain_input_text(),
            old(de).spec_config().version,
        )),
{
    if de.is_end() {
        let mut out: Vec<DeEvent> = Vec::new();
        out.push(DeEvent { event: DataEvent::Atom(Atom::Null), tag: None, start: 0, end: 0, compact: false });
        return Ok(out);
    }
    let rv = match de.next_document() {
        Ok(events) => events,
        Err(e) => return Err(e),
    };
    match de.end() {
        Ok(()) => Ok(rv),
        Err(e) => Err(e),
    }
}

impl DeserializerConfig {
    /// Reads the events of the only document of the input (a null for an
    /// empty stream).
    pub fn from_str(&self, s: &str) -> (r: Result<Vec<DeEvent>, Error>)
        ensures
            s@.len() > MAX_INPUT_CHARS ==> (r matches Err(e) && too_large_error(e)),
            s@.len() <= MAX_INPUT_CHARS && quiet_from(s@, 0) ==> (r matches Ok(v) && null_document(v@)),
            s@.len() <= MAX_INPUT_CHARS && plain_document_at(s@, 0) ==> (r matches Ok(v) && v@.len() == 1
                && plain_doc_event(v@[0], plain_text(s@, 0), self.version)),
    {
        let mut de = Deserializer::from_str_with_config(s, self);
        single_document(&mut de)
    }

    /// Reads the events of the only document of UTF-8 input.  Input that
    /// is not UTF-8 fails at the end of its longest valid prefix.
    pub fn from_slice(&self, bytes: &[u8]) -> (r: Result<Vec<DeEvent>, Error>)
        ensures
            !vstd::utf8::valid_utf8(bytes@) ==> (r matches Err(e) && invalid_utf8_error(bytes@, e)),
            vstd::utf8::valid_utf8(bytes@) && vstd::utf8::decode_utf8(bytes@).len() <= MAX_INPUT_CHARS && quiet_from(
                vstd::utf8::decode_utf8(bytes@),
                0,
            ) ==> (r matches Ok(v) && null_document(v@)),
            vstd::utf8::valid_utf8(bytes@) && vstd::utf8::decode_utf8(bytes@).len() <= MAX_INPUT_CHARS && plain_document_at(
                vstd::utf8::decode_utf8(bytes@),
                0,
            ) ==> (r matches Ok(v) && v@.len() == 1 && plain_doc_event(
                v@[0],
                plain_text(vstd::utf8::decode_utf8(bytes@), 0),
                self.version,
            )),
    {
        let mut de = Deserializer::from_slice_with_config(bytes, self);
        single_document(&mut de)
    }
}

/// Reads the events of the only document of the input with the default
/// configuration (a null for an empty stream).
pub fn from_str(s: &str) -> (r: Result<Vec<DeEvent>, Error>)
    ensures
        s@.len() > MAX_INPUT_CHARS ==> (r matches Err(e) && too_large_error(e)),
        s@.len() <= MAX_INPUT_CHARS && quiet_from(s@, 0) ==> (r matches Ok(v) && null_document(v@)),
        s@.len() <= MAX_INPUT_CHARS && plain_document_at(s@, 0) ==> (r matches Ok(v) && v@.len() == 1 && plain_doc_event(
            v@[0],
            plain_text(s@, 0),
            Version::V1_2,
        )),
{
    DeserializerConfig::new().from_str(s)
}

/// Reads the events of the only document of UTF-8 input with the default
/// configuration.
pub fn from_slice(bytes: &[u8]) -> (r: Result<Vec<DeEvent>, Error>)
    ensures
        !vstd::utf8::valid_utf8(bytes@) ==> (r matches Err(e) && invalid_utf8_error(bytes@, e)),
        vstd::utf8::valid_utf8(bytes@) && vstd::utf8::decode_utf8(bytes@).len() <= MAX_INPUT_CHARS && quiet_from(
            vstd::utf8::decode_utf8(bytes@),
            0,
        ) ==> (r matches Ok(v) && null_document(v@)),
        vstd::utf8::valid_utf8(bytes@) && vstd::utf8::decode_utf8(bytes@).len() <= MAX_INPUT_CHARS && plain_document_at(
            vstd::utf8::decode_utf8(bytes@),
            0,
        ) ==> (r matches Ok(v) && v@.len() == 1 && plain_doc_event(
            v@[0],
            plain_text(vstd::utf8::decode_utf8(bytes@), 0),
            Version::V1_2,
        )),
{
    DeserializerConfig::new().from_slice(bytes)
}

} // verus!
