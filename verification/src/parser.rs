//! The YAML parser: turns tokens into events.
use vstd::prelude::*;

use crate::error::{Error, ErrorKind};
use crate::event::{no_props, Event, EventKind, Mark, Props, ScalarStyle};
use crate::scanner::{starts_at_origin, 
    mark_ok, plain_document_at, plain_text, quiet_from, token_ok, Scanner, Token, TokenKind, TokenType, MAX_INPUT_CHARS,
};
use crate::text::{chars_eq, copy_chars, push_chars};

verus! {

/// The message of a syntax error.
pub open spec fn syntax_message(msg: Seq<char>) -> Seq<char> {
    "syntax error: "@ + msg
}

/// Creates an error for a problem at a position that is not a syntax
/// error (for instance an invalid value).
pub fn error_at(mark: Mark, msg: &str) -> (e: Error)
    requires
        mark.line < usize::MAX,
        mark.column < usize::MAX,
    ensures
        e.kind == ErrorKind::Unexpected,
        e.message@ == msg@,
        e.position == Some((mark.offset, (mark.line + 1) as usize, (mark.column + 1) as usize)),
{
    Error {
        kind: ErrorKind::Unexpected,
        message: String::from_str(msg),
        position: Some((mark.offset, mark.line + 1, mark.column + 1)),
        offset: None,
    }
}

/// Creates an error for a syntax error at a position.
pub fn syntax_error(mark: Mark, msg: &str) -> (e: Error)
    requires
        mark.line < usize::MAX,
        mark.column < usize::MAX,
    ensures
        e.kind == ErrorKind::Unexpected,
        e.message@ == syntax_message(msg@),
        e.position == Some((mark.offset, (mark.line + 1) as usize, (mark.column + 1) as usize)),
{
    let mut message = String::from_str("syntax error: ");
    message.append(msg);
    proof {
        reveal_strlit("syntax error: ");
    }
    Error {
        kind: ErrorKind::Unexpected,
        message,
        position: Some((mark.offset, mark.line + 1, mark.column + 1)),
        offset: None,
    }
}


#[derive(Debug, Clone, Copy, PartialEq, Eq, Structural)]
enum State {
    StreamStart,
    ImplicitDocumentStart,
    DocumentStart,
    DocumentContent,
    DocumentEnd,
    BlockNode,
    BlockSequenceFirstEntry,
    BlockSequenceEntry,
    IndentlessSequenceEntry,
    BlockMappingFirstKey,
    BlockMappingKey,
    BlockMappingValue,
    FlowSequenceFirstEntry,
    FlowSequenceEntry,
    FlowSequenceEntryMappingKey,
    FlowSequenceEntryMappingValue,
    FlowSequenceEntryMappingEnd,
    FlowMappingFirstKey,
    FlowMappingKey,
    FlowMappingValue,
    FlowMappingEmptyValue,
    End,
}

/// States between the start and the end of a document: the parser returns
/// to them by popping the state stack.
spec fn in_document(s: State) -> bool {
    !(s is StreamStart || s is ImplicitDocumentStart || s is DocumentStart || s is DocumentEnd
        || s is End)
}

/// States that are only pushed for nodes inside collections.
spec fn in_collection(s: State) -> bool {
    in_document(s) && !(s is DocumentContent || s is BlockNode)
}

/// An open sequence.
pub open spec fn open_seq() -> int {
    0
}

/// An open mapping with an even number of nodes so far: a key is next.
pub open spec fn open_map_key() -> int {
    1
}

/// An open mapping with an odd number of nodes so far: a value is next.
pub open spec fn open_map_value() -> int {
    2
}

/// The collections that a state stands for while it waits, outermost
/// first: the entry of a flow sequence that is a single pair stands for
/// the sequence and the pair's mapping.
spec fn state_kinds(s: State) -> Seq<int> {
    match s {
        State::BlockSequenceFirstEntry | State::BlockSequenceEntry | State::IndentlessSequenceEntry
        | State::FlowSequenceFirstEntry | State::FlowSequenceEntry => seq![open_seq()],
        State::BlockMappingFirstKey | State::BlockMappingKey | State::FlowMappingFirstKey
        | State::FlowMappingKey => seq![open_map_key()],
        State::BlockMappingValue | State::FlowMappingValue | State::FlowMappingEmptyValue => seq![open_map_value()],
        State::FlowSequenceEntryMappingKey | State::FlowSequenceEntryMappingEnd => seq![open_seq(), open_map_key()],
        State::FlowSequenceEntryMappingValue => seq![open_seq(), open_map_value()],
        _ => Seq::empty(),
    }
}

/// The collections of a sequence of states.
spec fn states_kinds(ss: Seq<State>) -> Seq<int>
    decreases ss.len(),
{
    if ss.len() == 0 {
        Seq::empty()
    } else {
        states_kinds(ss.drop_last()) + state_kinds(ss.last())
    }
}

/// The collections of a state stack (its first state is where the document
/// ends).
spec fn stack_kinds(ss: Seq<State>) -> Seq<int> {
    if ss.len() >= 1 {
        states_kinds(ss.subrange(1, ss.len() as int))
    } else {
        Seq::empty()
    }
}

proof fn lemma_stack_push(ss: Seq<State>, x: State)
    requires
        ss.len() >= 1,
    ensures
        stack_kinds(ss.push(x)) == stack_kinds(ss) + state_kinds(x),
{
    let t = ss.push(x).subrange(1, ss.len() + 1int);
    assert(t.drop_last() =~= ss.subrange(1, ss.len() as int));
    assert(t.last() == x);
}

proof fn lemma_stack_pop(ss: Seq<State>)
    requires
        ss.len() >= 1,
        ss.len() == 1 ==> state_kinds(ss.last()) == Seq::<int>::empty(),
    ensures
        stack_kinds(ss) == stack_kinds(ss.drop_last()) + state_kinds(ss.last()),
{
    if ss.len() == 1 {
        assert(ss.subrange(1, 1) =~= Seq::<State>::empty());
        assert(Seq::<int>::empty() + Seq::<int>::empty() =~= Seq::<int>::empty());
    } else {
        let t = ss.subrange(1, ss.len() as int);
        assert(t.drop_last() =~= ss.drop_last().subrange(1, ss.len() - 1));
        assert(t.last() == ss.last());
    }
}

/// The open collections after a node was started in the innermost one: a
/// mapping that expected a key now expects a value and the other way
/// round.
pub open spec fn node_counted(a: Seq<int>) -> Seq<int> {
    if a.len() > 0 && a.last() == open_map_key() {
        a.update(a.len() - 1, open_map_value())
    } else if a.len() > 0 && a.last() == open_map_value() {
        a.update(a.len() - 1, open_map_key())
    } else {
        a
    }
}

/// How a node event changes the open collections when the node was
/// already counted in the collection around it.
spec fn node_step(a: Seq<int>, b: Seq<int>, k: EventKind) -> bool {
    match k {
        EventKind::SequenceStart { .. } => b =~= a.push(open_seq()),
        EventKind::MappingStart { .. } => b =~= a.push(open_map_key()),
        EventKind::Scalar { .. } | EventKind::Alias { .. } => b =~= a,
        _ => false,
    }
}

/// How an event changes the open collections: a start counts as a node
/// of the collection around it and opens one, an end closes the innermost
/// collection, which must be of its kind (and a mapping must hold keys and
/// values in pairs), a scalar or an alias counts as a node, and the stream
/// and document events come only when no collection is open.
pub open spec fn kinds_step(a: Seq<int>, b: Seq<int>, k: EventKind) -> bool {
    match k {
        EventKind::SequenceStart { .. } => b =~= node_counted(a).push(open_seq()),
        EventKind::MappingStart { .. } => b =~= node_counted(a).push(open_map_key()),
        EventKind::SequenceEnd => a.len() > 0 && a.last() == open_seq() && b =~= a.drop_last(),
        EventKind::MappingEnd => a.len() > 0 && a.last() == open_map_key() && b =~= a.drop_last(),
        EventKind::Scalar { .. } | EventKind::Alias { .. } => b =~= node_counted(a),
        _ => a.len() == 0 && b.len() == 0,
    }
}

/// Where the parser stands in the stream: `0` outside a document, `1` in a
/// document before its root node, `2` inside the root node, `3` after the
/// root node.
pub open spec fn phase_after_node(open: Seq<int>) -> int {
    if open.len() == 0 {
        3
    } else {
        2
    }
}

/// How an event moves the parser through the documents of the stream: the
/// stream events come outside documents, a document starts before its root
/// node and ends after it, and every node, start and end is part of the
/// root node.
pub open spec fn phase_step(a: int, b: int, b_open: Seq<int>, k: EventKind) -> bool {
    match k {
        EventKind::StreamStart | EventKind::StreamEnd => a == 0 && b == 0,
        EventKind::DocumentStart { .. } => a == 0 && b == 1,
        EventKind::DocumentEnd { .. } => a == 3 && b == 0,
        EventKind::SequenceEnd | EventKind::MappingEnd => a == 2 && b == phase_after_node(b_open),
        _ => (a == 1 || a == 2) && b == phase_after_node(b_open),
    }
}

/// Events whose marks can be reported.
pub open spec fn event_ok(e: Event) -> bool {
    mark_ok(e.start) && mark_ok(e.end)
}

pub struct Parser {
    scanner: Scanner,
    state: State,
    states: Vec<State>,
    /// The tag handles of the current document.
    tag_handles: Vec<(Vec<char>, Vec<char>)>,
    /// The end of the last event.  Block collections end there.
    last_end: Mark,
}

impl Parser {
    /// The invariant: the state stack always holds the state to return to.
    pub closed spec fn wf(&self) -> bool {
        &&& self.scanner.wf()
        &&& mark_ok(self.last_end)
        &&& in_document(self.state) ==> self.states.len() >= 1
        &&& (self.state is BlockNode || self.state is DocumentContent) ==> self.states.len() == 1
        &&& !in_document(self.state) ==> self.states.len() == 0
        &&& self.states.len() > 0 ==> self.states[0] == State::DocumentEnd
        &&& forall|i: int| 1 <= i < self.states.len() ==> in_collection(#[trigger] self.states[i])
    }

    /// The stream ended: no more events must be requested.
    pub closed spec fn is_done(&self) -> bool {
        self.state is End
    }

    /// The collections that are open, outermost first: `open_seq()`, or
    /// `open_map_key()` / `open_map_value()` for a mapping by what comes
    /// next in it.
    pub closed spec fn open_kinds(&self) -> Seq<int> {
        stack_kinds(self.states@) + state_kinds(self.state)
    }

    /// Where the parser stands in the stream (see `phase_step`).
    pub closed spec fn doc_phase(&self) -> int {
        match self.state {
            State::StreamStart | State::ImplicitDocumentStart | State::DocumentStart | State::End => 0,
            State::BlockNode | State::DocumentContent => 1,
            State::DocumentEnd => 3,
            _ => 2,
        }
    }

    /// Nothing was parsed yet.
    pub closed spec fn at_stream_start(&self) -> bool {
        &&& self.state is StreamStart
        &&& self.scanner.is_fresh()
    }

    /// Nothing was parsed yet and the input holds blanks, line breaks and
    /// comments only.
    pub closed spec fn blank_at_start(&self) -> bool {
        &&& self.state is StreamStart
        &&& self.scanner.is_fresh()
        &&& quiet_from(self.scanner.input(), self.scanner.position() as int)
    }

    /// The start of the stream was parsed and only blanks, line breaks and
    /// comments are left.
    pub closed spec fn blank_after_start(&self) -> bool {
        &&& self.state is ImplicitDocumentStart
        &&& self.scanner.at_top_level()
        &&& self.scanner.queued().len() == 0
        &&& quiet_from(self.scanner.input(), self.scanner.position() as int)
    }

    /// Nothing was parsed yet and the input is a document of one plain
    /// scalar on a line of its own.
    pub closed spec fn plain_doc_at_start(&self) -> bool {
        &&& self.state is StreamStart
        &&& self.scanner.is_fresh()
        &&& plain_document_at(self.scanner.input(), self.scanner.position() as int)
    }

    /// The start of the stream was parsed and a document of one plain
    /// scalar follows.
    pub closed spec fn plain_doc_ahead(&self) -> bool {
        &&& self.state is ImplicitDocumentStart
        &&& self.scanner.plain_ahead()
    }

    /// The text of the plain scalar of the document ahead.
    pub closed spec fn text_ahead(&self) -> Seq<char> {
        plain_text(self.scanner.input(), self.scanner.position() as int)
    }

    /// The text of the next token, if it is a scalar.
    pub closed spec fn node_text(&self) -> Seq<char> {
        match self.scanner.queued()[0].kind {
            TokenKind::Scalar(_, v) => v@,
            _ => Seq::empty(),
        }
    }

    /// The document was started and its only node, a plain scalar, is
    /// next.
    pub closed spec fn plain_node_ahead(&self) -> bool {
        &&& self.state is BlockNode
        &&& self.states@ == seq![State::DocumentEnd]
        &&& self.scanner.plain_scalar_queued(self.node_text())
    }

    /// The node of the document was parsed and only blanks, line breaks and
    /// comments are left.
    pub closed spec fn doc_end_ahead(&self) -> bool {
        &&& self.state is DocumentEnd
        &&& self.states@.len() == 0
        &&& self.scanner.at_top_level()
        &&& self.scanner.queued().len() == 0
        &&& quiet_from(self.scanner.input(), self.scanner.position() as int)
    }

    /// The document was ended and the end of the stream is next.
    pub closed spec fn stream_end_ahead(&self) -> bool {
        &&& self.state is DocumentStart || self.state is ImplicitDocumentStart
        &&& self.scanner.at_stream_end()
        &&& self.scanner.queued().len() == 1
        &&& self.scanner.queued()[0].kind is StreamEnd
    }

    pub fn new(input: &str) -> (p: Parser)
        requires
            input@.len() <= MAX_INPUT_CHARS,
        ensures
            p.wf(),
            !p.is_done(),
            p.at_stream_start(),
            p.open_kinds() == Seq::<int>::empty(),
            p.doc_phase() == 0,
            quiet_from(input@, 0) ==> p.blank_at_start(),
            plain_document_at(input@, 0) ==> p.plain_doc_at_start() && p.text_ahead() == plain_text(input@, 0),
    {
        Parser {
            scanner: Scanner::new(input),
            state: State::StreamStart,
            states: Vec::new(),
            tag_handles: Vec::new(),
            last_end: Mark { offset: 0, line: 0, column: 0 },
        }
    }

    /// Returns the next event.
    ///
    /// After [`EventKind::StreamEnd`] no more events must be requested.
    pub fn next_event(&mut self) -> (r: Result<Event, Error>)
        requires
            old(self).wf(),
            !old(self).is_done(),
        ensures
            r matches Ok(e) ==> phase_step(old(self).doc_phase(), final(self).doc_phase(), final(self).open_kinds(), e.kind),
            r matches Ok(e) ==> kinds_step(old(self).open_kinds(), final(self).open_kinds(), e.kind),
            final(self).wf(),
            r matches Ok(e) ==> event_ok(e),
            final(self).is_done() ==> (r matches Ok(e) && e.kind is StreamEnd),
            old(self).blank_at_start() ==> (r matches Ok(e) && e.kind is StreamStart) && final(self).blank_after_start(),
            old(self).at_stream_start() ==> (r matches Ok(e) && e.kind is StreamStart && e.start == (Mark {
                offset: 0,
                line: 0,
                column: 0,
            }) && e.end == (Mark { offset: 0, line: 0, column: 0 })) && !final(self).at_stream_start(),
            old(self).blank_after_start() ==> (r matches Ok(e) && e.kind is StreamEnd) && final(self).is_done(),
            old(self).plain_doc_at_start() ==> (r matches Ok(e) && e.kind is StreamStart) && final(self).plain_doc_ahead()
                && final(self).text_ahead() == old(self).text_ahead(),
            old(self).plain_doc_ahead() ==> (r matches Ok(e) && e.kind == EventKind::DocumentStart {
                explicit: false,
                version: None,
            }) && final(self).plain_node_ahead() && final(self).node_text() == old(self).text_ahead(),
            old(self).plain_node_ahead() ==> (r matches Ok(e) && e.kind matches EventKind::Scalar { props, style, value }
                && props.anchor is None && props.tag is None && style == ScalarStyle::Plain && value@ == old(
                self,
            ).node_text()) && final(self).doc_end_ahead(),
            old(self).doc_end_ahead() ==> (r matches Ok(e) && e.kind == EventKind::DocumentEnd { explicit: false })
                && final(self).stream_end_ahead(),
            old(self).stream_end_ahead() ==> (r matches Ok(e) && e.kind is StreamEnd) && final(self).is_done(),
    {
        let event = self.parse_event()?;
        self.last_end = event.end;
        Ok(event)
    }

    fn parse_event(&mut self) -> (r: Result<Event, Error>)
        requires
            old(self).wf(),
            !old(self).is_done(),
        ensures
            r matches Ok(e) ==> phase_step(old(self).doc_phase(), final(self).doc_phase(), final(self).open_kinds(), e.kind),
            r matches Ok(e) ==> kinds_step(old(self).open_kinds(), final(self).open_kinds(), e.kind),
            final(self).wf(),
            r matches Ok(e) ==> event_ok(e),
            final(self).is_done() ==> (r matches Ok(e) && e.kind is StreamEnd),
            old(self).blank_at_start() ==> (r matches Ok(e) && e.kind is StreamStart) && final(self).blank_after_start(),
            old(self).at_stream_start() ==> (r matches Ok(e) && e.kind is StreamStart && e.start == (Mark {
                offset: 0,
                line: 0,
                column: 0,
            }) && e.end == (Mark { offset: 0, line: 0, column: 0 })) && !final(self).at_stream_start(),
            old(self).blank_after_start() ==> (r matches Ok(e) && e.kind is StreamEnd) && final(self).is_done(),
            old(self).plain_doc_at_start() ==> (r matches Ok(e) && e.kind is StreamStart) && final(self).plain_doc_ahead()
                && final(self).text_ahead() == old(self).text_ahead(),
            old(self).plain_doc_ahead() ==> (r matches Ok(e) && e.kind == EventKind::DocumentStart {
                explicit: false,
                version: None,
            }) && final(self).plain_node_ahead() && final(self).node_text() == old(self).text_ahead(),
            old(self).plain_node_ahead() ==> (r matches Ok(e) && e.kind matches EventKind::Scalar { props, style, value }
                && props.anchor is None && props.tag is None && style == ScalarStyle::Plain && value@ == old(
                self,
            ).node_text()) && final(self).doc_end_ahead(),
            old(self).doc_end_ahead() ==> (r matches Ok(e) && e.kind == EventKind::DocumentEnd { explicit: false })
                && final(self).stream_end_ahead(),
            old(self).stream_end_ahead() ==> (r matches Ok(e) && e.kind is StreamEnd) && final(self).is_done(),
    {
        match self.state {
            State::StreamStart => self.parse_stream_start(),
            State::ImplicitDocumentStart => self.parse_document_start(true),
            State::DocumentStart => self.parse_document_start(false),
            State::DocumentContent => self.parse_document_content(),
            State::DocumentEnd => self.parse_document_end(),
            State::BlockNode => self.parse_node(true, false),
            State::BlockSequenceFirstEntry => self.parse_block_sequence_entry(true),
            State::BlockSequenceEntry => self.parse_block_sequence_entry(false),
            State::IndentlessSequenceEntry => self.parse_indentless_sequence_entry(),
            State::BlockMappingFirstKey => self.parse_block_mapping_key(true),
            State::BlockMappingKey => self.parse_block_mapping_key(false),
            State::BlockMappingValue => self.parse_block_mapping_value(),
            State::FlowSequenceFirstEntry => self.parse_flow_sequence_entry(true),
            State::FlowSequenceEntry => self.parse_flow_sequence_entry(false),
            State::FlowSequenceEntryMappingKey => self.parse_flow_sequence_entry_mapping_key(),
            State::FlowSequenceEntryMappingValue => self.parse_flow_sequence_entry_mapping_value(),
            State::FlowSequenceEntryMappingEnd => self.parse_flow_sequence_entry_mapping_end(),
            State::FlowMappingFirstKey => self.parse_flow_mapping_key(true),
            State::FlowMappingKey => self.parse_flow_mapping_key(false),
            State::FlowMappingValue => self.parse_flow_mapping_value(false),
            State::FlowMappingEmptyValue => self.parse_flow_mapping_value(true),
            State::End => {
                assert(false);
                self.error("next_event called after the end of the stream")
            },
        }
    }

    // -- helpers ----------------------------------------------------------

    fn peek(&mut self) -> (r: Result<TokenType, Error>)
        requires
            old(self).wf(),
        ensures
            final(self).wf(),
            final(self).state == old(self).state,
            final(self).states == old(self).states,
            r matches Ok(t) ==> final(self).scanner.queued().len() > 0
                && t == final(self).scanner.queued()[0].kind.spec_ty(),
            final(self).scanner.input() == old(self).scanner.input(),
            old(self).scanner.is_fresh() ==> (r matches Ok(t) && t == TokenType::StreamStart)
                && starts_at_origin(final(self).scanner.queued()[0])
                && final(self).scanner.at_top_level() && final(self).scanner.ready_for_node()
                && final(self).scanner.queued().len() == 1
                && final(self).scanner.position() == old(self).scanner.position(),
            old(self).scanner.at_top_level() && old(self).scanner.queued().len() == 0 && quiet_from(
                old(self).scanner.input(),
                old(self).scanner.position() as int,
            ) ==> (r matches Ok(t) && t == TokenType::StreamEnd) && final(self).scanner.at_stream_end()
                && final(self).scanner.queued().len() == 1,
            (old(self).scanner.at_top_level() || old(self).scanner.at_stream_end()) && old(self).scanner.queued().len()
                > 0 ==> r is Ok && final(self).scanner == old(self).scanner,
            old(self).scanner.has_token_ready() ==> r is Ok && final(self).scanner == old(self).scanner,
            old(self).scanner.plain_ahead() ==> (r matches Ok(t) && t == TokenType::Scalar)
                && final(self).scanner.plain_scalar_queued(
                plain_text(old(self).scanner.input(), old(self).scanner.position() as int),
            ),
    {
        self.scanner.peek_type()
    }

    fn peek_mark(&mut self) -> (r: Result<Mark, Error>)
        requires
            old(self).wf(),
        ensures
            final(self).wf(),
            final(self).state == old(self).state,
            final(self).states == old(self).states,
            r matches Ok(m) ==> mark_ok(m) && final(self).scanner.queued().len() > 0 && m == final(self).scanner.queued()[0].start,
            (old(self).scanner.at_top_level() || old(self).scanner.at_stream_end()) && old(self).scanner.queued().len()
                > 0 ==> r is Ok && final(self).scanner == old(self).scanner,
            old(self).scanner.has_token_ready() ==> r is Ok && final(self).scanner == old(self).scanner,
            old(self).scanner.at_top_level() && old(self).scanner.queued().len() == 0 && quiet_from(
                old(self).scanner.input(),
                old(self).scanner.position() as int,
            ) ==> r is Ok && final(self).scanner.at_stream_end() && final(self).scanner.queued().len() == 1
                && final(self).scanner.queued()[0].kind is StreamEnd,
    {
        self.scanner.peek_mark()
    }

    fn next(&mut self) -> (t: Token)
        requires
            old(self).wf(),
            old(self).scanner.queued().len() > 0,
        ensures
            final(self).wf(),
            final(self).state == old(self).state,
            final(self).states == old(self).states,
            token_ok(t),
            t == old(self).scanner.queued()[0],
            final(self).scanner.queued() == old(self).scanner.queued().drop_first(),
            final(self).scanner.input() == old(self).scanner.input(),
            final(self).scanner.position() == old(self).scanner.position(),
            old(self).scanner.at_top_level() ==> final(self).scanner.at_top_level(),
            old(self).scanner.ready_for_node() && old(self).scanner.queued().len() == 1 && plain_document_at(
                old(self).scanner.input(),
                old(self).scanner.position() as int,
            ) ==> final(self).scanner.plain_ahead(),
    {
        self.scanner.next_token()
    }

    fn pop_state(&mut self)
        requires
            old(self).scanner.wf(),
            mark_ok(old(self).last_end),
            old(self).states.len() >= 1,
            old(self).states[0] == State::DocumentEnd,
            forall|i: int| 1 <= i < old(self).states.len() ==> in_collection(#[trigger] old(self).states[i]),
        ensures
            final(self).wf(),
            final(self).scanner == old(self).scanner,
            final(self).last_end == old(self).last_end,
            !final(self).is_done(),
            final(self).state == old(self).states@.last(),
            final(self).states@ == old(self).states@.drop_last(),
            stack_kinds(old(self).states@) == stack_kinds(final(self).states@) + state_kinds(final(self).state),
    {
        let ghost old_states = self.states@;
        proof {
            lemma_stack_pop(old_states);
        }
        self.state = self.states.pop().unwrap();
        proof {
            if self.states.len() >= 1 {
                assert(self.states[0] == old_states[0]);
                assert(in_collection(old_states[old_states.len() - 1]));
            }
            assert forall|i: int| 1 <= i < self.states.len() implies in_collection(#[trigger] self.states[i]) by {
                assert(self.states[i] == old_states[i]);
            }
        }
    }

    fn push_state(&mut self, s: State)
        requires
            old(self).states.len() >= 1,
            in_collection(s),
            old(self).states[0] == State::DocumentEnd,
            forall|i: int| 1 <= i < old(self).states.len() ==> in_collection(#[trigger] old(self).states[i]),
        ensures
            final(self).states@ == old(self).states@.push(s),
            final(self).scanner == old(self).scanner,
            final(self).state == old(self).state,
            final(self).last_end == old(self).last_end,
            final(self).tag_handles == old(self).tag_handles,
            final(self).states[0] == State::DocumentEnd,
            forall|i: int| 1 <= i < final(self).states.len() ==> in_collection(#[trigger] final(self).states[i]),
            stack_kinds(final(self).states@) == stack_kinds(old(self).states@) + state_kinds(s),
    {
        let ghost old_states = self.states@;
        proof {
            lemma_stack_push(old_states, s);
        }
        self.states.push(s);
        proof {
            assert(self.states[0] == old_states[0]);
            assert forall|i: int| 1 <= i < self.states.len() implies in_collection(#[trigger] self.states[i]) by {
                if i < old_states.len() {
                    assert(self.states[i] == old_states[i]);
                }
            }
        }
    }

    fn event(kind: EventKind, start: Mark, end: Mark) -> (r: Result<Event, Error>)
        requires
            mark_ok(start),
            mark_ok(end),
        ensures
            r matches Ok(e) && (event_ok(e) && e.kind == kind && e.start == start && e.end == end),
    {
        Ok(Event { kind, start, end })
    }

    fn empty_scalar(mark: Mark, props: Props) -> (r: Result<Event, Error>)
        requires
            mark_ok(mark),
        ensures
            r matches Ok(e) && event_ok(e) && e.start == mark && e.end == mark && (e.kind matches EventKind::Scalar { props: p, style, value } && p == props
                && style == ScalarStyle::Plain && value@.len() == 0),
    {
        Self::event(EventKind::Scalar { props, style: ScalarStyle::Plain, value: Vec::new() }, mark, mark)
    }

    fn error<T>(&mut self, msg: &str) -> (r: Result<T, Error>)
        requires
            old(self).wf(),
        ensures
            final(self).wf(),
            final(self).state == old(self).state,
            final(self).states == old(self).states,
            r is Err,
            old(self).scanner.has_token_ready() ==> (r matches Err(e) && e.kind == ErrorKind::Unexpected && e.message@
                == syntax_message(msg@) && e.position == Some(
                (
                    old(self).scanner.queued()[0].start.offset,
                    (old(self).scanner.queued()[0].start.line + 1) as usize,
                    (old(self).scanner.queued()[0].start.column + 1) as usize,
                ),
            )) && final(self).scanner == old(self).scanner,
    {
        let mark = self.peek_mark()?;
        Err(syntax_error(mark, msg))
    }
}


/// An empty plain scalar without properties.
pub open spec fn is_empty_scalar(kind: EventKind) -> bool {
    kind matches EventKind::Scalar { props, style, value } && props.anchor is None && props.tag is None && style
        == ScalarStyle::Plain && value@.len() == 0
}

impl Parser {
    /// The next token is queued and no simple key waits for more tokens.
    spec fn ready(&self) -> bool {
        self.scanner.has_token_ready()
    }

    /// The type of the next token.
    spec fn next_type(&self) -> TokenType {
        self.scanner.queued()[0].kind.spec_ty()
    }

    /// The result of a parsing step.
    spec fn step_ok(&self, r: Result<Event, Error>) -> bool {
        &&& self.wf()
        &&& r matches Ok(e) ==> event_ok(e)
        &&& self.is_done() ==> (r matches Ok(e) && e.kind is StreamEnd)
    }

    // -- stream and documents ---------------------------------------------

    fn parse_stream_start(&mut self) -> (r: Result<Event, Error>)
        requires
            old(self).wf(),
            old(self).state is StreamStart,
        ensures
            r matches Ok(e) ==> phase_step(old(self).doc_phase(), final(self).doc_phase(), final(self).open_kinds(), e.kind),
            r matches Ok(e) ==> kinds_step(old(self).open_kinds(), final(self).open_kinds(), e.kind),
            final(self).step_ok(r),
            old(self).blank_at_start() ==> (r matches Ok(e) && e.kind is StreamStart) && final(self).blank_after_start(),
            old(self).at_stream_start() ==> (r matches Ok(e) && e.kind is StreamStart && e.start == (Mark {
                offset: 0,
                line: 0,
                column: 0,
            }) && e.end == (Mark { offset: 0, line: 0, column: 0 })) && !final(self).at_stream_start(),
            old(self).plain_doc_at_start() ==> (r matches Ok(e) && e.kind is StreamStart) && final(self).plain_doc_ahead()
                && final(self).text_ahead() == old(self).text_ahead(),
    {
        self.peek()?;
        let token = self.next();
        self.state = State::ImplicitDocumentStart;
        Self::event(EventKind::StreamStart, token.start, token.end)
    }

    /// Parses the start of a document.  `implicit` is `true` if a bare
    /// document (without `---`) is allowed here: at the start of the stream
    /// and after a document end marker.
    #[verifier::spinoff_prover]
    #[verifier::rlimit(60)]
    fn parse_document_start(&mut self, implicit: bool) -> (r: Result<Event, Error>)
        requires
            old(self).wf(),
            old(self).state is ImplicitDocumentStart || old(self).state is DocumentStart,
        ensures
            r matches Ok(e) ==> phase_step(old(self).doc_phase(), final(self).doc_phase(), final(self).open_kinds(), e.kind),
            r matches Ok(e) ==> kinds_step(old(self).open_kinds(), final(self).open_kinds(), e.kind),
            final(self).step_ok(r),
            old(self).blank_after_start() ==> (r matches Ok(e) && e.kind is StreamEnd) && final(self).is_done(),
            old(self).plain_doc_ahead() && implicit ==> (r matches Ok(e) && e.kind == EventKind::DocumentStart {
                explicit: false,
                version: None,
            }) && final(self).plain_node_ahead() && final(self).node_text() == old(self).text_ahead(),
            old(self).stream_end_ahead() ==> (r matches Ok(e) && e.kind is StreamEnd) && final(self).is_done(),
    {
        let ghost blank = old(self).blank_after_start();
        let ghost plain = old(self).plain_doc_ahead() && implicit;
        let ghost text = old(self).text_ahead();
        let ghost at_end = old(self).stream_end_ahead();
        let mut allow_implicit = implicit;
        // extra document end markers, each one was scanned from the input
        let mut fuel = self.scanner.input_len() + 1;
        while self.peek()? == TokenType::DocumentEnd
            invariant
                self.wf(),
                self.state is ImplicitDocumentStart || self.state is DocumentStart,
                blank == old(self).blank_after_start(),
                blank ==> self.blank_after_start() || (self.state is ImplicitDocumentStart
                    && self.scanner.at_stream_end() && self.scanner.queued().len() == 1
                    && self.scanner.queued()[0].kind is StreamEnd),
                text == old(self).text_ahead(),
                plain == (old(self).plain_doc_ahead() && implicit),
                plain ==> allow_implicit && self.states@.len() == 0 && ((self.plain_doc_ahead() && self.text_ahead() == text)
                    || (self.state is ImplicitDocumentStart && self.scanner.plain_scalar_queued(text))),
                at_end == old(self).stream_end_ahead(),
                at_end ==> self.stream_end_ahead(),
            decreases fuel,
        {
            if fuel == 0 {
                return self.error("too many document end markers");
            }
            fuel = fuel - 1;
            self.next();
            allow_implicit = true;
        }

        let ty = self.peek()?;
        if ty == TokenType::StreamEnd {
            let token = self.next();
            self.state = State::End;
            Self::event(EventKind::StreamEnd, token.start, token.end)
        } else if ty == TokenType::VersionDirective || ty == TokenType::TagDirective || ty
            == TokenType::ReservedDirective || ty == TokenType::DocumentStart {
            let start = self.peek_mark()?;
            if self.peek()? != TokenType::DocumentStart && !allow_implicit {
                return self.error("missing document end marker before directive");
            }
            let version = self.parse_directives()?;
            if self.peek()? != TokenType::DocumentStart {
                return self.error("did not find expected <document start>");
            }
            let token = self.next();
            self.states.push(State::DocumentEnd);
            self.state = State::DocumentContent;
            Self::event(EventKind::DocumentStart { explicit: true, version }, start, token.end)
        } else if allow_implicit {
            let mark = self.peek_mark()?;
            self.reset_tag_handles();
            self.states.push(State::DocumentEnd);
            assert(plain ==> self.states@ =~= seq![State::DocumentEnd]);
            self.state = State::BlockNode;
            Self::event(EventKind::DocumentStart { explicit: false, version: None }, mark, mark)
        } else {
            self.error("did not find expected <document start>")
        }
    }

    fn reset_tag_handles(&mut self)
        ensures
            final(self).scanner == old(self).scanner,
            final(self).state == old(self).state,
            final(self).states == old(self).states,
            final(self).last_end == old(self).last_end,
            final(self).tag_handles@.len() == 2,
            final(self).tag_handles@[0].0@ == seq!['!'] && final(self).tag_handles@[0].1@ == seq!['!'],
            final(self).tag_handles@[1].0@ == seq!['!', '!'],
            final(self).tag_handles@[1].1@ == "tag:yaml.org,2002:"@,
    {
        self.tag_handles.clear();
        let mut bang: Vec<char> = Vec::new();
        bang.push('!');
        let mut bang1: Vec<char> = Vec::new();
        bang1.push('!');
        let mut bang2: Vec<char> = Vec::new();
        bang2.push('!');
        self.tag_handles.push((bang, bang1));
        bang2.push('!');
        let yaml = crate::text::str_chars("tag:yaml.org,2002:");
        self.tag_handles.push((bang2, yaml));
    }

    /// Parses the directives of a document and returns the version.
    fn parse_directives(&mut self) -> (r: Result<Option<(u32, u32)>, Error>)
        requires
            old(self).wf(),
            old(self).state is ImplicitDocumentStart || old(self).state is DocumentStart,
        ensures
            final(self).wf(),
            final(self).state == old(self).state,
            final(self).states == old(self).states,
            r matches Ok(Some(v)) ==> v.0 == 1,
            old(self).scanner.has_token_ready() && !(old(self).scanner.queued()[0].kind.spec_ty()
                == TokenType::VersionDirective || old(self).scanner.queued()[0].kind.spec_ty() == TokenType::TagDirective
                || old(self).scanner.queued()[0].kind.spec_ty() == TokenType::ReservedDirective) ==> r == Ok::<
                Option<(u32, u32)>,
                Error,
            >(None) && final(self).scanner == old(self).scanner,
    {
        self.reset_tag_handles();
        let mut version: Option<(u32, u32)> = None;
        let mut custom_handles: Vec<Vec<char>> = Vec::new();
        // every directive was scanned from the input
        let mut fuel = self.scanner.input_len() + 1;
        let ghost ready0 = old(self).scanner.has_token_ready() && !(old(self).scanner.queued()[0].kind.spec_ty()
            == TokenType::VersionDirective || old(self).scanner.queued()[0].kind.spec_ty() == TokenType::TagDirective
            || old(self).scanner.queued()[0].kind.spec_ty() == TokenType::ReservedDirective);
        loop
            invariant
                self.wf(),
                self.state == old(self).state,
                self.states == old(self).states,
                version matches Some(v) ==> v.0 == 1,
                ready0 == (old(self).scanner.has_token_ready() && !(old(self).scanner.queued()[0].kind.spec_ty()
                    == TokenType::VersionDirective || old(self).scanner.queued()[0].kind.spec_ty()
                    == TokenType::TagDirective || old(self).scanner.queued()[0].kind.spec_ty()
                    == TokenType::ReservedDirective)),
                ready0 ==> self.scanner == old(self).scanner && version is None && fuel > 0,
            decreases fuel,
        {
            if fuel == 0 {
                return self.error("too many directives");
            }
            fuel = fuel - 1;
            let ty = self.peek()?;
            if ty == TokenType::VersionDirective {
                let token = self.next();
                if version.is_some() {
                    return Err(syntax_error(token.start, "duplicate %YAML directive"));
                }
                if let TokenKind::VersionDirective(major, minor) = token.kind {
                    if major != 1 {
                        return Err(syntax_error(token.start, "incompatible YAML document version"));
                    }
                    version = Some((major, minor));
                }
            } else if ty == TokenType::TagDirective {
                let token = self.next();
                if let TokenKind::TagDirective(handle, prefix) = token.kind {
                    if contains_chars(&custom_handles, &handle) {
                        return Err(syntax_error(token.start, "duplicate %TAG directive"));
                    }
                    custom_handles.push(copy_chars(&handle));
                    self.remove_tag_handle(&handle);
                    self.tag_handles.push((handle, prefix));
                }
            } else if ty == TokenType::ReservedDirective {
                self.next();
            } else {
                return Ok(version);
            }
        }
    }

    /// Removes a tag handle from the handles of the document.
    #[verifier::spinoff_prover]
    fn remove_tag_handle(&mut self, handle: &Vec<char>)
        ensures
            final(self).scanner == old(self).scanner,
            final(self).state == old(self).state,
            final(self).states == old(self).states,
            final(self).last_end == old(self).last_end,
            forall|i: int| 0 <= i < final(self).tag_handles@.len() ==> #[trigger] final(self).tag_handles@[i].0@ != handle@,
    {
        let mut kept: Vec<(Vec<char>, Vec<char>)> = Vec::new();
        let mut i: usize = 0;
        while i < self.tag_handles.len()
            invariant
                i <= self.tag_handles.len(),
                forall|j: int| 0 <= j < kept@.len() ==> #[trigger] kept@[j].0@ != handle@,
            decreases self.tag_handles.len() - i,
        {
            if !chars_eq(&self.tag_handles[i].0, handle) {
                let ghost kept_before = kept@;
                let h = copy_chars(&self.tag_handles[i].0);
                let prefix = copy_chars(&self.tag_handles[i].1);
                kept.push((h, prefix));
                assert forall|j: int| 0 <= j < kept@.len() implies #[trigger] kept@[j].0@ != handle@ by {
                    if j < kept_before.len() {
                        assert(kept@[j] == kept_before[j]);
                    }
                }
            }
            i = i + 1;
        }
        self.tag_handles = kept;
    }
}


/// Returns `true` if the list contains the characters.
fn contains_chars(list: &Vec<Vec<char>>, s: &Vec<char>) -> (r: bool)
    ensures
        r == exists|i: int| 0 <= i < list@.len() && #[trigger] list@[i]@ == s@,
{
    let mut i: usize = 0;
    while i < list.len()
        invariant
            i <= list.len(),
            forall|j: int| 0 <= j < i ==> #[trigger] list@[j]@ != s@,
        decreases list.len() - i,
    {
        if chars_eq(&list[i], s) {
            return true;
        }
        i = i + 1;
    }
    false
}


impl Parser {
    fn parse_document_content(&mut self) -> (r: Result<Event, Error>)
        requires
            old(self).wf(),
            old(self).state is DocumentContent,
        ensures
            r matches Ok(e) ==> phase_step(old(self).doc_phase(), final(self).doc_phase(), final(self).open_kinds(), e.kind),
            r matches Ok(e) ==> kinds_step(old(self).open_kinds(), final(self).open_kinds(), e.kind),
            final(self).step_ok(r),
            old(self).ready() && (old(self).next_type() == TokenType::VersionDirective || old(self).next_type()
                == TokenType::TagDirective || old(self).next_type() == TokenType::ReservedDirective || old(self).next_type()
                == TokenType::DocumentStart || old(self).next_type() == TokenType::DocumentEnd || old(self).next_type()
                == TokenType::StreamEnd) ==> (r matches Ok(e) && is_empty_scalar(e.kind)) && final(self).state == old(
                self,
            ).states@.last(),
    {
        let ty = self.peek()?;
        if ty == TokenType::VersionDirective || ty == TokenType::TagDirective || ty
            == TokenType::ReservedDirective || ty == TokenType::DocumentStart || ty
            == TokenType::DocumentEnd || ty == TokenType::StreamEnd {
            let mark = self.peek_mark()?;
            self.pop_state();
            Self::empty_scalar(mark, no_props())
        } else {
            self.parse_node(true, false)
        }
    }

    fn parse_document_end(&mut self) -> (r: Result<Event, Error>)
        requires
            old(self).wf(),
            old(self).state is DocumentEnd,
        ensures
            r matches Ok(e) ==> phase_step(old(self).doc_phase(), final(self).doc_phase(), final(self).open_kinds(), e.kind),
            r matches Ok(e) ==> kinds_step(old(self).open_kinds(), final(self).open_kinds(), e.kind),
            final(self).step_ok(r),
            old(self).doc_end_ahead() ==> (r matches Ok(e) && e.kind == EventKind::DocumentEnd { explicit: false })
                && final(self).stream_end_ahead(),
    {
        let start = self.peek_mark()?;
        let mut end = start;
        let explicit = self.peek()? == TokenType::DocumentEnd;
        if explicit {
            end = self.next().end;
            self.state = State::ImplicitDocumentStart;
        } else {
            // without a document end marker, only an explicit document
            // (or the end of the stream) may follow
            let ty = self.peek()?;
            if ty == TokenType::DocumentStart || ty == TokenType::StreamEnd {
            } else if ty == TokenType::VersionDirective || ty == TokenType::TagDirective || ty
                == TokenType::ReservedDirective {
                return self.error("missing document end marker before directive");
            } else {
                return self.error("did not find expected <document start>");
            }
            self.state = State::DocumentStart;
        }
        Self::event(EventKind::DocumentEnd { explicit }, start, end)
    }

    // -- nodes ------------------------------------------------------------

    fn resolve_tag(&self, handle: Vec<char>, suffix: Vec<char>, mark: Mark) -> (r: Result<Vec<char>, Error>)
        requires
            mark_ok(mark),
        ensures
            handle@.len() == 0 ==> (r matches Ok(t) && t@ == suffix@),
    {
        if handle.len() == 0 {
            // verbatim
            return Ok(suffix);
        }
        assert(handle@.len() > 0);
        if handle.len() == 1 && handle[0] == '!' && suffix.len() == 0 {
            let mut bang: Vec<char> = Vec::new();
            bang.push('!');
            return Ok(bang);
        }
        let mut i: usize = 0;
        while i < self.tag_handles.len()
            invariant
                i <= self.tag_handles.len(),
                handle@.len() > 0,
            decreases self.tag_handles.len() - i,
        {
            if chars_eq(&self.tag_handles[i].0, &handle) {
                let mut tag = copy_chars(&self.tag_handles[i].1);
                push_chars(&mut tag, &suffix);
                return Ok(tag);
            }
            i = i + 1;
        }
        Err(syntax_error(mark, "found undefined tag handle"))
    }

    #[verifier::spinoff_prover]
    #[verifier::rlimit(60)]
    fn parse_node(&mut self, block: bool, indentless_sequence: bool) -> (r: Result<Event, Error>)
        requires
            old(self).wf(),
            in_document(old(self).state),
        ensures
            r matches Ok(e) ==> final(self).doc_phase() == phase_after_node(final(self).open_kinds()) && !(e.kind is SequenceEnd || e.kind is MappingEnd || e.kind is StreamStart || e.kind is StreamEnd || e.kind is DocumentStart || e.kind is DocumentEnd),
            r matches Ok(e) ==> node_step(stack_kinds(old(self).states@), final(self).open_kinds(), e.kind),
            final(self).step_ok(r),
            old(self).plain_node_ahead() && !indentless_sequence ==> (r matches Ok(e) && e.kind matches EventKind::Scalar {
                props,
                style,
                value,
            } && props.anchor is None && props.tag is None && style == ScalarStyle::Plain && value@ == old(
                self,
            ).node_text()) && final(self).doc_end_ahead(),
    {
        let ghost node = old(self).plain_node_ahead() && !indentless_sequence;
        if self.peek()? == TokenType::Alias {
            let token = self.next();
            self.pop_state();
            if let TokenKind::Alias(anchor) = token.kind {
                return Self::event(EventKind::Alias { anchor }, token.start, token.end);
            }
            return Self::event(EventKind::Alias { anchor: Vec::new() }, token.start, token.end);
        }

        let start = self.peek_mark()?;
        let mut props = no_props();
        let mut has_props = false;
        loop
            invariant
                self.wf(),
                self.state == old(self).state,
                self.states == old(self).states,
                in_document(self.state),
                mark_ok(start),
                node == (old(self).plain_node_ahead() && !indentless_sequence),
                node ==> self.scanner == old(self).scanner && self.states == old(self).states && props.anchor is None
                    && props.tag is None,
            decreases (if props.anchor is None { 1int } else { 0 }) + (if props.tag is None { 1int } else { 0 }),
        {
            let ty = self.peek()?;
            if ty == TokenType::Anchor {
                if props.anchor.is_some() {
                    return self.error("a node can only have one anchor");
                }
                match self.next().kind {
                    TokenKind::Anchor(name) => props.anchor = Some(name),
                    _ => props.anchor = Some(Vec::new()),
                }
            } else if ty == TokenType::Tag {
                if props.tag.is_some() {
                    return self.error("a node can only have one tag");
                }
                let token = self.next();
                match token.kind {
                    TokenKind::Tag(handle, suffix) => {
                        props.tag = Some(self.resolve_tag(handle, suffix, token.start)?);
                    },
                    _ => props.tag = Some(Vec::new()),
                }
            } else {
                break;
            }
            has_props = true;
        }

        let mark = self.peek_mark()?;
        let ty = self.peek()?;
        if ty == TokenType::BlockEntry && indentless_sequence {
            self.state = State::IndentlessSequenceEntry;
            Self::event(EventKind::SequenceStart { props, flow: false }, start, mark)
        } else if ty == TokenType::Scalar {
            let token = self.next();
            self.pop_state();
            match token.kind {
                TokenKind::Scalar(style, value) => Self::event(
                    EventKind::Scalar { props, style, value },
                    start,
                    token.end,
                ),
                _ => Self::empty_scalar(token.end, props),
            }
        } else if ty == TokenType::FlowSequenceStart {
            self.state = State::FlowSequenceFirstEntry;
            Self::event(EventKind::SequenceStart { props, flow: true }, start, mark)
        } else if ty == TokenType::FlowMappingStart {
            self.state = State::FlowMappingFirstKey;
            Self::event(EventKind::MappingStart { props, flow: true }, start, mark)
        } else if ty == TokenType::BlockSequenceStart && block {
            self.state = State::BlockSequenceFirstEntry;
            Self::event(EventKind::SequenceStart { props, flow: false }, start, mark)
        } else if ty == TokenType::BlockMappingStart && block {
            self.state = State::BlockMappingFirstKey;
            Self::event(EventKind::MappingStart { props, flow: false }, start, mark)
        } else if ty == TokenType::Alias && has_props {
            self.error("an alias cannot have properties")
        } else if has_props {
            self.pop_state();
            Self::empty_scalar(mark, props)
        } else {
            self.error("did not find expected node content")
        }
    }

    // -- block collections ------------------------------------------------

    #[verifier::spinoff_prover]
    #[verifier::rlimit(60)]
    fn parse_block_sequence_entry(&mut self, first: bool) -> (r: Result<Event, Error>)
        requires
            old(self).state is BlockSequenceFirstEntry || old(self).state is BlockSequenceEntry,
            old(self).wf(),
            in_collection(old(self).state),
        ensures
            r matches Ok(e) ==> phase_step(old(self).doc_phase(), final(self).doc_phase(), final(self).open_kinds(), e.kind),
            r matches Ok(e) ==> kinds_step(old(self).open_kinds(), final(self).open_kinds(), e.kind),
            final(self).step_ok(r),
            !first && old(self).ready() && old(self).next_type() == TokenType::BlockEnd ==> (r matches Ok(e)
                && e.kind is SequenceEnd) && final(self).state == old(self).states@.last(),
            !first && old(self).ready() && old(self).next_type() != TokenType::BlockEnd && old(self).next_type()
                != TokenType::BlockEntry ==> r is Err,
    {
        if first {
            self.peek()?;
            self.next();
        }
        let ty = self.peek()?;
        if ty == TokenType::BlockEntry {
            let token = self.next();
            let ty = self.peek()?;
            if ty == TokenType::BlockEntry || ty == TokenType::BlockEnd {
                self.state = State::BlockSequenceEntry;
                Self::empty_scalar(token.end, no_props())
            } else {
                self.push_state(State::BlockSequenceEntry);
                self.parse_node(true, false)
            }
        } else if ty == TokenType::BlockEnd {
            self.next();
            self.pop_state();
            Self::event(EventKind::SequenceEnd, self.last_end, self.last_end)
        } else {
            self.error("did not find expected '-' indicator")
        }
    }

    fn parse_indentless_sequence_entry(&mut self) -> (r: Result<Event, Error>)
        requires
            old(self).state is IndentlessSequenceEntry,
            old(self).wf(),
            in_collection(old(self).state),
        ensures
            r matches Ok(e) ==> phase_step(old(self).doc_phase(), final(self).doc_phase(), final(self).open_kinds(), e.kind),
            r matches Ok(e) ==> kinds_step(old(self).open_kinds(), final(self).open_kinds(), e.kind),
            final(self).step_ok(r),
            old(self).ready() && old(self).next_type() != TokenType::BlockEntry ==> (r matches Ok(e) && e.kind is SequenceEnd)
                && final(self).state == old(self).states@.last(),
    {
        if self.peek()? == TokenType::BlockEntry {
            let token = self.next();
            let ty = self.peek()?;
            if ty == TokenType::BlockEntry || ty == TokenType::Key || ty == TokenType::Value || ty
                == TokenType::BlockEnd {
                self.state = State::IndentlessSequenceEntry;
                Self::empty_scalar(token.end, no_props())
            } else {
                self.push_state(State::IndentlessSequenceEntry);
                self.parse_node(true, false)
            }
        } else {
            self.pop_state();
            Self::event(EventKind::SequenceEnd, self.last_end, self.last_end)
        }
    }

    #[verifier::spinoff_prover]
    #[verifier::rlimit(60)]
    fn parse_block_mapping_key(&mut self, first: bool) -> (r: Result<Event, Error>)
        requires
            old(self).state is BlockMappingFirstKey || old(self).state is BlockMappingKey,
            old(self).wf(),
            in_collection(old(self).state),
        ensures
            r matches Ok(e) ==> phase_step(old(self).doc_phase(), final(self).doc_phase(), final(self).open_kinds(), e.kind),
            r matches Ok(e) ==> kinds_step(old(self).open_kinds(), final(self).open_kinds(), e.kind),
            final(self).step_ok(r),
            !first && old(self).ready() && old(self).next_type() == TokenType::BlockEnd ==> (r matches Ok(e)
                && e.kind is MappingEnd) && final(self).state == old(self).states@.last(),
            !first && old(self).ready() && old(self).next_type() == TokenType::Value ==> (r matches Ok(e)
                && is_empty_scalar(e.kind)) && final(self).state == State::BlockMappingValue,
            !first && old(self).ready() && old(self).next_type() != TokenType::BlockEnd && old(self).next_type()
                != TokenType::Key && old(self).next_type() != TokenType::Value ==> r is Err,
    {
        if first {
            self.peek()?;
            self.next();
        }
        let ty = self.peek()?;
        if ty == TokenType::Key {
            let token = self.next();
            let ty = self.peek()?;
            if ty == TokenType::Key || ty == TokenType::Value || ty == TokenType::BlockEnd {
                self.state = State::BlockMappingValue;
                Self::empty_scalar(token.end, no_props())
            } else {
                self.push_state(State::BlockMappingValue);
                self.parse_node(true, true)
            }
        } else if ty == TokenType::Value {
            let mark = self.peek_mark()?;
            self.state = State::BlockMappingValue;
            Self::empty_scalar(mark, no_props())
        } else if ty == TokenType::BlockEnd {
            self.next();
            self.pop_state();
            Self::event(EventKind::MappingEnd, self.last_end, self.last_end)
        } else {
            self.error("did not find expected key")
        }
    }

    fn parse_block_mapping_value(&mut self) -> (r: Result<Event, Error>)
        requires
            old(self).state is BlockMappingValue,
            old(self).wf(),
            in_collection(old(self).state),
        ensures
            r matches Ok(e) ==> phase_step(old(self).doc_phase(), final(self).doc_phase(), final(self).open_kinds(), e.kind),
            r matches Ok(e) ==> kinds_step(old(self).open_kinds(), final(self).open_kinds(), e.kind),
            final(self).step_ok(r),
            old(self).ready() && old(self).next_type() != TokenType::Value ==> (r matches Ok(e) && is_empty_scalar(e.kind))
                && final(self).state == State::BlockMappingKey,
    {
        if self.peek()? == TokenType::Value {
            let token = self.next();
            let ty = self.peek()?;
            if ty == TokenType::Key || ty == TokenType::Value || ty == TokenType::BlockEnd {
                self.state = State::BlockMappingKey;
                Self::empty_scalar(token.end, no_props())
            } else {
                self.push_state(State::BlockMappingKey);
                self.parse_node(true, true)
            }
        } else {
            let mark = self.peek_mark()?;
            self.state = State::BlockMappingKey;
            Self::empty_scalar(mark, no_props())
        }
    }

    // -- flow collections -------------------------------------------------

    #[verifier::spinoff_prover]
    #[verifier::rlimit(60)]
    fn parse_flow_sequence_entry(&mut self, first: bool) -> (r: Result<Event, Error>)
        requires
            old(self).state is FlowSequenceFirstEntry || old(self).state is FlowSequenceEntry,
            old(self).wf(),
            in_collection(old(self).state),
        ensures
            r matches Ok(e) ==> phase_step(old(self).doc_phase(), final(self).doc_phase(), final(self).open_kinds(), e.kind),
            r matches Ok(e) ==> kinds_step(old(self).open_kinds(), final(self).open_kinds(), e.kind),
            final(self).step_ok(r),
            !first && old(self).ready() && old(self).next_type() == TokenType::FlowSequenceEnd ==> (r matches Ok(e)
                && e.kind is SequenceEnd) && final(self).state == old(self).states@.last(),
            !first && old(self).ready() && old(self).next_type() != TokenType::FlowSequenceEnd && old(self).next_type()
                != TokenType::FlowEntry ==> r is Err,
    {
        if first {
            self.peek()?;
            self.next();
        }
        if self.peek()? != TokenType::FlowSequenceEnd {
            if !first {
                if self.peek()? == TokenType::FlowEntry {
                    self.next();
                } else {
                    return self.error("did not find expected ',' or ']'");
                }
            }
            let ty = self.peek()?;
            if ty == TokenType::Key {
                let token = self.next();
                self.state = State::FlowSequenceEntryMappingKey;
                return Self::event(EventKind::MappingStart { props: no_props(), flow: true }, token.start, token.end);
            } else if ty == TokenType::Value {
                // a single pair with an empty key
                let mark = self.peek_mark()?;
                self.state = State::FlowSequenceEntryMappingKey;
                return Self::event(EventKind::MappingStart { props: no_props(), flow: true }, mark, mark);
            } else if ty != TokenType::FlowSequenceEnd {
                self.push_state(State::FlowSequenceEntry);
                return self.parse_node(false, false);
            }
        }
        self.peek()?;
        let token = self.next();
        self.pop_state();
        Self::event(EventKind::SequenceEnd, token.start, token.end)
    }

    fn parse_flow_sequence_entry_mapping_key(&mut self) -> (r: Result<Event, Error>)
        requires
            old(self).state is FlowSequenceEntryMappingKey,
            old(self).wf(),
            in_collection(old(self).state),
        ensures
            r matches Ok(e) ==> phase_step(old(self).doc_phase(), final(self).doc_phase(), final(self).open_kinds(), e.kind),
            r matches Ok(e) ==> kinds_step(old(self).open_kinds(), final(self).open_kinds(), e.kind),
            final(self).step_ok(r),
            old(self).ready() && (old(self).next_type() == TokenType::Value || old(self).next_type() == TokenType::FlowEntry
                || old(self).next_type() == TokenType::FlowSequenceEnd) ==> (r matches Ok(e) && is_empty_scalar(e.kind))
                && final(self).state == State::FlowSequenceEntryMappingValue,
    {
        let ty = self.peek()?;
        if ty == TokenType::Value || ty == TokenType::FlowEntry || ty == TokenType::FlowSequenceEnd {
            let mark = self.peek_mark()?;
            self.state = State::FlowSequenceEntryMappingValue;
            Self::empty_scalar(mark, no_props())
        } else {
            self.push_state(State::FlowSequenceEntryMappingValue);
            self.parse_node(false, false)
        }
    }

    fn parse_flow_sequence_entry_mapping_value(&mut self) -> (r: Result<Event, Error>)
        requires
            old(self).state is FlowSequenceEntryMappingValue,
            old(self).wf(),
            in_collection(old(self).state),
        ensures
            r matches Ok(e) ==> phase_step(old(self).doc_phase(), final(self).doc_phase(), final(self).open_kinds(), e.kind),
            r matches Ok(e) ==> kinds_step(old(self).open_kinds(), final(self).open_kinds(), e.kind),
            final(self).step_ok(r),
            old(self).ready() && old(self).next_type() != TokenType::Value ==> (r matches Ok(e) && is_empty_scalar(e.kind))
                && final(self).state == State::FlowSequenceEntryMappingEnd,
    {
        if self.peek()? == TokenType::Value {
            let token = self.next();
            let ty = self.peek()?;
            if ty == TokenType::FlowEntry || ty == TokenType::FlowSequenceEnd {
                self.state = State::FlowSequenceEntryMappingEnd;
                Self::empty_scalar(token.end, no_props())
            } else {
                self.push_state(State::FlowSequenceEntryMappingEnd);
                self.parse_node(false, false)
            }
        } else {
            let mark = self.peek_mark()?;
            self.state = State::FlowSequenceEntryMappingEnd;
            Self::empty_scalar(mark, no_props())
        }
    }

    fn parse_flow_sequence_entry_mapping_end(&mut self) -> (r: Result<Event, Error>)
        requires
            old(self).state is FlowSequenceEntryMappingEnd,
            old(self).wf(),
            in_collection(old(self).state),
        ensures
            r matches Ok(e) ==> phase_step(old(self).doc_phase(), final(self).doc_phase(), final(self).open_kinds(), e.kind),
            r matches Ok(e) ==> kinds_step(old(self).open_kinds(), final(self).open_kinds(), e.kind),
            final(self).step_ok(r),
            old(self).ready() ==> (r matches Ok(e) && e.kind is MappingEnd) && final(self).state == State::FlowSequenceEntry,
            r matches Ok(e) ==> e.kind is MappingEnd && final(self).state == State::FlowSequenceEntry,
    {
        let mark = self.peek_mark()?;
        self.state = State::FlowSequenceEntry;
        Self::event(EventKind::MappingEnd, mark, mark)
    }

    #[verifier::spinoff_prover]
    #[verifier::rlimit(60)]
    fn parse_flow_mapping_key(&mut self, first: bool) -> (r: Result<Event, Error>)
        requires
            old(self).state is FlowMappingFirstKey || old(self).state is FlowMappingKey,
            old(self).wf(),
            in_collection(old(self).state),
        ensures
            r matches Ok(e) ==> phase_step(old(self).doc_phase(), final(self).doc_phase(), final(self).open_kinds(), e.kind),
            r matches Ok(e) ==> kinds_step(old(self).open_kinds(), final(self).open_kinds(), e.kind),
            final(self).step_ok(r),
            !first && old(self).ready() && old(self).next_type() == TokenType::FlowMappingEnd ==> (r matches Ok(e)
                && e.kind is MappingEnd) && final(self).state == old(self).states@.last(),
            !first && old(self).ready() && old(self).next_type() != TokenType::FlowMappingEnd && old(self).next_type()
                != TokenType::FlowEntry ==> r is Err,
    {
        if first {
            self.peek()?;
            self.next();
        }
        if self.peek()? != TokenType::FlowMappingEnd {
            if !first {
                if self.peek()? == TokenType::FlowEntry {
                    self.next();
                } else {
                    return self.error("did not find expected ',' or '}'");
                }
            }
            let ty = self.peek()?;
            if ty == TokenType::Key {
                let token = self.next();
                let ty = self.peek()?;
                if ty == TokenType::Value || ty == TokenType::FlowEntry || ty == TokenType::FlowMappingEnd {
                    self.state = State::FlowMappingValue;
                    return Self::empty_scalar(token.end, no_props());
                } else {
                    self.push_state(State::FlowMappingValue);
                    return self.parse_node(false, false);
                }
            } else if ty == TokenType::Value {
                let mark = self.peek_mark()?;
                self.state = State::FlowMappingValue;
                return Self::empty_scalar(mark, no_props());
            } else if ty != TokenType::FlowMappingEnd {
                self.push_state(State::FlowMappingEmptyValue);
                return self.parse_node(false, false);
            }
        }
        self.peek()?;
        let token = self.next();
        self.pop_state();
        Self::event(EventKind::MappingEnd, token.start, token.end)
    }

    #[verifier::spinoff_prover]
    #[verifier::rlimit(60)]
    fn parse_flow_mapping_value(&mut self, empty: bool) -> (r: Result<Event, Error>)
        requires
            old(self).state is FlowMappingValue || old(self).state is FlowMappingEmptyValue,
            old(self).wf(),
            in_collection(old(self).state),
        ensures
            r matches Ok(e) ==> phase_step(old(self).doc_phase(), final(self).doc_phase(), final(self).open_kinds(), e.kind),
            r matches Ok(e) ==> kinds_step(old(self).open_kinds(), final(self).open_kinds(), e.kind),
            final(self).step_ok(r),
            old(self).ready() && (empty || old(self).next_type() != TokenType::Value) ==> (r matches Ok(e) && is_empty_scalar(
                e.kind,
            )) && final(self).state == State::FlowMappingKey,
    {
        let mark = self.peek_mark()?;
        if empty {
            self.state = State::FlowMappingKey;
            return Self::empty_scalar(mark, no_props());
        }
        if self.peek()? == TokenType::Value {
            let token = self.next();
            let ty = self.peek()?;
            if ty == TokenType::FlowEntry || ty == TokenType::FlowMappingEnd {
                self.state = State::FlowMappingKey;
                Self::empty_scalar(token.end, no_props())
            } else {
                self.push_state(State::FlowMappingKey);
                self.parse_node(false, false)
            }
        } else {
            self.state = State::FlowMappingKey;
            Self::empty_scalar(mark, no_props())
        }
    }
}

} // verus!
