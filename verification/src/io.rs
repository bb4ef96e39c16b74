//! Reading YAML streams: splitting the input into documents as it
//! arrives, and reading the documents.
use vstd::prelude::*;

use crate::de::{null_document, DeEvent, Deserializer, DeserializerConfig, EventLog, EventSink};
use crate::error::{Error, ErrorKind};
use crate::model::{Atom, DataEvent};

verus! {

/// The result of finding the next value in the input.
#[derive(Debug, Clone, Copy, PartialEq, Eq, Structural)]
pub enum Frame {
    /// The next value is complete: its bytes are `input[start..end]`, the
    /// first `consumed` bytes of the input are discarded afterwards.
    Value { start: usize, end: usize, consumed: usize },
    /// The input does not contain a complete value; the first `consumed`
    /// bytes are discarded.
    Incomplete { consumed: usize },
    /// There are no more values.
    End,
}

/// The progress of a value that is read while its input arrives.
#[derive(Debug, Clone, Copy, PartialEq, Eq, Structural)]
pub enum Progress {
    /// The value is complete, it used the first `consumed` bytes.
    Done { consumed: usize },
    /// The value needs more input; the first `consumed` bytes were used.
    NeedMore { consumed: usize },
    /// There are no more values.
    End,
}

/// The kind of a line for splitting documents.
#[derive(Debug, Clone, Copy, PartialEq, Eq, Structural)]
pub enum Line {
    /// `---`
    DocumentStart,
    /// `...`
    DocumentEnd,
    /// Blank lines, comments and directives.
    Other,
    /// Anything else.
    Content,
}

/// The line without a leading byte order mark.
pub open spec fn without_bom(line: Seq<u8>) -> Seq<u8> {
    if line.len() >= 3 && line[0] == 0xef && line[1] == 0xbb && line[2] == 0xbf {
        line.skip(3)
    } else {
        line
    }
}

pub open spec fn is_blank_byte(b: u8) -> bool {
    b == 0x20 || b == 0x09 || b == 0x0d || b == 0x0a
}

/// The line starts with the three bytes of a marker that stand alone.
pub open spec fn is_marker(line: Seq<u8>, m: u8) -> bool {
    line.len() >= 3 && line[0] == m && line[1] == m && line[2] == m && (line.len() == 3 || is_blank_byte(
        line[3],
    ))
}

/// The first byte that is not blank.
pub open spec fn first_non_blank(line: Seq<u8>) -> Option<u8>
    decreases line.len(),
{
    if line.len() == 0 {
        None
    } else if !is_blank_byte(line[0]) {
        Some(line[0])
    } else {
        first_non_blank(line.drop_first())
    }
}

/// The kind of a line (including its line break).
pub open spec fn line_kind(line: Seq<u8>) -> Line {
    let l = without_bom(line);
    if is_marker(l, 0x2d) {
        Line::DocumentStart
    } else if is_marker(l, 0x2e) {
        Line::DocumentEnd
    } else {
        match first_non_blank(l) {
            None => Line::Other,
            Some(b) => if b == 0x23 || (b == 0x25 && l[0] == 0x25) {
                Line::Other
            } else {
                Line::Content
            },
        }
    }
}

fn marker_at(line: &[u8], start: usize, m: u8) -> (r: bool)
    requires
        start <= line@.len(),
    ensures
        r == is_marker(line@.skip(start as int), m),
{
    let n = line.len() - start;
    let r = n >= 3 && line[start] == m && line[start + 1] == m && line[start + 2] == m && (n == 3 || line[start + 3]
        == 0x20 || line[start + 3] == 0x09 || line[start + 3] == 0x0d || line[start + 3] == 0x0a);
    let ghost l = line@.skip(start as int);
    assert(n >= 3 ==> l[0] == line@[start as int] && l[1] == line@[start + 1] && l[2] == line@[start + 2]);
    assert(n > 3 ==> l[3] == line@[start + 3]);
    r
}

/// Classifies a line (including its line break).
pub fn classify(line: &[u8]) -> (r: Line)
    ensures
        r == line_kind(line@),
{
    let start: usize = if line.len() >= 3 && line[0] == 0xef && line[1] == 0xbb && line[2] == 0xbf { 3 } else { 0 };
    let ghost l = without_bom(line@);
    assert(l =~= line@.skip(start as int));
    if marker_at(line, start, 0x2d) {
        return Line::DocumentStart;
    }
    if marker_at(line, start, 0x2e) {
        return Line::DocumentEnd;
    }
    let mut i = start;
    while i < line.len() && (line[i] == 0x20 || line[i] == 0x09 || line[i] == 0x0d || line[i] == 0x0a)
        invariant
            start <= i <= line@.len(),
            l == line@.skip(start as int),
            first_non_blank(line@.skip(i as int)) == first_non_blank(l),
        decreases line@.len() - i,
    {
        assert(line@.skip(i + 1) =~= line@.skip(i as int).drop_first());
        i = i + 1;
    }
    if i == line.len() {
        assert(line@.skip(i as int).len() == 0);
        return Line::Other;
    }
    assert(line@.skip(i as int)[0] == line@[i as int]);
    let b = line[i];
    if b == 0x23 || (b == 0x25 && line[start] == 0x25) {
        Line::Other
    } else {
        Line::Content
    }
}

/// The state of a YAML stream that is read.
#[derive(Debug, Clone, Copy, PartialEq, Eq, Structural)]
pub struct StreamState {
    /// The start of the next line to scan.
    pub pos: usize,
    /// The lines scanned so far contain a document.
    pub has_document: bool,
}

impl StreamState {
    /// The state at the start of a stream.
    pub fn new() -> (s: StreamState)
        ensures
            s.pos == 0,
            !s.has_document,
    {
        StreamState { pos: 0, has_document: false }
    }

    /// Ends the document at `end`; the next one starts there.
    pub fn document(&mut self, end: usize) -> (f: Frame)
        ensures
            f == (Frame::Value { start: 0, end, consumed: end }),
            final(self).pos == 0,
            !final(self).has_document,
    {
        self.pos = 0;
        self.has_document = false;
        Frame::Value { start: 0, end, consumed: end }
    }
}

/// The position after the first line break at or after `pos`, if there is
/// one.
pub open spec fn newline_after(input: Seq<u8>, pos: int) -> Option<int>
    decreases input.len() - pos,
{
    if pos < 0 || pos >= input.len() {
        None
    } else if input[pos] == 0x0a {
        Some(pos + 1)
    } else {
        newline_after(input, pos + 1)
    }
}

/// The position after the next line break at or after `pos`.
fn line_end(input: &[u8], pos: usize) -> (r: Option<usize>)
    requires
        pos <= input@.len(),
    ensures
        r matches Some(e) ==> pos < e <= input@.len() && input@[e - 1] == 0x0a && forall|k: int|
            pos <= k < e - 1 ==> input@[k] != 0x0a,
        r is None ==> forall|k: int| pos <= k < input@.len() ==> input@[k] != 0x0a,
        match r {
            Some(e) => newline_after(input@, pos as int) == Some(e as int),
            None => newline_after(input@, pos as int) is None,
        },
{
    let mut i = pos;
    while i < input.len()
        invariant
            pos <= i <= input@.len(),
            forall|k: int| pos <= k < i ==> input@[k] != 0x0a,
            newline_after(input@, pos as int) == newline_after(input@, i as int),
        decreases input@.len() - i,
    {
        if input[i] == 0x0a {
            return Some(i + 1);
        }
        i = i + 1;
    }
    None
}

/// How the next document is found: the frame, and the position and
/// whether the lines scanned hold a document afterwards.  Lines are
/// scanned from `pos`; a document ends before a `---` line or after a
/// `...` line that follows it, or at the end of the input.  Without `eof`,
/// a line without its line break is waited for.
pub open spec fn frame_spec(input: Seq<u8>, pos: int, has_document: bool, eof: bool) -> (Frame, int, bool)
    decreases input.len() - pos,
{
    if pos < 0 || pos > input.len() {
        (Frame::End, pos, has_document)
    } else {
        match newline_after(input, pos) {
            None => if !eof {
                (Frame::Incomplete { consumed: 0 }, pos, has_document)
            } else if pos == input.len() {
                if has_document {
                    (Frame::Value { start: 0, end: input.len() as usize, consumed: input.len() as usize }, 0, false)
                } else {
                    (Frame::End, pos, has_document)
                }
            } else {
                frame_line(input, pos, input.len() as int, has_document, eof)
            },
            Some(end) => frame_line(input, pos, end, has_document, eof),
        }
    }
}

/// How the line from `pos` to `end` (`pos < end`) decides the frame.
pub open spec fn frame_line(input: Seq<u8>, pos: int, end: int, has_document: bool, eof: bool) -> (Frame, int, bool)
    decreases input.len() - pos, 0int,
{
    if pos < end <= input.len() {
        match line_kind(input.subrange(pos, end)) {
            Line::DocumentStart => if has_document {
                (Frame::Value { start: 0, end: pos as usize, consumed: pos as usize }, 0, false)
            } else {
                frame_spec(input, end, true, eof)
            },
            Line::Content => frame_spec(input, end, true, eof),
            Line::DocumentEnd => if has_document {
                (Frame::Value { start: 0, end: end as usize, consumed: end as usize }, 0, false)
            } else {
                frame_spec(input, end, has_document, eof)
            },
            Line::Other => frame_spec(input, end, has_document, eof),
        }
    } else {
        (Frame::End, pos, has_document)
    }
}

proof fn lemma_newline_after_range(input: Seq<u8>, pos: int)
    requires
        newline_after(input, pos) is Some,
    ensures
        pos < newline_after(input, pos)->0 <= input.len(),
    decreases input.len() - pos,
{
    if 0 <= pos < input.len() && input[pos] != 0x0a {
        lemma_newline_after_range(input, pos + 1);
    }
}

/// A line break that the input holds is found the same where more input
/// follows.
proof fn lemma_newline_after_prefix(a: Seq<u8>, c: Seq<u8>, pos: int)
    requires
        newline_after(a, pos) is Some,
    ensures
        newline_after(a + c, pos) == newline_after(a, pos),
    decreases a.len() - pos,
{
    assert((a + c)[pos] == a[pos]);
    if a[pos] != 0x0a {
        lemma_newline_after_prefix(a, c, pos + 1);
    }
}

/// Once a document is found in the input read so far, more input does not
/// change it: the document, what is consumed and the state afterwards are
/// the same whatever follows, so documents do not depend on how the
/// stream is split into chunks.
pub proof fn lemma_frame_chunks(a: Seq<u8>, c: Seq<u8>, pos: int, has_document: bool, eof: bool)
    requires
        0 <= pos <= a.len(),
        frame_spec(a, pos, has_document, false).0 is Value,
    ensures
        frame_spec(a + c, pos, has_document, eof) == frame_spec(a, pos, has_document, false),
    decreases a.len() - pos,
{
    let end = newline_after(a, pos)->0;
    lemma_newline_after_range(a, pos);
    lemma_newline_after_prefix(a, c, pos);
    assert((a + c).subrange(pos, end) =~= a.subrange(pos, end));
    match line_kind(a.subrange(pos, end)) {
        Line::DocumentStart => {
            if !has_document {
                lemma_frame_chunks(a, c, end, true, eof);
            }
        },
        Line::Content => {
            lemma_frame_chunks(a, c, end, true, eof);
        },
        Line::DocumentEnd => {
            if !has_document {
                lemma_frame_chunks(a, c, end, has_document, eof);
            }
        },
        Line::Other => {
            lemma_frame_chunks(a, c, end, has_document, eof);
        },
    }
}

/// Finds the next document in the input.
///
/// A document ends where the next one starts (at a `---` line) or at a
/// document end marker (`...`).  Comments and directives before a document
/// belong to it.  The input holds the data read so far (minus what was
/// consumed); `eof` is `true` if no more data follows.
pub fn frame(state: &mut StreamState, input: &[u8], eof: bool) -> (r: Result<Frame, Error>)
    requires
        old(state).pos <= input@.len(),
        old(state).has_document ==> old(state).pos > 0,
    ensures
        r is Ok,
        r matches Ok(Frame::Value { start, end, consumed }) ==> start == 0 && end == consumed && 0 < end <= input@.len()
            && final(state).pos == 0 && !final(state).has_document,
        final(state).has_document ==> final(state).pos > 0,
        r matches Ok(Frame::Incomplete { consumed }) ==> consumed == 0 && !eof,
        r matches Ok(Frame::End) ==> eof,
        final(state).pos <= input@.len(),
        (r->Ok_0, final(state).pos as int, final(state).has_document) == frame_spec(
            input@,
            old(state).pos as int,
            old(state).has_document,
            eof,
        ),
{
    while state.pos <= input.len()
        invariant
            state.pos <= input@.len(),
            state.has_document ==> state.pos > 0,
            frame_spec(input@, old(state).pos as int, old(state).has_document, eof) == frame_spec(
                input@,
                state.pos as int,
                state.has_document,
                eof,
            ),
        decreases input@.len() - state.pos,
    {
        let end = match line_end(input, state.pos) {
            Some(e) => e,
            None => {
                if eof {
                    input.len()
                } else {
                    // wait for the whole line
                    return Ok(Frame::Incomplete { consumed: 0 });
                }
            },
        };
        if end == state.pos {
            // the end of the stream
            if state.has_document {
                let n = input.len();
                return Ok(state.document(n));
            } else {
                return Ok(Frame::End);
            }
        }
        let line = crate::text::sub_bytes(input, state.pos, end);
        match classify(&line) {
            Line::DocumentStart => {
                if state.has_document {
                    let p = state.pos;
                    return Ok(state.document(p));
                }
                state.has_document = true;
            },
            Line::Content => {
                state.has_document = true;
            },
            Line::DocumentEnd => {
                if state.has_document {
                    return Ok(state.document(end));
                }
            },
            Line::Other => {},
        }
        state.pos = end;
    }
    Ok(Frame::End)
}


/// What reading a stream needs next.
pub enum ReadStep {
    /// More input is needed (or the end of the input).
    NeedInput,
    /// A document was read into the sink (errors only discard their
    /// document).
    Document(Result<(), Error>),
    /// There are no more documents.
    End,
}

/// Passes events on with their ranges moved into the stream.
pub struct ShiftedSink<'a, S> {
    pub inner: &'a mut S,
    pub offset: usize,
}

impl<'a, S: EventSink> EventSink for ShiftedSink<'a, S> {
    fn event(&mut self, event: DeEvent) -> Result<(), Error> {
        let shifted = DeEvent {
            start: event.start.saturating_add(self.offset),
            end: event.end.saturating_add(self.offset),
            ..event
        };
        self.inner.event(shifted)
    }
}

/// Reads the documents of a stream as its input arrives.
///
/// The caller hands the data read from the stream to
/// [`push_input`](Self::push_input) whenever [`next_step`](Self::next_step)
/// asks for input.  Input is only requested when the buffered data does not
/// hold a complete document.  Errors (including syntax errors) only discard
/// their document, reading continues with the next one.  Positions refer
/// to the stream.
pub struct StreamReader {
    config: DeserializerConfig,
    buffer: Vec<u8>,
    state: StreamState,
    eof: bool,
    /// The number of bytes discarded so far.
    offset: usize,
    /// The number of line breaks discarded so far.
    lines: usize,
}

/// The number of line feeds in the bytes.
pub open spec fn newline_count(bytes: Seq<u8>) -> nat
    decreases bytes.len(),
{
    if bytes.len() == 0 {
        0
    } else {
        newline_count(bytes.drop_last()) + if bytes.last() == 0x0a { 1nat } else { 0nat }
    }
}

/// `a + b`, or the largest `usize` where that does not fit.
pub open spec fn saturating_sum(a: usize, b: usize) -> usize {
    if a + b > usize::MAX {
        usize::MAX
    } else {
        (a + b) as usize
    }
}

fn count_newlines(bytes: &[u8], n: usize) -> (r: usize)
    requires
        n <= bytes@.len(),
    ensures
        r <= n,
        r == newline_count(bytes@.take(n as int)),
{
    let mut count: usize = 0;
    let mut i: usize = 0;
    while i < n
        invariant
            i <= n,
            n <= bytes@.len(),
            count <= i,
            count == newline_count(bytes@.take(i as int)),
        decreases n - i,
    {
        assert(bytes@.take(i + 1).drop_last() =~= bytes@.take(i as int));
        if bytes[i] == 0x0a {
            count = count + 1;
        }
        i = i + 1;
    }
    count
}

/// Moves the position of an error by the part of the stream before its
/// document.
fn shifted(err: Error, offset: usize, lines: usize) -> (r: Error)
    ensures
        r.kind == err.kind,
        r.message@ == err.message@,
        r.position == match err.position {
            Some((o, l, c)) => Some((saturating_sum(o, offset), saturating_sum(l, lines), c)),
            None => None::<(usize, usize, usize)>,
        },
        r.offset == match err.offset {
            Some(o) => Some(saturating_sum(o, offset)),
            None => None::<usize>,
        },
{
    let mut err = err;
    err.position = match err.position {
        Some((o, l, c)) => Some((o.saturating_add(offset), l.saturating_add(lines), c)),
        None => None,
    };
    err.offset = match err.offset {
        Some(o) => Some(o.saturating_add(offset)),
        None => None,
    };
    err
}

impl StreamReader {
    pub closed spec fn wf(&self) -> bool {
        &&& self.state.pos <= self.buffer@.len()
        &&& self.state.has_document ==> self.state.pos > 0
    }

    /// The number of bytes that are buffered.
    pub closed spec fn buffered(&self) -> nat {
        self.buffer@.len()
    }

    /// The bytes that are buffered.
    pub closed spec fn input(&self) -> Seq<u8> {
        self.buffer@
    }

    /// Where the buffered lines are scanned up to, and whether the lines
    /// scanned hold a document.
    pub closed spec fn scanned(&self) -> (int, bool) {
        (self.state.pos as int, self.state.has_document)
    }

    /// How the buffered input is framed now.
    pub open spec fn next_frame(&self) -> (Frame, int, bool) {
        frame_spec(self.input(), self.scanned().0, self.scanned().1, self.at_eof())
    }

    /// Whether the end of the input was reported.
    pub closed spec fn at_eof(&self) -> bool {
        self.eof
    }

    /// The configuration of the documents.
    pub closed spec fn spec_config(&self) -> DeserializerConfig {
        self.config
    }

    /// The number of bytes and of line feeds discarded so far.
    pub closed spec fn discarded(&self) -> (usize, usize) {
        (self.offset, self.lines)
    }

    /// Creates a reader of a stream.
    pub fn new(config: DeserializerConfig) -> (r: StreamReader)
        ensures
            r.wf(),
            !r.at_eof(),
            r.input().len() == 0,
            r.scanned() == (0int, false),
            r.spec_config() == config,
            r.discarded() == (0usize, 0usize),
    {
        StreamReader { config, buffer: Vec::new(), state: StreamState::new(), eof: false, offset: 0, lines: 0 }
    }

    /// Adds data read from the stream; empty data is the end of the input.
    pub fn push_input(&mut self, data: &[u8])
        requires
            old(self).wf(),
        ensures
            final(self).wf(),
            final(self).at_eof() == (old(self).at_eof() || data@.len() == 0),
            final(self).input() == old(self).input() + data@,
            final(self).scanned() == old(self).scanned(),
    {
        if data.len() == 0 {
            assert(old(self).input() + data@ =~= old(self).input());
            self.eof = true;
            return;
        }
        let mut i: usize = 0;
        while i < data.len()
            invariant
                i <= data@.len(),
                self.state.pos <= self.buffer@.len(),
                self.state.has_document ==> self.state.pos > 0,
                self.eof == old(self).eof,
                self.buffer@ == old(self).buffer@ + data@.take(i as int),
                self.state == old(self).state,
            decreases data@.len() - i,
        {
            self.buffer.push(data[i]);
            assert(data@.take(i + 1) =~= data@.take(i as int).push(data@[i as int]));
            i = i + 1;
        }
        assert(data@.take(data@.len() as int) =~= data@);
    }

    /// Discards the first bytes of the buffer.
    fn discard(&mut self, n: usize)
        requires
            n <= old(self).buffer@.len(),
            old(self).state.pos == 0,
            !old(self).state.has_document,
        ensures
            final(self).wf(),
            final(self).eof == old(self).eof,
            final(self).buffer@.len() == old(self).buffer@.len() - n,
            final(self).buffer@ == old(self).buffer@.skip(n as int),
            final(self).state == old(self).state,
    {
        let lines = count_newlines(&self.buffer, n);
        self.lines = self.lines.saturating_add(lines);
        self.offset = self.offset.saturating_add(n);
        let rest = crate::text::sub_bytes(&self.buffer, n, self.buffer.len());
        self.buffer = rest;
    }

    /// Reads the document in a frame into the sink.
    fn read_frame<S: EventSink>(&self, bytes: &[u8], sink: &mut S) -> (r: Result<(), Error>)
        ensures
            !vstd::utf8::valid_utf8(bytes@) ==> (r matches Err(e) && e.kind == ErrorKind::Unexpected && e.message@
                == "invalid UTF-8"@ && e.position is None && e.offset is Some),
    {
        let mut de = Deserializer::from_slice_with_config(bytes, &self.config);
        let mut shifted_sink = ShiftedSink { inner: sink, offset: self.offset };
        match de.drive(&mut shifted_sink) {
            Ok(()) => {},
            Err(e) => return Err(shifted(e, self.offset, self.lines)),
        }
        match de.end() {
            Ok(()) => Ok(()),
            Err(e) => Err(shifted(e, self.offset, self.lines)),
        }
    }

    /// Reads the next document if the buffered input holds one.
    pub fn next_step<S: EventSink>(&mut self, sink: &mut S) -> (r: ReadStep)
        requires
            old(self).wf(),
        ensures
            final(self).wf(),
            final(self).at_eof() == old(self).at_eof(),
            r is NeedInput ==> !old(self).at_eof(),
            r is End ==> old(self).at_eof(),
            r is Document ==> final(self).buffered() < old(self).buffered(),
            r is NeedInput <==> old(self).next_frame().0 is Incomplete,
            r is End <==> old(self).next_frame().0 is End,
            r is Document <==> old(self).next_frame().0 is Value,
            old(self).next_frame().0 matches Frame::Value { consumed, .. } ==> final(self).input() == old(
                self,
            ).input().skip(consumed as int) && final(self).scanned() == (0int, false),
            !(old(self).next_frame().0 is Value) ==> final(self).input() == old(self).input() && final(self).scanned()
                == (old(self).next_frame().1, old(self).next_frame().2),
    {
        match frame(&mut self.state, &self.buffer, self.eof) {
            Ok(Frame::Value { start, end, consumed }) => {
                let bytes = crate::text::sub_bytes(&self.buffer, start, end);
                let result = self.read_frame(&bytes, sink);
                self.discard(consumed);
                ReadStep::Document(result)
            },
            Ok(Frame::Incomplete { .. }) => ReadStep::NeedInput,
            Ok(Frame::End) => ReadStep::End,
            Err(e) => ReadStep::Document(Err(e)),
        }
    }

    /// The position of the buffered input in the stream: offset, one based
    /// line and column.
    fn position(&self) -> (r: (usize, usize, usize))
        ensures
            r == (self.offset, saturating_sum(self.lines, 1), 1usize),
    {
        (self.offset, self.lines.saturating_add(1), 1)
    }
}

/// Reads the only document of a stream (a null for an empty stream) from
/// the chunks read from it.  A second document is an error at its start.
pub fn read_single(config: DeserializerConfig, chunks: &[Vec<u8>]) -> (r: Result<Vec<DeEvent>, Error>)
    ensures
        chunks@.len() == 0 || chunks@[0]@.len() == 0 ==> (r matches Ok(v) && null_document(v@)),
{
    let ghost empty = chunks@.len() == 0 || chunks@[0]@.len() == 0;
    let mut reader = StreamReader::new(config);
    let mut next_chunk: usize = 0;
    let mut value: Option<Vec<DeEvent>> = None;
    let mut first = true;
    let mut steps: usize = 0;
    while steps < crate::de::MAX_STEPS
        invariant
            reader.wf(),
            empty == (chunks@.len() == 0 || chunks@[0]@.len() == 0),
            empty ==> {
                &&& steps <= 1
                &&& value is None
                &&& reader.input().len() == 0
                &&& reader.scanned() == (0int, false)
                &&& reader.at_eof() == (steps == 1)
                &&& steps == 0 ==> next_chunk == 0
            },
        decreases crate::de::MAX_STEPS - steps,
    {
        steps = steps + 1;
        let before = reader.position();
        let mut log = EventLog { events: Vec::new() };
        match reader.next_step(&mut log) {
            ReadStep::NeedInput => {
                if next_chunk < chunks.len() {
                    reader.push_input(&chunks[next_chunk]);
                    next_chunk = next_chunk + 1;
                } else {
                    reader.push_input(&[]);
                }
            },
            ReadStep::Document(result) => {
                if first {
                    match result {
                        Ok(()) => {
                            value = Some(log.events);
                            first = false;
                        },
                        Err(e) => return Err(e),
                    }
                } else {
                    let mut err = Error::new(ErrorKind::Unexpected, "expected a single document, found more");
                    err.position = Some(before);
                    return Err(err);
                }
            },
            ReadStep::End => {
                return match value {
                    Some(events) => Ok(events),
                    None => {
                        let mut out: Vec<DeEvent> = Vec::new();
                        out.push(DeEvent { event: DataEvent::Atom(Atom::Null), tag: None, start: 0, end: 0, compact: false });
                        Ok(out)
                    },
                };
            },
        }
    }
    Err(Error::new(ErrorKind::Unexpected, "too many events"))
}

} // verus!
