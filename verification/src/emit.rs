//! The emitter: writes data model events as one YAML document.
//!
//! The emitter writes block collections.  Containers are held back until
//! their first item is known so that empty containers can be written as
//! `{}` and `[]` and the layout does not need to be patched afterwards.
use vstd::prelude::*;

use crate::encoding::{BytesEncoding, BytesFormat};
use crate::error::{Error, ErrorKind};
use crate::model::{Atom, DataEvent, Datetime, FloatRepr};
use crate::quote::{
    double_quoted_body, is_plain_safe, is_single_quote_safe, lemma_double_quoted_reads_back, lemma_plain_safe_reads_back,
    lemma_single_quoted_reads_back, no_escapes, push_indent, single_quoted_body, spec_block_safe, spec_plain_safe,
    trim_newlines, write_double_quoted, write_single_quoted, write_tag, Literal, MAX_SIMPLE_KEY_LEN,
};
use crate::resolve::{
    all_ascii_digits, find_char, float_text, is_ascii_digit, is_decimal, is_plain_string, lemma_find_char,
    lemma_float_text_reads_back, plain_result,
};
use crate::scanner::quoted_line;
use crate::resolve::Version;
use crate::ser::{MultilineStyle, NullStyle, QuoteStyle, SerEvent, SerializerConfig};
use crate::text::{chars_to_string, decimal, decimal_chars, push_chars, str_chars, string_push, string_push_chars};

verus! {

/// The length of the lines of long `!!binary` values.
pub const BINARY_LINE_LEN: usize = 76;

/// Where the next node is written.
#[derive(Debug, Clone, Copy)]
enum Pos {
    /// The root of the document.
    Root,
    /// After an indicator (`-`, `?` or the `:` of an explicit key), the
    /// content of the node starts at the given column.
    Inline(usize),
    /// The value of a simple key of a mapping at the given column.
    Value(usize),
}

/// An open block collection.
struct Frame {
    is_map: bool,
    /// The column of the keys or dashes.
    indent: usize,
    /// `true` if the next entry continues the current line.
    inline: bool,
    /// For maps: `true` if the next node is a value.
    value: bool,
    /// For maps: `true` if the key of the current entry is explicit (`?`).
    explicit: bool,
}

/// A collection whose first event was seen but that was not written yet.
struct Pending {
    is_map: bool,
    tag: Option<String>,
    pos: Pos,
}

/// A scalar that was rendered for a position.
enum Scalar {
    /// Text that is written as is.
    Text(Vec<char>),
    /// A literal block scalar.
    Literal(Literal),
    /// Nothing (a null with the empty null style).
    Empty,
}

/// Writes the events of one document.
pub struct Emitter {
    config: SerializerConfig,
    out: String,
    stack: Vec<Frame>,
    pending: Option<Pending>,
    /// `true` if a space has to be written before the next inline content.
    space: bool,
    /// `true` once the root value was written.
    done: bool,
    /// `true` if the current line was already terminated (after block
    /// scalars).
    line_done: bool,
}

/// A space where one is due.
pub open spec fn space_text(space: bool) -> Seq<char> {
    if space {
        seq![' ']
    } else {
        Seq::empty()
    }
}

/// A line break (unless the line was already ended) and an indentation.
pub open spec fn newline_text(line_done: bool, indent: nat) -> Seq<char> {
    (if line_done {
        Seq::empty()
    } else {
        seq!['\n']
    }) + crate::quote::spaces(indent)
}

/// `n + 2`, at most `usize::MAX`.
pub open spec fn saturating_add2(n: usize) -> usize {
    if n + 2 > usize::MAX {
        usize::MAX
    } else {
        (n + 2) as usize
    }
}

/// Wraps base64 into a literal block of lines.
fn wrap_binary(encoded: &[char]) -> (l: Literal)
    ensures
        l.trailing == 1,
        !l.needs_indicator,
{
    let mut lines: Vec<char> = Vec::new();
    let mut i: usize = 0;
    while i < encoded.len()
        invariant
            i <= encoded@.len(),
        decreases encoded@.len() - i,
    {
        if i > 0 && i % BINARY_LINE_LEN == 0 {
            lines.push('\n');
        }
        lines.push(encoded[i]);
        i = i + 1;
    }
    Literal::from_lines(lines)
}

impl Emitter {
    /// The kinds of the open collections (`true` for mappings), outermost
    /// first, including the one whose first item is not known yet.
    pub closed spec fn open_kinds(&self) -> Seq<bool> {
        self.stack@.map_values(|f: Frame| f.is_map) + match self.pending {
            Some(p) => seq![p.is_map],
            None => Seq::empty(),
        }
    }

    /// The root value was written completely.
    pub closed spec fn is_complete(&self) -> bool {
        self.done && self.stack@.len() == 0 && self.pending is None
    }

    /// The internal invariant.
    pub closed spec fn wf(&self) -> bool {
        &&& self.done ==> self.stack@.len() == 0 && self.pending is None
    }

    /// The text written so far.
    pub closed spec fn text(&self) -> Seq<char> {
        self.out@
    }

    /// The configuration.
    pub closed spec fn spec_config(&self) -> SerializerConfig {
        self.config
    }

    /// Nothing of the document was written yet.
    pub closed spec fn at_start(&self) -> bool {
        &&& self.stack@.len() == 0
        &&& self.pending is None
        &&& !self.done
        &&& !self.space
        &&& !self.line_done
    }

    /// A block sequence at the root was started and has no item yet.
    pub closed spec fn root_seq_started(&self) -> bool {
        &&& self.pending == Some(Pending { is_map: false, tag: None, pos: Pos::Root })
        &&& self.stack@.len() == 0 && !self.done && !self.space && !self.line_done
    }

    /// A block sequence at the root has items; the next one starts a new
    /// line.
    pub closed spec fn root_seq_continued(&self) -> bool {
        &&& self.pending is None && !self.done && !self.space && !self.line_done
        &&& self.stack@.len() == 1 && !self.stack@[0].is_map && !self.stack@[0].inline && self.stack@[0].indent == 0
    }

    /// A block mapping at the root was started and has no entry yet.
    pub closed spec fn root_map_started(&self) -> bool {
        &&& self.pending == Some(Pending { is_map: true, tag: None, pos: Pos::Root })
        &&& self.stack@.len() == 0 && !self.done && !self.space && !self.line_done
    }

    /// A block mapping at the root has entries; the next key starts a new
    /// line.
    pub closed spec fn root_map_key_next(&self) -> bool {
        &&& self.pending is None && !self.done && !self.space && !self.line_done
        &&& self.stack@.len() == 1 && self.stack@[0] == (Frame {
            is_map: true,
            indent: 0,
            inline: false,
            value: false,
            explicit: false,
        })
    }

    /// A key of a block mapping at the root was written; its value follows.
    pub closed spec fn root_map_value_next(&self) -> bool {
        &&& self.pending is None && !self.done && self.space && !self.line_done
        &&& self.stack@.len() == 1 && self.stack@[0] == (Frame {
            is_map: true,
            indent: 0,
            inline: false,
            value: true,
            explicit: false,
        })
    }

    /// A block sequence is open and written, and its next item follows.
    pub closed spec fn in_block_sequence(&self) -> bool {
        &&& self.pending is None
        &&& !self.done
        &&& self.stack@.len() > 0
        &&& !self.stack@.last().is_map
    }

    /// What the next entry of the innermost collection starts with.
    pub closed spec fn next_entry_text(&self) -> Seq<char> {
        self.entry_text()
    }

    /// The last line written is not terminated yet.
    pub closed spec fn line_open(&self) -> bool {
        !self.line_done
    }

    /// Creates an emitter that appends to `out`.
    pub fn new(config: &SerializerConfig, out: String) -> (e: Emitter)
        ensures
            e.wf(),
            e.open_kinds() == Seq::<bool>::empty(),
            !e.is_complete(),
            e.text() == out@,
            e.at_start(),
            e.spec_config() == *config,
    {
        let e = Emitter {
            config: *config,
            out,
            stack: Vec::new(),
            pending: None,
            space: false,
            done: false,
            line_done: false,
        };
        assert(e.open_kinds() =~= Seq::<bool>::empty());
        e
    }

    /// Finishes the document and returns the output.  Fails if the
    /// document is not complete.
    pub fn finish(self) -> (r: Result<String, Error>)
        ensures
            r is Ok <==> self.is_complete(),
            r matches Ok(s) ==> s@ == self.text() || s@ == self.text().push('\n'),
            self.line_open() ==> (r matches Ok(s) ==> s@ == self.text().push('\n')),
            r matches Err(e) ==> e.kind == ErrorKind::Unexpected && e.message@ == "incomplete document"@,
    {
        if !self.done || self.stack.len() > 0 || self.pending.is_some() {
            return Err(Error::new(ErrorKind::Unexpected, "incomplete document"));
        }
        let mut out = self.out;
        if !self.line_done {
            string_push(&mut out, '\n');
        }
        Ok(out)
    }

    /// Writes the next event of the document.
    pub fn event(&mut self, event: &SerEvent) -> (r: Result<(), Error>)
        requires
            old(self).wf(),
        ensures
            final(self).wf(),
            final(self).spec_config() == old(self).spec_config(),
            old(self).at_start() && event.tag is None && event_root_text(event.event, old(self).spec_config()) is Some
                ==> r is Ok && final(self).text() == old(self).text() + event_root_text(
                event.event,
                old(self).spec_config(),
            )->0 && final(self).is_complete() && final(self).line_open(),
            old(self).is_complete() ==> r is Err,
            old(self).is_complete() && !(event.event is MapEnd || event.event is SeqEnd) ==> (r matches Err(e) && e.kind
                == ErrorKind::Unexpected && e.message@ == "a document can only contain one value"@),
            (old(self).is_complete() || old(self).at_start()) && (event.event is MapEnd || event.event is SeqEnd) ==> (r matches Err(
                e,
            ) && e.kind == ErrorKind::Unexpected && e.message@ == "unexpected end event"@),
            old(self).at_start() && event.tag is None && event.event is SeqStart ==> r is Ok && final(self).text()
                == old(self).text() && final(self).root_seq_started(),
            old(self).root_seq_started() && event.event is SeqEnd ==> r is Ok && final(self).text() == old(
                self,
            ).text() + "[]"@ && final(self).is_complete() && final(self).line_open(),
            old(self).root_seq_started() && event.tag is None && event_item_text(event.event, old(self).spec_config()) is Some ==> r is Ok
                && final(self).text() == old(self).text() + seq!['-', ' '] + event_item_text(event.event, old(self).spec_config())->0
                && final(self).root_seq_continued(),
            old(self).root_seq_continued() && event.tag is None && event_item_text(event.event, old(self).spec_config()) is Some ==> r is Ok
                && final(self).text() == old(self).text() + seq!['\n', '-', ' '] + event_item_text(event.event, old(self).spec_config())->0
                && final(self).root_seq_continued(),
            old(self).root_seq_continued() && event.event is SeqEnd ==> r is Ok && final(self).text() == old(
                self,
            ).text() && final(self).is_complete() && final(self).line_open(),
            old(self).at_start() && event.tag is None && event.event is MapStart ==> r is Ok && final(self).text()
                == old(self).text() && final(self).root_map_started(),
            old(self).root_map_started() && event.event is MapEnd ==> r is Ok && final(self).text() == old(
                self,
            ).text() + "{}"@ && final(self).is_complete() && final(self).line_open(),
            old(self).root_map_started() && event.tag is None && event_key_text(event.event, old(self).spec_config()) is Some ==> r is Ok
                && final(self).text() == old(self).text() + event_key_text(event.event, old(self).spec_config())->0 + seq![':']
                && final(self).root_map_value_next(),
            old(self).root_map_key_next() && event.tag is None && event_key_text(event.event, old(self).spec_config()) is Some ==> r is Ok
                && final(self).text() == old(self).text() + seq!['\n'] + event_key_text(event.event, old(self).spec_config())->0 + seq![':']
                && final(self).root_map_value_next(),
            old(self).root_map_value_next() && event.tag is None && event_item_text(event.event, old(self).spec_config()) is Some ==> r is Ok
                && final(self).text() == old(self).text() + seq![' '] + event_item_text(event.event, old(self).spec_config())->0
                && final(self).root_map_key_next(),
            old(self).root_map_key_next() && event.event is MapEnd ==> r is Ok && final(self).text() == old(
                self,
            ).text() && final(self).is_complete() && final(self).line_open(),
            old(self).in_block_sequence() && event.tag is None && event_item_text(event.event, old(self).spec_config())
                is Some ==> r is Ok && final(self).text() == old(self).text() + old(self).next_entry_text() + seq![
                '-',
                ' ',
            ] + event_item_text(event.event, old(self).spec_config())->0 && final(self).in_block_sequence(),
            r is Ok ==> final(self).text().len() >= old(self).text().len() && final(self).text().take(
                old(self).text().len() as int,
            ) == old(self).text(),
            r is Ok ==> match event.event {
                DataEvent::MapStart => final(self).open_kinds() == old(self).open_kinds().push(true),
                DataEvent::SeqStart => final(self).open_kinds() == old(self).open_kinds().push(false),
                DataEvent::MapEnd => old(self).open_kinds().len() > 0 && old(self).open_kinds().last()
                    && final(self).open_kinds() == old(self).open_kinds().drop_last(),
                DataEvent::SeqEnd => old(self).open_kinds().len() > 0 && !old(self).open_kinds().last()
                    && final(self).open_kinds() == old(self).open_kinds().drop_last(),
                DataEvent::Atom(_) => final(self).open_kinds() == old(self).open_kinds(),
            },
    {
        let tag = match &event.tag {
            Some(t) => Some(t.clone()),
            None => None,
        };
        self.emit(&event.event, tag, event.bytes_format)
    }

    /// A complete document has no open collections.
    pub proof fn lemma_complete_closed(&self)
        ensures
            self.is_complete() ==> self.open_kinds() == Seq::<bool>::empty(),
    {
        if self.is_complete() {
            assert(self.open_kinds() =~= Seq::<bool>::empty());
        }
    }
}


/// `b` starts with `a`.
pub open spec fn extends(a: Seq<char>, b: Seq<char>) -> bool {
    a.len() <= b.len() && b.take(a.len() as int) == a
}

pub proof fn lemma_extends_trans(a: Seq<char>, b: Seq<char>, c: Seq<char>)
    requires
        extends(a, b),
        extends(b, c),
    ensures
        extends(a, c),
{
    assert(c.take(a.len() as int) =~= c.take(b.len() as int).take(a.len() as int));
}

proof fn lemma_extends_add(a: Seq<char>, x: Seq<char>)
    ensures
        extends(a, a + x),
{
    assert((a + x).take(a.len() as int) =~= a);
}

pub proof fn lemma_extends_refl(a: Seq<char>)
    ensures
        extends(a, a),
{
    assert(a.take(a.len() as int) =~= a);
}

impl Emitter {
    /// What moving to the next entry of the innermost collection writes:
    /// a space on the same line, or a line break and the indentation.
    spec fn entry_text(&self) -> Seq<char> {
        let frame = self.stack@.last();
        if frame.inline {
            space_text(self.space)
        } else {
            newline_text(self.line_done, frame.indent as nat)
        }
    }

    closed spec fn kinds(&self) -> Seq<bool> {
        self.stack@.map_values(|f: Frame| f.is_map)
    }

    /// Nothing but the text changed, and it was only appended to.
    closed spec fn appended(&self, old: &Emitter) -> bool {
        &&& self.config == old.config
        &&& self.kinds() == old.kinds()
        &&& self.pending == old.pending
        &&& self.done == old.done
        &&& extends(old.out@, self.out@)
    }

    fn push_char(&mut self, c: char)
        ensures
            final(self).out@ == old(self).out@ + seq![c],
            extends(old(self).out@, final(self).out@),
            final(self).stack == old(self).stack,
            final(self).pending == old(self).pending,
            final(self).done == old(self).done,
            final(self).config == old(self).config,
            final(self).space == old(self).space,
            final(self).line_done == old(self).line_done,
    {
        string_push(&mut self.out, c);
        assert(self.out@ =~= old(self).out@ + seq![c]);
        proof {
            lemma_extends_add(old(self).out@, seq![c]);
        }
    }

    fn push_text(&mut self, t: &[char])
        ensures
            final(self).out@ == old(self).out@ + t@,
            extends(old(self).out@, final(self).out@),
            final(self).stack == old(self).stack,
            final(self).pending == old(self).pending,
            final(self).done == old(self).done,
            final(self).config == old(self).config,
            final(self).space == old(self).space,
            final(self).line_done == old(self).line_done,
    {
        string_push_chars(&mut self.out, t);
        proof {
            lemma_extends_add(old(self).out@, t@);
        }
    }

    fn push_tag(&mut self, tag: &String)
        ensures
            extends(old(self).out@, final(self).out@),
            final(self).stack == old(self).stack,
            final(self).pending == old(self).pending,
            final(self).done == old(self).done,
            final(self).config == old(self).config,
            final(self).space == old(self).space,
            final(self).line_done == old(self).line_done,
    {
        write_tag(&mut self.out, tag.as_str());
        proof {
            lemma_extends_add(old(self).out@, crate::quote::tag_text(tag@));
        }
    }

    fn flush_space(&mut self)
        ensures
            extends(old(self).out@, final(self).out@),
            !old(self).space ==> final(self).out == old(self).out,
            final(self).out@ == old(self).out@ + space_text(old(self).space),
            !final(self).space,
            final(self).stack == old(self).stack,
            final(self).pending == old(self).pending,
            final(self).done == old(self).done,
            final(self).config == old(self).config,
            final(self).line_done == old(self).line_done,
    {
        proof {
            lemma_extends_refl(self.out@);
        }
        if self.space {
            self.push_char(' ');
            self.space = false;
            proof {
                lemma_extends_add(old(self).out@, seq![' ']);
            }
        }
    }

    fn newline(&mut self, indent: usize)
        ensures
            extends(old(self).out@, final(self).out@),
            final(self).out@ == old(self).out@ + newline_text(old(self).line_done, indent as nat),
            !final(self).space,
            !final(self).line_done,
            final(self).stack == old(self).stack,
            final(self).pending == old(self).pending,
            final(self).done == old(self).done,
            final(self).config == old(self).config,
    {
        let ghost o = self.out@;
        proof {
            lemma_extends_refl(o);
        }
        if !self.line_done {
            self.push_char('\n');
            proof {
                lemma_extends_add(o, seq!['\n']);
            }
        }
        self.line_done = false;
        let ghost m = self.out@;
        push_indent(&mut self.out, indent);
        proof {
            lemma_extends_add(m, crate::quote::spaces(indent as nat));
            lemma_extends_trans(o, m, self.out@);
        }
        self.space = false;
    }

    /// Writes the separator and the tag before inline content.
    fn write_inline_start(&mut self, tag: &Option<String>)
        ensures
            extends(old(self).out@, final(self).out@),
            !old(self).space && tag is None ==> final(self).out == old(self).out && !final(self).space,
            tag is None ==> final(self).out@ == old(self).out@ + space_text(old(self).space),
            !final(self).space,
            final(self).stack == old(self).stack,
            final(self).pending == old(self).pending,
            final(self).done == old(self).done,
            final(self).config == old(self).config,
            final(self).line_done == old(self).line_done,
    {
        let ghost o = self.out@;
        self.flush_space();
        match tag {
            Some(t) => {
                let ghost m = self.out@;
                self.push_tag(t);
                let ghost n = self.out@;
                self.push_char(' ');
                proof {
                    lemma_extends_add(n, seq![' ']);
                    lemma_extends_trans(m, n, self.out@);
                    lemma_extends_trans(o, m, self.out@);
                }
            },
            None => {},
        }
    }

    /// Records that a node was completed.
    fn complete(&mut self)
        ensures
            final(self).out == old(self).out,
            final(self).kinds() == old(self).kinds(),
            final(self).pending == old(self).pending,
            final(self).config == old(self).config,
            final(self).done == (old(self).done || old(self).stack@.len() == 0),
            final(self).stack@.len() == old(self).stack@.len(),
            final(self).space == old(self).space,
            final(self).line_done == old(self).line_done,
            old(self).stack@.len() > 0 && !old(self).stack@.last().is_map ==> final(self).stack@ == old(self).stack@,
            old(self).stack@.len() > 0 && old(self).stack@.last().is_map ==> final(self).stack@ == old(self).stack@.update(
                old(self).stack@.len() - 1,
                Frame {
                    value: !old(self).stack@.last().value,
                    explicit: if old(self).stack@.last().value { false } else { old(self).stack@.last().explicit },
                    ..old(self).stack@.last()
                },
            ),
    {
        let n = self.stack.len();
        if n == 0 {
            self.done = true;
            return;
        }
        let mut frame = self.stack.pop().unwrap();
        if frame.is_map {
            if frame.value {
                frame.explicit = false;
            }
            frame.value = !frame.value;
        }
        self.stack.push(frame);
        assert(self.kinds() =~= old(self).kinds());
    }

    /// Moves to the start of the next entry of the current collection.
    fn begin_entry(&mut self)
        requires
            old(self).stack@.len() > 0,
        ensures
            extends(old(self).out@, final(self).out@),
            final(self).out@ == old(self).out@ + old(self).entry_text(),
            final(self).stack@ == old(self).stack@.update(
                old(self).stack@.len() - 1,
                Frame { inline: false, ..old(self).stack@.last() },
            ),
            !final(self).space,
            old(self).stack@.last().inline ==> final(self).line_done == old(self).line_done,
            !old(self).stack@.last().inline ==> !final(self).line_done,
            final(self).kinds() == old(self).kinds(),
            final(self).stack@.len() == old(self).stack@.len(),
            final(self).stack@.last().value == old(self).stack@.last().value,
            final(self).stack@.last().explicit == old(self).stack@.last().explicit,
            final(self).stack@.last().indent == old(self).stack@.last().indent,
            final(self).pending == old(self).pending,
            final(self).done == old(self).done,
            final(self).config == old(self).config,
    {
        let mut frame = self.stack.pop().unwrap();
        let indent = frame.indent;
        if frame.inline {
            frame.inline = false;
            self.stack.push(frame);
            self.flush_space();
        } else {
            self.stack.push(frame);
            self.newline(indent);
        }
        assert(self.kinds() =~= old(self).kinds());
    }

    /// Writes the `?` of an explicit key and returns the position of the key.
    fn begin_explicit_key(&mut self) -> (p: Pos)
        requires
            old(self).stack@.len() > 0,
        ensures
            extends(old(self).out@, final(self).out@),
            final(self).kinds() == old(self).kinds(),
            final(self).stack@.len() == old(self).stack@.len(),
            final(self).stack@.last().value == old(self).stack@.last().value,
            final(self).pending == old(self).pending,
            final(self).done == old(self).done,
            final(self).config == old(self).config,
    {
        let ghost o = self.out@;
        self.begin_entry();
        let mut frame = self.stack.pop().unwrap();
        frame.explicit = true;
        let indent = frame.indent;
        self.stack.push(frame);
        assert(self.kinds() =~= old(self).kinds());
        let ghost m = self.out@;
        self.push_char('?');
        proof {
            lemma_extends_add(m, seq!['?']);
            lemma_extends_trans(o, m, self.out@);
        }
        self.space = true;
        Pos::Inline(indent.saturating_add(2))
    }

    /// Writes what precedes a node in its parent and returns the position
    /// of the node.  Returns `None` for keys, they are written by the caller.
    fn begin_node(&mut self) -> (r: Result<Option<Pos>, Error>)
        ensures
            r is Err <==> (old(self).stack@.len() == 0 && old(self).done),
            r matches Err(e) ==> e.kind == ErrorKind::Unexpected && e.message@ == "a document can only contain one value"@,
            r matches Ok(None) ==> old(self).stack@.len() > 0 && old(self).stack@.last().is_map
                && !old(self).stack@.last().value,
            r matches Ok(Some(Pos::Root)) ==> old(self).stack@.len() == 0,
            old(self).stack@.len() == 0 && !old(self).done ==> r == Ok::<Option<Pos>, Error>(Some(Pos::Root))
                && final(self).out == old(self).out && final(self).space == old(self).space
                && final(self).line_done == old(self).line_done,
            extends(old(self).out@, final(self).out@),
            final(self).kinds() == old(self).kinds(),
            final(self).stack@.len() == old(self).stack@.len(),
            final(self).stack@.len() > 0 ==> final(self).stack@.last().value == old(self).stack@.last().value,
            final(self).pending == old(self).pending,
            final(self).done == old(self).done,
            final(self).config == old(self).config,
            old(self).stack@.len() > 0 && !old(self).stack@.last().is_map ==> r == Ok::<Option<Pos>, Error>(
                Some(Pos::Inline(saturating_add2(old(self).stack@.last().indent))),
            ) && final(self).out@ == old(self).out@ + old(self).entry_text() + seq!['-'] && final(self).space
                && final(self).stack@ == old(self).stack@.update(
                old(self).stack@.len() - 1,
                Frame { inline: false, ..old(self).stack@.last() },
            ) && (old(self).stack@.last().inline ==> final(self).line_done == old(self).line_done)
                && (!old(self).stack@.last().inline ==> !final(self).line_done),
            old(self).stack@.len() > 0 && old(self).stack@.last().is_map && !old(self).stack@.last().value ==> r
                == Ok::<Option<Pos>, Error>(None) && final(self).out == old(self).out && final(self).stack == old(self).stack
                && final(self).space == old(self).space && final(self).line_done == old(self).line_done,
            old(self).stack@.len() > 0 && old(self).stack@.last().is_map && old(self).stack@.last().value
                && old(self).stack@.last().explicit ==> r == Ok::<Option<Pos>, Error>(
                Some(Pos::Inline(saturating_add2(old(self).stack@.last().indent))),
            ) && final(self).out@ == old(self).out@ + newline_text(old(self).line_done, old(self).stack@.last().indent as nat)
                + seq![':'] && final(self).space,
            old(self).stack@.len() > 0 && old(self).stack@.last().is_map && old(self).stack@.last().value
                && !old(self).stack@.last().explicit ==> r == Ok::<Option<Pos>, Error>(
                Some(Pos::Value(old(self).stack@.last().indent)),
            ) && final(self).out == old(self).out && final(self).stack == old(self).stack
                && final(self).space == old(self).space && final(self).line_done == old(self).line_done,
    {
        proof {
            lemma_extends_refl(self.out@);
        }
        let n = self.stack.len();
        if n == 0 {
            if self.done {
                return Err(Error::new(ErrorKind::Unexpected, "a document can only contain one value"));
            }
            return Ok(Some(Pos::Root));
        }
        let is_map = self.stack[n - 1].is_map;
        let value = self.stack[n - 1].value;
        let explicit = self.stack[n - 1].explicit;
        let indent = self.stack[n - 1].indent;
        let ghost o = self.out@;
        if !is_map {
            self.begin_entry();
            let ghost m = self.out@;
            self.push_char('-');
            proof {
                lemma_extends_add(m, seq!['-']);
                lemma_extends_trans(o, m, self.out@);
            }
            self.space = true;
            return Ok(Some(Pos::Inline(indent.saturating_add(2))));
        }
        if !value {
            return Ok(None);
        }
        if explicit {
            self.newline(indent);
            let ghost m = self.out@;
            self.push_char(':');
            proof {
                lemma_extends_add(m, seq![':']);
                lemma_extends_trans(o, m, self.out@);
            }
            self.space = true;
            Ok(Some(Pos::Inline(indent.saturating_add(2))))
        } else {
            Ok(Some(Pos::Value(indent)))
        }
    }
}


/// A float literal as YAML 1.1 and 1.2 readers read it as float: the
/// mantissa has a `.` and the exponent a sign.
pub open spec fn yaml_float_text(t: Seq<char>) -> Seq<char> {
    match crate::resolve::find_char(t, 'e') {
        None => t,
        Some(i) => {
            let mantissa = t.take(i);
            let exponent = t.skip(i + 1);
            mantissa + (if mantissa.contains('.') { Seq::empty() } else { ".0"@ }) + seq!['e'] + (if exponent.len()
                > 0 && exponent[0] == '-' {
                Seq::empty()
            } else {
                seq!['+']
            }) + exponent
        },
    }
}

/// The text of a decimal float literal as it is formatted: an optional
/// `-`, digits, an optional fraction and an optional exponent with an
/// optional `-`.
pub open spec fn literal_text(
    negative: bool,
    int_digits: Seq<char>,
    frac: Option<Seq<char>>,
    exp: Option<(bool, Seq<char>)>,
) -> Seq<char> {
    (if negative {
        seq!['-']
    } else {
        Seq::empty()
    }) + int_digits + match frac {
        Some(f) => seq!['.'] + f,
        None => Seq::empty(),
    } + match exp {
        Some((neg, e)) => seq!['e'] + (if neg { seq!['-'] } else { Seq::empty() }) + e,
        None => Seq::empty(),
    }
}

/// The part of a literal before its exponent.
spec fn literal_mantissa(negative: bool, int_digits: Seq<char>, frac: Option<Seq<char>>) -> Seq<char> {
    (if negative {
        seq!['-']
    } else {
        Seq::empty()
    }) + int_digits + match frac {
        Some(f) => seq!['.'] + f,
        None => Seq::empty(),
    }
}

proof fn lemma_mantissa_chars(negative: bool, int_digits: Seq<char>, frac: Option<Seq<char>>)
    requires
        all_ascii_digits(int_digits),
        frac matches Some(f) ==> all_ascii_digits(f),
    ensures
        forall|k: int|
            0 <= k < literal_mantissa(negative, int_digits, frac).len() ==> #[trigger] literal_mantissa(
                negative,
                int_digits,
                frac,
            )[k] != 'e',
        frac is Some <==> literal_mantissa(negative, int_digits, frac).contains('.'),
{
    let m = literal_mantissa(negative, int_digits, frac);
    let sl: int = if negative { 1 } else { 0 };
    let n1: int = sl + int_digits.len();
    assert forall|k: int| 0 <= k < m.len() implies #[trigger] m[k] != 'e' && (frac is None ==> m[k] != '.') by {
        if k >= sl && k < n1 {
            assert(m[k] == int_digits[k - sl]);
            assert(is_ascii_digit(int_digits[k - sl]));
        } else if k > n1 {
            match frac {
                Some(f) => {
                    assert(m[k] == f[k - n1 - 1]);
                    assert(is_ascii_digit(f[k - n1 - 1]));
                },
                None => {},
            }
        }
    }
    if frac is Some {
        assert(m[n1] == '.');
    } else {
        assert(!m.contains('.'));
    }
}

/// A literal without exponent is written as it is.
proof fn lemma_literal_written_plain(negative: bool, int_digits: Seq<char>, f: Seq<char>)
    requires
        all_ascii_digits(int_digits),
        all_ascii_digits(f),
    ensures
        yaml_float_text(literal_text(negative, int_digits, Some(f), None)) == float_text(negative, int_digits, f, None),
{
    let t = literal_text(negative, int_digits, Some(f), None);
    let mantissa = literal_mantissa(negative, int_digits, Some(f));
    lemma_mantissa_chars(negative, int_digits, Some(f));
    assert(t =~= mantissa);
    lemma_find_char(t, 'e');
    assert(find_char(t, 'e') is None);
    assert(t =~= float_text(negative, int_digits, f, None));
}

/// A literal with exponent is written with a `.` and a signed exponent.
#[verifier::rlimit(40)]
#[verifier::spinoff_prover]
proof fn lemma_literal_written_exp(negative: bool, int_digits: Seq<char>, frac: Option<Seq<char>>, neg: bool, e: Seq<char>)
    requires
        all_ascii_digits(int_digits),
        frac matches Some(f) ==> all_ascii_digits(f),
        e.len() > 0 && all_ascii_digits(e),
    ensures
        yaml_float_text(literal_text(negative, int_digits, frac, Some((neg, e)))) == float_text(
            negative,
            int_digits,
            match frac {
                Some(f) => f,
                None => seq!['0'],
            },
            Some((neg, e)),
        ),
{
    let t = literal_text(negative, int_digits, frac, Some((neg, e)));
    let mantissa = literal_mantissa(negative, int_digits, frac);
    let f0 = match frac {
        Some(f) => f,
        None => seq!['0'],
    };
    lemma_mantissa_chars(negative, int_digits, frac);
    let p = mantissa.len() as int;
    let ex = (if neg { seq!['-'] } else { Seq::<char>::empty() }) + e;
    assert(t =~= mantissa + seq!['e'] + ex);
    assert(t[p] == 'e');
    lemma_find_char(t, 'e');
    assert(find_char(t, 'e') == Some(p)) by {
        match find_char(t, 'e') {
            Some(k) => {
                if k < p {
                    assert(t[k] == mantissa[k]);
                }
            },
            None => {},
        }
    }
    assert(t.take(p) =~= mantissa);
    assert(t.skip(p + 1) =~= ex);
    if !neg {
        assert(is_ascii_digit(e[0]));
    }
    reveal_strlit(".0");
    assert(yaml_float_text(t) =~= float_text(negative, int_digits, f0, Some((neg, e))));
}

/// A literal is written with a `.` and a signed exponent.
proof fn lemma_literal_written(negative: bool, int_digits: Seq<char>, frac: Option<Seq<char>>, exp: Option<(bool, Seq<char>)>)
    requires
        int_digits.len() > 0 && all_ascii_digits(int_digits),
        frac matches Some(f) ==> f.len() > 0 && all_ascii_digits(f),
        exp matches Some((_, e)) ==> e.len() > 0 && all_ascii_digits(e),
        frac is Some || exp is Some,
    ensures
        yaml_float_text(literal_text(negative, int_digits, frac, exp)) == float_text(
            negative,
            int_digits,
            match frac {
                Some(f) => f,
                None => seq!['0'],
            },
            exp,
        ),
{
    match exp {
        None => lemma_literal_written_plain(negative, int_digits, frac->0),
        Some((neg, e)) => lemma_literal_written_exp(negative, int_digits, frac, neg, e),
    }
}

/// A float the emitter writes reads back as a float: a decimal literal
/// with a fraction or an exponent is written with a `.` and a signed
/// exponent, and YAML 1.2 and YAML 1.1 both read the written text as that
/// decimal float.
pub proof fn lemma_float_literal_reads_back(
    negative: bool,
    int_digits: Seq<char>,
    frac: Option<Seq<char>>,
    exp: Option<(bool, Seq<char>)>,
    version: Version,
    r: Option<Atom>,
)
    requires
        int_digits.len() > 0 && all_ascii_digits(int_digits),
        frac matches Some(f) ==> f.len() > 0 && all_ascii_digits(f),
        exp matches Some((_, e)) ==> e.len() > 0 && all_ascii_digits(e),
        frac is Some || exp is Some,
        plain_result(yaml_float_text(literal_text(negative, int_digits, frac, exp)), version, r),
    ensures
        yaml_float_text(literal_text(negative, int_digits, frac, exp)) == float_text(
            negative,
            int_digits,
            match frac {
                Some(f) => f,
                None => seq!['0'],
            },
            exp,
        ),
        r is Some && is_decimal(r->0, yaml_float_text(literal_text(negative, int_digits, frac, exp))),
{
    lemma_literal_written(negative, int_digits, frac, exp);
    let f0 = match frac {
        Some(f) => f,
        None => seq!['0'],
    };
    assert(f0.len() > 0 && all_ascii_digits(f0));
    lemma_float_text_reads_back(negative, int_digits, f0, exp, version, r);
}

/// Writes a float literal so that readers of YAML 1.1 and 1.2 read it as
/// float.
pub fn float_literal(t: &[char]) -> (r: Vec<char>)
    ensures
        r@ == yaml_float_text(t@),
{
    match crate::resolve::position_of(t, 'e') {
        None => crate::text::sub_chars(t, 0, t.len()),
        Some(i) => {
            proof {
                crate::resolve::lemma_find_char(t@, 'e');
            }
            let n = t.len();
            assert(i < n);
            let mantissa = crate::text::sub_chars(t, 0, i);
            let exponent = crate::text::sub_chars(t, i + 1, t.len());
            let mut out = crate::text::copy_chars(&mantissa);
            if !crate::resolve::contains_char(&mantissa, '.') {
                out.push('.');
                out.push('0');
                proof {
                    reveal_strlit(".0");
                }
            }
            out.push('e');
            if !(exponent.len() > 0 && exponent[0] == '-') {
                out.push('+');
            }
            push_chars(&mut out, &exponent);
            assert(mantissa@ =~= t@.take(i as int));
            assert(exponent@ =~= t@.skip(i + 1));
            assert(out@ =~= yaml_float_text(t@));
            out
        },
    }
}

/// The decimal text of a signed number.
fn signed_decimal(negative: bool, magnitude: u128) -> (r: Vec<char>)
    ensures
        r@ == (if negative { seq!['-'] } else { Seq::empty() }) + crate::text::decimal_chars(magnitude as nat),
{
    let mut out: Vec<char> = Vec::new();
    if negative {
        out.push('-');
    }
    push_chars(&mut out, &decimal(magnitude));
    out
}

fn i128_magnitude(v: i128) -> (r: u128)
    ensures
        r as int == if v < 0 { -(v as int) } else { v as int },
{
    if v == i128::MIN {
        0x8000_0000_0000_0000_0000_0000_0000_0000u128
    } else if v < 0 {
        (-v) as u128
    } else {
        v as u128
    }
}

/// How a string is written on one line: plain if that is safe (and not
/// every string is quoted), single-quoted if that is preferred and needs
/// no escapes, double-quoted otherwise.
pub open spec fn string_text(s: Seq<char>, config: SerializerConfig) -> Seq<char> {
    if !config.quote_all && spec_plain_safe(s, config.compat) {
        s
    } else if config.quote_style == QuoteStyle::Single && no_escapes(s) {
        seq!['\''] + single_quoted_body(s) + seq!['\'']
    } else {
        seq!['"'] + double_quoted_body(s) + seq!['"']
    }
}

/// A string (that is not a key) is written as a literal block scalar.
pub open spec fn written_as_literal(s: Seq<char>, config: SerializerConfig) -> bool {
    config.multiline == MultilineStyle::Literal && !config.quote_all && s.contains('\n') && spec_block_safe(s)
}

/// Every string the emitter writes on one line reads back as itself.
/// Written plain, it is read as a string (not as a null, boolean or
/// number) by readers of YAML 1.2 and, in YAML 1.1 compatibility, of
/// YAML 1.1.  Written quoted, the quoted scalar that starts at the opening
/// quote ends at the last character written and stands for the string,
/// wherever the text stands in the input (unless a single-quoted string
/// is directly followed by another quote).
pub proof fn lemma_string_form_reads_back(
    t: Seq<char>,
    s: Seq<char>,
    config: SerializerConfig,
    prefix: Seq<char>,
    rest: Seq<char>,
)
    requires
        t == string_text(s, config),
        t.len() > 0 && t[0] == '\'' ==> !(rest.len() > 0 && rest[0] == '\''),
    ensures
        !config.quote_all && spec_plain_safe(s, config.compat) ==> t == s && is_plain_string(s, Version::V1_2) && (
        config.compat == Version::V1_1 ==> is_plain_string(s, Version::V1_1)),
        !(!config.quote_all && spec_plain_safe(s, config.compat)) ==> quoted_line(
            prefix + t + rest,
            prefix.len() + 1int,
            t[0] == '\'',
        ) == Some((s, prefix.len() + t.len() - 1)),
{
    if !config.quote_all && spec_plain_safe(s, config.compat) {
        lemma_plain_safe_reads_back(s, config.compat);
    } else if config.quote_style == QuoteStyle::Single && no_escapes(s) {
        lemma_single_quoted_reads_back(prefix, s, rest);
        assert(prefix + t + rest =~= prefix + seq!['\''] + single_quoted_body(s) + seq!['\''] + rest);
    } else {
        lemma_double_quoted_reads_back(prefix, s, rest);
        assert(prefix + t + rest =~= prefix + seq!['"'] + double_quoted_body(s) + seq!['"'] + rest);
    }
}

/// The text the emitter writes for a boolean, an integer, a special float
/// or a decimal float.
pub open spec fn value_text(atom: Atom) -> Option<Seq<char>> {
    match atom {
        Atom::Bool(b) => Some(if b { "true"@ } else { "false"@ }),
        Atom::U64(v) => Some(decimal_chars(v as nat)),
        Atom::U128(v) => Some(decimal_chars(v as nat)),
        Atom::I64(v) => Some(signed_text(v < 0, if v < 0 { -(v as int) } else { v as int })),
        Atom::I128(v) => Some(signed_text(v < 0, if v < 0 { -(v as int) } else { v as int })),
        Atom::Float(FloatRepr::NaN) => Some(".nan"@),
        Atom::Float(FloatRepr::Infinity { negative }) => Some(if negative { "-.inf"@ } else { ".inf"@ }),
        Atom::Float(FloatRepr::Decimal(t)) => Some(yaml_float_text(t@)),
        _ => None,
    }
}

/// The text of an atom that is the whole document: nulls, booleans,
/// numbers and strings that are not written as block scalars.
pub open spec fn root_text(atom: Atom, config: SerializerConfig) -> Option<Seq<char>> {
    match atom {
        Atom::Null => Some(if config.null_style == NullStyle::Tilde { "~"@ } else { "null"@ }),
        Atom::Str(v) => if written_as_literal(v@, config) {
            None
        } else {
            Some(string_text(v@, config))
        },
        _ => value_text(atom),
    }
}

/// The text of an atom that is an item of a block sequence (after `- `):
/// as at the root, but a null written as empty text has none.
pub open spec fn item_text(atom: Atom, config: SerializerConfig) -> Option<Seq<char>> {
    match atom {
        Atom::Null => if config.null_style == NullStyle::Empty {
            None
        } else {
            root_text(atom, config)
        },
        _ => root_text(atom, config),
    }
}

/// The text of an atom that is a simple key of a block mapping (before
/// `:`), if the key is short enough to be written as such.
pub open spec fn key_text(atom: Atom, config: SerializerConfig) -> Option<Seq<char>> {
    let t = match atom {
        Atom::Null => Some(if config.null_style == NullStyle::Tilde { "~"@ } else { "null"@ }),
        Atom::Str(v) => Some(string_text(v@, config)),
        _ => value_text(atom),
    };
    match t {
        Some(k) => if k.len() <= MAX_SIMPLE_KEY_LEN {
            Some(k)
        } else {
            None
        },
        None => None,
    }
}

/// The text of an event that is a simple key of a block mapping.
pub open spec fn event_key_text(event: DataEvent, config: SerializerConfig) -> Option<Seq<char>> {
    match event {
        DataEvent::Atom(a) => key_text(a, config),
        _ => None,
    }
}

/// The text of an event that is an item of a block sequence.
pub open spec fn event_item_text(event: DataEvent, config: SerializerConfig) -> Option<Seq<char>> {
    match event {
        DataEvent::Atom(a) => item_text(a, config),
        _ => None,
    }
}

/// The text of an event that is a whole document of one null, boolean,
/// number or string that is not written as a block scalar.
pub open spec fn event_root_text(event: DataEvent, config: SerializerConfig) -> Option<Seq<char>> {
    match event {
        DataEvent::Atom(a) => root_text(a, config),
        _ => None,
    }
}

/// The decimal text of an integer with a sign and a magnitude.
pub open spec fn signed_text(negative: bool, magnitude: int) -> Seq<char> {
    (if negative {
        seq!['-']
    } else {
        Seq::empty()
    }) + decimal_chars(magnitude as nat)
}

impl Emitter {
    /// Renders a string.  Keys and strings of other values are always on a
    /// single line.
    fn render_str(&self, value: &[char], single_line: bool) -> (r: Scalar)
        ensures
            single_line ==> r is Text,
            !(r is Empty),
            r is Literal <==> !single_line && written_as_literal(value@, self.config),
            r matches Scalar::Literal(l) ==> l.content@ == trim_newlines(value@),
            r matches Scalar::Text(t) ==> t@ == string_text(value@, self.config),
    {
        let s = chars_to_string(value);
        if !single_line && self.config.multiline == MultilineStyle::Literal && !self.config.quote_all {
            match Literal::new(s.as_str()) {
                Some(literal) => {
                    return Scalar::Literal(literal);
                },
                None => {},
            }
        }
        let mut out = String::new();
        if !self.config.quote_all && is_plain_safe(s.as_str(), self.config.compat) {
            return Scalar::Text(str_chars(s.as_str()));
        } else if self.config.quote_style == QuoteStyle::Single && is_single_quote_safe(s.as_str()) {
            write_single_quoted(&mut out, s.as_str());
            assert(out@ =~= seq!['\''] + single_quoted_body(value@) + seq!['\'']);
        } else {
            write_double_quoted(&mut out, s.as_str());
            assert(out@ =~= seq!['"'] + double_quoted_body(value@) + seq!['"']);
        }
        Scalar::Text(str_chars(out.as_str()))
    }

    /// Renders a date / time: timestamps (dates and date-times with offset)
    /// are written plain (or tagged), others as strings.
    fn render_datetime(&self, value: Datetime) -> (r: (Scalar, Option<&'static str>))
        ensures
            r.0 is Text,
            ({
                let text = crate::model::datetime_text(value);
                if value.date is Some && (value.time is None || value.offset is Some) {
                    &&& r.0 matches Scalar::Text(t) && t@ == text
                    &&& self.config.timestamp_tag ==> (r.1 matches Some(tag) && tag@ == "tag:yaml.org,2002:timestamp"@)
                    &&& !self.config.timestamp_tag ==> r.1 is None
                } else {
                    r.0 matches Scalar::Text(t) && t@ == string_text(text, self.config) && r.1 is None
                }
            }),
    {
        let text = value.text();
        let is_timestamp = value.date.is_some() && (value.time.is_none() || value.offset.is_some());
        if !is_timestamp {
            return (self.render_str(&text, true), None);
        }
        let tag = if self.config.timestamp_tag {
            Some("tag:yaml.org,2002:timestamp")
        } else {
            None
        };
        (Scalar::Text(text), tag)
    }

    fn render_float(&self, f: &FloatRepr) -> (r: Result<Scalar, Error>)
        ensures
            r matches Ok(s) ==> s is Text,
            value_text(Atom::Float(*f)) matches Some(v) ==> (r matches Ok(Scalar::Text(t)) && t@ == v),
    {
        match f {
            FloatRepr::NaN => Ok(Scalar::Text(str_chars(".nan"))),
            FloatRepr::Infinity { negative } => Ok(
                Scalar::Text(
                    if *negative {
                        str_chars("-.inf")
                    } else {
                        str_chars(".inf")
                    },
                ),
            ),
            FloatRepr::Decimal(text) => Ok(Scalar::Text(float_literal(text))),
            FloatRepr::Int { negative, magnitude } => {
                let mut t = signed_decimal(*negative, *magnitude);
                t.push('.');
                t.push('0');
                Ok(Scalar::Text(t))
            },
            FloatRepr::BigInt { negative, radix, digits } => {
                if *radix != 10 {
                    return Err(Error::new(ErrorKind::UnsupportedType, "YAML does not support this float"));
                }
                let mut t: Vec<char> = Vec::new();
                if *negative {
                    t.push('-');
                }
                push_chars(&mut t, digits);
                t.push('.');
                t.push('0');
                Ok(Scalar::Text(t))
            },
            FloatRepr::Sexagesimal { .. } => Err(
                Error::new(ErrorKind::UnsupportedType, "YAML does not support this float"),
            ),
        }
    }

    /// Renders an atom as scalar.  Returns the scalar and a tag that is
    /// implied by the value (such as `!!binary`).  Keys are always on a
    /// single line.
    fn render(&self, atom: &Atom, is_key: bool, fallback: Option<BytesFormat>) -> (r: Result<(Scalar, Option<&'static str>), Error>)
        ensures
            r matches Ok((s, _)) ==> (is_key ==> !(s is Literal)),
            r matches Ok((s, _)) ==> (s is Empty ==> !is_key),
            value_text(*atom) matches Some(v) ==> (r matches Ok((Scalar::Text(t), tag)) && t@ == v && tag is None),
            atom is Null ==> match self.config.null_style {
                NullStyle::Tilde => r matches Ok((Scalar::Text(t), tag)) && t@ == "~"@ && tag is None,
                NullStyle::Empty => if is_key {
                    r matches Ok((Scalar::Text(t), tag)) && t@ == "null"@ && tag is None
                } else {
                    r matches Ok((Scalar::Empty, tag)) && tag is None
                },
                NullStyle::Null => r matches Ok((Scalar::Text(t), tag)) && t@ == "null"@ && tag is None,
            },
            atom matches Atom::Str(v) ==> (r matches Ok((s, tag)) && tag is None && !(s is Empty) && (s is Literal
                <==> !is_key && written_as_literal(v@, self.config)) && (s matches Scalar::Text(t) ==> t@
                == string_text(v@, self.config))),
    {
        match atom {
            Atom::Null => {
                if self.config.null_style == NullStyle::Tilde {
                    Ok((Scalar::Text(str_chars("~")), None))
                } else if self.config.null_style == NullStyle::Empty && !is_key {
                    Ok((Scalar::Empty, None))
                } else {
                    Ok((Scalar::Text(str_chars("null")), None))
                }
            },
            Atom::Bool(b) => Ok((Scalar::Text(if *b { str_chars("true") } else { str_chars("false") }), None)),
            Atom::U64(v) => Ok((Scalar::Text(decimal(*v as u128)), None)),
            Atom::I64(v) => {
                let m: u128 = if *v < 0 { i128_magnitude(*v as i128) } else { *v as u128 };
                Ok((Scalar::Text(signed_decimal(*v < 0, m)), None))
            },
            Atom::U128(v) => Ok((Scalar::Text(decimal(*v)), None)),
            Atom::I128(v) => Ok((Scalar::Text(signed_decimal(*v < 0, i128_magnitude(*v))), None)),
            Atom::Float(f) => match self.render_float(f) {
                Ok(s) => Ok((s, None)),
                Err(e) => Err(e),
            },
            Atom::Char(c) => {
                let mut v: Vec<char> = Vec::new();
                v.push(*c);
                Ok((self.render_str(&v, true), None))
            },
            Atom::Str(v) => Ok((self.render_str(v, is_key), None)),
            Atom::Bytes(bytes) => {
                let format = if self.config.binary {
                    BytesFormat::base64()
                } else {
                    match fallback {
                        Some(f) => f,
                        None => self.config.bytes,
                    }
                };
                let too_long = match format.encoding {
                    Some(e) => e.uses_base32() && bytes.len() > usize::MAX / 512,
                    None => false,
                };
                if too_long {
                    return Err(Error::new(ErrorKind::UnsupportedType, "bytes are too long for base32"));
                }
                let encoded = match format.encode(bytes) {
                    Some(s) => str_chars(s.as_str()),
                    None => match BytesFormat::base64().encode(bytes) {
                        Some(s) => str_chars(s.as_str()),
                        None => Vec::new(),
                    },
                };
                if self.config.binary {
                    let tag = Some("tag:yaml.org,2002:binary");
                    if encoded.len() == 0 {
                        Ok((Scalar::Text(str_chars("\"\"")), tag))
                    } else if encoded.len() > BINARY_LINE_LEN && !is_key {
                        Ok((Scalar::Literal(wrap_binary(&encoded)), tag))
                    } else {
                        Ok((Scalar::Text(encoded), tag))
                    }
                } else {
                    Ok((self.render_str(&encoded, true), None))
                }
            },
            Atom::Datetime(d) => Ok(self.render_datetime(*d)),
        }
    }
}


impl Emitter {
    /// Starts a map or sequence, it's written once the next event is known.
    fn start(&mut self, is_map: bool, tag: Option<String>) -> (r: Result<(), Error>)
        requires
            old(self).pending is None,
            old(self).wf(),
        ensures
            r is Err <==> (old(self).stack@.len() == 0 && old(self).done),
            r matches Err(e) ==> e.kind == ErrorKind::Unexpected && e.message@ == "a document can only contain one value"@,
            r is Ok ==> (final(self).pending matches Some(p) && p.is_map == is_map),
            r is Err ==> final(self).pending is None,
            final(self).kinds() == old(self).kinds(),
            final(self).done == old(self).done,
            final(self).config == old(self).config,
            extends(old(self).out@, final(self).out@),
            final(self).wf(),
            old(self).at_start() && tag is None ==> r is Ok && final(self).out == old(self).out && final(self).pending
                == Some(Pending { is_map, tag: None, pos: Pos::Root }) && final(self).stack@ == old(self).stack@
                && final(self).space == old(self).space && final(self).line_done == old(self).line_done,
    {
        let ghost o = self.out@;
        let begun = self.begin_node();
        let ghost a0 = self.out@;
        let pos = match begun {
            Err(e) => return Err(e),
            Ok(Some(pos)) => {
                proof {
                    lemma_extends_refl(a0);
                }
                pos
            },
            Ok(None) => self.begin_explicit_key(),
        };
        proof {
            lemma_extends_trans(o, a0, self.out@);
        }
        self.pending = Some(Pending { is_map, tag, pos });
        Ok(())
    }

    fn end(&mut self, is_map: bool) -> (r: Result<(), Error>)
        requires
            old(self).pending is None,
            old(self).wf(),
        ensures
            r is Ok ==> old(self).kinds().len() > 0 && old(self).kinds().last() == is_map && final(self).kinds()
                == old(self).kinds().drop_last(),
            old(self).kinds().len() == 0 ==> r is Err,
            r matches Err(e) ==> e.kind == ErrorKind::Unexpected && e.message@ == "unexpected end event"@,
            final(self).pending is None,
            final(self).config == old(self).config,
            r is Ok ==> extends(old(self).out@, final(self).out@),
            final(self).wf(),
            r is Ok <==> old(self).kinds().len() > 0 && old(self).kinds().last() == is_map && !(is_map
                && old(self).stack@.last().value),
            r is Ok ==> final(self).out == old(self).out && final(self).line_done == old(self).line_done
                && final(self).done == (old(self).done || old(self).stack@.len() == 1)
                && final(self).stack@.len() == old(self).stack@.len() - 1,
    {
        let n = self.stack.len();
        if n == 0 {
            return Err(Error::new(ErrorKind::Unexpected, "unexpected end event"));
        }
        let frame = self.stack.pop().unwrap();
        assert(self.kinds() =~= old(self).kinds().drop_last());
        if frame.is_map != is_map || (is_map && frame.value) {
            return Err(Error::new(ErrorKind::Unexpected, "unexpected end event"));
        }
        self.complete();
        proof {
            lemma_extends_refl(self.out@);
        }
        Ok(())
    }

    /// Writes an empty collection.
    fn write_empty(&mut self, pending: Pending)
        requires
            old(self).pending is None,
            old(self).wf(),
            !old(self).done,
        ensures
            final(self).kinds() == old(self).kinds(),
            final(self).pending is None,
            final(self).config == old(self).config,
            extends(old(self).out@, final(self).out@),
            final(self).wf(),
            pending.tag is None ==> final(self).out@ == old(self).out@ + space_text(old(self).space) + (if pending.is_map {
                "{}"@
            } else {
                "[]"@
            }),
            final(self).done == (old(self).done || old(self).stack@.len() == 0),
            final(self).line_done == old(self).line_done,
    {
        let ghost o = self.out@;
        self.write_inline_start(&pending.tag);
        let ghost m = self.out@;
        if pending.is_map {
            self.push_text(&str_chars("{}"));
            proof {
                lemma_extends_add(m, "{}"@);
            }
        } else {
            self.push_text(&str_chars("[]"));
            proof {
                lemma_extends_add(m, "[]"@);
            }
        }
        proof {
            lemma_extends_trans(o, m, self.out@);
        }
        self.complete();
    }

    /// Writes the start of a non-empty collection.
    fn open(&mut self, pending: Pending)
        requires
            old(self).pending is None,
            !old(self).done,
            old(self).wf(),
        ensures
            final(self).kinds() == old(self).kinds().push(pending.is_map),
            final(self).pending is None,
            final(self).done == old(self).done,
            final(self).config == old(self).config,
            extends(old(self).out@, final(self).out@),
            final(self).wf(),
            pending.pos is Root && pending.tag is None ==> final(self).out == old(self).out && final(self).stack@
                == old(self).stack@.push(Frame { is_map: pending.is_map, indent: 0, inline: true, value: false, explicit: false })
                && final(self).space == old(self).space && final(self).line_done == old(self).line_done,
    {
        let ghost o = self.out@;
        proof {
            lemma_extends_refl(o);
        }
        let (indent, inline) = match pending.pos {
            Pos::Root => {
                match pending.tag {
                    Some(ref tag) => {
                        self.push_tag(tag);
                        let ghost m = self.out@;
                        self.push_char('\n');
                        proof {
                            lemma_extends_add(m, seq!['\n']);
                            lemma_extends_trans(o, m, self.out@);
                        }
                    },
                    None => {},
                }
                (0usize, true)
            },
            Pos::Inline(column) => match pending.tag {
                Some(ref tag) => {
                    self.flush_space();
                    let ghost m = self.out@;
                    self.push_tag(tag);
                    proof {
                        lemma_extends_trans(o, m, self.out@);
                    }
                    (column, false)
                },
                None => (column, true),
            },
            Pos::Value(key_column) => {
                match pending.tag {
                    Some(ref tag) => {
                        self.flush_space();
                        let ghost m = self.out@;
                        self.push_tag(tag);
                        proof {
                            lemma_extends_trans(o, m, self.out@);
                        }
                    },
                    None => {},
                }
                self.space = false;
                let indent = if pending.is_map || self.config.indent_sequences {
                    key_column.saturating_add(self.config.indent)
                } else {
                    key_column
                };
                (indent, false)
            },
        };
        self.stack.push(Frame { is_map: pending.is_map, indent, inline, value: false, explicit: false });
        assert(self.kinds() =~= old(self).kinds().push(pending.is_map));
    }

    /// Writes a scalar key.
    fn key(&mut self, atom: &Atom, tag: Option<String>, fallback: Option<BytesFormat>) -> (r: Result<(), Error>)
        requires
            old(self).pending is None,
            old(self).stack@.len() > 0,
            old(self).wf(),
        ensures
            final(self).kinds() == old(self).kinds(),
            final(self).pending is None,
            final(self).config == old(self).config,
            r is Ok ==> extends(old(self).out@, final(self).out@),
            final(self).wf(),
            value_text(*atom) is Some || atom is Null || atom is Str ==> r is Ok,
            r is Ok ==> final(self).out@.len() > old(self).out@.len(),
            old(self).stack@.last().is_map && !old(self).stack@.last().value && tag is None && key_text(
                *atom,
                old(self).config,
            ) is Some ==> r is Ok && final(self).out@ == old(self).out@ + old(self).entry_text() + key_text(
                *atom,
                old(self).config,
            )->0 + seq![':'] && final(self).stack@ == old(self).stack@.update(
                old(self).stack@.len() - 1,
                Frame { inline: false, value: true, ..old(self).stack@.last() },
            ) && final(self).space && (old(self).stack@.last().inline ==> final(self).line_done == old(self).line_done)
                && (!old(self).stack@.last().inline ==> !final(self).line_done) && final(self).done == old(self).done,
    {
        let (scalar, implicit_tag) = match self.render(atom, true, fallback) {
            Ok(x) => x,
            Err(e) => return Err(e),
        };
        let tag = match tag {
            Some(t) => Some(t),
            None => match implicit_tag {
                Some(t) => Some(String::from_str(t)),
                None => None,
            },
        };
        let text = match scalar {
            Scalar::Text(text) => text,
            _ => str_chars("null"),
        };
        let ghost o = self.out@;
        if text.len() > MAX_SIMPLE_KEY_LEN {
            self.begin_explicit_key();
            let ghost a = self.out@;
            self.write_inline_start(&tag);
            let ghost b = self.out@;
            self.push_text(&text);
            proof {
                lemma_extends_add(b, text@);
                lemma_extends_trans(a, b, self.out@);
                lemma_extends_trans(o, a, self.out@);
            }
        } else {
            self.begin_entry();
            let ghost a = self.out@;
            self.write_inline_start(&tag);
            let ghost b = self.out@;
            self.push_text(&text);
            let ghost c = self.out@;
            self.push_char(':');
            proof {
                lemma_extends_add(b, text@);
                lemma_extends_add(c, seq![':']);
                lemma_extends_trans(b, c, self.out@);
                lemma_extends_trans(a, b, self.out@);
                lemma_extends_trans(o, a, self.out@);
            }
            self.space = true;
        }
        self.complete();
        Ok(())
    }

    /// Writes a scalar value.
    fn atom(&mut self, atom: &Atom, tag: Option<String>, fallback: Option<BytesFormat>) -> (r: Result<(), Error>)
        requires
            old(self).pending is None,
            old(self).wf(),
        ensures
            old(self).stack@.len() == 0 && old(self).done ==> (r matches Err(e) && e.kind == ErrorKind::Unexpected
                && e.message@ == "a document can only contain one value"@),
            final(self).kinds() == old(self).kinds(),
            final(self).pending is None,
            final(self).config == old(self).config,
            r is Ok ==> extends(old(self).out@, final(self).out@),
            final(self).wf(),
            old(self).at_start() && tag is None && root_text(*atom, old(self).config) is Some ==> r is Ok
                && final(self).out@ == old(self).out@ + root_text(*atom, old(self).config)->0 && final(self).done
                && final(self).stack@.len() == 0 && !final(self).line_done,
            old(self).stack@.len() > 0 && !old(self).stack@.last().is_map && tag is None && item_text(
                *atom,
                old(self).config,
            ) is Some ==> r is Ok && final(self).out@ == old(self).out@ + old(self).entry_text() + seq!['-', ' ']
                + item_text(*atom, old(self).config)->0 && !final(self).done && final(self).stack@ == old(self).stack@.update(
                old(self).stack@.len() - 1,
                Frame { inline: false, ..old(self).stack@.last() },
            ) && !final(self).space && (old(self).stack@.last().inline ==> final(self).line_done == old(self).line_done)
                && (!old(self).stack@.last().inline ==> !final(self).line_done),
            old(self).stack@.len() > 0 && old(self).stack@.last().is_map && !old(self).stack@.last().value && tag is None
                && key_text(*atom, old(self).config) is Some ==> r is Ok && final(self).out@ == old(self).out@ + old(
                self,
            ).entry_text() + key_text(*atom, old(self).config)->0 + seq![':'] && final(self).stack@ == old(
                self,
            ).stack@.update(
                old(self).stack@.len() - 1,
                Frame { inline: false, value: true, ..old(self).stack@.last() },
            ) && final(self).space && (old(self).stack@.last().inline ==> final(self).line_done == old(self).line_done)
                && (!old(self).stack@.last().inline ==> !final(self).line_done) && !final(self).done,
            old(self).stack@.len() > 0 && old(self).stack@.last().is_map && old(self).stack@.last().value
                && !old(self).stack@.last().explicit && tag is None && item_text(*atom, old(self).config) is Some ==> r is Ok
                && final(self).out@ == old(self).out@ + space_text(old(self).space) + item_text(*atom, old(self).config)->0
                && final(self).stack@ == old(self).stack@.update(
                old(self).stack@.len() - 1,
                Frame { value: false, explicit: false, ..old(self).stack@.last() },
            ) && !final(self).space && final(self).line_done == old(self).line_done && !final(self).done,
    {
        let ghost o = self.out@;
        let begun = self.begin_node();
        let ghost a0 = self.out@;
        let pos = match begun {
            Err(e) => return Err(e),
            Ok(Some(pos)) => pos,
            Ok(None) => {
                let r = self.key(atom, tag, fallback);
                proof {
                    if r is Ok {
                        lemma_extends_trans(o, a0, self.out@);
                    }
                }
                return r;
            },
        };
        let ghost a = self.out@;
        let (scalar, implicit_tag) = match self.render(atom, false, fallback) {
            Ok(x) => x,
            Err(e) => return Err(e),
        };
        let tag = match tag {
            Some(t) => Some(t),
            None => match implicit_tag {
                Some(t) => Some(String::from_str(t)),
                None => None,
            },
        };
        let is_root = match pos {
            Pos::Root => true,
            _ => false,
        };
        match scalar {
            Scalar::Empty => {
                if !is_root && tag.is_none() {
                    self.space = false;
                    proof {
                        lemma_extends_refl(a);
                    }
                } else {
                    self.write_inline_start(&tag);
                    let ghost b = self.out@;
                    self.push_text(&str_chars("null"));
                    proof {
                        lemma_extends_add(b, "null"@);
                        lemma_extends_trans(a, b, self.out@);
                    }
                }
            },
            Scalar::Text(text) => {
                self.write_inline_start(&tag);
                let ghost b = self.out@;
                self.push_text(&text);
                proof {
                    lemma_extends_add(b, text@);
                    lemma_extends_trans(a, b, self.out@);
                }
            },
            Scalar::Literal(literal) => {
                self.write_inline_start(&tag);
                // the indentation indicator is relative to the parent node
                let (column, indicator) = match pos {
                    Pos::Root => (self.config.indent, self.config.indent),
                    Pos::Inline(column) => (column, 2usize),
                    Pos::Value(key_column) => (key_column.saturating_add(self.config.indent), self.config.indent),
                };
                let ghost b = self.out@;
                literal.write_header(&mut self.out, indicator);
                let ghost c = self.out@;
                self.push_char('\n');
                let ghost d = self.out@;
                literal.write_body(&mut self.out, column);
                proof {
                    lemma_extends_add(b, literal.header(indicator as nat));
                    lemma_extends_add(c, seq!['\n']);
                    lemma_extends_add(d, literal.body(column as nat));
                    lemma_extends_trans(c, d, self.out@);
                    lemma_extends_trans(b, c, self.out@);
                    lemma_extends_trans(a, b, self.out@);
                }
                self.line_done = true;
            },
        }
        proof {
            lemma_extends_trans(o, a, self.out@);
        }
        self.complete();
        Ok(())
    }

    /// Handles the collection that is held back and dispatches the event.
    fn emit_base(&mut self, event: &DataEvent, tag: Option<String>, fallback: Option<BytesFormat>) -> (r: Result<(), Error>)
        requires
            old(self).wf(),
        ensures
            final(self).wf(),
            final(self).config == old(self).config,
            old(self).at_start() && tag is None && event_root_text(*event, old(self).config) is Some ==> r is Ok
                && final(self).text() == old(self).text() + event_root_text(*event, old(self).config)->0
                && final(self).is_complete() && final(self).line_open(),
            old(self).is_complete() ==> r is Err,
            old(self).is_complete() && !(*event is MapEnd || *event is SeqEnd) ==> (r matches Err(e) && e.kind
                == ErrorKind::Unexpected && e.message@ == "a document can only contain one value"@),
            (old(self).is_complete() || old(self).at_start()) && (*event is MapEnd || *event is SeqEnd) ==> (r matches Err(
                e,
            ) && e.kind == ErrorKind::Unexpected && e.message@ == "unexpected end event"@),
            old(self).at_start() && tag is None && *event is SeqStart ==> r is Ok && final(self).text()
                == old(self).text() && final(self).root_seq_started(),
            old(self).root_seq_started() && *event is SeqEnd ==> r is Ok && final(self).text() == old(
                self,
            ).text() + "[]"@ && final(self).is_complete() && final(self).line_open(),
            old(self).root_seq_started() && tag is None && event_item_text(*event, old(self).config) is Some ==> r is Ok
                && final(self).text() == old(self).text() + seq!['-', ' '] + event_item_text(*event, old(self).config)->0
                && final(self).root_seq_continued(),
            old(self).root_seq_continued() && tag is None && event_item_text(*event, old(self).config) is Some ==> r is Ok
                && final(self).text() == old(self).text() + seq!['\n', '-', ' '] + event_item_text(*event, old(self).config)->0
                && final(self).root_seq_continued(),
            old(self).root_seq_continued() && *event is SeqEnd ==> r is Ok && final(self).text() == old(
                self,
            ).text() && final(self).is_complete() && final(self).line_open(),
            old(self).at_start() && tag is None && *event is MapStart ==> r is Ok && final(self).text()
                == old(self).text() && final(self).root_map_started(),
            old(self).root_map_started() && *event is MapEnd ==> r is Ok && final(self).text() == old(
                self,
            ).text() + "{}"@ && final(self).is_complete() && final(self).line_open(),
            old(self).root_map_started() && tag is None && event_key_text(*event, old(self).config) is Some ==> r is Ok
                && final(self).text() == old(self).text() + event_key_text(*event, old(self).config)->0 + seq![':']
                && final(self).root_map_value_next(),
            old(self).root_map_key_next() && tag is None && event_key_text(*event, old(self).config) is Some ==> r is Ok
                && final(self).text() == old(self).text() + seq!['\n'] + event_key_text(*event, old(self).config)->0 + seq![':']
                && final(self).root_map_value_next(),
            old(self).root_map_value_next() && tag is None && event_item_text(*event, old(self).config) is Some ==> r is Ok
                && final(self).text() == old(self).text() + seq![' '] + event_item_text(*event, old(self).config)->0
                && final(self).root_map_key_next(),
            old(self).root_map_key_next() && *event is MapEnd ==> r is Ok && final(self).text() == old(
                self,
            ).text() && final(self).is_complete() && final(self).line_open(),
            old(self).in_block_sequence() && tag is None && event_item_text(*event, old(self).config) is Some ==> r is Ok
                && final(self).text() == old(self).text() + old(self).next_entry_text() + seq!['-', ' ']
                + event_item_text(*event, old(self).config)->0 && final(self).in_block_sequence(),
            r is Ok ==> extends(old(self).out@, final(self).out@),
            r is Ok ==> match *event {
                DataEvent::MapStart => final(self).open_kinds() == old(self).open_kinds().push(true),
                DataEvent::SeqStart => final(self).open_kinds() == old(self).open_kinds().push(false),
                DataEvent::MapEnd => old(self).open_kinds().len() > 0 && old(self).open_kinds().last()
                    && final(self).open_kinds() == old(self).open_kinds().drop_last(),
                DataEvent::SeqEnd => old(self).open_kinds().len() > 0 && !old(self).open_kinds().last()
                    && final(self).open_kinds() == old(self).open_kinds().drop_last(),
                DataEvent::Atom(_) => final(self).open_kinds() == old(self).open_kinds(),
            },
    {
        let ghost o = self.out@;
        let ghost k0 = old(self).open_kinds();
        proof {
            lemma_extends_refl(o);
        }
        match self.pending.take() {
            Some(p) => {
                let p_is_map = p.is_map;
                assert(k0 == self.kinds().push(p_is_map));
                let is_end_of_it = match event {
                    DataEvent::MapEnd => p_is_map,
                    DataEvent::SeqEnd => !p_is_map,
                    _ => false,
                };
                if is_end_of_it {
                    self.write_empty(p);
                    assert(self.open_kinds() =~= self.kinds());
                    assert(k0.drop_last() =~= old(self).kinds());
                    return Ok(());
                }
                self.open(p);
                assert(self.open_kinds() =~= self.kinds());
            },
            None => {
                assert(k0 =~= self.kinds());
            },
        }
        let ghost m = self.out@;
        let ghost k1 = self.kinds();
        assert(k1 == k0);
        let r = match event {
            DataEvent::Atom(atom) => self.atom(atom, tag, fallback),
            DataEvent::MapStart => self.start(true, tag),
            DataEvent::SeqStart => self.start(false, tag),
            DataEvent::MapEnd => self.end(true),
            DataEvent::SeqEnd => self.end(false),
        };
        proof {
            if r is Ok {
                lemma_extends_trans(o, m, self.out@);
            }
            if old(self).in_block_sequence() && self.kinds() == old(self).kinds() {
                assert(self.kinds().len() == self.stack@.len());
                assert(self.kinds()[self.stack@.len() - 1] == self.stack@.last().is_map);
                assert(old(self).kinds()[old(self).stack@.len() - 1] == old(self).stack@.last().is_map);
            }
            if self.pending is Some {
                assert(self.open_kinds() =~= self.kinds().push(self.pending->0.is_map));
            } else {
                assert(self.open_kinds() =~= self.kinds());
            }
        }
        r
    }

    fn emit(&mut self, event: &DataEvent, tag: Option<String>, fallback: Option<BytesFormat>) -> (r: Result<(), Error>)
        requires
            old(self).wf(),
        ensures
            final(self).wf(),
            final(self).config == old(self).config,
            old(self).at_start() && tag is None && event_root_text(*event, old(self).config) is Some ==> r is Ok
                && final(self).text() == old(self).text() + event_root_text(*event, old(self).config)->0
                && final(self).is_complete() && final(self).line_open(),
            old(self).is_complete() ==> r is Err,
            old(self).is_complete() && !(*event is MapEnd || *event is SeqEnd) ==> (r matches Err(e) && e.kind
                == ErrorKind::Unexpected && e.message@ == "a document can only contain one value"@),
            (old(self).is_complete() || old(self).at_start()) && (*event is MapEnd || *event is SeqEnd) ==> (r matches Err(
                e,
            ) && e.kind == ErrorKind::Unexpected && e.message@ == "unexpected end event"@),
            old(self).at_start() && tag is None && *event is SeqStart ==> r is Ok && final(self).text()
                == old(self).text() && final(self).root_seq_started(),
            old(self).root_seq_started() && *event is SeqEnd ==> r is Ok && final(self).text() == old(
                self,
            ).text() + "[]"@ && final(self).is_complete() && final(self).line_open(),
            old(self).root_seq_started() && tag is None && event_item_text(*event, old(self).config) is Some ==> r is Ok
                && final(self).text() == old(self).text() + seq!['-', ' '] + event_item_text(*event, old(self).config)->0
                && final(self).root_seq_continued(),
            old(self).root_seq_continued() && tag is None && event_item_text(*event, old(self).config) is Some ==> r is Ok
                && final(self).text() == old(self).text() + seq!['\n', '-', ' '] + event_item_text(*event, old(self).config)->0
                && final(self).root_seq_continued(),
            old(self).root_seq_continued() && *event is SeqEnd ==> r is Ok && final(self).text() == old(
                self,
            ).text() && final(self).is_complete() && final(self).line_open(),
            old(self).at_start() && tag is None && *event is MapStart ==> r is Ok && final(self).text()
                == old(self).text() && final(self).root_map_started(),
            old(self).root_map_started() && *event is MapEnd ==> r is Ok && final(self).text() == old(
                self,
            ).text() + "{}"@ && final(self).is_complete() && final(self).line_open(),
            old(self).root_map_started() && tag is None && event_key_text(*event, old(self).config) is Some ==> r is Ok
                && final(self).text() == old(self).text() + event_key_text(*event, old(self).config)->0 + seq![':']
                && final(self).root_map_value_next(),
            old(self).root_map_key_next() && tag is None && event_key_text(*event, old(self).config) is Some ==> r is Ok
                && final(self).text() == old(self).text() + seq!['\n'] + event_key_text(*event, old(self).config)->0 + seq![':']
                && final(self).root_map_value_next(),
            old(self).root_map_value_next() && tag is None && event_item_text(*event, old(self).config) is Some ==> r is Ok
                && final(self).text() == old(self).text() + seq![' '] + event_item_text(*event, old(self).config)->0
                && final(self).root_map_key_next(),
            old(self).root_map_key_next() && *event is MapEnd ==> r is Ok && final(self).text() == old(
                self,
            ).text() && final(self).is_complete() && final(self).line_open(),
            old(self).in_block_sequence() && tag is None && event_item_text(*event, old(self).config) is Some ==> r is Ok
                && final(self).text() == old(self).text() + old(self).next_entry_text() + seq!['-', ' ']
                + event_item_text(*event, old(self).config)->0 && final(self).in_block_sequence(),
            r is Ok ==> extends(old(self).out@, final(self).out@),
            r is Ok ==> match *event {
                DataEvent::MapStart => final(self).open_kinds() == old(self).open_kinds().push(true),
                DataEvent::SeqStart => final(self).open_kinds() == old(self).open_kinds().push(false),
                DataEvent::MapEnd => old(self).open_kinds().len() > 0 && old(self).open_kinds().last()
                    && final(self).open_kinds() == old(self).open_kinds().drop_last(),
                DataEvent::SeqEnd => old(self).open_kinds().len() > 0 && !old(self).open_kinds().last()
                    && final(self).open_kinds() == old(self).open_kinds().drop_last(),
                DataEvent::Atom(_) => final(self).open_kinds() == old(self).open_kinds(),
            },
    {
        // bytes that are sequences are written as sequences of integers
        let as_seq = match event {
            DataEvent::Atom(Atom::Bytes(_)) => !self.config.binary && match fallback {
                Some(f) => f.is_seq(),
                None => self.config.bytes.is_seq(),
            },
            _ => false,
        };
        if !as_seq {
            return self.emit_base(event, tag, fallback);
        }
        let empty: Vec<u8> = Vec::new();
        let bytes: &Vec<u8> = match event {
            DataEvent::Atom(Atom::Bytes(b)) => b,
            _ => &empty,
        };
        let ghost o = self.out@;
        let ghost k0 = self.open_kinds();
        match self.emit_base(&DataEvent::SeqStart, tag, None) {
            Ok(()) => {},
            Err(e) => return Err(e),
        }
        let mut i: usize = 0;
        while i < bytes.len()
            invariant
                self.wf(),
                i <= bytes@.len(),
                self.open_kinds() == k0.push(false),
                extends(o, self.out@),
                self.config == old(self).config,
                event_root_text(*event, old(self).config) is None,
                event_item_text(*event, old(self).config) is None,
                event_key_text(*event, old(self).config) is None,
                *event is Atom,
                !old(self).is_complete(),
            decreases bytes@.len() - i,
        {
            let ghost before = self.out@;
            match self.emit_base(&DataEvent::Atom(Atom::U64(bytes[i] as u64)), None, None) {
                Ok(()) => {},
                Err(e) => return Err(e),
            }
            proof {
                lemma_extends_trans(o, before, self.out@);
            }
            i = i + 1;
        }
        let ghost before = self.out@;
        let r = self.emit_base(&DataEvent::SeqEnd, None, None);
        proof {
            if r is Ok {
                lemma_extends_trans(o, before, self.out@);
                assert(k0.push(false).drop_last() =~= k0);
            }
        }
        r
    }
}

} // verus!
