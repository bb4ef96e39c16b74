//! Writes data model events as YAML: the configuration, the emitter and
//! the serializer of document streams.
//!
//! The emitter writes block collections.  Containers are held back until
//! their first item is known so that empty containers can be written as
//! `{}` and `[]` and the layout does not need to be patched afterwards.
use vstd::prelude::*;

use crate::encoding::{BytesEncoding, BytesFormat};
use crate::error::{Error, ErrorKind};
use crate::de::DeEvent;
use crate::emit::Emitter;
use crate::model::{Atom, DataEvent, Datetime, FloatRepr};
use crate::quote::{
    contains_pair, is_plain_safe, is_single_quote_safe, no_escapes, push_indent, spec_needs_escape, spec_plain_safe,
    write_double_quoted, write_single_quoted, write_tag, Literal, MAX_SIMPLE_KEY_LEN,
};
use crate::scanner::{
    blank_rest, blanks_end, char_at, lemma_blanks_end, lemma_run_end, plain_document_at, plain_line, plain_stop,
    plain_text, run_end, spec_is_blank, spec_is_blank_or_break,
};
use crate::resolve::{is_plain_str, Version};
use crate::text::{chars_to_string, decimal, push_chars, str_chars, string_push, string_push_chars};

verus! {

/// How strings are quoted when they cannot be written plain.
#[derive(Debug, Clone, Copy, PartialEq, Eq, Structural)]
pub enum QuoteStyle {
    /// Single quotes (`'yes'`), double quotes if the string needs escapes.
    Single,
    /// Double quotes (`"yes"`).
    Double,
}

/// How strings with line breaks are written.
#[derive(Debug, Clone, Copy, PartialEq, Eq, Structural)]
pub enum MultilineStyle {
    /// As literal block scalars (`|`) if they only contain characters that
    /// can be written in them, otherwise double-quoted.
    Literal,
    /// Double-quoted with escapes (`"a\nb"`).
    Quoted,
}

/// How null is written.
#[derive(Debug, Clone, Copy, PartialEq, Eq, Structural)]
pub enum NullStyle {
    /// `null`
    Null,
    /// `~`
    Tilde,
    /// Nothing (`key:`, `-`).  Null keys and null documents are written as
    /// `null`.
    Empty,
}

/// Configures how values are serialized to YAML.
///
/// The defaults follow what is common for hand-written YAML: block
/// collections with indented sequences in mappings, empty collections as
/// `{}` and `[]`, strings plain if possible (quoted if readers of YAML 1.1
/// would read them as something else), otherwise single-quoted, strings
/// with line breaks as literal block scalars, bytes as `!!binary`.
#[derive(Debug, Clone, Copy, PartialEq, Eq, Structural)]
pub struct SerializerConfig {
    pub indent: usize,
    pub indent_sequences: bool,
    pub quote_style: QuoteStyle,
    pub quote_all: bool,
    pub multiline: MultilineStyle,
    pub null_style: NullStyle,
    pub compat: Version,
    pub binary: bool,
    pub bytes: BytesFormat,
    pub timestamp_tag: bool,
    pub document_start: bool,
    pub version_directive: bool,
}

/// The default configuration.
pub open spec fn default_config() -> SerializerConfig {
    SerializerConfig {
        indent: 2,
        indent_sequences: true,
        quote_style: QuoteStyle::Single,
        quote_all: false,
        multiline: MultilineStyle::Literal,
        null_style: NullStyle::Null,
        compat: Version::V1_1,
        binary: true,
        bytes: BytesFormat { encoding: Some(BytesEncoding::Base64) },
        timestamp_tag: false,
        document_start: false,
        version_directive: false,
    }
}

impl Default for SerializerConfig {
    fn default() -> (c: SerializerConfig)
        ensures
            c == default_config(),
    {
        SerializerConfig::new()
    }
}

impl SerializerConfig {
    /// Creates the default configuration.
    pub fn new() -> (c: SerializerConfig)
        ensures
            c == default_config(),
    {
        SerializerConfig {
            indent: 2,
            indent_sequences: true,
            quote_style: QuoteStyle::Single,
            quote_all: false,
            multiline: MultilineStyle::Literal,
            null_style: NullStyle::Null,
            compat: Version::V1_1,
            binary: true,
            bytes: BytesFormat::base64(),
            timestamp_tag: false,
            document_start: false,
            version_directive: false,
        }
    }

    /// Sets the number of spaces per indentation level.  Values outside of
    /// `1..=9` are clamped.
    pub fn indent(self, indent: usize) -> (c: SerializerConfig)
        ensures
            c == (SerializerConfig { indent: if indent < 1 { 1 } else if indent > 9 { 9 } else { indent }, ..self }),
    {
        let mut c = self;
        c.indent = if indent < 1 {
            1
        } else if indent > 9 {
            9
        } else {
            indent
        };
        c
    }

    /// Indents sequences that are values of mappings (`key:\n  - a`); with
    /// `false` the dashes are at the column of the key.
    pub fn indent_sequences(self, yes: bool) -> (c: SerializerConfig)
        ensures
            c == (SerializerConfig { indent_sequences: yes, ..self }),
    {
        let mut c = self;
        c.indent_sequences = yes;
        c
    }

    /// Sets how strings are quoted that cannot be written plain.
    pub fn quote_style(self, style: QuoteStyle) -> (c: SerializerConfig)
        ensures
            c == (SerializerConfig { quote_style: style, ..self }),
    {
        let mut c = self;
        c.quote_style = style;
        c
    }

    /// Quotes all strings, including strings with line breaks.
    pub fn quote_all(self, yes: bool) -> (c: SerializerConfig)
        ensures
            c == (SerializerConfig { quote_all: yes, ..self }),
    {
        let mut c = self;
        c.quote_all = yes;
        c
    }

    /// Sets how strings with line breaks are written.
    pub fn multiline(self, style: MultilineStyle) -> (c: SerializerConfig)
        ensures
            c == (SerializerConfig { multiline: style, ..self }),
    {
        let mut c = self;
        c.multiline = style;
        c
    }

    /// Sets how null is written.
    pub fn null_style(self, style: NullStyle) -> (c: SerializerConfig)
        ensures
            c == (SerializerConfig { null_style: style, ..self }),
    {
        let mut c = self;
        c.null_style = style;
        c
    }

    /// Sets the oldest YAML version that readers of the output may use:
    /// plain strings are quoted if a reader of that version would read them
    /// as something else than a string.
    pub fn compat(self, version: Version) -> (c: SerializerConfig)
        ensures
            c == (SerializerConfig { compat: version, ..self }),
    {
        let mut c = self;
        c.compat = version;
        c
    }

    /// Writes bytes as `!!binary` (base64 with the tag).  With `false`
    /// bytes are written in the format they request or the configured one.
    pub fn binary(self, yes: bool) -> (c: SerializerConfig)
        ensures
            c == (SerializerConfig { binary: yes, ..self }),
    {
        let mut c = self;
        c.binary = yes;
        c
    }

    /// Sets how bytes are represented if `binary` is off.
    pub fn bytes(self, format: BytesFormat) -> (c: SerializerConfig)
        ensures
            c == (SerializerConfig { bytes: format, ..self }),
    {
        let mut c = self;
        c.bytes = format;
        c
    }

    /// Writes date-times with the `!!timestamp` tag.
    pub fn timestamp_tag(self, yes: bool) -> (c: SerializerConfig)
        ensures
            c == (SerializerConfig { timestamp_tag: yes, ..self }),
    {
        let mut c = self;
        c.timestamp_tag = yes;
        c
    }

    /// Always starts documents with `---`.
    pub fn document_start(self, yes: bool) -> (c: SerializerConfig)
        ensures
            c == (SerializerConfig { document_start: yes, ..self }),
    {
        let mut c = self;
        c.document_start = yes;
        c
    }

    /// Starts documents with a `%YAML 1.2` directive.
    pub fn version_directive(self, yes: bool) -> (c: SerializerConfig)
        ensures
            c == (SerializerConfig { version_directive: yes, ..self }),
    {
        let mut c = self;
        c.version_directive = yes;
        c
    }
}

/// An event to serialize: a data model event, the tag of the node (for the
/// first event of a node) and the format its bytes request for formats
/// without native bytes.
#[derive(Debug, Clone, PartialEq, Eq)]
pub struct SerEvent {
    pub event: DataEvent,
    pub tag: Option<String>,
    pub bytes_format: Option<BytesFormat>,
}

impl SerEvent {
    /// An event without tag.
    pub fn plain(event: DataEvent) -> (e: SerEvent)
        ensures
            e.event == event,
            e.tag is None,
            e.bytes_format is None,
    {
        SerEvent { event, tag: None, bytes_format: None }
    }
}


/// The kinds of the collections that are open after the events (`true` for
/// mappings), `None` if an end does not match.
pub open spec fn nesting(events: Seq<DataEvent>) -> Option<Seq<bool>>
    decreases events.len(),
{
    if events.len() == 0 {
        Some(Seq::empty())
    } else {
        match nesting(events.drop_last()) {
            None => None,
            Some(open) => match events.last() {
                DataEvent::MapStart => Some(open.push(true)),
                DataEvent::SeqStart => Some(open.push(false)),
                DataEvent::MapEnd => if open.len() > 0 && open.last() {
                    Some(open.drop_last())
                } else {
                    None
                },
                DataEvent::SeqEnd => if open.len() > 0 && !open.last() {
                    Some(open.drop_last())
                } else {
                    None
                },
                DataEvent::Atom(_) => Some(open),
            },
        }
    }
}

/// The data model events of serialization events.
pub open spec fn data_events(events: Seq<SerEvent>) -> Seq<DataEvent> {
    events.map_values(|e: SerEvent| e.event)
}

/// The text that starts a document: the version directive or `---` where
/// required.
pub open spec fn document_prefix(config: SerializerConfig, documents: nat) -> Seq<char> {
    if config.version_directive {
        "%YAML 1.2\n---\n"@
    } else if config.document_start || documents > 0 {
        "---\n"@
    } else {
        Seq::empty()
    }
}

/// The text of a document that is a single null, boolean or number without
/// tag (the document without its line break).
pub open spec fn scalar_document(events: Seq<SerEvent>, config: SerializerConfig) -> Option<Seq<char>> {
    if events.len() == 1 && events[0].tag is None {
        crate::emit::event_root_text(events[0].event, config)
    } else {
        None
    }
}

/// The items of a block sequence, one per line, each after `- `.
#[verifier::opaque]
pub open spec fn seq_items_text(items: Seq<SerEvent>, config: SerializerConfig) -> Seq<char>
    decreases items.len(),
{
    if items.len() == 0 {
        Seq::empty()
    } else if items.len() == 1 {
        seq!['-', ' '] + crate::emit::event_item_text(items[0].event, config).unwrap()
    } else {
        seq_items_text(items.drop_last(), config) + seq!['\n', '-', ' '] + crate::emit::event_item_text(
            items.last().event,
            config,
        ).unwrap()
    }
}

/// Every event is an untagged atom that a block sequence writes on one line.
pub open spec fn all_items(items: Seq<SerEvent>, config: SerializerConfig) -> bool {
    forall|i: int| 0 <= i < items.len() ==> (#[trigger] items[i]).tag is None && crate::emit::event_item_text(
        items[i].event,
        config,
    ) is Some
}

/// The text of a document that is an untagged sequence of such atoms
/// (without the final line break): `[]` when it is empty.
pub open spec fn sequence_document(events: Seq<SerEvent>, config: SerializerConfig) -> Option<Seq<char>> {
    if events.len() >= 2 && events[0].tag is None && events[0].event is SeqStart && events.last().event is SeqEnd
        && all_items(events.subrange(1, events.len() - 1), config) {
        Some(if events.len() == 2 {
            "[]"@
        } else {
            seq_items_text(events.subrange(1, events.len() - 1), config)
        })
    } else {
        None
    }
}

/// The entries of a block mapping (keys and values in turn), one per
/// line as `key: value`.
#[verifier::opaque]
pub open spec fn map_pairs_text(items: Seq<SerEvent>, config: SerializerConfig) -> Seq<char>
    decreases items.len(),
{
    if items.len() < 2 {
        Seq::empty()
    } else {
        (if items.len() == 2 {
            Seq::empty()
        } else {
            map_pairs_text(items.take(items.len() - 2), config) + seq!['\n']
        }) + crate::emit::event_key_text(items[items.len() - 2].event, config).unwrap() + seq![':', ' ']
            + crate::emit::event_item_text(items.last().event, config).unwrap()
    }
}

/// The text of the entries of a block mapping up to the key at `m - 1`.
#[verifier::opaque]
pub open spec fn map_key_prefix(items: Seq<SerEvent>, m: int, config: SerializerConfig) -> Seq<char> {
    (if m == 1 {
        Seq::empty()
    } else {
        map_pairs_text(items.take(m - 1), config) + seq!['\n']
    }) + crate::emit::event_key_text(items[m - 1].event, config).unwrap() + seq![':']
}

/// Keys and values in turn, untagged, each written on one line.
pub open spec fn all_pairs(items: Seq<SerEvent>, config: SerializerConfig) -> bool {
    &&& items.len() % 2 == 0
    &&& forall|i: int| 0 <= i < items.len() ==> (#[trigger] items[i]).tag is None && (if i % 2 == 0 {
        crate::emit::event_key_text(items[i].event, config) is Some
    } else {
        crate::emit::event_item_text(items[i].event, config) is Some
    })
}

/// The text of a document that is an untagged mapping of such keys and
/// values (without the final line break): `{}` when it is empty.
pub open spec fn mapping_document(events: Seq<SerEvent>, config: SerializerConfig) -> Option<Seq<char>> {
    if events.len() >= 2 && events[0].tag is None && events[0].event is MapStart && events.last().event is MapEnd
        && all_pairs(events.subrange(1, events.len() - 1), config) {
        Some(if events.len() == 2 {
            "{}"@
        } else {
            map_pairs_text(events.subrange(1, events.len() - 1), config)
        })
    } else {
        None
    }
}

/// The first item of a block sequence.
proof fn lemma_seq_first(items: Seq<SerEvent>, config: SerializerConfig)
    requires
        items.len() >= 1,
    ensures
        seq_items_text(items.take(1), config) == seq!['-', ' '] + crate::emit::event_item_text(items[0].event, config).unwrap(),
{
    reveal(seq_items_text);
    assert(items.take(1)[0] == items[0]);
}

/// One more item of a block sequence.
proof fn lemma_seq_next(items: Seq<SerEvent>, k: int, config: SerializerConfig)
    requires
        1 <= k < items.len(),
    ensures
        seq_items_text(items.take(k + 1), config) == seq_items_text(items.take(k), config) + seq!['\n', '-', ' ']
            + crate::emit::event_item_text(items[k].event, config).unwrap(),
{
    reveal(seq_items_text);
    assert(items.take(k + 1).drop_last() =~= items.take(k));
    assert(items.take(k + 1).last() == items[k]);
}

/// The key of the first entry of a block mapping.
proof fn lemma_map_first_key(items: Seq<SerEvent>, config: SerializerConfig)
    requires
        items.len() >= 1,
    ensures
        map_key_prefix(items, 1, config) == crate::emit::event_key_text(items[0].event, config).unwrap() + seq![':'],
{
    reveal(map_key_prefix);
    assert(Seq::<char>::empty() + crate::emit::event_key_text(items[0].event, config).unwrap() =~= crate::emit::event_key_text(
        items[0].event,
        config,
    ).unwrap());
}

/// The value after a key of a block mapping.
proof fn lemma_map_value(items: Seq<SerEvent>, m: int, config: SerializerConfig)
    requires
        1 <= m < items.len(),
        m % 2 == 1,
    ensures
        map_pairs_text(items.take(m + 1), config) == map_key_prefix(items, m, config) + seq![' ']
            + crate::emit::event_item_text(items[m].event, config).unwrap(),
{
    reveal(map_pairs_text);
    reveal(map_key_prefix);
    let p = items.take(m + 1);
    assert(p.take(m - 1) =~= items.take(m - 1));
    assert(p[m - 1] == items[m - 1]);
    assert(p.last() == items[m]);
    let k = crate::emit::event_key_text(items[m - 1].event, config).unwrap();
    let v = crate::emit::event_item_text(items[m].event, config).unwrap();
    let head: Seq<char> = if m == 1 {
        Seq::empty()
    } else {
        map_pairs_text(items.take(m - 1), config) + seq!['\n']
    };
    assert(head + k + seq![':', ' '] + v =~= head + k + seq![':'] + seq![' '] + v);
}

/// The key of a further entry of a block mapping.
proof fn lemma_map_next_key(items: Seq<SerEvent>, m: int, config: SerializerConfig)
    requires
        2 <= m < items.len(),
    ensures
        map_key_prefix(items, m + 1, config) == map_pairs_text(items.take(m), config) + seq!['\n']
            + crate::emit::event_key_text(items[m].event, config).unwrap() + seq![':'],
{
    reveal(map_key_prefix);
}

/// A string that is written plain makes a document that the scanner reads
/// as one plain scalar with the string as its text: the emitter writes the
/// string and a line break, the scalar starts at the first character and
/// ends at the line break.
pub proof fn lemma_plain_document_reads_back(s: Seq<char>, config: SerializerConfig)
    requires
        !config.quote_all,
        spec_plain_safe(s, config.compat),
    ensures
        crate::emit::string_text(s, config) == s,
        plain_document_at(s.push('\n'), 0),
        plain_text(s.push('\n'), 0) == s,
{
    let d = s.push('\n');
    assert(no_escapes(s));
    assert(!spec_needs_escape(s[0]));
    if s.len() > 1 {
        assert(!spec_needs_escape(s[1]));
    }
    if s.len() > 3 {
        assert(!spec_needs_escape(s[3]));
    }
    if s.len() >= 3 {
        assert(d.subrange(0, 3) == s.subrange(0, 3));
        if d.subrange(0, 3) == seq!['-', '-', '-'] || d.subrange(0, 3) == seq!['.', '.', '.'] {
            assert(d.subrange(0, 3)[0] == s[0] && d.subrange(0, 3)[1] == s[1] && d.subrange(0, 3)[2] == s[2]);
        }
    }
    lemma_plain_runs(s, 0);
    assert(d.subrange(0, s.len() as int) =~= s);
}

/// What is written is read back: a string that the serializer writes plain
/// is written as itself (the document is the string and a line break, see
/// `scalar_document`), that document is one plain scalar with the string
/// as its text, and every event that reading such a document gives (see
/// `from_str`) is the string itself, without tag.
pub proof fn lemma_string_round_trip(v: Vec<char>, config: SerializerConfig, e: DeEvent)
    requires
        !config.quote_all,
        spec_plain_safe(v@, config.compat),
    ensures
        crate::emit::root_text(Atom::Str(v), config) == Some(v@),
        plain_document_at(v@.push('\n'), 0),
        plain_text(v@.push('\n'), 0) == v@,
        crate::de::plain_doc_event(e, plain_text(v@.push('\n'), 0), Version::V1_2) ==> e.tag is None && (e.event matches DataEvent::Atom(Atom::Str(t)) && t@ == v@),
{
    lemma_plain_document_reads_back(v@, config);
    assert(!v@.contains('\n')) by {
        if v@.contains('\n') {
            let k = choose|k: int| 0 <= k < v@.len() && v@[k] == '\n';
            assert(no_escapes(v@));
            assert(spec_needs_escape(v@[k]));
        }
    }
}

/// From a run start inside a plain safe string, the scalar goes on to the
/// end of the string.
proof fn lemma_plain_runs(s: Seq<char>, k: int)
    requires
        s.len() > 0 && s[0] != ' ' && s.last() != ' ' && s.last() != ':',
        no_escapes(s),
        !contains_pair(s, ':', ' ') && !contains_pair(s, ' ', '#'),
        0 <= k < s.len(),
        s[k] != ' ',
        k == 0 || s[k - 1] == ' ',
    ensures
        plain_line(s.push('\n'), k, false) == Some((s.len() as int, s.len() + 1int)),
    decreases s.len() - k,
{
    let d = s.push('\n');
    lemma_run_end(d, k, false);
    let e = run_end(d, k, false);
    assert(plain_stop(d, s.len() as int, false));
    if e < s.len() {
        assert(!spec_needs_escape(s[e]));
        if e + 1 < s.len() {
            assert(!spec_needs_escape(s[e + 1]));
            if s[e] == ':' && s[e + 1] == ' ' {
                assert(contains_pair(s, ':', ' '));
            }
        }
        assert(s[e] == ' ');
    }
    lemma_blanks_end(d, e);
    let b = blanks_end(d, e);
    assert(char_at(d, s.len() as int) == Some('\n'));
    if e == s.len() {
        assert(b == e);
        assert(blank_rest(d, e)) by {
            assert forall|j: int| e <= j < d.len() implies spec_is_blank_or_break(#[trigger] char_at(d, j)) by {
                assert(j == e);
            }
        }
    } else {
        if b == s.len() {
            assert(char_at(d, b - 1) == Some(s[b - 1]));
            assert(spec_is_blank(char_at(d, b - 1)));
            assert(!spec_needs_escape(s[b - 1]));
            assert(s[b - 1] == ' ');
            assert(false);
        }
        assert(b < s.len());
        assert(char_at(d, b - 1) == Some(s[b - 1]));
        assert(!spec_needs_escape(s[b - 1]));
        assert(s[b - 1] == ' ');
        assert(!spec_needs_escape(s[b]));
        assert(s[b] != ' ');
        if s[b] == '#' {
            assert(contains_pair(s, ' ', '#'));
        }
        if b + 1 < s.len() {
            assert(!spec_needs_escape(s[b + 1]));
            if s[b] == ':' && s[b + 1] == ' ' {
                assert(contains_pair(s, ':', ' '));
            }
        }
        assert(!plain_stop(d, b, false));
        lemma_run_end(d, b + 1, false);
        assert(run_end(d, b, false) > b);
        lemma_plain_runs(s, b);
    }
}

/// Writes one document.
#[verifier::rlimit(100)]
#[verifier::spinoff_prover]
fn write_document(config: &SerializerConfig, prefix: String, events: &[SerEvent]) -> (r: Result<String, Error>)
    ensures
        r is Ok ==> nesting(data_events(events@)) == Some(Seq::<bool>::empty()) && events@.len() > 0,
        r matches Ok(s) ==> crate::emit::extends(prefix@, s@),
        scalar_document(events@, *config) is Some ==> r is Ok && r->Ok_0@ == prefix@ + scalar_document(
            events@,
            *config,
        )->0 + seq!['\n'],
        sequence_document(events@, *config) is Some ==> r is Ok && r->Ok_0@ == prefix@ + sequence_document(
            events@,
            *config,
        )->0 + seq!['\n'],
        mapping_document(events@, *config) is Some ==> r is Ok && r->Ok_0@ == prefix@ + mapping_document(
            events@,
            *config,
        )->0 + seq!['\n'],
{
    let mut emitter = Emitter::new(config, prefix);
    let ghost sd = sequence_document(events@, *config) is Some;
    let ghost md = mapping_document(events@, *config) is Some;
    let ghost items = events@.subrange(1, events@.len() - 1);
    let ghost n = events@.len();
    let ghost start = prefix@;
    assert(data_events(events@).take(0) =~= Seq::<DataEvent>::empty());
    proof {
        crate::emit::lemma_extends_refl(start);
        assert(emitter.open_kinds() == Seq::<bool>::empty());
    }
    let mut i: usize = 0;
    while i < events.len()
        invariant
            i <= events@.len(),
            emitter.wf(),
            nesting(data_events(events@).take(i as int)) == Some(emitter.open_kinds()),
            crate::emit::extends(start, emitter.text()),
            i == 0 ==> !emitter.is_complete(),
            i == 0 ==> emitter.at_start() && emitter.text() == start,
            emitter.spec_config() == *config,
            i == 1 && scalar_document(events@, *config) is Some ==> emitter.text() == start + scalar_document(
                events@,
                *config,
            )->0 && emitter.is_complete() && emitter.line_open(),
            sd == (sequence_document(events@, *config) is Some),
            n == events@.len(),
            sd && i == 1 ==> emitter.root_seq_started() && emitter.text() == start,
            sd && 2 <= i < n ==> emitter.root_seq_continued() && emitter.text() == start + seq_items_text(
                events@.subrange(1, i as int),
                *config,
            ),
            sd && i == n ==> emitter.is_complete() && emitter.line_open() && emitter.text() == start
                + sequence_document(events@, *config)->0,
            md == (mapping_document(events@, *config) is Some),
            md ==> items == events@.subrange(1, n - 1),
            md && i == 1 ==> emitter.root_map_started() && emitter.text() == start,
            md && 2 <= i < n && (i - 1) % 2 == 1 ==> emitter.root_map_value_next() && emitter.text() == start
                + map_key_prefix(items, i - 1, *config),
            md && 2 <= i < n && (i - 1) % 2 == 0 ==> emitter.root_map_key_next() && emitter.text() == start
                + map_pairs_text(items.take(i - 1), *config),
            md && i == n ==> emitter.is_complete() && emitter.line_open() && emitter.text() == start
                + mapping_document(events@, *config)->0,
        decreases events@.len() - i,
    {
        let ghost before = emitter.text();
        proof {
            if md && 1 <= i < n - 1 {
                assert(events@[i as int] == items[i - 1]);
                assert(items[i - 1].tag is None);
            }
            if sd && 1 <= i < n - 1 {
                let items = events@.subrange(1, n - 1);
                assert(events@[i as int] == items[i - 1]);
                assert(all_items(items, *config));
                assert(items[i - 1].tag is None);
            }
        }
        match emitter.event(&events[i]) {
            Ok(()) => {},
            Err(e) => return Err(e),
        }
        proof {
            let d = data_events(events@);
            assert(d.take(i + 1).drop_last() =~= d.take(i as int));
            assert(d.take(i + 1).last() == events@[i as int].event);
            crate::emit::lemma_extends_trans(start, before, emitter.text());
            if sd && 1 <= i < n - 1 {
                let its = events@.subrange(1, n - 1);
                assert(events@.subrange(1, i + 1) =~= its.take(i as int));
                assert(events@.subrange(1, i as int) =~= its.take(i - 1));
                if i == 1 {
                    lemma_seq_first(its, *config);
                } else {
                    lemma_seq_next(its, i - 1, *config);
                }
            }
            if sd && i == n - 1 && i >= 2 {
                assert(events@.subrange(1, i as int) == events@.subrange(1, n - 1));
            }
            if md && 1 <= i < n - 1 {
                let m = i - 1;
                if m % 2 == 1 {
                    lemma_map_value(items, m, *config);
                } else if m > 0 {
                    lemma_map_next_key(items, m, *config);
                } else {
                    lemma_map_first_key(items, *config);
                }
            }
            if md && i == n - 1 && i >= 2 {
                assert(items.take(i - 1) =~= items);
            }
        }
        i = i + 1;
    }
    assert(data_events(events@).take(events@.len() as int) =~= data_events(events@));
    proof {
        emitter.lemma_complete_closed();
    }
    let ghost t = emitter.text();
    let ghost complete = emitter.is_complete();
    let r = emitter.finish();
    proof {
        if r is Ok {
            let out = r->Ok_0@;
            if out != t {
                assert(out == t.push('\n'));
                assert(out.take(t.len() as int) =~= t);
            } else {
                assert(out.take(t.len() as int) =~= t);
            }
            crate::emit::lemma_extends_trans(start, t, out);
        }
    }
    r
}


impl SerializerConfig {
    /// Serializes the events of one value as a document.
    pub fn to_string(&self, events: &[SerEvent]) -> (r: Result<String, Error>)
        ensures
            r is Ok ==> nesting(data_events(events@)) == Some(Seq::<bool>::empty()) && events@.len() > 0,
            r matches Ok(s) ==> crate::emit::extends(document_prefix(*self, 0), s@),
            scalar_document(events@, *self) is Some ==> r is Ok && r->Ok_0@ == document_prefix(*self, 0)
                + scalar_document(events@, *self)->0 + seq!['\n'],
            sequence_document(events@, *self) is Some ==> r is Ok && r->Ok_0@ == document_prefix(*self, 0)
                + sequence_document(events@, *self)->0 + seq!['\n'],
            mapping_document(events@, *self) is Some ==> r is Ok && r->Ok_0@ == document_prefix(*self, 0)
                + mapping_document(events@, *self)->0 + seq!['\n'],
    {
        let mut serializer = Serializer::new(*self);
        match serializer.serialize(events) {
            Ok(()) => {},
            Err(e) => return Err(e),
        }
        Ok(serializer.finish())
    }
}

/// Serializes the events of a value to YAML with the default configuration.
pub fn to_string(events: &[SerEvent]) -> (r: Result<String, Error>)
    ensures
        r is Ok ==> nesting(data_events(events@)) == Some(Seq::<bool>::empty()) && events@.len() > 0,
        scalar_document(events@, default_config()) is Some ==> r is Ok && r->Ok_0@ == scalar_document(
            events@,
            default_config(),
        )->0 + seq!['\n'],
        sequence_document(events@, default_config()) is Some ==> r is Ok && r->Ok_0@ == sequence_document(
            events@,
            default_config(),
        )->0 + seq!['\n'],
        mapping_document(events@, default_config()) is Some ==> r is Ok && r->Ok_0@ == mapping_document(
            events@,
            default_config(),
        )->0 + seq!['\n'],
{
    SerializerConfig::new().to_string(events)
}

/// Serializes a stream of documents.  Every value is written as a
/// document, documents after the first start with `---`.
pub struct Serializer {
    config: SerializerConfig,
    out: String,
    documents: usize,
}

impl Serializer {
    /// The documents written so far.
    pub closed spec fn written(&self) -> Seq<char> {
        self.out@
    }

    /// The number of documents written so far.
    pub closed spec fn count(&self) -> nat {
        self.documents as nat
    }

    /// The configuration.
    pub closed spec fn spec_config(&self) -> SerializerConfig {
        self.config
    }

    /// Creates a serializer with the given configuration.
    pub fn new(config: SerializerConfig) -> (s: Serializer)
        ensures
            s.written() == Seq::<char>::empty(),
            s.count() == 0,
            s.spec_config() == config,
    {
        Serializer { config, out: String::new(), documents: 0 }
    }

    /// Serializes the events of a value as document.  If the serialization
    /// fails, nothing is written.
    pub fn serialize(&mut self, events: &[SerEvent]) -> (r: Result<(), Error>)
        ensures
            final(self).spec_config() == old(self).spec_config(),
            r is Ok ==> nesting(data_events(events@)) == Some(Seq::<bool>::empty()) && events@.len() > 0,
            r is Ok ==> final(self).count() == old(self).count() + 1 || old(self).count() == usize::MAX,
            scalar_document(events@, old(self).spec_config()) is Some ==> r is Ok && final(self).written()
                == old(self).written() + document_prefix(old(self).spec_config(), old(self).count()) + scalar_document(
                events@,
                old(self).spec_config(),
            )->0 + seq!['\n'],
            sequence_document(events@, old(self).spec_config()) is Some ==> r is Ok && final(self).written()
                == old(self).written() + document_prefix(old(self).spec_config(), old(self).count()) + sequence_document(
                events@,
                old(self).spec_config(),
            )->0 + seq!['\n'],
            mapping_document(events@, old(self).spec_config()) is Some ==> r is Ok && final(self).written()
                == old(self).written() + document_prefix(old(self).spec_config(), old(self).count()) + mapping_document(
                events@,
                old(self).spec_config(),
            )->0 + seq!['\n'],
            r is Ok ==> crate::emit::extends(
                old(self).written() + document_prefix(old(self).spec_config(), old(self).count()),
                final(self).written(),
            ),
            r is Err ==> final(self).written() == old(self).written() && final(self).count() == old(self).count(),
    {
        let prefix: &str = if self.config.version_directive {
            "%YAML 1.2\n---\n"
        } else if self.config.document_start || self.documents > 0 {
            "---\n"
        } else {
            ""
        };
        proof {
            reveal_strlit("");
        }
        assert(prefix@ == document_prefix(self.config, self.documents as nat));
        let document = match write_document(&self.config, String::from_str(prefix), events) {
            Ok(d) => d,
            Err(e) => return Err(e),
        };
        let ghost before = self.out@;
        string_push_chars(&mut self.out, &str_chars(document.as_str()));
        proof {
            if scalar_document(events@, old(self).config) is Some {
                assert(self.out@ =~= old(self).out@ + document_prefix(old(self).config, old(self).documents as nat)
                    + scalar_document(events@, old(self).config)->0 + seq!['\n']);
            }
            if sequence_document(events@, old(self).config) is Some {
                assert(self.out@ =~= old(self).out@ + document_prefix(old(self).config, old(self).documents as nat)
                    + sequence_document(events@, old(self).config)->0 + seq!['\n']);
            }
            if mapping_document(events@, old(self).config) is Some {
                assert(self.out@ =~= old(self).out@ + document_prefix(old(self).config, old(self).documents as nat)
                    + mapping_document(events@, old(self).config)->0 + seq!['\n']);
            }
        }
        proof {
            let p = document_prefix(old(self).config, old(self).documents as nat);
            assert(self.out@ == before + document@);
            assert((before + document@).take((before + p).len() as int) =~= before + document@.take(p.len() as int));
        }
        self.documents = self.documents.saturating_add(1);
        Ok(())
    }

    /// Returns the written documents.
    pub fn finish(self) -> (s: String)
        ensures
            s@ == self.written(),
    {
        self.out
    }

    /// Returns the documents written so far.
    pub fn output(&self) -> (s: &str)
        ensures
            s@ == self.written(),
    {
        self.out.as_str()
    }
}

} // verus!
