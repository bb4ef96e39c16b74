//! The YAML scanner: turns text into tokens.
//!
//! The design follows the classic libyaml architecture: block structure is
//! derived from indentation (producing `BlockSequenceStart`,
//! `BlockMappingStart` and `BlockEnd` tokens) and implicit keys are detected
//! by remembering where a potential "simple key" started.  Once the `:`
//! indicator is found, a `Key` token (and possibly a `BlockMappingStart`
//! token) is inserted at that position.  The rules are adjusted to follow
//! YAML 1.2.
use std::collections::VecDeque;
use vstd::prelude::*;

use crate::error::{Error, ErrorKind};
use crate::event::{Mark, ScalarStyle};
use crate::parser::{syntax_error, syntax_message};
use crate::text::{char_from_u32, char_len_utf8, chars_eq, decode_utf8_chars, is_scalar_value, push_chars, str_chars, sub_chars, utf8_len};

verus! {

/// The maximum length of an implicit key (YAML 1.2, 7.4.2).
pub const MAX_SIMPLE_KEY_LENGTH: usize = 1024;

/// The longest input (in characters) the scanner accepts, so that byte
/// offsets, lines and columns fit into `usize`.
pub const MAX_INPUT_CHARS: usize = usize::MAX / 8;

#[derive(Debug, Clone, PartialEq, Eq)]
pub enum TokenKind {
    StreamStart,
    StreamEnd,
    VersionDirective(u32, u32),
    TagDirective(Vec<char>, Vec<char>),
    ReservedDirective,
    DocumentStart,
    DocumentEnd,
    BlockSequenceStart,
    BlockMappingStart,
    BlockEnd,
    FlowSequenceStart,
    FlowSequenceEnd,
    FlowMappingStart,
    FlowMappingEnd,
    BlockEntry,
    FlowEntry,
    Key,
    Value,
    Alias(Vec<char>),
    Anchor(Vec<char>),
    /// A tag as handle and suffix.  Verbatim tags have an empty handle.
    Tag(Vec<char>, Vec<char>),
    Scalar(ScalarStyle, Vec<char>),
}

/// The kind of a token without payload.
#[derive(Debug, Clone, Copy, PartialEq, Eq, Structural)]
pub enum TokenType {
    StreamStart,
    StreamEnd,
    VersionDirective,
    TagDirective,
    ReservedDirective,
    DocumentStart,
    DocumentEnd,
    BlockSequenceStart,
    BlockMappingStart,
    BlockEnd,
    FlowSequenceStart,
    FlowSequenceEnd,
    FlowMappingStart,
    FlowMappingEnd,
    BlockEntry,
    FlowEntry,
    Key,
    Value,
    Alias,
    Anchor,
    Tag,
    Scalar,
}

impl TokenKind {
    /// The type of a token kind.
    pub open spec fn spec_ty(&self) -> TokenType {
        match self {
            TokenKind::StreamStart => TokenType::StreamStart,
            TokenKind::StreamEnd => TokenType::StreamEnd,
            TokenKind::VersionDirective(..) => TokenType::VersionDirective,
            TokenKind::TagDirective(..) => TokenType::TagDirective,
            TokenKind::ReservedDirective => TokenType::ReservedDirective,
            TokenKind::DocumentStart => TokenType::DocumentStart,
            TokenKind::DocumentEnd => TokenType::DocumentEnd,
            TokenKind::BlockSequenceStart => TokenType::BlockSequenceStart,
            TokenKind::BlockMappingStart => TokenType::BlockMappingStart,
            TokenKind::BlockEnd => TokenType::BlockEnd,
            TokenKind::FlowSequenceStart => TokenType::FlowSequenceStart,
            TokenKind::FlowSequenceEnd => TokenType::FlowSequenceEnd,
            TokenKind::FlowMappingStart => TokenType::FlowMappingStart,
            TokenKind::FlowMappingEnd => TokenType::FlowMappingEnd,
            TokenKind::BlockEntry => TokenType::BlockEntry,
            TokenKind::FlowEntry => TokenType::FlowEntry,
            TokenKind::Key => TokenType::Key,
            TokenKind::Value => TokenType::Value,
            TokenKind::Alias(..) => TokenType::Alias,
            TokenKind::Anchor(..) => TokenType::Anchor,
            TokenKind::Tag(..) => TokenType::Tag,
            TokenKind::Scalar(..) => TokenType::Scalar,
        }
    }

    /// Returns the type of the token.
    pub fn ty(&self) -> (t: TokenType)
        ensures
            t == self.spec_ty(),
    {
        match self {
            TokenKind::StreamStart => TokenType::StreamStart,
            TokenKind::StreamEnd => TokenType::StreamEnd,
            TokenKind::VersionDirective(..) => TokenType::VersionDirective,
            TokenKind::TagDirective(..) => TokenType::TagDirective,
            TokenKind::ReservedDirective => TokenType::ReservedDirective,
            TokenKind::DocumentStart => TokenType::DocumentStart,
            TokenKind::DocumentEnd => TokenType::DocumentEnd,
            TokenKind::BlockSequenceStart => TokenType::BlockSequenceStart,
            TokenKind::BlockMappingStart => TokenType::BlockMappingStart,
            TokenKind::BlockEnd => TokenType::BlockEnd,
            TokenKind::FlowSequenceStart => TokenType::FlowSequenceStart,
            TokenKind::FlowSequenceEnd => TokenType::FlowSequenceEnd,
            TokenKind::FlowMappingStart => TokenType::FlowMappingStart,
            TokenKind::FlowMappingEnd => TokenType::FlowMappingEnd,
            TokenKind::BlockEntry => TokenType::BlockEntry,
            TokenKind::FlowEntry => TokenType::FlowEntry,
            TokenKind::Key => TokenType::Key,
            TokenKind::Value => TokenType::Value,
            TokenKind::Alias(..) => TokenType::Alias,
            TokenKind::Anchor(..) => TokenType::Anchor,
            TokenKind::Tag(..) => TokenType::Tag,
            TokenKind::Scalar(..) => TokenType::Scalar,
        }
    }
}

#[derive(Debug, Clone)]
pub struct Token {
    pub kind: TokenKind,
    pub start: Mark,
    pub end: Mark,
}

/// The token starts and ends at the very start of the input.
pub open spec fn starts_at_origin(t: Token) -> bool {
    t.start == (Mark { offset: 0, line: 0, column: 0 }) && t.end == (Mark { offset: 0, line: 0, column: 0 })
}

/// A position where an implicit key might start.
#[derive(Debug, Clone, Copy)]
struct SimpleKey {
    possible: bool,
    /// The key must be completed (it is at the indentation of a block
    /// mapping).
    required: bool,
    /// The number of the first token of the key.
    token_number: usize,
    mark: Mark,
    /// A tab was used in the whitespace before the key.
    tab_before: bool,
}

fn no_simple_key() -> (k: SimpleKey)
    ensures
        !k.possible,
        !k.required,
        k.token_number == 0,
        k.mark == (Mark { offset: 0, line: 0, column: 0 }),
        !k.tab_before,
        mark_ok(k.mark),
{
    SimpleKey {
        possible: false,
        required: false,
        token_number: 0,
        mark: Mark { offset: 0, line: 0, column: 0 },
        tab_before: false,
    }
}

#[derive(Debug, Clone, Copy, PartialEq, Eq, Structural)]
enum FlowKind {
    Sequence,
    Mapping,
}

// -- character classes ------------------------------------------------------

pub open spec fn spec_is_blank(c: Option<char>) -> bool {
    c == Some(' ') || c == Some('\t')
}

pub open spec fn spec_is_break(c: Option<char>) -> bool {
    c == Some('\n') || c == Some('\r')
}

pub open spec fn spec_is_blank_or_break(c: Option<char>) -> bool {
    spec_is_blank(c) || spec_is_break(c)
}

pub open spec fn spec_is_blankz(c: Option<char>) -> bool {
    c is None || spec_is_blank_or_break(c)
}

pub open spec fn spec_is_flow_indicator(c: Option<char>) -> bool {
    c == Some(',') || c == Some('[') || c == Some(']') || c == Some('{') || c == Some('}')
}

pub open spec fn spec_is_word_char(c: Option<char>) -> bool {
    match c {
        Some(ch) => ('0' <= ch <= '9') || ('a' <= ch <= 'z') || ('A' <= ch <= 'Z') || ch == '-',
        None => false,
    }
}

pub open spec fn spec_is_uri_punct(ch: char) -> bool {
    ch == '%' || ch == '#' || ch == ';' || ch == '/' || ch == '?' || ch == ':' || ch == '@'
        || ch == '&' || ch == '=' || ch == '+' || ch == '$' || ch == ',' || ch == '_'
        || ch == '.' || ch == '!' || ch == '~' || ch == '*' || ch == '\'' || ch == '('
        || ch == ')' || ch == '[' || ch == ']'
}

pub open spec fn spec_is_uri_char(c: Option<char>) -> bool {
    spec_is_word_char(c) || (c matches Some(ch) && spec_is_uri_punct(ch))
}

pub open spec fn spec_is_tag_char(c: Option<char>) -> bool {
    spec_is_uri_char(c) && c != Some('!') && !spec_is_flow_indicator(c)
}

fn is_blank(c: Option<char>) -> (r: bool)
    ensures
        r == spec_is_blank(c),
{
    match c {
        Some(ch) => ch == ' ' || ch == '\t',
        None => false,
    }
}

fn is_break(c: Option<char>) -> (r: bool)
    ensures
        r == spec_is_break(c),
{
    match c {
        Some(ch) => ch == '\n' || ch == '\r',
        None => false,
    }
}

fn is_blank_or_break(c: Option<char>) -> (r: bool)
    ensures
        r == spec_is_blank_or_break(c),
{
    is_blank(c) || is_break(c)
}

fn is_blankz(c: Option<char>) -> (r: bool)
    ensures
        r == spec_is_blankz(c),
{
    c.is_none() || is_blank_or_break(c)
}

fn is_flow_indicator(c: Option<char>) -> (r: bool)
    ensures
        r == spec_is_flow_indicator(c),
{
    match c {
        Some(ch) => ch == ',' || ch == '[' || ch == ']' || ch == '{' || ch == '}',
        None => false,
    }
}

fn is_word_char(c: Option<char>) -> (r: bool)
    ensures
        r == spec_is_word_char(c),
{
    match c {
        Some(ch) => ('0' <= ch && ch <= '9') || ('a' <= ch && ch <= 'z') || ('A' <= ch && ch
            <= 'Z') || ch == '-',
        None => false,
    }
}

fn is_uri_char(c: Option<char>) -> (r: bool)
    ensures
        r == spec_is_uri_char(c),
{
    if is_word_char(c) {
        return true;
    }
    match c {
        Some(ch) => ch == '%' || ch == '#' || ch == ';' || ch == '/' || ch == '?' || ch == ':'
            || ch == '@' || ch == '&' || ch == '=' || ch == '+' || ch == '$' || ch == ','
            || ch == '_' || ch == '.' || ch == '!' || ch == '~' || ch == '*' || ch == '\''
            || ch == '(' || ch == ')' || ch == '[' || ch == ']',
        None => false,
    }
}

fn is_tag_char(c: Option<char>) -> (r: bool)
    ensures
        r == spec_is_tag_char(c),
{
    is_uri_char(c) && c != Some('!') && !is_flow_indicator(c)
}

/// Adds a key to a key queue, replacing an older key of the same level.
pub fn push_key(keys: &mut VecDeque<(usize, usize)>, entry: (usize, usize))
    ensures
        old(keys)@.len() > 0 && old(keys)@.last().0 == entry.0 ==> final(keys)@ == old(keys)@.drop_last().push(entry),
        !(old(keys)@.len() > 0 && old(keys)@.last().0 == entry.0) ==> final(keys)@ == old(keys)@.push(entry),
{
    let n = keys.len();
    if n > 0 && keys[n - 1].0 == entry.0 {
        let _ = keys.pop_back();
        keys.push_back(entry);
    } else {
        keys.push_back(entry);
    }
}


/// The queued tokens after a token is inserted at the position of a token
/// number (counted from the start of the stream, `parsed` tokens were
/// handed out), or appended where that position is not queued.
pub open spec fn tokens_with(tokens: Seq<Token>, parsed: int, number: int, t: Token) -> Seq<Token> {
    if number >= parsed && number - parsed <= tokens.len() {
        tokens.insert(number - parsed, t)
    } else {
        tokens.push(t)
    }
}

/// The block ends that close `n` block collections at a mark.
pub open spec fn block_ends(n: nat, m: Mark) -> Seq<Token> {
    Seq::new(n, |i: int| Token { kind: TokenKind::BlockEnd, start: m, end: m })
}

/// A mark whose line and column can be reported one based.
pub open spec fn mark_ok(m: Mark) -> bool {
    m.offset <= 4 * MAX_INPUT_CHARS && m.line <= MAX_INPUT_CHARS && m.column <= MAX_INPUT_CHARS
}

pub open spec fn token_ok(t: Token) -> bool {
    mark_ok(t.start) && mark_ok(t.end)
}

pub struct Scanner {
    input: Vec<char>,
    /// The index of the next character.
    pos: usize,
    mark: Mark,
    tokens: VecDeque<Token>,
    /// The number of tokens handed out so far.
    tokens_parsed: usize,
    stream_start_produced: bool,
    stream_end_produced: bool,
    /// The current block indentation (-1 outside of block collections).
    indent: isize,
    indents: Vec<isize>,
    flows: Vec<FlowKind>,
    simple_key_allowed: bool,
    /// One slot per flow level (plus one for the block context).
    simple_keys: Vec<SimpleKey>,
    /// The possible simple keys as `(level, token_number)`, ordered by
    /// level.  Keys are only ever saved on the innermost level, so the order
    /// by level is also the order by position.  Entries are removed lazily
    /// and must be validated with `is_possible_key`.
    possible_keys: VecDeque<(usize, usize)>,
    /// The subset of `possible_keys` that can become stale (all keys but
    /// the ones in flow mappings).  Keys go stale in order of their position
    /// so only the front needs to be checked.
    stale_keys: VecDeque<(usize, usize)>,
    /// The previous token was a JSON-like node (quoted scalar or flow
    /// collection) which allows `:` to be adjacent to the value in flow
    /// context.
    adjacent_value_allowed: bool,
    /// Non whitespace was seen on the current line.
    line_has_content: bool,
    /// The number of spaces at the beginning of the line.
    line_indent: usize,
    /// A tab was seen in the whitespace since the last content character.
    ws_has_tab: bool,
}

impl Scanner {
    /// The invariant of the scanner state.
    pub closed spec fn wf(&self) -> bool {
        &&& self.input.len() <= MAX_INPUT_CHARS
        &&& self.pos <= self.input.len()
        &&& self.mark.offset <= 4 * self.pos
        &&& self.mark.line <= self.pos
        &&& self.mark.column <= self.pos
        &&& self.line_indent <= self.mark.column
        &&& -1 <= self.indent <= MAX_INPUT_CHARS
        &&& (self.indent == -1) == (self.indents.len() == 0)
        &&& (self.indents.len() > 0 ==> self.indents[0] == -1)
        &&& forall|i: int| 0 < i < self.indents.len() ==> 0 <= #[trigger] self.indents[i] <= MAX_INPUT_CHARS
        &&& self.stream_start_produced ==> self.simple_keys.len() == self.flows.len() + 1
        &&& !self.stream_start_produced ==> self.simple_keys.len() == 0 && self.flows.len() == 0
            && self.indents.len() == 0
        &&& forall|i: int| 0 <= i < self.simple_keys.len() ==> mark_ok(#[trigger] self.simple_keys[i].mark)
        &&& forall|i: int| 0 <= i < self.tokens@.len() ==> token_ok(#[trigger] self.tokens@[i])
    }

    /// The characters of the input.
    pub closed spec fn input(&self) -> Seq<char> {
        self.input@
    }

    /// The number of characters consumed.
    pub closed spec fn position(&self) -> nat {
        self.pos as nat
    }

    /// The tokens that were scanned but not handed out.
    pub closed spec fn queued(&self) -> Seq<Token> {
        self.tokens@
    }

    pub closed spec fn at_stream_end(&self) -> bool {
        self.stream_end_produced
    }

    /// A token is queued and no simple key waits for more tokens: the next
    /// token is known without scanning.
    pub closed spec fn has_token_ready(&self) -> bool {
        &&& self.tokens@.len() > 0
        &&& self.stream_end_produced || (self.stale_keys@.len() == 0 && self.possible_keys@.len() == 0)
    }

    /// The oldest key that may go stale is still possible, on the current
    /// line and within the length limit (or there is none).
    spec fn stale_head_live(&self) -> bool {
        self.stale_keys@.len() > 0 ==> {
            let (level, number) = self.stale_keys@[0];
            &&& level < self.simple_keys@.len()
            &&& self.simple_keys@[level as int].possible
            &&& self.simple_keys@[level as int].token_number == number
            &&& self.simple_keys@[level as int].mark.line == self.mark.line
            &&& self.simple_keys@[level as int].mark.offset + MAX_SIMPLE_KEY_LENGTH >= self.mark.offset
        }
    }

    /// The oldest possible key is still possible (or there is none).
    spec fn possible_head_live(&self) -> bool {
        self.possible_keys@.len() > 0 ==> {
            let (level, number) = self.possible_keys@[0];
            &&& level < self.simple_keys@.len()
            &&& self.simple_keys@[level as int].possible
            &&& self.simple_keys@[level as int].token_number == number
        }
    }

    /// The head of the queue is final: peeking again changes nothing.
    pub closed spec fn token_settled(&self) -> bool {
        &&& self.tokens@.len() > 0
        &&& self.stream_end_produced || {
            &&& self.stale_head_live()
            &&& self.possible_head_live()
            &&& !(self.possible_keys@.len() > 0 && self.possible_keys@[0].1 == self.tokens_parsed)
        }
    }

    /// Nothing was scanned yet.
    pub closed spec fn is_fresh(&self) -> bool {
        &&& !self.stream_start_produced
        &&& !self.stream_end_produced
        &&& self.tokens@.len() == 0
        &&& self.stale_keys@.len() == 0
        &&& self.possible_keys@.len() == 0
        &&& !self.ws_has_tab
        &&& self.mark == (Mark { offset: 0, line: 0, column: 0 })
    }

    /// At the top level, no token is queued and a document of one plain
    /// scalar follows.
    pub closed spec fn plain_ahead(&self) -> bool {
        &&& self.ready_for_node()
        &&& self.tokens@.len() == 0
        &&& plain_document_at(self.input@, self.pos as int)
    }

    /// At the top level, the whole input is scanned and one token is queued:
    /// a plain scalar with the text.
    pub open spec fn plain_scalar_queued(&self, text: Seq<char>) -> bool {
        &&& self.at_top_level()
        &&& self.queued().len() == 1
        &&& self.queued()[0].kind == TokenKind::Scalar(ScalarStyle::Plain, self.queued()[0].kind->Scalar_1)
        &&& self.queued()[0].kind->Scalar_1@ == text
        &&& self.position() == self.input().len()
    }

    /// A possible simple key at the top level is waiting for its `:`, and
    /// the scanner has gone on to a later line.
    spec fn key_pending(&self) -> bool {
        &&& self.stream_start_produced && !self.stream_end_produced
        &&& self.flows@.len() == 0 && self.indent == -1
        &&& self.simple_keys@.len() == 1 && self.simple_keys@[0].possible && !self.simple_keys@[0].required
        &&& self.stale_keys@ == seq![(0usize, self.simple_keys@[0].token_number)]
        &&& self.possible_keys@ == self.stale_keys@
        &&& self.simple_keys@[0].mark.line < self.mark.line
    }

    /// At the top level with no open flow or block and no possible simple
    /// key; the list of possible keys may still hold stale entries.
    spec fn key_dropped(&self) -> bool {
        &&& self.stream_start_produced && !self.stream_end_produced
        &&& self.flows@.len() == 0 && self.indent == -1
        &&& self.simple_keys@.len() == 1 && !self.simple_keys@[0].possible
        &&& self.stale_keys@.len() == 0
    }

    /// At the top level, a simple key may start and no tab was seen in the
    /// whitespace before.
    pub closed spec fn ready_for_node(&self) -> bool {
        &&& self.at_top_level()
        &&& self.simple_key_allowed
        &&& !self.ws_has_tab
    }

    /// The start of the stream was scanned, its end was not, and no block
    /// collection, flow collection or simple key is open.
    pub closed spec fn at_top_level(&self) -> bool {
        &&& self.stream_start_produced
        &&& !self.stream_end_produced
        &&& self.stale_keys@.len() == 0
        &&& self.possible_keys@.len() == 0
        &&& self.flows@.len() == 0
        &&& self.indent == -1
        &&& self.simple_keys@.len() == 1 && !self.simple_keys@[0].possible
    }

    /// Returns the number of characters of the input.
    pub fn input_len(&self) -> (n: usize)
        requires
            self.wf(),
        ensures
            n == self.input().len(),
            n <= MAX_INPUT_CHARS,
    {
        self.input.len()
    }

    spec fn spec_peek(&self) -> Option<char> {
        if self.pos < self.input.len() {
            Some(self.input@[self.pos as int])
        } else {
            None
        }
    }

    spec fn spec_peek_at(&self, n: int) -> Option<char> {
        if 0 <= self.pos + n < self.input.len() {
            Some(self.input@[self.pos + n])
        } else {
            None
        }
    }

    /// Everything but the reading position and the line tracking is equal.
    spec fn same_structure(&self, other: &Scanner) -> bool {
        &&& self.input == other.input
        &&& self.tokens == other.tokens
        &&& self.tokens_parsed == other.tokens_parsed
        &&& self.stream_start_produced == other.stream_start_produced
        &&& self.stream_end_produced == other.stream_end_produced
        &&& self.indent == other.indent
        &&& self.indents == other.indents
        &&& self.flows == other.flows
        &&& self.simple_key_allowed == other.simple_key_allowed
        &&& self.simple_keys == other.simple_keys
        &&& self.possible_keys == other.possible_keys
        &&& self.stale_keys == other.stale_keys
        &&& self.adjacent_value_allowed == other.adjacent_value_allowed
    }

    /// Creates a scanner for the input.
    pub fn new(input: &str) -> (s: Scanner)
        requires
            input@.len() <= MAX_INPUT_CHARS,
        ensures
            s.wf(),
            s.input() == input@,
            s.position() == 0,
            s.queued().len() == 0,
            !s.at_stream_end(),
            s.is_fresh(),
    {
        Scanner {
            input: str_chars(input),
            pos: 0,
            mark: Mark { offset: 0, line: 0, column: 0 },
            tokens: VecDeque::new(),
            tokens_parsed: 0,
            stream_start_produced: false,
            stream_end_produced: false,
            indent: -1,
            indents: Vec::new(),
            flows: Vec::new(),
            simple_key_allowed: false,
            simple_keys: Vec::new(),
            possible_keys: VecDeque::new(),
            stale_keys: VecDeque::new(),
            adjacent_value_allowed: false,
            line_has_content: false,
            line_indent: 0,
            ws_has_tab: false,
        }
    }

    // -- reading ----------------------------------------------------------

    fn peek(&self) -> (c: Option<char>)
        requires
            self.pos <= self.input.len(),
        ensures
            c == self.spec_peek(),
    {
        if self.pos < self.input.len() {
            Some(self.input[self.pos])
        } else {
            None
        }
    }

    fn peek_at(&self, n: usize) -> (c: Option<char>)
        requires
            self.pos <= self.input.len(),
            self.input.len() <= MAX_INPUT_CHARS,
            n <= 8,
        ensures
            c == self.spec_peek_at(n as int),
    {
        if self.pos + n < self.input.len() {
            Some(self.input[self.pos + n])
        } else {
            None
        }
    }

    /// The character before the current position.
    fn peek_before(&self) -> (c: Option<char>)
        requires
            self.pos <= self.input.len(),
        ensures
            c == (if self.pos > 0 { Some(self.input@[self.pos - 1]) } else { None::<char> }),
    {
        if self.pos > 0 {
            Some(self.input[self.pos - 1])
        } else {
            None
        }
    }

    /// Returns `true` if the input at the current position starts with the
    /// characters.
    fn starts_with(&self, s: &[char]) -> (r: bool)
        requires
            self.pos <= self.input.len(),
        ensures
            r == (self.pos + s@.len() <= self.input.len() && self.input@.subrange(
                self.pos as int,
                self.pos + s@.len(),
            ) == s@),
    {
        if s.len() > self.input.len() - self.pos {
            return false;
        }
        let mut i: usize = 0;
        while i < s.len()
            invariant
                i <= s.len(),
                self.pos + s@.len() <= self.input.len(),
                forall|j: int| 0 <= j < i ==> self.input@[self.pos + j] == s@[j],
            decreases s.len() - i,
        {
            if self.input[self.pos + i] != s[i] {
                assert(self.input@.subrange(self.pos as int, self.pos + s@.len())[i as int] != s@[i as int]);
                return false;
            }
            i = i + 1;
        }
        assert(self.input@.subrange(self.pos as int, self.pos + s@.len()) =~= s@);
        true
    }

    /// Advances over one character that is not a line break.
    fn skip(&mut self)
        requires
            old(self).wf(),
        ensures
            final(self).wf(),
            final(self).same_structure(old(self)),
            old(self).pos < old(self).input.len() ==> final(self).pos == old(self).pos + 1
                && final(self).mark.column == old(self).mark.column + 1
                && final(self).mark.line == old(self).mark.line,
            old(self).pos >= old(self).input.len() ==> final(self).pos == old(self).pos
                && final(self).mark == old(self).mark,
    {
        let c = match self.peek() {
            Some(c) => c,
            None => return ,
        };
        let n = char_len_utf8(c);
        self.pos = self.pos + 1;
        self.mark.offset = self.mark.offset + n;
        self.mark.column = self.mark.column + 1;
        if c == ' ' {
            if !self.line_has_content && !self.ws_has_tab {
                self.line_indent = self.line_indent + 1;
            }
        } else if c == '\t' {
            self.ws_has_tab = true;
        } else {
            self.line_has_content = true;
            self.ws_has_tab = false;
        }
    }

    /// Advances over `n` characters that are not line breaks.
    fn skip_n(&mut self, n: usize)
        requires
            old(self).wf(),
        ensures
            final(self).wf(),
            final(self).same_structure(old(self)),
            final(self).pos >= old(self).pos,
            final(self).mark.line == old(self).mark.line,
            final(self).mark.column >= old(self).mark.column,
            old(self).pos + n <= old(self).input.len() ==> final(self).pos == old(self).pos + n,
    {
        let mut i: usize = 0;
        while i < n
            invariant
                self.wf(),
                self.same_structure(old(self)),
                self.pos >= old(self).pos,
                self.mark.line == old(self).mark.line,
                self.mark.column >= old(self).mark.column,
                i <= n,
                old(self).pos + n <= old(self).input.len() ==> self.pos == old(self).pos + i,
            decreases n - i,
        {
            self.skip();
            i = i + 1;
        }
    }

    /// Advances over a line break (`\r\n`, `\r` or `\n`).
    fn skip_break(&mut self)
        requires
            old(self).wf(),
            spec_is_break(old(self).spec_peek()),
        ensures
            final(self).wf(),
            final(self).same_structure(old(self)),
            final(self).pos == old(self).pos + 1 || final(self).pos == old(self).pos + 2,
            final(self).pos == old(self).pos + 2 ==> old(self).input@[old(self).pos + 1] == '\n',
            (final(self).pos == old(self).pos + 2) == (old(self).pos + 1 < old(self).input@.len()
                && old(self).input@[old(self).pos as int] == '\r' && old(self).input@[old(self).pos + 1] == '\n'),
            final(self).mark.line == old(self).mark.line + 1,
            final(self).mark.column == 0,
            !final(self).line_has_content,
    {
        let crlf = self.pos + 1 < self.input.len() && self.input[self.pos] == '\r' && self.input[
            self.pos + 1] == '\n';
        if crlf {
            self.pos = self.pos + 2;
            self.mark.offset = self.mark.offset + 2;
        } else {
            self.pos = self.pos + 1;
            self.mark.offset = self.mark.offset + 1;
        }
        self.mark.line = self.mark.line + 1;
        self.mark.column = 0;
        self.line_has_content = false;
        self.line_indent = 0;
        self.ws_has_tab = false;
    }

    /// Advances over a character and pushes it to the string.
    fn read(&mut self, s: &mut Vec<char>)
        requires
            old(self).wf(),
        ensures
            final(self).wf(),
            final(self).same_structure(old(self)),
            old(self).pos < old(self).input.len() ==> final(self).pos == old(self).pos + 1
                && final(s)@ == old(s)@.push(old(self).input@[old(self).pos as int])
                && final(self).mark.line == old(self).mark.line
                && final(self).mark.column == old(self).mark.column + 1,
            old(self).pos >= old(self).input.len() ==> final(self).pos == old(self).pos
                && final(s)@ == old(s)@,
    {
        if let Some(c) = self.peek() {
            s.push(c);
            self.skip();
        }
    }

    /// Advances over a line break and pushes a normalized `\n`.
    fn read_break(&mut self, s: &mut Vec<char>)
        requires
            old(self).wf(),
            spec_is_break(old(self).spec_peek()),
        ensures
            final(self).wf(),
            final(self).same_structure(old(self)),
            final(self).pos > old(self).pos,
            final(self).mark.column == 0,
            final(self).mark.line == old(self).mark.line + 1,
            final(s)@ == old(s)@.push('\n'),
            final(self).pos == old(self).pos + 1 || final(self).pos == old(self).pos + 2,
            (final(self).pos == old(self).pos + 2) == (old(self).pos + 1 < old(self).input@.len()
                && old(self).input@[old(self).pos as int] == '\r' && old(self).input@[old(self).pos + 1] == '\n'),
    {
        self.skip_break();
        s.push('\n');
    }

    spec fn spec_is_document_indicator(&self) -> bool {
        &&& self.mark.column == 0
        &&& self.pos + 3 <= self.input.len()
        &&& (self.input@.subrange(self.pos as int, self.pos + 3) == seq!['-', '-', '-']
            || self.input@.subrange(self.pos as int, self.pos + 3) == seq!['.', '.', '.'])
        &&& spec_is_blankz(self.spec_peek_at(3))
    }

    fn is_document_indicator(&self) -> (r: bool)
        requires
            self.pos <= self.input.len(),
            self.input.len() <= MAX_INPUT_CHARS,
        ensures
            r == self.spec_is_document_indicator(),
    {
        if self.mark.column != 0 {
            return false;
        }
        let dashes = ['-', '-', '-'];
        let dots = ['.', '.', '.'];
        let marker = self.starts_with(&dashes) || self.starts_with(&dots);
        assert(dashes@ == seq!['-', '-', '-']);
        assert(dots@ == seq!['.', '.', '.']);
        marker && is_blankz(self.peek_at(3))
    }

    fn error<T>(&self, msg: &str) -> (r: Result<T, Error>)
        requires
            self.wf(),
        ensures
            r matches Err(e) && e.kind == ErrorKind::Unexpected && e.message@ == syntax_message(msg@)
                && e.position == Some(
                (self.mark.offset, (self.mark.line + 1) as usize, (self.mark.column + 1) as usize),
            ),
    {
        Err(syntax_error(self.mark, msg))
    }

    /// Decreases with every token that is fetched.
    spec fn progress_measure(&self) -> int {
        (if self.stream_end_produced { 0int } else { 4 * MAX_INPUT_CHARS + 4 }) + (if self.stream_start_produced {
            0int
        } else {
            2 * MAX_INPUT_CHARS + 2
        }) + (self.input.len() - self.pos)
    }

    /// The input and the progress of the stream are kept, the position only
    /// moves forward.
    spec fn keeps(&self, old: &Scanner) -> bool {
        &&& self.input == old.input
        &&& self.pos >= old.pos
        &&& self.stream_start_produced == old.stream_start_produced
        &&& self.stream_end_produced == old.stream_end_produced
    }

    // -- public interface -------------------------------------------------

    /// Returns the type of the next token.
    pub fn peek_type(&mut self) -> (r: Result<TokenType, Error>)
        requires
            old(self).wf(),
        ensures
            final(self).wf(),
            final(self).input() == old(self).input(),
            r is Ok ==> final(self).token_settled(),
            old(self).token_settled() ==> r is Ok && *final(self) == *old(self),
            r matches Ok(t) ==> final(self).queued().len() > 0 && t == final(self).queued()[0].kind.spec_ty(),
            old(self).is_fresh() ==> (r matches Ok(t) && t == TokenType::StreamStart) && starts_at_origin(final(self).queued()[0]) && final(self).at_top_level()
                && final(self).ready_for_node() && final(self).queued().len() == 1 && final(self).position() == old(self).position(),
            old(self).at_top_level() && old(self).queued().len() == 0 && quiet_from(
                old(self).input(),
                old(self).position() as int,
            ) ==> (r matches Ok(t) && t == TokenType::StreamEnd) && final(self).at_stream_end()
                && final(self).queued().len() == 1,
            (old(self).at_top_level() || old(self).at_stream_end()) && old(self).queued().len() > 0 ==> r is Ok
                && *final(self) == *old(self),
            old(self).has_token_ready() ==> r is Ok && *final(self) == *old(self),
            old(self).plain_ahead() ==> (r matches Ok(t) && t == TokenType::Scalar) && final(self).plain_scalar_queued(
                plain_text(old(self).input(), old(self).position() as int),
            ),
    {
        self.fetch_more_tokens()?;
        Ok(self.tokens[0].kind.ty())
    }

    /// Returns the next token.
    pub fn peek_token(&mut self) -> (r: Result<&Token, Error>)
        requires
            old(self).wf(),
        ensures
            final(self).wf(),
            final(self).input() == old(self).input(),
            r is Ok ==> final(self).token_settled(),
            old(self).token_settled() ==> r is Ok && *final(self) == *old(self),
            r matches Ok(t) ==> final(self).queued().len() > 0 && *t == final(self).queued()[0],
            (old(self).at_top_level() || old(self).at_stream_end()) && old(self).queued().len() > 0 ==> r is Ok
                && *final(self) == *old(self),
            old(self).has_token_ready() ==> r is Ok && *final(self) == *old(self),
            old(self).is_fresh() ==> r is Ok && final(self).ready_for_node() && final(self).queued().len() == 1
                && final(self).queued()[0].kind is StreamStart && starts_at_origin(final(self).queued()[0]) && final(self).position() == old(self).position(),
            old(self).at_top_level() && old(self).queued().len() == 0 && quiet_from(
                old(self).input(),
                old(self).position() as int,
            ) ==> r is Ok && final(self).at_stream_end() && final(self).queued().len() == 1
                && final(self).queued()[0].kind is StreamEnd,
            old(self).plain_ahead() ==> r is Ok && final(self).plain_scalar_queued(
                plain_text(old(self).input(), old(self).position() as int),
            ),
    {
        self.fetch_more_tokens()?;
        Ok(&self.tokens[0])
    }

    /// Returns the start of the next token.
    pub fn peek_mark(&mut self) -> (r: Result<Mark, Error>)
        requires
            old(self).wf(),
        ensures
            final(self).wf(),
            final(self).input() == old(self).input(),
            r is Ok ==> final(self).token_settled(),
            old(self).token_settled() ==> r is Ok && *final(self) == *old(self),
            r matches Ok(m) ==> final(self).queued().len() > 0 && m == final(self).queued()[0].start && mark_ok(m),
            (old(self).at_top_level() || old(self).at_stream_end()) && old(self).queued().len() > 0 ==> r is Ok
                && *final(self) == *old(self),
            old(self).has_token_ready() ==> r is Ok && *final(self) == *old(self),
            old(self).at_top_level() && old(self).queued().len() == 0 && quiet_from(
                old(self).input(),
                old(self).position() as int,
            ) ==> r is Ok && final(self).at_stream_end() && final(self).queued().len() == 1
                && final(self).queued()[0].kind is StreamEnd,
            old(self).plain_ahead() ==> r is Ok && final(self).plain_scalar_queued(
                plain_text(old(self).input(), old(self).position() as int),
            ),
    {
        self.fetch_more_tokens()?;
        Ok(self.tokens[0].start)
    }

    /// Removes the next token.  Must only be called after peeking.
    pub fn next_token(&mut self) -> (t: Token)
        requires
            old(self).wf(),
            old(self).queued().len() > 0,
        ensures
            final(self).wf(),
            final(self).input() == old(self).input(),
            t == old(self).queued()[0],
            token_ok(t),
            final(self).queued() == old(self).queued().drop_first(),
            final(self).position() == old(self).position(),
            final(self).at_stream_end() == old(self).at_stream_end(),
            old(self).at_top_level() ==> final(self).at_top_level(),
            old(self).ready_for_node() ==> final(self).ready_for_node(),
            old(self).ready_for_node() && old(self).queued().len() == 1 && plain_document_at(
                old(self).input(),
                old(self).position() as int,
            ) ==> final(self).plain_ahead(),
    {
        let token = self.tokens.pop_front().unwrap();
        self.tokens_parsed = self.tokens_parsed.saturating_add(1);
        assert forall|i: int| 0 <= i < self.tokens@.len() implies token_ok(#[trigger] self.tokens@[i]) by {
            assert(self.tokens@[i] == old(self).tokens@[i + 1]);
        }
        token
    }

    fn fetch_more_tokens(&mut self) -> (r: Result<(), Error>)
        requires
            old(self).wf(),
        ensures
            final(self).wf(),
            final(self).input == old(self).input,
            r is Ok ==> final(self).tokens@.len() > 0,
            r is Ok ==> final(self).token_settled(),
            old(self).token_settled() ==> r is Ok && *final(self) == *old(self),
            (old(self).at_top_level() || old(self).stream_end_produced) && old(self).tokens@.len() > 0 ==> r is Ok
                && *final(self) == *old(self),
            old(self).has_token_ready() ==> r is Ok && *final(self) == *old(self),
            old(self).is_fresh() ==> r is Ok && final(self).ready_for_node() && final(self).tokens@.len() == 1
                && final(self).tokens@[0].kind is StreamStart && starts_at_origin(final(self).tokens@[0]) && final(self).pos == old(self).pos,
            old(self).at_top_level() && old(self).tokens@.len() == 0 && quiet_from(old(self).input@, old(self).pos as int)
                ==> r is Ok && final(self).stream_end_produced && final(self).tokens@.len() == 1
                && final(self).tokens@[0].kind is StreamEnd,
            old(self).plain_ahead() ==> {
                &&& r is Ok && final(self).at_top_level()
                &&& final(self).tokens@.len() == 1
                &&& final(self).tokens@[0].kind == TokenKind::Scalar(
                    ScalarStyle::Plain,
                    final(self).tokens@[0].kind->Scalar_1,
                )
                &&& final(self).tokens@[0].kind->Scalar_1@ == plain_text(old(self).input@, old(self).pos as int)
                &&& final(self).pos == final(self).input@.len()
            },
    {
        let ghost plain = old(self).plain_ahead();
        let ghost at_end = (old(self).at_top_level() || old(self).stream_end_produced || (old(self).stale_keys@.len()
            == 0 && old(self).possible_keys@.len() == 0)) && old(self).tokens@.len() > 0;
        let ghost fresh = old(self).is_fresh();
        let ghost settled = old(self).token_settled();
        let ghost blank = old(self).at_top_level() && old(self).tokens@.len() == 0 && quiet_from(
            old(self).input@,
            old(self).pos as int,
        );
        loop
            invariant
                self.wf(),
                self.input == old(self).input,
                at_end == ((old(self).at_top_level() || old(self).stream_end_produced || (old(self).stale_keys@.len()
                    == 0 && old(self).possible_keys@.len() == 0)) && old(self).tokens@.len() > 0),
                at_end ==> *self == *old(self),
                fresh == old(self).is_fresh(),
                settled == old(self).token_settled(),
                settled ==> *self == *old(self),
                plain == old(self).plain_ahead(),
                plain ==> *self == *old(self) || {
                    &&& self.key_pending()
                    &&& self.tokens@.len() == 1
                    &&& self.tokens@[0].kind == TokenKind::Scalar(ScalarStyle::Plain, self.tokens@[0].kind->Scalar_1)
                    &&& self.tokens@[0].kind->Scalar_1@ == plain_text(old(self).input@, old(self).pos as int)
                    &&& self.pos == self.input@.len()
                },
                blank == (old(self).at_top_level() && old(self).tokens@.len() == 0 && quiet_from(
                    old(self).input@,
                    old(self).pos as int,
                )),
                fresh ==> (self.is_fresh() && self.pos == old(self).pos) || (self.ready_for_node()
                    && self.tokens@.len() == 1 && self.tokens@[0].kind is StreamStart && starts_at_origin(self.tokens@[0]) && self.pos == old(self).pos),
                blank ==> (self.at_top_level() && self.tokens@.len() == 0 && quiet_from(self.input@, self.pos as int))
                    || (self.stream_end_produced && self.tokens@.len() == 1 && self.tokens@[0].kind is StreamEnd),
            decreases self.progress_measure(),
        {
            if self.stream_end_produced && self.tokens.len() > 0 {
                return Ok(());
            }
            let before_pos = self.pos;
            let before_start = self.stream_start_produced;
            let before_end = self.stream_end_produced;
            let ghost before_measure = self.progress_measure();
            let mut need_more = self.tokens.len() == 0;
            if !need_more {
                self.stale_simple_keys()?;
                let ghost pre = *self;
                // the first possible key has the lowest token number
                while self.possible_keys.len() > 0
                    invariant
                        self.wf(),
                        self.input == old(self).input,
                        self.tokens == pre.tokens,
                        self.stale_keys == pre.stale_keys,
                        self.flows == pre.flows,
                        self.indent == pre.indent,
                        self.simple_keys == pre.simple_keys,
                        self.possible_keys@.len() <= pre.possible_keys@.len(),
                        pre.possible_keys@.len() == 0 ==> *self == pre,
                        pre.possible_head_live() ==> *self == pre,
                        self.mark == pre.mark,
                        self.tokens_parsed == pre.tokens_parsed,
                        self.tokens@.len() > 0,
                        self.pos == before_pos,
                        self.stream_start_produced == before_start,
                        self.stream_end_produced == before_end,
                    ensures
                        (forall|i: int| 0 <= i < self.simple_keys@.len() ==> !(#[trigger] self.simple_keys@[i]).possible)
                            ==> self.possible_keys@.len() == 0,
                        self.possible_head_live(),
                    decreases self.possible_keys.len(),
                {
                    let (level, number) = self.possible_keys[0];
                    if self.is_possible_key(level, number) {
                        break;
                    }
                    let _ = self.possible_keys.pop_front();
                }
                need_more = self.possible_keys.len() > 0 && self.possible_keys[0].1 == self.tokens_parsed;
            }
            if !need_more {
                return Ok(());
            }
            if self.stream_end_produced {
                return self.error("unexpected end of stream");
            }
            self.fetch_next_token()?;
            if self.pos == before_pos && self.stream_start_produced == before_start
                && self.stream_end_produced == before_end {
                return self.error("no token found");
            }
            assert(!before_end);
            assert(before_start ==> self.stream_start_produced);
            assert(self.pos >= before_pos);
            assert(self.pos <= self.input.len());
            assert(self.progress_measure() < before_measure);
        }
    }

    fn fetch_next_token(&mut self) -> (r: Result<(), Error>)
        requires
            old(self).wf(),
            !old(self).stream_end_produced,
        ensures
            final(self).wf(),
            final(self).input == old(self).input,
            final(self).pos >= old(self).pos,
            old(self).stream_start_produced ==> final(self).stream_start_produced,
            old(self).is_fresh() ==> r is Ok && final(self).ready_for_node() && final(self).tokens@.len() == 1
                && final(self).tokens@[0].kind is StreamStart && starts_at_origin(final(self).tokens@[0]) && final(self).pos == old(self).pos,
            old(self).at_top_level() && quiet_from(old(self).input@, old(self).pos as int) ==> r is Ok
                && final(self).stream_end_produced && final(self).tokens@.len() == old(self).tokens@.len() + 1
                && final(self).tokens@.drop_last() == old(self).tokens@ && final(self).tokens@.last().kind is StreamEnd,
            old(self).plain_ahead() ==> {
                &&& r is Ok && final(self).key_pending()
                &&& final(self).tokens@.len() == 1
                &&& final(self).tokens@[0].kind == TokenKind::Scalar(
                    ScalarStyle::Plain,
                    final(self).tokens@[0].kind->Scalar_1,
                )
                &&& final(self).tokens@[0].kind->Scalar_1@ == plain_text(old(self).input@, old(self).pos as int)
                &&& final(self).pos == final(self).input@.len()
            },
    {
        if !self.stream_start_produced {
            return self.fetch_stream_start();
        }
        self.scan_to_next_token()?;
        self.stale_simple_keys()?;
        self.unroll_indent(self.mark.column as isize);
        let adjacent_value_allowed = self.adjacent_value_allowed;
        self.adjacent_value_allowed = false;

        let c = match self.peek() {
            Some(c) => c,
            None => return self.fetch_stream_end(),
        };

        // the first token of a line must be indented more than the block
        // it belongs to.  Tabs are never indentation.
        if !self.line_has_content && (self.flow_level() > 0 || self.ws_has_tab) && self.line_indent
            as isize <= self.indent {
            return self.error("invalid indentation");
        }

        if self.mark.column == 0 {
            if c == '%' {
                return self.fetch_directive();
            }
            if self.is_document_indicator() {
                return self.fetch_document_indicator(c != '-');
            }
        }

        let next = self.peek_at(1);
        let in_flow = self.flow_level() > 0;
        if c == '[' {
            self.fetch_flow_collection_start(true)
        } else if c == '{' {
            self.fetch_flow_collection_start(false)
        } else if c == ']' {
            self.fetch_flow_collection_end(true)
        } else if c == '}' {
            self.fetch_flow_collection_end(false)
        } else if c == ',' {
            self.fetch_flow_entry()
        } else if c == '-' && is_blankz(next) {
            self.fetch_block_entry()
        } else if c == '?' && is_blankz(next) {
            self.fetch_key()
        } else if c == ':' && (is_blankz(next) || (in_flow && (is_flow_indicator(next)
            || adjacent_value_allowed))) {
            self.fetch_value()
        } else if c == '*' {
            self.fetch_anchor(true)
        } else if c == '&' {
            self.fetch_anchor(false)
        } else if c == '!' {
            self.fetch_tag()
        } else if (c == '|' || c == '>') && !in_flow {
            self.fetch_block_scalar(c == '>')
        } else if c == '\'' {
            self.fetch_flow_scalar(true)
        } else if c == '"' {
            self.fetch_flow_scalar(false)
        } else if (c == '-' || c == '?' || c == ':') && !is_blankz(next) && !(in_flow
            && is_flow_indicator(next)) {
            self.fetch_plain_scalar()
        } else if c == '-' || c == '?' || c == ':' || c == '#' || c == '|' || c == '>' || c == '%'
            || c == '@' || c == '`' {
            let mut msg = String::from_str("found character '");
            crate::text::string_push(&mut msg, c);
            msg.append("' that cannot start any token");
            self.error(msg.as_str())
        } else {
            self.fetch_plain_scalar()
        }
    }

    // -- helpers ----------------------------------------------------------

    fn flow_level(&self) -> (n: usize)
        ensures
            n == self.flows.len(),
    {
        self.flows.len()
    }

    fn push_token(&mut self, kind: TokenKind, start: Mark)
        requires
            old(self).wf(),
            mark_ok(start),
        ensures
            final(self).wf(),
            final(self).same_structure_but_tokens(old(self)),
            final(self).pos == old(self).pos,
            final(self).mark == old(self).mark,
            final(self).tokens@ == old(self).tokens@.push(Token { kind, start, end: old(self).mark }),
            final(self).ws_has_tab == old(self).ws_has_tab,
    {
        self.tokens.push_back(Token { kind, start, end: self.mark });
    }

    spec fn same_structure_but_tokens(&self, other: &Scanner) -> bool {
        &&& self.input == other.input
        &&& self.tokens_parsed == other.tokens_parsed
        &&& self.stream_start_produced == other.stream_start_produced
        &&& self.stream_end_produced == other.stream_end_produced
        &&& self.indent == other.indent
        &&& self.indents == other.indents
        &&& self.flows == other.flows
        &&& self.simple_key_allowed == other.simple_key_allowed
        &&& self.simple_keys == other.simple_keys
        &&& self.possible_keys == other.possible_keys
        &&& self.stale_keys == other.stale_keys
        &&& self.adjacent_value_allowed == other.adjacent_value_allowed
    }

    /// The tokens, the open blocks, flows and keys are equal.
    spec fn same_levels(&self, other: &Scanner) -> bool {
        &&& self.tokens == other.tokens
        &&& self.stale_keys == other.stale_keys
        &&& self.possible_keys == other.possible_keys
        &&& self.flows == other.flows
        &&& self.indent == other.indent
        &&& self.simple_keys == other.simple_keys
    }

    /// Skips whitespace, comments and line breaks.
    fn scan_to_next_token(&mut self) -> (r: Result<(), Error>)
        requires
            old(self).wf(),
        ensures
            final(self).wf(),
            final(self).keeps(old(self)),
            final(self).same_levels(old(self)),
            quiet_from(old(self).input@, old(self).pos as int) ==> r is Ok && final(self).pos == final(self).input.len(),
            old(self).pos < old(self).input@.len() && !spec_is_blank_or_break(Some(old(self).input@[old(self).pos as int]))
                && old(self).input@[old(self).pos as int] != '#' && !(old(self).pos == 0 && old(self).input@[0]
                == '\u{feff}') ==> r is Ok && *final(self) == *old(self),
    {
        let ghost at_token = old(self).pos < old(self).input@.len() && !spec_is_blank_or_break(
            Some(old(self).input@[old(self).pos as int]),
        ) && old(self).input@[old(self).pos as int] != '#' && !(old(self).pos == 0 && old(self).input@[0]
            == '\u{feff}');
        loop
            invariant
                self.wf(),
                self.keeps(old(self)),
                self.same_levels(old(self)),
                quiet_from(old(self).input@, old(self).pos as int) ==> quiet_from(self.input@, self.pos as int),
                at_token == (old(self).pos < old(self).input@.len() && !spec_is_blank_or_break(
                    Some(old(self).input@[old(self).pos as int]),
                ) && old(self).input@[old(self).pos as int] != '#' && !(old(self).pos == 0 && old(self).input@[0]
                    == '\u{feff}')),
                at_token ==> *self == *old(self),
            decreases self.input.len() - self.pos,
        {
            let iteration_start = self.pos;
            if self.pos == 0 && self.peek() == Some('\u{feff}') {
                self.pos = 1;
                self.mark.offset = 3;
            }
            let ghost quiet = quiet_from(old(self).input@, old(self).pos as int);
            while is_blank(self.peek())
                invariant
                    self.wf(),
                    self.keeps(old(self)),
                    self.same_levels(old(self)),
                    quiet_from(old(self).input@, old(self).pos as int) ==> quiet_from(self.input@, self.pos as int),
                    self.pos >= iteration_start,
                    self.pos == 0 && self.input@.len() > 0 ==> self.input@[0] != '\u{feff}',
                    at_token == (old(self).pos < old(self).input@.len() && !spec_is_blank_or_break(
                        Some(old(self).input@[old(self).pos as int]),
                    ) && old(self).input@[old(self).pos as int] != '#' && !(old(self).pos == 0
                        && old(self).input@[0] == '\u{feff}')),
                    at_token ==> *self == *old(self),
                decreases self.input.len() - self.pos,
            {
                self.skip();
            }
            if self.peek() == Some('#') {
                // a comment must be separated from the preceding token
                let prev = self.peek_before();
                let ghost hash = self.pos as int;
                proof {
                    if quiet {
                        lemma_comment_end(self.input@, hash + 1);
                    }
                }
                if !(prev.is_none() || prev == Some(' ') || prev == Some('\t') || prev == Some('\n')
                    || prev == Some('\r') || prev == Some('\u{feff}')) {
                    return self.error("comments must be separated by whitespace");
                }
                while !is_break(self.peek()) && self.peek().is_some()
                    invariant
                        self.wf(),
                        self.keeps(old(self)),
                        self.same_levels(old(self)),
                        self.pos >= iteration_start,
                        quiet ==> hash <= self.pos <= comment_end(self.input@, hash + 1) && quiet_from(
                            self.input@,
                            comment_end(self.input@, hash + 1),
                        ),
                        quiet && self.pos > hash ==> comment_end(self.input@, self.pos as int) == comment_end(
                            self.input@,
                            hash + 1,
                        ),
                        quiet && self.pos == hash ==> self.input@[hash] == '#',
                    decreases self.input.len() - self.pos,
                {
                    proof {
                        if quiet {
                            lemma_comment_end(self.input@, hash + 1);
                            lemma_comment_end(self.input@, self.pos as int);
                        }
                    }
                    self.skip();
                }
            }
            if is_break(self.peek()) {
                let ghost at = self.pos as int;
                self.skip_break();
                proof {
                    if quiet && self.pos == at + 2 {
                        assert(quiet_from(self.input@, at + 1));
                    }
                }
                if self.flow_level() == 0 {
                    self.simple_key_allowed = true;
                }
            } else {
                return Ok(());
            }
        }
    }

    fn is_possible_key(&self, level: usize, token_number: usize) -> (r: bool)
        ensures
            r == (level < self.simple_keys.len() && self.simple_keys[level as int].possible
                && self.simple_keys[level as int].token_number == token_number),
    {
        level < self.simple_keys.len() && self.simple_keys[level].possible
            && self.simple_keys[level].token_number == token_number
    }

    /// Keys in flow mappings may span lines, all other keys (implicit keys)
    /// are restricted to one line of 1024 characters.  This marks the keys
    /// that can no longer be completed as impossible.
    fn stale_simple_keys(&mut self) -> (r: Result<(), Error>)
        requires
            old(self).wf(),
        ensures
            final(self).wf(),
            final(self).keeps(old(self)),
            final(self).pos == old(self).pos,
            final(self).tokens == old(self).tokens,
            old(self).stale_keys@.len() == 0 ==> r is Ok && *final(self) == *old(self),
            old(self).key_pending() ==> r is Ok && final(self).key_dropped() && final(self).possible_keys
                == old(self).possible_keys,
            old(self).stale_head_live() ==> r is Ok && *final(self) == *old(self),
            r is Ok ==> final(self).stale_head_live(),
    {
        let ghost pending = old(self).key_pending();
        while self.stale_keys.len() > 0
            invariant
                self.wf(),
                self.keeps(old(self)),
                self.pos == old(self).pos,
                self.tokens == old(self).tokens,
                old(self).stale_keys@.len() == 0 ==> *self == *old(self),
                old(self).stale_head_live() ==> *self == *old(self),
                pending == old(self).key_pending(),
                pending ==> *self == *old(self) || (self.key_dropped() && self.possible_keys
                    == old(self).possible_keys),
            ensures
                self.wf(),
                self.keeps(old(self)),
                self.pos == old(self).pos,
                self.tokens == old(self).tokens,
                old(self).stale_keys@.len() == 0 ==> *self == *old(self),
                pending ==> self.key_dropped() && self.possible_keys == old(self).possible_keys,
                old(self).stale_head_live() ==> *self == *old(self),
                self.stale_head_live(),
            decreases self.stale_keys.len(),
        {
            let (level, number) = self.stale_keys[0];
            if self.is_possible_key(level, number) {
                let key = self.simple_keys[level];
                if key.mark.line == self.mark.line && key.mark.offset + MAX_SIMPLE_KEY_LENGTH
                    >= self.mark.offset {
                    break;
                }
                if key.required {
                    return Err(syntax_error(key.mark, "could not find expected ':'"));
                }
                let mut changed = key;
                changed.possible = false;
                self.simple_keys.set(level, changed);
            }
            let _ = self.stale_keys.pop_front();
        }
        Ok(())
    }

    fn save_simple_key(&mut self) -> (r: Result<(), Error>)
        requires
            old(self).wf(),
            old(self).stream_start_produced,
        ensures
            final(self).wf(),
            final(self).keeps(old(self)),
            final(self).pos == old(self).pos,
            final(self).tokens == old(self).tokens,
            final(self).mark == old(self).mark,
            final(self).flows == old(self).flows,
            final(self).indent == old(self).indent,
            final(self).simple_key_allowed == old(self).simple_key_allowed,
            final(self).simple_keys@.len() == old(self).simple_keys@.len(),
            r is Ok <==> !(old(self).simple_key_allowed && old(self).simple_keys@.last().possible
                && old(self).simple_keys@.last().required),
            r is Ok && old(self).simple_key_allowed ==> final(self).simple_keys@.last().possible
                && final(self).simple_keys@.last().mark == old(self).mark,
            !old(self).simple_key_allowed ==> *final(self) == *old(self),
            old(self).ready_for_node() ==> {
                &&& r is Ok
                &&& final(self).flows == old(self).flows && final(self).indent == old(self).indent
                &&& final(self).ws_has_tab == old(self).ws_has_tab
                &&& final(self).simple_keys@.len() == 1 && final(self).simple_keys@[0].possible
                &&& !final(self).simple_keys@[0].required && final(self).simple_keys@[0].mark == old(self).mark
                &&& final(self).stale_keys@ == seq![(0usize, final(self).simple_keys@[0].token_number)]
                &&& final(self).possible_keys@ == final(self).stale_keys@
            },
    {
        if self.simple_key_allowed {
            let key = SimpleKey {
                possible: true,
                required: self.flow_level() == 0 && self.indent == self.mark.column as isize,
                token_number: self.tokens_parsed.saturating_add(self.tokens.len()),
                mark: self.mark,
                tab_before: self.ws_has_tab,
            };
            self.remove_simple_key()?;
            let level = self.simple_keys.len() - 1;
            self.simple_keys.set(level, key);
            let entry = (level, key.token_number);
            push_key(&mut self.possible_keys, entry);
            if level == 0 || self.flows[level - 1] != FlowKind::Mapping {
                push_key(&mut self.stale_keys, entry);
            }
        }
        Ok(())
    }

    fn remove_simple_key(&mut self) -> (r: Result<(), Error>)
        requires
            old(self).wf(),
            old(self).stream_start_produced,
        ensures
            final(self).wf(),
            final(self).keeps(old(self)),
            final(self).pos == old(self).pos,
            final(self).mark == old(self).mark,
            final(self).tokens == old(self).tokens,
            final(self).simple_keys.len() == old(self).simple_keys.len(),
            final(self).flows == old(self).flows,
            final(self).indent == old(self).indent,
            final(self).simple_key_allowed == old(self).simple_key_allowed,
            final(self).stale_keys == old(self).stale_keys,
            final(self).possible_keys == old(self).possible_keys,
            final(self).ws_has_tab == old(self).ws_has_tab,
            old(self).at_top_level() ==> r is Ok && final(self).at_top_level(),
            r is Ok <==> !(old(self).simple_keys@.last().possible && old(self).simple_keys@.last().required),
            r is Ok ==> final(self).simple_keys@ == old(self).simple_keys@.update(
                old(self).simple_keys@.len() - 1,
                SimpleKey { possible: false, ..old(self).simple_keys@.last() },
            ),
            r is Err ==> final(self).simple_keys == old(self).simple_keys,
    {
        let last = self.simple_keys.len() - 1;
        let key = self.simple_keys[last];
        if key.possible && key.required {
            return Err(syntax_error(key.mark, "could not find expected ':'"));
        }
        let mut changed = key;
        changed.possible = false;
        self.simple_keys.set(last, changed);
        Ok(())
    }

    /// Inserts a token at the position of the given token number.
    fn insert_token(&mut self, number: usize, token: Token)
        requires
            old(self).wf(),
            token_ok(token),
        ensures
            final(self).wf(),
            final(self).same_structure_but_tokens(old(self)),
            final(self).pos == old(self).pos,
            final(self).mark == old(self).mark,
            final(self).tokens@ == tokens_with(old(self).tokens@, old(self).tokens_parsed as int, number as int, token),
            final(self).ws_has_tab == old(self).ws_has_tab,
    {
        if number >= self.tokens_parsed && number - self.tokens_parsed <= self.tokens.len() {
            let index = number - self.tokens_parsed;
            self.tokens.insert(index, token);
            assert forall|i: int| 0 <= i < self.tokens@.len() implies token_ok(#[trigger] self.tokens@[i]) by {
                if i < index {
                    assert(self.tokens@[i] == old(self).tokens@[i]);
                } else if i > index {
                    assert(self.tokens@[i] == old(self).tokens@[i - 1]);
                }
            }
        } else {
            self.tokens.push_back(token);
        }
    }

    /// Opens a block collection if the column is indented more.
    fn roll_indent(&mut self, column: isize, token_number: Option<usize>, kind: TokenKind, mark: Mark)
        requires
            old(self).wf(),
            old(self).stream_start_produced,
            mark_ok(mark),
            0 <= column <= MAX_INPUT_CHARS,
        ensures
            final(self).wf(),
            final(self).keeps(old(self)),
            final(self).pos == old(self).pos,
            final(self).mark == old(self).mark,
            final(self).simple_keys == old(self).simple_keys,
            final(self).flows == old(self).flows,
            final(self).simple_key_allowed == old(self).simple_key_allowed,
            final(self).stale_keys == old(self).stale_keys,
            final(self).possible_keys == old(self).possible_keys,
            final(self).ws_has_tab == old(self).ws_has_tab,
            old(self).flows@.len() > 0 || old(self).indent >= column ==> *final(self) == *old(self),
            !(old(self).flows@.len() > 0 || old(self).indent >= column) ==> {
                let token = Token { kind, start: mark, end: mark };
                &&& final(self).indent == column
                &&& final(self).indents@ == old(self).indents@.push(old(self).indent)
                &&& final(self).tokens@ == match token_number {
                    Some(n) => tokens_with(old(self).tokens@, old(self).tokens_parsed as int, n as int, token),
                    None => old(self).tokens@.push(token),
                }
            },
    {
        if self.flow_level() > 0 || self.indent >= column {
            return ;
        }
        let ghost old_indents = self.indents@;
        self.indents.push(self.indent);
        self.indent = column;
        proof {
            assert forall|i: int| 0 < i < self.indents.len() implies 0 <= #[trigger] self.indents[i]
                <= MAX_INPUT_CHARS by {
                if i < old_indents.len() {
                    assert(self.indents[i] == old_indents[i]);
                }
            }
            if old_indents.len() > 0 {
                assert(self.indents[0] == old_indents[0]);
            }
        }
        let token = Token { kind, start: mark, end: mark };
        match token_number {
            Some(number) => self.insert_token(number, token),
            None => self.tokens.push_back(token),
        }
    }

    /// Closes all block collections that are indented more than the column.
    fn unroll_indent(&mut self, column: isize)
        requires
            old(self).wf(),
            column >= -1,
        ensures
            final(self).wf(),
            final(self).keeps(old(self)),
            final(self).pos == old(self).pos,
            final(self).mark == old(self).mark,
            final(self).simple_keys == old(self).simple_keys,
            final(self).flows == old(self).flows,
            final(self).simple_key_allowed == old(self).simple_key_allowed,
            old(self).indent <= column ==> *final(self) == *old(self),
            old(self).flows@.len() > 0 ==> *final(self) == *old(self),
            old(self).flows@.len() == 0 ==> final(self).indent <= column,
            old(self).flows@.len() == 0 ==> final(self).tokens@ == old(self).tokens@ + block_ends(
                (old(self).indents@.len() - final(self).indents@.len()) as nat,
                old(self).mark,
            ),
            final(self).indents@ == old(self).indents@.take(final(self).indents@.len() as int),
            final(self).stale_keys == old(self).stale_keys,
            final(self).possible_keys == old(self).possible_keys,
    {
        if self.flow_level() > 0 {
            return ;
        }
        while self.indent > column
            invariant
                self.wf(),
                self.keeps(old(self)),
                self.pos == old(self).pos,
                self.mark == old(self).mark,
                self.simple_keys == old(self).simple_keys,
                self.flows == old(self).flows,
                self.simple_key_allowed == old(self).simple_key_allowed,
                column >= -1,
                old(self).indent <= column ==> *self == *old(self),
                old(self).flows@.len() == 0,
                self.tokens@ == old(self).tokens@ + block_ends(
                    (old(self).indents@.len() - self.indents@.len()) as nat,
                    old(self).mark,
                ),
                self.indents@ == old(self).indents@.take(self.indents@.len() as int),
                self.indents@.len() <= old(self).indents@.len(),
                self.stale_keys == old(self).stale_keys,
                self.possible_keys == old(self).possible_keys,
            decreases self.indents.len(),
        {
            let ghost pre_tokens = self.tokens@;
            let ghost pre_indents = self.indents@;
            assert(self.indents@.len() > 0);
            self.push_token(TokenKind::BlockEnd, self.mark);
            match self.indents.pop() {
                Some(i) => self.indent = i,
                None => {},
            }
            proof {
                assert(self.indents@ == pre_indents.drop_last());
                assert(self.tokens@ == pre_tokens.push(
                    Token { kind: TokenKind::BlockEnd, start: old(self).mark, end: old(self).mark },
                ));
                assert(self.indents@ =~= old(self).indents@.take(self.indents@.len() as int));
                assert(self.tokens@ =~= old(self).tokens@ + block_ends(
                    (old(self).indents@.len() - self.indents@.len()) as nat,
                    old(self).mark,
                ));
            }
        }
    }
}


impl Scanner {
    // -- fetchers ---------------------------------------------------------

    fn fetch_stream_start(&mut self) -> (r: Result<(), Error>)
        requires
            old(self).wf(),
            !old(self).stream_start_produced,
        ensures
            final(self).wf(),
            final(self).input == old(self).input,
            final(self).pos == old(self).pos,
            final(self).stream_start_produced,
            r is Ok,
            old(self).is_fresh() ==> final(self).ready_for_node() && final(self).tokens@.len() == 1
                && final(self).tokens@[0].kind is StreamStart && starts_at_origin(final(self).tokens@[0]),
    {
        self.indent = -1;
        self.simple_key_allowed = true;
        self.simple_keys.push(no_simple_key());
        self.stream_start_produced = true;
        self.push_token(TokenKind::StreamStart, self.mark);
        Ok(())
    }

    fn fetch_stream_end(&mut self) -> (r: Result<(), Error>)
        requires
            old(self).wf(),
            old(self).stream_start_produced,
        ensures
            final(self).wf(),
            final(self).input == old(self).input,
            final(self).pos == old(self).pos,
            final(self).stream_start_produced,
            old(self).at_top_level() ==> r is Ok && final(self).stream_end_produced
                && final(self).tokens@.len() == old(self).tokens@.len() + 1
                && final(self).tokens@.drop_last() == old(self).tokens@
                && final(self).tokens@.last().kind is StreamEnd,
    {
        self.unroll_indent(-1);
        self.remove_simple_key()?;
        self.simple_key_allowed = false;
        self.stream_end_produced = true;
        self.push_token(TokenKind::StreamEnd, self.mark);
        Ok(())
    }

    fn fetch_directive(&mut self) -> (r: Result<(), Error>)
        requires
            old(self).wf(),
            old(self).stream_start_produced,
        ensures
            final(self).wf(),
            final(self).keeps(old(self)),
            (old(self).simple_keys@.last().possible && old(self).simple_keys@.last().required) ==> r is Err,
            r is Ok ==> final(self).tokens@.len() > 0 && final(self).tokens@.drop_last() == old(self).tokens@ + block_ends(if old(self).flows@.len() == 0 { old(self).indents@.len() } else { 0 }, old(self).mark)
                && (final(self).tokens@.last().kind is VersionDirective || final(self).tokens@.last().kind is TagDirective
                || final(self).tokens@.last().kind is ReservedDirective) && !final(self).simple_key_allowed,
            !(old(self).simple_keys@.last().possible && old(self).simple_keys@.last().required) && old(self).pos
                < old(self).input.len() && is_reserved_directive_name(directive_name(old(self).input@, old(self).pos as int))
                ==> r is Ok && final(self).tokens@.last().kind is ReservedDirective,
            old(self).pos < old(self).input.len() && directive_name(old(self).input@, old(self).pos as int).len() == 0
                ==> r is Err,
    {
        self.unroll_indent(-1);
        self.remove_simple_key()?;
        self.simple_key_allowed = false;
        let token = self.scan_directive()?;
        self.tokens.push_back(token);
        Ok(())
    }

    fn fetch_document_indicator(&mut self, is_end: bool) -> (r: Result<(), Error>)
        requires
            old(self).wf(),
            old(self).stream_start_produced,
        ensures
            final(self).wf(),
            final(self).keeps(old(self)),
            old(self).pos + 3 <= old(self).input@.len() ==> (r is Ok <==> old(self).flows@.len() == 0 && !(old(self).simple_keys@.last().possible && old(self).simple_keys@.last().required)
                && (is_end ==> ({
                let b = blanks_end(old(self).input@, old(self).pos + 3);
                b >= old(self).input@.len() || spec_is_break(char_at(old(self).input@, b)) || char_at(old(self).input@, b)
                    == Some('#')
            }))),
            r is Ok ==> final(self).tokens@.len() > 0 && final(self).tokens@.drop_last() == old(self).tokens@ + block_ends(if old(self).flows@.len() == 0 { old(self).indents@.len() } else { 0 }, old(self).mark)
                && final(self).tokens@.last().kind == (if is_end {
                TokenKind::DocumentEnd
            } else {
                TokenKind::DocumentStart
            }) && final(self).tokens@.last().start == old(self).mark && !final(self).simple_key_allowed,
    {
        if self.flow_level() > 0 {
            return self.error("document markers are not allowed in flow collections");
        }
        self.unroll_indent(-1);
        self.remove_simple_key()?;
        self.simple_key_allowed = false;
        let start = self.mark;
        self.skip_n(3);
        self.push_token(if is_end { TokenKind::DocumentEnd } else { TokenKind::DocumentStart }, start);
        if is_end {
            let ghost at = old(self).pos + 3;
            proof {
                if at <= old(self).input@.len() {
                    lemma_blanks_end(self.input@, at);
                }
            }
            let ghost tokens_now = self.tokens;
            // only a comment may follow the document end marker
            while is_blank(self.peek())
                invariant
                    self.wf(),
                    self.keeps(old(self)),
                    self.tokens == tokens_now,
                    !self.simple_key_allowed,
                    at <= old(self).input@.len() ==> at <= self.pos <= blanks_end(self.input@, at) && blanks_end(
                        self.input@,
                        self.pos as int,
                    ) == blanks_end(self.input@, at),
                decreases self.input.len() - self.pos,
            {
                proof {
                    if at <= old(self).input@.len() {
                        lemma_blanks_end(self.input@, self.pos + 1);
                    }
                }
                self.skip();
            }
            if !is_break(self.peek()) && self.peek().is_some() && self.peek() != Some('#') {
                return self.error("unexpected content after document end marker");
            }
        }
        Ok(())
    }

    fn fetch_flow_collection_start(&mut self, is_seq: bool) -> (r: Result<(), Error>)
        requires
            old(self).wf(),
            old(self).stream_start_produced,
        ensures
            final(self).wf(),
            final(self).keeps(old(self)),
            r is Ok <==> !(old(self).simple_key_allowed && old(self).simple_keys@.last().possible && old(self).simple_keys@.last().required),
            r is Ok ==> final(self).tokens@.len() > 0 && final(self).tokens@.drop_last() == old(self).tokens@
                && final(self).tokens@.last().kind == (if is_seq {
                TokenKind::FlowSequenceStart
            } else {
                TokenKind::FlowMappingStart
            }) && final(self).tokens@.last().start == old(self).mark && final(self).flows@ == old(self).flows@.push(
                if is_seq {
                    FlowKind::Sequence
                } else {
                    FlowKind::Mapping
                },
            ) && final(self).simple_key_allowed,
    {
        self.save_simple_key()?;
        self.flows.push(if is_seq { FlowKind::Sequence } else { FlowKind::Mapping });
        self.simple_keys.push(no_simple_key());
        self.simple_key_allowed = true;
        let start = self.mark;
        self.skip();
        self.push_token(if is_seq { TokenKind::FlowSequenceStart } else { TokenKind::FlowMappingStart }, start);
        Ok(())
    }

    fn fetch_flow_collection_end(&mut self, is_seq: bool) -> (r: Result<(), Error>)
        requires
            old(self).wf(),
            old(self).stream_start_produced,
        ensures
            final(self).wf(),
            final(self).keeps(old(self)),
            r is Ok <==> old(self).flows@.len() > 0 && !(old(self).simple_keys@.last().possible && old(self).simple_keys@.last().required),
            r is Ok ==> final(self).tokens@.len() > 0 && final(self).tokens@.drop_last() == old(self).tokens@
                && final(self).tokens@.last().kind == (if is_seq {
                TokenKind::FlowSequenceEnd
            } else {
                TokenKind::FlowMappingEnd
            }) && final(self).tokens@.last().start == old(self).mark && final(self).flows@
                == old(self).flows@.drop_last() && !final(self).simple_key_allowed && final(self).adjacent_value_allowed,
    {
        if self.flow_level() == 0 {
            return self.error("unexpected end of flow collection");
        }
        self.remove_simple_key()?;
        let _ = self.simple_keys.pop();
        let _ = self.flows.pop();
        let level = self.simple_keys.len();
        let ghost mid = *self;
        while self.possible_keys.len() > 0 && self.possible_keys[self.possible_keys.len() - 1].0 >= level
            invariant
                self.wf(),
                self.keeps(old(self)),
                self.tokens == mid.tokens && self.flows == mid.flows && self.mark == mid.mark && self.pos == mid.pos,
            decreases self.possible_keys.len(),
        {
            let _ = self.possible_keys.pop_back();
        }
        while self.stale_keys.len() > 0 && self.stale_keys[self.stale_keys.len() - 1].0 >= level
            invariant
                self.wf(),
                self.keeps(old(self)),
                self.tokens == mid.tokens && self.flows == mid.flows && self.mark == mid.mark && self.pos == mid.pos,
            decreases self.stale_keys.len(),
        {
            let _ = self.stale_keys.pop_back();
        }
        self.simple_key_allowed = false;
        self.adjacent_value_allowed = true;
        let start = self.mark;
        self.skip();
        self.push_token(if is_seq { TokenKind::FlowSequenceEnd } else { TokenKind::FlowMappingEnd }, start);
        Ok(())
    }

    fn fetch_flow_entry(&mut self) -> (r: Result<(), Error>)
        requires
            old(self).wf(),
            old(self).stream_start_produced,
        ensures
            final(self).wf(),
            final(self).keeps(old(self)),
            r is Ok <==> old(self).flows@.len() > 0 && !(old(self).simple_keys@.last().possible && old(self).simple_keys@.last().required),
            r is Ok ==> final(self).tokens@.len() > 0 && final(self).tokens@.drop_last() == old(self).tokens@
                && final(self).tokens@.last().kind == TokenKind::FlowEntry && final(self).tokens@.last().start
                == old(self).mark && final(self).simple_key_allowed,
    {
        if self.flow_level() == 0 {
            return self.error("unexpected ',' outside of flow collection");
        }
        self.remove_simple_key()?;
        self.simple_key_allowed = true;
        let start = self.mark;
        self.skip();
        self.push_token(TokenKind::FlowEntry, start);
        Ok(())
    }

    /// Fails if a tab is used where block indentation is expected.
    fn check_no_tab_indentation(&self, tab_before: bool, mark: Mark) -> (r: Result<(), Error>)
        requires
            mark_ok(mark),
        ensures
            r is Ok <==> !tab_before,
    {
        if tab_before {
            Err(syntax_error(mark, "tabs are not allowed as indentation of block collections"))
        } else {
            Ok(())
        }
    }

    fn fetch_block_entry(&mut self) -> (r: Result<(), Error>)
        requires
            old(self).wf(),
            old(self).stream_start_produced,
        ensures
            final(self).wf(),
            final(self).keeps(old(self)),
            r is Ok <==> old(self).flows@.len() == 0 && old(self).simple_key_allowed && !old(self).ws_has_tab
                && !(old(self).simple_keys@.last().possible && old(self).simple_keys@.last().required),
            r is Ok ==> final(self).tokens@.len() > 0 && final(self).tokens@.drop_last() == (if old(self).indent
                >= old(self).mark.column as isize {
                old(self).tokens@
            } else {
                old(self).tokens@.push(
                    Token { kind: TokenKind::BlockSequenceStart, start: old(self).mark, end: old(self).mark },
                )
            }) && final(self).tokens@.last().kind == TokenKind::BlockEntry && final(self).simple_key_allowed,
    {
        if self.flow_level() > 0 {
            return self.error("block sequence entries are not allowed in flow collections");
        }
        if !self.simple_key_allowed {
            return self.error("block sequence entries are not allowed in this context");
        }
        self.check_no_tab_indentation(self.ws_has_tab, self.mark)?;
        self.roll_indent(self.mark.column as isize, None, TokenKind::BlockSequenceStart, self.mark);
        self.remove_simple_key()?;
        self.simple_key_allowed = true;
        let start = self.mark;
        self.skip();
        self.push_token(TokenKind::BlockEntry, start);
        Ok(())
    }

    fn fetch_key(&mut self) -> (r: Result<(), Error>)
        requires
            old(self).wf(),
            old(self).stream_start_produced,
        ensures
            final(self).wf(),
            final(self).keeps(old(self)),
            r is Ok <==> (old(self).flows@.len() == 0 ==> old(self).simple_key_allowed && !old(self).ws_has_tab)
                && !(old(self).simple_keys@.last().possible && old(self).simple_keys@.last().required),
            r is Ok ==> final(self).tokens@.len() > 0 && final(self).tokens@.drop_last() == (if old(self).flows@.len()
                > 0 || old(self).indent >= old(self).mark.column as isize {
                old(self).tokens@
            } else {
                old(self).tokens@.push(
                    Token { kind: TokenKind::BlockMappingStart, start: old(self).mark, end: old(self).mark },
                )
            }) && final(self).tokens@.last().kind == TokenKind::Key && final(self).simple_key_allowed == (
            old(self).flows@.len() == 0),
    {
        if self.flow_level() == 0 {
            if !self.simple_key_allowed {
                return self.error("mapping keys are not allowed in this context");
            }
            self.check_no_tab_indentation(self.ws_has_tab, self.mark)?;
            self.roll_indent(self.mark.column as isize, None, TokenKind::BlockMappingStart, self.mark);
        }
        self.remove_simple_key()?;
        self.simple_key_allowed = self.flow_level() == 0;
        let start = self.mark;
        self.skip();
        self.push_token(TokenKind::Key, start);
        Ok(())
    }

    fn fetch_value(&mut self) -> (r: Result<(), Error>)
        requires
            old(self).wf(),
            old(self).stream_start_produced,
        ensures
            final(self).wf(),
            final(self).keeps(old(self)),
            r is Ok <==> if old(self).simple_keys@.last().possible {
                old(self).flows@.len() == 0 ==> !old(self).simple_keys@.last().tab_before
            } else {
                old(self).flows@.len() == 0 ==> old(self).simple_key_allowed && !old(self).ws_has_tab
            },
            r is Ok ==> final(self).tokens@.len() > old(self).tokens@.len() && final(self).tokens@.last().kind
                == TokenKind::Value && !final(self).simple_keys@.last().possible,
            r is Ok && old(self).simple_keys@.last().possible ==> final(self).tokens@.len() >= old(self).tokens@.len()
                + 2 && !final(self).simple_key_allowed,
    {
        let last = self.simple_keys.len() - 1;
        let key = self.simple_keys[last];
        if key.possible {
            if self.flow_level() == 0 {
                self.check_no_tab_indentation(key.tab_before, key.mark)?;
            }
            let token = Token { kind: TokenKind::Key, start: key.mark, end: key.mark };
            self.insert_token(key.token_number, token);
            self.roll_indent(
                key.mark.column as isize,
                Some(key.token_number),
                TokenKind::BlockMappingStart,
                key.mark,
            );
            let mut changed = key;
            changed.possible = false;
            self.simple_keys.set(last, changed);
            self.simple_key_allowed = false;
        } else {
            if self.flow_level() == 0 {
                if !self.simple_key_allowed {
                    return self.error("mapping values are not allowed in this context");
                }
                self.check_no_tab_indentation(self.ws_has_tab, self.mark)?;
                self.roll_indent(self.mark.column as isize, None, TokenKind::BlockMappingStart, self.mark);
            }
            self.simple_key_allowed = self.flow_level() == 0;
        }
        let start = self.mark;
        self.skip();
        self.push_token(TokenKind::Value, start);
        Ok(())
    }

    fn fetch_anchor(&mut self, alias: bool) -> (r: Result<(), Error>)
        requires
            old(self).wf(),
            old(self).stream_start_produced,
        ensures
            final(self).wf(),
            final(self).keeps(old(self)),
            r is Ok <==> !(old(self).simple_key_allowed && old(self).simple_keys@.last().possible && old(self).simple_keys@.last().required) && !spec_is_blankz(char_at(old(self).input@, old(self).pos + 1))
                && !spec_is_flow_indicator(char_at(old(self).input@, old(self).pos + 1)),
            r is Ok ==> final(self).pos > old(self).pos + 1 && final(self).tokens@.len() > 0 && final(self).tokens@.drop_last()
                == old(self).tokens@ && final(self).tokens@.last().start == old(self).mark && final(self).tokens@.last().kind
                == (if alias {
                TokenKind::Alias(final(self).tokens@.last().kind->Alias_0)
            } else {
                TokenKind::Anchor(final(self).tokens@.last().kind->Anchor_0)
            }) && (if alias {
                final(self).tokens@.last().kind->Alias_0@
            } else {
                final(self).tokens@.last().kind->Anchor_0@
            }) == old(self).input@.subrange(old(self).pos + 1, final(self).pos as int),
            r is Ok ==> spec_is_blankz(char_at(final(self).input@, final(self).pos as int)) || spec_is_flow_indicator(
                char_at(final(self).input@, final(self).pos as int),
            ),
    {
        self.save_simple_key()?;
        self.simple_key_allowed = false;
        let start = self.mark;
        let ghost saved = *self;
        self.skip();
        let name_start = self.pos;
        assert(old(self).pos < old(self).input@.len() ==> name_start == old(self).pos + 1);
        assert(old(self).pos >= old(self).input@.len() ==> name_start == old(self).input@.len());
        let ghost named = self.tokens;
        while !is_blankz(self.peek()) && !is_flow_indicator(self.peek())
            invariant
                self.wf(),
                self.keeps(old(self)),
                name_start <= self.pos,
                mark_ok(start),
                self.tokens == named,
                self.input == old(self).input,
                self.pos > name_start ==> !spec_is_blankz(char_at(self.input@, name_start as int))
                    && !spec_is_flow_indicator(char_at(self.input@, name_start as int)),
                self.pos == name_start ==> self.spec_peek() == char_at(self.input@, name_start as int),
            decreases self.input.len() - self.pos,
        {
            self.skip();
        }
        if self.pos == name_start {
            return self.error("anchor and alias names must not be empty");
        }
        let name = sub_chars(&self.input, name_start, self.pos);
        self.push_token(if alias { TokenKind::Alias(name) } else { TokenKind::Anchor(name) }, start);
        Ok(())
    }

    fn fetch_tag(&mut self) -> (r: Result<(), Error>)
        requires
            old(self).wf(),
            old(self).stream_start_produced,
        ensures
            final(self).wf(),
            final(self).keeps(old(self)),
            (old(self).simple_key_allowed && old(self).simple_keys@.last().possible && old(self).simple_keys@.last().required) ==> r is Err,
            r is Ok ==> final(self).tokens@.len() > 0 && final(self).tokens@.drop_last() == old(self).tokens@
                && final(self).tokens@.last().kind is Tag && final(self).tokens@.last().start == old(self).mark
                && (spec_is_blankz(final(self).spec_peek()) || (final(self).flows@.len() > 0
                && spec_is_flow_indicator(final(self).spec_peek()))) && !final(self).simple_key_allowed,
            r is Ok <==> !(old(self).simple_key_allowed && old(self).simple_keys@.last().possible
                && old(self).simple_keys@.last().required) && (tag_scan_end(old(self).input@, old(self).pos as int) matches Some(e)
                && (spec_is_blankz(char_at(old(self).input@, e)) || (old(self).flows@.len() > 0 && spec_is_flow_indicator(
                char_at(old(self).input@, e))))),
    {
        self.save_simple_key()?;
        self.simple_key_allowed = false;
        let start = self.mark;
        let (handle, suffix) = self.scan_tag()?;
        if !(is_blankz(self.peek()) || (self.flow_level() > 0 && is_flow_indicator(self.peek()))) {
            return self.error("expected whitespace after tag");
        }
        self.push_token(TokenKind::Tag(handle, suffix), start);
        Ok(())
    }

    fn fetch_block_scalar(&mut self, folded: bool) -> (r: Result<(), Error>)
        requires
            old(self).wf(),
            old(self).stream_start_produced,
        ensures
            final(self).wf(),
            final(self).keeps(old(self)),
            (old(self).simple_keys@.last().possible && old(self).simple_keys@.last().required) ==> r is Err,
            r is Ok ==> final(self).tokens@.len() > 0 && final(self).tokens@.drop_last() == old(self).tokens@
                && final(self).tokens@.last().kind == TokenKind::Scalar(
                if folded {
                    ScalarStyle::Folded
                } else {
                    ScalarStyle::Literal
                },
                final(self).tokens@.last().kind->Scalar_1,
            ) && final(self).simple_key_allowed,
            !(old(self).simple_keys@.last().possible && old(self).simple_keys@.last().required) && block_scalar_clean(
                old(self).input@,
                old(self).pos as int,
            ) ==> r is Ok,
    {
        self.remove_simple_key()?;
        self.simple_key_allowed = true;
        let token = self.scan_block_scalar(folded)?;
        self.tokens.push_back(token);
        Ok(())
    }

    fn fetch_flow_scalar(&mut self, single: bool) -> (r: Result<(), Error>)
        requires
            old(self).wf(),
            old(self).stream_start_produced,
        ensures
            final(self).wf(),
            final(self).keeps(old(self)),
            r is Ok ==> final(self).tokens@.len() > 0 && final(self).tokens@.drop_last() == old(self).tokens@
                && final(self).tokens@.last().kind == TokenKind::Scalar(
                if single {
                    ScalarStyle::SingleQuoted
                } else {
                    ScalarStyle::DoubleQuoted
                },
                final(self).tokens@.last().kind->Scalar_1,
            ) && !final(self).simple_key_allowed && final(self).adjacent_value_allowed,
            (old(self).simple_key_allowed && old(self).simple_keys@.last().possible && old(self).simple_keys@.last().required) ==> r is Err,
            !(old(self).simple_key_allowed && old(self).simple_keys@.last().possible && old(self).simple_keys@.last().required) ==> (quoted_line(old(self).input@, old(self).pos + 1, single) matches Some((text, close)) ==> {
                &&& r is Ok
                &&& final(self).tokens@.last().kind->Scalar_1@ == text
                &&& final(self).pos == close + 1
            }),
    {
        self.save_simple_key()?;
        self.simple_key_allowed = false;
        let token = self.scan_flow_scalar(single)?;
        self.tokens.push_back(token);
        self.adjacent_value_allowed = true;
        Ok(())
    }

    fn fetch_plain_scalar(&mut self) -> (r: Result<(), Error>)
        requires
            old(self).wf(),
            old(self).stream_start_produced,
        ensures
            final(self).wf(),
            final(self).keeps(old(self)),
            old(self).plain_ahead() ==> {
                &&& r is Ok && final(self).key_pending()
                &&& final(self).tokens@.len() == 1
                &&& final(self).tokens@[0].kind == TokenKind::Scalar(
                    ScalarStyle::Plain,
                    final(self).tokens@[0].kind->Scalar_1,
                )
                &&& final(self).tokens@[0].kind->Scalar_1@ == plain_text(old(self).input@, old(self).pos as int)
                &&& final(self).pos == final(self).input@.len()
            },
    {
        self.save_simple_key()?;
        self.simple_key_allowed = false;
        let token = self.scan_plain_scalar()?;
        self.tokens.push_back(token);
        Ok(())
    }
}


/// The value of a string of decimal digits.
pub open spec fn decimal_value(s: Seq<char>) -> int
    decreases s.len(),
{
    if s.len() == 0 {
        0
    } else {
        decimal_value(s.drop_last()) * 10 + (s.last() as int - '0' as int)
    }
}

/// Where the word characters (`0-9a-zA-Z-`) that start at `k` end.
pub open spec fn word_end(input: Seq<char>, k: int) -> int
    decreases input.len() - k,
{
    if 0 <= k < input.len() && spec_is_word_char(Some(input[k])) {
        word_end(input, k + 1)
    } else {
        k
    }
}

/// Where the decimal digits that start at `k` end.
pub open spec fn digits_end(input: Seq<char>, k: int) -> int
    decreases input.len() - k,
{
    if 0 <= k < input.len() && '0' <= input[k] <= '9' {
        digits_end(input, k + 1)
    } else {
        k
    }
}

pub open spec fn is_digit(c: char) -> bool {
    '0' <= c <= '9'
}

/// The value of a hexadecimal digit.
pub open spec fn hex_value(c: char) -> int {
    if '0' <= c <= '9' {
        c as int - '0' as int
    } else if 'a' <= c <= 'f' {
        c as int - 'a' as int + 10
    } else {
        c as int - 'A' as int + 10
    }
}

/// The byte that the escape `%XX` at `k` stands for (`%+X` is read as `X`).
pub open spec fn uri_escape_byte(input: Seq<char>, k: int) -> Option<u8> {
    if 0 <= k && k + 2 < input.len() {
        let a = input[k + 1];
        let b = input[k + 2];
        if is_hex_digit(a) && is_hex_digit(b) {
            Some((hex_value(a) * 16 + hex_value(b)) as u8)
        } else if a == '+' && is_hex_digit(b) {
            Some(hex_value(b) as u8)
        } else {
            None
        }
    } else {
        None
    }
}

/// The bytes of the run of escapes that starts at `k`, or `None` where one
/// of them is malformed.
pub open spec fn uri_escape_bytes(input: Seq<char>, k: int) -> Option<Seq<u8>>
    decreases input.len() - k,
{
    if 0 <= k < input.len() && input[k] == '%' {
        if k + 2 < input.len() && uri_escape_byte(input, k) is Some {
            match uri_escape_bytes(input, k + 3) {
                Some(rest) => Some(seq![uri_escape_byte(input, k).unwrap()] + rest),
                None => None,
            }
        } else {
            None
        }
    } else {
        Some(Seq::empty())
    }
}

/// Whether `c` may continue a run of URI characters (of tag characters
/// where `tag` holds).
pub open spec fn uri_run_char(c: Option<char>, tag: bool) -> bool {
    if tag {
        spec_is_tag_char(c)
    } else {
        spec_is_uri_char(c)
    }
}

/// The text of the run of URI characters (tag characters where `tag` holds)
/// that starts at `k`, with its escapes decoded, and where the run ends;
/// `None` where an escape in it is malformed or not UTF-8.
pub open spec fn uri_run(input: Seq<char>, k: int, tag: bool) -> Option<(Seq<char>, int)>
    decreases input.len() - k,
{
    if 0 <= k < input.len() && uri_run_char(Some(input[k]), tag) {
        if input[k] == '%' {
            match uri_escape_bytes(input, k) {
                Some(b) => if vstd::utf8::valid_utf8(b) && b.len() > 0 && k + 3 * b.len() <= input.len() {
                    match uri_run(input, k + 3 * b.len(), tag) {
                        Some(rest) => Some((vstd::utf8::decode_utf8(b) + rest.0, rest.1)),
                        None => None,
                    }
                } else {
                    None
                },
                None => None,
            }
        } else {
            match uri_run(input, k + 1, tag) {
                Some(rest) => Some((seq![input[k]] + rest.0, rest.1)),
                None => None,
            }
        }
    } else {
        Some((Seq::empty(), k))
    }
}

/// What a run that continues as `rest` gives when `done` was read before it.
pub open spec fn after_run(done: Seq<char>, rest: Option<(Seq<char>, int)>) -> Option<(Seq<char>, int)> {
    match rest {
        Some(r) => Some((done + r.0, r.1)),
        None => None,
    }
}

/// Where the run of characters that are neither blank nor a break, from `k`
/// on, ends.
pub open spec fn nonblank_end(input: Seq<char>, k: int) -> int
    decreases input.len() - k,
{
    if 0 <= k < input.len() && !spec_is_blankz(Some(input[k])) {
        nonblank_end(input, k + 1)
    } else {
        k
    }
}

/// Where the indicators of a block scalar header that start at `k` end (at
/// most `left` of them, a sign only where `sign` does not hold and a digit
/// only where `digit` does not), or `None` where an indentation indicator
/// is `0`.
pub open spec fn block_header_end(input: Seq<char>, k: int, sign: bool, digit: bool, left: nat) -> Option<int>
    decreases left,
{
    if left == 0 {
        Some(k)
    } else {
        let c = char_at(input, k);
        if !sign && (c == Some('+') || c == Some('-')) {
            block_header_end(input, k + 1, true, digit, (left - 1) as nat)
        } else if !digit && (c matches Some(ch) && '1' <= ch <= '9') {
            block_header_end(input, k + 1, sign, true, (left - 1) as nat)
        } else if c == Some('0') {
            None
        } else {
            Some(k)
        }
    }
}

/// Whether the line ends at `k`, after blanks and an optional comment.
pub open spec fn line_trailer_ok(input: Seq<char>, k: int) -> bool {
    let b = blanks_end(input, k);
    let c = char_at(input, b);
    c is None || spec_is_break(c) || (c == Some('#') && (b > k || spec_is_blank(char_at(input, k - 1))))
}

/// Where the blanks and the comment that end a line, from `k` on, end.
pub open spec fn line_trailer_end(input: Seq<char>, k: int) -> int {
    let b = blanks_end(input, k);
    if char_at(input, b) == Some('#') {
        comment_end(input, b)
    } else {
        b
    }
}

/// From `k` on, no tab and no space right before a line break.
pub open spec fn no_tab_or_trailing_space(input: Seq<char>, k: int) -> bool {
    forall|j: int| k <= j < input.len() ==> #[trigger] input[j] != '\t' && !(input[j] == ' ' && spec_is_break(
        char_at(input, j + 1),
    ))
}

/// Whether the block scalar whose indicator stands at `k` has a well-formed
/// header and, after it, no tab and no space right before a line break:
/// such a scalar is always scanned.
pub open spec fn block_scalar_clean(input: Seq<char>, k: int) -> bool {
    &&& 0 <= k < input.len()
    &&& block_header_end(input, k + 1, false, false, 2) matches Some(e)
    &&& line_trailer_ok(input, e)
    &&& no_tab_or_trailing_space(input, line_trailer_end(input, e))
}

/// Where the tag that starts at `p` ends, or `None` where it is malformed.
pub open spec fn tag_scan_end(input: Seq<char>, p: int) -> Option<int> {
    if char_at(input, p + 1) == Some('<') {
        match uri_run(input, p + 2, false) {
            Some(x) => if x.0.len() > 0 && char_at(input, x.1) == Some('>') {
                Some(x.1 + 1)
            } else {
                None
            },
            None => None,
        }
    } else {
        let w = word_end(input, p + 1);
        let h_end = if char_at(input, w) == Some('!') { w + 1 } else { p + 1 };
        if char_at(input, p) == Some('!') {
            match uri_run(input, h_end, true) {
                Some(x) => if x.0.len() > 0 || h_end == p + 1 {
                    Some(x.1)
                } else {
                    None
                },
                None => None,
            }
        } else {
            None
        }
    }
}

/// The name of the directive whose `%` stands at `k`.
pub open spec fn directive_name(input: Seq<char>, k: int) -> Seq<char> {
    input.subrange(k + 1, nonblank_end(input, k + 1))
}

/// A directive name other than `YAML` and `TAG`.
pub open spec fn is_reserved_directive_name(name: Seq<char>) -> bool {
    name.len() > 0 && name != seq!['Y', 'A', 'M', 'L'] && name != seq!['T', 'A', 'G']
}

/// The chomping indicator that a block scalar header from `k` on holds:
/// `1` for keep (`+`), `-1` for strip (`-`), `0` for clip.
pub open spec fn block_header_chomping(input: Seq<char>, k: int, chomp: int, digit: bool, left: nat) -> int
    decreases left,
{
    if left == 0 {
        chomp
    } else {
        let c = char_at(input, k);
        if chomp == 0 && c == Some('+') {
            block_header_chomping(input, k + 1, 1, digit, (left - 1) as nat)
        } else if chomp == 0 && c == Some('-') {
            block_header_chomping(input, k + 1, -1, digit, (left - 1) as nat)
        } else if !digit && (c matches Some(ch) && '1' <= ch <= '9') {
            block_header_chomping(input, k + 1, chomp, true, (left - 1) as nat)
        } else {
            chomp
        }
    }
}

/// The chomping of the block scalar whose indicator stands at `k`.
pub open spec fn block_chomping(input: Seq<char>, k: int) -> int {
    block_header_chomping(input, k + 1, 0, false, 2)
}

/// Every character is a line feed.
pub open spec fn all_newlines(s: Seq<char>) -> bool {
    forall|i: int| 0 <= i < s.len() ==> #[trigger] s[i] == '\n'
}

/// The text of a block scalar from its body (the content lines and the
/// breaks between them) and the line breaks after its last content line:
/// strip drops the final break, clip keeps one, keep keeps them all.
pub open spec fn chomped_text(body: Seq<char>, tail: Seq<char>, chomping: int) -> Seq<char> {
    let clipped = if body.len() == 0 { body } else { body.push('\n') };
    if chomping < 0 {
        body
    } else if chomping == 0 {
        clipped
    } else {
        clipped + tail
    }
}

/// The number of line breaks in a text, `\r\n` counted once.
pub open spec fn line_breaks(s: Seq<char>) -> nat
    decreases s.len(),
{
    if s.len() == 0 {
        0
    } else {
        line_breaks(s.drop_last()) + if s.last() == '\r' || (s.last() == '\n' && !(s.len() >= 2 && s[s.len() - 2]
            == '\r')) {
            1nat
        } else {
            0nat
        }
    }
}

/// What the blanks and line breaks between two runs of a plain scalar read
/// as: themselves within a line, one space across a single line break, and
/// one line feed for each empty line otherwise.
pub open spec fn folded_gap(g: Seq<char>) -> Seq<char> {
    let n = line_breaks(g);
    if n == 0 {
        g
    } else if n == 1 {
        seq![' ']
    } else {
        Seq::new((n - 1) as nat, |i: int| '\n')
    }
}

/// The text of the runs of a plain scalar (each a range of the input), with
/// the gaps between them folded.
pub open spec fn runs_text(inp: Seq<char>, runs: Seq<(int, int)>) -> Seq<char>
    decreases runs.len(),
{
    if runs.len() == 0 {
        Seq::empty()
    } else if runs.len() == 1 {
        inp.subrange(runs[0].0, runs[0].1)
    } else {
        runs_text(inp, runs.drop_last()) + folded_gap(inp.subrange(runs[runs.len() - 2].1, runs.last().0))
            + inp.subrange(runs.last().0, runs.last().1)
    }
}

/// The runs start at `start` (only the first may be empty), hold no blanks
/// or line breaks, and are separated by gaps of blanks and line breaks.
#[verifier::opaque]
pub open spec fn runs_ok(inp: Seq<char>, start: int, runs: Seq<(int, int)>) -> bool {
    &&& runs.len() > 0 && runs[0].0 == start
    &&& forall|i: int| 0 <= i < runs.len() ==> 0 <= (#[trigger] runs[i]).0 <= runs[i].1 <= inp.len()
    &&& forall|i: int| 0 < i < runs.len() ==> (#[trigger] runs[i]).0 < runs[i].1
    &&& forall|i: int, k: int| 0 <= i < runs.len() && (#[trigger] runs[i]).0 <= k < runs[i].1 ==> !spec_is_blank_or_break(
        Some(#[trigger] inp[k]),
    )
    &&& forall|i: int| 0 <= i < runs.len() - 1 ==> (#[trigger] runs[i]).1 < runs[i + 1].0
    &&& forall|i: int, k: int| 0 <= i < runs.len() - 1 && (#[trigger] runs[i]).1 <= k < runs[i + 1].0
        ==> spec_is_blank_or_break(Some(#[trigger] inp[k]))
}

proof fn lemma_runs_ok_start(inp: Seq<char>, start: int)
    requires
        0 <= start <= inp.len(),
    ensures
        runs_ok(inp, start, seq![(start, start)]),
{
    reveal(runs_ok);
}

/// A run grows by one character that is no blank or line break, or a new
/// run of one such character starts after a gap of blanks and line breaks.
proof fn lemma_runs_ok_grow(inp: Seq<char>, start: int, runs: Seq<(int, int)>, at: int)
    requires
        runs_ok(inp, start, runs),
        runs.last().1 <= at < inp.len(),
        !spec_is_blank_or_break(Some(inp[at])),
        forall|k: int| runs.last().1 <= k < at ==> spec_is_blank_or_break(Some(#[trigger] inp[k])),
    ensures
        runs.last().1 == at ==> runs_ok(inp, start, runs.update(runs.len() - 1, (runs.last().0, at + 1))),
        runs.last().1 < at ==> runs_ok(inp, start, runs.push((at, at + 1))),
{
    reveal(runs_ok);
    if runs.last().1 == at {
        let u = runs.update(runs.len() - 1, (runs.last().0, at + 1));
        assert forall|i: int, k: int| 0 <= i < u.len() && (#[trigger] u[i]).0 <= k < u[i].1 implies !spec_is_blank_or_break(
            Some(#[trigger] inp[k]),
        ) by {
            if i < runs.len() - 1 || k < at {
                assert(runs[i].0 <= k < runs[i].1 || k == at);
            }
        }
        assert forall|i: int, k: int| 0 <= i < u.len() - 1 && (#[trigger] u[i]).1 <= k < u[i + 1].0 implies spec_is_blank_or_break(
            Some(#[trigger] inp[k]),
        ) by {
            assert(u[i] == runs[i]);
            assert(u[i + 1].0 == runs[i + 1].0);
        }
        assert forall|i: int| 0 <= i < u.len() - 1 implies (#[trigger] u[i]).1 < u[i + 1].0 by {
            assert(u[i] == runs[i]);
            assert(u[i + 1].0 == runs[i + 1].0);
        }
    } else {
        let u = runs.push((at, at + 1));
        assert forall|i: int, k: int| 0 <= i < u.len() && (#[trigger] u[i]).0 <= k < u[i].1 implies !spec_is_blank_or_break(
            Some(#[trigger] inp[k]),
        ) by {
            if i < runs.len() {
                assert(u[i] == runs[i]);
            }
        }
        assert forall|i: int, k: int| 0 <= i < u.len() - 1 && (#[trigger] u[i]).1 <= k < u[i + 1].0 implies spec_is_blank_or_break(
            Some(#[trigger] inp[k]),
        ) by {
            assert(u[i] == runs[i]);
            if i < runs.len() - 1 {
                assert(u[i + 1] == runs[i + 1]);
            }
        }
        assert forall|i: int| 0 <= i < u.len() - 1 implies (#[trigger] u[i]).1 < u[i + 1].0 by {
            assert(u[i] == runs[i]);
            if i < runs.len() - 1 {
                assert(u[i + 1] == runs[i + 1]);
            }
        }
    }
}

proof fn lemma_runs_text_push(inp: Seq<char>, runs: Seq<(int, int)>, x: (int, int))
    requires
        runs.len() >= 1,
    ensures
        runs_text(inp, runs.push(x)) == runs_text(inp, runs) + folded_gap(inp.subrange(runs.last().1, x.0))
            + inp.subrange(x.0, x.1),
{
    assert(runs.push(x).drop_last() =~= runs);
    assert(runs.push(x)[runs.len() - 1] == runs.last());
}

proof fn lemma_runs_text_extend(inp: Seq<char>, runs: Seq<(int, int)>, e: int)
    requires
        runs.len() >= 1,
        0 <= runs.last().0 <= runs.last().1 <= e <= inp.len(),
    ensures
        runs_text(inp, runs.update(runs.len() - 1, (runs.last().0, e))) == runs_text(inp, runs) + inp.subrange(
            runs.last().1,
            e,
        ),
{
    let u = runs.update(runs.len() - 1, (runs.last().0, e));
    let l = runs.last();
    assert(inp.subrange(l.0, e) =~= inp.subrange(l.0, l.1) + inp.subrange(l.1, e));
    if runs.len() >= 2 {
        assert(u.drop_last() =~= runs.drop_last());
        assert(u[runs.len() - 2] == runs[runs.len() - 2]);
        assert(runs_text(inp, u) =~= runs_text(inp, runs) + inp.subrange(l.1, e));
    }
}

proof fn lemma_line_breaks_push(g: Seq<char>, c: char)
    ensures
        spec_is_blank(Some(c)) ==> line_breaks(g.push(c)) == line_breaks(g),
        c != '\r' && c != '\n' ==> line_breaks(g.push(c)) == line_breaks(g),
        c == '\r' ==> line_breaks(g.push(c)) == line_breaks(g) + 1,
        c == '\n' && !(g.len() > 0 && g.last() == '\r') ==> line_breaks(g.push(c)) == line_breaks(g) + 1,
        c == '\n' && g.len() > 0 && g.last() == '\r' ==> line_breaks(g.push(c)) == line_breaks(g),
{
    assert(g.push(c).drop_last() =~= g);
    if g.len() > 0 {
        assert(g.push(c)[g.len() - 1] == g.last());
    }
}

/// Blanks after a text add no line break.
proof fn lemma_line_breaks_blanks(a: Seq<char>, b: Seq<char>)
    requires
        forall|i: int| 0 <= i < b.len() ==> spec_is_blank(Some(#[trigger] b[i])),
    ensures
        line_breaks(a + b) == line_breaks(a),
    decreases b.len(),
{
    if b.len() > 0 {
        let c = b.last();
        lemma_line_breaks_blanks(a, b.drop_last());
        assert((a + b) =~= (a + b.drop_last()).push(c));
        lemma_line_breaks_push(a + b.drop_last(), c);
    } else {
        assert(a + b =~= a);
    }
}

/// Line feeds after blanks are one line break each.
proof fn lemma_line_breaks_feeds(a: Seq<char>, m: nat)
    requires
        forall|i: int| 0 <= i < a.len() ==> spec_is_blank(Some(#[trigger] a[i])),
    ensures
        line_breaks(a + Seq::new(m, |i: int| '\n')) == m,
    decreases m,
{
    let f = Seq::new(m, |i: int| '\n');
    if m == 0 {
        lemma_line_breaks_blanks(Seq::empty(), a);
        assert(Seq::<char>::empty() + a =~= a);
        assert(a + f =~= a);
    } else {
        let f0 = Seq::new((m - 1) as nat, |i: int| '\n');
        lemma_line_breaks_feeds(a, (m - 1) as nat);
        assert(a + f =~= (a + f0).push('\n'));
        let g = a + f0;
        if g.len() > 0 {
            assert(g.last() == '\n' || spec_is_blank(Some(g.last())));
        }
        lemma_line_breaks_push(g, '\n');
    }
}

/// How the lines of a plain scalar are joined: within a line the blanks
/// between two runs stay; across one line break (`\n` or `\r\n`), with
/// any blanks around it, the lines are joined by one space; and where
/// `n > 0` empty lines lie between them (`n + 1` line feeds), by `n` line
/// feeds and nothing else.
pub proof fn lemma_plain_folding(b1: Seq<char>, b2: Seq<char>, n: nat)
    requires
        forall|i: int| 0 <= i < b1.len() ==> spec_is_blank(Some(#[trigger] b1[i])),
        forall|i: int| 0 <= i < b2.len() ==> spec_is_blank(Some(#[trigger] b2[i])),
    ensures
        folded_gap(b1) == b1,
        folded_gap(b1 + seq!['\n'] + b2) == seq![' '],
        folded_gap(b1 + seq!['\r', '\n'] + b2) == seq![' '],
        n >= 1 ==> folded_gap(b1 + Seq::new(n + 1, |i: int| '\n') + b2) == Seq::new(n, |i: int| '\n'),
{
    lemma_line_breaks_blanks(Seq::empty(), b1);
    assert(Seq::<char>::empty() + b1 =~= b1);
    lemma_line_breaks_feeds(b1, 1);
    assert(Seq::new(1, |i: int| '\n') =~= seq!['\n']);
    lemma_line_breaks_blanks(b1 + seq!['\n'], b2);
    lemma_line_breaks_push(b1, '\r');
    assert(b1 + seq!['\r'] =~= b1.push('\r'));
    assert(b1 + seq!['\r', '\n'] =~= b1.push('\r').push('\n'));
    lemma_line_breaks_push(b1.push('\r'), '\n');
    lemma_line_breaks_blanks(b1 + seq!['\r', '\n'], b2);
    lemma_line_breaks_feeds(b1, n + 1);
    lemma_line_breaks_blanks(b1 + Seq::new(n + 1, |i: int| '\n'), b2);
    assert(Seq::new((n + 1 - 1) as nat, |i: int| '\n') =~= Seq::new(n, |i: int| '\n'));
}

/// Line breaks of two texts add up unless a `\r\n` is split between them.
proof fn lemma_line_breaks_concat(a: Seq<char>, b: Seq<char>)
    requires
        !(a.len() > 0 && a.last() == '\r' && b.len() > 0 && b[0] == '\n'),
    ensures
        line_breaks(a + b) == line_breaks(a) + line_breaks(b),
    decreases b.len(),
{
    if b.len() == 0 {
        assert(a + b =~= a);
    } else {
        let c = b.last();
        let b0 = b.drop_last();
        if b0.len() > 0 {
            assert(b0[0] == b[0]);
        }
        lemma_line_breaks_concat(a, b0);
        assert(a + b =~= (a + b0).push(c));
        assert(b =~= b0.push(c));
        lemma_line_breaks_push(a + b0, c);
        lemma_line_breaks_push(b0, c);
        if b0.len() > 0 {
            assert((a + b0).last() == b0.last());
        }
    }
}

/// A content line of a block scalar that starts with a blank (it is more
/// indented than the scalar).
pub open spec fn starts_blank(t: Seq<char>) -> bool {
    t.len() > 0 && spec_is_blank(Some(t[0]))
}

/// What stands between two content lines of a block scalar with `empty`
/// empty lines between them: in a folded scalar, between two lines that do
/// not start with a blank, one space if there is no empty line and one
/// line feed per empty line otherwise; in every other case the line break
/// and one line feed per empty line.
pub open spec fn block_separator(prev: Seq<char>, cur: Seq<char>, empty: nat, folded: bool) -> Seq<char> {
    if folded && !starts_blank(prev) && !starts_blank(cur) {
        if empty == 0 {
            seq![' ']
        } else {
            Seq::new(empty, |i: int| '\n')
        }
    } else {
        Seq::new(empty + 1, |i: int| '\n')
    }
}

/// The text of a content line (a range of the input).
pub open spec fn line_text(inp: Seq<char>, line: (int, int)) -> Seq<char> {
    inp.subrange(line.0, line.1)
}

/// The body of a block scalar from its content lines and the number of
/// empty lines before each.
pub open spec fn block_body(inp: Seq<char>, lines: Seq<(int, int)>, empties: Seq<nat>, folded: bool) -> Seq<char>
    decreases lines.len(),
{
    if lines.len() == 0 || empties.len() != lines.len() {
        Seq::empty()
    } else if lines.len() == 1 {
        Seq::new(empties[0], |i: int| '\n') + line_text(inp, lines[0])
    } else {
        block_body(inp, lines.drop_last(), empties.drop_last(), folded) + block_separator(
            line_text(inp, lines[lines.len() - 2]),
            line_text(inp, lines.last()),
            empties.last(),
            folded,
        ) + line_text(inp, lines.last())
    }
}

/// Content lines of a block scalar: ranges of the input, in order, not
/// empty, without line breaks and each ending at a line break or the end;
/// between two of them only blanks and line breaks, one line break more
/// than the empty lines counted there.
#[verifier::opaque]
pub open spec fn block_lines_ok(inp: Seq<char>, lines: Seq<(int, int)>, empties: Seq<nat>) -> bool {
    &&& empties.len() == lines.len()
    &&& forall|i: int| 0 <= i < lines.len() ==> 0 <= (#[trigger] lines[i]).0 < lines[i].1 <= inp.len()
    &&& forall|i: int, k: int| 0 <= i < lines.len() && (#[trigger] lines[i]).0 <= k < lines[i].1 ==> !spec_is_break(
        Some(#[trigger] inp[k]),
    )
    &&& forall|i: int| 0 <= i < lines.len() ==> (#[trigger] lines[i]).1 == inp.len() || spec_is_break(
        Some(inp[lines[i].1]),
    )
    &&& forall|i: int| 0 <= i < lines.len() - 1 ==> (#[trigger] lines[i]).1 < lines[i + 1].0
    &&& forall|i: int, k: int| 0 <= i < lines.len() - 1 && (#[trigger] lines[i]).1 <= k < lines[i + 1].0
        ==> spec_is_blank_or_break(Some(#[trigger] inp[k]))
    &&& forall|i: int| 0 <= i < lines.len() - 1 ==> line_breaks(inp.subrange((#[trigger] lines[i]).1, lines[i + 1].0))
        == empties[i + 1] + 1
}

/// Between the header of a block scalar (ending at `t`) and `pos`, unless
/// the input ends there: only blanks and line breaks, `n + 1` line breaks
/// (`n` empty lines), and no `\r\n` split at `pos`.
pub open spec fn lead_gap_ok(inp: Seq<char>, t: int, pos: int, n: nat) -> bool {
    pos < inp.len() ==> {
        &&& 0 <= t < pos
        &&& line_breaks(inp.subrange(t, pos)) == n + 1
        &&& forall|k: int| t <= k < pos ==> spec_is_blank_or_break(Some(#[trigger] inp[k]))
        &&& !(inp[pos - 1] == '\r' && inp[pos] == '\n')
    }
}

/// What a further content line adds to the body of a block scalar.
proof fn lemma_block_line_added(
    inp: Seq<char>,
    lines: Seq<(int, int)>,
    empties: Seq<nat>,
    line: (int, int),
    tk: nat,
    folded: bool,
)
    requires
        block_lines_ok(inp, lines, empties),
        0 <= line.0 < line.1 <= inp.len(),
        forall|k: int| line.0 <= k < line.1 ==> !spec_is_break(Some(#[trigger] inp[k])),
        line.1 == inp.len() || spec_is_break(Some(inp[line.1])),
        lines.len() > 0 ==> lines.last().1 < line.0 && line_breaks(inp.subrange(lines.last().1, line.0)) == tk + 1
            && (forall|k: int| lines.last().1 <= k < line.0 ==> spec_is_blank_or_break(Some(#[trigger] inp[k]))),
    ensures
        block_lines_ok(inp, lines.push(line), empties.push(tk)),
        block_body(inp, lines.push(line), empties.push(tk), folded) == block_body(inp, lines, empties, folded) + (if lines.len()
            == 0 {
            Seq::new(tk, |i: int| '\n')
        } else {
            block_separator(line_text(inp, lines.last()), line_text(inp, line), tk, folded)
        }) + line_text(inp, line),
{
    reveal(block_lines_ok);
    let nl = lines.push(line);
    let ne = empties.push(tk);
    assert(nl.drop_last() =~= lines);
    assert(ne.drop_last() =~= empties);
    if lines.len() == 0 {
        assert(Seq::<char>::empty() + Seq::new(tk, |i: int| '\n') =~= Seq::new(tk, |i: int| '\n'));
    } else {
        assert(nl[nl.len() - 2] == lines.last());
    }
    assert(block_lines_ok(inp, nl, ne)) by {
        assert forall|i: int| 0 <= i < nl.len() - 1 implies line_breaks(inp.subrange((#[trigger] nl[i]).1, nl[i + 1].0))
            == ne[i + 1] + 1 by {
            if i < nl.len() - 2 {
                assert(nl[i] == lines[i] && nl[i + 1] == lines[i + 1] && ne[i + 1] == empties[i + 1]);
            }
        }
        assert forall|i: int, k: int| 0 <= i < nl.len() && (#[trigger] nl[i]).0 <= k < nl[i].1 implies !spec_is_break(
            Some(#[trigger] inp[k]),
        ) by {
            if i < lines.len() {
                assert(nl[i] == lines[i]);
            }
        }
        assert forall|i: int, k: int| 0 <= i < nl.len() - 1 && (#[trigger] nl[i]).1 <= k < nl[i + 1].0 implies spec_is_blank_or_break(
            Some(#[trigger] inp[k]),
        ) by {
            if i < lines.len() - 1 {
                assert(nl[i] == lines[i] && nl[i + 1] == lines[i + 1]);
            } else {
                assert(nl[i] == lines.last());
            }
        }
    }
}

/// How a block scalar joins two content lines between which the input
/// holds `n + 1` line breaks (`n` empty lines): a folded scalar joins two
/// lines that do not start with a blank by one space if there is no empty
/// line, and by `n` line feeds and nothing else otherwise; a literal
/// scalar keeps every line break.
pub proof fn lemma_block_folding(inp: Seq<char>, l1: (int, int), l2: (int, int), n: nat)
    requires
        block_lines_ok(inp, seq![l1, l2], seq![0nat, n]),
    ensures
        line_breaks(inp.subrange(l1.1, l2.0)) == n + 1,
        !starts_blank(inp.subrange(l1.0, l1.1)) && !starts_blank(inp.subrange(l2.0, l2.1)) ==> block_body(
            inp,
            seq![l1, l2],
            seq![0nat, n],
            true,
        ) == inp.subrange(l1.0, l1.1) + (if n == 0 {
            seq![' ']
        } else {
            Seq::new(n, |i: int| '\n')
        }) + inp.subrange(l2.0, l2.1),
        block_body(inp, seq![l1, l2], seq![0nat, n], false) == inp.subrange(l1.0, l1.1) + Seq::new(
            n + 1,
            |i: int| '\n',
        ) + inp.subrange(l2.0, l2.1),
{
    reveal(block_lines_ok);
    let lines = seq![l1, l2];
    let empties = seq![0nat, n];
    assert(lines[0] == l1 && lines[1] == l2 && empties[1] == n);
    assert(lines.drop_last() =~= seq![l1]);
    assert(empties.drop_last() =~= seq![0nat]);
    assert(Seq::new(0nat, |i: int| '\n') + inp.subrange(l1.0, l1.1) =~= inp.subrange(l1.0, l1.1));
    let t1 = inp.subrange(l1.0, l1.1);
    let t2 = inp.subrange(l2.0, l2.1);
    assert(block_body(inp, seq![l1], seq![0nat], true) == t1);
    assert(block_body(inp, seq![l1], seq![0nat], false) == t1);
    assert(block_body(inp, lines, empties, true) == t1 + block_separator(t1, t2, n, true) + t2);
    assert(block_body(inp, lines, empties, false) == t1 + block_separator(t1, t2, n, false) + t2);
    assert(block_separator(t1, t2, n, false) =~= Seq::new(n + 1, |i: int| '\n'));
    if n > 0 {
        assert(block_separator(t1, t2, n, true) =~= Seq::new(n, |i: int| '\n') || starts_blank(t1) || starts_blank(t2));
    }
}

pub open spec fn is_hex_digit(c: char) -> bool {
    ('0' <= c <= '9') || ('a' <= c <= 'f') || ('A' <= c <= 'F')
}

/// The value of a string of hexadecimal digits.
pub open spec fn hex_seq_value(s: Seq<char>) -> int
    decreases s.len(),
{
    if s.len() == 0 {
        0
    } else {
        hex_seq_value(s.drop_last()) * 16 + hex_value(s.last())
    }
}

/// Returns the value of a hexadecimal digit.
pub fn hex_digit_value(c: char) -> (r: Option<u32>)
    ensures
        r is Some <==> is_hex_digit(c),
        r matches Some(v) ==> v as int == hex_value(c) && v < 16,
{
    if '0' <= c && c <= '9' {
        Some((c as u32) - ('0' as u32))
    } else if 'a' <= c && c <= 'f' {
        Some((c as u32) - ('a' as u32) + 10)
    } else if 'A' <= c && c <= 'F' {
        Some((c as u32) - ('A' as u32) + 10)
    } else {
        None
    }
}

/// The character an escape sequence without code stands for.
pub open spec fn simple_escape(c: char) -> Option<char> {
    if c == '0' { Some('\0') }
    else if c == 'a' { Some('\x07') }
    else if c == 'b' { Some('\x08') }
    else if c == 't' || c == '\t' { Some('\t') }
    else if c == 'n' { Some('\n') }
    else if c == 'v' { Some('\x0b') }
    else if c == 'f' { Some('\x0c') }
    else if c == 'r' { Some('\r') }
    else if c == 'e' { Some('\x1b') }
    else if c == ' ' { Some(' ') }
    else if c == '"' { Some('"') }
    else if c == '/' { Some('/') }
    else if c == '\\' { Some('\\') }
    else if c == 'N' { Some('\u{85}') }
    else if c == '_' { Some('\u{a0}') }
    else if c == 'L' { Some('\u{2028}') }
    else if c == 'P' { Some('\u{2029}') }
    else { None }
}

/// The number of hexadecimal digits of a code escape (`\x`, `\u`, `\U`).
pub open spec fn escape_code_len(c: char) -> nat {
    if c == 'x' { 2 } else if c == 'u' { 4 } else if c == 'U' { 8 } else { 0 }
}

/// All characters are hexadecimal digits.
pub open spec fn all_hex(s: Seq<char>) -> bool {
    forall|k: int| 0 <= k < s.len() ==> is_hex_digit(#[trigger] s[k])
}

/// The escape sequence at `i` (a backslash at `i`) is valid: a simple
/// escape, or a code escape with all its hexadecimal digits and the code
/// of a character.
pub open spec fn escape_valid(input: Seq<char>, i: int) -> bool {
    &&& 0 <= i
    &&& i + 1 < input.len()
    &&& (simple_escape(input[i + 1]) is Some || {
        let n = escape_code_len(input[i + 1]);
        &&& n > 0
        &&& i + 2 + n <= input.len()
        &&& all_hex(input.subrange(i + 2, i + 2 + n))
        &&& is_scalar_value(hex_seq_value(input.subrange(i + 2, i + 2 + n)))
    })
}

/// How a quoted scalar that ends on its line reads.  Scanning from index
/// `i` (after the opening quote) up to the closing quote gives the
/// characters that the scalar stands for and the index of the closing
/// quote; `None` where the scalar does not end on its line or holds an
/// invalid escape.  In single-quoted scalars `''` stands for `'`; in
/// double-quoted ones a backslash starts an escape.
pub open spec fn quoted_line(input: Seq<char>, i: int, single: bool) -> Option<(Seq<char>, int)>
    decreases input.len() - i,
{
    if i < 0 || i >= input.len() {
        None
    } else if single && input[i] == '\'' {
        if i + 1 < input.len() && input[i + 1] == '\'' {
            match quoted_line(input, i + 2, single) {
                Some((s, e)) => Some((seq!['\''] + s, e)),
                None => None,
            }
        } else {
            Some((Seq::empty(), i))
        }
    } else if !single && input[i] == '"' {
        Some((Seq::empty(), i))
    } else if !single && input[i] == '\\' {
        if !escape_valid(input, i) {
            None
        } else {
            match simple_escape(input[i + 1]) {
                Some(x) => match quoted_line(input, i + 2, single) {
                    Some((s, e)) => Some((seq![x] + s, e)),
                    None => None,
                },
                None => {
                    let n = escape_code_len(input[i + 1]);
                    let code = hex_seq_value(input.subrange(i + 2, i + 2 + n));
                    match quoted_line(input, i + 2 + n, single) {
                        Some((s, e)) => Some((seq![code as char] + s, e)),
                        None => None,
                    }
                }
            }
        }
    } else if input[i] == '\n' || input[i] == '\r' {
        None
    } else {
        match quoted_line(input, i + 1, single) {
            Some((s, e)) => Some((seq![input[i]] + s, e)),
            None => None,
        }
    }
}

/// The closing quote is at or after the start, inside the input, and it is
/// at the start exactly when the start holds a closing quote.
proof fn lemma_quoted_line_close(input: Seq<char>, i: int, single: bool)
    requires
        quoted_line(input, i, single) is Some,
    ensures
        i <= quoted_line(input, i, single).unwrap().1 < input.len(),
        closes_at(input, quoted_line(input, i, single).unwrap().1, single),
        quoted_line(input, i, single).unwrap().1 == i <==> closes_at(input, i, single),
    decreases input.len() - i,
{
    if closes_at(input, i, single) {
    } else if single && input[i] == '\'' {
        lemma_quoted_line_close(input, i + 2, single);
    } else if !single && input[i] == '\\' {
        match simple_escape(input[i + 1]) {
            Some(_) => lemma_quoted_line_close(input, i + 2, single),
            None => lemma_quoted_line_close(input, i + 2 + escape_code_len(input[i + 1]), single),
        }
    } else {
        lemma_quoted_line_close(input, i + 1, single);
    }
}

/// The quote at `i` closes a quoted scalar.
pub open spec fn closes_at(input: Seq<char>, i: int, single: bool) -> bool {
    &&& 0 <= i < input.len()
    &&& if single {
        input[i] == '\'' && !(i + 1 < input.len() && input[i + 1] == '\'')
    } else {
        input[i] == '"'
    }
}

/// The character at `j`, if `j` is inside the input.
pub open spec fn char_at(input: Seq<char>, j: int) -> Option<char> {
    if 0 <= j < input.len() {
        Some(input[j])
    } else {
        None
    }
}

/// A run of a plain scalar stops at `j`: at a blank or a line break, at
/// `:` before a blank, a line break or the end (or before a flow indicator
/// in flow context), and at a flow indicator in flow context.
pub open spec fn plain_stop(input: Seq<char>, j: int, in_flow: bool) -> bool {
    let c = char_at(input, j);
    ||| spec_is_blank_or_break(c)
    ||| c == Some(':') && (spec_is_blankz(char_at(input, j + 1)) || (in_flow && spec_is_flow_indicator(
        char_at(input, j + 1),
    )))
    ||| in_flow && spec_is_flow_indicator(c)
}

/// Where the run of a plain scalar that starts at `k` ends.
pub open spec fn run_end(input: Seq<char>, k: int, in_flow: bool) -> int
    decreases input.len() - k,
{
    if k < 0 || k >= input.len() || plain_stop(input, k, in_flow) {
        k
    } else {
        run_end(input, k + 1, in_flow)
    }
}

/// Where the blanks that start at `k` end.
pub open spec fn blanks_end(input: Seq<char>, k: int) -> int
    decreases input.len() - k,
{
    if 0 <= k < input.len() && spec_is_blank(Some(input[k])) {
        blanks_end(input, k + 1)
    } else {
        k
    }
}

/// From `k` on, the input holds blanks and line breaks only.
pub open spec fn blank_rest(input: Seq<char>, k: int) -> bool {
    forall|j: int| k <= j < input.len() ==> spec_is_blank_or_break(#[trigger] char_at(input, j))
}

/// Where the comment that goes on at `k` ends: at the next line break or
/// at the end of the input.
pub open spec fn comment_end(input: Seq<char>, k: int) -> int
    decreases input.len() - k,
{
    if k < 0 || k >= input.len() || spec_is_break(Some(input[k])) {
        k
    } else {
        comment_end(input, k + 1)
    }
}

/// The comment ends inside the input, at or after `k`.
pub proof fn lemma_comment_end(input: Seq<char>, k: int)
    requires
        0 <= k <= input.len(),
    ensures
        k <= comment_end(input, k) <= input.len(),
        comment_end(input, k) < input.len() ==> spec_is_break(Some(input[comment_end(input, k)])),
        forall|j: int| k <= j <= comment_end(input, k) ==> comment_end(input, j) == comment_end(input, k),
    decreases input.len() - k,
{
    if k < input.len() && !spec_is_break(Some(input[k])) {
        lemma_comment_end(input, k + 1);
    }
}

/// A comment may start at `k`: at the start of the input or after a blank,
/// a line break or the byte order mark.
pub open spec fn comment_may_start(input: Seq<char>, k: int) -> bool {
    k == 0 || (0 < k <= input.len() && (spec_is_blank_or_break(Some(input[k - 1])) || input[k - 1] == '\u{feff}'))
}

/// From `k` on, the input holds blanks, line breaks and comments only (and
/// a byte order mark at its start).
pub open spec fn quiet_from(input: Seq<char>, k: int) -> bool
    decreases input.len() - k,
{
    if k < 0 || k >= input.len() {
        true
    } else if spec_is_blank_or_break(Some(input[k])) || (k == 0 && input[0] == '\u{feff}') {
        quiet_from(input, k + 1)
    } else if input[k] == '#' && comment_may_start(input, k) {
        proof {
            lemma_comment_end(input, k + 1);
        }
        quiet_from(input, comment_end(input, k + 1))
    } else {
        false
    }
}

/// The run that starts at `k` ends inside the input, at a character where
/// runs stop.
pub proof fn lemma_run_end(input: Seq<char>, k: int, in_flow: bool)
    requires
        0 <= k <= input.len(),
    ensures
        k <= run_end(input, k, in_flow) <= input.len(),
        run_end(input, k, in_flow) < input.len() ==> plain_stop(input, run_end(input, k, in_flow), in_flow),
        forall|j: int| k <= j < run_end(input, k, in_flow) ==> !#[trigger] plain_stop(input, j, in_flow),
    decreases input.len() - k,
{
    if k < input.len() && !plain_stop(input, k, in_flow) {
        lemma_run_end(input, k + 1, in_flow);
    }
}

/// The blanks that start at `k` end inside the input, before a character
/// that is not blank.
pub proof fn lemma_blanks_end(input: Seq<char>, k: int)
    requires
        0 <= k <= input.len(),
    ensures
        k <= blanks_end(input, k) <= input.len(),
        blanks_end(input, k) < input.len() ==> !spec_is_blank(Some(input[blanks_end(input, k)])),
        forall|j: int| k <= j < blanks_end(input, k) ==> spec_is_blank(#[trigger] char_at(input, j)),
        forall|j: int| k <= j <= blanks_end(input, k) ==> blanks_end(input, j) == blanks_end(input, k),
    decreases input.len() - k,
{
    if k < input.len() && spec_is_blank(Some(input[k])) {
        lemma_blanks_end(input, k + 1);
    }
}

/// How a plain scalar that starts at `k` and does not go on to another
/// line is read: the end of its text (which is the input from `k` up to
/// there) and where reading stops; `None` where the scalar may go on to
/// another line.  Runs of non-blank characters are joined with the blanks
/// between them; the scalar ends before trailing blanks followed by the
/// end of the input, a comment, a `: ` or (in flow context) a flow
/// indicator, or before a line break followed by blank lines only.
pub open spec fn plain_line(input: Seq<char>, k: int, in_flow: bool) -> Option<(int, int)>
    decreases input.len() - k,
{
    if k < 0 || k > input.len() {
        None
    } else {
        let e = run_end(input, k, in_flow);
        let b = blanks_end(input, e);
        if b >= input.len() {
            Some((e, input.len() as int))
        } else if spec_is_break(Some(input[b])) {
            if blank_rest(input, b) {
                Some((e, input.len() as int))
            } else {
                None
            }
        } else if b <= e {
            Some((e, e))
        } else if input[b] == '#' || run_end(input, b, in_flow) == b {
            Some((e, b))
        } else {
            proof {
                lemma_run_end(input, k, in_flow);
            }
            plain_line(input, b, in_flow)
        }
    }
}

/// A document marker (`---` or `...` before a blank, a line break or the
/// end) starts at `k`.
pub open spec fn starts_document_marker(input: Seq<char>, k: int) -> bool {
    &&& 0 <= k && k + 3 <= input.len()
    &&& input.subrange(k, k + 3) == seq!['-', '-', '-'] || input.subrange(k, k + 3) == seq!['.', '.', '.']
    &&& spec_is_blankz(char_at(input, k + 3))
}

/// A plain scalar starts at `k` in block context: its first character is
/// no indicator (`-`, `?` and `:` are allowed before a non-blank), no
/// blank, line break, byte order mark, and no document marker starts there.
pub open spec fn plain_scalar_start(input: Seq<char>, k: int) -> bool {
    let c = char_at(input, k);
    &&& c is Some
    &&& !spec_is_blank_or_break(c)
    &&& !spec_is_flow_indicator(c)
    &&& !(c == Some('*') || c == Some('&') || c == Some('!') || c == Some('|') || c == Some('>') || c == Some('\'')
        || c == Some('"') || c == Some('#') || c == Some('%') || c == Some('@') || c == Some('`') || c == Some(
        '\u{feff}',
    ))
    &&& (c == Some('-') || c == Some('?') || c == Some(':')) ==> !spec_is_blankz(char_at(input, k + 1))
    &&& !starts_document_marker(input, k)
}

/// From `k` on, the input is a document that holds one plain scalar on a
/// line of its own, followed by a line break and blank lines only.
pub open spec fn plain_document_at(input: Seq<char>, k: int) -> bool {
    &&& plain_scalar_start(input, k)
    &&& plain_line(input, k, false) matches Some((e, p)) && p == input.len() && blanks_end(input, e) < input.len()
}

/// The text of the plain scalar that starts at `k`, as [`plain_line`]
/// reads it.
pub open spec fn plain_text(input: Seq<char>, k: int) -> Seq<char> {
    match plain_line(input, k, false) {
        Some((e, _)) => input.subrange(k, e),
        None => Seq::empty(),
    }
}

fn escape_char(c: char) -> (r: Option<char>)
    ensures
        r == simple_escape(c),
{
    if c == '0' { Some('\0') }
    else if c == 'a' { Some('\x07') }
    else if c == 'b' { Some('\x08') }
    else if c == 't' || c == '\t' { Some('\t') }
    else if c == 'n' { Some('\n') }
    else if c == 'v' { Some('\x0b') }
    else if c == 'f' { Some('\x0c') }
    else if c == 'r' { Some('\r') }
    else if c == 'e' { Some('\x1b') }
    else if c == ' ' { Some(' ') }
    else if c == '"' { Some('"') }
    else if c == '/' { Some('/') }
    else if c == '\\' { Some('\\') }
    else if c == 'N' { Some('\u{85}') }
    else if c == '_' { Some('\u{a0}') }
    else if c == 'L' { Some('\u{2028}') }
    else if c == 'P' { Some('\u{2029}') }
    else { None }
}

impl Scanner {
    // -- scanners ---------------------------------------------------------

    /// Skips whitespace and an optional comment up to the end of the line.
    fn skip_line_trailer(&mut self, what: &str) -> (r: Result<(), Error>)
        requires
            old(self).wf(),
        ensures
            final(self).wf(),
            final(self).same_structure(old(self)),
            final(self).pos >= old(self).pos,
            r is Ok ==> !final(self).spec_peek().is_some() || spec_is_break(final(self).spec_peek()),
            ({
                let b = blanks_end(old(self).input@, old(self).pos as int);
                let c = char_at(old(self).input@, b);
                &&& r is Ok <==> c is None || spec_is_break(c) || (c == Some('#') && (b > old(self).pos
                    || spec_is_blank(char_at(old(self).input@, old(self).pos - 1))))
                &&& r is Ok ==> final(self).pos == (if c == Some('#') {
                    comment_end(old(self).input@, b)
                } else {
                    b
                })
            }),
    {
        let mut had_blank = is_blank(self.peek_before());
        proof {
            lemma_blanks_end(self.input@, self.pos as int);
        }
        while is_blank(self.peek())
            invariant
                self.wf(),
                self.same_structure(old(self)),
                self.pos >= old(self).pos,
                self.pos <= blanks_end(self.input@, old(self).pos as int),
                blanks_end(self.input@, self.pos as int) == blanks_end(self.input@, old(self).pos as int),
                had_blank == (self.pos > old(self).pos || spec_is_blank(char_at(self.input@, old(self).pos - 1))),
            decreases self.input.len() - self.pos,
        {
            proof {
                lemma_blanks_end(self.input@, self.pos + 1);
            }
            self.skip();
            had_blank = true;
        }
        if self.peek() == Some('#') {
            if !had_blank {
                return self.error("comments must be separated by whitespace");
            }
            let ghost hash = self.pos as int;
            proof {
                lemma_comment_end(self.input@, hash);
            }
            while !is_break(self.peek()) && self.peek().is_some()
                invariant
                    self.wf(),
                    self.same_structure(old(self)),
                    self.pos >= old(self).pos,
                    hash <= self.pos <= comment_end(self.input@, hash),
                    comment_end(self.input@, self.pos as int) == comment_end(self.input@, hash),
                decreases self.input.len() - self.pos,
            {
                proof {
                    lemma_comment_end(self.input@, self.pos + 1);
                }
                self.skip();
            }
        }
        if !is_break(self.peek()) && self.peek().is_some() {
            let mut msg = String::from_str("unexpected content after ");
            msg.append(what);
            return self.error(msg.as_str());
        }
        Ok(())
    }

    fn scan_directive(&mut self) -> (r: Result<Token, Error>)
        requires
            old(self).wf(),
        ensures
            final(self).wf(),
            final(self).same_structure(old(self)),
            final(self).pos >= old(self).pos,
            r matches Ok(t) ==> token_ok(t),
            r matches Ok(t) ==> (t.kind is VersionDirective || t.kind is TagDirective || t.kind is ReservedDirective)
                && t.start == old(self).mark,
            old(self).pos < old(self).input.len() ==> ({
                let k = old(self).pos + 1;
                let name = old(self).input@.subrange(k, nonblank_end(old(self).input@, k));
                &&& (name.len() == 0 ==> r is Err)
                &&& (name == seq!['Y', 'A', 'M', 'L'] ==> (r matches Ok(t) ==> t.kind is VersionDirective))
                &&& (name == seq!['T', 'A', 'G'] ==> (r matches Ok(t) ==> (t.kind matches TokenKind::TagDirective(h, _)
                    && h@.len() > 0 && h@.last() == '!')))
                &&& (name.len() > 0 && name != seq!['Y', 'A', 'M', 'L'] && name != seq!['T', 'A', 'G'] ==> (r matches Ok(
                    t,
                ) && t.kind is ReservedDirective))
            }),
    {
        let start = self.mark;
        self.skip();
        let name_start = self.pos;
        while !is_blankz(self.peek())
            invariant
                self.wf(),
                self.same_structure(old(self)),
                self.pos >= old(self).pos,
                name_start <= self.pos,
                old(self).pos < old(self).input.len() ==> name_start == old(self).pos + 1,
                nonblank_end(self.input@, self.pos as int) == nonblank_end(self.input@, name_start as int),
            decreases self.input.len() - self.pos,
        {
            self.skip();
        }
        let name = sub_chars(&self.input, name_start, self.pos);
        let yaml = ['Y', 'A', 'M', 'L'];
        let tag = ['T', 'A', 'G'];
        assert(yaml@ =~= seq!['Y', 'A', 'M', 'L']);
        assert(tag@ =~= seq!['T', 'A', 'G']);
        let kind = if chars_eq(&name, &yaml) {
            self.skip_separator("expected whitespace after %YAML")?;
            let major = self.scan_version_number()?;
            if self.peek() != Some('.') {
                return self.error("expected '.' in %YAML directive");
            }
            self.skip();
            let minor = self.scan_version_number()?;
            TokenKind::VersionDirective(major, minor)
        } else if chars_eq(&name, &tag) {
            self.skip_separator("expected whitespace after %TAG")?;
            let handle = self.scan_tag_handle()?;
            if !(handle.len() > 0 && handle[handle.len() - 1] == '!') {
                return self.error("invalid tag handle in %TAG directive");
            }
            self.skip_separator("expected whitespace after tag handle")?;
            let prefix = self.scan_tag_prefix()?;
            TokenKind::TagDirective(handle, prefix)
        } else if name.len() == 0 {
            return self.error("expected directive name");
        } else {
            // reserved directive, parameters are ignored
            while !is_break(self.peek()) && self.peek().is_some()
                invariant
                    self.wf(),
                    self.same_structure(old(self)),
                    self.pos >= old(self).pos,
                    old(self).pos < old(self).input.len() ==> name_start == old(self).pos + 1,
                    name@ == old(self).input@.subrange(name_start as int, nonblank_end(old(self).input@, name_start as int)),
                    name@ != seq!['Y', 'A', 'M', 'L'],
                    name@ != seq!['T', 'A', 'G'],
                    name@.len() > 0,
                ensures
                    self.spec_peek() is None || spec_is_break(self.spec_peek()) || (self.spec_peek() == Some('#')
                        && spec_is_blank(char_at(self.input@, self.pos - 1))),
                decreases self.input.len() - self.pos,
            {
                if self.peek() == Some('#') && is_blank(self.peek_before()) {
                    break;
                }
                self.skip();
            }
            TokenKind::ReservedDirective
        };
        let end = self.mark;
        self.skip_line_trailer("directive")?;
        Ok(Token { kind, start, end })
    }

    fn skip_separator(&mut self, msg: &str) -> (r: Result<(), Error>)
        requires
            old(self).wf(),
        ensures
            final(self).wf(),
            final(self).same_structure(old(self)),
            final(self).pos >= old(self).pos,
            r is Ok <==> spec_is_blank(old(self).spec_peek()),
            r is Ok ==> final(self).pos == blanks_end(old(self).input@, old(self).pos as int),
    {
        if !is_blank(self.peek()) {
            return self.error(msg);
        }
        proof {
            lemma_blanks_end(self.input@, self.pos as int);
        }
        while is_blank(self.peek())
            invariant
                self.wf(),
                self.same_structure(old(self)),
                self.pos >= old(self).pos,
                self.pos <= blanks_end(self.input@, old(self).pos as int),
                blanks_end(self.input@, self.pos as int) == blanks_end(self.input@, old(self).pos as int),
            decreases self.input.len() - self.pos,
        {
            proof {
                lemma_blanks_end(self.input@, self.pos + 1);
            }
            self.skip();
        }
        Ok(())
    }

    /// Scans the digits of a version number.
    fn scan_version_number(&mut self) -> (r: Result<u32, Error>)
        requires
            old(self).wf(),
        ensures
            final(self).wf(),
            final(self).same_structure(old(self)),
            final(self).pos >= old(self).pos,
            r matches Ok(v) ==> final(self).pos > old(self).pos && v as int == decimal_value(
                final(self).input@.subrange(old(self).pos as int, final(self).pos as int),
            ),
            r is Ok ==> final(self).pos == digits_end(old(self).input@, old(self).pos as int),
            r is Ok <==> digits_end(old(self).input@, old(self).pos as int) > old(self).pos && decimal_value(
                old(self).input@.subrange(old(self).pos as int, digits_end(old(self).input@, old(self).pos as int)),
            ) <= u32::MAX,
    {
        let start = self.pos;
        let mut value: u32 = 0;
        let mut overflow = false;
        while self.pos < self.input.len() && '0' <= self.input[self.pos] && self.input[self.pos] <= '9'
            invariant
                self.wf(),
                self.same_structure(old(self)),
                self.pos >= start,
                start == old(self).pos,
                !overflow ==> value as int == decimal_value(self.input@.subrange(start as int, self.pos as int)),
                overflow ==> decimal_value(self.input@.subrange(start as int, self.pos as int)) > u32::MAX,
                decimal_value(self.input@.subrange(start as int, self.pos as int)) >= 0,
                digits_end(self.input@, self.pos as int) == digits_end(self.input@, start as int),
            decreases self.input.len() - self.pos,
        {
            let c = self.input[self.pos];
            let digit = (c as u32) - ('0' as u32);
            proof {
                let sub = self.input@.subrange(start as int, self.pos + 1);
                assert(sub.drop_last() =~= self.input@.subrange(start as int, self.pos as int));
                assert(sub.last() == c);
            }
            if !overflow {
                if value <= (u32::MAX - digit) / 10 {
                    value = value * 10 + digit;
                } else {
                    overflow = true;
                }
            }
            self.skip();
        }
        if self.pos == start || overflow {
            return self.error("invalid version number in %YAML directive");
        }
        Ok(value)
    }

    /// Scans `!`, `!!` or `!word!`.  For primary tags this returns just `!`
    /// and leaves the rest for the suffix.
    fn scan_tag_handle(&mut self) -> (r: Result<Vec<char>, Error>)
        requires
            old(self).wf(),
        ensures
            final(self).wf(),
            final(self).same_structure(old(self)),
            final(self).pos >= old(self).pos,
            r matches Ok(h) ==> h@.len() > 0 && h@[0] == '!',
            r is Ok <==> old(self).spec_peek() == Some('!'),
            r matches Ok(h) ==> h@ == old(self).input@.subrange(old(self).pos as int, final(self).pos as int),
            r is Ok ==> final(self).pos == ({
                let w = word_end(old(self).input@, old(self).pos + 1);
                if char_at(old(self).input@, w) == Some('!') {
                    w + 1
                } else {
                    old(self).pos + 1
                }
            }),
    {
        let start = self.pos;
        if self.peek() != Some('!') {
            return self.error("expected '!' in tag handle");
        }
        self.skip();
        let word_pos = self.pos;
        let word_mark = self.mark;
        let word_has_content = self.line_has_content;
        let word_indent = self.line_indent;
        let word_tab = self.ws_has_tab;
        while is_word_char(self.peek())
            invariant
                self.wf(),
                self.same_structure(old(self)),
                self.pos >= word_pos,
                word_pos == start + 1,
                start == old(self).pos,
                start < self.input.len(),
                self.input@[start as int] == '!',
                word_end(self.input@, self.pos as int) == word_end(self.input@, word_pos as int),
            decreases self.input.len() - self.pos,
        {
            self.skip();
        }
        if self.peek() == Some('!') {
            self.skip();
        } else if word_pos != self.pos {
            // this was the primary handle followed by a suffix, rewind
            self.pos = word_pos;
            self.mark = word_mark;
            self.line_has_content = word_has_content;
            self.line_indent = word_indent;
            self.ws_has_tab = word_tab;
        }
        let handle = sub_chars(&self.input, start, self.pos);
        Ok(handle)
    }

    fn scan_tag_prefix(&mut self) -> (r: Result<Vec<char>, Error>)
        requires
            old(self).wf(),
        ensures
            final(self).wf(),
            final(self).same_structure(old(self)),
            final(self).pos >= old(self).pos,
            ({
                let bang = old(self).spec_peek() == Some('!');
                let lead = if bang { seq!['!'] } else { Seq::<char>::empty() };
                let run = uri_run(old(self).input@, old(self).pos + if bang { 1int } else { 0 }, false);
                &&& (r is Ok <==> (bang || spec_is_tag_char(old(self).spec_peek())) && run is Some)
                &&& (r matches Ok(p) ==> p@ == lead + run.unwrap().0 && final(self).pos == run.unwrap().1)
            }),
    {
        // a prefix is a local tag prefix (starting with `!`) or a global one
        let first = self.peek();
        if first != Some('!') && !is_tag_char(first) {
            return self.error("invalid tag prefix");
        }
        let mut rv: Vec<char> = Vec::new();
        if first == Some('!') {
            self.read(&mut rv);
        }
        let ghost lead = rv@;
        let ghost k0 = self.pos as int;
        assert(k0 == old(self).pos + if first == Some('!') { 1int } else { 0 });
        while is_uri_char(self.peek())
            invariant
                self.wf(),
                self.same_structure(old(self)),
                self.pos >= old(self).pos,
                self.pos >= k0,
                first == old(self).spec_peek(),
                first == Some('!') || spec_is_tag_char(first),
                k0 == old(self).pos + if first == Some('!') { 1int } else { 0 },
                lead == if first == Some('!') { seq!['!'] } else { Seq::<char>::empty() },
                rv@.len() >= lead.len(),
                rv@.take(lead.len() as int) == lead,
                uri_run(self.input@, k0, false) == after_run(
                    rv@.skip(lead.len() as int),
                    uri_run(self.input@, self.pos as int, false),
                ),
            decreases self.input.len() - self.pos,
        {
            let ghost before = rv@;
            let ghost p = self.pos as int;
            if self.peek() == Some('%') {
                let res = self.scan_uri_escape(&mut rv);
                if res.is_err() {
                    assert(uri_run(self.input@, p, false) is None);
                    assert(uri_run(self.input@, k0, false) is None);
                    assert(self.input@ == old(self).input@);
                    return Err(res.unwrap_err());
                }
                proof {
                    let b = uri_escape_bytes(self.input@, p).unwrap();
                    assert(rv@.skip(lead.len() as int) =~= before.skip(lead.len() as int) + vstd::utf8::decode_utf8(b));
                    assert(rv@.take(lead.len() as int) =~= before.take(lead.len() as int));
                }
            } else {
                self.read(&mut rv);
                proof {
                    assert(rv@.skip(lead.len() as int) =~= before.skip(lead.len() as int) + seq![self.input@[p]]);
                    assert(rv@.take(lead.len() as int) =~= before.take(lead.len() as int));
                }
            }
            proof {
                let d = before.skip(lead.len() as int);
                let rest = uri_run(self.input@, self.pos as int, false);
                match rest {
                    Some(x) => {
                        assert((d + (rv@.skip(lead.len() as int).skip(d.len() as int))) + x.0 =~= d + (rv@.skip(lead.len() as int).skip(d.len() as int) + x.0));
                    },
                    None => {},
                }
            }
        }
        assert(rv@ =~= lead + rv@.skip(lead.len() as int));
        Ok(rv)
    }

    /// Decodes `%XX` escapes.  The bytes must be UTF-8.
    fn scan_uri_escape(&mut self, out: &mut Vec<char>) -> (r: Result<(), Error>)
        requires
            old(self).wf(),
            old(self).spec_peek() == Some('%'),
        ensures
            final(self).wf(),
            final(self).same_structure(old(self)),
            r is Ok ==> final(self).pos > old(self).pos,
            final(self).pos >= old(self).pos,
            r is Ok <==> (uri_escape_bytes(old(self).input@, old(self).pos as int) matches Some(b)
                && vstd::utf8::valid_utf8(b)),
            r is Ok ==> {
                let b = uri_escape_bytes(old(self).input@, old(self).pos as int).unwrap();
                &&& final(out)@ == old(out)@ + vstd::utf8::decode_utf8(b)
                &&& final(self).pos == old(self).pos + 3 * b.len()
            },
            r is Err ==> final(out)@ == old(out)@,
    {
        let mut bytes: Vec<u8> = Vec::new();
        let start = self.pos;
        while self.peek() == Some('%')
            invariant
                self.wf(),
                self.same_structure(old(self)),
                self.pos >= start,
                start == old(self).pos,
                bytes@.len() > 0 ==> self.pos > start,
                self.pos == start + 3 * bytes@.len(),
                out@ == old(out)@,
                uri_escape_bytes(self.input@, start as int) == match uri_escape_bytes(self.input@, self.pos as int) {
                    Some(rest) => Some(bytes@ + rest),
                    None => None::<Seq<u8>>,
                },
            decreases self.input.len() - self.pos,
        {
            // the two characters after `%` are parsed as hexadecimal byte
            // (`from_str_radix` also accepts a leading `+`)
            let a = self.peek_at(1);
            let b = self.peek_at(2);
            let mut byte: Option<u8> = None;
            if a.is_some() && b.is_some() {
                let x = hex_digit_value(a.unwrap());
                let y = hex_digit_value(b.unwrap());
                if x.is_some() && y.is_some() {
                    byte = Some((x.unwrap() * 16 + y.unwrap()) as u8);
                } else if a == Some('+') && y.is_some() {
                    byte = Some(y.unwrap() as u8);
                }
            }
            if byte.is_none() {
                return self.error("invalid URI escape");
            }
            bytes.push(byte.unwrap());
            self.skip_n(3);
        }
        match decode_utf8_chars(&bytes) {
            Some(chars) => {
                push_chars(out, &chars);
                Ok(())
            },
            None => self.error("invalid UTF-8 in URI escape"),
        }
    }

    fn scan_tag(&mut self) -> (r: Result<(Vec<char>, Vec<char>), Error>)
        requires
            old(self).wf(),
        ensures
            final(self).wf(),
            final(self).same_structure(old(self)),
            final(self).pos >= old(self).pos,
            old(self).spec_peek_at(1) == Some('<') ==> ({
                let run = uri_run(old(self).input@, old(self).pos + 2, false);
                &&& (r is Ok <==> (run matches Some(x) && x.0.len() > 0 && char_at(old(self).input@, x.1) == Some('>')))
                &&& (r matches Ok(t) ==> t.0@.len() == 0 && t.1@ == run.unwrap().0 && final(self).pos == run.unwrap().1 + 1)
            }),
            old(self).spec_peek_at(1) != Some('<') ==> ({
                let p = old(self).pos as int;
                let w = word_end(old(self).input@, p + 1);
                let h_end = if char_at(old(self).input@, w) == Some('!') { w + 1 } else { p + 1 };
                let run = uri_run(old(self).input@, h_end, true);
                &&& (r is Ok <==> (old(self).spec_peek() == Some('!') && (run matches Some(x) && (x.0.len() > 0 || h_end == p + 1))))
                &&& (r matches Ok(t) ==> t.0@ == old(self).input@.subrange(p, h_end) && t.1@ == run.unwrap().0
                    && final(self).pos == run.unwrap().1)
            }),
            r is Ok <==> tag_scan_end(old(self).input@, old(self).pos as int) is Some,
            r is Ok ==> final(self).pos == tag_scan_end(old(self).input@, old(self).pos as int).unwrap(),
    {
        if self.peek_at(1) == Some('<') {
            // verbatim tag
            self.skip();
            self.skip();
            let mut suffix: Vec<char> = Vec::new();
            let ghost k0 = self.pos as int;
            while is_uri_char(self.peek())
                invariant
                    self.wf(),
                    self.same_structure(old(self)),
                    self.pos >= old(self).pos,
                    self.pos >= k0,
                    k0 == old(self).pos + 2,
                    old(self).spec_peek_at(1) == Some('<'),
                    uri_run(self.input@, k0, false) == after_run(suffix@, uri_run(self.input@, self.pos as int, false)),
                decreases self.input.len() - self.pos,
            {
                let ghost before = suffix@;
                let ghost p = self.pos as int;
                if self.peek() == Some('%') {
                    let res = self.scan_uri_escape(&mut suffix);
                    if res.is_err() {
                        assert(uri_run(self.input@, p, false) is None);
                        assert(uri_run(self.input@, k0, false) is None);
                        return Err(res.unwrap_err());
                    }
                } else {
                    self.read(&mut suffix);
                }
                proof {
                    let d = suffix@.skip(before.len() as int);
                    assert(suffix@ =~= before + d);
                    let rest = uri_run(self.input@, self.pos as int, false);
                    match rest {
                        Some(x) => {
                            assert((before + d) + x.0 =~= before + (d + x.0));
                        },
                        None => {},
                    }
                }
            }
            if self.peek() != Some('>') || suffix.len() == 0 {
                return self.error("invalid verbatim tag");
            }
            self.skip();
            assert(suffix@ =~= suffix@ + Seq::<char>::empty());
            return Ok((Vec::new(), suffix));
        }
        let handle = self.scan_tag_handle()?;
        let mut suffix: Vec<char> = Vec::new();
        let ghost k0 = self.pos as int;
        while is_tag_char(self.peek())
            invariant
                self.wf(),
                self.same_structure(old(self)),
                self.pos >= old(self).pos,
                self.pos >= k0,
                old(self).spec_peek_at(1) != Some('<'),
                old(self).spec_peek() == Some('!'),
                handle@ == old(self).input@.subrange(old(self).pos as int, k0),
                k0 == ({
                    let w = word_end(old(self).input@, old(self).pos + 1);
                    if char_at(old(self).input@, w) == Some('!') { w + 1 } else { old(self).pos + 1 }
                }),
                uri_run(self.input@, k0, true) == after_run(suffix@, uri_run(self.input@, self.pos as int, true)),
            decreases self.input.len() - self.pos,
        {
            let ghost before = suffix@;
            let ghost p = self.pos as int;
            if self.peek() == Some('%') {
                let res = self.scan_uri_escape(&mut suffix);
                if res.is_err() {
                    assert(uri_run(self.input@, p, true) is None);
                    assert(uri_run(self.input@, k0, true) is None);
                    return Err(res.unwrap_err());
                }
            } else {
                self.read(&mut suffix);
            }
            proof {
                let d = suffix@.skip(before.len() as int);
                assert(suffix@ =~= before + d);
                let rest = uri_run(self.input@, self.pos as int, true);
                match rest {
                    Some(x) => {
                        assert((before + d) + x.0 =~= before + (d + x.0));
                    },
                    None => {},
                }
            }
        }
        assert(suffix@ =~= suffix@ + Seq::<char>::empty());
        if suffix.len() == 0 && !(handle.len() == 1 && handle[0] == '!') {
            return self.error("tag suffix must not be empty");
        }
        Ok((handle, suffix))
    }

    /// Scans an escape sequence of a double-quoted scalar and pushes the
    /// character it stands for.
    fn scan_escape(&mut self, out: &mut Vec<char>) -> (r: Result<(), Error>)
        requires
            old(self).wf(),
            old(self).spec_peek() == Some('\\'),
        ensures
            final(self).wf(),
            final(self).same_structure(old(self)),
            final(self).pos >= old(self).pos,
            final(self).mark.column >= old(self).mark.column,
            escape_valid(old(self).input@, old(self).pos as int) ==> r is Ok,
            r is Ok ==> final(self).pos > old(self).pos,
            r is Ok && simple_escape(old(self).input@[old(self).pos + 1]) is Some
                ==> final(self).pos == old(self).pos + 2
                && final(out)@ == old(out)@.push(simple_escape(old(self).input@[old(self).pos + 1]).unwrap()),
            r is Ok && simple_escape(old(self).input@[old(self).pos + 1]) is None ==> {
                let n = escape_code_len(old(self).input@[old(self).pos + 1]);
                &&& n > 0
                &&& final(self).pos == old(self).pos + 2 + n
                &&& final(out)@.len() == old(out)@.len() + 1
                &&& final(out)@.drop_last() == old(out)@
                &&& final(out)@.last() as int == hex_seq_value(
                    old(self).input@.subrange(old(self).pos + 2, old(self).pos + 2 + n),
                )
            },
    {
        let escape_mark = self.mark;
        self.skip();
        let c = match self.peek() {
            Some(c) => c,
            None => return self.error("unexpected end of stream in escape sequence"),
        };
        self.skip();
        if let Some(e) = escape_char(c) {
            out.push(e);
            return Ok(());
        }
        let len: usize = if c == 'x' {
            2
        } else if c == 'u' {
            4
        } else if c == 'U' {
            8
        } else {
            return Err(syntax_error(escape_mark, "invalid escape sequence"));
        };
        if len > self.input.len() - self.pos {
            return Err(syntax_error(escape_mark, "invalid escape sequence"));
        }
        let code_start = self.pos;
        let mut code: u32 = 0;
        let mut i: usize = 0;
        while i < len
            invariant
                self.wf(),
                self.same_structure(old(self)),
                self.pos == code_start,
                code_start == old(self).pos + 2,
                code_start + len <= self.input.len(),
                len <= 8,
                i <= len,
                code as int == hex_seq_value(self.input@.subrange(code_start as int, code_start + i)),
                code < pow16(i as nat),
                mark_ok(escape_mark),
                self.mark.column >= old(self).mark.column,
                escape_valid(old(self).input@, old(self).pos as int) ==> all_hex(
                    self.input@.subrange(code_start as int, code_start + len),
                ),
                len == escape_code_len(old(self).input@[old(self).pos + 1]),
            decreases len - i,
        {
            proof {
                if escape_valid(old(self).input@, old(self).pos as int) {
                    let digits = self.input@.subrange(code_start as int, code_start + len);
                    assert(digits[i as int] == self.input@[code_start + i]);
                    assert(is_hex_digit(digits[i as int]));
                }
            }
            let d = match hex_digit_value(self.input[code_start + i]) {
                Some(d) => d,
                None => return Err(syntax_error(escape_mark, "invalid escape sequence")),
            };
            proof {
                let sub = self.input@.subrange(code_start as int, code_start + i + 1);
                assert(sub.drop_last() =~= self.input@.subrange(code_start as int, code_start + i));
                lemma_pow16_bound(i as nat);
                assert(code * 16 + d < pow16((i + 1) as nat)) by (nonlinear_arith)
                    requires code < pow16(i as nat), d < 16, pow16((i + 1) as nat) == pow16(i as nat) * 16;
            }
            code = code * 16 + d;
            i = i + 1;
        }
        let ch = match char_from_u32(code) {
            Some(ch) => ch,
            None => return Err(syntax_error(escape_mark, "invalid unicode escape")),
        };
        out.push(ch);
        self.skip_n(len);
        assert(escape_code_len(c) == len);
        assert(old(self).input@[old(self).pos + 1] == c);
        assert(out@.drop_last() =~= old(out)@);
        assert(self.input@ == old(self).input@);
        assert(code as int == hex_seq_value(old(self).input@.subrange(old(self).pos + 2, old(self).pos + 2 + len)));
        assert(out@.last() == ch);
        assert(ch as int == code as int);
        assert(self.pos == old(self).pos + 2 + len);
        Ok(())
    }
}

/// Powers of 16.
pub open spec fn pow16(n: nat) -> int
    decreases n,
{
    if n == 0 {
        1
    } else {
        16 * pow16((n - 1) as nat)
    }
}

proof fn lemma_pow16_bound(n: nat)
    requires
        n <= 7,
    ensures
        pow16(n + 1) == pow16(n) * 16,
        pow16(n + 1) <= 0x1_0000_0000,
{
    reveal_with_fuel(pow16, 9);
}


impl Scanner {
    #[verifier::spinoff_prover]
    #[verifier::rlimit(100)]
    fn scan_block_scalar(&mut self, folded: bool) -> (r: Result<Token, Error>)
        requires
            old(self).wf(),
        ensures
            final(self).wf(),
            final(self).same_structure(old(self)),
            final(self).pos >= old(self).pos,
            r matches Ok(t) ==> token_ok(t),
            r matches Ok(t) ==> t.kind == TokenKind::Scalar(
                if folded {
                    ScalarStyle::Folded
                } else {
                    ScalarStyle::Literal
                },
                t.kind->Scalar_1,
            ) && t.start == old(self).mark,
            old(self).pos < old(self).input.len() ==> ({
                let h = block_header_end(old(self).input@, old(self).pos + 1, false, false, 2);
                &&& (h is None ==> r is Err)
                &&& (h matches Some(e) && !line_trailer_ok(old(self).input@, e) ==> r is Err)
                &&& (h matches Some(e) && line_trailer_ok(old(self).input@, e) && no_tab_or_trailing_space(
                    old(self).input@,
                    line_trailer_end(old(self).input@, e),
                ) ==> r is Ok)
            }),
            r is Ok && old(self).pos < old(self).input.len() ==> exists|body: Seq<char>, tail: Seq<char>|
                (body.len() == 0 || body.last() != '\n') && all_newlines(tail) && r->Ok_0.kind->Scalar_1@
                == #[trigger] chomped_text(body, tail, block_chomping(old(self).input@, old(self).pos as int)),
            r is Ok && old(self).pos < old(self).input.len() ==> exists|lines: Seq<(int, int)>, empties: Seq<nat>, tail: Seq<char>|
                block_lines_ok(old(self).input@, lines, empties) && all_newlines(tail) && (lines.len() > 0 ==> line_breaks(
                    old(self).input@.subrange(
                        line_trailer_end(
                            old(self).input@,
                            block_header_end(old(self).input@, old(self).pos + 1, false, false, 2).unwrap(),
                        ),
                        lines[0].0,
                    ),
                ) == empties[0] + 1) && r->Ok_0.kind->Scalar_1@
                == #[trigger] chomped_text(
                block_body(old(self).input@, lines, empties, folded),
                tail,
                block_chomping(old(self).input@, old(self).pos as int),
            ),
    {
        let start = self.mark;
        self.skip();

        // header: chomping and indentation indicators in any order
        let mut chomping: i8 = 0;
        let mut increment: usize = 0;
        let mut k: usize = 0;
        while k < 2
            invariant
                self.wf(),
                self.same_structure(old(self)),
                self.pos >= old(self).pos,
                increment <= 9,
                mark_ok(start),
                k <= 2,
                chomping == 0 || chomping == 1 || chomping == -1,
                old(self).pos < old(self).input.len() ==> block_header_end(old(self).input@, old(self).pos + 1, false, false, 2)
                    == block_header_end(self.input@, self.pos as int, chomping != 0, increment != 0, (2 - k) as nat),
                old(self).pos < old(self).input.len() ==> block_chomping(old(self).input@, old(self).pos as int)
                    == block_header_chomping(self.input@, self.pos as int, chomping as int, increment != 0, (2 - k) as nat),
            ensures
                old(self).pos < old(self).input.len() ==> block_header_end(old(self).input@, old(self).pos + 1, false, false, 2)
                    == Some(self.pos as int),
                old(self).pos < old(self).input.len() ==> block_chomping(old(self).input@, old(self).pos as int) == chomping as int,
                chomping == 0 || chomping == 1 || chomping == -1,
            decreases 2 - k,
        {
            let c = self.peek();
            if c == Some('+') && chomping == 0 {
                chomping = 1;
                self.skip();
            } else if c == Some('-') && chomping == 0 {
                chomping = -1;
                self.skip();
            } else if c.is_some() && '1' <= c.unwrap() && c.unwrap() <= '9' && increment == 0 {
                increment = ((c.unwrap() as u32) - ('0' as u32)) as usize;
                self.skip();
            } else if c == Some('0') {
                return self.error("block scalar indentation indicator must not be 0");
            } else {
                break;
            }
            k = k + 1;
        }
        self.skip_line_trailer("block scalar header")?;
        let ghost t = self.pos as int;
        let ghost nb = old(self).pos < old(self).input.len() && no_tab_or_trailing_space(self.input@, t);
        assert(old(self).pos < old(self).input.len() ==> t == line_trailer_end(
            old(self).input@,
            block_header_end(old(self).input@, old(self).pos + 1, false, false, 2).unwrap(),
        ));

        let min_indent: usize = if self.indent + 1 > 0 { (self.indent + 1) as usize } else { 0 };
        let mut indent: usize = if increment > 0 {
            (if self.indent > 0 { self.indent as usize } else { 0 }) + increment
        } else {
            0
        };

        let mut string: Vec<char> = Vec::new();
        let mut leading_break: Vec<char> = Vec::new();
        let mut trailing_breaks: Vec<char> = Vec::new();

        if is_break(self.peek()) {
            let ghost at = self.pos as int;
            self.skip_break();
            proof {
                let inp = self.input@;
                let g = inp.subrange(at, self.pos as int);
                lemma_line_breaks_push(Seq::<char>::empty(), inp[at]);
                if self.pos == at + 2 {
                    assert(g =~= Seq::<char>::empty().push(inp[at]).push(inp[at + 1]));
                    lemma_line_breaks_push(Seq::<char>::empty().push(inp[at]), inp[at + 1]);
                } else {
                    assert(g =~= Seq::<char>::empty().push(inp[at]));
                }
            }
        }
        assert(lead_gap_ok(self.input@, t, self.pos as int, 0));

        // determine the indentation from the first non empty line
        if indent == 0 {
            let mut max_leading: usize = 0;
            loop
                invariant_except_break
                    nb ==> (self.mark.column == 0 || self.spec_peek() is None),
                invariant
                    self.wf(),
                    self.same_structure(old(self)),
                    self.pos >= old(self).pos,
                    max_leading <= MAX_INPUT_CHARS,
                    mark_ok(start),
                    self.pos >= t,
                    nb ==> no_tab_or_trailing_space(self.input@, t),
                    nb ==> max_leading == 0,
                    all_newlines(trailing_breaks@),
                    old(self).pos < old(self).input.len() ==> block_chomping(old(self).input@, old(self).pos as int) == chomping as int,
                    string@.len() == 0,
                    leading_break@.len() == 0,
                    lead_gap_ok(self.input@, t, self.pos as int, trailing_breaks@.len()),
                ensures
                    !spec_is_break(self.spec_peek()),
                    all_newlines(trailing_breaks@),
                    lead_gap_ok(self.input@, t, self.pos as int, trailing_breaks@.len()),
                decreases self.input.len() - self.pos,
            {
                let iteration_start = self.pos;
                while self.peek() == Some(' ')
                    invariant
                        self.wf(),
                        self.same_structure(old(self)),
                        self.pos >= iteration_start,
                        iteration_start >= old(self).pos,
                        iteration_start >= t,
                        nb ==> no_tab_or_trailing_space(self.input@, t),
                        nb ==> (self.mark.column == 0 || self.spec_peek() is None || (self.pos - 1 >= t
                            && self.input@[self.pos - 1] == ' ')),
                        lead_gap_ok(self.input@, t, self.pos as int, trailing_breaks@.len()),
                    decreases self.input.len() - self.pos,
                {
                    let ghost at = self.pos as int;
                    self.skip();
                    proof {
                        let inp = self.input@;
                        lemma_line_breaks_push(inp.subrange(t, at), inp[at]);
                        assert(inp.subrange(t, self.pos as int) =~= inp.subrange(t, at).push(inp[at]));
                    }
                }
                if is_break(self.peek()) {
                    proof {
                        if nb && self.mark.column > 0 {
                            assert(self.input@[self.pos - 1] == ' ');
                            assert(char_at(self.input@, self.pos - 1 + 1) == self.spec_peek());
                        }
                    }
                    if self.mark.column > max_leading {
                        max_leading = self.mark.column;
                    }
                    let ghost at = self.pos as int;
                    self.read_break(&mut trailing_breaks);
                    proof {
                        let inp = self.input@;
                        let g0 = inp.subrange(t, at);
                        let g1 = inp.subrange(t, self.pos as int);
                        lemma_line_breaks_push(g0, inp[at]);
                        if self.pos == at + 2 {
                            lemma_line_breaks_push(g0.push(inp[at]), inp[at + 1]);
                            assert(g1 =~= g0.push(inp[at]).push(inp[at + 1]));
                            assert(g0.push(inp[at]).last() == '\r');
                        } else {
                            assert(g1 =~= g0.push(inp[at]));
                            if g0.len() > 0 {
                                assert(g0.last() == inp[at - 1]);
                            }
                        }
                    }
                    continue;
                }
                break;
            }
            let at_end = self.peek().is_none();
            indent = self.mark.column;
            if at_end {
                if max_leading > indent {
                    indent = max_leading;
                }
                // like the reference parser, treat a final line that is
                // not terminated by a line break as if it was.
                if !self.line_has_content && self.mark.column > 0 {
                    trailing_breaks.push('\n');
                }
            }
            if indent < min_indent {
                // the scalar is empty (the next line belongs to the parent)
                if self.peek() == Some('\t') {
                    return self.error("tabs are not allowed as indentation");
                }
                indent = min_indent;
            } else if max_leading > indent && !at_end {
                return self.error(
                    "leading empty lines of a block scalar must not be indented more than the first line",
                );
            }
        } else {
            let ghost p0 = self.pos as int;
            let res = self.scan_block_scalar_breaks(indent, &mut trailing_breaks);
            if res.is_err() {
                assert(!nb);
                return Err(res.unwrap_err());
            }
            proof {
                let inp = self.input@;
                if self.pos < inp.len() {
                    let a = inp.subrange(t, p0);
                    let b = inp.subrange(p0, self.pos as int);
                    assert(p0 < inp.len());
                    if b.len() > 0 {
                        assert(b[0] == inp[p0]);
                        assert(a.last() == inp[p0 - 1]);
                    }
                    lemma_line_breaks_concat(a, b);
                    assert(inp.subrange(t, self.pos as int) =~= a + b);
                    assert(!spec_is_break(Some(inp[self.pos as int])));
                }
            }
        }

        let mut leading_blank = false;
        let ghost mut lines: Seq<(int, int)> = Seq::empty();
        let ghost mut empties: Seq<nat> = Seq::empty();
        assert(block_lines_ok(old(self).input@, lines, empties)) by {
            reveal(block_lines_ok);
        }
        while self.mark.column == indent && self.peek().is_some() && !self.is_document_indicator()
            invariant
                lines.len() == 0 ==> lead_gap_ok(old(self).input@, t, self.pos as int, trailing_breaks@.len()),
                lines.len() > 0 ==> line_breaks(old(self).input@.subrange(t, lines[0].0)) == empties[0] + 1,
                block_lines_ok(old(self).input@, lines, empties),
                string@ == block_body(old(self).input@, lines, empties, folded),
                (lines.len() == 0) == (string@.len() == 0),
                lines.len() > 0 ==> lines.last().1 <= self.pos && leading_blank == starts_blank(
                    line_text(old(self).input@, lines.last()),
                ),
                lines.len() > 0 && lines.last().1 == self.pos ==> self.pos == old(self).input@.len(),
                lines.len() > 0 && lines.last().1 < self.pos ==> line_breaks(
                    old(self).input@.subrange(lines.last().1, self.pos as int),
                ) == trailing_breaks@.len() + 1 && (forall|k: int| lines.last().1 <= k < self.pos
                    ==> spec_is_blank_or_break(Some(#[trigger] old(self).input@[k]))),
                self.wf(),
                self.same_structure(old(self)),
                self.pos >= old(self).pos,
                mark_ok(start),
                self.pos >= t,
                nb ==> no_tab_or_trailing_space(self.input@, t),
                nb == (old(self).pos < old(self).input.len() && no_tab_or_trailing_space(old(self).input@, t)),
                old(self).pos < old(self).input.len() ==> t == line_trailer_end(
                    old(self).input@,
                    block_header_end(old(self).input@, old(self).pos + 1, false, false, 2).unwrap(),
                ),
                old(self).pos < old(self).input.len() ==> block_header_end(old(self).input@, old(self).pos + 1, false, false, 2) is Some,
                old(self).pos < old(self).input.len() ==> block_chomping(old(self).input@, old(self).pos as int) == chomping as int,
                all_newlines(trailing_breaks@),
                string@.len() == 0 || string@.last() != '\n',
                leading_break@ == if string@.len() == 0 { Seq::<char>::empty() } else { seq!['\n'] },
                !spec_is_break(self.spec_peek()),
            decreases self.input.len() - self.pos,
        {
            let iteration_start = self.pos;
            let ghost string_old = string@;
            let ghost tk = trailing_breaks@.len();
            let ghost tb = trailing_breaks@;
            let ghost leading_before = leading_blank;
            let trailing_blank = is_blank(self.peek());
            if folded && leading_break.len() == 1 && leading_break[0] == '\n' && !leading_blank
                && !trailing_blank {
                if trailing_breaks.len() == 0 {
                    string.push(' ');
                }
                leading_break.clear();
            } else {
                push_chars(&mut string, &leading_break);
                leading_break.clear();
            }
            push_chars(&mut string, &trailing_breaks);
            trailing_breaks.clear();
            leading_blank = is_blank(self.peek());
            let ghost string_start = string@;
            proof {
                assert(tb =~= Seq::new(tk, |i: int| '\n'));
            }

            while !is_break(self.peek()) && self.peek().is_some()
                invariant
                    self.wf(),
                    self.same_structure(old(self)),
                    self.pos >= iteration_start,
                    iteration_start >= old(self).pos,
                    iteration_start >= t,
                    nb ==> no_tab_or_trailing_space(self.input@, t),
                    self.pos == iteration_start ==> (self.spec_peek() is Some && !spec_is_break(self.spec_peek())),
                    self.pos > iteration_start ==> string@.len() > 0 && string@.last() != '\n',
                    leading_break@.len() == 0,
                    trailing_breaks@.len() == 0,
                    string@ == string_start + old(self).input@.subrange(iteration_start as int, self.pos as int),
                    forall|k: int| iteration_start <= k < self.pos ==> !spec_is_break(Some(#[trigger] old(self).input@[k])),
                decreases self.input.len() - self.pos,
            {
                let ghost at = self.pos as int;
                self.read(&mut string);
                proof {
                    assert(old(self).input@.subrange(iteration_start as int, self.pos as int) =~= old(self).input@.subrange(
                        iteration_start as int,
                        at,
                    ).push(old(self).input@[at]));
                }
            }
            proof {
                let inp = old(self).input@;
                let line = (iteration_start as int, self.pos as int);
                let text = line_text(inp, line);
                assert(text.len() > 0);
                assert(text[0] == inp[iteration_start as int]);
                lemma_block_line_added(inp, lines, empties, line, tk, folded);
                if lines.len() == 0 {
                    assert(string_start =~= Seq::new(tk, |i: int| '\n'));
                    assert(line_breaks(inp.subrange(t, line.0)) == tk + 1);
                } else {
                    assert(string_start =~= string_old + block_separator(
                        line_text(inp, lines.last()),
                        text,
                        tk,
                        folded,
                    ));
                }
                lines = lines.push(line);
                empties = empties.push(tk);
            }
            if self.peek().is_none() {
                // an unterminated final line counts as terminated
                leading_break.push('\n');
                break;
            }
            let ghost e_line = self.pos as int;
            self.read_break(&mut leading_break);
            assert(leading_break@ =~= seq!['\n']);
            let ghost p1 = self.pos as int;
            let res = self.scan_block_scalar_breaks(indent, &mut trailing_breaks);
            if res.is_err() {
                assert(!nb);
                return Err(res.unwrap_err());
            }
            proof {
                assert forall|i: int| 0 <= i < trailing_breaks@.len() implies #[trigger] trailing_breaks@[i] == '\n' by {
                    assert(trailing_breaks@[i] == trailing_breaks@[i]);
                }
                let inp = old(self).input@;
                let a = inp.subrange(e_line, p1);
                let b = inp.subrange(p1, self.pos as int);
                if p1 == e_line + 2 {
                    assert(a =~= seq!['\r', '\n']);
                    lemma_line_breaks_push(seq!['\r'], '\n');
                    lemma_line_breaks_push(Seq::<char>::empty(), '\r');
                    assert(seq!['\r'] =~= Seq::<char>::empty().push('\r'));
                    assert(seq!['\r', '\n'] =~= seq!['\r'].push('\n'));
                } else {
                    assert(a =~= seq![inp[e_line]]);
                    lemma_line_breaks_push(Seq::<char>::empty(), inp[e_line]);
                    assert(seq![inp[e_line]] =~= Seq::<char>::empty().push(inp[e_line]));
                    if b.len() > 0 {
                        assert(b[0] == inp[p1]);
                    }
                }
                lemma_line_breaks_concat(a, b);
                assert(inp.subrange(e_line, self.pos as int) =~= a + b);
            }
        }

        let ghost body = string@;
        let ghost tail = trailing_breaks@;
        if chomping != -1 {
            push_chars(&mut string, &leading_break);
        }
        if chomping == 1 {
            push_chars(&mut string, &trailing_breaks);
        }
        proof {
            if body.len() == 0 {
                assert(leading_break@ =~= Seq::<char>::empty());
            }
            assert(string@ =~= chomped_text(body, tail, chomping as int));
            assert(block_lines_ok(old(self).input@, lines, empties) && body == block_body(old(self).input@, lines, empties, folded));
        }

        Ok(Token {
            kind: TokenKind::Scalar(if folded { ScalarStyle::Folded } else { ScalarStyle::Literal }, string),
            start,
            end: self.mark,
        })
    }

    /// Returns `true` if the rest of the current line only holds spaces
    /// and tabs.
    fn rest_of_line_is_blank(&self) -> (r: bool)
        requires
            self.pos <= self.input.len(),
        ensures
            r == (blanks_end(self.input@, self.pos as int) >= self.input@.len() || spec_is_break(
                char_at(self.input@, blanks_end(self.input@, self.pos as int)),
            )),
    {
        let mut i = self.pos;
        proof {
            lemma_blanks_end(self.input@, self.pos as int);
        }
        while i < self.input.len()
            invariant
                self.pos <= i <= self.input.len(),
                i <= blanks_end(self.input@, self.pos as int),
                blanks_end(self.input@, i as int) == blanks_end(self.input@, self.pos as int),
            decreases self.input.len() - i,
        {
            let c = self.input[i];
            if c == '\n' || c == '\r' {
                return true;
            }
            if c != ' ' && c != '\t' {
                return false;
            }
            proof {
                lemma_blanks_end(self.input@, i + 1);
            }
            i = i + 1;
        }
        true
    }

    /// Consumes empty lines and the indentation of the next content line.
    fn scan_block_scalar_breaks(&mut self, indent: usize, breaks: &mut Vec<char>) -> (r: Result<(), Error>)
        requires
            old(self).wf(),
        ensures
            final(self).wf(),
            final(self).same_structure(old(self)),
            final(self).pos >= old(self).pos,
            r is Ok ==> !spec_is_break(final(self).spec_peek()),
            r is Err ==> final(self).spec_peek() == Some('\t') && final(self).mark.column < indent,
            indent == 0 ==> r is Ok,
            final(self).mark.line >= old(self).mark.line,
            final(breaks)@.len() == old(breaks)@.len() + (final(self).mark.line - old(self).mark.line),
            final(breaks)@.take(old(breaks)@.len() as int) == old(breaks)@,
            forall|i: int| old(breaks)@.len() <= i < final(breaks)@.len() ==> #[trigger] final(breaks)@[i] == '\n',
            line_breaks(old(self).input@.subrange(old(self).pos as int, final(self).pos as int)) == final(self).mark.line
                - old(self).mark.line,
            forall|k: int| old(self).pos <= k < final(self).pos ==> spec_is_blank_or_break(Some(#[trigger] old(self).input@[k])),
    {
        loop
            invariant
                self.wf(),
                self.same_structure(old(self)),
                self.pos >= old(self).pos,
                self.mark.line >= old(self).mark.line,
                breaks@.len() == old(breaks)@.len() + (self.mark.line - old(self).mark.line),
                breaks@.take(old(breaks)@.len() as int) == old(breaks)@,
                forall|i: int| old(breaks)@.len() <= i < breaks@.len() ==> #[trigger] breaks@[i] == '\n',
                line_breaks(self.input@.subrange(old(self).pos as int, self.pos as int)) == self.mark.line - old(self).mark.line,
                forall|k: int| old(self).pos <= k < self.pos ==> spec_is_blank_or_break(Some(#[trigger] self.input@[k])),
                !(self.pos > old(self).pos && self.pos < self.input@.len() && self.input@[self.pos - 1] == '\r'
                    && self.input@[self.pos as int] == '\n'),
            decreases self.input.len() - self.pos,
        {
            let iteration_start = self.pos;
            while self.mark.column < indent && self.peek() == Some(' ')
                invariant
                    self.wf(),
                    self.same_structure(old(self)),
                    self.pos >= iteration_start,
                    iteration_start >= old(self).pos,
                    self.mark.line >= old(self).mark.line,
                    breaks@.len() == old(breaks)@.len() + (self.mark.line - old(self).mark.line),
                    breaks@.take(old(breaks)@.len() as int) == old(breaks)@,
                    forall|i: int| old(breaks)@.len() <= i < breaks@.len() ==> #[trigger] breaks@[i] == '\n',
                    line_breaks(self.input@.subrange(old(self).pos as int, self.pos as int)) == self.mark.line - old(self).mark.line,
                    forall|k: int| old(self).pos <= k < self.pos ==> spec_is_blank_or_break(Some(#[trigger] self.input@[k])),
                    !(self.pos > old(self).pos && self.pos < self.input@.len() && self.input@[self.pos - 1] == '\r'
                        && self.input@[self.pos as int] == '\n'),
                decreases self.input.len() - self.pos,
            {
                let ghost at = self.pos as int;
                let ghost g0 = self.input@.subrange(old(self).pos as int, at);
                self.skip();
                proof {
                    lemma_line_breaks_push(g0, self.input@[at]);
                    assert(self.input@.subrange(old(self).pos as int, self.pos as int) =~= g0.push(self.input@[at]));
                }
            }
            if self.mark.column < indent && self.peek() == Some('\t') {
                // a less indented line that is not empty ends the scalar,
                // unless the rest of the line is whitespace only.
                if self.rest_of_line_is_blank() {
                    while is_blank(self.peek())
                        invariant
                            self.wf(),
                            self.same_structure(old(self)),
                            self.pos >= iteration_start,
                            iteration_start >= old(self).pos,
                            self.mark.line >= old(self).mark.line,
                            breaks@.len() == old(breaks)@.len() + (self.mark.line - old(self).mark.line),
                            breaks@.take(old(breaks)@.len() as int) == old(breaks)@,
                            forall|i: int| old(breaks)@.len() <= i < breaks@.len() ==> #[trigger] breaks@[i] == '\n',
                            line_breaks(self.input@.subrange(old(self).pos as int, self.pos as int)) == self.mark.line - old(self).mark.line,
                            forall|k: int| old(self).pos <= k < self.pos ==> spec_is_blank_or_break(Some(#[trigger] self.input@[k])),
                            !(self.pos > old(self).pos && self.pos < self.input@.len() && self.input@[self.pos - 1] == '\r'
                                && self.input@[self.pos as int] == '\n'),
                        decreases self.input.len() - self.pos,
                    {
                        let ghost at = self.pos as int;
                        let ghost g0 = self.input@.subrange(old(self).pos as int, at);
                        self.skip();
                        proof {
                            lemma_line_breaks_push(g0, self.input@[at]);
                            assert(self.input@.subrange(old(self).pos as int, self.pos as int) =~= g0.push(self.input@[at]));
                        }
                    }
                } else {
                    return self.error("tabs are not allowed as indentation");
                }
            }
            if !is_break(self.peek()) {
                return Ok(());
            }
            let ghost before = breaks@;
            let ghost at = self.pos as int;
            let ghost g0 = self.input@.subrange(old(self).pos as int, at);
            self.read_break(breaks);
            assert(breaks@.take(old(breaks)@.len() as int) =~= before.take(old(breaks)@.len() as int));
            proof {
                let inp = self.input@;
                let g1 = inp.subrange(old(self).pos as int, self.pos as int);
                lemma_line_breaks_push(g0, inp[at]);
                if self.pos == at + 2 {
                    lemma_line_breaks_push(g0.push(inp[at]), inp[at + 1]);
                    assert(g1 =~= g0.push(inp[at]).push(inp[at + 1]));
                    assert(g0.push(inp[at]).last() == '\r');
                } else {
                    assert(g1 =~= g0.push(inp[at]));
                    if inp[at] == '\n' && g0.len() > 0 {
                        assert(g0.last() == inp[at - 1]);
                    }
                }
            }
        }
    }

    /// Scans a quoted scalar (the scanner is at its opening quote).  A
    /// scalar that ends on its line reads as [`quoted_line`] says.
    fn scan_flow_scalar(&mut self, single: bool) -> (r: Result<Token, Error>)
        requires
            old(self).wf(),
        ensures
            final(self).wf(),
            final(self).same_structure(old(self)),
            final(self).pos >= old(self).pos,
            r matches Ok(t) ==> token_ok(t),
            r matches Ok(t) ==> t.kind == TokenKind::Scalar(
                if single {
                    ScalarStyle::SingleQuoted
                } else {
                    ScalarStyle::DoubleQuoted
                },
                t.kind->Scalar_1,
            ),
            quoted_line(old(self).input@, old(self).pos + 1, single) matches Some((text, close)) ==> {
                &&& r matches Ok(t) && t.kind == TokenKind::Scalar(
                    if single { ScalarStyle::SingleQuoted } else { ScalarStyle::DoubleQuoted },
                    t.kind->Scalar_1,
                ) && t.kind->Scalar_1@ == text
                &&& final(self).pos == close + 1
            },
    {
        let ghost input = self.input@;
        let ghost line = quoted_line(input, old(self).pos + 1, single);
        let ghost simple = line is Some;
        let ghost text = line.unwrap().0;
        let ghost close = line.unwrap().1;
        let start = self.mark;
        self.skip();
        let mut string: Vec<char> = Vec::new();
        let mut leading_break: Vec<char> = Vec::new();
        let mut trailing_breaks: Vec<char> = Vec::new();
        let mut whitespaces: Vec<char> = Vec::new();
        proof {
            if simple {
                assert(string@ + text =~= text);
            }
        }
        loop
            invariant
                self.wf(),
                self.same_structure(old(self)),
                self.pos >= old(self).pos,
                mark_ok(start),
                input == self.input@,
                line == quoted_line(old(self).input@, old(self).pos + 1, single),
                simple == line is Some,
                text == line.unwrap().0,
                close == line.unwrap().1,
                simple ==> {
                    &&& self.mark.column > 0
                    &&& leading_break@.len() == 0
                    &&& trailing_breaks@.len() == 0
                    &&& whitespaces@.len() == 0
                    &&& quoted_line(input, self.pos as int, single) matches Some((rest, c)) && c == close && string@
                        + rest == text
                },
            ensures
                simple ==> self.pos == close && string@ == text,
            decreases self.input.len() - self.pos,
        {
            let iteration_start = self.pos;
            proof {
                if simple {
                    assert(quoted_line(input, self.pos as int, single) is Some);
                    lemma_quoted_line_close(input, self.pos as int, single);
                    assert(self.pos < self.input@.len());
                    assert(self.mark.column > 0);
                }
            }
            if self.is_document_indicator() {
                return self.error("unexpected document marker in quoted scalar");
            }
            if self.peek().is_none() {
                return self.error("unexpected end of stream in quoted scalar");
            }

            let mut leading_blanks = false;
            // non blank characters
            while !is_blank_or_break(self.peek())
                invariant
                    self.wf(),
                    self.same_structure(old(self)),
                    self.pos >= iteration_start,
                    iteration_start >= old(self).pos,
                    input == self.input@,
                    line == quoted_line(old(self).input@, old(self).pos + 1, single),
                    simple == line is Some,
                    text == line.unwrap().0,
                    close == line.unwrap().1,
                line == quoted_line(old(self).input@, old(self).pos + 1, single),
                simple == line is Some,
                text == line.unwrap().0,
                close == line.unwrap().1,
                    simple ==> {
                        &&& self.mark.column > 0
                        &&& !leading_blanks
                        &&& leading_break@.len() == 0
                        &&& trailing_breaks@.len() == 0
                        &&& whitespaces@.len() == 0
                        &&& quoted_line(input, self.pos as int, single) matches Some((rest, c)) && c == close
                            && string@ + rest == text
                        &&& self.pos <= close
                        &&& (self.pos == close <==> closes_at(input, self.pos as int, single))
                    },
                ensures
                    simple ==> {
                        &&& self.mark.column > 0
                        &&& !leading_blanks
                        &&& leading_break@.len() == 0
                        &&& trailing_breaks@.len() == 0
                        &&& whitespaces@.len() == 0
                        &&& quoted_line(input, self.pos as int, single) matches Some((rest, c)) && c == close
                            && string@ + rest == text
                        &&& (self.pos == close || spec_is_blank(self.spec_peek()))
                        &&& (self.pos == close <==> ((single && self.spec_peek() == Some('\''))
                            || (!single && self.spec_peek() == Some('"'))))
                        &&& (self.pos > iteration_start || spec_is_blank(self.spec_peek()) || self.pos == close)
                    },
                decreases self.input.len() - self.pos,
            {
                proof {
                    if simple {
                        lemma_quoted_line_close(input, self.pos as int, single);
                    }
                }
                let c = self.peek();
                if c.is_none() {
                    break;
                }
                let ch = c.unwrap();
                let ghost before = string@;
                let ghost p = self.pos as int;
                if ch == '\'' && single && self.peek_at(1) == Some('\'') {
                    string.push('\'');
                    self.skip();
                    self.skip();
                    proof {
                        if simple {
                            assert(string@ + quoted_line(input, self.pos as int, single).unwrap().0 =~= before
                                + quoted_line(input, p, single).unwrap().0);
                        }
                    }
                } else if ch == '\'' && single {
                    break;
                } else if ch == '"' && !single {
                    break;
                } else if ch == '\\' && !single && is_break(self.peek_at(1)) {
                    proof {
                        if simple {
                            assert(!escape_valid(input, p));
                        }
                    }
                    self.skip();
                    self.skip_break();
                    leading_blanks = true;
                    break;
                } else if ch == '\\' && !single {
                    proof {
                        if simple {
                            assert(escape_valid(input, p));
                        }
                    }
                    self.scan_escape(&mut string)?;
                    proof {
                        if simple {
                            assert(string@ + quoted_line(input, self.pos as int, single).unwrap().0 =~= before
                                + quoted_line(input, p, single).unwrap().0);
                        }
                    }
                } else {
                    self.read(&mut string);
                    proof {
                        if simple {
                            assert(string@ + quoted_line(input, self.pos as int, single).unwrap().0 =~= before
                                + quoted_line(input, p, single).unwrap().0);
                        }
                    }
                }
                proof {
                    if simple {
                        lemma_quoted_line_close(input, self.pos as int, single);
                    }
                }
            }

            let c = self.peek();
            if (c == Some('\'') && single) || (c == Some('"') && !single) {
                break;
            }

            // whitespace and line breaks
            while is_blank_or_break(self.peek())
                invariant
                    self.wf(),
                    self.same_structure(old(self)),
                    self.pos >= iteration_start,
                    iteration_start >= old(self).pos,
                    input == self.input@,
                    line == quoted_line(old(self).input@, old(self).pos + 1, single),
                    simple == line is Some,
                    text == line.unwrap().0,
                    close == line.unwrap().1,
                line == quoted_line(old(self).input@, old(self).pos + 1, single),
                simple == line is Some,
                text == line.unwrap().0,
                close == line.unwrap().1,
                    simple ==> {
                        &&& self.mark.column > 0
                        &&& !leading_blanks
                        &&& leading_break@.len() == 0
                        &&& trailing_breaks@.len() == 0
                        &&& quoted_line(input, self.pos as int, single) matches Some((rest, c)) && c == close
                            && string@ + whitespaces@ + rest == text
                        &&& (self.pos > iteration_start || spec_is_blank(self.spec_peek()))
                    },
                decreases self.input.len() - self.pos,
            {
                let ghost before = whitespaces@;
                let ghost p = self.pos as int;
                proof {
                    if simple {
                        lemma_quoted_line_close(input, self.pos as int, single);
                    }
                }
                if is_blank(self.peek()) {
                    if !leading_blanks {
                        whitespaces.push(self.peek().unwrap());
                    }
                    self.skip();
                    proof {
                        if simple {
                            assert(string@ + whitespaces@ + quoted_line(input, self.pos as int, single).unwrap().0
                                =~= string@ + before + quoted_line(input, p, single).unwrap().0);
                        }
                    }
                } else {
                    if leading_blanks {
                        self.read_break(&mut trailing_breaks);
                    } else {
                        whitespaces.clear();
                        self.read_break(&mut leading_break);
                        leading_blanks = true;
                    }
                }
            }

            if leading_blanks {
                // continuation lines must be indented
                if self.flow_level() == 0 && self.peek().is_some() && (self.line_indent as isize)
                    <= self.indent {
                    return self.error("invalid indentation of quoted scalar continuation");
                }
                if leading_break.len() == 0 {
                    // escaped line break
                    push_chars(&mut string, &trailing_breaks);
                } else if trailing_breaks.len() == 0 {
                    string.push(' ');
                } else {
                    push_chars(&mut string, &trailing_breaks);
                }
                leading_break.clear();
                trailing_breaks.clear();
            } else {
                push_chars(&mut string, &whitespaces);
                whitespaces.clear();
            }
            if self.pos == iteration_start {
                return self.error("unexpected end of stream in quoted scalar");
            }
        }
        self.skip();
        Ok(Token {
            kind: TokenKind::Scalar(if single { ScalarStyle::SingleQuoted } else { ScalarStyle::DoubleQuoted }, string),
            start,
            end: self.mark,
        })
    }

    #[verifier::spinoff_prover]
    #[verifier::rlimit(100)]
    fn scan_plain_scalar(&mut self) -> (r: Result<Token, Error>)
        requires
            old(self).wf(),
        ensures
            final(self).wf(),
            final(self).input == old(self).input,
            final(self).tokens == old(self).tokens,
            final(self).indents == old(self).indents,
            final(self).indent == old(self).indent,
            final(self).flows == old(self).flows,
            final(self).simple_keys == old(self).simple_keys,
            final(self).stream_start_produced == old(self).stream_start_produced,
            final(self).stream_end_produced == old(self).stream_end_produced,
            final(self).pos >= old(self).pos,
            final(self).stale_keys == old(self).stale_keys,
            final(self).possible_keys == old(self).possible_keys,
            final(self).mark.line >= old(self).mark.line,
            r matches Ok(t) ==> token_ok(t),
            old(self).spec_peek() != Some('#') && !old(self).spec_is_document_indicator() && (plain_line(
                old(self).input@,
                old(self).pos as int,
                old(self).flows.len() > 0,
            ) matches Some((e, p)) && p == old(self).input@.len() && blanks_end(old(self).input@, e)
                < old(self).input@.len()) ==> final(self).mark.line > old(self).mark.line,
            old(self).spec_peek() != Some('#') && !old(self).spec_is_document_indicator() ==> (plain_line(
                old(self).input@,
                old(self).pos as int,
                old(self).flows.len() > 0,
            ) matches Some((e, p)) ==> {
                &&& r matches Ok(t) && t.kind == TokenKind::Scalar(ScalarStyle::Plain, t.kind->Scalar_1)
                    && t.kind->Scalar_1@ == old(self).input@.subrange(old(self).pos as int, e)
                &&& final(self).pos == p
            }),
            r is Ok ==> r->Ok_0.kind is Scalar && r->Ok_0.kind->Scalar_0 == ScalarStyle::Plain && exists|runs: Seq<(int, int)>|
                runs_ok(old(self).input@, old(self).pos as int, runs) && #[trigger] runs_text(old(self).input@, runs)
                == r->Ok_0.kind->Scalar_1@ && (runs.last().1 == old(self).input@.len() || runs.last().1 == old(self).pos
                || plain_stop(old(self).input@, runs.last().1, old(self).flows@.len() > 0)),
    {
        let start = self.mark;
        let mut end = self.mark;
        let min_indent: isize = self.indent + 1;
        let in_flow = self.flow_level() > 0;
        let mut string: Vec<char> = Vec::new();
        let mut leading_break: Vec<char> = Vec::new();
        let mut trailing_breaks: Vec<char> = Vec::new();
        let mut whitespaces: Vec<char> = Vec::new();
        let mut leading_blanks = false;

        let ghost inp = self.input@;
        let ghost opos = self.pos as int;
        let ghost goal = plain_line(inp, opos, in_flow);
        let ghost track = self.spec_peek() != Some('#') && !self.spec_is_document_indicator() && goal is Some;
        // the start of the last run that was read, and whether the scalar
        // is complete and only blank lines are left
        let ghost mut k_cur: int = opos;
        let ghost mut first = true;
        let ghost mut done = false;
        let ghost mut runs: Seq<(int, int)> = seq![(opos, opos)];
        proof {
            lemma_runs_ok_start(inp, opos);
        }
        let ghost mut ran = false;

        loop
            invariant_except_break
                track && first ==> {
                    &&& !done
                    &&& self.pos == opos && k_cur == opos
                    &&& self.spec_peek() != Some('#') && !self.spec_is_document_indicator()
                    &&& string@.len() == 0 && whitespaces@.len() == 0 && !leading_blanks
                },
                track && !first && !done ==> {
                    let e = run_end(inp, k_cur, in_flow);
                    &&& opos <= k_cur <= e < self.pos < inp.len()
                    &&& goal == plain_line(inp, k_cur, in_flow)
                    &&& self.pos == blanks_end(inp, e)
                    &&& !spec_is_break(Some(inp[self.pos as int]))
                    &&& self.mark.column > 0
                    &&& string@ == inp.subrange(opos, e)
                    &&& whitespaces@ == inp.subrange(e, self.pos as int)
                    &&& !leading_blanks
                },
                track && done ==> {
                    &&& !first
                    &&& self.pos == inp.len()
                    &&& goal matches Some((e, p)) && p == inp.len() && string@ == inp.subrange(opos, e)
                    &&& (goal matches Some((e, p)) && blanks_end(inp, e) < inp.len()) ==> leading_blanks
                },
            invariant
                self.wf(),
                self.same_structure(old(self)),
                self.pos >= old(self).pos,
                mark_ok(start),
                mark_ok(end),
                self.mark.line >= old(self).mark.line,
                leading_blanks ==> self.mark.line > old(self).mark.line,
                inp == self.input@,
                opos == old(self).pos,
                in_flow == (self.flows.len() > 0),
                goal == plain_line(inp, opos, in_flow),
                track == (old(self).spec_peek() != Some('#') && !old(self).spec_is_document_indicator()
                    && goal is Some),
                runs_ok(inp, opos, runs),
                runs.len() > 0 && 0 <= runs.last().0 <= runs.last().1 <= inp.len(),
                runs.last().1 <= self.pos,
                string@ == runs_text(inp, runs),
                forall|k: int| runs.last().1 <= k < self.pos ==> spec_is_blank_or_break(Some(#[trigger] inp[k])),
                !leading_blanks ==> whitespaces@ == inp.subrange(runs.last().1, self.pos as int) && line_breaks(inp.subrange(runs.last().1, self.pos as int)) == 0 && trailing_breaks@.len() == 0,
                leading_blanks ==> whitespaces@.len() == 0 && line_breaks(inp.subrange(runs.last().1, self.pos as int)) >= 1 && trailing_breaks@ == Seq::new(
                    (line_breaks(inp.subrange(runs.last().1, self.pos as int)) - 1) as nat,
                    |i: int| '\n',
                ),
                !(self.pos > runs.last().1 && self.pos < inp.len() && inp[self.pos - 1] == '\r' && inp[self.pos as int]
                    == '\n'),
                ran ==> runs.last().1 == inp.len() || plain_stop(inp, runs.last().1, in_flow),
                !ran ==> runs == seq![(opos, opos)],
            ensures
                runs_ok(inp, opos, runs),
                runs.len() > 0 && 0 <= runs.last().0 <= runs.last().1 <= inp.len(),
                string@ == runs_text(inp, runs),
                ran ==> runs.last().1 == inp.len() || plain_stop(inp, runs.last().1, in_flow),
                !ran ==> runs == seq![(opos, opos)],
                track ==> (goal matches Some((e, p)) && string@ == inp.subrange(opos, e) && self.pos == p),
                track && (goal matches Some((e, p)) && p == inp.len() && blanks_end(inp, e) < inp.len())
                    ==> leading_blanks,
            decreases self.input.len() - self.pos,
        {
            let iteration_start = self.pos;
            proof {
                if track && !first && !done {
                    lemma_run_end(inp, k_cur, in_flow);
                }
            }
            if self.is_document_indicator() || self.peek() == Some('#') {
                proof {
                    if track && !first && !done {
                        lemma_blanks_end(inp, run_end(inp, k_cur, in_flow));
                    }
                }
                break;
            }

            let run_start = self.pos;
            let ghost string_before = string@;
            let ghost whitespaces_before = whitespaces@;
            let ghost leading_before = leading_blanks;
            let ghost runs_before = runs;
            while self.peek().is_some()
                invariant
                    opos == old(self).pos,
                    runs_ok(inp, opos, runs),
                    runs.len() > 0 && 0 <= runs.last().0 <= runs.last().1 <= inp.len(),
                    runs.last().1 <= self.pos,
                    string@ == runs_text(inp, runs),
                    forall|k: int| runs.last().1 <= k < self.pos ==> spec_is_blank_or_break(Some(#[trigger] inp[k])),
                    !leading_blanks ==> whitespaces@ == inp.subrange(runs.last().1, self.pos as int) && line_breaks(inp.subrange(runs.last().1, self.pos as int)) == 0 && trailing_breaks@.len() == 0,
                    leading_blanks ==> whitespaces@.len() == 0 && line_breaks(inp.subrange(runs.last().1, self.pos as int)) >= 1 && trailing_breaks@ == Seq::new(
                        (line_breaks(inp.subrange(runs.last().1, self.pos as int)) - 1) as nat,
                        |i: int| '\n',
                    ),
                    !(self.pos > runs.last().1 && self.pos < inp.len() && inp[self.pos - 1] == '\r' && inp[self.pos as int]
                        == '\n'),
                    self.pos == run_start ==> runs == runs_before,
                    self.pos > run_start ==> runs.last().1 == self.pos,
                    self.wf(),
                    self.same_structure(old(self)),
                    self.pos >= run_start,
                    run_start == iteration_start,
                    iteration_start >= old(self).pos,
                    inp == self.input@,
                    self.mark.line >= old(self).mark.line,
                    leading_blanks ==> self.mark.line > old(self).mark.line,
                    run_end(inp, run_start as int, in_flow) == run_end(inp, self.pos as int, in_flow),
                    self.pos == run_start ==> string@ == string_before && whitespaces@ == whitespaces_before,
                    self.pos > run_start && !leading_before ==> string@ == string_before + whitespaces_before
                        + inp.subrange(run_start as int, self.pos as int) && whitespaces@.len() == 0,
                    self.pos > run_start ==> !leading_blanks,
                    track && !done ==> !leading_before,
                    self.pos == run_start ==> leading_blanks == leading_before,
                ensures
                    runs_ok(inp, opos, runs),
                    runs.len() > 0 && 0 <= runs.last().0 <= runs.last().1 <= inp.len(),
                    runs.last().1 <= self.pos,
                    string@ == runs_text(inp, runs),
                    forall|k: int| runs.last().1 <= k < self.pos ==> spec_is_blank_or_break(Some(#[trigger] inp[k])),
                    !leading_blanks ==> whitespaces@ == inp.subrange(runs.last().1, self.pos as int) && line_breaks(inp.subrange(runs.last().1, self.pos as int)) == 0 && trailing_breaks@.len() == 0,
                    leading_blanks ==> whitespaces@.len() == 0 && line_breaks(inp.subrange(runs.last().1, self.pos as int)) >= 1 && trailing_breaks@ == Seq::new(
                        (line_breaks(inp.subrange(runs.last().1, self.pos as int)) - 1) as nat,
                        |i: int| '\n',
                    ),
                    !(self.pos > runs.last().1 && self.pos < inp.len() && inp[self.pos - 1] == '\r' && inp[self.pos as int]
                        == '\n'),
                    self.pos == run_start ==> runs == runs_before,
                    self.pos > run_start ==> runs.last().1 == self.pos,
                    self.wf(),
                    self.same_structure(old(self)),
                    self.pos >= run_start,
                    inp == self.input@,
                    self.mark.line >= old(self).mark.line,
                    leading_blanks ==> self.mark.line > old(self).mark.line,
                    self.pos == run_end(inp, run_start as int, in_flow),
                    self.pos == run_start ==> string@ == string_before && whitespaces@ == whitespaces_before,
                    self.pos > run_start && !leading_before ==> string@ == string_before + whitespaces_before
                        + inp.subrange(run_start as int, self.pos as int) && whitespaces@.len() == 0,
                    self.pos > run_start ==> !leading_blanks,
                    self.pos == run_start ==> leading_blanks == leading_before,
                decreases self.input.len() - self.pos,
            {
                let c = self.peek().unwrap();
                if c == ' ' || c == '\t' || c == '\n' || c == '\r' {
                    break;
                }
                if c == ':' {
                    let next = self.peek_at(1);
                    if is_blankz(next) || (in_flow && is_flow_indicator(next)) {
                        break;
                    }
                }
                if in_flow && is_flow_indicator(Some(c)) {
                    break;
                }
                let ghost at = self.pos as int;
                let ghost gap_start = runs.last().1;
                let ghost string_at = string@;
                if run_start == self.pos {
                    // joining whitespace before the run
                    if leading_blanks {
                        if trailing_breaks.len() == 0 {
                            string.push(' ');
                            proof {
                                assert(line_breaks(inp.subrange(gap_start, at)) == 1);
                            }
                        } else {
                            push_chars(&mut string, &trailing_breaks);
                        }
                        leading_break.clear();
                        trailing_breaks.clear();
                        leading_blanks = false;
                    } else {
                        push_chars(&mut string, &whitespaces);
                        whitespaces.clear();
                    }
                    proof {
                        if gap_start < at {
                            assert(string@ =~= string_at + folded_gap(inp.subrange(gap_start, at)));
                        } else {
                            assert(string@ =~= string_at);
                        }
                    }
                }
                self.read(&mut string);
                proof {
                    let gap = inp.subrange(gap_start, at);
                    assert(inp.subrange(at, at + 1) =~= seq![inp[at]]);
                    lemma_runs_ok_grow(inp, opos, runs, at);
                    if gap_start == at {
                        lemma_runs_text_extend(inp, runs, at + 1);
                        assert(string@ =~= string_at + inp.subrange(at, at + 1));
                        runs = runs.update(runs.len() - 1, (runs.last().0, at + 1));
                    } else {
                        lemma_runs_text_push(inp, runs, (at, at + 1));
                        assert(string@ =~= string_at + folded_gap(gap) + inp.subrange(at, at + 1));
                        runs = runs.push((at, at + 1));
                    }
                    assert(!plain_stop(inp, at, in_flow));
                    assert(inp.subrange(run_start as int, self.pos as int) =~= inp.subrange(run_start as int, at).push(
                        inp[at],
                    ));
                }
            }
            if run_start != self.pos {
                end = self.mark;
            }
            proof {
                lemma_run_end(inp, run_start as int, in_flow);
                ran = true;
            }
            proof {
                if track && !done {
                    if first {
                        k_cur = opos;
                        assert(string@ =~= inp.subrange(opos, self.pos as int));
                    } else if self.pos == run_start {
                        // an empty run after the blanks ends the scalar
                        lemma_blanks_end(inp, run_end(inp, k_cur, in_flow));
                    } else {
                        // the scalar goes on with the run at the end of the blanks
                        let e = run_end(inp, k_cur, in_flow);
                        lemma_blanks_end(inp, e);
                        assert(goal == plain_line(inp, run_start as int, in_flow));
                        assert(string@ =~= inp.subrange(opos, self.pos as int));
                        k_cur = run_start as int;
                    }
                    first = false;
                }
            }

            if !is_blank_or_break(self.peek()) {
                proof {
                    if track && !done {
                        if self.pos > run_start || self.pos == opos {
                            lemma_blanks_end(inp, self.pos as int);
                        } else {
                            lemma_blanks_end(inp, run_end(inp, k_cur, in_flow));
                        }
                    }
                }
                break;
            }

            let ghost e_cur = self.pos as int;
            proof {
                if track && !done {
                    lemma_run_end(inp, k_cur, in_flow);
                    lemma_blanks_end(inp, e_cur);
                }
            }
            while is_blank_or_break(self.peek())
                invariant
                    self.wf(),
                    self.same_structure(old(self)),
                    self.pos >= iteration_start,
                    iteration_start >= old(self).pos,
                    inp == self.input@,
                    self.mark.line >= old(self).mark.line,
                    leading_blanks ==> self.mark.line > old(self).mark.line,
                    track ==> goal is Some,
                    track && !done ==> {
                        &&& spec_is_blank_or_break(char_at(inp, e_cur))
                        &&& e_cur == run_end(inp, k_cur, in_flow)
                        &&& goal == plain_line(inp, k_cur, in_flow)
                        &&& opos <= k_cur <= e_cur <= self.pos
                        &&& iteration_start <= e_cur
                        &&& string@ == inp.subrange(opos, e_cur)
                        &&& !leading_blanks ==> self.pos <= blanks_end(inp, e_cur) && whitespaces@ == inp.subrange(
                            e_cur,
                            self.pos as int,
                        ) && (self.pos > e_cur ==> self.mark.column > 0)
                        &&& leading_blanks ==> {
                            let b = blanks_end(inp, e_cur);
                            &&& b < inp.len() && spec_is_break(Some(inp[b])) && blank_rest(inp, b)
                            &&& b < self.pos
                        }
                    },
                    track && done ==> self.pos == inp.len(),
                    opos == old(self).pos,
                    runs_ok(inp, opos, runs),
                    runs.len() > 0 && 0 <= runs.last().0 <= runs.last().1 <= inp.len(),
                    runs.last().1 <= self.pos,
                    string@ == runs_text(inp, runs),
                    forall|k: int| runs.last().1 <= k < self.pos ==> spec_is_blank_or_break(Some(#[trigger] inp[k])),
                    !leading_blanks ==> whitespaces@ == inp.subrange(runs.last().1, self.pos as int) && line_breaks(inp.subrange(runs.last().1, self.pos as int)) == 0 && trailing_breaks@.len() == 0,
                    leading_blanks ==> whitespaces@.len() == 0 && line_breaks(inp.subrange(runs.last().1, self.pos as int)) >= 1 && trailing_breaks@ == Seq::new(
                        (line_breaks(inp.subrange(runs.last().1, self.pos as int)) - 1) as nat,
                        |i: int| '\n',
                    ),
                    !(self.pos > runs.last().1 && self.pos < inp.len() && inp[self.pos - 1] == '\r' && inp[self.pos as int]
                        == '\n'),
                decreases self.input.len() - self.pos,
            {
                let ghost at = self.pos as int;
                let ghost g0 = inp.subrange(runs.last().1, at);
                proof {
                    if track && !done {
                        lemma_blanks_end(inp, e_cur);
                    }
                }
                if is_blank(self.peek()) {
                    if !leading_blanks {
                        whitespaces.push(self.peek().unwrap());
                    }
                    self.skip();
                    proof {
                        if track && !done && !leading_blanks {
                            assert(whitespaces@ =~= inp.subrange(e_cur, self.pos as int));
                        }
                        lemma_line_breaks_push(g0, inp[at]);
                        assert(inp.subrange(runs.last().1, self.pos as int) =~= g0.push(inp[at]));
                        if !leading_blanks {
                            assert(whitespaces@ =~= inp.subrange(runs.last().1, self.pos as int));
                        }
                    }
                } else {
                    proof {
                        if track && !done && !leading_blanks {
                            assert(at == blanks_end(inp, e_cur));
                            assert(blank_rest(inp, at));
                        }
                    }
                    let ghost tb = trailing_breaks@;
                    if leading_blanks {
                        self.read_break(&mut trailing_breaks);
                    } else {
                        whitespaces.clear();
                        self.read_break(&mut leading_break);
                        leading_blanks = true;
                    }
                    proof {
                        let g1 = inp.subrange(runs.last().1, self.pos as int);
                        lemma_line_breaks_push(g0, inp[at]);
                        if self.pos == at + 2 {
                            lemma_line_breaks_push(g0.push(inp[at]), inp[at + 1]);
                            assert(g1 =~= g0.push(inp[at]).push(inp[at + 1]));
                            assert(g0.push(inp[at]).last() == '\r');
                        } else {
                            assert(g1 =~= g0.push(inp[at]));
                            if inp[at] == '\n' && g0.len() > 0 {
                                assert(g0.last() == inp[at - 1]);
                            }
                        }
                        assert(line_breaks(g1) == line_breaks(g0) + 1);
                        assert(trailing_breaks@ =~= Seq::new((line_breaks(g1) - 1) as nat, |i: int| '\n'));
                    }
                }
                proof {
                    if track && !done && leading_blanks {
                        assert(spec_is_blank_or_break(char_at(inp, at)));
                    }
                }
            }
            proof {
                if track && !done {
                    if leading_blanks {
                        let b = blanks_end(inp, e_cur);
                        if self.pos < inp.len() {
                            assert(spec_is_blank_or_break(char_at(inp, self.pos as int)));
                        }
                        done = true;
                    } else {
                        lemma_blanks_end(inp, e_cur);
                        assert(self.pos == blanks_end(inp, e_cur));
                        assert(self.pos > e_cur);
                        if self.pos >= inp.len() {
                            done = true;
                        }
                    }
                }
            }

            // continuation lines in block context must be indented more
            // than the parent block (tabs do not count as indentation)
            if leading_blanks && !in_flow && (self.line_indent as isize) < min_indent {
                break;
            }
            if self.pos == iteration_start {
                break;
            }
        }

        if leading_blanks {
            self.simple_key_allowed = true;
        }
        proof {
            assert(runs_ok(inp, opos, runs) && runs_text(inp, runs) == string@);
            assert(runs.last().1 == inp.len() || runs.last().1 == opos || plain_stop(inp, runs.last().1, in_flow));
        }
        Ok(Token { kind: TokenKind::Scalar(ScalarStyle::Plain, string), start, end })
    }
}

} // verus!
