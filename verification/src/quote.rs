//! Decides how scalars are written.
use vstd::prelude::*;

use crate::resolve::{is_plain_str, is_plain_string, is_yaml11_implicit, spec_timestamp, starts_with_chars, yaml_tag_prefix, Version};
use crate::scanner::{all_hex, escape_code_len, escape_valid, hex_seq_value, hex_value, is_hex_digit, pow16, quoted_line, simple_escape};
use crate::text::{decimal, decimal_chars, push_chars, str_chars, string_push_chars};

verus! {

/// The longest simple (implicit) key the YAML specification allows.
pub const MAX_SIMPLE_KEY_LEN: usize = 1024;

/// A character that is printable in YAML.
pub open spec fn spec_printable(c: char) -> bool {
    c == '\t' || c == '\n' || c == '\r' || ('\u{20}' <= c <= '\u{7e}') || c == '\u{85}' || ('\u{a0}' <= c
        <= '\u{d7ff}') || ('\u{e000}' <= c <= '\u{fffd}') || ('\u{10000}' <= c <= '\u{10ffff}')
}

/// A character that can only be written escaped in a double-quoted scalar:
/// non-printable characters, line breaks, tabs and the byte order mark.
pub open spec fn spec_needs_escape(c: char) -> bool {
    !spec_printable(c) || c == '\n' || c == '\r' || c == '\t' || c == '\u{85}' || c == '\u{2028}' || c
        == '\u{2029}' || c == '\u{feff}'
}

/// Returns `true` if the character is printable in YAML.
fn is_printable(c: char) -> (r: bool)
    ensures
        r == spec_printable(c),
{
    c == '\t' || c == '\n' || c == '\r' || ('\u{20}' <= c && c <= '\u{7e}') || c == '\u{85}' || ('\u{a0}'
        <= c && c <= '\u{d7ff}') || ('\u{e000}' <= c && c <= '\u{fffd}') || ('\u{10000}' <= c && c
        <= '\u{10ffff}')
}

/// Returns `true` if the character can only be written escaped in a
/// double-quoted scalar.
fn needs_escape(c: char) -> (r: bool)
    ensures
        r == spec_needs_escape(c),
{
    !is_printable(c) || c == '\n' || c == '\r' || c == '\t' || c == '\u{85}' || c == '\u{2028}' || c
        == '\u{2029}' || c == '\u{feff}'
}

/// A string that can be written as literal block scalar.
pub open spec fn spec_block_safe(s: Seq<char>) -> bool {
    forall|i: int|
        0 <= i < s.len() ==> spec_printable(#[trigger] s[i]) && !(s[i] == '\r' || s[i] == '\u{85}' || s[i]
            == '\u{2028}' || s[i] == '\u{2029}' || s[i] == '\u{feff}')
}

/// Returns `true` if the string can be written as literal block scalar.
fn is_block_safe(s: &[char]) -> (r: bool)
    ensures
        r == spec_block_safe(s@),
{
    let mut i: usize = 0;
    while i < s.len()
        invariant
            i <= s@.len(),
            spec_block_safe(s@.take(i as int)),
        decreases s@.len() - i,
    {
        let c = s[i];
        if !(is_printable(c) && !(c == '\r' || c == '\u{85}' || c == '\u{2028}' || c == '\u{2029}' || c
            == '\u{feff}')) {
            assert(!spec_block_safe(s@)) by {
                assert(s@[i as int] == c);
            }
            return false;
        }
        assert(spec_block_safe(s@.take(i + 1))) by {
            assert forall|k: int| 0 <= k < i + 1 implies #[trigger] s@.take(i + 1)[k] == s@[k] by {}
        }
        i = i + 1;
    }
    assert(s@.take(s@.len() as int) =~= s@);
    true
}

/// Whether no character needs an escape.
pub open spec fn no_escapes(s: Seq<char>) -> bool {
    forall|i: int| 0 <= i < s.len() ==> !spec_needs_escape(#[trigger] s[i])
}

fn has_no_escapes(s: &[char]) -> (r: bool)
    ensures
        r == no_escapes(s@),
{
    let mut i: usize = 0;
    while i < s.len()
        invariant
            i <= s@.len(),
            forall|k: int| 0 <= k < i ==> !spec_needs_escape(#[trigger] s@[k]),
        decreases s@.len() - i,
    {
        if needs_escape(s[i]) {
            return false;
        }
        i = i + 1;
    }
    true
}

/// Characters that start something else than a plain scalar.
pub open spec fn is_flow_or_node_indicator(c: char) -> bool {
    c == ',' || c == '[' || c == ']' || c == '{' || c == '}' || c == '#' || c == '&' || c == '*' || c == '!'
        || c == '|' || c == '>' || c == '\'' || c == '"' || c == '%' || c == '@' || c == '`'
}

/// Whether `pair` occurs in `s`.
pub open spec fn contains_pair(s: Seq<char>, a: char, b: char) -> bool {
    exists|i: int| 0 <= i < s.len() - 1 && #[trigger] s[i] == a && s[i + 1] == b
}

fn has_pair(s: &[char], a: char, b: char) -> (r: bool)
    ensures
        r == contains_pair(s@, a, b),
{
    let mut i: usize = 0;
    while i < s.len() && i + 1 < s.len()
        invariant
            i <= s@.len(),
            forall|k: int| 0 <= k < i && k < s@.len() - 1 ==> !(#[trigger] s@[k] == a && s@[k + 1] == b),
        decreases s@.len() - i,
    {
        if s[i] == a && s[i + 1] == b {
            return true;
        }
        i = i + 1;
    }
    false
}

/// A document marker (`---` or `...` alone or followed by a space).
pub open spec fn is_document_marker(s: Seq<char>) -> bool {
    s.len() >= 3 && ((s[0] == '-' && s[1] == '-' && s[2] == '-') || (s[0] == '.' && s[1] == '.' && s[2] == '.'))
        && (s.len() == 3 || s[3] == ' ')
}

/// A string that can be written as plain scalar: it must not contain
/// anything that has a meaning in YAML, and it must be read as string by
/// readers of YAML 1.2 and, if the compatibility version is YAML 1.1, by
/// readers of YAML 1.1.
pub open spec fn spec_plain_safe(s: Seq<char>, compat: Version) -> bool {
    &&& s.len() > 0
    &&& s[0] != ' ' && s.last() != ' '
    &&& !((s[0] == '-' || s[0] == '?' || s[0] == ':') && (s.len() == 1 || s[1] == ' '))
    &&& !is_flow_or_node_indicator(s[0])
    &&& no_escapes(s)
    &&& !contains_pair(s, ':', ' ') && s.last() != ':' && !contains_pair(s, ' ', '#')
    &&& !is_document_marker(s)
    &&& s != "<<"@
    &&& is_plain_string(s, Version::V1_2)
    &&& compat == Version::V1_1 ==> is_plain_string(s, Version::V1_1) && !(s == "="@ || spec_timestamp(s) is Some)
}

/// A string that can be written plain is read back as that same string:
/// by readers of YAML 1.2 and, where YAML 1.1 compatibility is asked for,
/// by readers of YAML 1.1 too.
pub proof fn lemma_plain_safe_reads_back(s: Seq<char>, compat: Version)
    requires
        spec_plain_safe(s, compat),
    ensures
        is_plain_string(s, Version::V1_2),
        compat == Version::V1_1 ==> is_plain_string(s, Version::V1_1),
{
}

/// Returns `true` if a string can be written as plain scalar.
pub fn is_plain_safe(s: &str, compat: Version) -> (r: bool)
    ensures
        r == spec_plain_safe(s@, compat),
{
    let c = str_chars(s);
    let n = c.len();
    if n == 0 {
        return false;
    }
    if c[0] == ' ' || c[n - 1] == ' ' {
        return false;
    }
    let first = c[0];
    if first == '-' || first == '?' || first == ':' {
        if n == 1 || c[1] == ' ' {
            return false;
        }
    }
    if first == ',' || first == '[' || first == ']' || first == '{' || first == '}' || first == '#' || first
        == '&' || first == '*' || first == '!' || first == '|' || first == '>' || first == '\'' || first
        == '"' || first == '%' || first == '@' || first == '`' {
        return false;
    }
    if !has_no_escapes(&c) {
        return false;
    }
    if has_pair(&c, ':', ' ') || c[n - 1] == ':' || has_pair(&c, ' ', '#') {
        return false;
    }
    if n >= 3 && ((c[0] == '-' && c[1] == '-' && c[2] == '-') || (c[0] == '.' && c[1] == '.' && c[2]
        == '.')) && (n == 3 || c[3] == ' ') {
        return false;
    }
    if n == 2 && c[0] == '<' && c[1] == '<' {
        assert(c@ =~= "<<"@) by {
            reveal_strlit("<<");
        }
        return false;
    }
    assert(c@ != "<<"@) by {
        reveal_strlit("<<");
        if c@ == "<<"@ {
            assert(c@.len() == 2 && c@[0] == '<' && c@[1] == '<');
        }
    }
    if !is_plain_str(&c, Version::V1_2) {
        return false;
    }
    if compat == Version::V1_1 && (!is_plain_str(&c, Version::V1_1) || is_yaml11_implicit(&c)) {
        return false;
    }
    true
}

/// Returns `true` if a string can be written single-quoted.
pub fn is_single_quote_safe(s: &str) -> (r: bool)
    ensures
        r == no_escapes(s@),
{
    has_no_escapes(&str_chars(s))
}

/// The body of a single-quoted scalar: quotes are doubled.
pub open spec fn single_quoted_body(s: Seq<char>) -> Seq<char>
    decreases s.len(),
{
    if s.len() == 0 {
        Seq::empty()
    } else {
        single_quoted_body(s.drop_last()) + if s.last() == '\'' {
            seq!['\'', '\'']
        } else {
            seq![s.last()]
        }
    }
}

/// Writes a single-quoted scalar.
pub fn write_single_quoted(out: &mut String, s: &str)
    ensures
        final(out)@ == old(out)@ + seq!['\''] + single_quoted_body(s@) + seq!['\''],
{
    let c = str_chars(s);
    let mut buf: Vec<char> = Vec::new();
    buf.push('\'');
    let mut i: usize = 0;
    while i < c.len()
        invariant
            i <= c@.len(),
            buf@ == seq!['\''] + single_quoted_body(c@.take(i as int)),
        decreases c@.len() - i,
    {
        assert(c@.take(i + 1).drop_last() =~= c@.take(i as int));
        if c[i] == '\'' {
            buf.push('\'');
            buf.push('\'');
        } else {
            buf.push(c[i]);
        }
        assert(buf@ =~= seq!['\''] + single_quoted_body(c@.take(i + 1)));
        i = i + 1;
    }
    assert(c@.take(c@.len() as int) =~= c@);
    buf.push('\'');
    string_push_chars(out, &buf);
    assert(out@ =~= old(out)@ + seq!['\''] + single_quoted_body(s@) + seq!['\'']);
}

/// The lowercase hex digits of `n`, zero padded to `width`.
pub open spec fn hex_lower(n: nat, width: nat) -> Seq<char>
    decreases width,
{
    if width == 0 {
        Seq::empty()
    } else {
        let d = n % 16;
        hex_lower(n / 16, (width - 1) as nat).push(if d < 10 { ('0' as nat + d) as char } else { ('a' as nat + d - 10) as char })
    }
}

/// The escape of a character in a double-quoted scalar.
pub open spec fn double_quoted_char(c: char) -> Seq<char> {
    if c == '"' {
        seq!['\\', '"']
    } else if c == '\\' {
        seq!['\\', '\\']
    } else if c == '\0' {
        seq!['\\', '0']
    } else if c == '\u{7}' {
        seq!['\\', 'a']
    } else if c == '\u{8}' {
        seq!['\\', 'b']
    } else if c == '\t' {
        seq!['\\', 't']
    } else if c == '\n' {
        seq!['\\', 'n']
    } else if c == '\u{b}' {
        seq!['\\', 'v']
    } else if c == '\u{c}' {
        seq!['\\', 'f']
    } else if c == '\r' {
        seq!['\\', 'r']
    } else if c == '\u{1b}' {
        seq!['\\', 'e']
    } else if c == '\u{85}' {
        seq!['\\', 'N']
    } else if c == '\u{a0}' {
        seq!['\\', '_']
    } else if c == '\u{2028}' {
        seq!['\\', 'L']
    } else if c == '\u{2029}' {
        seq!['\\', 'P']
    } else if spec_needs_escape(c) {
        if (c as u32) <= 0xff {
            seq!['\\', 'x'] + hex_lower(c as nat, 2)
        } else if (c as u32) <= 0xffff {
            seq!['\\', 'u'] + hex_lower(c as nat, 4)
        } else {
            seq!['\\', 'U'] + hex_lower(c as nat, 8)
        }
    } else {
        seq![c]
    }
}

/// The body of a double-quoted scalar.
pub open spec fn double_quoted_body(s: Seq<char>) -> Seq<char>
    decreases s.len(),
{
    if s.len() == 0 {
        Seq::empty()
    } else {
        double_quoted_body(s.drop_last()) + double_quoted_char(s.last())
    }
}

proof fn lemma_pow16_pos(w: nat)
    ensures
        pow16(w) > 0,
    decreases w,
{
    if w > 0 {
        lemma_pow16_pos((w - 1) as nat);
    }
}

/// The hex digits of a number read back as the number (modulo the power
/// of 16 of their width).
proof fn lemma_hex_lower(n: nat, w: nat)
    ensures
        hex_lower(n, w).len() == w,
        all_hex(hex_lower(n, w)),
        hex_seq_value(hex_lower(n, w)) == n as int % pow16(w),
    decreases w,
{
    lemma_pow16_pos(w);
    if w > 0 {
        let prev = hex_lower(n / 16, (w - 1) as nat);
        lemma_hex_lower(n / 16, (w - 1) as nat);
        let d = n % 16;
        let dc = if d < 10 {
            ('0' as nat + d) as char
        } else {
            ('a' as nat + d - 10) as char
        };
        assert(hex_lower(n, w) == prev.push(dc));
        assert(hex_lower(n, w).drop_last() =~= prev);
        assert(is_hex_digit(dc) && hex_value(dc) == d);
        assert forall|k: int| 0 <= k < w implies is_hex_digit(#[trigger] hex_lower(n, w)[k]) by {
            if k < w - 1 {
                assert(hex_lower(n, w)[k] == prev[k]);
            }
        }
        lemma_pow16_pos((w - 1) as nat);
        vstd::arithmetic::div_mod::lemma_breakdown(n as int, 16, pow16((w - 1) as nat));
    }
}

/// An escaped or literal character of a double-quoted body reads back as
/// the character.
proof fn lemma_double_quoted_char_reads_back(c: char, input: Seq<char>, k: int, rest: Seq<char>, close: int)
    requires
        0 <= k,
        k + double_quoted_char(c).len() <= input.len(),
        input.subrange(k, k + double_quoted_char(c).len()) == double_quoted_char(c),
        quoted_line(input, k + double_quoted_char(c).len(), false) == Some((rest, close)),
    ensures
        quoted_line(input, k, false) == Some((seq![c] + rest, close)),
{
    let e = double_quoted_char(c);
    assert(input[k] == e[0]) by {
        assert(input.subrange(k, k + e.len())[0] == input[k]);
    }
    if e.len() >= 2 {
        assert(input[k + 1] == e[1]) by {
            assert(input.subrange(k, k + e.len())[1] == input[k + 1]);
        }
    }
    let simple = c == '"' || c == '\\' || c == '\0' || c == '\u{7}' || c == '\u{8}' || c == '\t' || c == '\n'
        || c == '\u{b}' || c == '\u{c}' || c == '\r' || c == '\u{1b}' || c == '\u{85}' || c == '\u{a0}'
        || c == '\u{2028}' || c == '\u{2029}';
    if !simple && spec_needs_escape(c) {
        let n: nat = if (c as u32) <= 0xff {
            2
        } else if (c as u32) <= 0xffff {
            4
        } else {
            8
        };
        let letter = if (c as u32) <= 0xff {
            'x'
        } else if (c as u32) <= 0xffff {
            'u'
        } else {
            'U'
        };
        lemma_hex_lower(c as nat, n);
        assert(e == seq!['\\', letter] + hex_lower(c as nat, n));
        assert(e.len() == 2 + n);
        assert(input.subrange(k + 2, k + 2 + n) =~= hex_lower(c as nat, n)) by {
            assert forall|j: int| 0 <= j < n implies #[trigger] input.subrange(k + 2, k + 2 + n)[j] == hex_lower(
                c as nat,
                n,
            )[j] by {
                assert(input.subrange(k, k + e.len())[j + 2] == input[k + 2 + j]);
                assert(e[j + 2] == hex_lower(c as nat, n)[j]);
            }
        }
        reveal_with_fuel(pow16, 9);
        let v = c as int;
        if n == 2 {
            assert(pow16(2) == 256);
            vstd::arithmetic::div_mod::lemma_small_mod(v as nat, 256);
        } else if n == 4 {
            assert(pow16(4) == 65536);
            vstd::arithmetic::div_mod::lemma_small_mod(v as nat, 65536);
        } else {
            assert(pow16(8) == 4294967296);
            vstd::arithmetic::div_mod::lemma_small_mod(v as nat, 4294967296);
        }
        assert(escape_code_len(input[k + 1]) == n);
        assert(hex_seq_value(input.subrange(k + 2, k + 2 + n)) == c as int);
        assert(escape_valid(input, k));
    }
}

/// A double-quoted body reads back as its string, followed by what comes
/// after it.
proof fn lemma_double_quoted_body_reads_back(s: Seq<char>, input: Seq<char>, i: int, rest: Seq<char>, close: int)
    requires
        0 <= i,
        i + double_quoted_body(s).len() <= input.len(),
        input.subrange(i, i + double_quoted_body(s).len()) == double_quoted_body(s),
        quoted_line(input, i + double_quoted_body(s).len(), false) == Some((rest, close)),
    ensures
        quoted_line(input, i, false) == Some((s + rest, close)),
    decreases s.len(),
{
    if s.len() == 0 {
        assert(s + rest =~= rest);
    } else {
        let s0 = s.drop_last();
        let c = s.last();
        let b0 = double_quoted_body(s0);
        let e = double_quoted_char(c);
        let k = i + b0.len();
        let whole = input.subrange(i, i + double_quoted_body(s).len());
        assert(whole == b0 + e);
        assert(input.subrange(k, k + e.len()) =~= e) by {
            assert forall|j: int| 0 <= j < e.len() implies #[trigger] input.subrange(k, k + e.len())[j] == e[j] by {
                assert(whole[b0.len() + j] == input[k + j]);
                assert((b0 + e)[b0.len() + j] == e[j]);
            }
        }
        lemma_double_quoted_char_reads_back(c, input, k, rest, close);
        assert(input.subrange(i, k) =~= b0) by {
            assert forall|j: int| 0 <= j < b0.len() implies #[trigger] input.subrange(i, k)[j] == b0[j] by {
                assert(whole[j] == input[i + j]);
                assert((b0 + e)[j] == b0[j]);
            }
        }
        lemma_double_quoted_body_reads_back(s0, input, i, seq![c] + rest, close);
        assert(s0 + (seq![c] + rest) =~= s + rest);
    }
}

/// A string written double-quoted reads back as itself: wherever the text
/// that `write_double_quoted` writes (a quote, the body, a quote) stands in
/// the input, the scalar that starts at its opening quote ends at its
/// closing quote and stands for the string.
pub proof fn lemma_double_quoted_reads_back(prefix: Seq<char>, s: Seq<char>, rest: Seq<char>)
    ensures
        quoted_line(prefix + seq!['"'] + double_quoted_body(s) + seq!['"'] + rest, prefix.len() + 1int, false) == Some(
            (s, prefix.len() + 1int + double_quoted_body(s).len()),
        ),
{
    let body = double_quoted_body(s);
    let input = prefix + seq!['"'] + body + seq!['"'] + rest;
    let i: int = prefix.len() + 1int;
    let close: int = i + body.len();
    assert(input[close] == '"');
    assert(quoted_line(input, close, false) == Some((Seq::<char>::empty(), close)));
    assert(input.subrange(i, i + body.len()) =~= body);
    lemma_double_quoted_body_reads_back(s, input, i, Seq::empty(), close);
    assert(s + Seq::<char>::empty() =~= s);
}

/// A single-quoted body reads back as its string, followed by what comes
/// after it.
proof fn lemma_single_quoted_body_reads_back(s: Seq<char>, input: Seq<char>, i: int, rest: Seq<char>, close: int)
    requires
        no_escapes(s),
        0 <= i,
        i + single_quoted_body(s).len() <= input.len(),
        input.subrange(i, i + single_quoted_body(s).len()) == single_quoted_body(s),
        quoted_line(input, i + single_quoted_body(s).len(), true) == Some((rest, close)),
    ensures
        quoted_line(input, i, true) == Some((s + rest, close)),
    decreases s.len(),
{
    if s.len() == 0 {
        assert(s + rest =~= rest);
    } else {
        let s0 = s.drop_last();
        let c = s.last();
        let b0 = single_quoted_body(s0);
        let e = if c == '\'' {
            seq!['\'', '\'']
        } else {
            seq![c]
        };
        let k = i + b0.len();
        assert(single_quoted_body(s) == b0 + e);
        let whole = input.subrange(i, i + single_quoted_body(s).len());
        assert(input[k] == e[0]) by {
            assert(whole[b0.len() as int] == input[k]);
        }
        if c == '\'' {
            assert(input[k + 1] == '\'') by {
                assert(whole[b0.len() + 1int] == input[k + 1]);
            }
        } else {
            assert(!spec_needs_escape(s[s.len() - 1]));
        }
        assert(quoted_line(input, k, true) == Some((seq![c] + rest, close)));
        assert(no_escapes(s0)) by {
            assert forall|j: int| 0 <= j < s0.len() implies !spec_needs_escape(#[trigger] s0[j]) by {
                assert(s0[j] == s[j]);
            }
        }
        assert(input.subrange(i, k) =~= b0) by {
            assert forall|j: int| 0 <= j < b0.len() implies #[trigger] input.subrange(i, k)[j] == b0[j] by {
                assert(whole[j] == input[i + j]);
                assert((b0 + e)[j] == b0[j]);
            }
        }
        lemma_single_quoted_body_reads_back(s0, input, i, seq![c] + rest, close);
        assert(s0 + (seq![c] + rest) =~= s + rest);
    }
}

/// A string written single-quoted reads back as itself: wherever the text
/// that `write_single_quoted` writes (a quote, the body, a quote) stands in
/// the input, and no quote follows it, the scalar that starts at its
/// opening quote ends at its closing quote and stands for the string.
/// Strings are only written single-quoted if they need no escapes.
pub proof fn lemma_single_quoted_reads_back(prefix: Seq<char>, s: Seq<char>, rest: Seq<char>)
    requires
        no_escapes(s),
        !(rest.len() > 0 && rest[0] == '\''),
    ensures
        quoted_line(prefix + seq!['\''] + single_quoted_body(s) + seq!['\''] + rest, prefix.len() + 1int, true) == Some(
            (s, prefix.len() + 1int + single_quoted_body(s).len()),
        ),
{
    let body = single_quoted_body(s);
    let input = prefix + seq!['\''] + body + seq!['\''] + rest;
    let i: int = prefix.len() + 1int;
    let close: int = i + body.len();
    assert(input[close] == '\'');
    if close + 1 < input.len() {
        assert(input[close + 1] == rest[0]);
    }
    assert(quoted_line(input, close, true) == Some((Seq::<char>::empty(), close)));
    assert(input.subrange(i, i + body.len()) =~= body);
    lemma_single_quoted_body_reads_back(s, input, i, Seq::empty(), close);
    assert(s + Seq::<char>::empty() =~= s);
}

fn push_hex(out: &mut Vec<char>, n: u32, width: usize)
    requires
        width <= 8,
    ensures
        final(out)@ == old(out)@ + hex_lower(n as nat, width as nat),
    decreases width,
{
    if width == 0 {
        return;
    }
    push_hex(out, n / 16, width - 1);
    let d = n % 16;
    let c = if d < 10 { (('0' as u8) + (d as u8)) as char } else { (('a' as u8) + (d as u8) - 10) as char };
    out.push(c);
}

fn push_escape(out: &mut Vec<char>, c: char)
    ensures
        final(out)@ == old(out)@ + double_quoted_char(c),
{
    let ghost start = out@;
    let esc: char = if c == '"' {
        '"'
    } else if c == '\\' {
        '\\'
    } else if c == '\0' {
        '0'
    } else if c == '\u{7}' {
        'a'
    } else if c == '\u{8}' {
        'b'
    } else if c == '\t' {
        't'
    } else if c == '\n' {
        'n'
    } else if c == '\u{b}' {
        'v'
    } else if c == '\u{c}' {
        'f'
    } else if c == '\r' {
        'r'
    } else if c == '\u{1b}' {
        'e'
    } else if c == '\u{85}' {
        'N'
    } else if c == '\u{a0}' {
        '_'
    } else if c == '\u{2028}' {
        'L'
    } else if c == '\u{2029}' {
        'P'
    } else {
        ' '
    };
    if esc != ' ' {
        out.push('\\');
        out.push(esc);
        assert(out@ =~= start + double_quoted_char(c));
        return;
    }
    if needs_escape(c) {
        let n = c as u32;
        out.push('\\');
        if n <= 0xff {
            out.push('x');
            push_hex(out, n, 2);
        } else if n <= 0xffff {
            out.push('u');
            push_hex(out, n, 4);
        } else {
            out.push('U');
            push_hex(out, n, 8);
        }
        assert(out@ =~= start + double_quoted_char(c));
    } else {
        out.push(c);
        assert(out@ =~= start + double_quoted_char(c));
    }
}

/// Writes a double-quoted scalar.
pub fn write_double_quoted(out: &mut String, s: &str)
    ensures
        final(out)@ == old(out)@ + seq!['"'] + double_quoted_body(s@) + seq!['"'],
{
    let c = str_chars(s);
    let mut buf: Vec<char> = Vec::new();
    buf.push('"');
    let mut i: usize = 0;
    while i < c.len()
        invariant
            i <= c@.len(),
            buf@ == seq!['"'] + double_quoted_body(c@.take(i as int)),
        decreases c@.len() - i,
    {
        assert(c@.take(i + 1).drop_last() =~= c@.take(i as int));
        push_escape(&mut buf, c[i]);
        assert(buf@ =~= seq!['"'] + double_quoted_body(c@.take(i + 1)));
        i = i + 1;
    }
    assert(c@.take(c@.len() as int) =~= c@);
    buf.push('"');
    string_push_chars(out, &buf);
    assert(out@ =~= old(out)@ + seq!['"'] + double_quoted_body(s@) + seq!['"']);
}


/// `n` spaces.
pub open spec fn spaces(n: nat) -> Seq<char> {
    Seq::new(n, |i: int| ' ')
}

/// Writes spaces for an indentation.
pub fn push_indent(out: &mut String, indent: usize)
    ensures
        final(out)@ == old(out)@ + spaces(indent as nat),
{
    let ghost start = out@;
    let mut i: usize = 0;
    while i < indent
        invariant
            i <= indent,
            out@ == start + spaces(i as nat),
        decreases indent - i,
    {
        crate::text::string_push(out, ' ');
        assert(out@ =~= start + spaces((i + 1) as nat));
        i = i + 1;
    }
}

/// The characters without the line breaks at the end.
pub open spec fn trim_newlines(s: Seq<char>) -> Seq<char>
    decreases s.len(),
{
    if s.len() > 0 && s.last() == '\n' {
        trim_newlines(s.drop_last())
    } else {
        s
    }
}

/// The first character that is not a line break.
pub open spec fn first_content(s: Seq<char>) -> Option<char>
    decreases s.len(),
{
    if s.len() == 0 {
        None
    } else if s[0] != '\n' {
        Some(s[0])
    } else {
        first_content(s.drop_first())
    }
}

/// A literal block scalar.
pub struct Literal {
    /// The lines of the content without the trailing line breaks.
    pub content: Vec<char>,
    /// The number of trailing line breaks.
    pub trailing: usize,
    /// `true` if an indentation indicator is required.
    pub needs_indicator: bool,
}

/// The lines of the content, each line with characters indented.
pub open spec fn indented_lines(s: Seq<char>, indent: nat) -> Seq<char>
    decreases s.len(),
{
    if s.len() == 0 {
        Seq::empty()
    } else {
        let prev = indented_lines(s.drop_last(), indent);
        let c = s.last();
        if c == '\n' {
            prev.push('\n')
        } else if s.len() == 1 || s[s.len() - 2] == '\n' {
            prev + spaces(indent) + seq![c]
        } else {
            prev.push(c)
        }
    }
}

/// `n` line breaks.
pub open spec fn newlines(n: nat) -> Seq<char> {
    Seq::new(n, |i: int| '\n')
}

impl Literal {
    /// The header: `|`, the indentation indicator if required, and the
    /// chomping indicator (`-` without trailing line break, `+` for more than
    /// one or for empty content).
    pub open spec fn header(&self, indicator: nat) -> Seq<char> {
        seq!['|'] + (if self.needs_indicator { decimal_chars(indicator) } else { Seq::empty() }) + if self.trailing
            == 0 {
            seq!['-']
        } else if self.trailing == 1 && self.content@.len() > 0 {
            Seq::empty()
        } else {
            seq!['+']
        }
    }

    /// The body: the lines, indented, each ending with a line break, and
    /// the further trailing line breaks.
    pub open spec fn body(&self, indent: nat) -> Seq<char> {
        if self.content@.len() == 0 {
            newlines(self.trailing as nat)
        } else {
            indented_lines(self.content@, indent) + seq!['\n'] + newlines(
                if self.trailing >= 1 { (self.trailing - 1) as nat } else { 0 },
            )
        }
    }

    /// Returns the literal block for a string if it can be written as one:
    /// it has a line break and only characters that a block can hold.
    pub fn new(s: &str) -> (r: Option<Literal>)
        ensures
            r is Some <==> s@.contains('\n') && spec_block_safe(s@),
            r matches Some(l) ==> l.content@ == trim_newlines(s@) && l.trailing == s@.len() - trim_newlines(s@).len()
                && l.needs_indicator == (first_content(trim_newlines(s@)) == Some(' ')),
    {
        let c = str_chars(s);
        if !crate::resolve::contains_char(&c, '\n') || !is_block_safe(&c) {
            return None;
        }
        let mut end = c.len();
        assert(c@.take(end as int) =~= c@);
        while end > 0 && c[end - 1] == '\n'
            invariant
                end <= c@.len(),
                trim_newlines(c@.take(end as int)) == trim_newlines(c@),
            decreases end,
        {
            assert(c@.take(end - 1) =~= c@.take(end as int).drop_last());
            end = end - 1;
        }
        assert(c@.take(c@.len() as int) =~= c@);
        let content = crate::text::sub_chars(&c, 0, end);
        assert(content@ =~= c@.take(end as int));
        assert(trim_newlines(content@) == content@);
        let mut k: usize = 0;
        assert(content@.skip(0) =~= content@);
        while k < end && content[k] == '\n'
            invariant
                k <= end,
                end == content@.len(),
                first_content(content@.skip(k as int)) == first_content(content@),
            decreases end - k,
        {
            assert(content@.skip(k + 1) =~= content@.skip(k as int).drop_first());
            k = k + 1;
        }
        let needs_indicator = k < end && content[k] == ' ';
        proof {
            if k < end {
                assert(content@.skip(k as int)[0] == content@[k as int]);
            } else {
                assert(content@.skip(k as int).len() == 0);
            }
        }
        let trailing = c.len() - end;
        Some(Literal { content, trailing, needs_indicator })
    }

    /// Creates a literal block from lines without leading spaces.
    pub fn from_lines(lines: Vec<char>) -> (l: Literal)
        ensures
            l.content@ == lines@,
            l.trailing == 1,
            !l.needs_indicator,
    {
        Literal { content: lines, trailing: 1, needs_indicator: false }
    }

    /// Writes the header (`|` with indicators).
    ///
    /// `indicator` is the indentation of the content relative to the parent
    /// node, it's only written if required.
    pub fn write_header(&self, out: &mut String, indicator: usize)
        ensures
            final(out)@ == old(out)@ + self.header(indicator as nat),
    {
        let mut buf: Vec<char> = Vec::new();
        buf.push('|');
        if self.needs_indicator {
            push_chars(&mut buf, &decimal(indicator as u128));
        }
        if self.trailing == 0 {
            buf.push('-');
        } else if self.trailing == 1 && self.content.len() > 0 {
        } else {
            buf.push('+');
        }
        assert(buf@ =~= self.header(indicator as nat));
        string_push_chars(out, &buf);
    }

    /// Writes the lines of the content, each ending with a line break.
    pub fn write_body(&self, out: &mut String, indent: usize)
        ensures
            final(out)@ == old(out)@ + self.body(indent as nat),
    {
        let mut buf: Vec<char> = Vec::new();
        if self.content.len() == 0 {
            push_newlines(&mut buf, self.trailing);
            assert(buf@ =~= self.body(indent as nat));
            string_push_chars(out, &buf);
            return;
        }
        let n = self.content.len();
        let mut i: usize = 0;
        while i < n
            invariant
                i <= n,
                n == self.content@.len(),
                buf@ == indented_lines(self.content@.take(i as int), indent as nat),
            decreases n - i,
        {
            let c = self.content[i];
            let ghost t = self.content@.take(i + 1);
            assert(t.drop_last() =~= self.content@.take(i as int));
            assert(t.last() == c);
            if c != '\n' && (i == 0 || self.content[i - 1] == '\n') {
                let ghost before = buf@;
                push_spaces(&mut buf, indent);
                buf.push(c);
                assert(i > 0 ==> t[t.len() - 2] == self.content@[i - 1]);
                assert(buf@ =~= before + spaces(indent as nat) + seq![c]);
            } else {
                assert(i > 0 ==> t[t.len() - 2] == self.content@[i - 1]);
                buf.push(c);
            }
            i = i + 1;
        }
        assert(self.content@.take(n as int) =~= self.content@);
        buf.push('\n');
        let more = if self.trailing >= 1 { self.trailing - 1 } else { 0 };
        let ghost before = buf@;
        push_newlines(&mut buf, more);
        assert(buf@ =~= self.body(indent as nat));
        string_push_chars(out, &buf);
    }
}

fn push_spaces(out: &mut Vec<char>, n: usize)
    ensures
        final(out)@ == old(out)@ + spaces(n as nat),
{
    let ghost start = out@;
    let mut i: usize = 0;
    while i < n
        invariant
            i <= n,
            out@ == start + spaces(i as nat),
        decreases n - i,
    {
        out.push(' ');
        assert(out@ =~= start + spaces((i + 1) as nat));
        i = i + 1;
    }
}

fn push_newlines(out: &mut Vec<char>, n: usize)
    ensures
        final(out)@ == old(out)@ + newlines(n as nat),
{
    let ghost start = out@;
    let mut i: usize = 0;
    while i < n
        invariant
            i <= n,
            out@ == start + newlines(i as nat),
        decreases n - i,
    {
        out.push('\n');
        assert(out@ =~= start + newlines((i + 1) as nat));
        i = i + 1;
    }
}


/// A character of a tag shorthand suffix.
pub open spec fn spec_tag_char(c: char) -> bool {
    ('a' <= c <= 'z') || ('A' <= c <= 'Z') || ('0' <= c <= '9') || c == '-' || c == '#' || c == ';' || c == '/'
        || c == '?' || c == ':' || c == '@' || c == '&' || c == '=' || c == '+' || c == '$' || c == '_' || c
        == '.' || c == '~' || c == '*' || c == '\'' || c == '(' || c == ')'
}

/// A character of a verbatim tag.
pub open spec fn spec_uri_char(c: char) -> bool {
    spec_tag_char(c) || c == ',' || c == '!' || c == '[' || c == ']'
}

fn is_tag_char(c: char) -> (r: bool)
    ensures
        r == spec_tag_char(c),
{
    ('a' <= c && c <= 'z') || ('A' <= c && c <= 'Z') || ('0' <= c && c <= '9') || c == '-' || c == '#' || c
        == ';' || c == '/' || c == '?' || c == ':' || c == '@' || c == '&' || c == '=' || c == '+' || c == '$'
        || c == '_' || c == '.' || c == '~' || c == '*' || c == '\'' || c == '(' || c == ')'
}

/// All characters are tag characters and there is at least one.
pub open spec fn is_tag_suffix(s: Seq<char>) -> bool {
    s.len() > 0 && forall|i: int| 0 <= i < s.len() ==> spec_tag_char(#[trigger] s[i])
}

fn all_tag_chars(s: &[char]) -> (r: bool)
    ensures
        r == is_tag_suffix(s@),
{
    if s.len() == 0 {
        return false;
    }
    let mut i: usize = 0;
    while i < s.len()
        invariant
            i <= s@.len(),
            forall|k: int| 0 <= k < i ==> spec_tag_char(#[trigger] s@[k]),
        decreases s@.len() - i,
    {
        if !is_tag_char(s[i]) {
            return false;
        }
        i = i + 1;
    }
    true
}

/// The UTF-8 encoding of a character.
pub open spec fn utf8_bytes(c: char) -> Seq<u8> {
    let n = c as u32;
    if n < 0x80 {
        seq![n as u8]
    } else if n < 0x800 {
        seq![(0xc0u32 | (n >> 6u32)) as u8, (0x80u32 | (n & 0x3fu32)) as u8]
    } else if n < 0x10000 {
        seq![(0xe0u32 | (n >> 12u32)) as u8, (0x80u32 | ((n >> 6u32) & 0x3fu32)) as u8, (0x80u32 | (n & 0x3fu32)) as u8]
    } else {
        seq![
            (0xf0u32 | (n >> 18u32)) as u8,
            (0x80u32 | ((n >> 12u32) & 0x3fu32)) as u8,
            (0x80u32 | ((n >> 6u32) & 0x3fu32)) as u8,
            (0x80u32 | (n & 0x3fu32)) as u8,
        ]
    }
}

/// An uppercase hex digit.
pub open spec fn hex_upper_digit(d: nat) -> char {
    if d < 10 { ('0' as nat + d) as char } else { ('A' as nat + d - 10) as char }
}

/// `%XX` for each byte.
pub open spec fn percent_encoded(bytes: Seq<u8>) -> Seq<char>
    decreases bytes.len(),
{
    if bytes.len() == 0 {
        Seq::empty()
    } else {
        let b = bytes.last();
        percent_encoded(bytes.drop_last()) + seq!['%', hex_upper_digit((b / 16) as nat), hex_upper_digit((b % 16) as nat)]
    }
}

/// The characters of a verbatim tag: URI characters and `%` as they are,
/// others percent encoded.
pub open spec fn verbatim_body(s: Seq<char>) -> Seq<char>
    decreases s.len(),
{
    if s.len() == 0 {
        Seq::empty()
    } else {
        let c = s.last();
        verbatim_body(s.drop_last()) + if spec_uri_char(c) || c == '%' {
            seq![c]
        } else {
            percent_encoded(utf8_bytes(c))
        }
    }
}

/// How a tag is written: the `!!` shorthand for tags of yaml.org, the tag
/// itself for local tags and the verbatim form for all others.
pub open spec fn tag_text(tag: Seq<char>) -> Seq<char> {
    let p = yaml_tag_prefix();
    if p.len() <= tag.len() && tag.take(p.len() as int) == p && is_tag_suffix(tag.skip(p.len() as int)) {
        seq!['!', '!'] + tag.skip(p.len() as int)
    } else if tag == seq!['!'] {
        seq!['!']
    } else if tag.len() > 0 && tag[0] == '!' && is_tag_suffix(tag.skip(1)) {
        tag
    } else {
        seq!['!', '<'] + verbatim_body(tag) + seq!['>']
    }
}

fn push_percent_byte(out: &mut Vec<char>, b: u8)
    ensures
        final(out)@ == old(out)@ + seq!['%', hex_upper_digit((b / 16) as nat), hex_upper_digit((b % 16) as nat)],
{
    out.push('%');
    let hi = b / 16;
    let lo = b % 16;
    out.push(if hi < 10 { (('0' as u8) + hi) as char } else { (('A' as u8) + hi - 10) as char });
    out.push(if lo < 10 { (('0' as u8) + lo) as char } else { (('A' as u8) + lo - 10) as char });
}

fn push_utf8_percent(out: &mut Vec<char>, c: char)
    ensures
        final(out)@ == old(out)@ + percent_encoded(utf8_bytes(c)),
{
    let n = c as u32;
    let mut bytes: Vec<u8> = Vec::new();
    if n < 0x80 {
        bytes.push(n as u8);
    } else if n < 0x800 {
        bytes.push((0xc0u32 | (n >> 6u32)) as u8);
        bytes.push((0x80u32 | (n & 0x3fu32)) as u8);
    } else if n < 0x10000 {
        bytes.push((0xe0u32 | (n >> 12u32)) as u8);
        bytes.push((0x80u32 | ((n >> 6u32) & 0x3fu32)) as u8);
        bytes.push((0x80u32 | (n & 0x3fu32)) as u8);
    } else {
        bytes.push((0xf0u32 | (n >> 18u32)) as u8);
        bytes.push((0x80u32 | ((n >> 12u32) & 0x3fu32)) as u8);
        bytes.push((0x80u32 | ((n >> 6u32) & 0x3fu32)) as u8);
        bytes.push((0x80u32 | (n & 0x3fu32)) as u8);
    }
    assert(bytes@ =~= utf8_bytes(c));
    let ghost start = out@;
    let mut i: usize = 0;
    while i < bytes.len()
        invariant
            i <= bytes@.len(),
            out@ == start + percent_encoded(bytes@.take(i as int)),
        decreases bytes@.len() - i,
    {
        assert(bytes@.take(i + 1).drop_last() =~= bytes@.take(i as int));
        push_percent_byte(out, bytes[i]);
        assert(out@ =~= start + percent_encoded(bytes@.take(i + 1)));
        i = i + 1;
    }
    assert(bytes@.take(bytes@.len() as int) =~= bytes@);
}

/// Writes a tag, using the `!!` shorthand for tags of yaml.org, the tag
/// itself for local tags and the verbatim form for all others.
pub fn write_tag(out: &mut String, tag: &str)
    ensures
        final(out)@ == old(out)@ + tag_text(tag@),
{
    let t = str_chars(tag);
    let prefix = str_chars("tag:yaml.org,2002:");
    let mut buf: Vec<char> = Vec::new();
    if starts_with_chars(&t, &prefix) {
        let suffix = crate::text::sub_chars(&t, prefix.len(), t.len());
        assert(suffix@ =~= t@.skip(prefix@.len() as int));
        if all_tag_chars(&suffix) {
            buf.push('!');
            buf.push('!');
            push_chars(&mut buf, &suffix);
            assert(buf@ =~= tag_text(tag@));
            string_push_chars(out, &buf);
            return;
        }
    }
    if t.len() == 1 && t[0] == '!' {
        assert(t@ =~= seq!['!']);
        buf.push('!');
        string_push_chars(out, &buf);
        return;
    }
    assert(t@ != seq!['!']);
    if t.len() > 0 && t[0] == '!' {
        let suffix = crate::text::sub_chars(&t, 1, t.len());
        assert(suffix@ =~= t@.skip(1));
        if all_tag_chars(&suffix) {
            string_push_chars(out, &t);
            return;
        }
    }
    buf.push('!');
    buf.push('<');
    let mut i: usize = 0;
    while i < t.len()
        invariant
            i <= t@.len(),
            buf@ == seq!['!', '<'] + verbatim_body(t@.take(i as int)),
        decreases t@.len() - i,
    {
        let c = t[i];
        assert(t@.take(i + 1).drop_last() =~= t@.take(i as int));
        if is_tag_char(c) || c == ',' || c == '!' || c == '[' || c == ']' || c == '%' {
            buf.push(c);
        } else {
            push_utf8_percent(&mut buf, c);
        }
        assert(buf@ =~= seq!['!', '<'] + verbatim_body(t@.take(i + 1)));
        i = i + 1;
    }
    assert(t@.take(t@.len() as int) =~= t@);
    buf.push('>');
    assert(buf@ =~= tag_text(tag@));
    string_push_chars(out, &buf);
}

} // verus!
