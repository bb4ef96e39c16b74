//! Lexical atoms and the fields and keys of structs and maps: parsing the
//! lexical forms of values, the errors for invalid ones, and what happens
//! to keys given more than once.
use vstd::prelude::*;

use crate::error::{Error, ErrorKind};
use crate::state::State;
use crate::text::{chars_to_string, push_chars, str_chars};

verus! {

/// The longest part of a value that is included in error messages.
pub const MAX_QUOTED: usize = 64;

/// A character in ASCII lowercase (other characters are unchanged).
pub open spec fn ascii_lower(c: char) -> char {
    if 'A' <= c <= 'Z' {
        ((c as u32) + 32) as char
    } else {
        c
    }
}

/// Two strings are equal ignoring ASCII case.
pub open spec fn eq_ignore_ascii_case(a: Seq<char>, b: Seq<char>) -> bool {
    a.len() == b.len() && forall|i: int| 0 <= i < a.len() ==> ascii_lower(#[trigger] a[i]) == ascii_lower(b[i])
}

fn lower(c: char) -> (r: char)
    ensures
        r == ascii_lower(c),
{
    if 'A' <= c && c <= 'Z' {
        ((c as u8) + 32) as char
    } else {
        c
    }
}

fn eq_ignore_case(a: &[char], b: &str) -> (r: bool)
    ensures
        r == eq_ignore_ascii_case(a@, b@),
{
    let bc = str_chars(b);
    if a.len() != bc.len() {
        return false;
    }
    let mut i: usize = 0;
    while i < a.len()
        invariant
            i <= a@.len(),
            a@.len() == bc@.len(),
            bc@ == b@,
            forall|k: int| 0 <= k < i ==> ascii_lower(#[trigger] a@[k]) == ascii_lower(bc@[k]),
        decreases a@.len() - i,
    {
        if lower(a[i]) != lower(bc[i]) {
            return false;
        }
        i = i + 1;
    }
    true
}

/// The spellings of booleans in query strings, environment variables and
/// command lines, ignoring ASCII case.
pub open spec fn lexical_bool(s: Seq<char>) -> Option<bool> {
    if eq_ignore_ascii_case(s, "true"@) || eq_ignore_ascii_case(s, "yes"@) || eq_ignore_ascii_case(s, "on"@)
        || eq_ignore_ascii_case(s, "1"@) {
        Some(true)
    } else if eq_ignore_ascii_case(s, "false"@) || eq_ignore_ascii_case(s, "no"@) || eq_ignore_ascii_case(
        s,
        "off"@,
    ) || eq_ignore_ascii_case(s, "0"@) {
        Some(false)
    } else {
        None
    }
}

/// What `<str as Debug>::fmt` writes for a string: the string quoted, with
/// escapes.
pub uninterp spec fn debug_text(s: Seq<char>) -> Seq<char>;

/// Formats a string with `<str as Debug>::fmt` (through `format!`).  The
/// text is named, not stated; it depends on the string alone.
#[verifier::external_body]
fn debug_str(s: &str) -> (r: String)
    ensures
        r@ == debug_text(s@),
{
    format!("{:?}", s)
}

/// The message for a value that cannot be parsed: the value quoted (at
/// most its first 64 characters, then `...`) and what was expected.
pub open spec fn invalid_message(value: Seq<char>, expecting: Seq<char>) -> Seq<char> {
    "invalid value "@ + (if value.len() > MAX_QUOTED {
        debug_text(value.take(MAX_QUOTED as int)) + "..."@
    } else {
        debug_text(value)
    }) + ", expected "@ + expecting
}

/// Creates the error for a lexical atom that cannot be parsed.
pub fn invalid(value: &str, expecting: &str) -> (e: Error)
    ensures
        e.kind == ErrorKind::Unexpected,
        e.message@ == invalid_message(value@, expecting@),
        e.position is None,
{
    let chars = str_chars(value);
    let mut msg = str_chars("invalid value ");
    if chars.len() > MAX_QUOTED {
        let head = chars_to_string(&crate::text::sub_chars(&chars, 0, MAX_QUOTED));
        push_chars(&mut msg, &str_chars(debug_str(head.as_str()).as_str()));
        push_chars(&mut msg, &str_chars("..."));
        assert(head@ =~= value@.take(MAX_QUOTED as int));
    } else {
        push_chars(&mut msg, &str_chars(debug_str(value).as_str()));
    }
    push_chars(&mut msg, &str_chars(", expected "));
    push_chars(&mut msg, &str_chars(expecting));
    assert(msg@ =~= invalid_message(value@, expecting@));
    Error::from_message(ErrorKind::Unexpected, chars_to_string(&msg))
}

/// Parses the lexical form of a boolean: `true`, `yes`, `on`, `1`, `false`,
/// `no`, `off` or `0`, ignoring ASCII case.
pub fn parse_bool(value: &str) -> (r: Result<bool, Error>)
    ensures
        match lexical_bool(value@) {
            Some(b) => r == Ok::<bool, Error>(b),
            None => r matches Err(e) && e.kind == ErrorKind::Unexpected && e.message@ == invalid_message(
                value@,
                "bool (true, yes, on, 1, false, no, off or 0)"@,
            ),
        },
{
    let v = str_chars(value);
    if eq_ignore_case(&v, "true") || eq_ignore_case(&v, "yes") || eq_ignore_case(&v, "on") || eq_ignore_case(
        &v,
        "1",
    ) {
        Ok(true)
    } else if eq_ignore_case(&v, "false") || eq_ignore_case(&v, "no") || eq_ignore_case(&v, "off")
        || eq_ignore_case(&v, "0") {
        Ok(false)
    } else {
        Err(invalid(value, "bool (true, yes, on, 1, false, no, off or 0)"))
    }
}

/// Converts the error of parsing an integer: an overflow is out of range,
/// anything else an invalid value.
pub fn int_error(value: &str, overflow: bool, expecting: &str) -> (e: Error)
    ensures
        overflow ==> e.kind == ErrorKind::OutOfRange && e.message@ == "value out of range for type"@,
        !overflow ==> e.kind == ErrorKind::Unexpected && e.message@ == invalid_message(value@, expecting@),
{
    if overflow {
        Error::new(ErrorKind::OutOfRange, "value out of range for type")
    } else {
        invalid(value, expecting)
    }
}

/// What happens if a key is given more than once.
#[derive(Debug, Clone, Copy, PartialEq, Eq, Structural)]
pub enum DuplicateKeys {
    /// The last value is used.
    Last,
    /// The first value is used, later ones are ignored.
    First,
    /// Duplicate keys are rejected.
    Error,
}

impl Default for DuplicateKeys {
    fn default() -> (d: DuplicateKeys)
        ensures
            d == DuplicateKeys::Last,
    {
        DuplicateKeys::Last
    }
}

impl DuplicateKeys {
    /// Decides if a duplicate value is used: `Ok(true)` if it replaces the
    /// previous one, `Ok(false)` if it's ignored, an error with the message
    /// otherwise.
    pub fn resolve(self, what: String) -> (r: Result<bool, Error>)
        ensures
            self == DuplicateKeys::Last ==> r == Ok::<bool, Error>(true),
            self == DuplicateKeys::First ==> r == Ok::<bool, Error>(false),
            self == DuplicateKeys::Error ==> (r matches Err(e) && e.kind == ErrorKind::Unexpected && e.message@
                == what@),
    {
        match self {
            DuplicateKeys::Last => Ok(true),
            DuplicateKeys::First => Ok(false),
            DuplicateKeys::Error => Err(Error::from_message(ErrorKind::Unexpected, what)),
        }
    }
}

/// The bit of a field in the words of a set of seen fields.
pub open spec fn field_bit(index: nat) -> u64 {
    (1u64 << ((index % 64) as u64)) as u64
}

/// The field is marked in the words.
pub open spec fn is_seen(seen: Seq<u64>, index: nat) -> bool {
    seen[(index / 64) as int] & field_bit(index) != 0
}

/// The words with the field marked.
pub open spec fn marked(seen: Seq<u64>, index: nat) -> Seq<u64> {
    seen.update((index / 64) as int, seen[(index / 64) as int] | field_bit(index))
}

/// Marks a field of a struct as seen.  Returns `true` if it was seen
/// before.
pub fn mark_seen(seen: &mut Vec<u64>, index: usize) -> (r: bool)
    requires
        index / 64 < old(seen)@.len(),
    ensures
        r == is_seen(old(seen)@, index as nat),
        final(seen)@ == marked(old(seen)@, index as nat),
{
    let word = index / 64;
    let bit: u64 = 1u64 << ((index % 64) as u64);
    let seen_before = seen[word] & bit != 0;
    let v = seen[word] | bit;
    seen.set(word, v);
    seen_before
}

proof fn lemma_bit_ops(w: u64, a: u64, b: u64)
    requires
        a < 64,
        b < 64,
    ensures
        (w | (1u64 << a)) & (1u64 << a) != 0,
        a != b ==> (((w | (1u64 << a)) & (1u64 << b) != 0) == (w & (1u64 << b) != 0)),
{
    assert((w | (1u64 << a)) & (1u64 << a) != 0) by (bit_vector)
        requires
            a < 64,
    ;
    assert(a != b ==> (((w | (1u64 << a)) & (1u64 << b) != 0) == (w & (1u64 << b) != 0))) by (bit_vector)
        requires
            a < 64,
            b < 64,
    ;
}

/// After a field is marked, exactly it and the fields seen before are
/// seen: marking is idempotent and does not touch other fields.
pub proof fn lemma_mark_seen(seen: Seq<u64>, index: nat, other: nat)
    requires
        index / 64 < seen.len(),
        other / 64 < seen.len(),
    ensures
        is_seen(marked(seen, index), index),
        other != index ==> is_seen(marked(seen, index), other) == is_seen(seen, other),
        marked(marked(seen, index), index) == marked(seen, index),
{
    let w = index / 64;
    let a = (index % 64) as u64;
    let b = (other % 64) as u64;
    lemma_bit_ops(seen[w as int], a, b);
    if other / 64 == w {
        if other != index {
            assert(other % 64 != index % 64) by (nonlinear_arith)
                requires
                    other / 64 == index / 64,
                    other != index,
            ;
        }
    }
    let x = seen[w as int];
    let f = field_bit(index);
    let v = x | f;
    assert(v | f == v) by (bit_vector)
        requires
            v == x | f,
    ;
    assert(marked(marked(seen, index), index) =~= marked(seen, index));
}

/// The message for a field that is given more than once.
pub open spec fn duplicate_field_message(name: Seq<char>) -> Seq<char> {
    "duplicate field '"@ + name + "'"@
}

/// Decides if the value of a field given more than once is used, by the
/// policy for duplicate keys of the state.  Returns `Ok(true)` if the
/// value replaces the previous one.
pub fn duplicate_field(name: &str, state: &State) -> (r: Result<bool, Error>)
    ensures
        state.duplicate_keys == DuplicateKeys::Last ==> r == Ok::<bool, Error>(true),
        state.duplicate_keys == DuplicateKeys::First ==> r == Ok::<bool, Error>(false),
        state.duplicate_keys == DuplicateKeys::Error ==> (r matches Err(e) && e.kind == ErrorKind::Unexpected && e.message@
            == duplicate_field_message(name@)),
{
    let mut m = str_chars("duplicate field '");
    push_chars(&mut m, &str_chars(name));
    m.push('\'');
    proof {
        reveal_strlit("'");
    }
    assert(m@ =~= duplicate_field_message(name@));
    state.duplicate_keys.resolve(chars_to_string(&m))
}

} // verus!
