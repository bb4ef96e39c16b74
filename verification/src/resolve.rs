//! Resolution of scalars to atoms.
//!
//! In YAML the type of a plain (unquoted) scalar is determined by its
//! content: `true` is a boolean, `42` an integer and so on.  The rules for
//! this differ between YAML versions.  Quoted and block scalars are always
//! strings unless they have an explicit tag.
use vstd::prelude::*;

use crate::model::{int_value, Atom, Date, Datetime, FloatRepr, Offset, Time};
use crate::encoding::{b64_value, decode_values, decoded_values, std_b64_value, base64_value};
use crate::text::{chars_eq, copy_chars, decimal_chars, digit_char, str_chars, sub_chars};

verus! {

/// The YAML version that determines how plain scalars are resolved.
#[derive(Debug, Clone, Copy, PartialEq, Eq, Structural)]
pub enum Version {
    /// YAML 1.1: `y`, `yes`, `on` (and their negations) are booleans,
    /// integers can be binary, octal (`0777`) and base 60, numbers can
    /// contain `_`.
    V1_1,
    /// YAML 1.2 with the core schema.
    V1_2,
}

/// The standard tags (`tag:yaml.org,2002:` followed by the name).
#[derive(Debug, Clone, Copy, PartialEq, Eq, Structural)]
pub enum StandardTag {
    Str,
    Int,
    Float,
    Bool,
    Null,
    Binary,
    Timestamp,
    Sequence,
    Mapping,
}

/// How a tag affects a scalar.
#[derive(Debug, Clone, Copy, PartialEq, Eq, Structural)]
pub enum ScalarTag {
    /// The scalar is a string (the `!` tag).
    Str,
    /// A standard tag that determines the type.
    Standard(StandardTag),
    /// A tag that is not known.  The value is a string, the tag is passed on.
    Custom,
}

pub open spec fn yaml_tag_prefix() -> Seq<char> {
    "tag:yaml.org,2002:"@
}

pub open spec fn standard_tag_name(t: StandardTag) -> Seq<char> {
    match t {
        StandardTag::Str => "str"@,
        StandardTag::Int => "int"@,
        StandardTag::Float => "float"@,
        StandardTag::Bool => "bool"@,
        StandardTag::Null => "null"@,
        StandardTag::Binary => "binary"@,
        StandardTag::Timestamp => "timestamp"@,
        StandardTag::Sequence => "seq"@,
        StandardTag::Mapping => "map"@,
    }
}

/// The classification of a tag.
pub open spec fn spec_classify_tag(tag: Seq<char>) -> ScalarTag {
    if tag == seq!['!'] {
        ScalarTag::Str
    } else if exists|t: StandardTag| tag == yaml_tag_prefix() + standard_tag_name(t) {
        ScalarTag::Standard(choose|t: StandardTag| tag == yaml_tag_prefix() + standard_tag_name(t))
    } else {
        ScalarTag::Custom
    }
}

/// Returns `true` if the characters are those of the string.
pub fn eq_str(s: &[char], lit: &str) -> (r: bool)
    ensures
        r == (s@ == lit@),
{
    let l = str_chars(lit);
    chars_eq(s, &l)
}

/// Returns `true` if `s` starts with `prefix`.
pub fn starts_with_chars(s: &[char], prefix: &[char]) -> (r: bool)
    ensures
        r == (prefix@.len() <= s@.len() && s@.subrange(0, prefix@.len() as int) == prefix@),
{
    if prefix.len() > s.len() {
        return false;
    }
    let head = sub_chars(s, 0, prefix.len());
    chars_eq(&head, prefix)
}

spec fn tag_key(t: StandardTag) -> (char, char) {
    match t {
        StandardTag::Str => ('s', 't'),
        StandardTag::Int => ('i', 'n'),
        StandardTag::Float => ('f', 'l'),
        StandardTag::Bool => ('b', 'o'),
        StandardTag::Null => ('n', 'u'),
        StandardTag::Binary => ('b', 'i'),
        StandardTag::Timestamp => ('t', 'i'),
        StandardTag::Sequence => ('s', 'e'),
        StandardTag::Mapping => ('m', 'a'),
    }
}

proof fn lemma_tag_key(t: StandardTag)
    ensures
        standard_tag_name(t).len() >= 3,
        standard_tag_name(t)[0] == tag_key(t).0,
        standard_tag_name(t)[1] == tag_key(t).1,
{
    reveal_strlit("str");
    reveal_strlit("int");
    reveal_strlit("float");
    reveal_strlit("bool");
    reveal_strlit("null");
    reveal_strlit("binary");
    reveal_strlit("timestamp");
    reveal_strlit("seq");
    reveal_strlit("map");
}

proof fn lemma_standard_names_distinct(t: StandardTag, u: StandardTag)
    requires
        yaml_tag_prefix() + standard_tag_name(t) == yaml_tag_prefix() + standard_tag_name(u),
    ensures
        t == u,
{
    reveal_strlit("tag:yaml.org,2002:");
    lemma_tag_key(t);
    lemma_tag_key(u);
    let a = yaml_tag_prefix() + standard_tag_name(t);
    let b = yaml_tag_prefix() + standard_tag_name(u);
    assert(a[18] == standard_tag_name(t)[0]);
    assert(b[18] == standard_tag_name(u)[0]);
    assert(a[19] == standard_tag_name(t)[1]);
    assert(b[19] == standard_tag_name(u)[1]);
    assert(tag_key(t) == tag_key(u));
}

/// Classifies a tag.
pub fn classify_tag(tag: &[char]) -> (r: ScalarTag)
    ensures
        r == spec_classify_tag(tag@),
{
    proof {
        reveal_strlit("tag:yaml.org,2002:");
    }
    if tag.len() == 1 && tag[0] == '!' {
        assert(tag@ =~= seq!['!']);
        return ScalarTag::Str;
    }
    assert(tag@ != seq!['!']);
    let prefix = str_chars("tag:yaml.org,2002:");
    if !starts_with_chars(tag, &prefix) {
        assert forall|t: StandardTag| tag@ != yaml_tag_prefix() + standard_tag_name(t) by {
            if tag@ == yaml_tag_prefix() + standard_tag_name(t) {
                assert(tag@.subrange(0, 18) =~= yaml_tag_prefix());
            }
        }
        return ScalarTag::Custom;
    }
    let name = sub_chars(tag, prefix.len(), tag.len());
    assert(tag@ =~= yaml_tag_prefix() + name@);
    let names: [(&str, StandardTag); 9] = [
        ("str", StandardTag::Str),
        ("int", StandardTag::Int),
        ("float", StandardTag::Float),
        ("bool", StandardTag::Bool),
        ("null", StandardTag::Null),
        ("binary", StandardTag::Binary),
        ("timestamp", StandardTag::Timestamp),
        ("seq", StandardTag::Sequence),
        ("map", StandardTag::Mapping),
    ];
    let mut i: usize = 0;
    while i < 9
        invariant
            i <= 9,
            tag@ == yaml_tag_prefix() + name@,
            tag@ != seq!['!'],
            names@ == seq![
                ("str", StandardTag::Str),
                ("int", StandardTag::Int),
                ("float", StandardTag::Float),
                ("bool", StandardTag::Bool),
                ("null", StandardTag::Null),
                ("binary", StandardTag::Binary),
                ("timestamp", StandardTag::Timestamp),
                ("seq", StandardTag::Sequence),
                ("map", StandardTag::Mapping),
            ],
            forall|j: int| 0 <= j < i ==> name@ != standard_tag_name(#[trigger] names@[j].1),
            forall|j: int| 0 <= j < 9 ==> #[trigger] names@[j].0@ == standard_tag_name(names@[j].1),
        decreases 9 - i,
    {
        if eq_str(&name, names[i].0) {
            let t = names[i].1;
            proof {
                assert(tag@ == yaml_tag_prefix() + standard_tag_name(t));
                let c = choose|u: StandardTag| tag@ == yaml_tag_prefix() + standard_tag_name(u);
                lemma_standard_names_distinct(t, c);
            }
            return ScalarTag::Standard(t);
        }
        i = i + 1;
    }
    assert forall|t: StandardTag| tag@ != yaml_tag_prefix() + standard_tag_name(t) by {
        if tag@ == yaml_tag_prefix() + standard_tag_name(t) {
            assert(name@ =~= standard_tag_name(t));
            match t {
                StandardTag::Str => assert(names@[0].1 == t),
                StandardTag::Int => assert(names@[1].1 == t),
                StandardTag::Float => assert(names@[2].1 == t),
                StandardTag::Bool => assert(names@[3].1 == t),
                StandardTag::Null => assert(names@[4].1 == t),
                StandardTag::Binary => assert(names@[5].1 == t),
                StandardTag::Timestamp => assert(names@[6].1 == t),
                StandardTag::Sequence => assert(names@[7].1 == t),
                StandardTag::Mapping => assert(names@[8].1 == t),
            }
        }
    }
    ScalarTag::Custom
}

/// Whether a tag of a collection is fine: standard collection tags (and
/// `!`) are `Ok(true)`, custom tags `Ok(false)`, other standard tags fail.
pub open spec fn spec_is_collection_tag(tag: Seq<char>, is_map: bool) -> Result<bool, ()> {
    match spec_classify_tag(tag) {
        ScalarTag::Str => Ok(true),
        ScalarTag::Standard(StandardTag::Sequence) if !is_map => Ok(true),
        ScalarTag::Standard(StandardTag::Mapping) if is_map => Ok(true),
        ScalarTag::Standard(_) => Err(()),
        ScalarTag::Custom => Ok(false),
    }
}

/// Returns `true` if the tag is a standard tag for a collection.
pub fn is_collection_tag(tag: &[char], is_map: bool) -> (r: Result<bool, &'static str>)
    ensures
        r is Ok <==> spec_is_collection_tag(tag@, is_map) is Ok,
        r matches Ok(b) ==> spec_is_collection_tag(tag@, is_map) == Ok::<bool, ()>(b),
        r matches Err(m) ==> m@ == "tag does not apply to this kind of node"@,
{
    match classify_tag(tag) {
        ScalarTag::Str => Ok(true),
        ScalarTag::Standard(StandardTag::Sequence) if !is_map => Ok(true),
        ScalarTag::Standard(StandardTag::Mapping) if is_map => Ok(true),
        ScalarTag::Standard(_) => Err("tag does not apply to this kind of node"),
        ScalarTag::Custom => Ok(false),
    }
}


// -- integers ---------------------------------------------------------------

/// The value of a digit in a radix (like `char::to_digit`).
pub open spec fn spec_digit(c: char, radix: nat) -> Option<nat> {
    let v: int = if '0' <= c <= '9' {
        c as int - '0' as int
    } else if 'a' <= c <= 'z' {
        c as int - 'a' as int + 10
    } else if 'A' <= c <= 'Z' {
        c as int - 'A' as int + 10
    } else {
        99
    };
    if v < radix {
        Some(v as nat)
    } else {
        None
    }
}

/// Every character is a digit of the radix (or `_` if allowed).
pub open spec fn all_digits(s: Seq<char>, radix: nat, underscores: bool) -> bool {
    forall|i: int| 0 <= i < s.len() ==> (#[trigger] spec_digit(s[i], radix) is Some || (underscores && s[i] == '_'))
}

/// There is at least one digit.
pub open spec fn has_digit(s: Seq<char>, radix: nat) -> bool {
    exists|i: int| 0 <= i < s.len() && #[trigger] spec_digit(s[i], radix) is Some
}

/// The number the digits stand for (other characters are skipped).
pub open spec fn digits_value(s: Seq<char>, radix: nat) -> nat
    decreases s.len(),
{
    if s.len() == 0 {
        0
    } else {
        match spec_digit(s.last(), radix) {
            Some(d) => digits_value(s.drop_last(), radix) * radix + d,
            None => digits_value(s.drop_last(), radix),
        }
    }
}

/// The characters without `_` separators.
pub open spec fn strip_underscores(s: Seq<char>) -> Seq<char>
    decreases s.len(),
{
    if s.len() == 0 {
        s
    } else {
        let prev = strip_underscores(s.drop_last());
        if s.last() == '_' {
            prev
        } else {
            prev.push(s.last())
        }
    }
}

/// Returns the characters without `_` separators.
pub fn remove_underscores(s: &[char]) -> (r: Vec<char>)
    ensures
        r@ == strip_underscores(s@),
{
    let mut out: Vec<char> = Vec::new();
    let mut i: usize = 0;
    assert(s@.take(0) =~= Seq::<char>::empty());
    while i < s.len()
        invariant
            i <= s.len(),
            out@ == strip_underscores(s@.take(i as int)),
        decreases s.len() - i,
    {
        assert(s@.take(i + 1).drop_last() =~= s@.take(i as int));
        if s[i] != '_' {
            out.push(s[i]);
        }
        i = i + 1;
    }
    assert(s@.take(s.len() as int) =~= s@);
    out
}

/// Returns the value of a digit in a radix.
pub fn to_digit(c: char, radix: u32) -> (r: Option<u32>)
    requires
        2 <= radix <= 16,
    ensures
        r matches Some(v) ==> spec_digit(c, radix as nat) == Some(v as nat),
        r is None ==> spec_digit(c, radix as nat) is None,
{
    let v: u32 = if '0' <= c && c <= '9' {
        (c as u32) - ('0' as u32)
    } else if 'a' <= c && c <= 'z' {
        (c as u32) - ('a' as u32) + 10
    } else if 'A' <= c && c <= 'Z' {
        (c as u32) - ('A' as u32) + 10
    } else {
        99
    };
    if v < radix {
        Some(v)
    } else {
        None
    }
}

proof fn lemma_digits_value_step(s: Seq<char>, c: char, radix: nat)
    requires
        radix >= 1,
    ensures
        digits_value(s.push(c), radix) >= digits_value(s, radix),
        digits_value(s.push(c), radix) == match spec_digit(c, radix) {
            Some(d) => digits_value(s, radix) * radix + d,
            None => digits_value(s, radix),
        },
{
    assert(s.push(c).drop_last() =~= s);
    let v = digits_value(s, radix);
    match spec_digit(c, radix) {
        Some(d) => {
            assert(v * radix >= v) by (nonlinear_arith)
                requires radix >= 1, v >= 0;
        },
        None => {},
    }
}

/// The magnitude of an integer.
pub struct Magnitude {
    /// The value, `None` if it does not fit into 128 bits.
    pub value: Option<u128>,
    /// The value as float, used if it does not fit.
    pub approx: FloatRepr,
}

/// Accumulates digits of a radix, skipping `_` if allowed.
///
/// Returns `None` if there are no digits or an invalid character.  The
/// value is `None` in the magnitude if it overflows 128 bits.
pub fn accumulate(digits: &[char], radix: u32, underscores: bool) -> (r: Option<Magnitude>)
    requires
        2 <= radix <= 16,
    ensures
        r is Some <==> all_digits(digits@, radix as nat, underscores) && has_digit(digits@, radix as nat),
        r matches Some(m) ==> (m.value is Some <==> digits_value(digits@, radix as nat) <= u128::MAX)
            && (m.value matches Some(v) ==> v == digits_value(digits@, radix as nat))
            && (m.approx matches FloatRepr::BigInt { negative: n, radix: rx, digits: d } && !n && rx == radix
            && digits_value(d@, radix as nat) == digits_value(digits@, radix as nat)),
{
    let mut value: Option<u128> = Some(0);
    let mut seen = false;
    let mut clean: Vec<char> = Vec::new();
    let mut i: usize = 0;
    while i < digits.len()
        invariant
            i <= digits.len(),
            2 <= radix <= 16,
            all_digits(digits@.take(i as int), radix as nat, underscores),
            seen == has_digit(digits@.take(i as int), radix as nat),
            value is Some <==> digits_value(digits@.take(i as int), radix as nat) <= u128::MAX,
            value matches Some(v) ==> v == digits_value(digits@.take(i as int), radix as nat),
            digits_value(clean@, radix as nat) == digits_value(digits@.take(i as int), radix as nat),
        decreases digits.len() - i,
    {
        let c = digits[i];
        proof {
            assert(digits@.take(i + 1) =~= digits@.take(i as int).push(c));
            lemma_digits_value_step(digits@.take(i as int), c, radix as nat);
        }
        if c == '_' && underscores {
            assert(spec_digit('_', radix as nat) is None);
            assert(all_digits(digits@.take(i + 1), radix as nat, underscores));
            assert(has_digit(digits@.take(i + 1), radix as nat) == has_digit(digits@.take(i as int), radix as nat)) by {
                if has_digit(digits@.take(i + 1), radix as nat) {
                    let k = choose|k: int| 0 <= k < i + 1 && #[trigger] spec_digit(digits@.take(i + 1)[k], radix as nat) is Some;
                    assert(k < i);
                    assert(digits@.take(i as int)[k] == digits@.take(i + 1)[k]);
                }
                if has_digit(digits@.take(i as int), radix as nat) {
                    let k = choose|k: int| 0 <= k < i && #[trigger] spec_digit(digits@.take(i as int)[k], radix as nat) is Some;
                    assert(digits@.take(i as int)[k] == digits@.take(i + 1)[k]);
                }
            }
            i = i + 1;
            continue;
        }
        let digit = match to_digit(c, radix) {
            Some(d) => d,
            None => {
                proof {
                    assert(!all_digits(digits@, radix as nat, underscores)) by {
                        assert(digits@[i as int] == c);
                    }
                }
                return None;
            },
        };
        seen = true;
        proof {
            lemma_digits_value_step(clean@, c, radix as nat);
        }
        clean.push(c);
        value = match value {
            Some(v) => match v.checked_mul(radix as u128) {
                Some(w) => w.checked_add(digit as u128),
                None => None,
            },
            None => None,
        };
        proof {
            assert(all_digits(digits@.take(i + 1), radix as nat, underscores)) by {
                assert forall|k: int| 0 <= k < i + 1 implies (#[trigger] spec_digit(digits@.take(i + 1)[k], radix as nat) is Some
                    || (underscores && digits@.take(i + 1)[k] == '_')) by {
                    if k < i {
                        assert(digits@.take(i + 1)[k] == digits@.take(i as int)[k]);
                    }
                }
            }
            assert(digits@.take(i + 1)[i as int] == c);
            assert(has_digit(digits@.take(i + 1), radix as nat));
        }
        i = i + 1;
    }
    assert(digits@.take(digits.len() as int) =~= digits@);
    if seen {
        Some(Magnitude {
            value,
            approx: FloatRepr::BigInt { negative: false, radix, digits: clean },
        })
    } else {
        None
    }
}

/// The float with the opposite sign (decimal text is not negated here).
pub open spec fn negated(f: FloatRepr) -> FloatRepr {
    match f {
        FloatRepr::Decimal(text) => FloatRepr::Decimal(text),
        FloatRepr::Infinity { negative } => FloatRepr::Infinity { negative: !negative },
        FloatRepr::NaN => FloatRepr::NaN,
        FloatRepr::Int { negative, magnitude } => FloatRepr::Int { negative: !negative, magnitude },
        FloatRepr::BigInt { negative, radix, digits } => FloatRepr::BigInt { negative: !negative, radix, digits },
        FloatRepr::Sexagesimal { negative, head, digits, fraction } => FloatRepr::Sexagesimal {
            negative: !negative,
            head,
            digits,
            fraction,
        },
    }
}

/// Returns the float with the opposite sign.
fn negate(f: FloatRepr) -> (r: FloatRepr)
    requires
        !(f is Decimal),
    ensures
        r == negated(f),
{
    match f {
        FloatRepr::Decimal(text) => FloatRepr::Decimal(text),
        FloatRepr::Infinity { negative } => FloatRepr::Infinity { negative: !negative },
        FloatRepr::NaN => FloatRepr::NaN,
        FloatRepr::Int { negative, magnitude } => FloatRepr::Int { negative: !negative, magnitude },
        FloatRepr::BigInt { negative, radix, digits } => FloatRepr::BigInt { negative: !negative, radix, digits },
        FloatRepr::Sexagesimal { negative, head, digits, fraction } => FloatRepr::Sexagesimal {
            negative: !negative,
            head,
            digits,
            fraction,
        },
    }
}

/// The atom of an integer: `u64` and `i64` if it fits, 128 bits if it is
/// wider.
pub open spec fn int_atom_ok(a: Atom, negative: bool, magnitude: nat) -> bool {
    let v: int = if negative { -(magnitude as int) } else { magnitude as int };
    &&& int_value(a) == Some(v)
    &&& !negative && magnitude <= u64::MAX ==> a is U64
    &&& !negative && magnitude > u64::MAX ==> a is U128
    &&& negative && magnitude <= 0x8000_0000_0000_0000 ==> a is I64
    &&& negative && magnitude > 0x8000_0000_0000_0000 ==> a is I128
}

/// The atom of an integer: exact where it fits into 128 bits (with sign),
/// a float otherwise.
pub open spec fn int_result_ok(a: Atom, negative: bool, magnitude: nat) -> bool {
    if magnitude <= u128::MAX && (!negative || magnitude <= 0x8000_0000_0000_0000_0000_0000_0000_0000u128) {
        int_atom_ok(a, negative, magnitude)
    } else {
        match a {
            Atom::Float(FloatRepr::BigInt { negative: n, radix, digits }) => n == negative && digits_value(
                digits@,
                radix as nat,
            ) == magnitude,
            Atom::Float(FloatRepr::Sexagesimal { negative: n, head, digits, fraction }) => n == negative
                && fraction@.len() == 0 && base60_digits_value(digits_value(head@, 10), digits@) == magnitude,
            _ => false,
        }
    }
}

/// The value of base 60 digits after a head of value `head`.
pub open spec fn base60_digits_value(head: nat, digits: Seq<u8>) -> nat
    decreases digits.len(),
{
    if digits.len() == 0 {
        head
    } else {
        base60_digits_value(head, digits.drop_last()) * 60 + digits.last() as nat
    }
}

/// Makes an integer atom from sign and magnitude.  Integers that do not
/// fit are approximated as floats.
pub fn make_int(negative: bool, magnitude: Magnitude) -> (r: Atom)
    requires
        !(magnitude.approx is Decimal),
    ensures
        magnitude.value is Some && (!negative || magnitude.value->0 <= 0x8000_0000_0000_0000_0000_0000_0000_0000u128)
            ==> int_atom_ok(r, negative, magnitude.value->0 as nat),
        magnitude.value is Some && negative && magnitude.value->0 > 0x8000_0000_0000_0000_0000_0000_0000_0000u128
            ==> r == Atom::Float(negated(magnitude.approx)),
        magnitude.value is None ==> r == Atom::Float(if negative { negated(magnitude.approx) } else { magnitude.approx }),
{
    match magnitude.value {
        Some(value) => {
            if !negative {
                if value <= u64::MAX as u128 {
                    Atom::U64(value as u64)
                } else {
                    Atom::U128(value)
                }
            } else if value <= 0x8000_0000_0000_0000u128 {
                if value == 0x8000_0000_0000_0000u128 {
                    Atom::I64(i64::MIN)
                } else {
                    Atom::I64(-(value as i64))
                }
            } else if value <= 0x8000_0000_0000_0000_0000_0000_0000_0000u128 {
                if value == 0x8000_0000_0000_0000_0000_0000_0000_0000u128 {
                    Atom::I128(i128::MIN)
                } else {
                    Atom::I128(-(value as i128))
                }
            } else {
                Atom::Float(negate(magnitude.approx))
            }
        },
        None => {
            if negative {
                Atom::Float(negate(magnitude.approx))
            } else {
                Atom::Float(magnitude.approx)
            }
        },
    }
}

/// Splits off an optional sign.  Returns `true` for negative numbers.
pub fn split_sign(s: &[char]) -> (r: (bool, Vec<char>))
    ensures
        s@.len() > 0 && s@[0] == '-' ==> r.0 && r.1@ == s@.drop_first(),
        s@.len() > 0 && s@[0] == '+' ==> !r.0 && r.1@ == s@.drop_first(),
        !(s@.len() > 0 && (s@[0] == '-' || s@[0] == '+')) ==> !r.0 && r.1@ == s@,
{
    if s.len() > 0 && s[0] == '-' {
        (true, sub_chars(s, 1, s.len()))
    } else if s.len() > 0 && s[0] == '+' {
        (false, sub_chars(s, 1, s.len()))
    } else {
        let all = sub_chars(s, 0, s.len());
        assert(s@.subrange(0, s@.len() as int) =~= s@);
        (false, all)
    }
}

/// YAML 1.2 core schema integers: the sign and magnitude of
/// `[-+]?[0-9]+`, `0o[0-7]+`, `0x[0-9a-fA-F]+`.
pub open spec fn spec_core_int(s: Seq<char>) -> Option<(bool, nat)> {
    if s.len() >= 2 && s[0] == '0' && s[1] == 'o' {
        let rest = s.subrange(2, s.len() as int);
        if all_digits(rest, 8, false) && has_digit(rest, 8) { Some((false, digits_value(rest, 8))) } else { None }
    } else if s.len() >= 2 && s[0] == '0' && s[1] == 'x' {
        let rest = s.subrange(2, s.len() as int);
        if all_digits(rest, 16, false) && has_digit(rest, 16) { Some((false, digits_value(rest, 16))) } else { None }
    } else {
        let negative = s.len() > 0 && s[0] == '-';
        let digits = if s.len() > 0 && (s[0] == '-' || s[0] == '+') { s.drop_first() } else { s };
        if all_digits(digits, 10, false) && has_digit(digits, 10) {
            Some((negative, digits_value(digits, 10)))
        } else {
            None
        }
    }
}

/// YAML 1.2 core schema integers: `[-+]?[0-9]+`, `0o[0-7]+`, `0x[0-9a-fA-F]+`.
pub fn parse_core_int(s: &[char]) -> (r: Option<Atom>)
    ensures
        r is Some <==> spec_core_int(s@) is Some,
        r matches Some(a) ==> (spec_core_int(s@) matches Some((negative, magnitude))
            && int_result_ok(a, negative, magnitude)),
{
    if s.len() >= 2 && s[0] == '0' && s[1] == 'o' {
        let rest = sub_chars(s, 2, s.len());
        return match accumulate(&rest, 8, false) {
            Some(m) => Some(make_int(false, m)),
            None => None,
        };
    }
    if s.len() >= 2 && s[0] == '0' && s[1] == 'x' {
        let rest = sub_chars(s, 2, s.len());
        return match accumulate(&rest, 16, false) {
            Some(m) => Some(make_int(false, m)),
            None => None,
        };
    }
    let (negative, digits) = split_sign(s);
    match accumulate(&digits, 10, false) {
        Some(m) => Some(make_int(negative, m)),
        None => None,
    }
}


/// The value of the digits of a radix, if they are well formed.
pub open spec fn radix_value(d: Seq<char>, radix: nat, underscores: bool) -> Option<nat> {
    if all_digits(d, radix, underscores) && has_digit(d, radix) {
        Some(digits_value(d, radix))
    } else {
        None
    }
}

/// The parts of `s` between the separators (one more than separators).
pub open spec fn split_on(s: Seq<char>, sep: char) -> Seq<Seq<char>>
    decreases s.len(),
{
    if s.len() == 0 {
        seq![Seq::empty()]
    } else {
        let prev = split_on(s.drop_last(), sep);
        if s.last() == sep {
            prev.push(Seq::empty())
        } else {
            prev.update(prev.len() - 1, prev.last().push(s.last()))
        }
    }
}

proof fn lemma_split_on_len(s: Seq<char>, sep: char)
    ensures
        split_on(s, sep).len() >= 1,
    decreases s.len(),
{
    if s.len() > 0 {
        lemma_split_on_len(s.drop_last(), sep);
    }
}

/// Splits the characters at each separator.
pub fn split_chars(s: &[char], sep: char) -> (r: Vec<Vec<char>>)
    ensures
        r@.len() == split_on(s@, sep).len(),
        forall|j: int| 0 <= j < r@.len() ==> #[trigger] r@[j]@ == split_on(s@, sep)[j],
{
    let mut parts: Vec<Vec<char>> = Vec::new();
    let mut cur: Vec<char> = Vec::new();
    let mut i: usize = 0;
    assert(s@.take(0) =~= Seq::<char>::empty());
    while i < s.len()
        invariant
            i <= s.len(),
            split_on(s@.take(i as int), sep).len() == parts@.len() + 1,
            forall|j: int| 0 <= j < parts@.len() ==> #[trigger] parts@[j]@ == split_on(s@.take(i as int), sep)[j],
            cur@ == split_on(s@.take(i as int), sep).last(),
        decreases s.len() - i,
    {
        let c = s[i];
        proof {
            assert(s@.take(i + 1).drop_last() =~= s@.take(i as int));
            assert(s@.take(i + 1).last() == c);
        }
        if c == sep {
            let done = cur;
            parts.push(done);
            cur = Vec::new();
            assert(cur@ =~= Seq::<char>::empty());
        } else {
            cur.push(c);
        }
        i = i + 1;
    }
    assert(s@.take(s.len() as int) =~= s@);
    parts.push(cur);
    parts
}

/// Returns `true` if there is a separator in the characters.
pub fn contains_char(s: &[char], c: char) -> (r: bool)
    ensures
        r == s@.contains(c),
{
    let mut i: usize = 0;
    while i < s.len()
        invariant
            i <= s.len(),
            forall|j: int| 0 <= j < i ==> s@[j] != c,
        decreases s.len() - i,
    {
        if s[i] == c {
            assert(s@[i as int] == c);
            return true;
        }
        i = i + 1;
    }
    false
}

/// The value of a base 60 digit (`[0-9]` or `[0-5][0-9]`).
pub open spec fn base60_digit(p: Seq<char>) -> Option<nat> {
    if p.len() == 1 && '0' <= p[0] <= '9' {
        Some((p[0] as int - '0' as int) as nat)
    } else if p.len() == 2 && '0' <= p[0] <= '5' && '0' <= p[1] <= '9' {
        Some((10 * (p[0] as int - '0' as int) + (p[1] as int - '0' as int)) as nat)
    } else {
        None
    }
}

/// Returns `true` for a base 60 digit: `[0-9]` or `[0-5][0-9]`.
pub fn is_base60_digit(s: &[char]) -> (r: bool)
    ensures
        r == base60_digit(s@) is Some,
{
    (s.len() == 1 && '0' <= s[0] && s[0] <= '9') || (s.len() == 2 && '0' <= s[0] && s[0] <= '5' && '0'
        <= s[1] && s[1] <= '9')
}

fn base60_digit_value(s: &[char]) -> (r: u8)
    requires
        base60_digit(s@) is Some,
    ensures
        r as nat == base60_digit(s@)->0,
{
    if s.len() == 1 {
        ((s[0] as u32) - ('0' as u32)) as u8
    } else {
        (10 * ((s[0] as u32) - ('0' as u32)) + ((s[1] as u32) - ('0' as u32))) as u8
    }
}

/// The value of the base 60 number made of the parts: a decimal head
/// (with `_` separators) followed by base 60 digits.
pub open spec fn base60_value(parts: Seq<Seq<char>>) -> Option<nat>
    decreases parts.len(),
{
    if parts.len() == 0 {
        None
    } else if parts.len() == 1 {
        radix_value(parts[0], 10, true)
    } else {
        match base60_value(parts.drop_last()) {
            Some(v) => match base60_digit(parts.last()) {
                Some(d) => Some(v * 60 + d),
                None => None,
            },
            None => None,
        }
    }
}

/// Parses the base 60 integer `[1-9][0-9_]*(:[0-5]?[0-9])+`.
pub fn parse_base60(s: &[char]) -> (r: Option<Magnitude>)
    ensures
        r is Some <==> base60_value(split_on(s@, ':')) is Some,
        r matches Some(m) ==> (m.value is Some <==> base60_value(split_on(s@, ':'))->0 <= u128::MAX)
            && (m.value matches Some(v) ==> v == base60_value(split_on(s@, ':'))->0)
            && !(m.approx is Decimal)
            && (m.approx matches FloatRepr::Sexagesimal { negative: n, head, digits, fraction } && !n && fraction@.len() == 0
            && base60_digits_value(digits_value(head@, 10), digits@) == base60_value(split_on(s@, ':'))->0),
{
    let parts = split_chars(s, ':');
    let ghost sp = split_on(s@, ':');
    proof {
        lemma_split_on_len(s@, ':');
    }
    let head = match accumulate(&parts[0], 10, true) {
        Some(m) => m,
        None => {
            proof {
                lemma_base60_prefix_none(sp, sp.len());
                assert(sp.take(sp.len() as int) =~= sp);
            }
            return None;
        },
    };
    let mut value = head.value;
    let mut head_digits: Vec<char> = Vec::new();
    match head.approx {
        FloatRepr::BigInt { digits: hd, .. } => {
            head_digits = hd;
        },
        _ => {},
    }
    let mut digits: Vec<u8> = Vec::new();
    let mut k: usize = 1;
    assert(sp.take(1).drop_last() =~= Seq::<Seq<char>>::empty());
    assert(base60_value(sp.take(1)) == radix_value(sp[0], 10, true));
    while k < parts.len()
        invariant
            1 <= k <= parts@.len(),
            sp == split_on(s@, ':'),
            parts@.len() == sp.len(),
            forall|j: int| 0 <= j < parts@.len() ==> #[trigger] parts@[j]@ == sp[j],
            base60_value(sp.take(k as int)) is Some,
            value is Some <==> base60_value(sp.take(k as int))->0 <= u128::MAX,
            value matches Some(v) ==> v == base60_value(sp.take(k as int))->0,
            base60_digits_value(digits_value(head_digits@, 10), digits@) == base60_value(sp.take(k as int))->0,
        decreases parts@.len() - k,
    {
        proof {
            assert(sp.take(k + 1).drop_last() =~= sp.take(k as int));
            assert(sp.take(k + 1).last() == sp[k as int]);
        }
        if !is_base60_digit(&parts[k]) {
            proof {
                assert(base60_value(sp.take(k + 1)) is None);
                lemma_base60_none_extends(sp, (k + 1) as nat, sp.len());
                assert(sp.take(sp.len() as int) =~= sp);
            }
            return None;
        }
        let d = base60_digit_value(&parts[k]);
        let ghost before = digits@;
        digits.push(d);
        assert(digits@.drop_last() =~= before);
        value = match value {
            Some(v) => match v.checked_mul(60) {
                Some(w) => w.checked_add(d as u128),
                None => None,
            },
            None => None,
        };
        k = k + 1;
    }
    assert(sp.take(sp.len() as int) =~= sp);
    Some(Magnitude {
        value,
        approx: FloatRepr::Sexagesimal { negative: false, head: head_digits, digits, fraction: Vec::new() },
    })
}

proof fn lemma_base60_prefix_none(sp: Seq<Seq<char>>, k: nat)
    requires
        1 <= k <= sp.len(),
        radix_value(sp[0], 10, true) is None,
    ensures
        base60_value(sp.take(k as int)) is None,
    decreases k,
{
    if k == 1 {
        assert(sp.take(1)[0] == sp[0]);
    } else {
        assert(sp.take(k as int).drop_last() =~= sp.take(k - 1));
        lemma_base60_prefix_none(sp, (k - 1) as nat);
    }
}

proof fn lemma_base60_none_extends(sp: Seq<Seq<char>>, k: nat, n: nat)
    requires
        2 <= k <= n <= sp.len(),
        base60_value(sp.take(k as int)) is None,
    ensures
        base60_value(sp.take(n as int)) is None,
    decreases n - k,
{
    if n > k {
        lemma_base60_none_extends(sp, k, (n - 1) as nat);
        assert(sp.take(n as int).drop_last() =~= sp.take(n - 1));
    }
}


/// YAML 1.1 integers: the sign and magnitude of binary (`0b`), octal
/// (`0` prefix), decimal, hexadecimal (`0x`) and base 60 integers, all with
/// an optional sign and `_` separators.
pub open spec fn spec_yaml11_int(s: Seq<char>) -> Option<(bool, nat)> {
    let negative = s.len() > 0 && s[0] == '-';
    let rest = if s.len() > 0 && (s[0] == '-' || s[0] == '+') { s.drop_first() } else { s };
    let magnitude = if rest.len() >= 2 && rest[0] == '0' && rest[1] == 'b' {
        radix_value(rest.subrange(2, rest.len() as int), 2, true)
    } else if rest.len() >= 2 && rest[0] == '0' && rest[1] == 'x' {
        radix_value(rest.subrange(2, rest.len() as int), 16, true)
    } else if rest == seq!['0'] {
        Some(0nat)
    } else if rest.len() >= 1 && rest[0] == '0' {
        radix_value(rest.drop_first(), 8, true)
    } else if rest.len() >= 1 && '1' <= rest[0] <= '9' {
        if rest.contains(':') {
            base60_value(split_on(rest, ':'))
        } else {
            radix_value(rest, 10, true)
        }
    } else {
        None
    };
    match magnitude {
        Some(m) => Some((negative, m)),
        None => None,
    }
}

/// YAML 1.1 integers: binary, octal, decimal, hexadecimal and base 60, all
/// with an optional sign and `_` separators.
pub fn parse_yaml11_int(s: &[char]) -> (r: Option<Atom>)
    ensures
        r is Some <==> spec_yaml11_int(s@) is Some,
        r matches Some(a) ==> (spec_yaml11_int(s@) matches Some((negative, magnitude))
            && int_result_ok(a, negative, magnitude)),
{
    let (negative, rest) = split_sign(s);
    let ghost rs = rest@;
    let magnitude = if rest.len() >= 2 && rest[0] == '0' && rest[1] == 'b' {
        let digits = sub_chars(&rest, 2, rest.len());
        accumulate(&digits, 2, true)
    } else if rest.len() >= 2 && rest[0] == '0' && rest[1] == 'x' {
        let digits = sub_chars(&rest, 2, rest.len());
        accumulate(&digits, 16, true)
    } else if rest.len() == 1 && rest[0] == '0' {
        assert(rs =~= seq!['0']);
        assert(seq!['0'].drop_last() =~= Seq::<char>::empty());
        assert(spec_digit('0', 10) == Some(0nat));
        assert(seq!['0'].last() == '0');
        assert(digits_value(seq!['0'], 10) == 0) by {
            reveal_with_fuel(digits_value, 2);
        }
        accumulate(&rest, 10, false)
    } else if rest.len() >= 1 && rest[0] == '0' {
        assert(rs != seq!['0']);
        let digits = sub_chars(&rest, 1, rest.len());
        assert(digits@ =~= rs.drop_first());
        accumulate(&digits, 8, true)
    } else if rest.len() >= 1 && '1' <= rest[0] && rest[0] <= '9' {
        assert(rs != seq!['0']);
        if contains_char(&rest, ':') {
            parse_base60(&rest)
        } else {
            accumulate(&rest, 10, true)
        }
    } else {
        assert(rs != seq!['0']);
        None
    };
    match magnitude {
        Some(m) => Some(make_int(negative, m)),
        None => None,
    }
}


// -- floats -----------------------------------------------------------------

pub open spec fn is_ascii_digit(c: char) -> bool {
    '0' <= c <= '9'
}

/// The end of the run of ASCII digits (and `_` if allowed) from `i`.
pub open spec fn run_end(s: Seq<char>, i: int, underscores: bool) -> int
    decreases s.len() - i,
{
    if 0 <= i < s.len() && (is_ascii_digit(s[i]) || (underscores && s[i] == '_')) {
        run_end(s, i + 1, underscores)
    } else {
        i
    }
}

/// The number of ASCII digits.
pub open spec fn count_digits(s: Seq<char>) -> nat
    decreases s.len(),
{
    if s.len() == 0 {
        0
    } else {
        count_digits(s.drop_last()) + if is_ascii_digit(s.last()) { 1nat } else { 0nat }
    }
}

/// Where an exponent (`[eE][-+]?[0-9]+`) that may start at `p` ends: `p`
/// itself if there is none, `None` if it is malformed.
pub open spec fn exponent_end(s: Seq<char>, p: int, sign_required: bool) -> Option<int> {
    if 0 <= p < s.len() && (s[p] == 'e' || s[p] == 'E') {
        let q = p + 1;
        let has_sign = q < s.len() && (s[q] == '-' || s[q] == '+');
        if !has_sign && sign_required {
            None
        } else {
            let d = if has_sign { q + 1 } else { q };
            if run_end(s, d, false) > d {
                Some(run_end(s, d, false))
            } else {
                None
            }
        }
    } else {
        Some(p)
    }
}

proof fn lemma_run_end_bounds(s: Seq<char>, i: int, underscores: bool)
    requires
        0 <= i <= s.len(),
    ensures
        i <= run_end(s, i, underscores) <= s.len(),
    decreases s.len() - i,
{
    if i < s.len() && (is_ascii_digit(s[i]) || (underscores && s[i] == '_')) {
        lemma_run_end_bounds(s, i + 1, underscores);
    }
}

/// Skips ASCII digits (and `_` if allowed) and returns the number of
/// digits.
fn skip_digits(s: &[char], pos: &mut usize, underscores: bool) -> (count: usize)
    requires
        *old(pos) <= s@.len(),
    ensures
        *final(pos) == run_end(s@, *old(pos) as int, underscores),
        *old(pos) <= *final(pos) <= s@.len(),
        count == count_digits(s@.subrange(*old(pos) as int, *final(pos) as int)),
        !underscores ==> count == *final(pos) - *old(pos),
{
    let start = *pos;
    let mut count: usize = 0;
    assert(s@.subrange(start as int, start as int) =~= Seq::<char>::empty());
    while *pos < s.len() && (('0' <= s[*pos] && s[*pos] <= '9') || (underscores && s[*pos] == '_'))
        invariant
            start <= *pos <= s@.len(),
            run_end(s@, *pos as int, underscores) == run_end(s@, start as int, underscores),
            count == count_digits(s@.subrange(start as int, *pos as int)),
            count <= *pos - start,
            !underscores ==> count == *pos - start,
        decreases s@.len() - *pos,
    {
        let c = s[*pos];
        assert(s@.subrange(start as int, *pos + 1).drop_last() =~= s@.subrange(start as int, *pos as int));
        assert(s@.subrange(start as int, *pos + 1).last() == c);
        if '0' <= c && c <= '9' {
            count = count + 1;
        }
        *pos = *pos + 1;
    }
    count
}

/// Skips an exponent (`[eE][-+]?[0-9]+`) if there is one.  Returns `false`
/// if the exponent is malformed.
fn skip_exponent(s: &[char], pos: &mut usize, sign_required: bool) -> (r: bool)
    requires
        *old(pos) <= s@.len(),
    ensures
        r == exponent_end(s@, *old(pos) as int, sign_required) is Some,
        r ==> *final(pos) == exponent_end(s@, *old(pos) as int, sign_required)->0,
        *final(pos) <= s@.len(),
{
    if !(*pos < s.len() && (s[*pos] == 'e' || s[*pos] == 'E')) {
        return true;
    }
    *pos = *pos + 1;
    if *pos < s.len() && (s[*pos] == '-' || s[*pos] == '+') {
        *pos = *pos + 1;
    } else if sign_required {
        return false;
    }
    let count = skip_digits(s, pos, false);
    count > 0
}

/// The special float values: `.nan` and `[-+]?.inf` in three spellings.
pub open spec fn special_float(s: Seq<char>) -> Option<FloatRepr> {
    if s == ".nan"@ || s == ".NaN"@ || s == ".NAN"@ {
        Some(FloatRepr::NaN)
    } else {
        let negative = s.len() > 0 && s[0] == '-';
        let rest = if s.len() > 0 && (s[0] == '-' || s[0] == '+') { s.drop_first() } else { s };
        if rest == ".inf"@ || rest == ".Inf"@ || rest == ".INF"@ {
            Some(FloatRepr::Infinity { negative })
        } else {
            None
        }
    }
}

fn parse_special_float(s: &[char]) -> (r: Option<FloatRepr>)
    ensures
        r == special_float(s@),
{
    if eq_str(s, ".nan") || eq_str(s, ".NaN") || eq_str(s, ".NAN") {
        return Some(FloatRepr::NaN);
    }
    let (negative, rest) = split_sign(s);
    if eq_str(&rest, ".inf") || eq_str(&rest, ".Inf") || eq_str(&rest, ".INF") {
        Some(FloatRepr::Infinity { negative })
    } else {
        None
    }
}

/// The YAML 1.2 core schema float syntax
/// `[-+]?(\.[0-9]+|[0-9]+(\.[0-9]*)?)([eE][-+]?[0-9]+)?`.
pub open spec fn core_float_syntax(s: Seq<char>) -> bool {
    let p0: int = if s.len() > 0 && (s[0] == '-' || s[0] == '+') { 1 } else { 0 };
    let p1 = run_end(s, p0, false);
    let has_dot = p1 < s.len() && s[p1] == '.';
    let p2 = if has_dot { run_end(s, p1 + 1, false) } else { p1 };
    let frac = if has_dot { p2 - (p1 + 1) } else { 0 };
    &&& (has_dot || p1 > p0)
    &&& (p1 - p0) + frac > 0
    &&& exponent_end(s, p2, false) == Some(s.len() as int)
}

/// The float that a decimal literal stands for.
pub open spec fn is_decimal(a: Atom, text: Seq<char>) -> bool {
    a matches Atom::Float(FloatRepr::Decimal(t)) && t@ == text
}

/// YAML 1.2 core schema floats:
/// `[-+]?(\.[0-9]+|[0-9]+(\.[0-9]*)?)([eE][-+]?[0-9]+)?` and the special
/// values.
pub fn parse_core_float(s: &[char]) -> (r: Option<Atom>)
    ensures
        r is Some <==> special_float(s@) is Some || core_float_syntax(s@),
        special_float(s@) matches Some(f) ==> r == Some(Atom::Float(f)),
        special_float(s@) is None && core_float_syntax(s@) ==> is_decimal(r->0, s@),
{
    if let Some(f) = parse_special_float(s) {
        return Some(Atom::Float(f));
    }
    let mut pos: usize = if s.len() > 0 && (s[0] == '-' || s[0] == '+') { 1 } else { 0 };
    let p0 = pos;
    let int_digits = skip_digits(s, &mut pos, false);
    let p1 = pos;
    let mut frac_digits: usize = 0;
    if pos < s.len() && s[pos] == '.' {
        pos = pos + 1;
        frac_digits = skip_digits(s, &mut pos, false);
    } else if int_digits == 0 {
        return None;
    }
    if int_digits == 0 && frac_digits == 0 {
        return None;
    }
    if !skip_exponent(s, &mut pos, false) || pos != s.len() {
        return None;
    }
    let text = sub_chars(s, 0, s.len());
    assert(s@.subrange(0, s@.len() as int) =~= s@);
    Some(Atom::Float(FloatRepr::Decimal(text)))
}


/// The YAML 1.1 float syntax without sign and without base 60:
/// `[0-9][0-9_]*\.[0-9_]*([eE][-+][0-9]+)?` and
/// `\.[0-9][0-9_]*([eE][-+][0-9]+)?`.
pub open spec fn yaml11_float_syntax(rest: Seq<char>) -> bool {
    if rest.len() > 0 && is_ascii_digit(rest[0]) {
        let p = run_end(rest, 0, true);
        p < rest.len() && rest[p] == '.' && exponent_end(rest, run_end(rest, p + 1, true), true) == Some(
            rest.len() as int,
        )
    } else if rest.len() >= 2 && rest[0] == '.' && is_ascii_digit(rest[1]) {
        exponent_end(rest, run_end(rest, 1, true), true) == Some(rest.len() as int)
    } else {
        false
    }
}

/// A YAML 1.1 float that starts like a base 60 number (`[0-9][0-9_]*:`).
pub open spec fn is_base60_start(rest: Seq<char>) -> bool {
    rest.len() > 0 && is_ascii_digit(rest[0]) && run_end(rest, 0, true) < rest.len() && rest[run_end(
        rest,
        0,
        true,
    )] == ':'
}

/// The position of the first occurrence of a character.
pub open spec fn find_char(s: Seq<char>, c: char) -> Option<int>
    decreases s.len(),
{
    if s.len() == 0 {
        None
    } else if s[0] == c {
        Some(0)
    } else {
        match find_char(s.drop_first(), c) {
            Some(k) => Some(k + 1),
            None => None,
        }
    }
}

pub proof fn lemma_find_char(s: Seq<char>, c: char)
    ensures
        find_char(s, c) matches Some(k) ==> 0 <= k < s.len() && s[k] == c && forall|j: int| 0 <= j < k ==> s[j] != c,
        find_char(s, c) is None ==> forall|j: int| 0 <= j < s.len() ==> s[j] != c,
    decreases s.len(),
{
    if s.len() > 0 {
        lemma_find_char(s.drop_first(), c);
        if s[0] != c {
            assert forall|j: int| 1 <= j < s.len() implies s[j] == s.drop_first()[j - 1] by {}
        }
    }
}

/// Returns the position of the first occurrence of a character.
pub fn position_of(s: &[char], c: char) -> (r: Option<usize>)
    ensures
        r matches Some(k) ==> find_char(s@, c) == Some(k as int),
        r is None ==> find_char(s@, c) is None,
{
    let mut i: usize = 0;
    while i < s.len()
        invariant
            i <= s.len(),
            forall|j: int| 0 <= j < i ==> s@[j] != c,
        decreases s.len() - i,
    {
        if s[i] == c {
            proof {
                lemma_find_char(s@, c);
                if find_char(s@, c) != Some(i as int) {
                    match find_char(s@, c) {
                        Some(k) => {
                            if k < i {
                            } else {
                                assert(s@[i as int] != c);
                            }
                        },
                        None => {},
                    }
                }
            }
            return Some(i);
        }
        i = i + 1;
    }
    proof {
        lemma_find_char(s@, c);
        if find_char(s@, c) is Some {
            let k = find_char(s@, c)->0;
            assert(s@[k] == c);
        }
    }
    None
}

/// The base 60 digits after the head (all parts but the first).
pub open spec fn base60_tail(parts: Seq<Seq<char>>) -> Seq<nat> {
    Seq::new((parts.len() - 1) as nat, |k: int| base60_digit(parts[k + 1])->0)
}

/// A base 60 float `[0-9][0-9_]*(:[0-5]?[0-9])+\.[0-9_]*` without sign:
/// the head, the base 60 digits and the fraction digits (without `_`).
pub open spec fn base60_float(rest: Seq<char>) -> Option<(Seq<char>, Seq<nat>, Seq<char>)> {
    match find_char(rest, '.') {
        None => None,
        Some(i) => {
            let parts = split_on(rest.take(i), ':');
            let frac = rest.skip(i + 1);
            if radix_value(parts[0], 10, true) is Some && parts.len() >= 2 && (forall|k: int|
                1 <= k < parts.len() ==> #[trigger] base60_digit(parts[k]) is Some) && (forall|k: int|
                0 <= k < frac.len() ==> is_ascii_digit(#[trigger] frac[k]) || frac[k] == '_') {
                Some((strip_underscores(parts[0]), base60_tail(parts), strip_underscores(frac)))
            } else {
                None
            }
        },
    }
}

/// The float atom of a base 60 float.
pub open spec fn is_sexagesimal(a: Atom, negative: bool, v: (Seq<char>, Seq<nat>, Seq<char>)) -> bool {
    a matches Atom::Float(FloatRepr::Sexagesimal { negative: n, head, digits, fraction }) && n == negative
        && head@ == v.0 && digits@.map_values(|d: u8| d as nat) == v.1 && fraction@ == v.2
}

/// Parses `[0-9][0-9_]*(:[0-5]?[0-9])+\.[0-9_]*`.
fn parse_base60_float(negative: bool, s: &[char]) -> (r: Option<Atom>)
    ensures
        r is Some <==> base60_float(s@) is Some,
        r is Some ==> is_sexagesimal(r->0, negative, base60_float(s@)->0),
{
    let dot = match position_of(s, '.') {
        Some(i) => i,
        None => return None,
    };
    proof {
        lemma_find_char(s@, '.');
    }
    assert(dot < s@.len());
    let n = s.len();
    assert(dot < n);
    let int_part = sub_chars(s, 0, dot);
    let frac = sub_chars(s, dot + 1, s.len());
    assert(int_part@ =~= s@.take(dot as int));
    assert(frac@ =~= s@.skip(dot + 1));
    let parts = split_chars(&int_part, ':');
    let ghost sp = split_on(int_part@, ':');
    proof {
        lemma_split_on_len(int_part@, ':');
        assert(find_char(s@, '.') == Some(dot as int));
        assert(sp == split_on(s@.take(dot as int), ':'));
    }
    if accumulate(&parts[0], 10, true).is_none() {
        assert(base60_float(s@) is None);
        return None;
    }
    if parts.len() < 2 {
        assert(base60_float(s@) is None);
        return None;
    }
    let mut digits: Vec<u8> = Vec::new();
    let mut k: usize = 1;
    while k < parts.len()
        invariant
            1 <= k <= parts@.len(),
            sp == split_on(int_part@, ':'),
            parts@.len() == sp.len(),
            forall|j: int| 0 <= j < parts@.len() ==> #[trigger] parts@[j]@ == sp[j],
            digits@.len() == k - 1,
            forall|j: int| 1 <= j < k ==> #[trigger] base60_digit(sp[j]) is Some,
            forall|j: int| 0 <= j < k - 1 ==> digits@[j] as nat == #[trigger] base60_digit(sp[j + 1])->0,
            find_char(s@, '.') == Some(dot as int),
            sp == split_on(s@.take(dot as int), ':'),
        decreases parts@.len() - k,
    {
        if !is_base60_digit(&parts[k]) {
            assert(base60_digit(sp[k as int]) is None);
            assert(base60_float(s@) is None);
            return None;
        }
        let d = base60_digit_value(&parts[k]);
        digits.push(d);
        k = k + 1;
    }
    let mut j: usize = 0;
    while j < frac.len()
        invariant
            j <= frac@.len(),
            forall|i: int| 0 <= i < j ==> is_ascii_digit(#[trigger] frac@[i]) || frac@[i] == '_',
            frac@ == s@.skip(dot + 1),
            find_char(s@, '.') == Some(dot as int),
        decreases frac@.len() - j,
    {
        if !(('0' <= frac[j] && frac[j] <= '9') || frac[j] == '_') {
            assert(!(is_ascii_digit(frac@[j as int]) || frac@[j as int] == '_'));
            assert(base60_float(s@) is None);
            return None;
        }
        j = j + 1;
    }
    let head = remove_underscores(&parts[0]);
    let fraction = remove_underscores(&frac);
    assert(digits@.map_values(|d: u8| d as nat) =~= base60_tail(sp));
    Some(Atom::Float(FloatRepr::Sexagesimal { negative, head, digits, fraction }))
}

/// YAML 1.1 floats, without the special values: the sign and the text.
pub open spec fn yaml11_float_ok(s: Seq<char>, a: Atom) -> bool {
    let negative = s.len() > 0 && s[0] == '-';
    let rest = if s.len() > 0 && (s[0] == '-' || s[0] == '+') { s.drop_first() } else { s };
    if is_base60_start(rest) {
        base60_float(rest) is Some && is_sexagesimal(a, negative, base60_float(rest)->0)
    } else {
        yaml11_float_syntax(rest) && is_decimal(a, strip_underscores(s))
    }
}

/// Returns `true` if the text is a YAML 1.1 float.
pub open spec fn is_yaml11_float(s: Seq<char>) -> bool {
    let rest = if s.len() > 0 && (s[0] == '-' || s[0] == '+') { s.drop_first() } else { s };
    special_float(s) is Some || (if is_base60_start(rest) {
        base60_float(rest) is Some
    } else {
        yaml11_float_syntax(rest)
    })
}

/// YAML 1.1 floats: `[-+]?[0-9][0-9_]*\.[0-9_]*([eE][-+][0-9]+)?`,
/// `[-+]?\.[0-9][0-9_]*([eE][-+][0-9]+)?`, base 60 floats and the special
/// values.
pub fn parse_yaml11_float(s: &[char]) -> (r: Option<Atom>)
    ensures
        r is Some <==> is_yaml11_float(s@),
        special_float(s@) matches Some(f) ==> r == Some(Atom::Float(f)),
        special_float(s@) is None && r is Some ==> yaml11_float_ok(s@, r->0),
{
    if let Some(f) = parse_special_float(s) {
        return Some(Atom::Float(f));
    }
    let (negative, rest) = split_sign(s);
    let mut pos: usize = 0;
    if rest.len() > 0 && '0' <= rest[0] && rest[0] <= '9' {
        skip_digits(&rest, &mut pos, true);
        if pos < rest.len() && rest[pos] == ':' {
            return parse_base60_float(negative, &rest);
        }
        if !(pos < rest.len() && rest[pos] == '.') {
            return None;
        }
        pos = pos + 1;
        skip_digits(&rest, &mut pos, true);
    } else if rest.len() >= 2 && rest[0] == '.' && '0' <= rest[1] && rest[1] <= '9' {
        pos = 1;
        skip_digits(&rest, &mut pos, true);
    } else {
        return None;
    }
    if !skip_exponent(&rest, &mut pos, true) || pos != rest.len() {
        return None;
    }
    let text = remove_underscores(s);
    Some(Atom::Float(FloatRepr::Decimal(text)))
}


// -- null, booleans, binary -------------------------------------------------

/// The spellings of null.
pub open spec fn is_null_word(s: Seq<char>) -> bool {
    s == ""@ || s == "~"@ || s == "null"@ || s == "Null"@ || s == "NULL"@
}

/// The spellings of booleans: `true`/`false` in three cases, and in YAML
/// 1.1 also `y`, `yes`, `on`, `n`, `no`, `off` in their spellings.
pub open spec fn bool_word(s: Seq<char>, version: Version) -> Option<bool> {
    if s == "true"@ || s == "True"@ || s == "TRUE"@ {
        Some(true)
    } else if s == "false"@ || s == "False"@ || s == "FALSE"@ {
        Some(false)
    } else if version == Version::V1_1 && (s == "y"@ || s == "Y"@ || s == "yes"@ || s == "Yes"@ || s == "YES"@
        || s == "on"@ || s == "On"@ || s == "ON"@) {
        Some(true)
    } else if version == Version::V1_1 && (s == "n"@ || s == "N"@ || s == "no"@ || s == "No"@ || s == "NO"@
        || s == "off"@ || s == "Off"@ || s == "OFF"@) {
        Some(false)
    } else {
        None
    }
}

/// The spellings of true in YAML 1.2 (and 1.1).
pub open spec fn core_true_words() -> Set<Seq<char>> {
    set!["true"@, "True"@, "TRUE"@]
}

/// The spellings of false in YAML 1.2 (and 1.1).
pub open spec fn core_false_words() -> Set<Seq<char>> {
    set!["false"@, "False"@, "FALSE"@]
}

/// The further spellings of true in YAML 1.1.
pub open spec fn yaml11_true_words() -> Set<Seq<char>> {
    set!["y"@, "Y"@, "yes"@, "Yes"@, "YES"@, "on"@, "On"@, "ON"@]
}

/// The further spellings of false in YAML 1.1.
pub open spec fn yaml11_false_words() -> Set<Seq<char>> {
    set!["n"@, "N"@, "no"@, "No"@, "NO"@, "off"@, "Off"@, "OFF"@]
}

/// Booleans are read by their spelling: each spelling of true is true and
/// each spelling of false is false (so no word is both), the YAML 1.1
/// spellings count in YAML 1.1 only, and no other word is a boolean.
pub proof fn lemma_bool_words(s: Seq<char>, version: Version)
    ensures
        core_true_words().contains(s) ==> bool_word(s, version) == Some(true),
        core_false_words().contains(s) ==> bool_word(s, version) == Some(false),
        yaml11_true_words().contains(s) ==> bool_word(s, Version::V1_1) == Some(true)
            && bool_word(s, Version::V1_2) is None,
        yaml11_false_words().contains(s) ==> bool_word(s, Version::V1_1) == Some(false)
            && bool_word(s, Version::V1_2) is None,
        !core_true_words().contains(s) && !core_false_words().contains(s) && !yaml11_true_words().contains(s)
            && !yaml11_false_words().contains(s) ==> bool_word(s, version) is None,
{
    reveal_strlit("y");
    reveal_strlit("Y");
    reveal_strlit("yes");
    reveal_strlit("Yes");
    reveal_strlit("YES");
    reveal_strlit("on");
    reveal_strlit("On");
    reveal_strlit("ON");
    reveal_strlit("n");
    reveal_strlit("N");
    reveal_strlit("no");
    reveal_strlit("No");
    reveal_strlit("NO");
    reveal_strlit("off");
    reveal_strlit("Off");
    reveal_strlit("OFF");
    reveal_strlit("true");
    reveal_strlit("True");
    reveal_strlit("TRUE");
    reveal_strlit("false");
    reveal_strlit("False");
    reveal_strlit("FALSE");
    if s == "y"@ {
        assert(s.len() == 1 && s[0] == 'y');
    }
    if s == "Y"@ {
        assert(s.len() == 1 && s[0] == 'Y');
    }
    if s == "yes"@ {
        assert(s.len() == 3 && s[0] == 'y');
    }
    if s == "Yes"@ {
        assert(s.len() == 3 && s[0] == 'Y');
    }
    if s == "YES"@ {
        assert(s.len() == 3 && s[0] == 'Y');
    }
    if s == "on"@ {
        assert(s.len() == 2 && s[0] == 'o');
    }
    if s == "On"@ {
        assert(s.len() == 2 && s[0] == 'O');
    }
    if s == "ON"@ {
        assert(s.len() == 2 && s[0] == 'O');
    }
    if s == "n"@ {
        assert(s.len() == 1 && s[0] == 'n');
    }
    if s == "N"@ {
        assert(s.len() == 1 && s[0] == 'N');
    }
    if s == "no"@ {
        assert(s.len() == 2 && s[0] == 'n');
    }
    if s == "No"@ {
        assert(s.len() == 2 && s[0] == 'N');
    }
    if s == "NO"@ {
        assert(s.len() == 2 && s[0] == 'N');
    }
    if s == "off"@ {
        assert(s.len() == 3 && s[0] == 'o');
    }
    if s == "Off"@ {
        assert(s.len() == 3 && s[0] == 'O');
    }
    if s == "OFF"@ {
        assert(s.len() == 3 && s[0] == 'O');
    }
    if s == "true"@ {
        assert(s.len() == 4 && s[0] == 't');
    }
    if s == "True"@ {
        assert(s.len() == 4 && s[0] == 'T');
    }
    if s == "TRUE"@ {
        assert(s.len() == 4 && s[0] == 'T');
    }
    if s == "false"@ {
        assert(s.len() == 5 && s[0] == 'f');
    }
    if s == "False"@ {
        assert(s.len() == 5 && s[0] == 'F');
    }
    if s == "FALSE"@ {
        assert(s.len() == 5 && s[0] == 'F');
    }
}

fn parse_null(s: &[char]) -> (r: Option<Atom>)
    ensures
        is_null_word(s@) ==> r == Some(Atom::Null),
        !is_null_word(s@) ==> r is None,
{
    if eq_str(s, "") || eq_str(s, "~") || eq_str(s, "null") || eq_str(s, "Null") || eq_str(s, "NULL") {
        Some(Atom::Null)
    } else {
        None
    }
}

fn parse_bool(s: &[char], version: Version) -> (r: Option<Atom>)
    ensures
        bool_word(s@, version) matches Some(b) ==> r == Some(Atom::Bool(b)),
        bool_word(s@, version) is None ==> r is None,
{
    if eq_str(s, "true") || eq_str(s, "True") || eq_str(s, "TRUE") {
        Some(Atom::Bool(true))
    } else if eq_str(s, "false") || eq_str(s, "False") || eq_str(s, "FALSE") {
        Some(Atom::Bool(false))
    } else if version == Version::V1_1 && (eq_str(s, "y") || eq_str(s, "Y") || eq_str(s, "yes") || eq_str(
        s,
        "Yes",
    ) || eq_str(s, "YES") || eq_str(s, "on") || eq_str(s, "On") || eq_str(s, "ON")) {
        Some(Atom::Bool(true))
    } else if version == Version::V1_1 && (eq_str(s, "n") || eq_str(s, "N") || eq_str(s, "no") || eq_str(
        s,
        "No",
    ) || eq_str(s, "NO") || eq_str(s, "off") || eq_str(s, "Off") || eq_str(s, "OFF")) {
        Some(Atom::Bool(false))
    } else {
        None
    }
}

/// An integer atom as float: the sign and magnitude of its value.
pub open spec fn is_float_of(f: Atom, a: Atom) -> bool {
    match a {
        Atom::Float(_) => f == a,
        _ => f matches Atom::Float(FloatRepr::Int { negative, magnitude }) && int_value(a) == Some(
            if negative { -(magnitude as int) } else { magnitude as int },
        ) && (magnitude == 0 ==> !negative),
    }
}

/// Converts an integer atom (or a float) to a float.
fn int_to_float(atom: Atom) -> (r: Atom)
    requires
        int_value(atom) is Some || atom is Float,
    ensures
        is_float_of(r, atom),
{
    match atom {
        Atom::U64(v) => Atom::Float(FloatRepr::Int { negative: false, magnitude: v as u128 }),
        Atom::I64(v) => {
            if v < 0 {
                let m: u128 = if v == i64::MIN { 0x8000_0000_0000_0000u128 } else { (-v) as u128 };
                Atom::Float(FloatRepr::Int { negative: true, magnitude: m })
            } else {
                Atom::Float(FloatRepr::Int { negative: false, magnitude: v as u128 })
            }
        },
        Atom::U128(v) => Atom::Float(FloatRepr::Int { negative: false, magnitude: v }),
        Atom::I128(v) => {
            if v < 0 {
                let m: u128 = if v == i128::MIN { 0x8000_0000_0000_0000_0000_0000_0000_0000u128 } else { (-v) as u128 };
                Atom::Float(FloatRepr::Int { negative: true, magnitude: m })
            } else {
                Atom::Float(FloatRepr::Int { negative: false, magnitude: v as u128 })
            }
        },
        Atom::Float(f) => Atom::Float(f),
        _ => {
            assert(false);
            Atom::Null
        },
    }
}

/// ASCII whitespace (space, tab, line feed, form feed, carriage return).
pub open spec fn is_ascii_ws(c: char) -> bool {
    c == ' ' || c == '\t' || c == '\n' || c == '\x0C' || c == '\r'
}

/// The characters without ASCII whitespace.
pub open spec fn without_ws(s: Seq<char>) -> Seq<char>
    decreases s.len(),
{
    if s.len() == 0 {
        s
    } else {
        let prev = without_ws(s.drop_last());
        if is_ascii_ws(s.last()) {
            prev
        } else {
            prev.push(s.last())
        }
    }
}

/// Where the padding starts: at the first `=`, else at the end.
pub open spec fn padding_start(syms: Seq<char>) -> int {
    match find_char(syms, '=') {
        Some(i) => i,
        None => syms.len() as int,
    }
}

/// The bytes of a `!!binary` value: base64 with the standard alphabet and
/// padding, whitespace is ignored.
pub open spec fn binary_value(s: Seq<char>) -> Option<Seq<u8>> {
    let syms = without_ws(s);
    let p = padding_start(syms);
    if (forall|k: int| 0 <= k < p ==> #[trigger] std_b64_value(syms[k]) is Some) && (forall|k: int|
        p <= k < syms.len() ==> #[trigger] syms[k] == '=') && syms.len() % 4 == 0 && syms.len() - p <= 2 {
        Some(decoded_values(syms.take(p).map_values(|c: char| b64_value(c)->0)))
    } else {
        None
    }
}

proof fn lemma_find_char_push(s: Seq<char>, c: char, x: char)
    ensures
        find_char(s.push(c), x) == match find_char(s, x) {
            Some(k) => Some(k),
            None => if c == x { Some(s.len() as int) } else { None },
        },
    decreases s.len(),
{
    if s.len() > 0 {
        assert(s.push(c).drop_first() =~= s.drop_first().push(c));
        assert(s.push(c)[0] == s[0]);
        lemma_find_char_push(s.drop_first(), c, x);
    } else {
        assert(s.push(c).drop_first() =~= Seq::<char>::empty());
        assert(s.push(c)[0] == c);
        assert(find_char(Seq::<char>::empty(), x) is None);
    }
}

/// Decodes base64 as used by `!!binary`.  Whitespace is ignored.
pub fn decode_binary(s: &[char]) -> (r: Option<Vec<u8>>)
    ensures
        r is Some <==> binary_value(s@) is Some,
        r matches Some(v) ==> v@ == binary_value(s@)->0,
{
    let mut vals: Vec<u32> = Vec::new();
    let mut padding: usize = 0;
    let mut count: usize = 0;
    let mut i: usize = 0;
    assert(s@.take(0) =~= Seq::<char>::empty());
    while i < s.len()
        invariant
            i <= s@.len(),
            count == without_ws(s@.take(i as int)).len(),
            count <= i,
            padding == count - padding_start(without_ws(s@.take(i as int))),
            padding <= count,
            vals@ == without_ws(s@.take(i as int)).take(count - padding).map_values(|c: char| b64_value(c)->0),
            forall|j: int| 0 <= j < vals@.len() ==> vals@[j] < 64,
            forall|k: int| 0 <= k < count - padding ==> #[trigger] std_b64_value(without_ws(s@.take(i as int))[k]) is Some,
            forall|k: int| count - padding <= k < count ==> #[trigger] without_ws(s@.take(i as int))[k] == '=',
        decreases s@.len() - i,
    {
        let c = s[i];
        let ghost prev = without_ws(s@.take(i as int));
        proof {
            assert(s@.take(i + 1).drop_last() =~= s@.take(i as int));
            assert(s@.take(i + 1).last() == c);
            lemma_find_char_push(prev, c, '=');
            lemma_find_char(prev, '=');
        }
        if c == ' ' || c == '\t' || c == '\n' || c == '\x0C' || c == '\r' {
            i = i + 1;
            continue;
        }
        let ghost next = prev.push(c);
        assert(without_ws(s@.take(i + 1)) == next);
        count = count + 1;
        if c == '=' {
            padding = padding + 1;
            assert(vals@ =~= next.take(count - padding).map_values(|c: char| b64_value(c)->0));
            i = i + 1;
            continue;
        }
        if padding > 0 {
            proof {
                assert(next[count - 2] == '=');
                if binary_value(s@) is Some {
                    lemma_binary_needs(s@, (i + 1) as nat);
                    assert(next[count - 1] == '=');
                }
            }
            return None;
        }
        proof {
            if padding == 0 {
                assert forall|j: int| 0 <= j < count - 1 implies next[j] != '=' by {
                    assert(std_b64_value(prev[j]) is Some);
                }
            }
        }
        let v = match base64_value(c) {
            Some(v) => v,
            None => {
                proof {
                    if binary_value(s@) is Some {
                        lemma_binary_needs(s@, (i + 1) as nat);
                        assert(next[count - 1] == c);
                        assert(forall|j: int| 0 <= j <= count - 1 ==> next[j] != '=');
                        assert(std_b64_value(next[count - 1]) is Some);
                    }
                }
                return None;
            },
        };
        if c == '-' || c == '_' {
            proof {
                if binary_value(s@) is Some {
                    lemma_binary_needs(s@, (i + 1) as nat);
                    assert(next[count - 1] == c);
                    assert(forall|j: int| 0 <= j <= count - 1 ==> next[j] != '=');
                    assert(std_b64_value(next[count - 1]) is Some);
                }
            }
            return None;
        }
        vals.push(v);
        assert(vals@ =~= next.take(count - padding).map_values(|c: char| b64_value(c)->0));
        i = i + 1;
    }
    assert(s@.take(s@.len() as int) =~= s@);
    if count % 4 != 0 || padding > 2 {
        return None;
    }
    Some(decode_values(&vals))
}


proof fn lemma_ws_prefix(s: Seq<char>, i: nat, j: nat)
    requires
        i <= j <= s.len(),
    ensures
        without_ws(s.take(i as int)).len() <= without_ws(s.take(j as int)).len(),
        without_ws(s.take(j as int)).take(without_ws(s.take(i as int)).len() as int) == without_ws(s.take(i as int)),
    decreases j - i,
{
    if i < j {
        lemma_ws_prefix(s, i, (j - 1) as nat);
        assert(s.take(j as int).drop_last() =~= s.take(j - 1));
        let a = without_ws(s.take(i as int));
        let b = without_ws(s.take(j - 1));
        let c = without_ws(s.take(j as int));
        assert(c.take(b.len() as int) =~= b);
        assert(c.take(a.len() as int) =~= b.take(a.len() as int));
    } else {
        assert(without_ws(s.take(j as int)).take(without_ws(s.take(i as int)).len() as int) =~= without_ws(
            s.take(i as int),
        ));
    }
}

proof fn lemma_binary_needs(s: Seq<char>, n: nat)
    requires
        n <= s.len(),
        binary_value(s) is Some,
    ensures
        forall|k: int, k2: int|
            0 <= k <= k2 < without_ws(s.take(n as int)).len() && #[trigger] without_ws(s.take(n as int))[k] == '='
                ==> #[trigger] without_ws(s.take(n as int))[k2] == '=',
        forall|k: int|
            0 <= k < without_ws(s.take(n as int)).len() && (forall|j: int|
                0 <= j <= k ==> without_ws(s.take(n as int))[j] != '=') ==> #[trigger] std_b64_value(
                without_ws(s.take(n as int))[k],
            ) is Some,
{
    lemma_ws_prefix(s, n, s.len());
    assert(s.take(s.len() as int) =~= s);
    let full = without_ws(s);
    let pre = without_ws(s.take(n as int));
    let p = padding_start(full);
    lemma_find_char(full, '=');
    assert forall|k: int, k2: int| 0 <= k <= k2 < pre.len() && #[trigger] pre[k] == '=' implies #[trigger] pre[k2] == '=' by {
        assert(full[k] == pre[k]);
        assert(full[k2] == pre[k2]);
        assert(p <= k);
    }
    assert forall|k: int| 0 <= k < pre.len() && (forall|j: int| 0 <= j <= k ==> pre[j] != '=') implies #[trigger] std_b64_value(pre[k]) is Some by {
        assert(full[k] == pre[k]);
        if p <= k {
            assert(full[p] == '=');
            assert(pre[p] == full[p]);
        }
    }
}


// -- timestamps -------------------------------------------------------------

/// The number of ASCII digits from `pos`, at most `max`.
pub open spec fn digits_at(s: Seq<char>, pos: int, max: nat) -> nat
    decreases max,
{
    if max == 0 || !(0 <= pos < s.len() && is_ascii_digit(s[pos])) {
        0
    } else {
        1 + digits_at(s, pos + 1, (max - 1) as nat)
    }
}

/// Reads between `min` and `max` digits at `pos`: the number and the
/// position after it.
pub open spec fn read_number(s: Seq<char>, pos: int, min: nat, max: nat) -> Option<(nat, int)> {
    let n = digits_at(s, pos, max);
    if n < min {
        None
    } else {
        Some((digits_value(s.subrange(pos, pos + n), 10), pos + n))
    }
}

/// The position after spaces and tabs.
pub open spec fn blanks_end(s: Seq<char>, pos: int) -> int
    decreases s.len() - pos,
{
    if 0 <= pos < s.len() && (s[pos] == ' ' || s[pos] == '\t') {
        blanks_end(s, pos + 1)
    } else {
        pos
    }
}

pub open spec fn char_at(s: Seq<char>, pos: int, c: char) -> bool {
    0 <= pos < s.len() && s[pos] == c
}

/// The date at the start (`YYYY-M-D`, or `YYYY-MM-DD` if the text is a date
/// alone) and the position after it.
pub open spec fn spec_date_part(s: Seq<char>) -> Option<(Date, int)> {
    let (mn, mx): (nat, nat) = if s.len() == 10 { (2, 2) } else { (1, 2) };
    match read_number(s, 0, 4, 4) {
        None => None,
        Some((year, p1)) => if !char_at(s, p1, '-') {
            None
        } else {
            match read_number(s, p1 + 1, mn, mx) {
                None => None,
                Some((month, p2)) => if !char_at(s, p2, '-') {
                    None
                } else {
                    match read_number(s, p2 + 1, mn, mx) {
                        None => None,
                        Some((day, p3)) => Some((Date { year: year as u16, month: month as u8, day: day as u8 }, p3)),
                    }
                },
            }
        },
    }
}

pub open spec fn pow10(n: nat) -> nat
    decreases n,
{
    if n == 0 { 1 } else { 10 * pow10((n - 1) as nat) }
}

/// The time from `pos` (`H:MM:SS` with an optional fraction) and the
/// position after it.  Digits beyond nanoseconds are ignored.
pub open spec fn spec_time_part(s: Seq<char>, pos: int) -> Option<(Time, int)> {
    match read_number(s, pos, 1, 2) {
        None => None,
        Some((hour, p1)) => if !char_at(s, p1, ':') {
            None
        } else {
            match read_number(s, p1 + 1, 2, 2) {
                None => None,
                Some((minute, p2)) => if !char_at(s, p2, ':') {
                    None
                } else {
                    match read_number(s, p2 + 1, 2, 2) {
                        None => None,
                        Some((second, p3)) => {
                            let (nanos, p4): (nat, int) = if char_at(s, p3, '.') {
                                let end = run_end(s, p3 + 1, false);
                                let n: int = if end - (p3 + 1) < 9 { end - (p3 + 1) } else { 9 };
                                let digits = s.subrange(p3 + 1, p3 + 1 + n);
                                (digits_value(digits, 10) * pow10((9 - n) as nat), end)
                            } else {
                                (0, p3)
                            };
                            Some((Time { hour: hour as u8, minute: minute as u8, second: second as u8, nanosecond: nanos as u32 }, p4))
                        },
                    }
                },
            }
        },
    }
}

/// The offset from `pos` (after blanks): none (UTC), `Z` or `±H[:MM]`, and
/// the position after it.
pub open spec fn spec_offset_part(s: Seq<char>, pos: int) -> Option<(Offset, int)> {
    let p = blanks_end(s, pos);
    if p >= s.len() {
        Some((Offset::Z, p))
    } else if s[p] == 'Z' {
        Some((Offset::Z, p + 1))
    } else if s[p] == '+' || s[p] == '-' {
        match read_number(s, p + 1, 1, 2) {
            None => None,
            Some((hours, q)) => {
                let mins: Option<(nat, int)> = if char_at(s, q, ':') { read_number(s, q + 1, 2, 2) } else { Some((0, q)) };
                match mins {
                    None => None,
                    Some((minutes, e)) => if hours > 23 || minutes > 59 {
                        None
                    } else {
                        let total = hours * 60 + minutes;
                        Some((Offset::Custom { minutes: (if s[p] == '-' { -(total as int) } else { total as int }) as i16 }, e))
                    },
                }
            },
        }
    } else {
        None
    }
}

/// A YAML timestamp: a date alone (a local date), or a date and a time
/// separated by `T`, `t` or blanks, with an optional offset (UTC if there
/// is none).
pub open spec fn spec_timestamp(s: Seq<char>) -> Option<Datetime> {
    match spec_date_part(s) {
        None => None,
        Some((date, p)) => if !date.spec_is_valid() {
            None
        } else if s.len() == 10 {
            Some(Datetime { date: Some(date), time: None, offset: None })
        } else if p >= s.len() {
            None
        } else {
            let t: Option<int> = if s[p] == 'T' || s[p] == 't' {
                Some(p + 1)
            } else if s[p] == ' ' || s[p] == '\t' {
                Some(blanks_end(s, p))
            } else {
                None
            };
            match t {
                None => None,
                Some(tp) => match spec_time_part(s, tp) {
                    None => None,
                    Some((time, q)) => if !time.spec_is_valid() {
                        None
                    } else {
                        match spec_offset_part(s, q) {
                            None => None,
                            Some((offset, e)) => if e != s.len() {
                                None
                            } else {
                                Some(Datetime { date: Some(date), time: Some(time), offset: Some(offset) })
                            },
                        }
                    },
                },
            }
        },
    }
}

proof fn lemma_digits_at(s: Seq<char>, pos: int, max: nat)
    requires
        0 <= pos <= s.len(),
    ensures
        digits_at(s, pos, max) <= max,
        pos + digits_at(s, pos, max) <= s.len(),
        forall|k: int| pos <= k < pos + digits_at(s, pos, max) ==> is_ascii_digit(#[trigger] s[k]),
    decreases max,
{
    if max > 0 && pos < s.len() && is_ascii_digit(s[pos]) {
        lemma_digits_at(s, pos + 1, (max - 1) as nat);
    }
}

proof fn lemma_digits_value_bound(d: Seq<char>)
    requires
        forall|k: int| 0 <= k < d.len() ==> is_ascii_digit(#[trigger] d[k]),
    ensures
        digits_value(d, 10) < pow10(d.len()),
    decreases d.len(),
{
    if d.len() > 0 {
        assert forall|k: int| 0 <= k < d.drop_last().len() implies is_ascii_digit(#[trigger] d.drop_last()[k]) by {
            assert(d.drop_last()[k] == d[k]);
        }
        lemma_digits_value_bound(d.drop_last());
        assert(is_ascii_digit(d.last()));
        let v = digits_value(d.drop_last(), 10);
        let p = pow10((d.len() - 1) as nat);
        assert(v * 10 + 9 < p * 10) by (nonlinear_arith)
            requires
                v < p,
        ;
    }
}

/// Reads between `min` and `max` (at most 9) digits at `pos`.
fn read_number_at(s: &[char], pos: &mut usize, min: usize, max: usize) -> (r: Option<u32>)
    requires
        *old(pos) <= s@.len(),
        max <= 9,
    ensures
        match read_number(s@, *old(pos) as int, min as nat, max as nat) {
            Some((v, e)) => r == Some(v as u32) && *final(pos) == e && v < pow10(max as nat),
            None => r is None,
        },
        *final(pos) <= s@.len(),
{
    let start = *pos;
    let ghost n = digits_at(s@, start as int, max as nat);
    proof {
        lemma_digits_at(s@, start as int, max as nat);
    }
    let slen = s.len();
    let mut len: usize = 0;
    let mut value: u32 = 0;
    while len < max && start + len < slen && '0' <= s[start + len] && s[start + len] <= '9'
        invariant
            start == *old(pos),
            start <= s@.len(),
            slen == s@.len(),
            max <= 9,
            len <= n,
            n == digits_at(s@, start as int, max as nat),
            start + n <= s@.len(),
            n <= max,
            digits_at(s@, start + len, (max - len) as nat) == n - len,
            value == digits_value(s@.subrange(start as int, start + len), 10),
            value < pow10(len as nat),
            pow10(len as nat) <= 1_000_000_000,
        decreases max - len,
    {
        let c = s[start + len];
        let d = (c as u32) - ('0' as u32);
        proof {
            let sub = s@.subrange(start as int, start + len + 1);
            assert(sub.drop_last() =~= s@.subrange(start as int, start + len));
            assert(sub.last() == c);
            assert(spec_digit(c, 10) == Some(d as nat));
            assert(value * 10 + d < pow10(len as nat) * 10) by (nonlinear_arith)
                requires
                    value < pow10(len as nat),
                    d < 10,
            ;
            assert(pow10((len + 1) as nat) == 10 * pow10(len as nat));
            lemma_pow10_bound(len as nat);
        }
        value = value * 10 + d;
        len = len + 1;
    }
    proof {
        if len < n {
            assert(digits_at(s@, start + len, (max - len) as nat) > 0);
        }
        lemma_pow10_mono(len as nat, max as nat);
    }
    assert(len == n);
    assert(start + len <= slen);
    if len < min {
        return None;
    }
    *pos = start + len;
    Some(value)
}

proof fn lemma_pow10_mono(a: nat, b: nat)
    requires
        a <= b,
    ensures
        pow10(a) <= pow10(b),
    decreases b,
{
    if a < b {
        lemma_pow10_mono(a, (b - 1) as nat);
    }
}

proof fn lemma_pow10_bound(b: nat)
    ensures
        b <= 8 ==> pow10(b) <= 100_000_000,
        b <= 9 ==> pow10(b) <= 1_000_000_000,
{
    assert(pow10(9) == 1_000_000_000 && pow10(8) == 100_000_000) by {
        reveal_with_fuel(pow10, 10);
    }
    if b <= 8 {
        lemma_pow10_mono(b, 8);
    }
    if b <= 9 {
        lemma_pow10_mono(b, 9);
    }
}


fn expect_char(s: &[char], pos: &mut usize, c: char) -> (r: bool)
    requires
        *old(pos) <= s@.len(),
    ensures
        r == char_at(s@, *old(pos) as int, c),
        r ==> *final(pos) == *old(pos) + 1,
        !r ==> *final(pos) == *old(pos),
        *final(pos) <= s@.len(),
{
    if *pos < s.len() && s[*pos] == c {
        *pos = *pos + 1;
        true
    } else {
        false
    }
}

fn skip_blanks(s: &[char], pos: usize) -> (r: usize)
    requires
        pos <= s@.len(),
    ensures
        r == blanks_end(s@, pos as int),
        pos <= r <= s@.len(),
{
    let mut p = pos;
    while p < s.len() && (s[p] == ' ' || s[p] == '\t')
        invariant
            pos <= p <= s@.len(),
            blanks_end(s@, p as int) == blanks_end(s@, pos as int),
        decreases s@.len() - p,
    {
        p = p + 1;
    }
    p
}

fn date_part(s: &[char]) -> (r: Option<(Date, usize)>)
    ensures
        match spec_date_part(s@) {
            Some((d, e)) => r == Some((d, e as usize)) && 0 <= e <= s@.len(),
            None => r is None,
        },
{
    let (mn, mx): (usize, usize) = if s.len() == 10 { (2, 2) } else { (1, 2) };
    let mut pos: usize = 0;
    let year = match read_number_at(s, &mut pos, 4, 4) {
        Some(v) => v,
        None => return None,
    };
    if !expect_char(s, &mut pos, '-') {
        return None;
    }
    let month = match read_number_at(s, &mut pos, mn, mx) {
        Some(v) => v,
        None => return None,
    };
    if !expect_char(s, &mut pos, '-') {
        return None;
    }
    let day = match read_number_at(s, &mut pos, mn, mx) {
        Some(v) => v,
        None => return None,
    };
    proof {
        lemma_pow10_bound(4);
        reveal_with_fuel(pow10, 5);
    }
    Some((Date { year: year as u16, month: month as u8, day: day as u8 }, pos))
}

fn time_part(s: &[char], start: usize) -> (r: Option<(Time, usize)>)
    requires
        start <= s@.len(),
    ensures
        match spec_time_part(s@, start as int) {
            Some((t, e)) => r == Some((t, e as usize)) && 0 <= e <= s@.len(),
            None => r is None,
        },
{
    let mut pos = start;
    let hour = match read_number_at(s, &mut pos, 1, 2) {
        Some(v) => v,
        None => return None,
    };
    if !expect_char(s, &mut pos, ':') {
        return None;
    }
    let minute = match read_number_at(s, &mut pos, 2, 2) {
        Some(v) => v,
        None => return None,
    };
    if !expect_char(s, &mut pos, ':') {
        return None;
    }
    let second = match read_number_at(s, &mut pos, 2, 2) {
        Some(v) => v,
        None => return None,
    };
    let p3 = pos;
    let mut nanosecond: u32 = 0;
    if pos < s.len() && s[pos] == '.' {
        pos = pos + 1;
        let frac_start = pos;
        skip_digits(s, &mut pos, false);
        let end = pos;
        let n: usize = if end - frac_start < 9 { end - frac_start } else { 9 };
        let mut q = frac_start;
        proof {
            lemma_run_end_digits(s@, frac_start as int, n as nat);
        }
        let digits = match read_number_at(s, &mut q, n, n) {
            Some(v) => v,
            None => {
                assert(false);
                return None;
            },
        };
        let mut scale: u32 = 1;
        let mut k: usize = n;
        proof {
            lemma_pow10_bound(9);
            lemma_pow10_mono(0, (9 - n) as nat);
            lemma_pow10_mono((9 - n) as nat, 9);
        }
        while k < 9
            invariant
                n <= k <= 9,
                scale as nat == pow10((k - n) as nat),
                pow10((k - n) as nat) <= pow10((9 - n) as nat),
                pow10((9 - n) as nat) <= 1_000_000_000,
            decreases 9 - k,
        {
            proof {
                lemma_pow10_mono(((k + 1) - n) as nat, (9 - n) as nat);
            }
            scale = scale * 10;
            k = k + 1;
        }
        proof {
            assert(digits as nat * pow10((9 - n) as nat) < pow10(9)) by {
                lemma_pow10_split(n as nat);
                assert(digits as nat * pow10((9 - n) as nat) < pow10(n as nat) * pow10((9 - n) as nat)) by (nonlinear_arith)
                    requires
                        digits < pow10(n as nat),
                        pow10((9 - n) as nat) > 0,
                ;
            }
            lemma_pow10_pos((9 - n) as nat);
        }
        nanosecond = digits * scale;
    }
    proof {
        reveal_with_fuel(pow10, 3);
    }
    Some((Time { hour: hour as u8, minute: minute as u8, second: second as u8, nanosecond }, pos))
}

proof fn lemma_pow10_pos(n: nat)
    ensures
        pow10(n) > 0,
    decreases n,
{
    if n > 0 {
        lemma_pow10_pos((n - 1) as nat);
    }
}

proof fn lemma_pow10_split(n: nat)
    requires
        n <= 9,
    ensures
        pow10(n) * pow10((9 - n) as nat) == pow10(9),
{
    lemma_pow10_add(n, (9 - n) as nat);
}

proof fn lemma_pow10_add(a: nat, b: nat)
    ensures
        pow10(a) * pow10(b) == pow10(a + b),
    decreases a,
{
    if a == 0 {
        assert(pow10(0) == 1);
        assert(1 * pow10(b) == pow10(b));
    } else {
        lemma_pow10_add((a - 1) as nat, b);
        assert(pow10(a + b) == 10 * pow10((a + b - 1) as nat));
        assert(((a - 1) as nat + b) as nat == (a + b - 1) as nat);
        assert(pow10(a) * pow10(b) == 10 * (pow10((a - 1) as nat) * pow10(b))) by (nonlinear_arith)
            requires
                pow10(a) == 10 * pow10((a - 1) as nat),
        ;
    }
}

proof fn lemma_run_end_digits(s: Seq<char>, start: int, n: nat)
    requires
        0 <= start <= s.len(),
        n <= 9,
        n <= run_end(s, start, false) - start,
    ensures
        digits_at(s, start, n) == n,
    decreases n,
{
    lemma_run_end_bounds(s, start, false);
    if n > 0 {
        assert(run_end(s, start, false) > start);
        assert(is_ascii_digit(s[start]));
        lemma_run_end_bounds(s, start + 1, false);
        lemma_run_end_digits(s, start + 1, (n - 1) as nat);
    }
}


fn offset_part(s: &[char], start: usize) -> (r: Option<(Offset, usize)>)
    requires
        start <= s@.len(),
    ensures
        match spec_offset_part(s@, start as int) {
            Some((o, e)) => r == Some((o, e as usize)) && 0 <= e <= s@.len(),
            None => r is None,
        },
{
    proof {
        reveal_with_fuel(pow10, 3);
    }
    let p = skip_blanks(s, start);
    if p >= s.len() {
        return Some((Offset::Z, p));
    }
    if s[p] == 'Z' {
        return Some((Offset::Z, p + 1));
    }
    if s[p] == '+' || s[p] == '-' {
        let mut pos = p + 1;
        let hours = match read_number_at(s, &mut pos, 1, 2) {
            Some(v) => v,
            None => return None,
        };
        let minutes: u32 = if pos < s.len() && s[pos] == ':' {
            pos = pos + 1;
            match read_number_at(s, &mut pos, 2, 2) {
                Some(v) => v,
                None => return None,
            }
        } else {
            0
        };
        if hours > 23 || minutes > 59 {
            return None;
        }
        let total: i16 = (hours * 60 + minutes) as i16;
        assert(total as int == hours * 60 + minutes);
        let m: i16 = if s[p] == '-' { -total } else { total };
        assert(m as int == if s[p as int] == '-' { -(hours * 60 + minutes) } else { hours * 60 + minutes });

        return Some((Offset::Custom { minutes: m }, pos));
    }
    None
}

/// Parses a YAML timestamp (a date, or a date and a time with an optional
/// offset).
///
/// Dates without time are local dates, timestamps without offset are in
/// UTC.
pub fn parse_timestamp_chars(s: &[char]) -> (r: Option<Datetime>)
    ensures
        r == spec_timestamp(s@),
{
    let (date, p) = match date_part(s) {
        Some(x) => x,
        None => return None,
    };
    if !date.is_valid() {
        return None;
    }
    if s.len() == 10 {
        return Some(Datetime { date: Some(date), time: None, offset: None });
    }
    if p >= s.len() {
        return None;
    }
    let tp = if s[p] == 'T' || s[p] == 't' {
        p + 1
    } else if s[p] == ' ' || s[p] == '\t' {
        skip_blanks(s, p)
    } else {
        return None;
    };
    let (time, q) = match time_part(s, tp) {
        Some(x) => x,
        None => return None,
    };
    if !time.is_valid() {
        return None;
    }
    let (offset, e) = match offset_part(s, q) {
        Some(x) => x,
        None => return None,
    };
    if e != s.len() {
        return None;
    }
    Some(Datetime { date: Some(date), time: Some(time), offset: Some(offset) })
}

/// Parses a YAML timestamp (<https://yaml.org/type/timestamp.html>).
///
/// Dates without time are local dates, timestamps without time zone are in
/// UTC.
pub fn parse_timestamp(s: &str) -> (r: Option<Datetime>)
    ensures
        r == spec_timestamp(s@),
{
    parse_timestamp_chars(&str_chars(s))
}


// -- resolution -------------------------------------------------------------

/// What the YAML 1.2 core schema reads a number-like scalar as.
pub open spec fn core_number_ok(s: Seq<char>, r: Option<Atom>) -> bool {
    match spec_core_int(s) {
        Some((negative, magnitude)) => r is Some && int_result_ok(r->0, negative, magnitude),
        None => match special_float(s) {
            Some(f) => r == Some(Atom::Float(f)),
            None => if core_float_syntax(s) {
                r is Some && is_decimal(r->0, s)
            } else {
                r is None
            },
        },
    }
}

/// What YAML 1.1 reads a number-like scalar as.
pub open spec fn yaml11_number_ok(s: Seq<char>, r: Option<Atom>) -> bool {
    match spec_yaml11_int(s) {
        Some((negative, magnitude)) => r is Some && int_result_ok(r->0, negative, magnitude),
        None => match special_float(s) {
            Some(f) => r == Some(Atom::Float(f)),
            None => if is_yaml11_float(s) {
                r is Some && yaml11_float_ok(s, r->0)
            } else {
                r is None
            },
        },
    }
}

/// A character that starts a number.
pub open spec fn is_number_start(c: char) -> bool {
    ('0' <= c <= '9') || c == '+' || c == '-' || c == '.'
}

/// A character that starts a null or boolean word.
pub open spec fn is_word_start(c: char) -> bool {
    c == 'n' || c == 'N' || c == 't' || c == 'T' || c == 'f' || c == 'F' || c == 'y' || c == 'Y' || c == 'o'
        || c == 'O'
}

/// What a plain scalar without tag is read as (`None`: a string).
pub open spec fn plain_result(s: Seq<char>, version: Version, r: Option<Atom>) -> bool {
    if s.len() == 0 {
        r == Some(Atom::Null)
    } else if is_number_start(s[0]) {
        match version {
            Version::V1_2 => core_number_ok(s, r),
            Version::V1_1 => yaml11_number_ok(s, r),
        }
    } else if s[0] == '~' {
        r == if s.len() == 1 { Some(Atom::Null) } else { None }
    } else if is_word_start(s[0]) {
        if is_null_word(s) {
            r == Some(Atom::Null)
        } else {
            match bool_word(s, version) {
                Some(b) => r == Some(Atom::Bool(b)),
                None => r is None,
            }
        }
    } else {
        r is None
    }
}

/// Whether a plain scalar is read as a string (not as null, boolean or
/// number).
pub open spec fn is_plain_string(s: Seq<char>, version: Version) -> bool {
    if s.len() == 0 {
        false
    } else if is_number_start(s[0]) {
        match version {
            Version::V1_2 => spec_core_int(s) is None && special_float(s) is None && !core_float_syntax(s),
            Version::V1_1 => spec_yaml11_int(s) is None && !is_yaml11_float(s),
        }
    } else if s[0] == '~' {
        s.len() != 1
    } else if is_word_start(s[0]) {
        !is_null_word(s) && bool_word(s, version) is None
    } else {
        true
    }
}

/// Resolves a plain scalar: `None` if it is a string.
pub fn resolve_plain_str(s: &[char], version: Version) -> (r: Option<Atom>)
    ensures
        plain_result(s@, version, r),
        r is None <==> is_plain_string(s@, version),
{
    if s.len() == 0 {
        return Some(Atom::Null);
    }
    let first = s[0];
    if ('0' <= first && first <= '9') || first == '+' || first == '-' || first == '.' {
        match version {
            Version::V1_2 => match parse_core_int(s) {
                Some(a) => Some(a),
                None => parse_core_float(s),
            },
            Version::V1_1 => match parse_yaml11_int(s) {
                Some(a) => Some(a),
                None => parse_yaml11_float(s),
            },
        }
    } else if first == '~' {
        if s.len() == 1 {
            Some(Atom::Null)
        } else {
            None
        }
    } else if first == 'n' || first == 'N' || first == 't' || first == 'T' || first == 'f' || first == 'F'
        || first == 'y' || first == 'Y' || first == 'o' || first == 'O' {
        match parse_null(s) {
            Some(a) => Some(a),
            None => parse_bool(s, version),
        }
    } else {
        None
    }
}

/// Returns `true` if a plain scalar is read as a string.
pub fn is_plain_str(s: &[char], version: Version) -> (r: bool)
    ensures
        r == is_plain_string(s@, version),
{
    resolve_plain_str(s, version).is_none()
}

/// Returns `true` for plain scalars that YAML 1.1 resolves to types this
/// library does not produce: the value key `=` and timestamps.
pub fn is_yaml11_implicit(s: &[char]) -> (r: bool)
    ensures
        r == (s@ == "="@ || spec_timestamp(s@) is Some),
{
    eq_str(s, "=") || parse_timestamp_chars(s).is_some()
}

/// Zeros in front do not change the value of digits.
proof fn lemma_digits_value_zeros(z: nat, t: Seq<char>)
    ensures
        digits_value(Seq::new(z, |i: int| '0') + t, 10) == digits_value(t, 10),
    decreases t.len() + z,
{
    let zs = Seq::new(z, |i: int| '0');
    if t.len() == 0 {
        assert(zs + t =~= zs);
        if z > 0 {
            let zs0 = Seq::new((z - 1) as nat, |i: int| '0');
            assert(zs.drop_last() =~= zs0);
            assert(zs.last() == '0');
            assert(spec_digit('0', 10) == Some(0nat));
            lemma_digits_value_zeros((z - 1) as nat, t);
            assert(zs0 + t =~= zs0);
        }
    } else {
        assert((zs + t).drop_last() =~= zs + t.drop_last());
        assert((zs + t).last() == t.last());
        lemma_digits_value_zeros(z, t.drop_last());
    }
}

/// A number below `10^w` has at most `w` decimal digits.
proof fn lemma_decimal_len(n: nat, w: nat)
    requires
        w >= 1,
        n < pow10(w),
    ensures
        decimal_chars(n).len() <= w,
    decreases n,
{
    if n >= 10 {
        assert(w >= 2) by {
            if w == 1 {
                assert(pow10(1) == 10) by {
                    reveal_with_fuel(pow10, 2);
                }
            }
        }
        assert(pow10(w) == 10 * pow10((w - 1) as nat));
        assert(n / 10 < pow10((w - 1) as nat)) by (nonlinear_arith)
            requires
                n < 10 * pow10((w - 1) as nat),
        ;
        lemma_decimal_len(n / 10, (w - 1) as nat);
        assert(decimal_chars(n) == decimal_chars(n / 10).push(digit_char(n % 10)));
    }
}

/// A number below `10^w` written with `w` digits: `w` ASCII digits that
/// stand for the number.
proof fn lemma_padded(n: nat, w: nat)
    requires
        w >= 1,
        n < pow10(w),
    ensures
        crate::model::padded(n, w).len() == w,
        forall|i: int| 0 <= i < w ==> is_ascii_digit(#[trigger] crate::model::padded(n, w)[i]),
        digits_value(crate::model::padded(n, w), 10) == n,
{
    lemma_decimal_digits(n);
    lemma_decimal_len(n, w);
    let d = decimal_chars(n);
    let p = crate::model::padded(n, w);
    let z = (w - d.len()) as nat;
    if d.len() < w {
        assert(p == Seq::new(z, |i: int| '0') + d);
        lemma_digits_value_zeros(z, d);
    } else {
        assert(p == d);
    }
    assert forall|i: int| 0 <= i < w implies is_ascii_digit(#[trigger] p[i]) by {
        if d.len() < w && i < z {
            assert(p[i] == '0');
        } else {
            let j = if d.len() < w { i - z } else { i };
            assert(p[i] == d[j]);
            assert(spec_digit(d[j], 10) is Some);
        }
    }
}

/// Exactly `w` digits stand at `pos` (not more): they are counted as `w`.
proof fn lemma_digits_at_exact(s: Seq<char>, pos: int, w: nat, max: nat)
    requires
        0 <= pos,
        pos + w <= s.len(),
        w <= max,
        forall|k: int| pos <= k < pos + w ==> is_ascii_digit(#[trigger] s[k]),
        pos + w == s.len() || !is_ascii_digit(s[pos + w]),
    ensures
        digits_at(s, pos, max) == w,
    decreases w,
{
    if w > 0 {
        lemma_digits_at_exact(s, pos + 1, (w - 1) as nat, (max - 1) as nat);
    }
}

/// A number written with `w` digits, followed by no further digit, is read
/// back by `read_number` with bounds around `w`.
proof fn lemma_read_padded(s: Seq<char>, pos: int, n: nat, w: nat, mn: nat, mx: nat)
    requires
        0 <= pos,
        1 <= w,
        n < pow10(w),
        mn <= w <= mx,
        pos + w <= s.len(),
        s.subrange(pos, pos + w) == crate::model::padded(n, w),
        pos + w == s.len() || !is_ascii_digit(s[pos + w]),
    ensures
        read_number(s, pos, mn, mx) == Some((n, pos + w)),
{
    lemma_padded(n, w);
    assert forall|k: int| pos <= k < pos + w implies is_ascii_digit(#[trigger] s[k]) by {
        assert(s[k] == s.subrange(pos, pos + w)[k - pos]);
    }
    lemma_digits_at_exact(s, pos, w, mx);
}

/// Trailing zeros dropped from digits: a prefix whose value, shifted by the
/// zeros dropped, is the value of the digits.
proof fn lemma_trim_zeros_value(t: Seq<char>)
    requires
        forall|i: int| 0 <= i < t.len() ==> is_ascii_digit(#[trigger] t[i]),
    ensures
        crate::model::trim_zeros(t).len() <= t.len(),
        crate::model::trim_zeros(t) == t.take(crate::model::trim_zeros(t).len() as int),
        (digits_value(crate::model::trim_zeros(t), 10) as int) * (pow10(
            (t.len() - crate::model::trim_zeros(t).len()) as nat,
        ) as int) == digits_value(t, 10) as int,
    decreases t.len(),
{
    let r = crate::model::trim_zeros(t);
    if t.len() > 0 && t.last() == '0' {
        let t0 = t.drop_last();
        lemma_trim_zeros_value(t0);
        assert(r == crate::model::trim_zeros(t0));
        assert(t0.take(r.len() as int) =~= t.take(r.len() as int));
        assert(spec_digit('0', 10) == Some(0nat));
        let v = digits_value(t, 10) as int;
        let v0 = digits_value(t0, 10) as int;
        let vr = digits_value(r, 10) as int;
        assert(v == v0 * 10);
        let k = (t0.len() - r.len()) as nat;
        let pk = pow10(k) as int;
        let pk1 = pow10(k + 1) as int;
        assert(pk1 == 10 * pk);
        assert((t.len() - r.len()) as nat == k + 1);
        assert(vr * pk == v0);
        assert(vr * pk1 == v) by (nonlinear_arith)
            requires
                vr * pk == v0,
                v == v0 * 10,
                pk1 == 10 * pk,
        ;
        assert((digits_value(r, 10) as int) * (pow10((t.len() - r.len()) as nat) as int) == digits_value(t, 10) as int);
    } else {
        assert(t.take(t.len() as int) =~= t);
        assert((t.len() - r.len()) as nat == 0);
        assert(pow10(0) == 1);
        assert((digits_value(r, 10) as int) * (pow10((t.len() - r.len()) as nat) as int) == digits_value(t, 10) as int);
    }
}

/// The end of a run of exactly `w` digits.
proof fn lemma_run_end_exact(s: Seq<char>, pos: int, w: nat)
    requires
        0 <= pos,
        pos + w <= s.len(),
        forall|k: int| pos <= k < pos + w ==> is_ascii_digit(#[trigger] s[k]),
        pos + w == s.len() || !is_ascii_digit(s[pos + w]),
    ensures
        run_end(s, pos, false) == pos + w,
    decreases w,
{
    if w > 0 {
        lemma_run_end_exact(s, pos + 1, (w - 1) as nat);
    }
}

/// A number below 100 written with two digits is read back from them.
proof fn lemma_read_two_digits(s: Seq<char>, pos: int, n: nat)
    requires
        0 <= pos,
        pos + 2 <= s.len(),
        n < 100,
        s.subrange(pos, pos + 2) == crate::model::padded(n, 2),
    ensures
        read_number(s, pos, 1, 2) == Some((n, pos + 2)),
        read_number(s, pos, 2, 2) == Some((n, pos + 2)),
{
    lemma_decimal_digits(n);
    let t = s.subrange(pos, pos + 2);
    if n < 10 {
        assert(decimal_chars(n) == seq![digit_char(n)]);
        assert(t =~= seq!['0', digit_char(n)]);
        assert(t.drop_last() =~= seq!['0']);
        assert(seq!['0'].drop_last() =~= Seq::<char>::empty());
        assert(spec_digit('0', 10) == Some(0nat));
        assert(spec_digit(digit_char(n), 10) == Some(n));
        assert(seq!['0'].last() == '0');
        assert(digits_value(seq!['0'], 10) == 0) by {
            reveal_with_fuel(digits_value, 2);
        }
    } else {
        let prev = decimal_chars(n / 10);
        assert(prev == seq![digit_char(n / 10)]);
        assert(decimal_chars(n) == prev.push(digit_char(n % 10)));
        assert(t =~= decimal_chars(n));
    }
    assert(s[pos] == t[0]);
    assert(s[pos + 1] == t[1]);
    assert(is_ascii_digit(t[0]) && is_ascii_digit(t[1])) by {
        if n < 10 {
            assert(t[1] == digit_char(n));
        } else {
            assert(spec_digit(t[0], 10) is Some);
            assert(spec_digit(t[1], 10) is Some);
        }
    }
    assert(digits_at(s, pos, 2) == 2) by {
        reveal_with_fuel(digits_at, 3);
    }
}

/// An offset that is written is read back as itself: `Z` as UTC, and
/// `±HH:MM` as the same number of minutes, with the sign, the hours and
/// the minutes all counted.
pub proof fn lemma_offset_reads_back(pre: Seq<char>, o: Offset)
    requires
        o matches Offset::Custom { minutes } ==> -1439 <= minutes <= 1439,
    ensures
        spec_offset_part(pre + crate::model::offset_text(o), pre.len() as int) == Some(
            (o, (pre + crate::model::offset_text(o)).len() as int),
        ),
{
    let t = crate::model::offset_text(o);
    let s = pre + t;
    let p = pre.len() as int;
    assert(s[p] == t[0]);
    match o {
        Offset::Z => {},
        Offset::Custom { minutes } => {
            let m: int = if minutes < 0 { -minutes } else { minutes as int };
            let h = (m / 60) as nat;
            let mm = (m % 60) as nat;
            let ph = crate::model::padded(h, 2);
            let pm = crate::model::padded(mm, 2);
            lemma_decimal_digits(h);
            lemma_decimal_digits(mm);
            assert(h < 24);
            assert(ph.len() == 2) by {
                if h >= 10 {
                    assert(decimal_chars(h) == decimal_chars(h / 10).push(digit_char(h % 10)));
                }
            }
            assert(pm.len() == 2) by {
                if mm >= 10 {
                    assert(decimal_chars(mm) == decimal_chars(mm / 10).push(digit_char(mm % 10)));
                }
            }
            assert(t == seq![if minutes < 0 { '-' } else { '+' }] + ph + seq![':'] + pm);
            assert(s.subrange(p + 1, p + 3) =~= ph);
            assert(s.subrange(p + 4, p + 6) =~= pm);
            assert(s[p + 3] == ':');
            lemma_read_two_digits(s, p + 1, h);
            lemma_read_two_digits(s, p + 4, mm);
            assert(h * 60 + mm == m);
        },
    }
}

/// Written date-times are read back: a date-time with a date (with a year
/// below 10000), a time and an offset, written as text, is read as the
/// timestamp with the same date, time and offset; the offset keeps its
/// sign, its hours and its minutes.
pub proof fn lemma_timestamp_reads_back(x: Datetime)
    requires
        x.date matches Some(d) && d.spec_is_valid() && d.year < 10000,
        x.time matches Some(t) && t.spec_is_valid(),
        x.offset matches Some(o) && (o matches Offset::Custom { minutes } ==> -1439 <= minutes <= 1439),
    ensures
        spec_timestamp(crate::model::datetime_text(x)) == Some(x),
{
    let d = x.date.unwrap();
    let t = x.time.unwrap();
    let o = x.offset.unwrap();
    reveal_with_fuel(pow10, 10);
    assert(pow10(2) == 100 && pow10(4) == 10000 && pow10(9) == 1_000_000_000);
    let py = crate::model::padded(d.year as nat, 4);
    let pmo = crate::model::padded(d.month as nat, 2);
    let pd = crate::model::padded(d.day as nat, 2);
    let ph = crate::model::padded(t.hour as nat, 2);
    let pmi = crate::model::padded(t.minute as nat, 2);
    let ps = crate::model::padded(t.second as nat, 2);
    lemma_padded(d.year as nat, 4);
    lemma_padded(d.month as nat, 2);
    lemma_padded(d.day as nat, 2);
    lemma_padded(t.hour as nat, 2);
    lemma_padded(t.minute as nat, 2);
    lemma_padded(t.second as nat, 2);
    let frac: Seq<char> = if t.nanosecond == 0 {
        Seq::empty()
    } else {
        seq!['.'] + crate::model::fraction_text(t.nanosecond as nat)
    };
    let dt = crate::model::date_text(d);
    let tt = crate::model::time_text(t);
    let ot = crate::model::offset_text(o);
    assert(dt == py + seq!['-'] + pmo + seq!['-'] + pd);
    assert(tt == ph + seq![':'] + pmi + seq![':'] + ps + frac);
    let pre = dt + seq!['T'] + tt;
    let s = pre + ot;
    assert(crate::model::datetime_text(x) =~= s);
    assert(ot.len() > 0 && !is_ascii_digit(ot[0])) by {
        match o {
            Offset::Z => {},
            Offset::Custom { minutes } => {},
        }
    }
    assert(s.len() > 10);
    // the date
    assert(s.subrange(0, 4) =~= py);
    assert(s[4] == '-');
    lemma_read_padded(s, 0, d.year as nat, 4, 4, 4);
    assert(s.subrange(5, 7) =~= pmo);
    assert(s[7] == '-');
    lemma_read_padded(s, 5, d.month as nat, 2, 1, 2);
    assert(s.subrange(8, 10) =~= pd);
    assert(s[10] == 'T');
    lemma_read_padded(s, 8, d.day as nat, 2, 1, 2);
    assert(spec_date_part(s) == Some((d, 10int)));
    // the time
    assert(s.subrange(11, 13) =~= ph);
    assert(s[13] == ':');
    lemma_read_padded(s, 11, t.hour as nat, 2, 1, 2);
    assert(s.subrange(14, 16) =~= pmi);
    assert(s[16] == ':');
    lemma_read_padded(s, 14, t.minute as nat, 2, 2, 2);
    assert(s.subrange(17, 19) =~= ps);
    let q = pre.len() as int;
    if t.nanosecond == 0 {
        assert(q == 19);
        assert(s[19] == ot[0]);
        lemma_read_padded(s, 17, t.second as nat, 2, 2, 2);
        assert(spec_time_part(s, 11) == Some((t, q)));
    } else {
        let full = crate::model::padded(t.nanosecond as nat, 9);
        lemma_padded(t.nanosecond as nat, 9);
        lemma_trim_zeros_value(full);
        let f = crate::model::fraction_text(t.nanosecond as nat);
        assert(f == crate::model::trim_zeros(full));
        let l: int = f.len() as int;
        assert(s[19] == '.');
        lemma_read_padded(s, 17, t.second as nat, 2, 2, 2);
        assert(q == 20 + l);
        assert(s.subrange(20, 20 + l) =~= f);
        assert forall|k: int| 20 <= k < 20 + l implies is_ascii_digit(#[trigger] s[k]) by {
            assert(s[k] == f[k - 20]);
            assert(f[k - 20] == full[k - 20]);
        }
        assert(s[20 + l] == ot[0]);
        lemma_run_end_exact(s, 20, l as nat);
        assert(digits_value(f, 10) * pow10((9 - l) as nat) == t.nanosecond as int);
        assert(spec_time_part(s, 11) == Some((t, q)));
    }
    lemma_offset_reads_back(pre, o);
}

/// The decimal digits of a number are digits, without separators, and
/// stand for the number; only zero starts with `0`.
proof fn lemma_decimal_digits(n: nat)
    ensures
        decimal_chars(n).len() > 0,
        all_digits(decimal_chars(n), 10, false),
        all_digits(decimal_chars(n), 10, true),
        has_digit(decimal_chars(n), 10),
        digits_value(decimal_chars(n), 10) == n,
        !decimal_chars(n).contains(':'),
        n > 0 ==> '1' <= decimal_chars(n)[0] <= '9',
        n == 0 ==> decimal_chars(n) == seq!['0'],
    decreases n,
{
    let t = decimal_chars(n);
    if n < 10 {
        let c = digit_char(n);
        assert(spec_digit(c, 10) == Some(n));
        assert(t == seq![c]);
        assert(t.drop_last() =~= Seq::<char>::empty());
        assert(digits_value(t.drop_last(), 10) == 0);
        assert(digits_value(t, 10) == n);
        assert(spec_digit(t[0], 10) is Some);
        if n == 0 {
            assert(c == '0');
        }
    } else {
        let prev = decimal_chars(n / 10);
        lemma_decimal_digits(n / 10);
        let c = digit_char(n % 10);
        assert(spec_digit(c, 10) == Some(n % 10));
        assert(t == prev.push(c));
        assert(t.drop_last() =~= prev);
        assert((n / 10) * 10 + n % 10 == n);
        assert(digits_value(t, 10) == digits_value(prev, 10) * 10 + n % 10);
        assert(t[0] == prev[0]);
        assert forall|i: int| 0 <= i < t.len() implies #[trigger] spec_digit(t[i], 10) is Some by {
            if i < prev.len() {
                assert(t[i] == prev[i]);
            }
        }
        assert(spec_digit(t[0], 10) is Some);
        assert(!t.contains(':')) by {
            if t.contains(':') {
                let i = choose|i: int| 0 <= i < t.len() && t[i] == ':';
                assert(spec_digit(t[i], 10) is Some);
            }
        }
    }
}

/// An integer written in decimal, with `-` if it is negative, reads back
/// as the same integer, by readers of YAML 1.2 and of YAML 1.1.
pub proof fn lemma_decimal_reads_back(negative: bool, magnitude: nat, version: Version, r: Option<Atom>)
    requires
        negative ==> magnitude > 0,
        plain_result((if negative { seq!['-'] } else { Seq::empty() }) + decimal_chars(magnitude), version, r),
    ensures
        spec_core_int((if negative { seq!['-'] } else { Seq::empty() }) + decimal_chars(magnitude)) == Some(
            (negative, magnitude),
        ),
        spec_yaml11_int((if negative { seq!['-'] } else { Seq::empty() }) + decimal_chars(magnitude)) == Some(
            (negative, magnitude),
        ),
        r is Some && int_result_ok(r->0, negative, magnitude),
{
    let d = decimal_chars(magnitude);
    let t = (if negative { seq!['-'] } else { Seq::empty() }) + d;
    lemma_decimal_digits(magnitude);
    assert(spec_digit(d[0], 10) is Some);
    if negative {
        assert(t.drop_first() =~= d);
        assert(t[0] == '-');
    } else {
        assert(t =~= d);
    }
    if d.len() >= 2 {
        assert(spec_digit(d[1], 10) is Some);
    }
    let digits = if t.len() > 0 && (t[0] == '-' || t[0] == '+') { t.drop_first() } else { t };
    assert(digits == d);
}

/// The words the emitter writes for nulls, booleans, infinities and not a
/// number read back as them, by readers of YAML 1.2 and of YAML 1.1.
pub proof fn lemma_words_read_back(
    version: Version,
    b: bool,
    negative: bool,
    r_null: Option<Atom>,
    r_bool: Option<Atom>,
    r_inf: Option<Atom>,
    r_nan: Option<Atom>,
)
    requires
        plain_result("null"@, version, r_null),
        plain_result(if b { "true"@ } else { "false"@ }, version, r_bool),
        plain_result(if negative { "-.inf"@ } else { ".inf"@ }, version, r_inf),
        plain_result(".nan"@, version, r_nan),
    ensures
        r_null == Some(Atom::Null),
        r_bool == Some(Atom::Bool(b)),
        r_inf == Some(Atom::Float(FloatRepr::Infinity { negative })),
        r_nan == Some(Atom::Float(FloatRepr::NaN)),
{
    reveal_strlit("-.inf");
    reveal_strlit(".inf");
    reveal_strlit(".nan");
    reveal_strlit(".Inf");
    reveal_strlit(".INF");
    reveal_strlit(".NaN");
    reveal_strlit(".NAN");
    let inf = if negative { "-.inf"@ } else { ".inf"@ };
    let rest = if inf.len() > 0 && (inf[0] == '-' || inf[0] == '+') { inf.drop_first() } else { inf };
    assert(rest =~= ".inf"@);
    assert(special_float(inf) == Some(FloatRepr::Infinity { negative }));
    assert(special_float(".nan"@) == Some(FloatRepr::NaN));
    assert(spec_core_int(inf) is None) by {
        let digits = if inf.len() > 0 && (inf[0] == '-' || inf[0] == '+') { inf.drop_first() } else { inf };
        assert(spec_digit(digits[0], 10) is None);
    }
    assert(spec_core_int(".nan"@) is None) by {
        assert(spec_digit(".nan"@[0], 10) is None);
    }
    assert(spec_yaml11_int(inf) is None);
    assert(spec_yaml11_int(".nan"@) is None);
    reveal_strlit("null");
    reveal_strlit("true");
    reveal_strlit("false");
    reveal_strlit("");
    reveal_strlit("~");
    reveal_strlit("Null");
    reveal_strlit("NULL");
    reveal_strlit("True");
    reveal_strlit("TRUE");
    reveal_strlit("False");
    reveal_strlit("FALSE");
}

/// All characters are ASCII digits.
pub open spec fn all_ascii_digits(s: Seq<char>) -> bool {
    forall|k: int| 0 <= k < s.len() ==> is_ascii_digit(#[trigger] s[k])
}

/// A float literal as both YAML 1.1 and YAML 1.2 read it: an optional
/// `-`, digits, a `.`, digits and an optional exponent with its sign.
pub open spec fn float_text(negative: bool, int_digits: Seq<char>, frac: Seq<char>, exp: Option<(bool, Seq<char>)>) -> Seq<
    char,
> {
    (if negative {
        seq!['-']
    } else {
        Seq::empty()
    }) + int_digits + seq!['.'] + frac + match exp {
        Some((neg, e)) => seq!['e', if neg { '-' } else { '+' }] + e,
        None => Seq::empty(),
    }
}

/// A run of digits from `i` ends at `j`.
proof fn lemma_digit_run_end(s: Seq<char>, i: int, j: int, underscores: bool)
    requires
        0 <= i <= j <= s.len(),
        forall|k: int| i <= k < j ==> is_ascii_digit(#[trigger] s[k]),
        j == s.len() || !(is_ascii_digit(s[j]) || (underscores && s[j] == '_')),
    ensures
        run_end(s, i, underscores) == j,
    decreases j - i,
{
    if i < j {
        lemma_digit_run_end(s, i + 1, j, underscores);
    }
}

/// Without `_`, nothing is stripped.
proof fn lemma_strip_nothing(s: Seq<char>)
    requires
        forall|k: int| 0 <= k < s.len() ==> #[trigger] s[k] != '_',
    ensures
        strip_underscores(s) == s,
    decreases s.len(),
{
    if s.len() > 0 {
        let prev = s.drop_last();
        assert forall|k: int| 0 <= k < prev.len() implies #[trigger] prev[k] != '_' by {
            assert(prev[k] == s[k]);
        }
        lemma_strip_nothing(prev);
        assert(prev.push(s.last()) =~= s);
    }
}

/// The layout of a float text: an optional `-` (`sl` characters), digits
/// up to the `.` at `n1`, digits up to `n2`, then nothing or `e`, a sign
/// and digits.
spec fn float_shape(w: Seq<char>, sl: int, n1: int, n2: int, has_exp: bool) -> bool {
    &&& 0 <= sl <= 1
    &&& sl < n1
    &&& n1 + 1 < n2 <= w.len()
    &&& sl == 1 ==> w[0] == '-'
    &&& forall|k: int| sl <= k < n1 ==> is_ascii_digit(#[trigger] w[k])
    &&& w[n1] == '.'
    &&& forall|k: int| n1 < k < n2 ==> is_ascii_digit(#[trigger] w[k])
    &&& if has_exp {
        &&& w.len() > n2 + 2
        &&& w[n2] == 'e'
        &&& (w[n2 + 1] == '-' || w[n2 + 1] == '+')
        &&& forall|k: int| n2 + 2 <= k < w.len() ==> is_ascii_digit(#[trigger] w[k])
    } else {
        w.len() == n2
    }
}

/// The text after the sign of a float has the same layout, shifted.
proof fn lemma_float_shape_rest(w: Seq<char>, sl: int, n1: int, n2: int, has_exp: bool)
    requires
        float_shape(w, sl, n1, n2, has_exp),
    ensures
        ({
            let rest = if w.len() > 0 && (w[0] == '-' || w[0] == '+') { w.drop_first() } else { w };
            float_shape(rest, 0, n1 - sl, n2 - sl, has_exp)
        }),
{
    let rest = if w.len() > 0 && (w[0] == '-' || w[0] == '+') { w.drop_first() } else { w };
    assert(sl == 0 ==> is_ascii_digit(w[0]));
    assert forall|k: int| 0 <= k < rest.len() implies #[trigger] rest[k] == w[k + sl] by {}
    assert forall|k: int| 0 <= k < n1 - sl implies is_ascii_digit(#[trigger] rest[k]) by {
        assert(rest[k] == w[k + sl]);
    }
    assert forall|k: int| n1 - sl < k < n2 - sl implies is_ascii_digit(#[trigger] rest[k]) by {
        assert(rest[k] == w[k + sl]);
    }
    if has_exp {
        assert forall|k: int| n2 - sl + 2 <= k < rest.len() implies is_ascii_digit(#[trigger] rest[k]) by {
            assert(rest[k] == w[k + sl]);
        }
        assert(rest[n2 - sl] == w[n2]);
        assert(rest[n2 - sl + 1] == w[n2 + 1]);
    }
    assert(rest[n1 - sl] == w[n1]);
}

/// A text of that layout has no `_` and no `:`.
proof fn lemma_float_shape_chars(w: Seq<char>, sl: int, n1: int, n2: int, has_exp: bool)
    requires
        float_shape(w, sl, n1, n2, has_exp),
    ensures
        forall|k: int| 0 <= k < w.len() ==> #[trigger] w[k] != '_' && w[k] != ':',
        !w.contains(':'),
{
    assert forall|k: int| 0 <= k < w.len() implies #[trigger] w[k] != '_' && w[k] != ':' by {
        if k < sl {
        } else if k < n1 {
            assert(is_ascii_digit(w[k]));
        } else if k == n1 {
        } else if k < n2 {
            assert(is_ascii_digit(w[k]));
        } else if has_exp && k >= n2 + 2 {
            assert(is_ascii_digit(w[k]));
        }
    }
    assert(!w.contains(':')) by {
        if w.contains(':') {
            let k = choose|k: int| 0 <= k < w.len() && w[k] == ':';
            assert(w[k] != ':');
        }
    }
}

/// YAML 1.2 reads a text of that layout as a decimal float.
proof fn lemma_float_shape_core(w: Seq<char>, sl: int, n1: int, n2: int, has_exp: bool)
    requires
        float_shape(w, sl, n1, n2, has_exp),
    ensures
        spec_core_int(w) is None,
        special_float(w) is None,
        core_float_syntax(w),
{
    lemma_float_shape_rest(w, sl, n1, n2, has_exp);
    let rest = if w.len() > 0 && (w[0] == '-' || w[0] == '+') { w.drop_first() } else { w };
    assert(spec_digit('.', 10) is None);
    assert(!all_digits(rest, 10, false)) by {
        assert(spec_digit(rest[n1 - sl], 10) is None);
    }
    if w.len() >= 2 && w[0] == '0' {
        assert(sl == 0);
        assert(w[1] != 'o' && w[1] != 'x') by {
            if 1 < n1 {
                assert(is_ascii_digit(w[1]));
            }
        }
    }
    reveal_strlit(".nan");
    reveal_strlit(".NaN");
    reveal_strlit(".NAN");
    reveal_strlit(".inf");
    reveal_strlit(".Inf");
    reveal_strlit(".INF");
    assert(w[0] != '.') by {
        if sl == 0 {
            assert(is_ascii_digit(w[0]));
        }
    }
    assert(rest[0] != '.') by {
        assert(is_ascii_digit(rest[0]));
    }
    lemma_digit_run_end(w, sl, n1, false);
    lemma_digit_run_end(w, n1 + 1, n2, false);
    if has_exp {
        lemma_digit_run_end(w, n2 + 2, w.len() as int, false);
    }
}

/// YAML 1.1 reads a text of that layout as a decimal float.
proof fn lemma_float_shape_yaml11(w: Seq<char>, sl: int, n1: int, n2: int, has_exp: bool)
    requires
        float_shape(w, sl, n1, n2, has_exp),
    ensures
        spec_yaml11_int(w) is None,
        special_float(w) is None,
        ({
            let rest = if w.len() > 0 && (w[0] == '-' || w[0] == '+') { w.drop_first() } else { w };
            !is_base60_start(rest) && yaml11_float_syntax(rest)
        }),
        strip_underscores(w) == w,
{
    lemma_float_shape_core(w, sl, n1, n2, has_exp);
    lemma_float_shape_rest(w, sl, n1, n2, has_exp);
    let rest = if w.len() > 0 && (w[0] == '-' || w[0] == '+') { w.drop_first() } else { w };
    let m1 = n1 - sl;
    let m2 = n2 - sl;
    lemma_float_shape_chars(rest, 0, m1, m2, has_exp);
    lemma_float_shape_chars(w, sl, n1, n2, has_exp);
    assert(spec_digit('.', 10) is None);
    assert(spec_digit('.', 8) is None);
    assert(!all_digits(rest, 10, true)) by {
        assert(spec_digit(rest[m1], 10) is None);
    }
    assert(rest[1] != 'b' && rest[1] != 'x') by {
        if 1 < m1 {
            assert(is_ascii_digit(rest[1]));
        }
    }
    assert(rest != seq!['0']) by {
        assert(rest.len() >= 2);
    }
    if rest[0] == '0' {
        assert(!all_digits(rest.drop_first(), 8, true)) by {
            assert(rest.drop_first()[m1 - 1] == '.');
        }
    }
    assert(spec_yaml11_int(w) is None);
    lemma_digit_run_end(rest, 0, m1, true);
    lemma_digit_run_end(rest, m1 + 1, m2, true);
    if has_exp {
        lemma_digit_run_end(rest, m2 + 2, rest.len() as int, false);
    }
    lemma_strip_nothing(w);
}

/// A float written with a `.` and, if it has an exponent, a signed
/// exponent reads back as the float of that text, by readers of YAML 1.2
/// and of YAML 1.1.
pub proof fn lemma_float_text_reads_back(
    negative: bool,
    int_digits: Seq<char>,
    frac: Seq<char>,
    exp: Option<(bool, Seq<char>)>,
    version: Version,
    r: Option<Atom>,
)
    requires
        int_digits.len() > 0 && all_ascii_digits(int_digits),
        frac.len() > 0 && all_ascii_digits(frac),
        exp matches Some((_, e)) ==> e.len() > 0 && all_ascii_digits(e),
        plain_result(float_text(negative, int_digits, frac, exp), version, r),
    ensures
        r is Some && is_decimal(r->0, float_text(negative, int_digits, frac, exp)),
{
    let w = float_text(negative, int_digits, frac, exp);
    let sl: int = if negative { 1 } else { 0 };
    let a = int_digits;
    let n1: int = sl + a.len();
    let n2: int = n1 + 1 + frac.len();
    let x = match exp {
        Some((neg, e)) => seq!['e', if neg { '-' } else { '+' }] + e,
        None => Seq::<char>::empty(),
    };
    let sign = if negative { seq!['-'] } else { Seq::<char>::empty() };
    assert(w == sign + a + seq!['.'] + frac + x);
    assert forall|k: int| sl <= k < n1 implies is_ascii_digit(#[trigger] w[k]) by {
        assert(w[k] == a[k - sl]);
    }
    assert(w[n1] == '.');
    assert forall|k: int| n1 < k < n2 implies is_ascii_digit(#[trigger] w[k]) by {
        assert(w[k] == frac[k - n1 - 1]);
    }
    let has_exp = exp is Some;
    match exp {
        Some((neg, e)) => {
            assert(w[n2] == 'e');
            assert(w[n2 + 1] == if neg { '-' } else { '+' });
            assert forall|k: int| n2 + 2 <= k < w.len() implies is_ascii_digit(#[trigger] w[k]) by {
                assert(w[k] == e[k - n2 - 2]);
            }
        },
        None => {},
    }
    assert(float_shape(w, sl, n1, n2, has_exp));
    lemma_float_shape_core(w, sl, n1, n2, has_exp);
    lemma_float_shape_yaml11(w, sl, n1, n2, has_exp);
    assert(is_number_start(w[0])) by {
        if sl == 0 {
            assert(is_ascii_digit(w[0]));
        }
    }
}

/// Resolves a plain scalar without tag: the atom it stands for, a string
/// if it stands for none.
pub fn resolve_plain(value: Vec<char>, version: Version) -> (r: Atom)
    ensures
        is_plain_string(value@, version) ==> (r matches Atom::Str(t) && t@ == value@),
        !is_plain_string(value@, version) ==> plain_result(value@, version, Some(r)),
{
    match resolve_plain_str(&value, version) {
        Some(atom) => atom,
        None => Atom::Str(value),
    }
}

/// What a scalar with a standard tag is read as, or the error message.
pub open spec fn standard_ok(tag: StandardTag, s: Seq<char>, version: Version, r: Result<Atom, &'static str>) -> bool {
    match tag {
        StandardTag::Str => r matches Ok(Atom::Str(t)) && t@ == s,
        StandardTag::Null => if is_null_word(s) {
            r == Ok::<Atom, &'static str>(Atom::Null)
        } else {
            r matches Err(m) && m@ == "invalid !!null value"@
        },
        StandardTag::Bool => match bool_word(s, version) {
            Some(b) => r == Ok::<Atom, &'static str>(Atom::Bool(b)),
            None => r matches Err(m) && m@ == "invalid !!bool value"@,
        },
        StandardTag::Int => {
            let i = match version {
                Version::V1_2 => spec_core_int(s),
                Version::V1_1 => spec_yaml11_int(s),
            };
            match i {
                Some((negative, magnitude)) => r matches Ok(a) && int_result_ok(a, negative, magnitude),
                None => r matches Err(m) && m@ == "invalid !!int value"@,
            }
        },
        StandardTag::Float => {
            let (float, int_part) = match version {
                Version::V1_2 => (special_float(s) is Some || core_float_syntax(s), spec_core_int(s)),
                Version::V1_1 => (is_yaml11_float(s), spec_yaml11_int(s)),
            };
            if float {
                r matches Ok(a) && match version {
                    Version::V1_2 => match special_float(s) {
                        Some(f) => a == Atom::Float(f),
                        None => is_decimal(a, s),
                    },
                    Version::V1_1 => match special_float(s) {
                        Some(f) => a == Atom::Float(f),
                        None => yaml11_float_ok(s, a),
                    },
                }
            } else {
                match int_part {
                    Some((negative, magnitude)) => r matches Ok(a) && a is Float && (exists|i: Atom|
                        int_result_ok(i, negative, magnitude) && #[trigger] is_float_of(a, i)),
                    None => r matches Err(m) && m@ == "invalid !!float value"@,
                }
            }
        },
        StandardTag::Binary => match binary_value(s) {
            Some(b) => r matches Ok(Atom::Bytes(v)) && v@ == b,
            None => r matches Err(m) && m@ == "invalid !!binary value"@,
        },
        StandardTag::Timestamp => match spec_timestamp(s) {
            Some(d) => r == Ok::<Atom, &'static str>(Atom::Datetime(d)),
            None => r matches Err(m) && m@ == "invalid !!timestamp value"@,
        },
        StandardTag::Sequence | StandardTag::Mapping => r matches Err(m) && m@ == "tag does not apply to scalars"@,
    }
}

/// Resolves a scalar with a standard tag.
pub fn resolve_standard(tag: StandardTag, value: Vec<char>, version: Version) -> (r: Result<Atom, &'static str>)
    ensures
        standard_ok(tag, value@, version, r),
{
    let ghost s = value@;
    match tag {
        StandardTag::Str => Ok(Atom::Str(value)),
        StandardTag::Null => match parse_null(&value) {
            Some(a) => Ok(a),
            None => Err("invalid !!null value"),
        },
        StandardTag::Bool => match parse_bool(&value, version) {
            Some(a) => Ok(a),
            None => Err("invalid !!bool value"),
        },
        StandardTag::Int => {
            let i = match version {
                Version::V1_2 => parse_core_int(&value),
                Version::V1_1 => parse_yaml11_int(&value),
            };
            match i {
                Some(a) => Ok(a),
                None => Err("invalid !!int value"),
            }
        },
        StandardTag::Float => {
            let f = match version {
                Version::V1_2 => parse_core_float(&value),
                Version::V1_1 => parse_yaml11_float(&value),
            };
            match f {
                Some(a) => Ok(a),
                None => {
                    let i = match version {
                        Version::V1_2 => parse_core_int(&value),
                        Version::V1_1 => parse_yaml11_int(&value),
                    };
                    match i {
                        Some(a) => {
                            proof {
                                lemma_int_result_is_number(a, s, version);
                            }
                            let ghost a0 = a;
                            let f = int_to_float(a);
                            assert(is_float_of(f, a0));
                            Ok(f)
                        },
                        None => Err("invalid !!float value"),
                    }
                },
            }
        },
        StandardTag::Binary => match decode_binary(&value) {
            Some(b) => Ok(Atom::Bytes(b)),
            None => Err("invalid !!binary value"),
        },
        StandardTag::Timestamp => match parse_timestamp_chars(&value) {
            Some(d) => Ok(Atom::Datetime(d)),
            None => Err("invalid !!timestamp value"),
        },
        StandardTag::Sequence | StandardTag::Mapping => Err("tag does not apply to scalars"),
    }
}

proof fn lemma_int_result_is_number(a: Atom, s: Seq<char>, version: Version)
    requires
        exists|n: bool, m: nat| int_result_ok(a, n, m),
    ensures
        int_value(a) is Some || a is Float,
{
}

} // verus!
