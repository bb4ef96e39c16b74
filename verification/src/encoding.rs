//! The encodings of bytes as strings: base64 (both alphabets, with and
//! without padding), hexadecimal and base32.
use vstd::prelude::*;
use vstd::string::StringSliceAdditionalSpecFns;

use crate::error::{Error, ErrorKind};
use crate::text::{chars_to_string, decimal, push_chars, str_chars, string_push_chars};

verus! {

// -- base64 -----------------------------------------------------------------

/// The character for a 6 bit value in the standard (`+/`) or URL-safe
/// (`-_`) alphabet.
pub open spec fn alphabet_char(v: u32, url: bool) -> char {
    if v < 26 {
        ('A' as u32 + v) as char
    } else if v < 52 {
        ('a' as u32 + (v - 26)) as char
    } else if v < 62 {
        ('0' as u32 + (v - 52)) as char
    } else if v == 62 {
        if url { '-' } else { '+' }
    } else {
        if url { '_' } else { '/' }
    }
}

/// The value of a character in either base64 alphabet.
pub open spec fn b64_value(c: char) -> Option<u32> {
    if 'A' <= c <= 'Z' {
        Some((c as u32 - 'A' as u32) as u32)
    } else if 'a' <= c <= 'z' {
        Some((c as u32 - 'a' as u32 + 26) as u32)
    } else if '0' <= c <= '9' {
        Some((c as u32 - '0' as u32 + 52) as u32)
    } else if c == '+' || c == '-' {
        Some(62)
    } else if c == '/' || c == '_' {
        Some(63)
    } else {
        None
    }
}

/// The value of a character in the standard base64 alphabet only.
pub open spec fn std_b64_value(c: char) -> Option<u32> {
    if c == '-' || c == '_' {
        None
    } else {
        b64_value(c)
    }
}

/// Returns the 6 bit value at a shift.
fn sextet_at(n: u32, shift: u32) -> (v: u32)
    requires
        shift <= 18,
    ensures
        v == sextet(n, shift),
        v < 64,
{
    let v = (n >> shift) & 0x3f;
    assert(v < 64) by (bit_vector)
        requires
            v == (n >> shift) & 0x3fu32,
    ;
    v
}

/// Returns the character of a 6 bit value.
fn char_at(v: u32, url: bool) -> (c: char)
    requires
        v < 64,
    ensures
        c == alphabet_char(v, url),
{
    if v < 26 {
        (('A' as u8) + (v as u8)) as char
    } else if v < 52 {
        (('a' as u8) + ((v - 26) as u8)) as char
    } else if v < 62 {
        (('0' as u8) + ((v - 52) as u8)) as char
    } else if v == 62 {
        if url { '-' } else { '+' }
    } else {
        if url { '_' } else { '/' }
    }
}

/// Returns the value of a character in either base64 alphabet.
pub fn base64_value(c: char) -> (r: Option<u32>)
    ensures
        r == b64_value(c),
{
    if 'A' <= c && c <= 'Z' {
        Some((c as u32) - ('A' as u32))
    } else if 'a' <= c && c <= 'z' {
        Some((c as u32) - ('a' as u32) + 26)
    } else if '0' <= c && c <= '9' {
        Some((c as u32) - ('0' as u32) + 52)
    } else if c == '+' || c == '-' {
        Some(62)
    } else if c == '/' || c == '_' {
        Some(63)
    } else {
        None
    }
}

/// The 24 bits of three bytes.
pub open spec fn triple(a: u8, b: u8, c: u8) -> u32 {
    ((a as u32) << 16u32) | ((b as u32) << 8u32) | (c as u32)
}

/// The 6 bit value at a shift.
pub open spec fn sextet(n: u32, shift: u32) -> u32 {
    (n >> shift) & 0x3fu32
}

/// The four characters of three bytes.
pub open spec fn encode_group(a: u8, b: u8, c: u8, url: bool) -> Seq<char> {
    let n = triple(a, b, c);
    seq![
        alphabet_char(sextet(n, 18), url),
        alphabet_char(sextet(n, 12), url),
        alphabet_char(sextet(n, 6), url),
        alphabet_char(sextet(n, 0), url),
    ]
}

/// The characters of the first `q` groups of three bytes.
pub open spec fn encode_groups(bytes: Seq<u8>, q: nat, url: bool) -> Seq<char>
    decreases q,
{
    if q == 0 {
        Seq::empty()
    } else {
        let i = 3 * (q - 1);
        encode_groups(bytes, (q - 1) as nat, url) + encode_group(bytes[i], bytes[i + 1], bytes[i + 2], url)
    }
}

/// The characters of the last one or two bytes.
pub open spec fn encode_rest(rest: Seq<u8>, url: bool, pad: bool) -> Seq<char> {
    if rest.len() == 1 {
        let n = triple(rest[0], 0, 0);
        seq![alphabet_char(sextet(n, 18), url), alphabet_char(sextet(n, 12), url)] + if pad {
            seq!['=', '=']
        } else {
            Seq::empty()
        }
    } else if rest.len() == 2 {
        let n = triple(rest[0], rest[1], 0);
        seq![
            alphabet_char(sextet(n, 18), url),
            alphabet_char(sextet(n, 12), url),
            alphabet_char(sextet(n, 6), url),
        ] + if pad {
            seq!['=']
        } else {
            Seq::empty()
        }
    } else {
        Seq::empty()
    }
}

/// Base64 of the bytes (RFC 4648).
pub open spec fn base64_text(bytes: Seq<u8>, url: bool, pad: bool) -> Seq<char> {
    let q = bytes.len() / 3;
    encode_groups(bytes, q, url) + encode_rest(bytes.skip(3 * q as int), url, pad)
}

/// Encodes bytes as base64 and appends them to the characters.
pub fn encode_base64(bytes: &[u8], url: bool, pad: bool, out: &mut Vec<char>)
    ensures
        final(out)@ == old(out)@ + base64_text(bytes@, url, pad),
{
    let ghost start = out@;
    let len = bytes.len();
    let q = len / 3;
    assert(3 * q <= bytes@.len()) by (nonlinear_arith)
        requires
            q == bytes@.len() / 3,
    ;
    let mut k: usize = 0;
    while k < q
        invariant
            k <= q,
            q == bytes@.len() / 3,
            len == bytes@.len(),
            3 * q <= bytes@.len(),
            out@ == start + encode_groups(bytes@, k as nat, url),
        decreases q - k,
    {
        assert(3 * k + 3 <= 3 * q) by (nonlinear_arith)
            requires
                k < q,
        ;
        let i = 3 * k;
        let n: u32 = ((bytes[i] as u32) << 16u32) | ((bytes[i + 1] as u32) << 8u32) | (bytes[i + 2] as u32);
        assert(n == triple(bytes@[i as int], bytes@[i + 1], bytes@[i + 2]));
        out.push(char_at(sextet_at(n, 18), url));
        out.push(char_at(sextet_at(n, 12), url));
        out.push(char_at(sextet_at(n, 6), url));
        out.push(char_at(sextet_at(n, 0), url));
        assert(out@ =~= start + encode_groups(bytes@, (k + 1) as nat, url));
        k = k + 1;
    }
    let rest = bytes.len() - 3 * q;
    let ghost tail = bytes@.skip(3 * q as int);
    if rest == 1 {
        let a = bytes[3 * q];
        let n: u32 = (a as u32) << 16u32;
        assert(n == triple(a, 0, 0)) by (bit_vector)
            requires n == (a as u32) << 16u32;
        out.push(char_at(sextet_at(n, 18), url));
        out.push(char_at(sextet_at(n, 12), url));
        if pad {
            out.push('=');
            out.push('=');
        }
        assert(tail[0] == a);
    } else if rest == 2 {
        let a = bytes[3 * q];
        let b = bytes[3 * q + 1];
        let n: u32 = ((a as u32) << 16u32) | ((b as u32) << 8u32);
        assert(n == triple(a, b, 0)) by (bit_vector)
            requires n == ((a as u32) << 16u32) | ((b as u32) << 8u32);
        out.push(char_at(sextet_at(n, 18), url));
        out.push(char_at(sextet_at(n, 12), url));
        out.push(char_at(sextet_at(n, 6), url));
        if pad {
            out.push('=');
        }
        assert(tail[0] == a && tail[1] == b);
    }
    assert(out@ =~= start + base64_text(bytes@, url, pad));
}


/// The 24 bits of four 6 bit values.
pub open spec fn quad(v0: u32, v1: u32, v2: u32, v3: u32) -> u32 {
    (v0 << 18u32) | (v1 << 12u32) | (v2 << 6u32) | v3
}

/// The three bytes of four 6 bit values.
pub open spec fn decode_group(v0: u32, v1: u32, v2: u32, v3: u32) -> Seq<u8> {
    let n = quad(v0, v1, v2, v3);
    seq![(n >> 16u32) as u8, (n >> 8u32) as u8, n as u8]
}

/// The bytes of the first `q` groups of four values.
pub open spec fn decode_groups(vals: Seq<u32>, q: nat) -> Seq<u8>
    decreases q,
{
    if q == 0 {
        Seq::empty()
    } else {
        let i = 4 * (q - 1);
        decode_groups(vals, (q - 1) as nat) + decode_group(vals[i], vals[i + 1], vals[i + 2], vals[i + 3])
    }
}

/// The bytes of the last two or three values (one value gives none).
pub open spec fn decode_rest(rest: Seq<u32>) -> Seq<u8> {
    if rest.len() == 2 {
        let n = quad(rest[0], rest[1], 0, 0);
        seq![(n >> 16u32) as u8]
    } else if rest.len() == 3 {
        let n = quad(rest[0], rest[1], rest[2], 0);
        seq![(n >> 16u32) as u8, (n >> 8u32) as u8]
    } else {
        Seq::empty()
    }
}

/// Returns `true` if the bits of the last values that make no byte are zero.
pub open spec fn rest_bits_zero(rest: Seq<u32>) -> bool {
    if rest.len() == 2 {
        quad(rest[0], rest[1], 0, 0) & 0xffffu32 == 0
    } else if rest.len() == 3 {
        quad(rest[0], rest[1], rest[2], 0) & 0xffu32 == 0
    } else {
        true
    }
}

/// The bytes of a sequence of 6 bit values.
pub open spec fn decoded_values(vals: Seq<u32>) -> Seq<u8> {
    let q = vals.len() / 4;
    decode_groups(vals, q) + decode_rest(vals.skip(4 * q as int))
}

/// Decodes 6 bit values into bytes.
pub fn decode_values(vals: &[u32]) -> (r: Vec<u8>)
    requires
        forall|i: int| 0 <= i < vals@.len() ==> vals@[i] < 64,
    ensures
        r@ == decoded_values(vals@),
{
    let len = vals.len();
    let q = len / 4;
    assert(4 * q <= vals@.len()) by (nonlinear_arith)
        requires
            q == vals@.len() / 4,
    ;
    let mut out: Vec<u8> = Vec::new();
    let mut k: usize = 0;
    while k < q
        invariant
            k <= q,
            q == vals@.len() / 4,
            len == vals@.len(),
            4 * q <= vals@.len(),
            out@ == decode_groups(vals@, k as nat),
        decreases q - k,
    {
        assert(4 * k + 4 <= 4 * q) by (nonlinear_arith)
            requires
                k < q,
        ;
        let i = 4 * k;
        let n: u32 = (vals[i] << 18u32) | (vals[i + 1] << 12u32) | (vals[i + 2] << 6u32) | vals[i + 3];
        out.push((n >> 16u32) as u8);
        out.push((n >> 8u32) as u8);
        out.push(n as u8);
        assert(out@ =~= decode_groups(vals@, (k + 1) as nat));
        k = k + 1;
    }
    let rest = len - 4 * q;
    let ghost tail = vals@.skip(4 * q as int);
    if rest == 2 {
        let a = vals[4 * q];
        let b = vals[4 * q + 1];
        let n: u32 = (a << 18u32) | (b << 12u32);
        assert(n == quad(a, b, 0, 0)) by (bit_vector)
            requires
                n == (a << 18u32) | (b << 12u32),
        ;
        assert(tail[0] == a && tail[1] == b);
        out.push((n >> 16u32) as u8);
    } else if rest == 3 {
        let a = vals[4 * q];
        let b = vals[4 * q + 1];
        let c = vals[4 * q + 2];
        let n: u32 = (a << 18u32) | (b << 12u32) | (c << 6u32);
        assert(n == quad(a, b, c, 0)) by (bit_vector)
            requires
                n == (a << 18u32) | (b << 12u32) | (c << 6u32),
        ;
        assert(tail[0] == a && tail[1] == b && tail[2] == c);
        out.push((n >> 16u32) as u8);
        out.push((n >> 8u32) as u8);
    }
    assert(out@ =~= decoded_values(vals@));
    out
}

/// The number of `=` at the end (at most two).
pub open spec fn padding_len(s: Seq<char>) -> nat {
    if s.len() >= 1 && s.last() == '=' {
        if s.len() >= 2 && s[s.len() - 2] == '=' { 2 } else { 1 }
    } else {
        0
    }
}

/// The values of base64 characters.
pub open spec fn b64_values(data: Seq<char>) -> Seq<u32> {
    data.map_values(|c: char| b64_value(c)->0)
}

/// Lenient base64: both alphabets, optional (but then complete) padding,
/// unused bits zero.
pub open spec fn lenient_base64(s: Seq<char>) -> Option<Seq<u8>> {
    let p = padding_len(s);
    let data = s.take(s.len() - p);
    let vals = b64_values(data);
    if data.len() % 4 == 1 || (p > 0 && data.len() % 4 + p != 4) {
        None
    } else if !(forall|i: int| 0 <= i < data.len() ==> #[trigger] b64_value(data[i]) is Some) {
        None
    } else if !rest_bits_zero(vals.skip(4 * (vals.len() / 4) as int)) {
        None
    } else {
        Some(decoded_values(vals))
    }
}

/// Decodes lenient base64 from characters.
pub fn decode_base64_chars(s: &[char]) -> (r: Option<Vec<u8>>)
    ensures
        r is Some <==> lenient_base64(s@) is Some,
        r matches Some(v) ==> v@ == lenient_base64(s@)->0,
{
    let mut p: usize = 0;
    if s.len() >= 1 && s[s.len() - 1] == '=' {
        p = if s.len() >= 2 && s[s.len() - 2] == '=' { 2 } else { 1 };
    }
    assert(p == padding_len(s@));
    let n = s.len() - p;
    if n % 4 == 1 || (p > 0 && n % 4 + p != 4) {
        return None;
    }
    let ghost data = s@.take(n as int);
    let mut vals: Vec<u32> = Vec::new();
    let mut i: usize = 0;
    while i < n
        invariant
            i <= n,
            n <= s@.len(),
            p == padding_len(s@),
            n == s@.len() - p,
            !(n % 4 == 1 || (p > 0 && n % 4 + p != 4)),
            data == s@.take(n as int),
            vals@.len() == i,
            forall|j: int| 0 <= j < i ==> #[trigger] b64_value(data[j]) is Some,
            forall|j: int| 0 <= j < i ==> vals@[j] == b64_value(data[j])->0 && vals@[j] < 64,
        decreases n - i,
    {
        match base64_value(s[i]) {
            Some(v) => {
                vals.push(v);
            },
            None => {
                assert(b64_value(data[i as int]) is None);
                return None;
            },
        }
        i = i + 1;
    }
    assert(vals@ =~= b64_values(data));
    let q = n / 4;
    assert(4 * q <= n) by (nonlinear_arith)
        requires
            q == n / 4,
    ;
    let rest = n - 4 * q;
    let ghost tail = vals@.skip(4 * q as int);
    if rest == 2 {
        let a = vals[4 * q];
        let b = vals[4 * q + 1];
        let m: u32 = (a << 18u32) | (b << 12u32);
        assert(m == quad(a, b, 0, 0)) by (bit_vector)
            requires
                m == (a << 18u32) | (b << 12u32),
        ;
        assert(tail[0] == a && tail[1] == b);
        if m & 0xffff != 0 {
            return None;
        }
    } else if rest == 3 {
        let a = vals[4 * q];
        let b = vals[4 * q + 1];
        let c = vals[4 * q + 2];
        let m: u32 = (a << 18u32) | (b << 12u32) | (c << 6u32);
        assert(m == quad(a, b, c, 0)) by (bit_vector)
            requires
                m == (a << 18u32) | (b << 12u32) | (c << 6u32),
        ;
        assert(tail[0] == a && tail[1] == b && tail[2] == c);
        if m & 0xff != 0 {
            return None;
        }
    }
    Some(decode_values(&vals))
}


proof fn lemma_alphabet_value(v: u32, url: bool)
    requires
        v < 64,
    ensures
        b64_value(alphabet_char(v, url)) == Some(v),
        alphabet_char(v, url) != '=',
{
    if v < 26 {
        assert((('A' as u32 + v) as char) as u32 == 'A' as u32 + v);
    } else if v < 52 {
        assert((('a' as u32 + (v - 26)) as char) as u32 == 'a' as u32 + (v - 26));
    } else if v < 62 {
        assert((('0' as u32 + (v - 52)) as char) as u32 == '0' as u32 + (v - 52));
    }
}

proof fn lemma_group_bits(a: u8, b: u8, c: u8)
    by (bit_vector)
    ensures
        sextet(triple(a, b, c), 18) < 64,
        sextet(triple(a, b, c), 12) < 64,
        sextet(triple(a, b, c), 6) < 64,
        sextet(triple(a, b, c), 0) < 64,
        (quad(sextet(triple(a, b, c), 18), sextet(triple(a, b, c), 12), sextet(triple(a, b, c), 6), sextet(triple(a, b, c), 0)) >> 16u32) as u8 == a,
        (quad(sextet(triple(a, b, c), 18), sextet(triple(a, b, c), 12), sextet(triple(a, b, c), 6), sextet(triple(a, b, c), 0)) >> 8u32) as u8 == b,
        quad(sextet(triple(a, b, c), 18), sextet(triple(a, b, c), 12), sextet(triple(a, b, c), 6), sextet(triple(a, b, c), 0)) as u8 == c,
{
}

proof fn lemma_rest1_bits(a: u8)
    by (bit_vector)
    ensures
        sextet(triple(a, 0, 0), 18) < 64,
        sextet(triple(a, 0, 0), 12) < 64,
        quad(sextet(triple(a, 0, 0), 18), sextet(triple(a, 0, 0), 12), 0, 0) & 0xffffu32 == 0,
        (quad(sextet(triple(a, 0, 0), 18), sextet(triple(a, 0, 0), 12), 0, 0) >> 16u32) as u8 == a,
{
}

proof fn lemma_rest2_bits(a: u8, b: u8)
    by (bit_vector)
    ensures
        sextet(triple(a, b, 0), 18) < 64,
        sextet(triple(a, b, 0), 12) < 64,
        sextet(triple(a, b, 0), 6) < 64,
        quad(sextet(triple(a, b, 0), 18), sextet(triple(a, b, 0), 12), sextet(triple(a, b, 0), 6), 0) & 0xffu32 == 0,
        (quad(sextet(triple(a, b, 0), 18), sextet(triple(a, b, 0), 12), sextet(triple(a, b, 0), 6), 0) >> 16u32) as u8 == a,
        (quad(sextet(triple(a, b, 0), 18), sextet(triple(a, b, 0), 12), sextet(triple(a, b, 0), 6), 0) >> 8u32) as u8 == b,
{
}

/// The 6 bit values of the first `q` groups of three bytes.
spec fn group_values(bytes: Seq<u8>, q: nat) -> Seq<u32>
    decreases q,
{
    if q == 0 {
        Seq::empty()
    } else {
        let i = 3 * (q - 1);
        let n = triple(bytes[i], bytes[i + 1], bytes[i + 2]);
        group_values(bytes, (q - 1) as nat) + seq![sextet(n, 18), sextet(n, 12), sextet(n, 6), sextet(n, 0)]
    }
}

proof fn lemma_values_concat(x: Seq<char>, y: Seq<char>)
    ensures
        b64_values(x + y) == b64_values(x) + b64_values(y),
{
    assert(b64_values(x + y) =~= b64_values(x) + b64_values(y));
}

proof fn lemma_encode_groups(bytes: Seq<u8>, q: nat, url: bool)
    requires
        3 * q <= bytes.len(),
    ensures
        encode_groups(bytes, q, url).len() == 4 * q,
        b64_values(encode_groups(bytes, q, url)) == group_values(bytes, q),
        forall|i: int| 0 <= i < 4 * q ==> #[trigger] encode_groups(bytes, q, url)[i] != '=',
        forall|i: int| 0 <= i < 4 * q ==> b64_value(#[trigger] encode_groups(bytes, q, url)[i]) is Some,
    decreases q,
{
    if q > 0 {
        let i = 3 * (q - 1);
        lemma_encode_groups(bytes, (q - 1) as nat, url);
        let a = bytes[i];
        let b = bytes[i + 1];
        let c = bytes[i + 2];
        lemma_group_bits(a, b, c);
        let n = triple(a, b, c);
        lemma_alphabet_value(sextet(n, 18), url);
        lemma_alphabet_value(sextet(n, 12), url);
        lemma_alphabet_value(sextet(n, 6), url);
        lemma_alphabet_value(sextet(n, 0), url);
        let prev = encode_groups(bytes, (q - 1) as nat, url);
        let g = encode_group(a, b, c, url);
        lemma_values_concat(prev, g);
        assert(b64_values(g) =~= seq![sextet(n, 18), sextet(n, 12), sextet(n, 6), sextet(n, 0)]);
        assert forall|j: int| 0 <= j < 4 * q implies #[trigger] encode_groups(bytes, q, url)[j] != '=' && b64_value(encode_groups(bytes, q, url)[j]) is Some by {
            if j >= 4 * (q - 1) {
                assert(encode_groups(bytes, q, url)[j] == g[j - 4 * (q - 1)]);
            } else {
                assert(encode_groups(bytes, q, url)[j] == prev[j]);
            }
        }
    }
}

proof fn lemma_decode_groups(bytes: Seq<u8>, vals: Seq<u32>, q: nat)
    requires
        3 * q <= bytes.len(),
        4 * q <= vals.len(),
        vals.take(4 * q as int) == group_values(bytes, q),
    ensures
        decode_groups(vals, q) == bytes.take(3 * q as int),
    decreases q,
{
    if q > 0 {
        let i = 3 * (q - 1);
        let a = bytes[i];
        let b = bytes[i + 1];
        let c = bytes[i + 2];
        let n = triple(a, b, c);
        let prev = group_values(bytes, (q - 1) as nat);
        assert(group_values(bytes, q) == prev + seq![sextet(n, 18), sextet(n, 12), sextet(n, 6), sextet(n, 0)]);
        assert(prev.len() == 4 * (q - 1)) by {
            lemma_group_values_len(bytes, (q - 1) as nat);
        }
        assert(vals.take(4 * (q - 1)) =~= vals.take(4 * q as int).take(4 * (q - 1)));
        assert(vals.take(4 * (q - 1)) =~= prev);
        lemma_decode_groups(bytes, vals, (q - 1) as nat);
        let k = 4 * (q - 1);
        assert(vals[k] == vals.take(4 * q as int)[k]);
        assert(vals[k + 1] == vals.take(4 * q as int)[k + 1]);
        assert(vals[k + 2] == vals.take(4 * q as int)[k + 2]);
        assert(vals[k + 3] == vals.take(4 * q as int)[k + 3]);
        lemma_group_bits(a, b, c);
        assert(decode_group(vals[k], vals[k + 1], vals[k + 2], vals[k + 3]) =~= seq![a, b, c]);
        assert(bytes.take(3 * q as int) =~= bytes.take(3 * (q - 1)) + seq![a, b, c]);
    }
}

proof fn lemma_group_values_len(bytes: Seq<u8>, q: nat)
    ensures
        group_values(bytes, q).len() == 4 * q,
    decreases q,
{
    if q > 0 {
        lemma_group_values_len(bytes, (q - 1) as nat);
    }
}

/// Lenient base64 decoding gives back the bytes of any base64 encoding,
/// with either alphabet, with or without padding.
#[verifier::rlimit(60)]
#[verifier::spinoff_prover]
pub proof fn lemma_base64_roundtrip(bytes: Seq<u8>, url: bool, pad: bool)
    ensures
        lenient_base64(base64_text(bytes, url, pad)) == Some(bytes),
{
    let len = bytes.len();
    let q = len / 3;
    assert(3 * q <= len && len - 3 * q < 3) by (nonlinear_arith)
        requires
            q == len / 3,
    ;
    let groups = encode_groups(bytes, q, url);
    lemma_encode_groups(bytes, q, url);
    let tail = bytes.skip(3 * q as int);
    let rest = encode_rest(tail, url, pad);
    let text = base64_text(bytes, url, pad);
    assert(text == groups + rest);
    // the characters of the last bytes without padding, and their values
    let (data_rest, rest_vals, p): (Seq<char>, Seq<u32>, nat) = if tail.len() == 1 {
        let n = triple(tail[0], 0, 0);
        lemma_rest1_bits(tail[0]);
        lemma_alphabet_value(sextet(n, 18), url);
        lemma_alphabet_value(sextet(n, 12), url);
        (seq![alphabet_char(sextet(n, 18), url), alphabet_char(sextet(n, 12), url)], seq![sextet(n, 18), sextet(n, 12)], if pad { 2nat } else { 0nat })
    } else if tail.len() == 2 {
        let n = triple(tail[0], tail[1], 0);
        lemma_rest2_bits(tail[0], tail[1]);
        lemma_alphabet_value(sextet(n, 18), url);
        lemma_alphabet_value(sextet(n, 12), url);
        lemma_alphabet_value(sextet(n, 6), url);
        (
            seq![alphabet_char(sextet(n, 18), url), alphabet_char(sextet(n, 12), url), alphabet_char(sextet(n, 6), url)],
            seq![sextet(n, 18), sextet(n, 12), sextet(n, 6)],
            if pad { 1nat } else { 0nat },
        )
    } else {
        (Seq::empty(), Seq::empty(), 0nat)
    };
    let data = groups + data_rest;
    assert(text.len() == data.len() + p);
    assert(text.take(data.len() as int) =~= data);
    assert(padding_len(text) == p) by {
        if data.len() > 0 {
            let last = data.len() - 1;
            if last >= groups.len() {
                assert(data[last] == data_rest[last - groups.len()]);
            } else {
                assert(data[last] == groups[last]);
            }
        }
        if data.len() > 1 {
            let k = data.len() - 2;
            if k >= groups.len() {
                assert(data[k] == data_rest[k - groups.len()]);
            } else {
                assert(data[k] == groups[k]);
            }
        }
        if p > 0 {
            assert(text[text.len() - 1] == '=');
        }
        if p == 1 {
            assert(text[text.len() - 2] == data[data.len() - 1]);
        }
        if p == 0 && data.len() > 0 {
            assert(text[text.len() - 1] == data[data.len() - 1]);
        }
        if p == 2 {
            assert(text[text.len() - 2] == '=');
        }
    }
    lemma_values_concat(groups, data_rest);
    assert(b64_values(data_rest) =~= rest_vals);
    let vals = b64_values(data);
    assert(vals == group_values(bytes, q) + rest_vals);
    assert(forall|i: int| 0 <= i < data.len() ==> #[trigger] b64_value(data[i]) is Some) by {
        assert forall|i: int| 0 <= i < data.len() implies #[trigger] b64_value(data[i]) is Some by {
            if i >= groups.len() {
                assert(data[i] == data_rest[i - groups.len()]);
            } else {
                assert(data[i] == groups[i]);
            }
        }
    }
    assert(vals.len() / 4 == q) by (nonlinear_arith)
        requires
            vals.len() == 4 * q + rest_vals.len(),
            rest_vals.len() < 4,
    ;
    assert(vals.skip(4 * q as int) =~= rest_vals);
    assert(vals.take(4 * q as int) =~= group_values(bytes, q));
    lemma_decode_groups(bytes, vals, q);
    assert(decode_rest(rest_vals) =~= tail);
    assert(bytes =~= bytes.take(3 * q as int) + tail);
}


// -- hexadecimal ------------------------------------------------------------

/// The hex digit of a value below 16.
pub open spec fn hex_digit(v: nat, upper: bool) -> char {
    if v < 10 {
        ('0' as nat + v) as char
    } else if upper {
        ('A' as nat + (v - 10)) as char
    } else {
        ('a' as nat + (v - 10)) as char
    }
}

/// The value of a hex digit (either case).
pub open spec fn hex_value(c: char) -> Option<nat> {
    if '0' <= c <= '9' {
        Some((c as nat - '0' as nat) as nat)
    } else if 'a' <= c <= 'f' {
        Some((c as nat - 'a' as nat + 10) as nat)
    } else if 'A' <= c <= 'F' {
        Some((c as nat - 'A' as nat + 10) as nat)
    } else {
        None
    }
}

/// Hexadecimal of the bytes: two digits per byte, high digit first.
pub open spec fn hex_text(bytes: Seq<u8>, upper: bool) -> Seq<char> {
    Seq::new(
        2 * bytes.len(),
        |i: int|
            if i % 2 == 0 {
                hex_digit((bytes[i / 2] / 16) as nat, upper)
            } else {
                hex_digit((bytes[i / 2] % 16) as nat, upper)
            },
    )
}

/// The bytes of a hex string: an even number of hex digits.
pub open spec fn hex_bytes(s: Seq<char>) -> Option<Seq<u8>> {
    if s.len() % 2 != 0 {
        None
    } else if !(forall|i: int| 0 <= i < s.len() ==> #[trigger] hex_value(s[i]) is Some) {
        None
    } else {
        Some(Seq::new(s.len() / 2, |i: int| (hex_value(s[2 * i])->0 * 16 + hex_value(s[2 * i + 1])->0) as u8))
    }
}

fn hex_char(v: u8, upper: bool) -> (c: char)
    requires
        v < 16,
    ensures
        c == hex_digit(v as nat, upper),
{
    if v < 10 {
        (('0' as u8) + v) as char
    } else if upper {
        (('A' as u8) + (v - 10)) as char
    } else {
        (('a' as u8) + (v - 10)) as char
    }
}

/// Encodes bytes as hexadecimal and appends them to the characters.
pub fn encode_hex(bytes: &[u8], upper: bool, out: &mut Vec<char>)
    ensures
        final(out)@ == old(out)@ + hex_text(bytes@, upper),
{
    let ghost start = out@;
    let mut i: usize = 0;
    while i < bytes.len()
        invariant
            i <= bytes@.len(),
            out@ == start + hex_text(bytes@.take(i as int), upper),
        decreases bytes@.len() - i,
    {
        let b = bytes[i];
        out.push(hex_char(b / 16, upper));
        out.push(hex_char(b % 16, upper));
        proof {
            let t = bytes@.take(i + 1);
            assert forall|k: int| 0 <= k < 2 * (i + 1) implies #[trigger] hex_text(t, upper)[k] == (hex_text(bytes@.take(i as int), upper) + seq![hex_digit((b / 16) as nat, upper), hex_digit((b % 16) as nat, upper)])[k] by {
                if k < 2 * i {
                    assert(k / 2 < i) by (nonlinear_arith)
                        requires
                            0 <= k < 2 * i,
                    ;
                } else {
                    assert(k / 2 == i) by (nonlinear_arith)
                        requires
                            2 * i <= k < 2 * i + 2,
                    ;
                    assert(k % 2 == k - 2 * i) by (nonlinear_arith)
                        requires
                            2 * i <= k < 2 * i + 2,
                    ;
                }
            }
            assert(hex_text(t, upper) =~= hex_text(bytes@.take(i as int), upper) + seq![hex_digit((b / 16) as nat, upper), hex_digit((b % 16) as nat, upper)]);
        }
        i = i + 1;
    }
    assert(bytes@.take(bytes@.len() as int) =~= bytes@);
}

fn hex_digit_value(c: char) -> (r: Option<u8>)
    ensures
        r matches Some(v) ==> hex_value(c) == Some(v as nat),
        r is None ==> hex_value(c) is None,
{
    if '0' <= c && c <= '9' {
        Some(((c as u32) - ('0' as u32)) as u8)
    } else if 'a' <= c && c <= 'f' {
        Some(((c as u32) - ('a' as u32) + 10) as u8)
    } else if 'A' <= c && c <= 'F' {
        Some(((c as u32) - ('A' as u32) + 10) as u8)
    } else {
        None
    }
}

/// Decodes hexadecimal digits (either case) into bytes.
pub fn decode_hex_chars(s: &[char]) -> (r: Option<Vec<u8>>)
    ensures
        r is Some <==> hex_bytes(s@) is Some,
        r matches Some(v) ==> v@ == hex_bytes(s@)->0,
{
    if s.len() % 2 != 0 {
        return None;
    }
    let mut out: Vec<u8> = Vec::new();
    let mut i: usize = 0;
    while i < s.len() / 2
        invariant
            s@.len() % 2 == 0,
            i <= s@.len() / 2,
            out@.len() == i,
            forall|k: int| 0 <= k < 2 * i ==> #[trigger] hex_value(s@[k]) is Some,
            forall|k: int| 0 <= k < i ==> out@[k] == (hex_value(s@[2 * k])->0 * 16 + hex_value(s@[2 * k + 1])->0) as u8,
        decreases s@.len() / 2 - i,
    {
        let hi = match hex_digit_value(s[2 * i]) {
            Some(v) => v,
            None => return None,
        };
        let lo = match hex_digit_value(s[2 * i + 1]) {
            Some(v) => v,
            None => return None,
        };
        out.push(hi * 16 + lo);
        i = i + 1;
    }
    assert(2 * (s@.len() / 2) == s@.len()) by (nonlinear_arith)
        requires
            s@.len() % 2 == 0,
    ;
    assert(out@ =~= hex_bytes(s@)->0);
    Some(out)
}

proof fn lemma_hex_digit(v: nat, upper: bool)
    requires
        v < 16,
    ensures
        hex_value(hex_digit(v, upper)) == Some(v),
{
    if v < 10 {
        assert((('0' as nat + v) as char) as nat == '0' as nat + v);
    } else if upper {
        assert((('A' as nat + (v - 10)) as char) as nat == 'A' as nat + (v - 10));
    } else {
        assert((('a' as nat + (v - 10)) as char) as nat == 'a' as nat + (v - 10));
    }
}

/// Decoding gives back the bytes of any hex encoding, in either case.
pub proof fn lemma_hex_roundtrip(bytes: Seq<u8>, upper: bool)
    ensures
        hex_bytes(hex_text(bytes, upper)) == Some(bytes),
{
    let t = hex_text(bytes, upper);
    assert forall|i: int| 0 <= i < t.len() implies #[trigger] hex_value(t[i]) is Some by {
        lemma_hex_digit((bytes[i / 2] / 16) as nat, upper);
        lemma_hex_digit((bytes[i / 2] % 16) as nat, upper);
    }
    assert forall|i: int| 0 <= i < bytes.len() implies (hex_value(t[2 * i])->0 * 16 + hex_value(t[2 * i + 1])->0) as u8
        == bytes[i] by {
        assert((2 * i) / 2 == i && (2 * i) % 2 == 0 && (2 * i + 1) / 2 == i && (2 * i + 1) % 2 == 1) by (nonlinear_arith);
        lemma_hex_digit((bytes[i] / 16) as nat, upper);
        lemma_hex_digit((bytes[i] % 16) as nat, upper);
    }
    assert(t.len() % 2 == 0 && t.len() / 2 == bytes.len()) by (nonlinear_arith)
        requires
            t.len() == 2 * bytes.len(),
    ;
    assert(hex_bytes(t)->0 =~= bytes);
}


// -- base32 -----------------------------------------------------------------

/// What `data_encoding::Encoding::encode_append` appends for the base32
/// encoding with the extended hex alphabet (or not) and padding (or not).
pub uninterp spec fn base32_encoded(hex: bool, pad: bool, bytes: Seq<u8>) -> Seq<char>;

/// What `data_encoding::Encoding::decode` returns for the base32 encoding
/// with the extended hex alphabet (or not) and padding (or not): the bytes
/// or the position of the error and its kind (0 invalid length, 1 invalid
/// symbol, 2 non-zero trailing bits, 3 invalid padding length).
pub uninterp spec fn base32_decoded(hex: bool, pad: bool, input: Seq<u8>) -> Result<Seq<u8>, (usize, u8)>;

/// Encodes bytes with one of the base32 encodings of `data_encoding`
/// (`BASE32`, `BASE32_NOPAD`, `BASE32HEX`, `BASE32HEX_NOPAD`) through
/// `Encoding::encode_append`.  The result is named, not stated: it depends
/// on the arguments alone.  `encode_len` asserts that the input is at most
/// `usize::MAX / 512` bytes long.  As the crate documents, it encodes to
/// ASCII.
#[verifier::external_body]
fn base32_encode(hex: bool, pad: bool, bytes: &[u8]) -> (s: String)
    requires
        bytes@.len() <= usize::MAX / 512,
    ensures
        s@ == base32_encoded(hex, pad, bytes@),
        vstd::utf8::is_ascii_chars(s@),
{
    let encoding = match (hex, pad) {
        (false, true) => &data_encoding::BASE32,
        (false, false) => &data_encoding::BASE32_NOPAD,
        (true, true) => &data_encoding::BASE32HEX,
        (true, false) => &data_encoding::BASE32HEX_NOPAD,
    };
    let mut s = String::new();
    encoding.encode_append(bytes, &mut s);
    s
}

/// Decodes with one of the base32 encodings of `data_encoding` through
/// `Encoding::decode`, converting the `DecodeError` into its position and
/// the number of its kind.  The result is named, not stated.
/// `decode_len` asserts that the input is at most `usize::MAX / 8` bytes.
/// That decoding gives back what the same encoding encoded, as the crate
/// documents, is not stated here.
#[verifier::external_body]
fn base32_decode(hex: bool, pad: bool, input: &[u8]) -> (r: Result<Vec<u8>, (usize, u8)>)
    requires
        input@.len() <= usize::MAX / 8,
    ensures
        match r {
            Ok(v) => base32_decoded(hex, pad, input@) == Ok::<Seq<u8>, (usize, u8)>(v@),
            Err(e) => base32_decoded(hex, pad, input@) == Err::<Seq<u8>, (usize, u8)>(e),
        },
{
    let encoding = match (hex, pad) {
        (false, true) => &data_encoding::BASE32,
        (false, false) => &data_encoding::BASE32_NOPAD,
        (true, true) => &data_encoding::BASE32HEX,
        (true, false) => &data_encoding::BASE32HEX_NOPAD,
    };
    match encoding.decode(input) {
        Ok(v) => Ok(v),
        Err(e) => Err((e.position, match e.kind {
            data_encoding::DecodeKind::Length => 0,
            data_encoding::DecodeKind::Symbol => 1,
            data_encoding::DecodeKind::Trailing => 2,
            data_encoding::DecodeKind::Padding => 3,
        })),
    }
}

/// The description of a decode error kind.
pub open spec fn decode_kind_text(kind: u8) -> Seq<char> {
    if kind == 0 {
        "invalid length"@
    } else if kind == 1 {
        "invalid symbol"@
    } else if kind == 2 {
        "non-zero trailing bits"@
    } else {
        "invalid padding length"@
    }
}

fn decode_kind_str(kind: u8) -> (s: &'static str)
    ensures
        s@ == decode_kind_text(kind),
{
    if kind == 0 {
        "invalid length"
    } else if kind == 1 {
        "invalid symbol"
    } else if kind == 2 {
        "non-zero trailing bits"
    } else {
        "invalid padding length"
    }
}

// -- formats ----------------------------------------------------------------

/// An encoding of bytes as string.
#[derive(Debug, Clone, Copy, PartialEq, Eq, Structural)]
pub enum BytesEncoding {
    /// Base64 with the standard alphabet and padding (RFC 4648 section 4).
    Base64,
    /// Base64 with the standard alphabet without padding.
    Base64NoPad,
    /// Base64 with the URL-safe alphabet and padding (RFC 4648 section 5).
    Base64Url,
    /// Base64 with the URL-safe alphabet without padding.
    Base64UrlNoPad,
    /// Hexadecimal with lowercase digits.
    Hex,
    /// Hexadecimal with uppercase digits.
    HexUpper,
    /// Base32 with padding (RFC 4648 section 6).
    Base32,
    /// Base32 without padding.
    Base32NoPad,
    /// Base32 with the extended hex alphabet and padding (section 7).
    Base32Hex,
    /// Base32 with the extended hex alphabet without padding.
    Base32HexNoPad,
}

/// The name of an encoding.
pub open spec fn encoding_name(e: BytesEncoding) -> Seq<char> {
    match e {
        BytesEncoding::Base64 => "base64"@,
        BytesEncoding::Base64NoPad => "base64-nopad"@,
        BytesEncoding::Base64Url => "base64url"@,
        BytesEncoding::Base64UrlNoPad => "base64url-nopad"@,
        BytesEncoding::Hex => "hex"@,
        BytesEncoding::HexUpper => "hex-upper"@,
        BytesEncoding::Base32 => "base32"@,
        BytesEncoding::Base32NoPad => "base32-nopad"@,
        BytesEncoding::Base32Hex => "base32hex"@,
        BytesEncoding::Base32HexNoPad => "base32hex-nopad"@,
    }
}

/// Whether a base32 encoding uses the extended hex alphabet.
pub open spec fn base32_hex(e: BytesEncoding) -> bool {
    e == BytesEncoding::Base32Hex || e == BytesEncoding::Base32HexNoPad
}

/// Whether a base32 encoding pads.
pub open spec fn base32_pad(e: BytesEncoding) -> bool {
    e == BytesEncoding::Base32 || e == BytesEncoding::Base32Hex
}

/// The text of bytes in an encoding.
pub open spec fn encoded_text(e: BytesEncoding, bytes: Seq<u8>) -> Seq<char> {
    match e {
        BytesEncoding::Base64 => base64_text(bytes, false, true),
        BytesEncoding::Base64NoPad => base64_text(bytes, false, false),
        BytesEncoding::Base64Url => base64_text(bytes, true, true),
        BytesEncoding::Base64UrlNoPad => base64_text(bytes, true, false),
        BytesEncoding::Hex => hex_text(bytes, false),
        BytesEncoding::HexUpper => hex_text(bytes, true),
        _ => base32_encoded(base32_hex(e), base32_pad(e), bytes),
    }
}

/// The message of an invalid string.
pub open spec fn invalid_message(name: Seq<char>) -> Seq<char> {
    "invalid "@ + name + " string"@
}

/// The result of decoding a string in an encoding: the bytes or the error
/// message.
pub open spec fn decoded_text(e: BytesEncoding, s: Seq<char>, bytes: Seq<u8>) -> Result<Seq<u8>, Seq<char>> {
    match e {
        BytesEncoding::Base64 | BytesEncoding::Base64NoPad | BytesEncoding::Base64Url
        | BytesEncoding::Base64UrlNoPad => match lenient_base64(s) {
            Some(b) => Ok(b),
            None => Err(invalid_message("base64"@)),
        },
        BytesEncoding::Hex | BytesEncoding::HexUpper => match hex_bytes(s) {
            Some(b) => Ok(b),
            None => Err(invalid_message("hex"@)),
        },
        _ => match base32_decoded(base32_hex(e), base32_pad(e), bytes) {
            Ok(b) => Ok(b),
            Err((position, kind)) => Err(invalid_message(encoding_name(e)) + ": "@ + decode_kind_text(kind) + " at "@
                + crate::text::decimal_chars(position as nat)),
        },
    }
}

proof fn lemma_alphabet_ascii(v: u32, url: bool)
    ensures
        '\0' <= alphabet_char(v, url) <= '\u{7f}',
{
    if v < 26 {
        assert((('A' as u32 + v) as char) as u32 == 'A' as u32 + v);
    } else if v < 52 {
        assert((('a' as u32 + (v - 26)) as char) as u32 == 'a' as u32 + (v - 26));
    } else if v < 62 {
        assert((('0' as u32 + (v - 52)) as char) as u32 == '0' as u32 + (v - 52));
    }
}

proof fn lemma_groups_ascii(bytes: Seq<u8>, q: nat, url: bool)
    requires
        3 * q <= bytes.len(),
    ensures
        vstd::utf8::is_ascii_chars(encode_groups(bytes, q, url)),
    decreases q,
{
    if q > 0 {
        let i = 3 * (q - 1);
        lemma_groups_ascii(bytes, (q - 1) as nat, url);
        let n = triple(bytes[i], bytes[i + 1], bytes[i + 2]);
        lemma_alphabet_ascii(sextet(n, 18), url);
        lemma_alphabet_ascii(sextet(n, 12), url);
        lemma_alphabet_ascii(sextet(n, 6), url);
        lemma_alphabet_ascii(sextet(n, 0), url);
        let a = encode_groups(bytes, (q - 1) as nat, url);
        let b = encode_group(bytes[i], bytes[i + 1], bytes[i + 2], url);
        assert forall|k: int| 0 <= k < (a + b).len() implies '\0' <= #[trigger] (a + b)[k] <= '\u{7f}' by {
            if k >= a.len() {
                assert((a + b)[k] == b[k - a.len()]);
            }
        }
    }
}

proof fn lemma_base64_ascii(bytes: Seq<u8>, url: bool, pad: bool)
    ensures
        vstd::utf8::is_ascii_chars(base64_text(bytes, url, pad)),
{
    let q = bytes.len() / 3;
    assert(3 * q <= bytes.len()) by (nonlinear_arith)
        requires
            q == bytes.len() / 3,
    ;
    lemma_groups_ascii(bytes, q, url);
    let rest = bytes.skip(3 * q as int);
    if rest.len() == 1 {
        let n = triple(rest[0], 0, 0);
        lemma_alphabet_ascii(sextet(n, 18), url);
        lemma_alphabet_ascii(sextet(n, 12), url);
    } else if rest.len() == 2 {
        let n = triple(rest[0], rest[1], 0);
        lemma_alphabet_ascii(sextet(n, 18), url);
        lemma_alphabet_ascii(sextet(n, 12), url);
        lemma_alphabet_ascii(sextet(n, 6), url);
    }
    let a = encode_groups(bytes, q, url);
    let b = encode_rest(rest, url, pad);
    assert(vstd::utf8::is_ascii_chars(b));
    assert forall|k: int| 0 <= k < (a + b).len() implies '\0' <= #[trigger] (a + b)[k] <= '\u{7f}' by {
        if k >= a.len() {
            assert((a + b)[k] == b[k - a.len()]);
        }
    }
}

proof fn lemma_hex_ascii(bytes: Seq<u8>, upper: bool)
    ensures
        vstd::utf8::is_ascii_chars(hex_text(bytes, upper)),
{
    let t = hex_text(bytes, upper);
    assert forall|k: int| 0 <= k < t.len() implies '\0' <= #[trigger] t[k] <= '\u{7f}' by {
        lemma_hex_digit((bytes[k / 2] / 16) as nat, upper);
        lemma_hex_digit((bytes[k / 2] % 16) as nat, upper);
    }
}

/// Every encoding but base32 writes ASCII characters only.
proof fn lemma_encoded_ascii(e: BytesEncoding, bytes: Seq<u8>)
    requires
        !e.is_base32(),
    ensures
        vstd::utf8::is_ascii_chars(encoded_text(e, bytes)),
{
    lemma_base64_ascii(bytes, false, true);
    lemma_base64_ascii(bytes, false, false);
    lemma_base64_ascii(bytes, true, true);
    lemma_base64_ascii(bytes, true, false);
    lemma_hex_ascii(bytes, false);
    lemma_hex_ascii(bytes, true);
}

impl BytesEncoding {
    /// One of the base32 encodings.
    pub open spec fn is_base32(&self) -> bool {
        *self == BytesEncoding::Base32 || *self == BytesEncoding::Base32NoPad || *self == BytesEncoding::Base32Hex
            || *self == BytesEncoding::Base32HexNoPad
    }

    /// Returns `true` for the base32 encodings.
    pub fn uses_base32(&self) -> (r: bool)
        ensures
            r == self.is_base32(),
    {
        match self {
            BytesEncoding::Base32 | BytesEncoding::Base32NoPad | BytesEncoding::Base32Hex
            | BytesEncoding::Base32HexNoPad => true,
            _ => false,
        }
    }

    /// Returns the name of the encoding.
    pub fn name(&self) -> (r: &'static str)
        ensures
            r@ == encoding_name(*self),
    {
        match self {
            BytesEncoding::Base64 => "base64",
            BytesEncoding::Base64NoPad => "base64-nopad",
            BytesEncoding::Base64Url => "base64url",
            BytesEncoding::Base64UrlNoPad => "base64url-nopad",
            BytesEncoding::Hex => "hex",
            BytesEncoding::HexUpper => "hex-upper",
            BytesEncoding::Base32 => "base32",
            BytesEncoding::Base32NoPad => "base32-nopad",
            BytesEncoding::Base32Hex => "base32hex",
            BytesEncoding::Base32HexNoPad => "base32hex-nopad",
        }
    }

    /// Encodes bytes and appends them to the string.
    pub fn encode(&self, bytes: &[u8], out: &mut String)
        requires
            self.is_base32() ==> bytes@.len() <= usize::MAX / 512,
        ensures
            final(out)@ == old(out)@ + encoded_text(*self, bytes@),
            vstd::utf8::is_ascii_chars(encoded_text(*self, bytes@)),
    {
        let mut chars: Vec<char> = Vec::new();
        match self {
            BytesEncoding::Base64 => encode_base64(bytes, false, true, &mut chars),
            BytesEncoding::Base64NoPad => encode_base64(bytes, false, false, &mut chars),
            BytesEncoding::Base64Url => encode_base64(bytes, true, true, &mut chars),
            BytesEncoding::Base64UrlNoPad => encode_base64(bytes, true, false, &mut chars),
            BytesEncoding::Hex => encode_hex(bytes, false, &mut chars),
            BytesEncoding::HexUpper => encode_hex(bytes, true, &mut chars),
            BytesEncoding::Base32 => chars = str_chars(base32_encode(false, true, bytes).as_str()),
            BytesEncoding::Base32NoPad => chars = str_chars(base32_encode(false, false, bytes).as_str()),
            BytesEncoding::Base32Hex => chars = str_chars(base32_encode(true, true, bytes).as_str()),
            BytesEncoding::Base32HexNoPad => chars = str_chars(base32_encode(true, false, bytes).as_str()),
        }
        assert(chars@ =~= Seq::<char>::empty() + encoded_text(*self, bytes@));
        proof {
            if !self.is_base32() {
                lemma_encoded_ascii(*self, bytes@);
            }
        }
        string_push_chars(out, &chars);
    }

    /// Decodes a string.
    pub fn decode(&self, s: &str) -> (r: Result<Vec<u8>, Error>)
        requires
            s.spec_bytes().len() <= usize::MAX / 8,
        ensures
            match decoded_text(*self, s@, s.spec_bytes()) {
                Ok(b) => r matches Ok(v) && v@ == b,
                Err(m) => r matches Err(e) && e.kind == ErrorKind::Unexpected && e.message@ == m
                    && e.position is None,
            },
            forall|b: Seq<u8>| !self.is_base32() && s@ == #[trigger] encoded_text(*self, b) ==> (r matches Ok(v) && v@ == b),
    {
        proof {
            assert forall|b: Seq<u8>| !self.is_base32() && s@ == #[trigger] encoded_text(*self, b) implies decoded_text(
                *self,
                s@,
                s.spec_bytes(),
            ) == Ok::<Seq<u8>, Seq<char>>(b) by {
                lemma_base64_roundtrip(b, false, true);
                lemma_base64_roundtrip(b, false, false);
                lemma_base64_roundtrip(b, true, true);
                lemma_base64_roundtrip(b, true, false);
                lemma_hex_roundtrip(b, false);
                lemma_hex_roundtrip(b, true);
            }
        }
        let chars = str_chars(s);
        let name = self.name();
        match self {
            BytesEncoding::Base64 | BytesEncoding::Base64NoPad | BytesEncoding::Base64Url
            | BytesEncoding::Base64UrlNoPad => match decode_base64_chars(&chars) {
                Some(b) => Ok(b),
                None => Err(invalid("base64")),
            },
            BytesEncoding::Hex | BytesEncoding::HexUpper => match decode_hex_chars(&chars) {
                Some(b) => Ok(b),
                None => Err(invalid("hex")),
            },
            _ => {
                let hex = matches!(self, BytesEncoding::Base32Hex | BytesEncoding::Base32HexNoPad);
                let pad = matches!(self, BytesEncoding::Base32 | BytesEncoding::Base32Hex);
                assert(hex == base32_hex(*self) && pad == base32_pad(*self));
                match base32_decode(hex, pad, s.as_bytes()) {
                    Ok(b) => Ok(b),
                    Err((position, kind)) => {
                        let mut m: Vec<char> = str_chars("invalid ");
                        push_chars(&mut m, &str_chars(name));
                        push_chars(&mut m, &str_chars(" string: "));
                        push_chars(&mut m, &str_chars(decode_kind_str(kind)));
                        push_chars(&mut m, &str_chars(" at "));
                        push_chars(&mut m, &decimal(position as u128));
                        proof {
                            reveal_strlit("invalid ");
                            reveal_strlit(" string: ");
                            reveal_strlit(" string");
                            reveal_strlit(": ");
                            reveal_strlit(" at ");
                        }
                        assert(m@ =~= invalid_message(encoding_name(*self)) + ": "@ + decode_kind_text(kind) + " at "@
                            + crate::text::decimal_chars(position as nat));
                        Err(Error::from_message(ErrorKind::Unexpected, chars_to_string(&m)))
                    },
                }
            },
        }
    }
}

/// The error of an invalid string.
fn invalid(name: &str) -> (e: Error)
    ensures
        e.kind == ErrorKind::Unexpected,
        e.message@ == invalid_message(name@),
        e.position is None,
{
    let mut m: Vec<char> = str_chars("invalid ");
    push_chars(&mut m, &str_chars(name));
    push_chars(&mut m, &str_chars(" string"));
    Error::from_message(ErrorKind::Unexpected, chars_to_string(&m))
}


/// Decodes lenient base64: both alphabets (also mixed) are accepted, the
/// padding is optional but complete if there is one, unused bits are zero.
pub fn decode_base64(s: &str) -> (r: Result<Vec<u8>, Error>)
    ensures
        match lenient_base64(s@) {
            Some(b) => r matches Ok(v) && v@ == b,
            None => r matches Err(e) && e.kind == ErrorKind::Unexpected && e.message@ == invalid_message(
                "base64"@,
            ) && e.position is None,
        },
{
    match decode_base64_chars(&str_chars(s)) {
        Some(b) => Ok(b),
        None => Err(invalid("base64")),
    }
}

/// Decodes hexadecimal (lowercase and uppercase digits).
pub fn decode_hex(s: &str) -> (r: Result<Vec<u8>, Error>)
    ensures
        match hex_bytes(s@) {
            Some(b) => r matches Ok(v) && v@ == b,
            None => r matches Err(e) && e.kind == ErrorKind::Unexpected && e.message@ == invalid_message("hex"@)
                && e.position is None,
        },
{
    match decode_hex_chars(&str_chars(s)) {
        Some(b) => Ok(b),
        None => Err(invalid("hex")),
    }
}

/// How bytes are represented in formats without native bytes: strings in
/// an encoding, or sequences of integers (`encoding` is `None`).
///
/// Two formats are equal if they are both sequences or the same encoding.
#[derive(Debug, Clone, Copy, PartialEq, Eq, Structural)]
pub struct BytesFormat {
    pub encoding: Option<BytesEncoding>,
}

/// The name of a format: that of its encoding or `seq`.
pub open spec fn format_name(f: BytesFormat) -> Seq<char> {
    match f.encoding {
        Some(e) => encoding_name(e),
        None => "seq"@,
    }
}

impl BytesFormat {
    /// Bytes are strings in base64 with the standard alphabet and padding.
    pub fn base64() -> (f: BytesFormat)
        ensures
            f.encoding == Some(BytesEncoding::Base64),
    {
        BytesFormat { encoding: Some(BytesEncoding::Base64) }
    }

    /// Bytes are sequences of integers.
    pub fn seq() -> (f: BytesFormat)
        ensures
            f.encoding is None,
    {
        BytesFormat { encoding: None }
    }

    /// Bytes are strings in the given encoding.
    pub fn encoded(encoding: BytesEncoding) -> (f: BytesFormat)
        ensures
            f.encoding == Some(encoding),
    {
        BytesFormat { encoding: Some(encoding) }
    }

    /// Returns the name of the format: the name of the encoding or `seq`.
    pub fn name(&self) -> (r: &'static str)
        ensures
            r@ == format_name(*self),
    {
        match self.encoding {
            Some(e) => e.name(),
            None => "seq",
        }
    }

    /// Returns `true` if bytes are sequences of integers.
    pub fn is_seq(&self) -> (r: bool)
        ensures
            r == self.encoding is None,
    {
        self.encoding.is_none()
    }

    /// Encodes bytes as string.  Returns `None` if bytes are sequences of
    /// integers.
    pub fn encode(&self, bytes: &[u8]) -> (r: Option<String>)
        requires
            self.encoding matches Some(e) && e.is_base32() ==> bytes@.len() <= usize::MAX / 512,
        ensures
            match self.encoding {
                Some(e) => r matches Some(s) && s@ == encoded_text(e, bytes@) && vstd::utf8::is_ascii_chars(s@),
                None => r is None,
            },
    {
        match self.encoding {
            Some(e) => {
                let mut rv = String::new();
                e.encode(bytes, &mut rv);
                Some(rv)
            },
            None => None,
        }
    }

    /// Decodes bytes from a string.  For sequences of integers the string
    /// is decoded as lenient base64.
    pub fn decode(&self, s: &str) -> (r: Result<Vec<u8>, Error>)
        requires
            s.spec_bytes().len() <= usize::MAX / 8,
        ensures
            match decoded_text(
                match self.encoding {
                    Some(e) => e,
                    None => BytesEncoding::Base64,
                },
                s@,
                s.spec_bytes(),
            ) {
                Ok(b) => r matches Ok(v) && v@ == b,
                Err(m) => r matches Err(e) && e.kind == ErrorKind::Unexpected && e.message@ == m
                    && e.position is None,
            },
            forall|b: Seq<u8>|
                self.encoding is Some && !self.encoding->0.is_base32() && s@ == #[trigger] encoded_text(
                    self.encoding->0,
                    b,
                ) ==> (r matches Ok(v) && v@ == b),
    {
        match self.encoding {
            Some(e) => e.decode(s),
            None => BytesEncoding::Base64.decode(s),
        }
    }

    /// The debug text of the format: `BytesFormat("name")`.
    pub fn debug_text(&self) -> (r: String)
        ensures
            r@ == "BytesFormat(\""@ + format_name(*self) + "\")"@,
    {
        let mut m: Vec<char> = str_chars("BytesFormat(\"");
        push_chars(&mut m, &str_chars(self.name()));
        push_chars(&mut m, &str_chars("\")"));
        chars_to_string(&m)
    }
}

impl Default for BytesFormat {
    /// The default is base64 with the standard alphabet and padding.
    fn default() -> (f: BytesFormat)
        ensures
            f.encoding == Some(BytesEncoding::Base64),
    {
        BytesFormat::base64()
    }
}

} // verus!
