//! The data model: the values that YAML scalars resolve to.
use vstd::prelude::*;

use crate::text::{decimal, decimal_chars, push_chars};

verus! {

/// A calendar date.
#[derive(Debug, Clone, Copy, PartialEq, Eq, Structural)]
pub struct Date {
    pub year: u16,
    pub month: u8,
    pub day: u8,
}

/// A time of day.
#[derive(Debug, Clone, Copy, PartialEq, Eq, Structural)]
pub struct Time {
    pub hour: u8,
    pub minute: u8,
    pub second: u8,
    pub nanosecond: u32,
}

/// The offset of a time from UTC.
#[derive(Debug, Clone, Copy, PartialEq, Eq, Structural)]
pub enum Offset {
    /// UTC (`Z`).
    Z,
    /// An offset in minutes.
    Custom { minutes: i16 },
}

/// A date, a time or both, with an optional offset.
#[derive(Debug, Clone, Copy, PartialEq, Eq, Structural)]
pub struct Datetime {
    pub date: Option<Date>,
    pub time: Option<Time>,
    pub offset: Option<Offset>,
}

pub open spec fn is_leap_year(year: int) -> bool {
    (year % 4 == 0 && year % 100 != 0) || year % 400 == 0
}

pub open spec fn days_in_month(year: int, month: int) -> int {
    if month == 2 {
        if is_leap_year(year) { 29 } else { 28 }
    } else if month == 4 || month == 6 || month == 9 || month == 11 {
        30
    } else {
        31
    }
}

impl Date {
    pub open spec fn spec_is_valid(&self) -> bool {
        1 <= self.month <= 12 && 1 <= self.day <= days_in_month(self.year as int, self.month as int)
    }

    /// Returns `true` if the date exists in the proleptic Gregorian calendar.
    pub fn is_valid(&self) -> (r: bool)
        ensures
            r == self.spec_is_valid(),
    {
        if self.month < 1 || self.month > 12 || self.day < 1 {
            return false;
        }
        let y = self.year;
        let leap = (y % 4 == 0 && y % 100 != 0) || y % 400 == 0;
        let days: u8 = if self.month == 2 {
            if leap { 29 } else { 28 }
        } else if self.month == 4 || self.month == 6 || self.month == 9 || self.month == 11 {
            30
        } else {
            31
        };
        self.day <= days
    }
}

impl Time {
    pub open spec fn spec_is_valid(&self) -> bool {
        self.hour < 24 && self.minute < 60 && self.second < 60 && self.nanosecond < 1_000_000_000
    }

    /// Returns `true` if the time exists.
    pub fn is_valid(&self) -> (r: bool)
        ensures
            r == self.spec_is_valid(),
    {
        self.hour < 24 && self.minute < 60 && self.second < 60 && self.nanosecond < 1_000_000_000
    }
}

/// `n` as decimal with at least `width` digits (padded with zeros).
pub open spec fn padded(n: nat, width: nat) -> Seq<char> {
    let digits = decimal_chars(n);
    if digits.len() >= width {
        digits
    } else {
        Seq::new((width - digits.len()) as nat, |i: int| '0') + digits
    }
}

/// Appends a number with at least `width` digits.
pub fn push_padded(out: &mut Vec<char>, n: u32, width: usize)
    ensures
        final(out)@ == old(out)@ + padded(n as nat, width as nat),
{
    let digits = decimal(n as u128);
    let ghost start = out@;
    if digits.len() < width {
        let mut i: usize = digits.len();
        while i < width
            invariant
                digits.len() <= i <= width,
                out@ == start + Seq::new((i - digits.len()) as nat, |j: int| '0'),
            decreases width - i,
        {
            out.push('0');
            i = i + 1;
            assert(out@ =~= start + Seq::new((i - digits.len()) as nat, |j: int| '0'));
        }
    }
    push_chars(out, &digits);
    assert(out@ =~= start + padded(n as nat, width as nat));
}

/// The fraction digits of nanoseconds without trailing zeros.
pub open spec fn fraction_text(nanosecond: nat) -> Seq<char>
    decreases nanosecond,
{
    trim_zeros(padded(nanosecond, 9))
}

pub open spec fn trim_zeros(s: Seq<char>) -> Seq<char>
    decreases s.len(),
{
    if s.len() > 0 && s.last() == '0' {
        trim_zeros(s.drop_last())
    } else {
        s
    }
}

/// The text of a date.
pub open spec fn date_text(d: Date) -> Seq<char> {
    padded(d.year as nat, 4) + seq!['-'] + padded(d.month as nat, 2) + seq!['-'] + padded(d.day as nat, 2)
}

/// The text of a time.
pub open spec fn time_text(t: Time) -> Seq<char> {
    padded(t.hour as nat, 2) + seq![':'] + padded(t.minute as nat, 2) + seq![':'] + padded(t.second as nat, 2)
        + if t.nanosecond == 0 { Seq::empty() } else { seq!['.'] + fraction_text(t.nanosecond as nat) }
}

/// The text of an offset.
pub open spec fn offset_text(o: Offset) -> Seq<char> {
    match o {
        Offset::Z => seq!['Z'],
        Offset::Custom { minutes } => {
            let m = if minutes < 0 { -minutes } else { minutes as int };
            seq![if minutes < 0 { '-' } else { '+' }] + padded((m / 60) as nat, 2) + seq![':'] + padded((m % 60) as nat, 2)
        },
    }
}

/// The RFC 3339 text of a date-time.
pub open spec fn datetime_text(d: Datetime) -> Seq<char> {
    (match d.date { Some(date) => date_text(date), None => Seq::empty() })
        + (match d.time {
            Some(time) => (if d.date is Some { seq!['T'] } else { Seq::empty() }) + time_text(time),
            None => Seq::empty(),
        })
        + (match d.offset { Some(o) => offset_text(o), None => Seq::empty() })
}

/// Removes trailing zeros.
fn trim_trailing_zeros(v: &mut Vec<char>)
    ensures
        final(v)@ == trim_zeros(old(v)@),
    decreases old(v)@.len(),
{
    if v.len() > 0 && v[v.len() - 1] == '0' {
        let _ = v.pop();
        trim_trailing_zeros(v);
    }
}

fn push_date(out: &mut Vec<char>, date: Date)
    ensures
        final(out)@ == old(out)@ + date_text(date),
{
    let ghost start = out@;
    push_padded(out, date.year as u32, 4);
    out.push('-');
    push_padded(out, date.month as u32, 2);
    out.push('-');
    push_padded(out, date.day as u32, 2);
    assert(out@ =~= start + date_text(date));
}

fn push_time(out: &mut Vec<char>, time: Time)
    ensures
        final(out)@ == old(out)@ + time_text(time),
{
    let ghost start = out@;
    push_padded(out, time.hour as u32, 2);
    out.push(':');
    push_padded(out, time.minute as u32, 2);
    out.push(':');
    push_padded(out, time.second as u32, 2);
    let ghost middle = out@;
    if time.nanosecond != 0 {
        out.push('.');
        let mut fraction: Vec<char> = Vec::new();
        push_padded(&mut fraction, time.nanosecond, 9);
        trim_trailing_zeros(&mut fraction);
        push_chars(out, &fraction);
    }
    assert(out@ =~= start + time_text(time));
}

fn push_offset(out: &mut Vec<char>, offset: Offset)
    ensures
        final(out)@ == old(out)@ + offset_text(offset),
{
    let ghost start = out@;
    match offset {
        Offset::Z => out.push('Z'),
        Offset::Custom { minutes } => {
            let m: i32 = if minutes < 0 { -(minutes as i32) } else { minutes as i32 };
            out.push(if minutes < 0 { '-' } else { '+' });
            push_padded(out, (m / 60) as u32, 2);
            out.push(':');
            push_padded(out, (m % 60) as u32, 2);
        },
    }
    assert(out@ =~= start + offset_text(offset));
}

impl Datetime {
    /// Returns the RFC 3339 text (dates as `2001-12-14`, times with the
    /// fraction without trailing zeros, UTC as `Z`).
    pub fn text(&self) -> (r: Vec<char>)
        ensures
            r@ == datetime_text(*self),
    {
        let mut out: Vec<char> = Vec::new();
        match self.date {
            Some(date) => push_date(&mut out, date),
            None => {},
        }
        let ghost a = out@;
        match self.time {
            Some(time) => {
                if self.date.is_some() {
                    out.push('T');
                }
                push_time(&mut out, time);
            },
            None => {},
        }
        let ghost b = out@;
        match self.offset {
            Some(offset) => push_offset(&mut out, offset),
            None => {},
        }
        assert(out@ =~= datetime_text(*self));
        out
    }

    /// Returns the RFC 3339 text.
    pub fn to_string(&self) -> (s: String)
        ensures
            s@ == datetime_text(*self),
    {
        crate::text::chars_to_string(&self.text())
    }
}

/// A float.  Floats are kept in a form that is converted to a binary
/// floating point number where the value is used.
#[derive(Debug, Clone, PartialEq, Eq)]
pub enum FloatRepr {
    /// A decimal float literal (`1.5`, `-1e3`, `.5`) without digit
    /// separators.
    Decimal(Vec<char>),
    /// Positive or negative infinity.
    Infinity { negative: bool },
    /// Not a number.
    NaN,
    /// An integer as float.
    Int { negative: bool, magnitude: u128 },
    /// An integer too large for 128 bits, as digits of the radix (without
    /// separators).
    BigInt { negative: bool, radix: u32, digits: Vec<char> },
    /// A base 60 number: the decimal head, the base 60 digits and the
    /// decimal fraction digits (all without separators).
    Sexagesimal { negative: bool, head: Vec<char>, digits: Vec<u8>, fraction: Vec<char> },
}

/// An atomic value.
#[derive(Debug, Clone, PartialEq, Eq)]
pub enum Atom {
    Null,
    Bool(bool),
    U64(u64),
    I64(i64),
    U128(u128),
    I128(i128),
    Float(FloatRepr),
    Char(char),
    Str(Vec<char>),
    Bytes(Vec<u8>),
    Datetime(Datetime),
}

/// The integer value of an integer atom.
pub open spec fn int_value(a: Atom) -> Option<int> {
    match a {
        Atom::U64(v) => Some(v as int),
        Atom::I64(v) => Some(v as int),
        Atom::U128(v) => Some(v as int),
        Atom::I128(v) => Some(v as int),
        _ => None,
    }
}


/// An event of the data model: an atom or the start or end of a mapping or
/// sequence.
#[derive(Debug, Clone, PartialEq, Eq)]
pub enum DataEvent {
    Atom(Atom),
    MapStart,
    SeqStart,
    MapEnd,
    SeqEnd,
}

} // verus!
