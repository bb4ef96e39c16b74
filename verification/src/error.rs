//! Errors.
use vstd::prelude::*;

use crate::text::{chars_to_string, decimal, decimal_chars, push_chars, str_chars};

verus! {

/// The kind of an error.
#[derive(Debug, Clone, Copy, PartialEq, Eq, Structural)]
pub enum ErrorKind {
    /// The input does not match what was expected.
    Unexpected,
    /// The input ended.
    EndOfFile,
    /// A value cannot be represented.
    UnsupportedType,
    /// A number is out of range.
    OutOfRange,
}

/// The name of an error kind.
pub open spec fn kind_name(kind: ErrorKind) -> Seq<char> {
    match kind {
        ErrorKind::Unexpected => "Unexpected"@,
        ErrorKind::EndOfFile => "EndOfFile"@,
        ErrorKind::UnsupportedType => "UnsupportedType"@,
        ErrorKind::OutOfRange => "OutOfRange"@,
    }
}

/// An error with an optional position in the input.
#[derive(Debug, Clone, PartialEq, Eq)]
pub struct Error {
    pub kind: ErrorKind,
    pub message: String,
    /// Byte offset, one based line and one based column.
    pub position: Option<(usize, usize, usize)>,
    /// A byte offset, for errors located without line and column.
    pub offset: Option<usize>,
}

impl Error {
    /// Creates an error without position.
    pub fn new(kind: ErrorKind, message: &str) -> (e: Error)
        ensures
            e.kind == kind,
            e.message@ == message@,
            e.position is None,
            e.offset is None,
    {
        Error { kind, message: String::from_str(message), position: None, offset: None }
    }

    /// Creates an error from a computed message.
    pub fn from_message(kind: ErrorKind, message: String) -> (e: Error)
        ensures
            e.kind == kind,
            e.message@ == message@,
            e.position is None,
            e.offset is None,
    {
        Error { kind, message, position: None, offset: None }
    }

    /// Locates the error at a byte offset.
    pub fn with_offset(self, offset: usize) -> (e: Error)
        ensures
            e.kind == self.kind,
            e.message@ == self.message@,
            e.position == self.position,
            e.offset == Some(offset),
    {
        Error { offset: Some(offset), ..self }
    }

    /// The text of the error: kind, message and position (line and
    /// column, else the offset, if known).
    pub open spec fn text(&self) -> Seq<char> {
        kind_name(self.kind) + ": "@ + self.message@ + match self.position {
            Some((_, line, column)) => " at line "@ + decimal_chars(line as nat) + " column "@
                + decimal_chars(column as nat),
            None => match self.offset {
                Some(offset) => " at offset "@ + decimal_chars(offset as nat),
                None => Seq::<char>::empty(),
            },
        }
    }

    /// Returns the one based line of the position, if the error has one.
    pub fn line(&self) -> (r: Option<usize>)
        ensures
            r == match self.position {
                Some((_, line, _)) => Some(line),
                None => None::<usize>,
            },
    {
        match self.position {
            Some((_, line, _)) => Some(line),
            None => None,
        }
    }

    /// Returns the one based column of the position, if the error has one.
    pub fn column(&self) -> (r: Option<usize>)
        ensures
            r == match self.position {
                Some((_, _, column)) => Some(column),
                None => None::<usize>,
            },
    {
        match self.position {
            Some((_, _, column)) => Some(column),
            None => None,
        }
    }

    /// Returns the message of the error.
    pub fn message(&self) -> (m: &str)
        ensures
            m@ == self.message@,
    {
        self.message.as_str()
    }

    /// Returns the text of the error (kind, message and position).
    pub fn to_string(&self) -> (s: String)
        ensures
            s@ == self.text(),
    {
        let mut out: Vec<char> = Vec::new();
        let name = match self.kind {
            ErrorKind::Unexpected => str_chars("Unexpected"),
            ErrorKind::EndOfFile => str_chars("EndOfFile"),
            ErrorKind::UnsupportedType => str_chars("UnsupportedType"),
            ErrorKind::OutOfRange => str_chars("OutOfRange"),
        };
        proof {
            reveal_strlit("Unexpected");
            reveal_strlit("EndOfFile");
            reveal_strlit("UnsupportedType");
            reveal_strlit("OutOfRange");
        }
        push_chars(&mut out, &name);
        push_chars(&mut out, &str_chars(": "));
        push_chars(&mut out, &str_chars(self.message.as_str()));
        let ghost head = out@;
        match self.position {
            Some((_, line, column)) => {
                push_chars(&mut out, &str_chars(" at line "));
                push_chars(&mut out, &decimal(line as u128));
                push_chars(&mut out, &str_chars(" column "));
                push_chars(&mut out, &decimal(column as u128));
            },
            None => match self.offset {
                Some(offset) => {
                    push_chars(&mut out, &str_chars(" at offset "));
                    push_chars(&mut out, &decimal(offset as u128));
                },
                None => {},
            },
        }
        assert(out@ =~= self.text());
        chars_to_string(&out)
    }
}

} // verus!
