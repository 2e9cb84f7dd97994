//! Errors produced while building or navigating a tape.

use vstd::prelude::*;
use vstd::string::StringSliceAdditionalSpecFns;

use super::text::{push_str, string_from_utf8};

verus! {

/// Errors produced while building or navigating a tape.
#[derive(Debug, Clone, PartialEq, Eq)]
pub enum Error {
    EmptyInput,
    InvalidUtf8,
    UnbalancedBrackets,
    UnterminatedString,
    InvalidEscape,
    InvalidNumber,
    IndexOutOfRange,
    KeyNotFound,
    TypeMismatch(&'static str),
    InvalidPointer,
    /// Standard mode accepts exactly one top-level value.
    NotSingleValue,
}

impl Error {
    /// The UTF-8 text of the error's message.
    pub open spec fn message_bytes(&self) -> Seq<u8> {
        match self {
            Error::EmptyInput => "empty input".spec_bytes(),
            Error::InvalidUtf8 => "invalid UTF-8".spec_bytes(),
            Error::UnbalancedBrackets => "unbalanced brackets".spec_bytes(),
            Error::UnterminatedString => "unterminated string".spec_bytes(),
            Error::InvalidEscape => "invalid escape sequence".spec_bytes(),
            Error::InvalidNumber => "invalid number".spec_bytes(),
            Error::IndexOutOfRange => "array index out of range".spec_bytes(),
            Error::KeyNotFound => "object key not found".spec_bytes(),
            Error::TypeMismatch(expected) => "expected ".spec_bytes() + expected.spec_bytes(),
            Error::InvalidPointer => "invalid JSON pointer".spec_bytes(),
            Error::NotSingleValue => "input is not exactly one JSON value".spec_bytes(),
        }
    }

    /// A human-readable message.
    pub fn message(&self) -> (s: String)
        ensures
            vstd::utf8::encode_utf8(s@) == self.message_bytes(),
    {
        broadcast use vstd::utf8::encode_utf8_valid_utf8, vstd::utf8::valid_utf8_concat;

        let mut out: Vec<u8> = Vec::new();
        match self {
            Error::EmptyInput => push_str(&mut out, "empty input"),
            Error::InvalidUtf8 => push_str(&mut out, "invalid UTF-8"),
            Error::UnbalancedBrackets => push_str(&mut out, "unbalanced brackets"),
            Error::UnterminatedString => push_str(&mut out, "unterminated string"),
            Error::InvalidEscape => push_str(&mut out, "invalid escape sequence"),
            Error::InvalidNumber => push_str(&mut out, "invalid number"),
            Error::IndexOutOfRange => push_str(&mut out, "array index out of range"),
            Error::KeyNotFound => push_str(&mut out, "object key not found"),
            Error::TypeMismatch(expected) => {
                push_str(&mut out, "expected ");
                push_str(&mut out, expected);
            },
            Error::InvalidPointer => push_str(&mut out, "invalid JSON pointer"),
            Error::NotSingleValue => push_str(&mut out, "input is not exactly one JSON value"),
        }
        proof {
            assert(Seq::<u8>::empty() + self.message_bytes() =~= self.message_bytes());
        }
        string_from_utf8(out.as_slice())
    }
}

} // verus!
