//! Which Python exception class each error is raised as, and with which
//! message. Each leaf class derives from `CujsonError` and from the builtin
//! that fits it (`ValueError` for input problems, `RuntimeError` for CUDA
//! ones).

use vstd::prelude::*;
use vstd::string::StringSliceAdditionalSpecFns;

use crate::tape::text::{push_str, string_from_utf8};
use crate::Error;

verus! {

/// The Python exception classes.
#[derive(Debug, Clone, Copy, PartialEq, Eq, Structural)]
pub enum ExceptionClass {
    /// The base class; also raised for internal and I/O failures.
    CujsonError,
    InvalidUtf8Error,
    UnbalancedError,
    /// The input is empty, too large, or not exactly one JSON value.
    InputError,
    CudaError,
    /// A subclass of `CudaError`.
    NoDeviceError,
}

/// The class a parse or query error is raised as.
pub open spec fn class_of(e: &Error) -> ExceptionClass {
    match e {
        Error::NoDevice => ExceptionClass::NoDeviceError,
        Error::InvalidUtf8 => ExceptionClass::InvalidUtf8Error,
        Error::Unbalanced => ExceptionClass::UnbalancedError,
        Error::InputTooLarge { .. } => ExceptionClass::InputError,
        Error::EmptyInput => ExceptionClass::InputError,
        Error::NotSingleValue => ExceptionClass::InputError,
        Error::Cuda { .. } => ExceptionClass::CudaError,
        _ => ExceptionClass::CujsonError,
    }
}

/// The class a parse or query error is raised as; its message is the
/// error's `message()`.
pub fn exception_class(e: &Error) -> (c: ExceptionClass)
    ensures
        c == class_of(e),
{
    match e {
        Error::NoDevice => ExceptionClass::NoDeviceError,
        Error::InvalidUtf8 => ExceptionClass::InvalidUtf8Error,
        Error::Unbalanced => ExceptionClass::UnbalancedError,
        Error::InputTooLarge { .. } => ExceptionClass::InputError,
        Error::EmptyInput => ExceptionClass::InputError,
        Error::NotSingleValue => ExceptionClass::InputError,
        Error::Cuda { .. } => ExceptionClass::CudaError,
        _ => ExceptionClass::CujsonError,
    }
}

/// The class and message a navigation or value-decoding error is raised
/// with: invalid UTF-8 and unbalanced brackets get the same classes and
/// messages as the parser's own errors.
pub open spec fn tape_exception_spec(e: crate::tape::Error) -> (ExceptionClass, Seq<u8>) {
    match e {
        crate::tape::Error::InvalidUtf8 => (
            ExceptionClass::InvalidUtf8Error,
            "input is not valid UTF-8".spec_bytes(),
        ),
        crate::tape::Error::UnbalancedBrackets => (
            ExceptionClass::UnbalancedError,
            "unbalanced JSON structure".spec_bytes(),
        ),
        crate::tape::Error::NotSingleValue => (ExceptionClass::InputError, e.message_bytes()),
        _ => (ExceptionClass::CujsonError, e.message_bytes()),
    }
}

/// The class and message a navigation or value-decoding error is raised
/// with.
pub fn tape_exception(e: &crate::tape::Error) -> (r: (ExceptionClass, String))
    ensures
        r.0 == tape_exception_spec(*e).0,
        vstd::utf8::encode_utf8(r.1@) == tape_exception_spec(*e).1,
{
    broadcast use vstd::utf8::encode_utf8_valid_utf8;

    match e {
        crate::tape::Error::InvalidUtf8 => {
            let mut out: Vec<u8> = Vec::new();
            push_str(&mut out, "input is not valid UTF-8");
            proof {
                assert(out@ =~= "input is not valid UTF-8".spec_bytes());
            }
            (ExceptionClass::InvalidUtf8Error, string_from_utf8(out.as_slice()))
        },
        crate::tape::Error::UnbalancedBrackets => {
            let mut out: Vec<u8> = Vec::new();
            push_str(&mut out, "unbalanced JSON structure");
            proof {
                assert(out@ =~= "unbalanced JSON structure".spec_bytes());
            }
            (ExceptionClass::UnbalancedError, string_from_utf8(out.as_slice()))
        },
        crate::tape::Error::NotSingleValue => (ExceptionClass::InputError, e.message()),
        _ => (ExceptionClass::CujsonError, e.message()),
    }
}

} // verus!
