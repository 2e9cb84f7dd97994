//! Top-level errors for `parse`/`parse_lines`/`cuda_info` and friends.
//!
//! Distinct from `tape::Error`, the tape-building and navigation errors.

use vstd::prelude::*;
use vstd::string::StringSliceAdditionalSpecFns;
use vstd::utf8::valid_utf8;

use crate::tape::text::{decimal, push_decimal, push_signed_decimal, push_str, signed_decimal, string_from_utf8};

verus! {

#[verifier::external_type_specification]
#[verifier::external_body]
pub struct ExIoError(std::io::Error);

/// Errors from the GPU-parsing entry points and `cuda_info`.
#[non_exhaustive]
#[derive(Debug)]
pub enum Error {
    /// Built without CUDA support: there is no GPU parser to call.
    CudaNotCompiled,
    /// The CUDA driver responded but reports no visible device.
    NoDevice,
    /// The parser reported invalid UTF-8.
    InvalidUtf8,
    /// The parser reported unbalanced brackets.
    Unbalanced,
    /// Rejected before reaching the parser: `len` is not below `max`.
    InputTooLarge { len: usize, max: usize },
    /// The input was empty.
    EmptyInput,
    /// A CUDA runtime call failed with the raw error `code`.
    Cuda { code: i32, message: String },
    /// The parser reported an internal failure, or a status this crate does
    /// not know.
    Internal,
    /// Standard mode accepts exactly one top-level value.
    NotSingleValue,
    Io(std::io::Error),
}

impl From<std::io::Error> for Error {
    fn from(e: std::io::Error) -> (r: Self) {
        Error::Io(e)
    }
}

impl vstd::std_specs::convert::FromSpecImpl<std::io::Error> for Error {
    open spec fn obeys_from_spec() -> bool {
        true
    }

    open spec fn from_spec(v: std::io::Error) -> Error {
        Error::Io(v)
    }
}


/// `std::io::Error`'s `Display` text. It comes from the operating system
/// for most errors, so nothing is stated of it.
#[verifier::external_body]
fn io_error_text(e: &std::io::Error) -> String {
    e.to_string()
}

impl Error {
    /// The UTF-8 text of the error's message; for `Io`, its fixed prefix.
    pub open spec fn message_bytes(&self) -> Seq<u8> {
        match self {
            Error::CudaNotCompiled => "cujson was built without the `cuda` feature".spec_bytes(),
            Error::NoDevice => "no CUDA device visible (driver responded, device count is 0)".spec_bytes(),
            Error::InvalidUtf8 => "input is not valid UTF-8".spec_bytes(),
            Error::Unbalanced => "unbalanced JSON structure".spec_bytes(),
            Error::InputTooLarge { len, max } => "input is ".spec_bytes() + decimal(len as nat)
                + " bytes, cuJSON's limit is ".spec_bytes() + decimal(max as nat)
                + " bytes".spec_bytes(),
            Error::EmptyInput => "empty input".spec_bytes(),
            Error::Cuda { code, message } => "CUDA error ".spec_bytes() + signed_decimal(
                code as int,
            ) + ": ".spec_bytes() + vstd::utf8::encode_utf8(message@),
            Error::Internal => "internal error".spec_bytes(),
            Error::NotSingleValue => "input is not exactly one JSON value".spec_bytes(),
            Error::Io(_) => "I/O error: ".spec_bytes(),
        }
    }

    /// A human-readable message. For `Io`, the prefix `I/O error: ` and the
    /// I/O error's own text.
    pub fn message(&self) -> (s: String)
        ensures
            !(self is Io) ==> vstd::utf8::encode_utf8(s@) == self.message_bytes(),
            self is Io ==> vstd::utf8::encode_utf8(s@).take(self.message_bytes().len() as int)
                == self.message_bytes(),
    {
        broadcast use vstd::utf8::encode_utf8_valid_utf8, vstd::utf8::valid_utf8_concat;

        let mut out: Vec<u8> = Vec::new();
        match self {
            Error::CudaNotCompiled => push_str(&mut out, "cujson was built without the `cuda` feature"),
            Error::NoDevice => push_str(
                &mut out,
                "no CUDA device visible (driver responded, device count is 0)",
            ),
            Error::InvalidUtf8 => push_str(&mut out, "input is not valid UTF-8"),
            Error::Unbalanced => push_str(&mut out, "unbalanced JSON structure"),
            Error::InputTooLarge { len, max } => {
                push_str(&mut out, "input is ");
                push_decimal(&mut out, *len as u64);
                push_str(&mut out, " bytes, cuJSON's limit is ");
                push_decimal(&mut out, *max as u64);
                push_str(&mut out, " bytes");
                proof {
                    let d1 = decimal(*len as nat);
                    let d2 = decimal(*max as nat);
                    crate::tape::text::lemma_decimal_valid(*len as nat);
                    crate::tape::text::lemma_decimal_valid(*max as nat);
                    let a = "input is ".spec_bytes();
                    let b = " bytes, cuJSON's limit is ".spec_bytes();
                    let c = " bytes".spec_bytes();
                    assert(valid_utf8(a + d1));
                    assert(valid_utf8(a + d1 + b));
                    assert(valid_utf8(a + d1 + b + d2));
                    assert(valid_utf8(a + d1 + b + d2 + c));
                    assert(out@ =~= a + d1 + b + d2 + c);
                }
            },
            Error::EmptyInput => push_str(&mut out, "empty input"),
            Error::Cuda { code, message } => {
                push_str(&mut out, "CUDA error ");
                let ghost before = out@;
                push_signed_decimal(&mut out, *code as i64);
                push_str(&mut out, ": ");
                push_str(&mut out, message.as_str());
                proof {
                    crate::tape::text::lemma_signed_decimal_valid(*code as int);
                    let a = "CUDA error ".spec_bytes();
                    let d = signed_decimal(*code as int);
                    let b = ": ".spec_bytes();
                    let m = vstd::utf8::encode_utf8(message@);
                    assert(valid_utf8(a + d));
                    assert(valid_utf8(a + d + b));
                    assert(valid_utf8(a + d + b + m));
                    assert(out@ =~= a + d + b + m);
                }
            },
            Error::Internal => push_str(&mut out, "internal error"),
            Error::NotSingleValue => push_str(&mut out, "input is not exactly one JSON value"),
            Error::Io(e) => {
                push_str(&mut out, "I/O error: ");
                let t = io_error_text(e);
                push_str(&mut out, t.as_str());
                proof {
                    let a = "I/O error: ".spec_bytes();
                    let m = vstd::utf8::encode_utf8(t@);
                    assert(valid_utf8(a + m));
                    assert(out@ =~= a + m);
                }
            },
        }
        proof {
            assert(Seq::<u8>::empty() + self.message_bytes() =~= self.message_bytes());
            if self is Io {
                assert(out@.take(self.message_bytes().len() as int) =~= self.message_bytes());
            }
        }
        string_from_utf8(out.as_slice())
    }
}

} // verus!
