//! Error and diff messages, and the Python exception classes.

use cujson::exceptions::{exception_class, tape_exception, ExceptionClass};
use cujson::tape::{build_tape_cpu, diff_tapes, DiffField, Mode, TapeDiff};
use cujson::tape::Error as E;
use cujson::{Error, MAX_INPUT_LEN};

#[test]
fn tape_error_messages() {
    assert_eq!(E::EmptyInput.message(), "empty input");
    assert_eq!(E::InvalidUtf8.message(), "invalid UTF-8");
    assert_eq!(E::UnbalancedBrackets.message(), "unbalanced brackets");
    assert_eq!(E::UnterminatedString.message(), "unterminated string");
    assert_eq!(E::InvalidEscape.message(), "invalid escape sequence");
    assert_eq!(E::InvalidNumber.message(), "invalid number");
    assert_eq!(E::IndexOutOfRange.message(), "array index out of range");
    assert_eq!(E::KeyNotFound.message(), "object key not found");
    assert_eq!(E::TypeMismatch("bool").message(), "expected bool");
    assert_eq!(E::InvalidPointer.message(), "invalid JSON pointer");
    assert_eq!(E::NotSingleValue.message(), "input is not exactly one JSON value");
}

#[test]
fn error_messages() {
    assert_eq!(
        Error::CudaNotCompiled.message(),
        "cujson was built without the `cuda` feature"
    );
    assert_eq!(
        Error::NoDevice.message(),
        "no CUDA device visible (driver responded, device count is 0)"
    );
    assert_eq!(
        Error::InputTooLarge { len: 3_000_000_000, max: MAX_INPUT_LEN }.message(),
        "input is 3000000000 bytes, cuJSON's limit is 2147483639 bytes"
    );
    assert_eq!(
        Error::Cuda { code: 35, message: "driver too old".to_string() }.message(),
        "CUDA error 35: driver too old"
    );
    assert_eq!(
        Error::Cuda { code: -1, message: String::new() }.message(),
        "CUDA error -1: "
    );
    assert_eq!(Error::EmptyInput.message(), "empty input");
    assert_eq!(Error::Internal.message(), "internal error");
    let io = Error::Io(std::io::Error::new(std::io::ErrorKind::Other, "disk on fire"));
    assert_eq!(io.message(), "I/O error: disk on fire");
}

#[test]
fn diff_messages() {
    let input = b"{\"a\":1}";
    let a = build_tape_cpu(input, Mode::Standard).unwrap();
    let mut b = a.clone();
    let mut s = b.structural.to_vec();
    s[1] += 1;
    b.structural = s.into();
    let d = diff_tapes(input, &a, &b).unwrap();
    assert_eq!(
        d.message(),
        "tape mismatch at index 1 (Structural): a=1 b=2 \u{2014} near input: \"{\\\"a\\\":1}\""
    );
    let plain = TapeDiff {
        index: 0,
        field: DiffField::Length,
        a: 5,
        b: -4,
        context: String::new(),
    };
    assert_eq!(plain.message(), "tape mismatch at index 0 (Length): a=5 b=-4");
}

#[test]
fn exception_classes() {
    assert_eq!(exception_class(&Error::NoDevice), ExceptionClass::NoDeviceError);
    assert_eq!(exception_class(&Error::InvalidUtf8), ExceptionClass::InvalidUtf8Error);
    assert_eq!(exception_class(&Error::Unbalanced), ExceptionClass::UnbalancedError);
    assert_eq!(exception_class(&Error::EmptyInput), ExceptionClass::InputError);
    assert_eq!(exception_class(&Error::NotSingleValue), ExceptionClass::InputError);
    assert_eq!(
        exception_class(&Error::InputTooLarge { len: 1, max: 1 }),
        ExceptionClass::InputError
    );
    assert_eq!(
        exception_class(&Error::Cuda { code: 1, message: String::new() }),
        ExceptionClass::CudaError
    );
    assert_eq!(exception_class(&Error::Internal), ExceptionClass::CujsonError);
    assert_eq!(exception_class(&Error::CudaNotCompiled), ExceptionClass::CujsonError);
    assert_eq!(
        tape_exception(&E::InvalidUtf8),
        (ExceptionClass::InvalidUtf8Error, "input is not valid UTF-8".to_string())
    );
    assert_eq!(
        tape_exception(&E::UnbalancedBrackets),
        (ExceptionClass::UnbalancedError, "unbalanced JSON structure".to_string())
    );
    assert_eq!(
        tape_exception(&E::NotSingleValue),
        (ExceptionClass::InputError, "input is not exactly one JSON value".to_string())
    );
    assert_eq!(
        tape_exception(&E::InvalidEscape),
        (ExceptionClass::CujsonError, "invalid escape sequence".to_string())
    );
}
