//! The status codes the native GPU parser returns, and the error each one
//! is reported as.

use vstd::prelude::*;

use crate::error::Error;
use crate::MAX_INPUT_LEN;

verus! {

pub const CUJSON_OK: i32 = 0;
pub const CUJSON_ERR_UTF8: i32 = 1;
pub const CUJSON_ERR_UNBALANCED: i32 = 2;
pub const CUJSON_ERR_INPUT_TOO_LARGE: i32 = 3;
pub const CUJSON_ERR_CUDA: i32 = 4;
pub const CUJSON_ERR_INTERNAL: i32 = 5;
pub const CUJSON_ERR_EMPTY_INPUT: i32 = 6;

/// The error reported for the failed parse status `status`, where
/// `cuda_error` is the raw CUDA error the parser recorded and
/// `cuda_message` that error's name and description. A status this crate
/// does not know is an internal failure.
pub open spec fn status_error(status: i32, cuda_error: i32, cuda_message: String) -> Error {
    if status == CUJSON_ERR_UTF8 {
        Error::InvalidUtf8
    } else if status == CUJSON_ERR_UNBALANCED {
        Error::Unbalanced
    } else if status == CUJSON_ERR_EMPTY_INPUT {
        Error::EmptyInput
    } else if status == CUJSON_ERR_INPUT_TOO_LARGE {
        // The size check runs before every parse, so the length is not
        // known here.
        Error::InputTooLarge { len: 0, max: MAX_INPUT_LEN }
    } else if status == CUJSON_ERR_CUDA {
        Error::Cuda { code: cuda_error, message: cuda_message }
    } else {
        Error::Internal
    }
}

/// The error reported for the failed parse status `status`.
pub fn map_error(status: i32, cuda_error: i32, cuda_message: String) -> (e: Error)
    ensures
        e == status_error(status, cuda_error, cuda_message),
{
    if status == CUJSON_ERR_UTF8 {
        Error::InvalidUtf8
    } else if status == CUJSON_ERR_UNBALANCED {
        Error::Unbalanced
    } else if status == CUJSON_ERR_EMPTY_INPUT {
        Error::EmptyInput
    } else if status == CUJSON_ERR_INPUT_TOO_LARGE {
        Error::InputTooLarge { len: 0, max: MAX_INPUT_LEN }
    } else if status == CUJSON_ERR_CUDA {
        Error::Cuda { code: cuda_error, message: cuda_message }
    } else {
        Error::Internal
    }
}

} // verus!
