//! Navigation over cuJSON tapes: the tape format a GPU JSON parser
//! produces, a `Document`/`Node` navigator over it, a CPU reference tape
//! builder, and the GPU entry points, which report
//! `Error::CudaNotCompiled` in a build without CUDA support.
//!
//! The GPU parser uses `int`-sized token counts, so inputs within 8 bytes of
//! `i32::MAX` (see `MAX_INPUT_LEN`) are rejected with
//! `Error::InputTooLarge` before any parsing.

pub mod bench;
pub mod checks;
pub mod cpu;
mod error;
pub mod exceptions;
mod pinned;
pub mod status;
pub mod tape;

pub use error::Error;
pub use pinned::PinnedBuffer;
pub use tape::Document;

use vstd::prelude::*;

verus! {

/// Largest input length (exclusive) this crate will hand to the GPU parser:
/// `i32::MAX - 8`.
pub const MAX_INPUT_LEN: usize = 2147483639;

/// Options for `parse_lines`.
#[derive(Debug, Clone, Copy)]
pub struct LinesOptions {
    /// Upper bound on each chunk's size in bytes; a single line longer than
    /// this still gets a chunk to itself. `0` means one chunk covering the
    /// whole input.
    pub chunk_bytes: usize,
}

impl Default for LinesOptions {
    /// 256 MiB chunks.
    fn default() -> (o: Self)
        ensures
            o.chunk_bytes == 256 * 1024 * 1024,
    {
        LinesOptions { chunk_bytes: 256 * 1024 * 1024 }
    }
}

/// CUDA runtime/device info, returned by `cuda_info`.
#[derive(Debug, Clone)]
pub struct CudaInfo {
    /// e.g. `12080` for CUDA 12.8.
    pub runtime_version: i32,
    pub devices: Vec<DeviceInfo>,
    /// The build's compiled architecture list, e.g. `"75,80,86,89,90;ptx90"`.
    pub compiled_archs: String,
    /// The driver's supported CUDA version, or `0` if no driver responds.
    pub driver_version: i32,
}

#[derive(Debug, Clone)]
pub struct DeviceInfo {
    pub index: i32,
    pub name: String,
}

/// The size check every parse entry point makes first: an empty input, or
/// one of at least `MAX_INPUT_LEN` bytes, is rejected.
pub open spec fn size_check(len: int) -> Result<(), Error> {
    if len == 0 {
        Err(Error::EmptyInput)
    } else if len >= MAX_INPUT_LEN {
        Err(Error::InputTooLarge { len: len as usize, max: MAX_INPUT_LEN })
    } else {
        Ok(())
    }
}

fn check_size(len: usize) -> (r: Result<(), Error>)
    ensures
        r == size_check(len as int),
{
    if len == 0 {
        return Err(Error::EmptyInput);
    }
    if len >= MAX_INPUT_LEN {
        return Err(Error::InputTooLarge { len, max: MAX_INPUT_LEN });
    }
    Ok(())
}

/// The error a GPU parse entry point reports for an input of `len` bytes
/// in a build without CUDA: the size check's error, else
/// `CudaNotCompiled`.
pub open spec fn gpu_parse_error(len: int) -> Error {
    match size_check(len) {
        Err(e) => e,
        Ok(_) => Error::CudaNotCompiled,
    }
}

/// Parse `input` as standard JSON on the GPU.
pub fn parse(input: &[u8]) -> (res: Result<Document, Error>)
    ensures
        res == Err::<Document, Error>(gpu_parse_error(input.len() as int)),
{
    check_size(input.len())?;
    Err(Error::CudaNotCompiled)
}

/// Parse owned `input` as standard JSON on the GPU, into a `Document` that
/// owns its bytes.
pub fn parse_owned(input: Vec<u8>) -> (res: Result<Document, Error>)
    ensures
        res == Err::<Document, Error>(gpu_parse_error(input.len() as int)),
{
    check_size(input.len())?;
    Err(Error::CudaNotCompiled)
}

/// Parse `input` as JSON Lines (newline-delimited JSON) on the GPU; every
/// top-level value is reachable through `Document::lines`.
pub fn parse_lines(input: &[u8], opts: LinesOptions) -> (res: Result<Document, Error>)
    ensures
        res == Err::<Document, Error>(gpu_parse_error(input.len() as int)),
{
    check_size(input.len())?;
    Err(Error::CudaNotCompiled)
}

/// Parse owned `input` as JSON Lines on the GPU, into a `Document` that
/// owns its bytes.
pub fn parse_lines_owned(input: Vec<u8>, opts: LinesOptions) -> (res: Result<Document, Error>)
    ensures
        res == Err::<Document, Error>(gpu_parse_error(input.len() as int)),
{
    check_size(input.len())?;
    Err(Error::CudaNotCompiled)
}

/// CUDA runtime version, visible devices and compiled architectures; in a
/// build without CUDA, always `Err(Error::CudaNotCompiled)`.
pub fn cuda_info() -> (res: Result<CudaInfo, Error>)
    ensures
        res == Err::<CudaInfo, Error>(Error::CudaNotCompiled),
{
    Err(Error::CudaNotCompiled)
}

/// The driver's supported CUDA version, or `0` when no driver responds;
/// never an error. In a build without CUDA, `0`.
pub fn driver_version() -> (v: i32)
    ensures
        v == 0,
{
    0
}

/// The CUDA runtime version this binary was built against; in a build
/// without CUDA, `Err(Error::CudaNotCompiled)`.
pub fn runtime_version() -> (res: Result<i32, Error>)
    ensures
        res == Err::<i32, Error>(Error::CudaNotCompiled),
{
    Err(Error::CudaNotCompiled)
}

/// Release the pinned host buffer kept between parses; in a build without
/// CUDA there is none, and this does nothing.
pub fn trim_pinned_cache() {
}

/// Free and total device memory in bytes; in a build without CUDA,
/// `Err(Error::CudaNotCompiled)`.
pub fn device_memory() -> (res: Result<(usize, usize), Error>)
    ensures
        res == Err::<(usize, usize), Error>(Error::CudaNotCompiled),
{
    Err(Error::CudaNotCompiled)
}

} // verus!
