//! The GPU entry points in a build without CUDA support.

use cujson::status::{
    map_error, CUJSON_ERR_CUDA, CUJSON_ERR_EMPTY_INPUT, CUJSON_ERR_INPUT_TOO_LARGE,
    CUJSON_ERR_INTERNAL, CUJSON_ERR_UNBALANCED, CUJSON_ERR_UTF8,
};
use cujson::{Error, LinesOptions, PinnedBuffer, MAX_INPUT_LEN};

#[test]
fn parse_without_cuda_feature_errors() {
    let err = cujson::parse(b"{}").unwrap_err();
    assert!(matches!(err, Error::CudaNotCompiled));
}

#[test]
fn cuda_info_without_cuda_feature_errors() {
    let err = cujson::cuda_info().unwrap_err();
    assert!(matches!(err, Error::CudaNotCompiled));
}

#[test]
fn empty_input_is_rejected_before_cuda_check() {
    let err = cujson::parse(b"").unwrap_err();
    assert!(matches!(err, Error::EmptyInput));
}

#[test]
fn parse_lines_owned_without_cuda_feature_errors() {
    let err = cujson::parse_lines_owned(b"{}".to_vec(), LinesOptions::default()).unwrap_err();
    assert!(matches!(err, Error::CudaNotCompiled));
}

#[test]
fn cuda_info_errors_without_a_driver() {
    let result = cujson::cuda_info();
    assert!(
        result.is_err(),
        "expected an Err (no driver/device here), got {result:?}"
    );
}

#[test]
fn parse_errors_without_a_driver() {
    let result = cujson::parse(b"{}");
    assert!(
        result.is_err(),
        "expected an Err (no driver/device here), got {}",
        result.is_ok()
    );
}

#[test]
fn every_entry_point_checks_size_first() {
    assert!(matches!(cujson::parse_owned(Vec::new()), Err(Error::EmptyInput)));
    assert!(matches!(
        cujson::parse_lines(b"", LinesOptions { chunk_bytes: 0 }),
        Err(Error::EmptyInput)
    ));
    assert!(matches!(
        cujson::parse_lines(b"[1]\n", LinesOptions::default()),
        Err(Error::CudaNotCompiled)
    ));
    assert!(matches!(cujson::parse_owned(b"1".to_vec()), Err(Error::CudaNotCompiled)));
}

#[test]
fn lines_options_default_is_256_mib() {
    assert_eq!(LinesOptions::default().chunk_bytes, 268_435_456);
}

#[test]
fn max_input_len_is_eight_below_i32_max() {
    assert_eq!(MAX_INPUT_LEN, i32::MAX as usize - 8);
}

#[test]
fn other_cuda_queries_without_cuda_support() {
    assert_eq!(cujson::driver_version(), 0);
    assert!(matches!(cujson::runtime_version(), Err(Error::CudaNotCompiled)));
    assert!(matches!(cujson::device_memory(), Err(Error::CudaNotCompiled)));
}

#[test]
fn io_errors_convert() {
    let e: Error = std::io::Error::new(std::io::ErrorKind::NotFound, "gone").into();
    assert!(matches!(e, Error::Io(_)));
}

#[test]
fn pinned_buffer_holds_its_bytes() {
    let b = PinnedBuffer::new(4).unwrap();
    assert_eq!(&b[..], &[0, 0, 0, 0][..]);
    assert_eq!(b.len(), 4);
    let mut c = PinnedBuffer::from_slice(b"abc").unwrap();
    assert_eq!(c.as_slice(), b"abc");
    c.as_mut_slice()[1] = b'X';
    assert_eq!(&c[..], b"aXc");
    assert!(PinnedBuffer::new(0).unwrap().is_empty());
}

#[test]
fn parser_statuses_map_to_errors() {
    assert!(matches!(map_error(CUJSON_ERR_UTF8, 0, String::new()), Error::InvalidUtf8));
    assert!(matches!(map_error(CUJSON_ERR_UNBALANCED, 0, String::new()), Error::Unbalanced));
    assert!(matches!(map_error(CUJSON_ERR_EMPTY_INPUT, 0, String::new()), Error::EmptyInput));
    assert!(matches!(
        map_error(CUJSON_ERR_INPUT_TOO_LARGE, 0, String::new()),
        Error::InputTooLarge { len: 0, max: MAX_INPUT_LEN }
    ));
    match map_error(CUJSON_ERR_CUDA, 35, "cudaErrorInsufficientDriver".to_string()) {
        Error::Cuda { code, message } => {
            assert_eq!(code, 35);
            assert_eq!(message, "cudaErrorInsufficientDriver");
        }
        other => panic!("{other:?}"),
    }
    assert!(matches!(map_error(CUJSON_ERR_INTERNAL, 0, String::new()), Error::Internal));
    assert!(matches!(map_error(99, 0, String::new()), Error::Internal));
}
