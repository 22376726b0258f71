//! Error equality and error reporting tests.

use std::io;

use redux::model::{AdaptiveLinearModel, AdaptiveTreeModel, Parameters};
use redux::Error;
use redux::Error::{Eof, InvalidInput, IoError};

#[test]
fn error_eq() {
    assert_eq!(Eof, Eof);
    assert_eq!(InvalidInput, InvalidInput);
    assert_eq!(
        IoError(io::Error::new(io::ErrorKind::Other, "Other")),
        IoError(io::Error::new(io::ErrorKind::NotFound, "NotFound"))
    );
    assert_ne!(Eof, InvalidInput);
    assert_ne!(InvalidInput, IoError(io::Error::new(io::ErrorKind::Other, "Other")));
    assert_ne!(IoError(io::Error::new(io::ErrorKind::NotFound, "NotFound")), Eof);
}

#[test]
fn parameters_rejects_bad_widths() {
    assert!(matches!(Parameters::new(0, 14, 16), Err(Error::InvalidInput)));
    assert!(matches!(Parameters::new(8, 9, 16), Err(Error::InvalidInput)));
    assert!(matches!(Parameters::new(8, 14, 15), Err(Error::InvalidInput)));
    assert!(matches!(Parameters::new(8, 30, 35), Err(Error::InvalidInput)));
    assert!(Parameters::new(8, 14, 16).is_ok());
    assert!(Parameters::new(8, 30, 32).is_ok());
    assert!(Parameters::new(4, 10, 16).is_ok());
}

#[test]
fn compress_rejects_non_byte_parameters() {
    let p = Parameters::new(4, 10, 16).unwrap();
    let input = vec![1u8, 2u8, 3u8];
    let mut output: Vec<u8> = Vec::new();
    let r = redux::compress(&input, &mut output, AdaptiveTreeModel::new(p));
    assert!(matches!(r, Err(Error::InvalidInput)));
    assert_eq!(0, output.len());
}

#[test]
fn decompress_rejects_non_byte_parameters() {
    let p = Parameters::new(4, 10, 16).unwrap();
    let input = vec![1u8, 2u8, 3u8];
    let mut output: Vec<u8> = Vec::new();
    let r = redux::decompress(&input, &mut output, AdaptiveLinearModel::new(p));
    assert!(matches!(r, Err(Error::InvalidInput)));
    assert_eq!(0, output.len());
}

#[test]
fn decompress_truncated_stream_is_eof() {
    let p = Parameters::new(8, 14, 16).unwrap();
    let input: Vec<u8> = Vec::new();
    let mut output: Vec<u8> = Vec::new();
    let r = redux::decompress(&input, &mut output, AdaptiveTreeModel::new(p));
    assert!(matches!(r, Err(Error::Eof)));
    assert_eq!(0, output.len());
}
