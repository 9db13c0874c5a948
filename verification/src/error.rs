//! The ways in which encoding and decoding fail.

use vstd::prelude::*;

verus! {

/// The error type of `std::io`, carried through and never looked into.
#[verifier::external_type_specification]
#[verifier::external_body]
pub struct ExIoError(std::io::Error);

/// What a `DecodeError` says, without the operating system's detail.
pub enum DecodeFailure {
    /// The channel byte of the header is neither 3 nor 4.
    InvalidChannels(u8),
    /// The colorspace byte of the header is neither 0 nor 1.
    InvalidColorspace,
    /// The stream does not begin with the magic bytes.
    InvalidSignature,
    /// The destination holds fewer bytes than the image needs.
    BufferSize { expected: usize, actual: usize },
    /// A run would produce more pixels than the header declares.
    OutOfBounds,
    /// The source ended, or failed, before the data was complete.
    Io,
}

/// Why a stream could not be decoded.
#[derive(Debug)]
pub enum DecodeError {
    /// The channel byte of the header is neither 3 nor 4.
    InvalidChannels(u8),
    /// The colorspace byte of the header is neither 0 nor 1.
    InvalidColorspace,
    /// The stream does not begin with the magic bytes.
    InvalidSignature,
    /// The destination holds fewer bytes than the image needs.
    BufferSize { expected: usize, actual: usize },
    /// A run would produce more pixels than the header declares.
    OutOfBounds,
    /// The source ended, or failed, before the data was complete.
    IoError(std::io::Error),
}

impl View for DecodeError {
    type V = DecodeFailure;

    open spec fn view(&self) -> DecodeFailure {
        match *self {
            DecodeError::InvalidChannels(c) => DecodeFailure::InvalidChannels(c),
            DecodeError::InvalidColorspace => DecodeFailure::InvalidColorspace,
            DecodeError::InvalidSignature => DecodeFailure::InvalidSignature,
            DecodeError::BufferSize { expected, actual } => DecodeFailure::BufferSize {
                expected,
                actual,
            },
            DecodeError::OutOfBounds => DecodeFailure::OutOfBounds,
            DecodeError::IoError(_) => DecodeFailure::Io,
        }
    }
}

/// Why an image could not be encoded.
#[derive(Debug)]
pub enum EncodeError {
    /// The header declares a width of zero.
    ZeroWidth,
    /// The header declares a height of zero.
    ZeroHeight,
    /// The sink refused the bytes.
    IoError(std::io::Error),
}

/// `std::io::Error::from` applied to `std::io::ErrorKind::UnexpectedEof`: the
/// error that a reader reports when its source ends early. Nothing is claimed
/// of the value.
#[verifier::external_body]
pub(crate) fn unexpected_eof() -> std::io::Error {
    std::io::Error::from(std::io::ErrorKind::UnexpectedEof)
}

/// The error for a source that ends before the data is complete.
pub(crate) fn truncated() -> (e: DecodeError)
    ensures
        e@ == DecodeFailure::Io,
{
    DecodeError::IoError(unexpected_eof())
}

} // verus!
