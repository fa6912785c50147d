//! Errors of the byte stream and of the document reader.
use vstd::prelude::*;
use crate::span::ErrorPos;

verus! {

/// Why reading from the byte stream failed.
#[derive(Debug, Clone)]
pub enum StreamError {
    UnexpectedEndOfStream,
    UnexpectedData(ErrorPos),
    InvalidValue,
    /// The bytes found and the bytes expected, in that order.
    InvalidString(Vec<Vec<u8>>, ErrorPos),
    InvalidCharacterRef(ErrorPos),
    InvalidNumber(ErrorPos),
    InvalidXMLName(ErrorPos),
    InvalidQuote(ErrorPos),
}

impl Default for StreamError {
    fn default() -> (r: StreamError)
        ensures
            r is InvalidValue,
    {
        StreamError::InvalidValue
    }
}

pub type StreamResult<T> = Result<T, StreamError>;

/// Which part of the document was being read when an error came.
#[derive(Debug, Clone, Copy, PartialEq, Eq, Structural)]
pub enum SvgErrorType {
    InvalidElement,
    InvalidProcessor,
    InvalidAttribute,
    UnknownToken,
    UnknownNamespace,
    DuplicateAttribute,
    InvalidCloseElement,
    CssInvalidString,
}

/// An error of the document reader: what was read, why it failed, and where.
#[derive(Debug, Clone)]
pub struct SvgError(pub SvgErrorType, pub StreamError, pub ErrorPos);

pub type SvgResult<T> = Result<T, SvgError>;

} // verus!
