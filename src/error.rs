//! The ways encoding and decoding can fail.
use crate::tag::Tag;
use vstd::prelude::*;

verus! {

/// A failure of the byte source or sink.
#[derive(Debug, Clone, PartialEq, Eq)]
pub enum IoError {
    /// The input ended inside a value.
    UnexpectedEof,
    /// The underlying reader or writer failed, with its message.
    Reader(String),
}

/// Everything that can go wrong while encoding or decoding.
#[derive(Debug, Clone, PartialEq, Eq)]
pub enum Error {
    Io(IoError),
    Message(String),
    Utf8Error,
    TrailingBytes,
    IntegerOverflow,
    LengthRequired,
    NonStringKey,
    MalformedTag,
    /// The tag on the wire does not have the shape that was asked for.
    InvalidType(Tag),
}

pub type Result<T> = core::result::Result<T, Error>;

/// The text that describes an error.
pub open spec fn error_text(e: Error) -> Seq<char> {
    match e {
        Error::Io(IoError::UnexpectedEof) => "unexpected end of input"@,
        Error::Io(IoError::Reader(m)) => m@,
        Error::Message(m) => m@,
        Error::Utf8Error => "invalid utf-8"@,
        Error::TrailingBytes => "trailing bytes"@,
        Error::IntegerOverflow => "integer overflow"@,
        Error::LengthRequired => "length required"@,
        Error::NonStringKey => "non string key"@,
        Error::MalformedTag => "malformed tag"@,
        Error::InvalidType(_) => "invalid type"@,
    }
}

impl Error {
    /// The text that describes this error.
    pub fn to_string(&self) -> (r: String)
        ensures
            r@ == error_text(*self),
    {
        match self {
            Error::Io(IoError::UnexpectedEof) => "unexpected end of input".to_owned(),
            Error::Io(IoError::Reader(m)) => m.clone(),
            Error::Message(m) => m.clone(),
            Error::Utf8Error => "invalid utf-8".to_owned(),
            Error::TrailingBytes => "trailing bytes".to_owned(),
            Error::IntegerOverflow => "integer overflow".to_owned(),
            Error::LengthRequired => "length required".to_owned(),
            Error::NonStringKey => "non string key".to_owned(),
            Error::MalformedTag => "malformed tag".to_owned(),
            Error::InvalidType(_) => "invalid type".to_owned(),
        }
    }
}

} // verus!
