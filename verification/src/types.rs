//! The error taxonomy of the client.

use vstd::prelude::*;

use crate::resp::Value;

verus! {

/// Every failure the client reports.
///
/// Transport failures (`ConnectionError`, `IoError`, `NoBytesWriten`,
/// `Timeout`) mean the byte stream itself misbehaved. Decode failures
/// (`MalformedInteger`, `MissingDelimiter`, `InvalidUtf8`,
/// `UnexpectedResponseType`) mean the reply bytes do not follow the grammar
/// and are terminal for that response. `ErrorResponse` is a well-formed `-`
/// reply: a successful exchange whose semantic result is a server-side error.
/// `ErrIllegalTypeConversion` is a structurally valid value that does not
/// match the requested result type; it carries the offending value.
#[derive(Debug, PartialEq, Eq)]
pub enum RedisError {
    /// Establishing the transport failed.
    ConnectionError,
    /// A read or write on the transport failed.
    IoError,
    /// A write sent zero bytes, or the peer closed the stream before replying.
    NoBytesWriten,
    /// No bytes arrived within the configured read timeout.
    Timeout,
    /// A line that must hold a decimal integer or length does not.
    MalformedInteger,
    /// A bulk payload was not followed by the CR LF delimiter.
    MissingDelimiter,
    /// Bytes that must be text are not valid UTF-8.
    InvalidUtf8,
    /// The reply's first byte is not a supported type tag.
    UnexpectedResponseType,
    /// A well-formed error reply from the server, carrying its message.
    ErrorResponse(String),
    /// A decoded value that does not match the requested result type.
    ErrIllegalTypeConversion(Value),
}

pub type RedisResult<T> = Result<T, RedisError>;

} // verus!
