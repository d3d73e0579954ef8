//! Client-side codec for a RESP-style request/reply wire protocol.
//!
//! The crate serializes typed commands into wire bytes, decodes reply bytes
//! that may arrive in arbitrary fragments into a tagged [`resp::Value`], and
//! coerces a decoded value into the concrete result type a caller expects.
//! Every function is verified: encoding and decoding are specified against a
//! mathematical grammar of the wire format, and the conversion layer states
//! exactly which values convert and which fail, and how.

pub mod cmd;
pub mod frame;
pub mod num;
pub mod resp;
pub mod types;
