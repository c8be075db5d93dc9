//! Wire-protocol codec for a client/server session-multiplexing link.
//!
//! Three layers, leaves first:
//! - [`varint`]: unsigned LEB128 integers, 7 payload bits per byte with a
//!   continuation flag in the high bit;
//! - [`frame`]: an opaque byte payload wrapped in a self-describing header
//!   (total length, correlation serial, type identifier), each header field a
//!   varint;
//! - [`pdu`]: typed application messages bound to stable numeric identifiers,
//!   carried as frame payloads in a schema-driven fixed-order encoding.
//!
//! A frame whose identifier is not registered decodes to the
//! `Pdu::Invalid` sentinel instead of failing, so peers built from different
//! protocol revisions can ignore message types they do not know.

use vstd::prelude::*;

pub mod frame;
pub mod pdu;
pub mod varint;

verus! {

/// How a codec operation can fail.
///
/// The codec itself works on in-memory byte sequences, so stream failures do
/// not arise here; they belong to whatever feeds bytes in and out.
#[derive(Clone, Copy, Debug, PartialEq, Eq, Structural)]
pub enum CodecError {
    /// A malformed varint (no terminating byte, or a value too wide for
    /// `u64`), or a frame whose declared length is inconsistent with its
    /// header fields, or a truncated frame. Framing is lost; connection-fatal.
    Format,
    /// An attempt to send the `Pdu::Invalid` sentinel, or a payload that does
    /// not match the schema of a recognized identifier. Scoped to the single
    /// call; the byte stream itself is still usable.
    Encoding,
}

} // verus!
