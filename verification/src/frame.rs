//! Length-prefixed framing of an opaque byte payload.
//!
//! On the wire a frame is `length`, `serial`, `ident` (each a varint), then
//! the raw payload bytes. `length` is not stored anywhere: it is always the
//! encoded byte count of `serial`, `ident` and the payload together, recomputed
//! on every encode and validated on every decode.

use crate::varint::{
    decode_unsigned, encoded_length, lemma_varint_bytes_len, lemma_varint_len_le_10,
    lemma_varint_parse_encoded, varint_bytes, varint_len, varint_parse, write_varint,
};
use crate::CodecError;
use vstd::prelude::*;

verus! {

/// One decoded wire unit: the correlation serial, the type identifier, and
/// the payload bytes, in the order the header carries them after `length`.
#[derive(Debug, PartialEq, Eq)]
pub struct Frame {
    pub serial: u64,
    pub ident: u64,
    pub payload: Vec<u8>,
}

/// Mathematical model of a [`Frame`].
pub struct FrameModel {
    pub serial: u64,
    pub ident: u64,
    pub payload: Seq<u8>,
}

impl View for Frame {
    type V = FrameModel;

    open spec fn view(&self) -> FrameModel {
        FrameModel { serial: self.serial, ident: self.ident, payload: self.payload@ }
    }
}

/// Combined size of the `serial` and `ident` varints.
pub open spec fn header_len(serial: u64, ident: u64) -> nat {
    varint_len(serial as nat) + varint_len(ident as nat)
}

/// The declared length of a frame: header varints plus payload, in bytes.
pub open spec fn frame_body_len(serial: u64, ident: u64, payload: Seq<u8>) -> nat {
    header_len(serial, ident) + payload.len()
}

/// The exact wire form of a frame.
pub open spec fn frame_bytes(serial: u64, ident: u64, payload: Seq<u8>) -> Seq<u8> {
    varint_bytes(frame_body_len(serial, ident, payload)) + varint_bytes(serial as nat)
        + varint_bytes(ident as nat) + payload
}

/// Reads one frame from the front of `s`: the frame and how many bytes it
/// took. `None` when the bytes are malformed: a bad varint, a declared length
/// smaller than the header it must cover, or fewer payload bytes than
/// declared.
pub open spec fn frame_parse(s: Seq<u8>) -> Option<(FrameModel, nat)> {
    match varint_parse(s) {
        None => None,
        Some((len, n0)) => match varint_parse(s.skip(n0 as int)) {
            None => None,
            Some((serial, n1)) => match varint_parse(s.skip(n0 + n1 as int)) {
                None => None,
                Some((ident, n2)) => if (len as nat) < header_len(serial, ident) {
                    None
                } else {
                    let body = len - header_len(serial, ident);
                    let start = n0 + n1 + n2;
                    if s.len() < start + body {
                        None
                    } else {
                        Some(
                            ((FrameModel {
                                serial,
                                ident,
                                payload: s.subrange(start as int, start + body as int),
                            }), (start + body) as nat),
                        )
                    }
                },
            },
        },
    }
}

/// Encodes a frame: computes the declared length from `serial`, `ident` and
/// the payload, then writes length, serial, ident and the raw payload bytes,
/// contiguously.
pub fn encode_frame(ident: u64, serial: u64, payload: &[u8]) -> (out: Vec<u8>)
    requires
        payload@.len() + 20 <= usize::MAX,
    ensures
        out@ == frame_bytes(serial, ident, payload@),
{
    let ls: usize = encoded_length(serial);
    let li: usize = encoded_length(ident);
    let body: usize = ls + li + payload.len();
    let mut out: Vec<u8> = Vec::new();
    write_varint(&mut out, body as u64);
    write_varint(&mut out, serial);
    write_varint(&mut out, ident);
    let mut tail: Vec<u8> = vstd::slice::slice_to_vec(payload);
    out.append(&mut tail);
    proof {
        assert(out@ =~= frame_bytes(serial, ident, payload@));
    }
    out
}

/// Decodes one frame from the front of `data`: the frame and the number of
/// bytes consumed; bytes after the frame are left untouched. Fails with
/// `CodecError::Format` exactly when no well-formed frame starts the data:
/// a malformed varint, a declared length smaller than the combined size of
/// the serial and ident varints (checked, never an underflow), or a payload
/// cut short.
pub fn decode_frame(data: &[u8]) -> (r: Result<(Frame, usize), CodecError>)
    ensures
        match r {
            Ok((f, used)) => frame_parse(data@) == Some((f@, used as nat)),
            Err(e) => e == CodecError::Format && frame_parse(data@) is None,
        },
{
    proof {
        assert(data@.skip(0) =~= data@);
    }
    let (len, n0) = match decode_unsigned(data, 0) {
        Ok(x) => x,
        Err(e) => {
            return Err(e);
        },
    };
    let (serial, n1) = match decode_unsigned(data, n0) {
        Ok(x) => x,
        Err(e) => {
            return Err(e);
        },
    };
    let (ident, n2) = match decode_unsigned(data, n0 + n1) {
        Ok(x) => x,
        Err(e) => {
            return Err(e);
        },
    };
    let header: usize = encoded_length(serial) + encoded_length(ident);
    if len < header as u64 {
        return Err(CodecError::Format);
    }
    let body64: u64 = len - header as u64;
    let start: usize = n0 + n1 + n2;
    let avail: usize = data.len() - start;
    if body64 > avail as u64 {
        return Err(CodecError::Format);
    }
    let body: usize = body64 as usize;
    let piece = vstd::slice::slice_subrange(data, start, start + body);
    let payload: Vec<u8> = vstd::slice::slice_to_vec(piece);
    Ok((Frame { serial, ident, payload }, start + body))
}

/// Law: frame round trip. An encoded frame at the front of a stream parses
/// back to the same serial, ident and payload, whatever follows it, and
/// consumes exactly its own bytes.
#[verifier::rlimit(60)]
pub proof fn lemma_frame_round_trip(serial: u64, ident: u64, payload: Seq<u8>, rest: Seq<u8>)
    requires
        payload.len() + 20 <= usize::MAX,
    ensures
        frame_parse(frame_bytes(serial, ident, payload) + rest) == Some(
            ((FrameModel { serial, ident, payload }),
            frame_bytes(serial, ident, payload).len() as nat),
        ),
        frame_bytes(serial, ident, payload).len() == varint_len(
            frame_body_len(serial, ident, payload),
        ) + frame_body_len(serial, ident, payload),
{
    let body = frame_body_len(serial, ident, payload);
    lemma_varint_len_le_10(serial as nat);
    lemma_varint_len_le_10(ident as nat);
    lemma_varint_bytes_len(body);
    lemma_varint_bytes_len(serial as nat);
    lemma_varint_bytes_len(ident as nat);
    let s = frame_bytes(serial, ident, payload) + rest;
    let rest0 = varint_bytes(serial as nat) + varint_bytes(ident as nat) + payload + rest;
    assert(s =~= varint_bytes(body) + rest0);
    lemma_varint_parse_encoded(body as u64, rest0);
    let n0 = varint_len(body);
    let rest1 = varint_bytes(ident as nat) + payload + rest;
    assert(s.skip(n0 as int) =~= varint_bytes(serial as nat) + rest1);
    lemma_varint_parse_encoded(serial, rest1);
    let n1 = varint_len(serial as nat);
    let rest2 = payload + rest;
    assert(s.skip(n0 + n1 as int) =~= varint_bytes(ident as nat) + rest2);
    lemma_varint_parse_encoded(ident, rest2);
    let n2 = varint_len(ident as nat);
    let start = n0 + n1 + n2;
    assert(s.subrange(start as int, start + payload.len() as int) =~= payload);
}

/// Law: declared-length underflow is rejected. A frame whose declared length
/// is smaller than the combined encoded size of its serial and ident varints
/// never parses, whatever bytes follow the header.
pub proof fn lemma_frame_short_length_rejected(len: u64, serial: u64, ident: u64, rest: Seq<u8>)
    requires
        (len as nat) < header_len(serial, ident),
    ensures
        frame_parse(
            varint_bytes(len as nat) + varint_bytes(serial as nat) + varint_bytes(ident as nat)
                + rest,
        ) is None,
{
    lemma_varint_bytes_len(len as nat);
    lemma_varint_bytes_len(serial as nat);
    lemma_varint_bytes_len(ident as nat);
    let s = varint_bytes(len as nat) + varint_bytes(serial as nat) + varint_bytes(ident as nat)
        + rest;
    let rest0 = varint_bytes(serial as nat) + varint_bytes(ident as nat) + rest;
    assert(s =~= varint_bytes(len as nat) + rest0);
    lemma_varint_parse_encoded(len, rest0);
    let n0 = varint_len(len as nat);
    let rest1 = varint_bytes(ident as nat) + rest;
    assert(s.skip(n0 as int) =~= varint_bytes(serial as nat) + rest1);
    lemma_varint_parse_encoded(serial, rest1);
    let n1 = varint_len(serial as nat);
    assert(s.skip(n0 + n1 as int) =~= varint_bytes(ident as nat) + rest);
    lemma_varint_parse_encoded(ident, rest);
}

} // verus!
