//! Variable-length encoding of unsigned integers (unsigned LEB128).
//!
//! Each byte carries 7 payload bits, least-significant group first; the high
//! bit of a byte is set exactly when more bytes follow. A `u64` therefore
//! takes between 1 and 10 bytes on the wire.

use crate::CodecError;
use vstd::arithmetic::div_mod::lemma_fundamental_div_mod;
use vstd::prelude::*;

verus! {

/// Number of bytes the canonical encoding of `v` occupies.
pub open spec fn varint_len(v: nat) -> nat
    decreases v,
{
    if v < 128 {
        1
    } else {
        1 + varint_len(v / 128)
    }
}

/// The canonical encoding of `v`: its low 7 bits first, the continuation bit
/// set on every byte but the last.
pub open spec fn varint_bytes(v: nat) -> Seq<u8>
    decreases v,
{
    if v < 128 {
        seq![v as u8]
    } else {
        seq![(v % 128 + 128) as u8] + varint_bytes(v / 128)
    }
}

/// Reads one varint from the front of `s` with no width limit: the value
/// denoted by the bytes up to and including the first byte whose continuation
/// bit is clear, and how many bytes that took. `None` when `s` ends first.
pub open spec fn varint_raw(s: Seq<u8>) -> Option<(nat, nat)>
    decreases s.len(),
{
    if s.len() == 0 {
        None
    } else if s[0] < 128 {
        Some((s[0] as nat, 1nat))
    } else {
        match varint_raw(s.skip(1)) {
            None => None,
            Some((v, n)) => Some((((s[0] - 128) + 128 * v) as nat, n + 1)),
        }
    }
}

/// Reads one `u64` varint from the front of `s`: as [`varint_raw`], but the
/// value must fit in 64 bits and the encoding must take at most 10 bytes.
pub open spec fn varint_parse(s: Seq<u8>) -> Option<(u64, nat)> {
    match varint_raw(s) {
        None => None,
        Some((v, n)) => if v <= u64::MAX && n <= 10 {
            Some((v as u64, n))
        } else {
            None
        },
    }
}

/// 128 raised to `k`; the least value whose encoding needs more than `k` bytes.
pub open spec fn pow128(k: nat) -> nat
    decreases k,
{
    if k == 0 {
        1
    } else {
        128 * pow128((k - 1) as nat)
    }
}

proof fn lemma_varint_len_at_most(v: nat, k: nat)
    requires
        1 <= k,
        v < pow128(k),
    ensures
        varint_len(v) <= k,
    decreases k,
{
    if v >= 128 {
        if k == 1 {
            assert(pow128(1) == 128) by {
                reveal_with_fuel(pow128, 2);
            }
        }
        assert(v / 128 < pow128((k - 1) as nat)) by (nonlinear_arith)
            requires
                v < 128 * pow128((k - 1) as nat),
        ;
        lemma_varint_len_at_most(v / 128, (k - 1) as nat);
    }
}

/// Every value that fits in 64 bits encodes in 1 to 10 bytes.
pub proof fn lemma_varint_len_le_10(v: nat)
    requires
        v <= u64::MAX,
    ensures
        1 <= varint_len(v) <= 10,
{
    assert(pow128(10) == 0x400000000000000000) by {
        reveal_with_fuel(pow128, 11);
    }
    lemma_varint_len_at_most(v, 10);
}

/// The encoding is exactly as long as [`varint_len`] says.
pub proof fn lemma_varint_bytes_len(v: nat)
    ensures
        varint_bytes(v).len() == varint_len(v),
    decreases v,
{
    if v >= 128 {
        lemma_varint_bytes_len(v / 128);
    }
}

proof fn lemma_varint_raw_encoded(v: nat, rest: Seq<u8>)
    ensures
        varint_raw(varint_bytes(v) + rest) == Some((v, varint_len(v))),
    decreases v,
{
    let s = varint_bytes(v) + rest;
    if v < 128 {
        assert(s[0] == v as u8);
    } else {
        assert(s[0] == (v % 128 + 128) as u8);
        assert(s.skip(1) =~= varint_bytes(v / 128) + rest);
        lemma_varint_raw_encoded(v / 128, rest);
        lemma_fundamental_div_mod(v as int, 128);
    }
}

/// A canonical encoding at the front of a stream parses back to its value,
/// whatever follows it.
pub proof fn lemma_varint_parse_encoded(v: u64, rest: Seq<u8>)
    ensures
        varint_parse(varint_bytes(v as nat) + rest) == Some((v, varint_len(v as nat))),
{
    lemma_varint_raw_encoded(v as nat, rest);
    lemma_varint_len_le_10(v as nat);
}

/// Law: varint round trip. Decoding the encoding of any `u64` yields the
/// value back, and the encoding occupies exactly `encoded_length(v)` bytes.
pub proof fn lemma_varint_round_trip(v: u64)
    ensures
        varint_parse(varint_bytes(v as nat)) == Some((v, varint_len(v as nat))),
        varint_bytes(v as nat).len() == varint_len(v as nat),
{
    assert(varint_bytes(v as nat) + Seq::<u8>::empty() =~= varint_bytes(v as nat));
    lemma_varint_parse_encoded(v, Seq::<u8>::empty());
    lemma_varint_bytes_len(v as nat);
}

/// Exact byte count [`encode_unsigned`] would produce for `v`, without
/// materializing the bytes.
pub fn encoded_length(v: u64) -> (n: usize)
    ensures
        n == varint_len(v as nat),
        1 <= n <= 10,
    decreases v,
{
    proof {
        lemma_varint_len_le_10(v as nat);
    }
    if v < 128 {
        1
    } else {
        1 + encoded_length(v / 128)
    }
}

/// Encodes `v` as a varint.
pub fn encode_unsigned(v: u64) -> (out: Vec<u8>)
    ensures
        out@ == varint_bytes(v as nat),
    decreases v,
{
    let mut out: Vec<u8> = Vec::new();
    if v < 128 {
        out.push(v as u8);
    } else {
        out.push((v % 128 + 128) as u8);
        let mut rest = encode_unsigned(v / 128);
        out.append(&mut rest);
    }
    proof {
        assert(out@ =~= varint_bytes(v as nat));
    }
    out
}

/// Appends the encoding of `v` to `out`.
pub fn write_varint(out: &mut Vec<u8>, v: u64)
    ensures
        final(out)@ == old(out)@ + varint_bytes(v as nat),
{
    let mut enc = encode_unsigned(v);
    out.append(&mut enc);
}

fn decode_unsigned_at(data: &[u8], pos: usize, fuel: usize) -> (r: Result<(u64, usize), CodecError>)
    requires
        pos <= data@.len(),
        fuel <= 10,
    ensures
        match r {
            Ok((v, n)) => {
                &&& 1 <= n <= fuel
                &&& pos + n <= data@.len()
                &&& varint_raw(data@.skip(pos as int)) == Some((v as nat, n as nat))
            },
            Err(e) => {
                &&& e == CodecError::Format
                &&& match varint_raw(data@.skip(pos as int)) {
                    None => true,
                    Some((v, n)) => v > u64::MAX || n > fuel,
                }
            },
        },
    decreases fuel,
{
    if fuel == 0 || pos == data.len() {
        return Err(CodecError::Format);
    }
    let b: u8 = *vstd::slice::slice_index_get(data, pos);
    if b < 128 {
        Ok((b as u64, 1))
    } else {
        proof {
            assert(data@.skip(pos as int).skip(1) =~= data@.skip(pos + 1));
        }
        match decode_unsigned_at(data, pos + 1, fuel - 1) {
            Err(e) => Err(e),
            Ok((v, n)) => {
                let low: u64 = (b - 128) as u64;
                if v > (u64::MAX - low) / 128 {
                    proof {
                        assert(low + 128 * v > u64::MAX) by (nonlinear_arith)
                            requires
                                v > (u64::MAX - low) / 128,
                                low <= 127,
                        ;
                    }
                    Err(CodecError::Format)
                } else {
                    proof {
                        assert(low + 128 * v <= u64::MAX) by (nonlinear_arith)
                            requires
                                v <= (u64::MAX - low) / 128,
                                low <= 127,
                        ;
                    }
                    Ok((low + 128 * v, n + 1))
                }
            },
        }
    }
}

/// Decodes one varint from `data` starting at `pos`: the value and the number
/// of bytes consumed. Fails with `CodecError::Format` exactly when the bytes
/// at `pos` hold no varint that a `u64` can carry: the data ends before a
/// terminating byte, the value exceeds 64 bits, or more than 10 bytes would
/// be consumed.
pub fn decode_unsigned(data: &[u8], pos: usize) -> (r: Result<(u64, usize), CodecError>)
    requires
        pos <= data@.len(),
    ensures
        match r {
            Ok((v, n)) => {
                &&& varint_parse(data@.skip(pos as int)) == Some((v, n as nat))
                &&& 1 <= n <= 10
                &&& pos + n <= data@.len()
            },
            Err(e) => {
                &&& e == CodecError::Format
                &&& varint_parse(data@.skip(pos as int)) is None
            },
        },
{
    decode_unsigned_at(data, pos, 10)
}

} // verus!
