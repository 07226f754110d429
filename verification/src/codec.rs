//! The stored-value codec: usage statistics are persisted as the two
//! counters in fixed eight-byte little-endian form, sixteen bytes in all.
//! Encoding and decoding are done by `bincode`, whose fixed-integer
//! little-endian layout these specifications mirror byte for byte.

use vstd::prelude::*;

use crate::record::CmdData;

verus! {

/// The eight bytes of `v`, least significant first.
pub open spec fn u64_le_bytes(v: u64) -> Seq<u8> {
    seq![
        (v & 0xff) as u8,
        ((v >> 8) & 0xff) as u8,
        ((v >> 16) & 0xff) as u8,
        ((v >> 24) & 0xff) as u8,
        ((v >> 32) & 0xff) as u8,
        ((v >> 40) & 0xff) as u8,
        ((v >> 48) & 0xff) as u8,
        ((v >> 56) & 0xff) as u8,
    ]
}

/// The value carried by eight little-endian bytes.
pub open spec fn le_u64(b: Seq<u8>) -> u64
    recommends
        b.len() == 8,
{
    (b[0] as u64) | ((b[1] as u64) << 8) | ((b[2] as u64) << 16) | ((b[3] as u64) << 24) | ((
    b[4] as u64) << 32) | ((b[5] as u64) << 40) | ((b[6] as u64) << 48) | ((b[7] as u64) << 56)
}

/// The serialized form of usage statistics: count, then last execution
/// time, eight little-endian bytes each.
pub open spec fn stats_bytes(d: CmdData) -> Seq<u8> {
    u64_le_bytes(d.count) + u64_le_bytes(d.last_exec_time)
}

/// What decoding a stored value yields: the two counters read from the
/// first sixteen bytes, or nothing when fewer than sixteen bytes are there
/// (a corrupt value).
pub open spec fn decode_spec(b: Seq<u8>) -> Option<CmdData> {
    if b.len() >= 16 {
        Some(
            CmdData {
                count: le_u64(b.subrange(0, 8)),
                last_exec_time: le_u64(b.subrange(8, 16)),
            },
        )
    } else {
        None
    }
}

/// Reading back the eight bytes of a value gives the value: the codec loses
/// nothing.
pub proof fn lemma_u64_le_round_trip(v: u64)
    ensures
        u64_le_bytes(v).len() == 8,
        le_u64(u64_le_bytes(v)) == v,
{
    assert((((v & 0xff) as u8) as u64) | (((((v >> 8) & 0xff) as u8) as u64) << 8) | (((((v >> 16)
        & 0xff) as u8) as u64) << 16) | (((((v >> 24) & 0xff) as u8) as u64) << 24) | (((((v >> 32)
        & 0xff) as u8) as u64) << 32) | (((((v >> 40) & 0xff) as u8) as u64) << 40) | (((((v >> 48)
        & 0xff) as u8) as u64) << 48) | (((((v >> 56) & 0xff) as u8) as u64) << 56) == v)
        by (bit_vector);
}

/// Encoded statistics decode back to themselves: the persisted form is
/// faithful.
pub proof fn lemma_stats_round_trip(d: CmdData)
    ensures
        stats_bytes(d).len() == 16,
        decode_spec(stats_bytes(d)) == Some(d),
{
    lemma_u64_le_round_trip(d.count);
    lemma_u64_le_round_trip(d.last_exec_time);
    assert(stats_bytes(d).subrange(0, 8) =~= u64_le_bytes(d.count));
    assert(stats_bytes(d).subrange(8, 16) =~= u64_le_bytes(d.last_exec_time));
}

/// Relies on `bincode::serialize` of a `(u64, u64)` pair: the functions of
/// bincode 1.x use fixed-integer little-endian encoding, so the result is
/// the two values as eight little-endian bytes each. Writing to a `Vec` with
/// no size limit cannot fail.
#[verifier::external_body]
pub(crate) fn encode_stats(d: &CmdData) -> (r: Vec<u8>)
    ensures
        r@ == stats_bytes(*d),
{
    bincode::serialize(&(d.count, d.last_exec_time)).unwrap()
}

/// Relies on `bincode::deserialize` of a `(u64, u64)` pair: with bincode
/// 1.x's fixed-integer little-endian encoding it reads two eight-byte
/// little-endian values from the front of the slice, ignores trailing
/// bytes, and fails exactly when fewer than sixteen bytes are there.
#[verifier::external_body]
pub(crate) fn decode_stats(b: &[u8]) -> (r: Option<CmdData>)
    ensures
        r == decode_spec(b@),
{
    match bincode::deserialize::<(u64, u64)>(b) {
        Ok((count, last_exec_time)) => Some(CmdData { count, last_exec_time }),
        Err(_) => None,
    }
}

} // verus!
