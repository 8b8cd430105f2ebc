//! The on-disk record format.
//!
//! A record is self-delimiting: a fixed header of the key's byte length
//! (`u32`, little endian), the value's byte length (`u32`, little endian) and
//! the timestamp (`u64`, little endian), followed by the UTF-8 bytes of the key
//! and then of the value.
use vstd::prelude::*;
use vstd::bytes::*;
use vstd::slice::{slice_subrange, slice_to_vec};
use vstd::utf8::*;

use crate::error::HobbesError;

verus! {

broadcast use {encode_utf8_valid_utf8, encode_utf8_decode_utf8};

/// Length in bytes of a record's fixed header.
pub const HEADER_LEN: usize = 16;

/// One write to the log: a key, its value (or the tombstone marker) and the
/// time of the write in microseconds.
#[derive(Debug, Clone)]
pub struct LogEntry {
    pub key: String,
    pub val: String,
    pub timestamp: u64,
}

/// The mathematical value of a [`LogEntry`].
pub struct Record {
    pub key: Seq<char>,
    pub val: Seq<char>,
    pub timestamp: u64,
}

impl View for LogEntry {
    type V = Record;

    open spec fn view(&self) -> Record {
        Record { key: self.key@, val: self.val@, timestamp: self.timestamp }
    }
}

/// The value that marks a deleted key in the log.
pub open spec fn tombstone_spec() -> Seq<char> {
    seq!['!', 't', 'o', 'm', 'b', '!']
}

/// Whether both fields of `r` fit the header's 32-bit length fields.
pub open spec fn encodable(r: Record) -> bool {
    &&& encode_utf8(r.key).len() <= u32::MAX
    &&& encode_utf8(r.val).len() <= u32::MAX
}

/// The bytes of a record.
pub open spec fn record_bytes(r: Record) -> Seq<u8> {
    spec_u32_to_le_bytes(encode_utf8(r.key).len() as u32) + spec_u32_to_le_bytes(
        encode_utf8(r.val).len() as u32,
    ) + spec_u64_to_le_bytes(r.timestamp) + encode_utf8(r.key) + encode_utf8(r.val)
}

/// What the bytes at the start of a sequence hold.
pub enum Parsed {
    /// A whole record, and the number of bytes it takes.
    Complete(Record, nat),
    /// The bytes end before the record does.
    Truncated,
    /// The record is complete but a field is not UTF-8.
    Malformed,
}

pub open spec fn key_len_of(b: Seq<u8>) -> int {
    spec_u32_from_le_bytes(b.subrange(0, 4)) as int
}

pub open spec fn val_len_of(b: Seq<u8>) -> int {
    spec_u32_from_le_bytes(b.subrange(4, 8)) as int
}

/// Reads one record from the start of `b`.
pub open spec fn parse_record(b: Seq<u8>) -> Parsed {
    if b.len() < HEADER_LEN {
        Parsed::Truncated
    } else {
        let kl = key_len_of(b);
        let vl = val_len_of(b);
        let ts = spec_u64_from_le_bytes(b.subrange(8, 16));
        if b.len() < HEADER_LEN + kl + vl {
            Parsed::Truncated
        } else {
            let kb = b.subrange(16, 16 + kl);
            let vb = b.subrange(16 + kl, 16 + kl + vl);
            if valid_utf8(kb) && valid_utf8(vb) {
                Parsed::Complete(
                    Record { key: decode_utf8(kb), val: decode_utf8(vb), timestamp: ts },
                    (HEADER_LEN + kl + vl) as nat,
                )
            } else {
                Parsed::Malformed
            }
        }
    }
}

/// Outcome of decoding one record from a byte buffer.
#[derive(Debug)]
pub enum DecodeOutcome {
    /// The record, and the position just past it.
    Entry(LogEntry, usize),
    Truncated,
    Malformed,
}

/// Relates a decode outcome at `pos` to [`parse_record`] of the bytes from `pos` on.
pub open spec fn decoded_as(r: DecodeOutcome, b: Seq<u8>, pos: int) -> bool {
    match (r, parse_record(b.subrange(pos, b.len() as int))) {
        (DecodeOutcome::Entry(e, next), Parsed::Complete(rec, n)) => e@ == rec && next == pos + n,
        (DecodeOutcome::Truncated, Parsed::Truncated) => true,
        (DecodeOutcome::Malformed, Parsed::Malformed) => true,
        _ => false,
    }
}

/// A record reads back as itself, whatever follows it.
pub proof fn lemma_parse_record_bytes(r: Record, rest: Seq<u8>)
    requires
        encodable(r),
    ensures
        parse_record(record_bytes(r) + rest) == Parsed::Complete(r, record_bytes(r).len()),
        record_bytes(r).len() == HEADER_LEN + encode_utf8(r.key).len() + encode_utf8(r.val).len(),
{
    lemma_auto_spec_u32_to_from_le_bytes();
    lemma_auto_spec_u64_to_from_le_bytes();
    let kb = encode_utf8(r.key);
    let vb = encode_utf8(r.val);
    let h1 = spec_u32_to_le_bytes(kb.len() as u32);
    let h2 = spec_u32_to_le_bytes(vb.len() as u32);
    let h3 = spec_u64_to_le_bytes(r.timestamp);
    let b = record_bytes(r) + rest;
    assert(b.subrange(0, 4) =~= h1);
    assert(b.subrange(4, 8) =~= h2);
    assert(b.subrange(8, 16) =~= h3);
    let kl = kb.len() as int;
    let vl = vb.len() as int;
    assert(b.subrange(16, 16 + kl) =~= kb);
    assert(b.subrange(16 + kl, 16 + kl + vl) =~= vb);
}

/// Decoding the encoding of an entry gives the entry back.
pub proof fn lemma_codec_round_trip(e: LogEntry, rest: Seq<u8>)
    requires
        encodable(e@),
    ensures
        parse_record(record_bytes(e@) + rest) matches Parsed::Complete(r, n) && r == e@ && n
            == record_bytes(e@).len(),
{
    lemma_parse_record_bytes(e@, rest);
}

/// Relies on `String::from_utf8`: it succeeds exactly on well-formed UTF-8,
/// and the string then holds the characters that the bytes encode.
#[verifier::external_body]
pub(crate) fn string_from_utf8(bytes: Vec<u8>) -> (r: Option<String>)
    ensures
        r is Some <==> valid_utf8(bytes@),
        r matches Some(s) ==> s@ == decode_utf8(bytes@),
{
    String::from_utf8(bytes).ok()
}

fn push_all(out: &mut Vec<u8>, src: &[u8])
    ensures
        final(out)@ == old(out)@ + src@,
{
    let mut i: usize = 0;
    while i < src.len()
        invariant
            i <= src@.len(),
            out@ == old(out)@ + src@.subrange(0, i as int),
        decreases src@.len() - i,
    {
        out.push(src[i]);
        i = i + 1;
        assert(src@.subrange(0, i as int) =~= src@.subrange(0, i - 1 as int).push(src@[i - 1]));
    }
    assert(src@.subrange(0, src@.len() as int) =~= src@);
}

/// Encodes `e` as a record. Fails exactly when the key or the value is longer
/// than the header can state.
pub fn encode(e: &LogEntry) -> (r: Result<Vec<u8>, HobbesError>)
    ensures
        r is Ok <==> encodable(e@),
        r matches Ok(b) ==> b@ == record_bytes(e@),
        r matches Err(err) ==> err is SerializationError,
{
    let kb = e.key.as_str().as_bytes();
    let vb = e.val.as_str().as_bytes();
    if kb.len() > u32::MAX as usize || vb.len() > u32::MAX as usize {
        return Err(HobbesError::SerializationError("field longer than a record can hold".to_string()));
    }
    let mut out = u32_to_le_bytes(kb.len() as u32);
    let v2 = u32_to_le_bytes(vb.len() as u32);
    push_all(&mut out, v2.as_slice());
    let v3 = u64_to_le_bytes(e.timestamp);
    push_all(&mut out, v3.as_slice());
    push_all(&mut out, kb);
    push_all(&mut out, vb);
    Ok(out)
}

/// Decodes the record that starts at `pos` in `bytes`.
pub fn decode_at(bytes: &[u8], pos: usize) -> (r: DecodeOutcome)
    requires
        pos <= bytes@.len(),
    ensures
        decoded_as(r, bytes@, pos as int),
{
    let ghost b = bytes@.subrange(pos as int, bytes@.len() as int);
    let avail = bytes.len() - pos;
    if avail < HEADER_LEN {
        return DecodeOutcome::Truncated;
    }
    let kl = u32_from_le_bytes(slice_subrange(bytes, pos, pos + 4));
    let vl = u32_from_le_bytes(slice_subrange(bytes, pos + 4, pos + 8));
    let ts = u64_from_le_bytes(slice_subrange(bytes, pos + 8, pos + 16));
    assert(bytes@.subrange(pos as int, pos + 4) =~= b.subrange(0, 4));
    assert(bytes@.subrange(pos + 4, pos + 8) =~= b.subrange(4, 8));
    assert(bytes@.subrange(pos + 8, pos + 16) =~= b.subrange(8, 16));
    let kl = kl as usize;
    let vl = vl as usize;
    if avail - HEADER_LEN < kl || avail - HEADER_LEN - kl < vl {
        return DecodeOutcome::Truncated;
    }
    let kstart = pos + HEADER_LEN;
    let vstart = kstart + kl;
    let end = vstart + vl;
    let kvec = slice_to_vec(slice_subrange(bytes, kstart, vstart));
    let vvec = slice_to_vec(slice_subrange(bytes, vstart, end));
    assert(bytes@.subrange(kstart as int, vstart as int) =~= b.subrange(16, 16 + kl));
    assert(bytes@.subrange(vstart as int, end as int) =~= b.subrange(16 + kl, 16 + kl + vl));
    let key = string_from_utf8(kvec);
    let val = string_from_utf8(vvec);
    match (key, val) {
        (Some(key), Some(val)) => DecodeOutcome::Entry(LogEntry { key, val, timestamp: ts }, end),
        _ => DecodeOutcome::Malformed,
    }
}

/// The number of bytes of the record whose header starts `header`, if the
/// header is whole and the number fits a `usize`.
pub fn record_len(header: &[u8]) -> (r: Option<usize>)
    ensures
        header@.len() < HEADER_LEN ==> r is None,
        header@.len() >= HEADER_LEN ==> (r is Some <==> HEADER_LEN + key_len_of(header@)
            + val_len_of(header@) <= usize::MAX),
        r matches Some(n) ==> n == HEADER_LEN + key_len_of(header@) + val_len_of(header@),
{
    if header.len() < HEADER_LEN {
        return None;
    }
    let kl = u32_from_le_bytes(slice_subrange(header, 0, 4)) as usize;
    let vl = u32_from_le_bytes(slice_subrange(header, 4, 8)) as usize;
    if kl > usize::MAX - HEADER_LEN || vl > usize::MAX - HEADER_LEN - kl {
        None
    } else {
        Some(HEADER_LEN + kl + vl)
    }
}

/// Whether `val` is the tombstone marker.
pub fn is_tombstone(val: &String) -> (r: bool)
    ensures
        r == (val@ == tombstone_spec()),
{
    let t = tombstone();
    *val == t
}

/// The tombstone marker, `!tomb!`.
pub fn tombstone() -> (r: String)
    ensures
        r@ == tombstone_spec(),
{
    let s = "!tomb!";
    proof {
        reveal_strlit("!tomb!");
    }
    let r = s.to_string();
    assert(r@ =~= tombstone_spec());
    r
}

} // verus!
