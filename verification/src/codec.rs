//! The record codec: the binary on-disk representation of a key-value pair.
//!
//! A record is a fixed 12-byte header followed by the payload. The header
//! holds, as little-endian unsigned 32-bit integers: the CRC-32 (IEEE)
//! checksum of the payload, the key length, and the value length. The
//! payload is the key's bytes followed by the value's bytes.

use vstd::bytes::lemma_auto_spec_u32_to_from_le_bytes;
use vstd::bytes::spec_u32_from_le_bytes;
use vstd::bytes::spec_u32_to_le_bytes;
use vstd::bytes::u32_from_le_bytes;
use vstd::bytes::u32_to_le_bytes;
use vstd::prelude::*;
use vstd::slice::slice_subrange;
use vstd::slice::slice_to_vec;

verus! {

/// Width of the fixed record header: checksum, key length, value length,
/// four bytes each.
pub const HEADER_LEN: usize = 12;

/// A decoded record: a key and a value, each an arbitrary byte sequence.
#[derive(Debug, PartialEq, Eq)]
pub struct KeyValuePair {
    pub key: Vec<u8>,
    pub value: Vec<u8>,
}

/// Why decoding a record failed.
#[derive(Debug, PartialEq, Eq)]
pub enum DecodeOutcome {
    /// The log ends exactly at the read position: not a defect, the
    /// sentinel that terminates a scan.
    EndOfLog,
    /// A full header and its declared payload could not be read:
    /// `declared` bytes were needed from the read position, only
    /// `available` remain.
    Truncated { declared: u64, available: u64 },
    /// The checksum recomputed over the payload (`actual`) differs from
    /// the stored one (`expected`).
    ChecksumMismatch { expected: u32, actual: u32 },
}

/// The CRC-32 (IEEE polynomial) checksum of a byte sequence.
pub uninterp spec fn crc32_of(data: Seq<u8>) -> u32;

/// Relies on crc::crc32::checksum_ieee: the CRC-32/IEEE checksum of the
/// bytes, a function of the bytes alone.
#[verifier::external_body]
pub(crate) fn crc32_ieee(data: &[u8]) -> (r: u32)
    ensures
        r == crc32_of(data@),
{
    crc::crc32::checksum_ieee(data)
}

/// The encoded record for `key` and `value`: checksum, key length and
/// value length as little-endian 32-bit integers, then key, then value.
pub open spec fn record_bytes(key: Seq<u8>, value: Seq<u8>) -> Seq<u8> {
    spec_u32_to_le_bytes(crc32_of(key + value)) + spec_u32_to_le_bytes(key.len() as u32)
        + spec_u32_to_le_bytes(value.len() as u32) + key + value
}

/// A full header fits in `log` at `pos`.
pub open spec fn header_in_bounds(log: Seq<u8>, pos: int) -> bool {
    0 <= pos && pos + HEADER_LEN <= log.len()
}

/// The checksum stored in the header at `pos`.
pub open spec fn stored_checksum(log: Seq<u8>, pos: int) -> u32
    recommends
        header_in_bounds(log, pos),
{
    spec_u32_from_le_bytes(log.subrange(pos, pos + 4))
}

/// The key length stored in the header at `pos`.
pub open spec fn stored_key_len(log: Seq<u8>, pos: int) -> u32
    recommends
        header_in_bounds(log, pos),
{
    spec_u32_from_le_bytes(log.subrange(pos + 4, pos + 8))
}

/// The value length stored in the header at `pos`.
pub open spec fn stored_val_len(log: Seq<u8>, pos: int) -> u32
    recommends
        header_in_bounds(log, pos),
{
    spec_u32_from_le_bytes(log.subrange(pos + 8, pos + 12))
}

/// The position just after the record at `pos`: header plus declared
/// key and value lengths.
pub open spec fn record_end(log: Seq<u8>, pos: int) -> int
    recommends
        header_in_bounds(log, pos),
{
    pos + HEADER_LEN + stored_key_len(log, pos) + stored_val_len(log, pos)
}

/// The whole record at `pos` — header and declared payload — fits in `log`.
pub open spec fn frame_in_bounds(log: Seq<u8>, pos: int) -> bool {
    header_in_bounds(log, pos) && record_end(log, pos) <= log.len()
}

/// The payload of the record at `pos`: key bytes then value bytes.
pub open spec fn record_payload(log: Seq<u8>, pos: int) -> Seq<u8>
    recommends
        frame_in_bounds(log, pos),
{
    log.subrange(pos + HEADER_LEN, record_end(log, pos))
}

/// The key of the record at `pos`.
pub open spec fn record_key(log: Seq<u8>, pos: int) -> Seq<u8>
    recommends
        frame_in_bounds(log, pos),
{
    log.subrange(pos + HEADER_LEN, pos + HEADER_LEN + stored_key_len(log, pos))
}

/// The value of the record at `pos`.
pub open spec fn record_value(log: Seq<u8>, pos: int) -> Seq<u8>
    recommends
        frame_in_bounds(log, pos),
{
    log.subrange(pos + HEADER_LEN + stored_key_len(log, pos), record_end(log, pos))
}

/// The checksum recomputed over the payload at `pos` equals the stored one.
pub open spec fn checksum_matches(log: Seq<u8>, pos: int) -> bool
    recommends
        frame_in_bounds(log, pos),
{
    crc32_of(record_payload(log, pos)) == stored_checksum(log, pos)
}

/// What decoding one record of `log` at `pos` yields: on success the key,
/// the value, and the position just after the record.
pub open spec fn decode_result(log: Seq<u8>, pos: int) -> Result<
    (Seq<u8>, Seq<u8>, int),
    DecodeOutcome,
>
    recommends
        0 <= pos <= log.len(),
{
    if pos == log.len() {
        Err(DecodeOutcome::EndOfLog)
    } else if !header_in_bounds(log, pos) {
        Err(
            DecodeOutcome::Truncated {
                declared: HEADER_LEN as u64,
                available: (log.len() - pos) as u64,
            },
        )
    } else if !frame_in_bounds(log, pos) {
        Err(
            DecodeOutcome::Truncated {
                declared: (HEADER_LEN + stored_key_len(log, pos) + stored_val_len(log, pos)) as u64,
                available: (log.len() - pos) as u64,
            },
        )
    } else if !checksum_matches(log, pos) {
        Err(
            DecodeOutcome::ChecksumMismatch {
                expected: stored_checksum(log, pos),
                actual: crc32_of(record_payload(log, pos)),
            },
        )
    } else {
        Ok((record_key(log, pos), record_value(log, pos), record_end(log, pos)))
    }
}

/// A record that fits in `log` reads the same after more bytes are
/// appended: extension never disturbs an existing record.
pub proof fn lemma_decode_stable(log: Seq<u8>, ext: Seq<u8>, pos: int)
    requires
        frame_in_bounds(log, pos),
    ensures
        frame_in_bounds(log + ext, pos),
        stored_checksum(log + ext, pos) == stored_checksum(log, pos),
        stored_key_len(log + ext, pos) == stored_key_len(log, pos),
        stored_val_len(log + ext, pos) == stored_val_len(log, pos),
        record_end(log + ext, pos) == record_end(log, pos),
        record_key(log + ext, pos) == record_key(log, pos),
        record_value(log + ext, pos) == record_value(log, pos),
        record_payload(log + ext, pos) == record_payload(log, pos),
        checksum_matches(log + ext, pos) == checksum_matches(log, pos),
{
    let whole = log + ext;
    assert(whole.subrange(pos, pos + 4) =~= log.subrange(pos, pos + 4));
    assert(whole.subrange(pos + 4, pos + 8) =~= log.subrange(pos + 4, pos + 8));
    assert(whole.subrange(pos + 8, pos + 12) =~= log.subrange(pos + 8, pos + 12));
    let end = record_end(log, pos);
    let key_split = pos + HEADER_LEN + stored_key_len(log, pos);
    assert(whole.subrange(pos + HEADER_LEN, end) =~= log.subrange(pos + HEADER_LEN, end));
    assert(whole.subrange(pos + HEADER_LEN, key_split) =~= log.subrange(pos + HEADER_LEN, key_split));
    assert(whole.subrange(key_split, end) =~= log.subrange(key_split, end));
}

/// A freshly appended record decodes back to exactly the key and value it
/// was built from, and ends exactly at the new end of the log.
pub proof fn lemma_decode_appended(log: Seq<u8>, key: Seq<u8>, value: Seq<u8>)
    requires
        key.len() <= u32::MAX,
        value.len() <= u32::MAX,
    ensures
        ({
            let whole = log + record_bytes(key, value);
            let pos = log.len() as int;
            &&& frame_in_bounds(whole, pos)
            &&& stored_checksum(whole, pos) == crc32_of(key + value)
            &&& stored_key_len(whole, pos) == key.len()
            &&& stored_val_len(whole, pos) == value.len()
            &&& record_key(whole, pos) == key
            &&& record_value(whole, pos) == value
            &&& record_payload(whole, pos) == key + value
            &&& checksum_matches(whole, pos)
            &&& record_end(whole, pos) == whole.len()
            &&& decode_result(whole, pos) == Ok::<_, DecodeOutcome>((key, value, whole.len() as int))
        }),
{
    lemma_auto_spec_u32_to_from_le_bytes();
    let rec = record_bytes(key, value);
    let whole = log + rec;
    let pos = log.len() as int;
    assert(rec.len() == HEADER_LEN + key.len() + value.len());
    assert(whole.subrange(pos, pos + 4) =~= spec_u32_to_le_bytes(crc32_of(key + value)));
    assert(whole.subrange(pos + 4, pos + 8) =~= spec_u32_to_le_bytes(key.len() as u32));
    assert(whole.subrange(pos + 8, pos + 12) =~= spec_u32_to_le_bytes(value.len() as u32));
    assert(stored_key_len(whole, pos) == key.len());
    assert(stored_val_len(whole, pos) == value.len());
    let key_split = pos + HEADER_LEN + key.len();
    let end = pos + HEADER_LEN + key.len() + value.len();
    assert(whole.subrange(pos + HEADER_LEN, key_split) =~= key);
    assert(whole.subrange(key_split, end) =~= value);
    assert(whole.subrange(pos + HEADER_LEN, end) =~= key + value);
}

/// Encodes `key` and `value` as one on-disk record.
pub fn encode(key: &[u8], value: &[u8]) -> (r: Vec<u8>)
    requires
        key@.len() <= u32::MAX,
        value@.len() <= u32::MAX,
        HEADER_LEN + key@.len() + value@.len() <= usize::MAX,
    ensures
        r@ == record_bytes(key@, value@),
        r@.len() == HEADER_LEN + key@.len() + value@.len(),
{
    proof {
        lemma_auto_spec_u32_to_from_le_bytes();
    }
    let mut payload = slice_to_vec(key);
    let mut value_tail = slice_to_vec(value);
    payload.append(&mut value_tail);
    assert(payload@ == key@ + value@);
    let checksum = crc32_ieee(payload.as_slice());
    let mut r = u32_to_le_bytes(checksum);
    let mut key_len_bytes = u32_to_le_bytes(key.len() as u32);
    r.append(&mut key_len_bytes);
    let mut val_len_bytes = u32_to_le_bytes(value.len() as u32);
    r.append(&mut val_len_bytes);
    r.append(&mut payload);
    proof {
        assert(r@ =~= record_bytes(key@, value@));
    }
    r
}

/// Decodes one record of `log` at `pos`, returning the pair and the
/// position just after the record, or the reason no record could be read.
pub fn decode(log: &[u8], pos: usize) -> (r: Result<(KeyValuePair, usize), DecodeOutcome>)
    requires
        pos <= log@.len(),
    ensures
        match r {
            Ok(p) => decode_result(log@, pos as int) == Ok::<_, DecodeOutcome>(
                (p.0.key@, p.0.value@, p.1 as int),
            ) && pos < p.1 <= log@.len(),
            Err(e) => decode_result(log@, pos as int) == Err::<(Seq<u8>, Seq<u8>, int), _>(e),
        },
{
    proof {
        lemma_auto_spec_u32_to_from_le_bytes();
    }
    let n = log.len();
    if pos == n {
        return Err(DecodeOutcome::EndOfLog);
    }
    if n - pos < HEADER_LEN {
        return Err(
            DecodeOutcome::Truncated { declared: HEADER_LEN as u64, available: (n - pos) as u64 },
        );
    }
    let checksum = u32_from_le_bytes(slice_subrange(log, pos, pos + 4));
    let key_len = u32_from_le_bytes(slice_subrange(log, pos + 4, pos + 8));
    let val_len = u32_from_le_bytes(slice_subrange(log, pos + 8, pos + 12));
    let avail = n - (pos + HEADER_LEN);
    if key_len as usize > avail || val_len as usize > avail - key_len as usize {
        return Err(
            DecodeOutcome::Truncated {
                declared: HEADER_LEN as u64 + key_len as u64 + val_len as u64,
                available: (n - pos) as u64,
            },
        );
    }
    let key_start = pos + HEADER_LEN;
    let key_end = key_start + key_len as usize;
    let val_end = key_end + val_len as usize;
    let payload = slice_subrange(log, key_start, val_end);
    let actual = crc32_ieee(payload);
    if actual != checksum {
        return Err(DecodeOutcome::ChecksumMismatch { expected: checksum, actual });
    }
    let key = slice_to_vec(slice_subrange(log, key_start, key_end));
    let value = slice_to_vec(slice_subrange(log, key_end, val_end));
    Ok((KeyValuePair { key, value }, val_end))
}

} // verus!
