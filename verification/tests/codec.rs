use actionkv::codec::decode;
use actionkv::codec::encode;
use actionkv::DecodeOutcome;

// CRC-32/IEEE of b"123456789" is 0xCBF4_3926, the classic check value.
#[test]
fn encode_exact_bytes() {
    let record = encode(b"1234", b"56789");
    let mut expected: Vec<u8> = vec![0x26, 0x39, 0xF4, 0xCB, 4, 0, 0, 0, 5, 0, 0, 0];
    expected.extend_from_slice(b"123456789");
    assert_eq!(record, expected);
}

#[test]
fn encode_empty_key_and_value() {
    let record = encode(b"", b"");
    assert_eq!(record.len(), 12);
    assert_eq!(&record[4..12], &[0, 0, 0, 0, 0, 0, 0, 0]);
    let (kv, next) = decode(&record, 0).unwrap();
    assert_eq!(kv.key, b"");
    assert_eq!(kv.value, b"");
    assert_eq!(next, 12);
}

#[test]
fn decode_round_trips_encode() {
    let record = encode(b"name", b"adam");
    let (kv, next) = decode(&record, 0).unwrap();
    assert_eq!(kv.key, b"name");
    assert_eq!(kv.value, b"adam");
    assert_eq!(next, record.len());
}

#[test]
fn decode_empty_log_is_end_of_log() {
    assert_eq!(decode(&[], 0), Err(DecodeOutcome::EndOfLog));
}

#[test]
fn decode_at_end_is_end_of_log() {
    let record = encode(b"k", b"v");
    let n = record.len();
    assert_eq!(decode(&record, n), Err(DecodeOutcome::EndOfLog));
}

#[test]
fn decode_truncated_header() {
    let record = encode(b"k", b"v");
    assert_eq!(
        decode(&record[..5], 0),
        Err(DecodeOutcome::Truncated { declared: 12, available: 5 })
    );
}

#[test]
fn decode_truncated_payload() {
    let record = encode(b"key", b"value");
    // Header declares 3 + 5 payload bytes; cut the record two bytes short.
    let cut = &record[..record.len() - 2];
    assert_eq!(
        decode(cut, 0),
        Err(DecodeOutcome::Truncated { declared: 12 + 3 + 5, available: cut.len() as u64 })
    );
}

#[test]
fn decode_reports_checksum_mismatch() {
    let mut record = encode(b"key", b"value");
    record[12] ^= 0x01;
    match decode(&record, 0) {
        Err(DecodeOutcome::ChecksumMismatch { expected, actual }) => {
            assert_ne!(expected, actual);
        }
        other => panic!("expected a checksum mismatch, got {:?}", other),
    }
}

// Flipping any single bit of the payload must be caught by the checksum.
#[test]
fn decode_detects_every_payload_bit_flip() {
    let record = encode(b"name", b"adam");
    for byte in 12..record.len() {
        for bit in 0..8 {
            let mut bad = record.clone();
            bad[byte] ^= 1u8 << bit;
            match decode(&bad, 0) {
                Err(DecodeOutcome::ChecksumMismatch { expected, actual }) => {
                    assert_ne!(expected, actual);
                }
                other => panic!(
                    "bit {} of byte {} went undetected: {:?}",
                    bit, byte, other
                ),
            }
        }
    }
}
