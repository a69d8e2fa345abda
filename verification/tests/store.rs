use actionkv::codec::encode;
use actionkv::ActionKV;
use actionkv::DecodeOutcome;

#[test]
fn end_to_end() {
    let mut store = ActionKV::open(Vec::new());
    store.insert(b"name", b"adam");
    assert_eq!(store.get(b"name"), Ok(Some(b"adam".to_vec())));
    store.insert(b"name", b"adam-v2");
    assert_eq!(store.get(b"name"), Ok(Some(b"adam-v2".to_vec())));
    store.delete(b"name");
    assert_eq!(store.get(b"name"), Ok(Some(b"".to_vec())));
}

#[test]
fn round_trip_many_keys() {
    let mut store = ActionKV::open(Vec::new());
    store.insert(b"one", b"1");
    store.insert(b"two", b"22");
    store.insert(b"three", b"333");
    assert_eq!(store.get(b"one"), Ok(Some(b"1".to_vec())));
    assert_eq!(store.get(b"two"), Ok(Some(b"22".to_vec())));
    assert_eq!(store.get(b"three"), Ok(Some(b"333".to_vec())));
    assert_eq!(store.get(b"four"), Ok(None));
}

#[test]
fn last_write_wins() {
    let mut store = ActionKV::open(Vec::new());
    let first = store.insert(b"key", b"old");
    store.insert(b"key", b"new");
    assert_eq!(store.get(b"key"), Ok(Some(b"new".to_vec())));
    // The superseded record is still physically at the front of the log.
    assert_eq!(&store.log_bytes()[..first.len()], &first[..]);
    assert_eq!(first, encode(b"key", b"old"));
}

#[test]
fn insert_returns_appended_bytes() {
    let mut store = ActionKV::open(Vec::new());
    let r1 = store.insert(b"a", b"1");
    let r2 = store.insert(b"b", b"2");
    let mut expected = r1.clone();
    expected.extend_from_slice(&r2);
    assert_eq!(store.log_bytes(), &expected);
    assert_eq!(r1, encode(b"a", b"1"));
}

#[test]
fn reload_rebuilds_the_same_index() {
    let mut store = ActionKV::open(Vec::new());
    store.insert(b"one", b"1");
    store.insert(b"two", b"2");
    store.update(b"one", b"1b");
    store.delete(b"two");
    store.insert(b"three", b"3");

    let mut reopened = ActionKV::open(store.log_bytes().clone());
    assert_eq!(reopened.load(), Ok(()));
    for key in [b"one".as_slice(), b"two", b"three", b"missing"] {
        assert_eq!(reopened.get(key), store.get(key));
    }
}

#[test]
fn tombstone_is_present_and_empty() {
    let mut store = ActionKV::open(Vec::new());
    store.insert(b"key", b"value");
    store.delete(b"key");
    assert_eq!(store.get(b"key"), Ok(Some(Vec::new())));
}

#[test]
fn delete_of_missing_key_inserts_a_tombstone() {
    let mut store = ActionKV::open(Vec::new());
    store.delete(b"ghost");
    assert_eq!(store.get(b"ghost"), Ok(Some(Vec::new())));
}

#[test]
fn update_of_missing_key_behaves_like_insert() {
    let mut store = ActionKV::open(Vec::new());
    store.update(b"fresh", b"value");
    assert_eq!(store.get(b"fresh"), Ok(Some(b"value".to_vec())));
}

#[test]
fn get_before_load_finds_nothing() {
    let log = encode(b"key", b"value");
    let store = ActionKV::open(log);
    assert_eq!(store.get(b"key"), Ok(None));
}

#[test]
fn load_applies_last_write_wins() {
    let mut log = encode(b"key", b"old");
    log.extend_from_slice(&encode(b"key", b"new"));
    let mut store = ActionKV::open(log);
    assert_eq!(store.load(), Ok(()));
    assert_eq!(store.get(b"key"), Ok(Some(b"new".to_vec())));
}

#[test]
fn load_of_empty_log_succeeds() {
    let mut store = ActionKV::open(Vec::new());
    assert_eq!(store.load(), Ok(()));
    assert_eq!(store.get(b"anything"), Ok(None));
}

// Flipping any single bit of any record's payload makes load report a
// checksum mismatch instead of indexing past it.
#[test]
fn load_detects_every_payload_bit_flip() {
    let good = encode(b"name", b"adam");
    for byte in 12..good.len() {
        for bit in 0..8 {
            let mut bad = good.clone();
            bad[byte] ^= 1u8 << bit;
            let mut store = ActionKV::open(bad);
            match store.load() {
                Err(DecodeOutcome::ChecksumMismatch { expected, actual }) => {
                    assert_ne!(expected, actual);
                }
                other => panic!(
                    "bit {} of byte {} went undetected: {:?}",
                    bit, byte, other
                ),
            }
            assert_eq!(store.get(b"name"), Ok(None));
        }
    }
}

#[test]
fn load_fails_on_corruption_after_valid_records() {
    let mut log = encode(b"a", b"1");
    let mut second = encode(b"b", b"2");
    second[13] ^= 0x80;
    log.extend_from_slice(&second);
    let mut store = ActionKV::open(log);
    match store.load() {
        Err(DecodeOutcome::ChecksumMismatch { expected, actual }) => {
            assert_ne!(expected, actual);
        }
        other => panic!("expected a checksum mismatch, got {:?}", other),
    }
    // A failed load leaves the index empty, even for the sound record.
    assert_eq!(store.get(b"a"), Ok(None));
}

#[test]
fn load_fails_on_truncated_log() {
    let mut log = encode(b"key", b"value");
    log.truncate(log.len() - 1);
    let available = log.len() as u64;
    let mut store = ActionKV::open(log);
    assert_eq!(
        store.load(),
        Err(DecodeOutcome::Truncated { declared: 12 + 3 + 5, available })
    );
}
