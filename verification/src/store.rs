//! The log store: an append-only byte log and an in-memory index.
//!
//! The index maps each key to the offset of that key's most recent record
//! in the log. It is rebuilt, never persisted: `load` scans the log from
//! offset zero and keeps, for every key, the offset of the last record
//! seen. Writes always append; an update or delete is a new record, and
//! the superseded one stays behind as unreachable dead space.

use crate::codec::checksum_matches;
use crate::codec::crc32_of;
use crate::codec::decode;
use crate::codec::decode_result;
use crate::codec::encode;
use crate::codec::frame_in_bounds;
use crate::codec::lemma_decode_appended;
use crate::codec::lemma_decode_stable;
use crate::codec::record_bytes;
use crate::codec::record_key;
use crate::codec::record_payload;
use crate::codec::record_value;
use crate::codec::stored_checksum;
use crate::codec::DecodeOutcome;
use crate::codec::HEADER_LEN;
use vstd::prelude::*;
use vstd::slice::slice_to_vec;

verus! {

/// The mapping that a sequence of index entries stands for: each entry
/// binds its key to an offset, later entries overriding earlier ones.
pub open spec fn entries_map(s: Seq<(Vec<u8>, usize)>) -> Map<Seq<u8>, int>
    decreases s.len(),
{
    if s.len() == 0 {
        Map::empty()
    } else {
        entries_map(s.drop_last()).insert(s.last().0@, s.last().1 as int)
    }
}

/// No two entries bind the same key.
pub open spec fn entries_unique(s: Seq<(Vec<u8>, usize)>) -> bool {
    forall|i: int, j: int| 0 <= i < j < s.len() ==> s[i].0@ != s[j].0@
}

proof fn lemma_entries_map_contains(s: Seq<(Vec<u8>, usize)>, k: Seq<u8>)
    ensures
        entries_map(s).contains_key(k) <==> exists|i: int| 0 <= i < s.len() && s[i].0@ == k,
    decreases s.len(),
{
    if s.len() > 0 {
        lemma_entries_map_contains(s.drop_last(), k);
        if s.last().0@ == k {
            assert(s[s.len() - 1].0@ == k);
        } else if entries_map(s).contains_key(k) {
            let i = choose|i: int| 0 <= i < s.drop_last().len() && s.drop_last()[i].0@ == k;
            assert(s[i].0@ == k);
        } else if exists|i: int| 0 <= i < s.len() && s[i].0@ == k {
            let i = choose|i: int| 0 <= i < s.len() && s[i].0@ == k;
            assert(s.drop_last()[i].0@ == k);
        }
    }
}

proof fn lemma_entries_map_at(s: Seq<(Vec<u8>, usize)>, i: int)
    requires
        entries_unique(s),
        0 <= i < s.len(),
    ensures
        entries_map(s).contains_key(s[i].0@),
        entries_map(s)[s[i].0@] == s[i].1 as int,
    decreases s.len(),
{
    if i == s.len() - 1 {
        assert(s[i] == s.last());
    } else {
        assert(entries_unique(s.drop_last()));
        lemma_entries_map_at(s.drop_last(), i);
        assert(s.drop_last()[i] == s[i]);
        assert(s.last().0@ != s[i].0@);
    }
}

proof fn lemma_entries_map_update(s: Seq<(Vec<u8>, usize)>, i: int, e: (Vec<u8>, usize))
    requires
        entries_unique(s),
        0 <= i < s.len(),
        s[i].0@ == e.0@,
    ensures
        entries_unique(s.update(i, e)),
        entries_map(s.update(i, e)) == entries_map(s).insert(e.0@, e.1 as int),
    decreases s.len(),
{
    let t = s.update(i, e);
    assert forall|p: int, q: int| 0 <= p < q < t.len() implies t[p].0@ != t[q].0@ by {
        assert(s[p].0@ != s[q].0@);
    }
    if i == s.len() - 1 {
        assert(t.drop_last() =~= s.drop_last());
        assert(t.last() == e);
        assert(entries_map(t) =~= entries_map(s).insert(e.0@, e.1 as int));
    } else {
        assert(entries_unique(s.drop_last()));
        assert(s.drop_last()[i] == s[i]);
        lemma_entries_map_update(s.drop_last(), i, e);
        assert(t.drop_last() =~= s.drop_last().update(i, e));
        assert(t.last() == s.last());
        assert(s.last().0@ != e.0@);
        assert(entries_map(t) =~= entries_map(s).insert(e.0@, e.1 as int));
    }
}

/// The index that a scan of `log` from `pos` rebuilds, given the bindings
/// `idx` collected so far: every decoded record binds its key to its
/// offset, later records overriding earlier ones. The scan ends cleanly
/// at end-of-log and fails with the decode outcome of the first record it
/// cannot read.
pub open spec fn scan_from(log: Seq<u8>, pos: int, idx: Map<Seq<u8>, int>) -> Result<
    Map<Seq<u8>, int>,
    DecodeOutcome,
>
    recommends
        0 <= pos <= log.len(),
    decreases log.len() - pos,
    when 0 <= pos <= log.len()
{
    match decode_result(log, pos) {
        Err(DecodeOutcome::EndOfLog) => Ok(idx),
        Err(e) => Err(e),
        Ok(t) => scan_from(log, t.2, idx.insert(t.0, pos)),
    }
}

/// The index that a full scan of `log` rebuilds.
pub open spec fn log_index(log: Seq<u8>) -> Result<Map<Seq<u8>, int>, DecodeOutcome> {
    scan_from(log, 0, Map::empty())
}

/// What looking `key` up over `log` and index `idx` yields: the value of
/// the record at the indexed offset, nothing for an unindexed key.
pub open spec fn store_lookup(log: Seq<u8>, idx: Map<Seq<u8>, int>, key: Seq<u8>) -> Option<
    Seq<u8>,
> {
    if idx.contains_key(key) {
        Some(record_value(log, idx[key]))
    } else {
        None
    }
}

/// Appending one record moves a clean scan forward by exactly one
/// binding: the new key now maps to the appended record's offset, and
/// every other binding is untouched.
pub proof fn lemma_scan_append(
    log: Seq<u8>,
    pos: int,
    idx: Map<Seq<u8>, int>,
    key: Seq<u8>,
    value: Seq<u8>,
)
    requires
        0 <= pos <= log.len(),
        scan_from(log, pos, idx) is Ok,
        key.len() <= u32::MAX,
        value.len() <= u32::MAX,
    ensures
        scan_from(log + record_bytes(key, value), pos, idx) == Ok::<_, DecodeOutcome>(
            scan_from(log, pos, idx)->Ok_0.insert(key, log.len() as int),
        ),
    decreases log.len() - pos,
{
    let whole = log + record_bytes(key, value);
    match decode_result(log, pos) {
        Err(DecodeOutcome::EndOfLog) => {
            assert(pos == log.len());
            assert(scan_from(log, pos, idx) == Ok::<_, DecodeOutcome>(idx));
            lemma_decode_appended(log, key, value);
            assert(decode_result(whole, whole.len() as int) == Err::<(Seq<u8>, Seq<u8>, int), _>(
                DecodeOutcome::EndOfLog,
            ));
            assert(scan_from(whole, whole.len() as int, idx.insert(key, pos)) == Ok::<
                _,
                DecodeOutcome,
            >(idx.insert(key, pos)));
            assert(decode_result(whole, pos) == Ok::<_, DecodeOutcome>(
                (key, value, whole.len() as int),
            ));
            assert(scan_from(whole, pos, idx) == scan_from(
                whole,
                whole.len() as int,
                idx.insert(key, pos),
            ));
        },
        Err(e) => {
            assert(false);
        },
        Ok(t) => {
            lemma_decode_stable(log, record_bytes(key, value), pos);
            assert(decode_result(whole, pos) == Ok::<_, DecodeOutcome>(t));
            lemma_scan_append(log, t.2, idx.insert(t.0, pos), key, value);
            assert(scan_from(whole, pos, idx) == scan_from(whole, t.2, idx.insert(t.0, pos)));
            assert(scan_from(log, pos, idx) == scan_from(log, t.2, idx.insert(t.0, pos)));
        },
    }
}

/// Compares two byte strings.
fn bytes_eq(a: &[u8], b: &[u8]) -> (r: bool)
    ensures
        r <==> a@ == b@,
{
    if a.len() != b.len() {
        return false;
    }
    let mut i: usize = 0;
    while i < a.len()
        invariant
            i <= a@.len(),
            a@.len() == b@.len(),
            forall|j: int| 0 <= j < i ==> a@[j] == b@[j],
        decreases a@.len() - i,
    {
        if a[i] != b[i] {
            return false;
        }
        i = i + 1;
    }
    proof {
        assert(a@ =~= b@);
    }
    true
}

/// An open store: the byte log and the index over it.
pub struct ActionKV {
    log: Vec<u8>,
    index: Vec<(Vec<u8>, usize)>,
}

impl ActionKV {
    /// The bytes of the log.
    pub closed spec fn log_view(self) -> Seq<u8> {
        self.log@
    }

    /// The index as a mapping from key to offset.
    pub closed spec fn index_view(self) -> Map<Seq<u8>, int> {
        entries_map(self.index@)
    }

    /// Internal consistency: index entries are unique, and every indexed
    /// offset holds a whole record whose key is the index key.
    pub closed spec fn wf(self) -> bool {
        &&& entries_unique(self.index@)
        &&& forall|k: Seq<u8>| #[trigger]
            self.index_view().contains_key(k) ==> frame_in_bounds(self.log@, self.index_view()[k])
                && record_key(self.log@, self.index_view()[k]) == k
    }

    /// Looks `key` up in the index.
    fn index_find(&self, key: &[u8]) -> (r: Option<usize>)
        requires
            entries_unique(self.index@),
        ensures
            match r {
                Some(p) => self.index_view().contains_key(key@) && self.index_view()[key@]
                    == p as int,
                None => !self.index_view().contains_key(key@),
            },
    {
        let mut i: usize = 0;
        while i < self.index.len()
            invariant
                entries_unique(self.index@),
                i <= self.index@.len(),
                forall|j: int| 0 <= j < i ==> self.index@[j].0@ != key@,
            decreases self.index@.len() - i,
        {
            if bytes_eq(self.index[i].0.as_slice(), key) {
                proof {
                    lemma_entries_map_at(self.index@, i as int);
                }
                return Some(self.index[i].1);
            }
            i = i + 1;
        }
        proof {
            lemma_entries_map_contains(self.index@, key@);
        }
        None
    }

    /// Binds `key` to `offset` in the index, replacing any earlier binding.
    fn index_put(&mut self, key: &[u8], offset: usize)
        requires
            entries_unique(old(self).index@),
        ensures
            entries_unique(final(self).index@),
            final(self).index_view() == old(self).index_view().insert(key@, offset as int),
            final(self).log == old(self).log,
    {
        let entry = (slice_to_vec(key), offset);
        let mut i: usize = 0;
        while i < self.index.len()
            invariant
                entries_unique(self.index@),
                self.index == old(self).index,
                self.log == old(self).log,
                entry.0@ == key@,
                entry.1 == offset,
                i <= self.index@.len(),
                forall|j: int| 0 <= j < i ==> self.index@[j].0@ != key@,
            decreases self.index@.len() - i,
        {
            if bytes_eq(self.index[i].0.as_slice(), key) {
                proof {
                    lemma_entries_map_update(self.index@, i as int, entry);
                }
                self.index.set(i, entry);
                return ;
            }
            i = i + 1;
        }
        proof {
            lemma_entries_map_contains(self.index@, key@);
            assert(self.index@.push(entry).drop_last() =~= self.index@);
        }
        self.index.push(entry);
        proof {
            assert forall|p: int, q: int|
                0 <= p < q < self.index@.len() implies self.index@[p].0@ != self.index@[q].0@ by {
                if q < self.index@.len() - 1 {
                    assert(old(self).index@[p].0@ != old(self).index@[q].0@);
                } else {
                    assert(old(self).index@[p].0@ != key@);
                }
            }
        }
    }

    /// Opens a store over the given log bytes with an empty index.
    /// Scanning the log is a separate, explicit step: `load`.
    pub fn open(log: Vec<u8>) -> (s: Self)
        ensures
            s.log_view() == log@,
            s.index_view() == Map::<Seq<u8>, int>::empty(),
            s.wf(),
    {
        let s = ActionKV { log, index: Vec::new() };
        proof {
            assert(s.index_view() =~= Map::<Seq<u8>, int>::empty());
        }
        s
    }

    /// The raw bytes of the log.
    pub fn log_bytes(&self) -> (r: &Vec<u8>)
        ensures
            r@ == self.log_view(),
    {
        &self.log
    }

    /// Rebuilds the index by scanning the whole log from offset zero,
    /// keeping for every key the offset of its last record. Succeeds
    /// exactly when every record up to the end of the log decodes; on the
    /// first record that does not, the scan stops, its outcome is
    /// returned, and the index is left empty.
    pub fn load(&mut self) -> (r: Result<(), DecodeOutcome>)
        ensures
            final(self).log_view() == old(self).log_view(),
            final(self).wf(),
            match r {
                Ok(()) => log_index(final(self).log_view()) == Ok::<_, DecodeOutcome>(
                    final(self).index_view(),
                ),
                Err(e) => log_index(final(self).log_view()) == Err::<Map<Seq<u8>, int>, _>(e)
                    && final(self).index_view() == Map::<Seq<u8>, int>::empty(),
            },
    {
        self.index = Vec::new();
        proof {
            assert(self.index_view() =~= Map::<Seq<u8>, int>::empty());
        }
        let mut pos: usize = 0;
        loop
            invariant
                pos <= self.log@.len(),
                self.log@ == old(self).log@,
                entries_unique(self.index@),
                scan_from(self.log@, pos as int, self.index_view()) == log_index(self.log@),
                forall|k: Seq<u8>| #[trigger]
                    self.index_view().contains_key(k) ==> frame_in_bounds(
                        self.log@,
                        self.index_view()[k],
                    ) && record_key(self.log@, self.index_view()[k]) == k,
            decreases self.log@.len() - pos,
        {
            match decode(self.log.as_slice(), pos) {
                Err(e) => match e {
                    DecodeOutcome::EndOfLog => {
                        return Ok(());
                    },
                    _ => {
                        self.index = Vec::new();
                        proof {
                            assert(self.index_view() =~= Map::<Seq<u8>, int>::empty());
                        }
                        return Err(e);
                    },
                },
                Ok((kv, next)) => {
                    proof {
                        assert(scan_from(self.log@, pos as int, self.index_view()) == scan_from(
                            self.log@,
                            next as int,
                            self.index_view().insert(kv.key@, pos as int),
                        ));
                    }
                    self.index_put(kv.key.as_slice(), pos);
                    pos = next;
                },
            }
        }
    }

    /// Looks a key up: nothing for a key the index does not hold; else
    /// the value of the record at the indexed offset, re-read from the
    /// log and revalidated. A checksum mismatch at an indexed offset is
    /// reported, never swallowed.
    pub fn get(&self, key: &[u8]) -> (r: Result<Option<Vec<u8>>, DecodeOutcome>)
        requires
            self.wf(),
        ensures
            match r {
                Ok(v) => match v {
                    Some(value) => self.index_view().contains_key(key@) && checksum_matches(
                        self.log_view(),
                        self.index_view()[key@],
                    ) && value@ == record_value(self.log_view(), self.index_view()[key@]),
                    None => !self.index_view().contains_key(key@),
                },
                Err(e) => self.index_view().contains_key(key@) && !checksum_matches(
                    self.log_view(),
                    self.index_view()[key@],
                ) && e == (DecodeOutcome::ChecksumMismatch {
                    expected: stored_checksum(self.log_view(), self.index_view()[key@]),
                    actual: crc32_of(record_payload(self.log_view(), self.index_view()[key@])),
                }),
            },
            r is Ok ==> r->Ok_0.deep_view() == store_lookup(
                self.log_view(),
                self.index_view(),
                key@,
            ),
    {
        let position = match self.index_find(key) {
            None => {
                return Ok(None);
            },
            Some(position) => position,
        };
        match decode(self.log.as_slice(), position) {
            Ok((kv, _next)) => Ok(Some(kv.value)),
            Err(e) => Err(e),
        }
    }

    /// Appends a record for the pair and points the index at it; any
    /// record the key had before stays in the log as dead space. Returns
    /// the appended bytes, so that a caller keeping the log on disk can
    /// append the same bytes there.
    pub fn insert(&mut self, key: &[u8], value: &[u8]) -> (r: Vec<u8>)
        requires
            old(self).wf(),
            key@.len() <= u32::MAX,
            value@.len() <= u32::MAX,
            old(self).log_view().len() + HEADER_LEN + key@.len() + value@.len() <= usize::MAX,
        ensures
            final(self).wf(),
            r@ == record_bytes(key@, value@),
            final(self).log_view() == old(self).log_view() + record_bytes(key@, value@),
            final(self).index_view() == old(self).index_view().insert(
                key@,
                old(self).log_view().len() as int,
            ),
            log_index(old(self).log_view()) == Ok::<_, DecodeOutcome>(old(self).index_view())
                ==> log_index(final(self).log_view()) == Ok::<_, DecodeOutcome>(
                final(self).index_view(),
            ),
    {
        let record = encode(key, value);
        let offset = self.log.len();
        let mut i: usize = 0;
        while i < record.len()
            invariant
                i <= record@.len(),
                self.log@ == old(self).log@ + record@.subrange(0, i as int),
                self.index == old(self).index,
                record@.len() + old(self).log@.len() <= usize::MAX,
            decreases record@.len() - i,
        {
            let byte = record[i];
            self.log.push(byte);
            proof {
                assert(record@.subrange(0, i + 1) =~= record@.subrange(0, i as int).push(
                    record@[i as int],
                ));
            }
            i = i + 1;
        }
        proof {
            assert(record@.subrange(0, record@.len() as int) =~= record@);
            assert(self.log@ == old(self).log@ + record_bytes(key@, value@));
        }
        self.index_put(key, offset);
        proof {
            let old_log = old(self).log@;
            let old_idx = old(self).index_view();
            let rec = record_bytes(key@, value@);
            lemma_decode_appended(old_log, key@, value@);
            assert forall|k: Seq<u8>| #[trigger]
                self.index_view().contains_key(k) implies frame_in_bounds(
                self.log@,
                self.index_view()[k],
            ) && record_key(self.log@, self.index_view()[k]) == k by {
                if k == key@ {
                } else {
                    assert(old_idx.contains_key(k));
                    lemma_decode_stable(old_log, rec, old_idx[k]);
                }
            }
            if log_index(old_log) == Ok::<_, DecodeOutcome>(old_idx) {
                lemma_scan_append(old_log, 0, Map::empty(), key@, value@);
            }
        }
        record
    }

    /// An alias of `insert`: a new record is appended and the index is
    /// redirected to it, whether or not the key was present before.
    pub fn update(&mut self, key: &[u8], value: &[u8]) -> (r: Vec<u8>)
        requires
            old(self).wf(),
            key@.len() <= u32::MAX,
            value@.len() <= u32::MAX,
            old(self).log_view().len() + HEADER_LEN + key@.len() + value@.len() <= usize::MAX,
        ensures
            final(self).wf(),
            r@ == record_bytes(key@, value@),
            final(self).log_view() == old(self).log_view() + record_bytes(key@, value@),
            final(self).index_view() == old(self).index_view().insert(
                key@,
                old(self).log_view().len() as int,
            ),
            log_index(old(self).log_view()) == Ok::<_, DecodeOutcome>(old(self).index_view())
                ==> log_index(final(self).log_view()) == Ok::<_, DecodeOutcome>(
                final(self).index_view(),
            ),
    {
        self.insert(key, value)
    }

    /// Appends a tombstone: a record for the key with an empty value, the
    /// index redirected to it. The key stays in the index, so a later
    /// lookup finds it present with an empty value rather than absent.
    pub fn delete(&mut self, key: &[u8]) -> (r: Vec<u8>)
        requires
            old(self).wf(),
            key@.len() <= u32::MAX,
            old(self).log_view().len() + HEADER_LEN + key@.len() <= usize::MAX,
        ensures
            final(self).wf(),
            r@ == record_bytes(key@, Seq::<u8>::empty()),
            final(self).log_view() == old(self).log_view() + record_bytes(
                key@,
                Seq::<u8>::empty(),
            ),
            final(self).index_view() == old(self).index_view().insert(
                key@,
                old(self).log_view().len() as int,
            ),
            log_index(old(self).log_view()) == Ok::<_, DecodeOutcome>(old(self).index_view())
                ==> log_index(final(self).log_view()) == Ok::<_, DecodeOutcome>(
                final(self).index_view(),
            ),
    {
        let tombstone: Vec<u8> = Vec::new();
        proof {
            assert(tombstone@ =~= Seq::<u8>::empty());
        }
        self.insert(key, tombstone.as_slice())
    }
}

/// Round trip: appending a record for `key` and `value` and pointing the
/// index at it — what `insert` does — makes a lookup of `key` yield
/// exactly `value`.
pub proof fn lemma_round_trip(log: Seq<u8>, idx: Map<Seq<u8>, int>, key: Seq<u8>, value: Seq<u8>)
    requires
        key.len() <= u32::MAX,
        value.len() <= u32::MAX,
    ensures
        ({
            let new_log = log + record_bytes(key, value);
            let new_idx = idx.insert(key, log.len() as int);
            &&& new_idx.contains_key(key)
            &&& checksum_matches(new_log, new_idx[key])
            &&& store_lookup(new_log, new_idx, key) == Some(value)
        }),
{
    lemma_decode_appended(log, key, value);
}

/// Last write wins: writing `v1` then `v2` for one key leaves the lookup
/// at `v2`, while the superseded record for `v1` stays physically in the
/// log, unreachable through the index.
pub proof fn lemma_last_write_wins(
    log: Seq<u8>,
    idx: Map<Seq<u8>, int>,
    key: Seq<u8>,
    v1: Seq<u8>,
    v2: Seq<u8>,
)
    requires
        key.len() <= u32::MAX,
        v1.len() <= u32::MAX,
        v2.len() <= u32::MAX,
    ensures
        ({
            let log1 = log + record_bytes(key, v1);
            let idx1 = idx.insert(key, log.len() as int);
            let log2 = log1 + record_bytes(key, v2);
            let idx2 = idx1.insert(key, log1.len() as int);
            &&& checksum_matches(log2, idx2[key])
            &&& store_lookup(log2, idx2, key) == Some(v2)
            &&& log2.subrange(log.len() as int, log1.len() as int) == record_bytes(key, v1)
            &&& frame_in_bounds(log2, log.len() as int)
            &&& record_key(log2, log.len() as int) == key
            &&& record_value(log2, log.len() as int) == v1
        }),
{
    let log1 = log + record_bytes(key, v1);
    let log2 = log1 + record_bytes(key, v2);
    lemma_decode_appended(log, key, v1);
    lemma_decode_appended(log1, key, v2);
    lemma_decode_stable(log1, record_bytes(key, v2), log.len() as int);
    assert(log2.subrange(log.len() as int, log1.len() as int) =~= record_bytes(key, v1));
}

/// Reload consistency: for a store whose index is the one a scan of its
/// log rebuilds — as `load` ensures, and as the write operations
/// preserve — closing the store and scanning the same log again rebuilds
/// exactly that index, so every lookup answers as before.
pub proof fn lemma_reload_consistency(log: Seq<u8>, idx: Map<Seq<u8>, int>, key: Seq<u8>)
    requires
        log_index(log) == Ok::<_, DecodeOutcome>(idx),
    ensures
        log_index(log) is Ok,
        log_index(log)->Ok_0 == idx,
        store_lookup(log, log_index(log)->Ok_0, key) == store_lookup(log, idx, key),
{
}

/// Tombstone semantics: after a delete — an appended record with an
/// empty value — the key is still present, and a lookup yields the empty
/// value, not absence.
pub proof fn lemma_tombstone(log: Seq<u8>, idx: Map<Seq<u8>, int>, key: Seq<u8>)
    requires
        key.len() <= u32::MAX,
    ensures
        ({
            let new_log = log + record_bytes(key, Seq::<u8>::empty());
            let new_idx = idx.insert(key, log.len() as int);
            &&& new_idx.contains_key(key)
            &&& checksum_matches(new_log, new_idx[key])
            &&& store_lookup(new_log, new_idx, key) == Some(Seq::<u8>::empty())
        }),
{
    lemma_round_trip(log, idx, key, Seq::<u8>::empty());
}

} // verus!
