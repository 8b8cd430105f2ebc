//! The Bitcask store's state: the index, the active segment, and a ghost model
//! of the bytes of every segment.
//!
//! The store does not touch files. Each change comes in two steps: `prepare_*`
//! returns the bytes to append to the active segment, and once the caller has
//! appended them, `commit` updates the index.
use vstd::prelude::*;
use vstd::utf8::*;

use crate::codec::{
    decode_at, encodable, encode, is_tombstone, key_len_of, lemma_parse_record_bytes, parse_record,
    record_bytes, tombstone, tombstone_spec, val_len_of, DecodeOutcome, LogEntry, Parsed, Record,
    HEADER_LEN,
};
use crate::error::HobbesError;
use crate::index::{IndexEntry, KeyIndex};

verus! {

broadcast use {encode_utf8_valid_utf8, encode_utf8_decode_utf8, decode_utf8_encode_utf8};

/// Size in bytes at which a segment is full.
pub const MAX_FILE_SIZE: u64 = 1000000;

/// The bytes of `e`'s segment from `e`'s offset on.
pub open spec fn suffix_at(disk: Map<u64, Seq<u8>>, e: IndexEntry) -> Seq<u8> {
    disk[e.segment_id].subrange(e.offset as int, disk[e.segment_id].len() as int)
}

/// `e` points at a live record of key `k` in `disk`.
pub open spec fn locates(disk: Map<u64, Seq<u8>>, k: Seq<char>, e: IndexEntry) -> bool {
    &&& disk.contains_key(e.segment_id)
    &&& e.offset <= disk[e.segment_id].len()
    &&& parse_record(suffix_at(disk, e)) matches Parsed::Complete(r, _) && r.key == k && r.val
        != tombstone_spec() && r.timestamp == e.timestamp
    &&& encode_utf8(k).len() <= u32::MAX
}

/// The value of the record that `e` points at.
pub open spec fn value_at(disk: Map<u64, Seq<u8>>, e: IndexEntry) -> Seq<char> {
    match parse_record(suffix_at(disk, e)) {
        Parsed::Complete(r, _) => r.val,
        _ => Seq::empty(),
    }
}

/// Every entry of `index` points at a live record of its key.
pub open spec fn index_sound(disk: Map<u64, Seq<u8>>, index: Map<Seq<char>, IndexEntry>) -> bool {
    forall|k: Seq<char>| #[trigger] index.contains_key(k) ==> locates(disk, k, index[k])
}

/// The key-value map that `index` and `disk` hold together.
pub open spec fn contents_of(disk: Map<u64, Seq<u8>>, index: Map<Seq<char>, IndexEntry>) -> Map<
    Seq<char>,
    Seq<char>,
> {
    Map::new(|k: Seq<char>| index.contains_key(k), |k: Seq<char>| value_at(disk, index[k]))
}

/// A record is read the same from any bytes that start with it.
proof fn lemma_parse_prefix(b1: Seq<u8>, b2: Seq<u8>)
    requires
        parse_record(b1) is Complete,
        parse_record(b1)->Complete_1 <= b2.len(),
        b1.subrange(0, parse_record(b1)->Complete_1 as int) == b2.subrange(
            0,
            parse_record(b1)->Complete_1 as int,
        ),
    ensures
        parse_record(b2) == parse_record(b1),
{
    let n = parse_record(b1)->Complete_1 as int;
    let p = b1.subrange(0, n);
    assert(b1.subrange(0, 4) =~= p.subrange(0, 4));
    assert(b2.subrange(0, 4) =~= p.subrange(0, 4));
    assert(b1.subrange(4, 8) =~= p.subrange(4, 8));
    assert(b2.subrange(4, 8) =~= p.subrange(4, 8));
    assert(b1.subrange(8, 16) =~= p.subrange(8, 16));
    assert(b2.subrange(8, 16) =~= p.subrange(8, 16));
    let kl = key_len_of(b1);
    let vl = val_len_of(b1);
    assert(b1.subrange(16, 16 + kl) =~= p.subrange(16, 16 + kl));
    assert(b2.subrange(16, 16 + kl) =~= p.subrange(16, 16 + kl));
    assert(b1.subrange(16 + kl, 16 + kl + vl) =~= p.subrange(16 + kl, 16 + kl + vl));
    assert(b2.subrange(16 + kl, 16 + kl + vl) =~= p.subrange(16 + kl, 16 + kl + vl));
}

/// The key of a parsed record fits a header again.
proof fn lemma_parsed_encodable(b: Seq<u8>)
    requires
        parse_record(b) is Complete,
    ensures
        encodable(parse_record(b)->Complete_0),
{
    let kl = key_len_of(b);
    let vl = val_len_of(b);
    let kb = b.subrange(16, 16 + kl);
    let vb = b.subrange(16 + kl, 16 + kl + vl);
    assert(encode_utf8(decode_utf8(kb)) == kb);
    assert(encode_utf8(decode_utf8(vb)) == vb);
}

/// Appending to a segment keeps every entry's record where it was.
proof fn lemma_locates_append(disk: Map<u64, Seq<u8>>, s: u64, x: Seq<u8>, k: Seq<char>, e: IndexEntry)
    requires
        disk.contains_key(s),
        locates(disk, k, e),
    ensures
        locates(disk.insert(s, disk[s] + x), k, e),
        value_at(disk.insert(s, disk[s] + x), e) == value_at(disk, e),
{
    let d2 = disk.insert(s, disk[s] + x);
    if e.segment_id == s {
        let b1 = suffix_at(disk, e);
        let b2 = suffix_at(d2, e);
        assert(b2 =~= b1 + x);
        let n = parse_record(b1)->Complete_1 as int;
        assert(b1.subrange(0, n) =~= b2.subrange(0, n));
        lemma_parse_prefix(b1, b2);
    } else {
        assert(suffix_at(d2, e) == suffix_at(disk, e));
    }
}

/// Every entry that `disk` and `index` hold is still sound after `s` grows by `x`.
proof fn lemma_sound_append(
    disk: Map<u64, Seq<u8>>,
    index: Map<Seq<char>, IndexEntry>,
    s: u64,
    x: Seq<u8>,
)
    requires
        disk.contains_key(s),
        index_sound(disk, index),
    ensures
        index_sound(disk.insert(s, disk[s] + x), index),
        contents_of(disk.insert(s, disk[s] + x), index) == contents_of(disk, index),
{
    let d2 = disk.insert(s, disk[s] + x);
    assert forall|k: Seq<char>| #[trigger] index.contains_key(k) implies locates(d2, k, index[k])
        && value_at(d2, index[k]) == value_at(disk, index[k]) by {
        lemma_locates_append(disk, s, x, k, index[k]);
    }
    assert(contents_of(d2, index) =~= contents_of(disk, index));
}

/// The contents after writing `v` under `k`: a tombstone value deletes `k`.
pub open spec fn applied(c: Map<Seq<char>, Seq<char>>, k: Seq<char>, v: Seq<char>) -> Map<
    Seq<char>,
    Seq<char>,
> {
    if v == tombstone_spec() {
        c.remove(k)
    } else {
        c.insert(k, v)
    }
}

/// After a key is set to a value, the store holds that value under the key.
pub proof fn lemma_set_then_get(c: Map<Seq<char>, Seq<char>>, k: Seq<char>, v: Seq<char>)
    requires
        v != tombstone_spec(),
    ensures
        applied(c, k, v).get(k) == Some(v),
{
}

/// Of two writes to one key, the later one is what the store holds.
pub proof fn lemma_last_writer_wins(
    c: Map<Seq<char>, Seq<char>>,
    k: Seq<char>,
    v1: Seq<char>,
    v2: Seq<char>,
)
    requires
        v2 != tombstone_spec(),
    ensures
        applied(applied(c, k, v1), k, v2).get(k) == Some(v2),
{
}

/// A key that was set and then removed is absent, so a second removal finds
/// nothing to remove.
pub proof fn lemma_set_then_remove(c: Map<Seq<char>, Seq<char>>, k: Seq<char>, v: Seq<char>)
    ensures
        applied(applied(c, k, v), k, tombstone_spec()).get(k) is None,
        !applied(applied(c, k, v), k, tombstone_spec()).contains_key(k),
{
}

/// One empty segment replays to an empty index and holds whole records.
proof fn lemma_fresh_durable(disk: Map<u64, Seq<u8>>, ids: Seq<u64>, id: u64)
    requires
        disk == Map::<u64, Seq<u8>>::empty().insert(id, Seq::<u8>::empty()),
        ids == Seq::<u64>::empty().push(id),
    ensures
        replay_list(disk, ids) == Map::<Seq<char>, IndexEntry>::empty(),
        clean(Seq::<u8>::empty()),
        ascending(ids),
        forall|j: u64| disk.contains_key(j) <==> ids.contains(j),
{
    assert(ids.drop_last() =~= Seq::<u64>::empty());
    assert(replay_list(disk, ids.drop_last()) == Map::<Seq<char>, IndexEntry>::empty());
    assert(ids.last() == id);
    assert(disk[id] == Seq::<u8>::empty());
    assert(Seq::<u8>::empty().subrange(0, 0) =~= Seq::<u8>::empty());
    assert(parse_record(Seq::<u8>::empty()) == Parsed::Truncated);
    assert(replay_from(Map::<Seq<char>, IndexEntry>::empty(), id, Seq::<u8>::empty(), 0)
        == Map::<Seq<char>, IndexEntry>::empty());
    assert(clean_end(Seq::<u8>::empty(), 0) == Some(0int));
    assert forall|j: u64| disk.contains_key(j) <==> ids.contains(j) by {
        if j == id {
            assert(ids[0] == j);
        }
    }
}

/// A write that has been encoded but not yet applied: the bytes to append to
/// the active segment, and what they change once appended.
pub struct PendingWrite {
    key: String,
    removal: bool,
    timestamp: u64,
    bytes: Vec<u8>,
    value: Ghost<Seq<char>>,
}

impl PendingWrite {
    /// The key written.
    pub closed spec fn key(&self) -> Seq<char> {
        self.key@
    }

    /// The value written; the tombstone marker for a removal.
    pub closed spec fn value(&self) -> Seq<char> {
        self.value@
    }

    pub closed spec fn timestamp(&self) -> u64 {
        self.timestamp
    }

    pub closed spec fn spec_bytes(&self) -> Seq<u8> {
        self.bytes@
    }

    /// The bytes are the record of key, value and timestamp.
    pub closed spec fn wf(&self) -> bool {
        &&& self.bytes@ == record_bytes(
            Record { key: self.key@, val: self.value@, timestamp: self.timestamp },
        )
        &&& encodable(Record { key: self.key@, val: self.value@, timestamp: self.timestamp })
        &&& self.removal == (self.value@ == tombstone_spec())
    }

    /// Whether this write deletes its key.
    pub open spec fn deletes(&self) -> bool {
        self.value() == tombstone_spec()
    }

    /// The bytes to append to the active segment.
    pub fn bytes(&self) -> (r: &[u8])
        ensures
            r@ == self.spec_bytes(),
    {
        self.bytes.as_slice()
    }

    /// The timestamp recorded with the write.
    pub fn get_timestamp(&self) -> (r: u64)
        ensures
            r == self.timestamp(),
    {
        self.timestamp
    }
}

/// The state of an open store.
pub struct Bitcask {
    index: KeyIndex,
    current_id: u64,
    active_len: u64,
    last_timestamp: u64,
    disk: Ghost<Map<u64, Seq<u8>>>,
    ids: Ghost<Seq<u64>>,
}

impl Bitcask {
    /// The bytes of each segment, as this state has written or read them.
    pub closed spec fn disk(&self) -> Map<u64, Seq<u8>> {
        self.disk@
    }

    /// The index, as a map.
    pub closed spec fn index(&self) -> Map<Seq<char>, IndexEntry> {
        self.index@
    }

    /// The id of the active segment.
    pub closed spec fn active_id(&self) -> u64 {
        self.current_id
    }

    /// The greatest timestamp written or read so far.
    pub closed spec fn clock(&self) -> u64 {
        self.last_timestamp
    }

    /// What the store holds: each live key and its latest value.
    pub open spec fn contents(&self) -> Map<Seq<char>, Seq<char>> {
        contents_of(self.disk(), self.index())
    }

    /// The ids of the segments, in the order they were created.
    pub closed spec fn segment_ids(&self) -> Seq<u64> {
        self.ids@
    }

    /// What a reopen relies on: the segments, taken in ascending order of
    /// id, hold whole records and replay to exactly the index, and no entry
    /// of the index is newer than the clock.
    pub closed spec fn durable(&self) -> bool {
        &&& ascending(self.ids@)
        &&& self.ids@.len() > 0
        &&& self.ids@.last() == self.current_id
        &&& forall|id: u64| self.disk@.contains_key(id) <==> self.ids@.contains(id)
        &&& forall|i: int| 0 <= i < self.ids@.len() ==> clean(#[trigger] self.disk@[self.ids@[i]])
        &&& self.index@ == replay_list(self.disk@, self.ids@)
        &&& forall|k: Seq<char>| #[trigger]
            self.index@.contains_key(k) ==> self.index@[k].timestamp <= self.last_timestamp
    }

    /// The active segment is known and its length recorded; the index is
    /// sound against the segments' bytes.
    pub closed spec fn wf(&self) -> bool {
        &&& self.index.wf()
        &&& self.disk@.contains_key(self.current_id)
        &&& self.disk@[self.current_id].len() == self.active_len
        &&& index_sound(self.disk@, self.index@)
        &&& self.disk@.dom().finite()
    }

    /// Every key the store holds points at a live record of that key, so no
    /// key holds the tombstone marker as its value.
    pub proof fn lemma_no_tombstone_values(&self)
        requires
            self.wf(),
        ensures
            self.disk().contains_key(self.active_id()),
            index_sound(self.disk(), self.index()),
            forall|k: Seq<char>| #[trigger]
                self.contents().contains_key(k) ==> self.contents()[k] != tombstone_spec(),
    {
        assert forall|k: Seq<char>| #[trigger] self.contents().contains_key(k) implies self.contents()[
            k] != tombstone_spec() by {
            assert(locates(self.disk(), k, self.index()[k]));
        }
    }

    /// A fresh store: one empty active segment with id 1, nothing in it.
    pub fn new() -> (r: Bitcask)
        ensures
            r.wf(),
            r.durable(),
            r.active_id() == 1,
            r.disk() == Map::<u64, Seq<u8>>::empty().insert(1u64, Seq::<u8>::empty()),
            r.contents() == Map::<Seq<char>, Seq<char>>::empty(),
    {
        let r = Bitcask {
            index: KeyIndex::new(),
            current_id: 1,
            active_len: 0,
            last_timestamp: 0,
            disk: Ghost(Map::<u64, Seq<u8>>::empty().insert(1u64, Seq::<u8>::empty())),
            ids: Ghost(Seq::<u64>::empty().push(1u64)),
        };
        assert(r.contents() =~= Map::<Seq<char>, Seq<char>>::empty());
        proof {
            lemma_fresh_durable(r.disk@, r.ids@, 1);
        }
        r
    }

    /// The id of the segment that writes go to.
    pub fn active_segment(&self) -> (r: u64)
        ensures
            r == self.active_id(),
    {
        self.current_id
    }

    /// The length in bytes of the active segment.
    pub fn active_len(&self) -> (r: u64)
        requires
            self.wf(),
        ensures
            r == self.disk()[self.active_id()].len(),
    {
        self.active_len
    }

    /// Whether the active segment has reached the size at which the store is compacted.
    pub fn compaction_due(&self) -> (r: bool)
        requires
            self.wf(),
        ensures
            r == (self.disk()[self.active_id()].len() >= MAX_FILE_SIZE),
    {
        self.active_len >= MAX_FILE_SIZE
    }

    /// The timestamp for a write at clock reading `now`: never earlier than any before.
    fn stamp(&self, now: u64) -> (r: u64)
        ensures
            r == if now >= self.clock() { now } else { self.clock() },
    {
        if now >= self.last_timestamp {
            now
        } else {
            self.last_timestamp
        }
    }

    fn pending(&self, key: String, val: String, timestamp: u64) -> (r: Result<
        PendingWrite,
        HobbesError,
    >)
        requires
            self.wf(),
        ensures
            r matches Ok(w) ==> w.wf() && w.key() == key@ && w.value() == val@ && w.timestamp()
                == timestamp && self.disk()[self.active_id()].len() + w.spec_bytes().len()
                <= u64::MAX,
            r is Ok <==> encodable(Record { key: key@, val: val@, timestamp })
                && self.disk()[self.active_id()].len() + record_bytes(
                Record { key: key@, val: val@, timestamp },
            ).len() <= u64::MAX,
            r matches Err(e) ==> (e is SerializationError <==> !encodable(
                Record { key: key@, val: val@, timestamp },
            )),
            r matches Err(e) ==> (e is SerializationError || e is IoError),
            r matches Ok(w) ==> w.spec_bytes() == record_bytes(
                Record { key: key@, val: val@, timestamp },
            ),
    {
        let removal = is_tombstone(&val);
        let ghost v = val@;
        let entry = LogEntry { key, val, timestamp };
        match encode(&entry) {
            Ok(bytes) => {
                if bytes.len() as u64 > u64::MAX - self.active_len {
                    Err(HobbesError::IoError("active segment is full".to_string()))
                } else {
                    Ok(PendingWrite { key: entry.key, removal, timestamp, bytes, value: Ghost(v) })
                }
            },
            Err(e) => Err(e),
        }
    }

    /// Encodes the write of `value` under `key` at clock reading `now`.
    ///
    /// Fails with `SerializationError` exactly when the key or the value is
    /// too long for a record, and otherwise with `IoError` exactly when the
    /// active segment could not take the record's bytes.
    pub fn prepare_set(&self, key: String, value: String, now: u64) -> (r: Result<
        PendingWrite,
        HobbesError,
    >)
        requires
            self.wf(),
        ensures
            ({
                let ts = if now >= self.clock() { now } else { self.clock() };
                let rec = Record { key: key@, val: value@, timestamp: ts };
                &&& r is Ok <==> encodable(rec) && self.disk()[self.active_id()].len()
                    + record_bytes(rec).len() <= u64::MAX
                &&& r matches Ok(w) ==> w.wf() && w.key() == key@ && w.value() == value@
                    && w.timestamp() == ts && w.spec_bytes() == record_bytes(rec)
                &&& r matches Err(e) ==> (e is SerializationError <==> !encodable(rec))
                &&& r matches Err(e) ==> (e is SerializationError || e is IoError)
            }),
    {
        let ts = self.stamp(now);
        self.pending(key, value, ts)
    }

    /// Encodes the removal of `key` at clock reading `now`: a tombstone record.
    ///
    /// Fails with `KeyNotFoundError` exactly when the store does not hold
    /// `key`, and otherwise with `IoError` exactly when the active segment
    /// could not take the record's bytes.
    pub fn prepare_remove(&self, key: String, now: u64) -> (r: Result<PendingWrite, HobbesError>)
        requires
            self.wf(),
        ensures
            ({
                let ts = if now >= self.clock() { now } else { self.clock() };
                let rec = Record { key: key@, val: tombstone_spec(), timestamp: ts };
                &&& r is Ok <==> self.contents().contains_key(key@) && self.disk()[self.active_id()].len()
                    + record_bytes(rec).len() <= u64::MAX
                &&& r matches Ok(w) ==> w.wf() && w.key() == key@ && w.deletes() && w.timestamp()
                    == ts && w.spec_bytes() == record_bytes(rec)
                &&& r matches Err(e) ==> (e is KeyNotFoundError <==> !self.contents().contains_key(
                    key@,
                ))
                &&& r matches Err(e) ==> (e is KeyNotFoundError || e is IoError)
            }),
    {
        if !self.index.contains(&key) {
            return Err(HobbesError::KeyNotFoundError);
        }
        proof {
            assert(locates(self.disk@, key@, self.index@[key@]));
        }
        let ts = self.stamp(now);
        let t = tombstone();
        proof {
            assert(encode_utf8(t@).len() <= u32::MAX) by {
                reveal_with_fuel(encode_utf8, 7);
            }
        }
        self.pending(key, t, ts)
    }

    /// Applies a write whose bytes the caller has appended to the active
    /// segment. Returns whether the store is now due for compaction. A write
    /// prepared on this state keeps the store durable.
    pub fn commit(&mut self, w: PendingWrite) -> (due: bool)
        requires
            old(self).wf(),
            w.wf(),
            old(self).disk()[old(self).active_id()].len() + w.spec_bytes().len() <= u64::MAX,
        ensures
            final(self).wf(),
            final(self).active_id() == old(self).active_id(),
            final(self).disk() == old(self).disk().insert(
                old(self).active_id(),
                old(self).disk()[old(self).active_id()] + w.spec_bytes(),
            ),
            final(self).clock() == if w.timestamp() >= old(self).clock() {
                w.timestamp()
            } else {
                old(self).clock()
            },
            final(self).contents() == applied(old(self).contents(), w.key(), w.value()),
            !w.deletes() ==> final(self).index() == old(self).index().insert(
                w.key(),
                IndexEntry {
                    segment_id: old(self).active_id(),
                    offset: old(self).disk()[old(self).active_id()].len() as u64,
                    timestamp: w.timestamp(),
                },
            ),
            w.deletes() ==> final(self).index() == old(self).index().remove(w.key()),
            w.deletes() ==> final(self).contents() == old(self).contents().remove(w.key()),
            !w.deletes() ==> final(self).contents() == old(self).contents().insert(
                w.key(),
                w.value(),
            ),
            due == (final(self).disk()[final(self).active_id()].len() >= MAX_FILE_SIZE),
            final(self).segment_ids() == old(self).segment_ids(),
            old(self).durable() && w.timestamp() >= old(self).clock() ==> final(self).durable(),
    {
        let ghost d0 = self.disk@;
        let ghost i0 = self.index@;
        let ghost cur = self.current_id;
        let ghost rec = Record { key: w.key@, val: w.value@, timestamp: w.timestamp };
        let offset = self.active_len;
        let len = w.bytes.len() as u64;
        self.active_len = offset + len;
        self.disk = Ghost(d0.insert(cur, d0[cur] + w.bytes@));
        if w.timestamp > self.last_timestamp {
            self.last_timestamp = w.timestamp;
        }
        proof {
            lemma_sound_append(d0, i0, cur, w.bytes@);
        }
        let ghost d1 = self.disk@;
        if w.removal {
            self.index.remove(&w.key);
            proof {
                assert(contents_of(d1, self.index@) =~= contents_of(d1, i0).remove(rec.key));
            }
        } else {
            let e = IndexEntry { segment_id: self.current_id, offset, timestamp: w.timestamp };
            self.index.insert(w.key, e);
            proof {
                let b = suffix_at(d1, e);
                assert(b =~= w.bytes@ + Seq::<u8>::empty());
                lemma_parse_record_bytes(rec, Seq::<u8>::empty());
                assert(locates(d1, rec.key, e));
                assert(contents_of(d1, self.index@) =~= contents_of(d1, i0).insert(rec.key, rec.val));
            }
        }
        proof {
            if old(self).durable() && w.timestamp >= old(self).last_timestamp {
                self.lemma_commit_durable(*old(self), rec, w.bytes@);
            }
        }
        self.active_len >= MAX_FILE_SIZE
    }

    proof fn lemma_commit_durable(&self, before: Bitcask, rec: Record, x: Seq<u8>)
        requires
            before.durable(),
            encodable(rec),
            x == record_bytes(rec),
            rec.timestamp >= before.last_timestamp,
            self.ids@ == before.ids@,
            self.current_id == before.current_id,
            self.disk@ == before.disk@.insert(before.current_id, before.disk@[before.current_id] + x),
            self.last_timestamp == if rec.timestamp >= before.last_timestamp {
                rec.timestamp
            } else {
                before.last_timestamp
            },
            self.index@ == replay_step(
                before.index@,
                before.current_id,
                before.disk@[before.current_id].len() as int,
                rec,
            ),
        ensures
            self.durable(),
    {
        let ids = self.ids@;
        let cur = self.current_id;
        let pre = ids.drop_last();
        let d0 = before.disk@;
        let d1 = self.disk@;
        let seg = d0[cur];
        assert(clean(d0[ids[ids.len() - 1]]));
        lemma_replay_append(replay_list(d0, pre), cur, seg, rec, 0);
        assert forall|i: int| 0 <= i < pre.len() implies d1[#[trigger] pre[i]] == d0[pre[i]] by {
            assert(pre[i] == ids[i]);
            assert(ids[i] < ids[ids.len() - 1]);
        }
        lemma_replay_list_frame(d1, d0, pre);
        assert forall|id: u64| d1.contains_key(id) <==> ids.contains(id) by {
            if id == cur {
                assert(ids[ids.len() - 1] == cur);
            }
        }
        assert forall|i: int| 0 <= i < ids.len() implies clean(#[trigger] d1[ids[i]]) by {
            if ids[i] != cur {
                assert(clean(d0[ids[i]]));
            }
        }
        assert forall|k: Seq<char>| #[trigger]
            self.index@.contains_key(k) implies self.index@[k].timestamp <= self.last_timestamp by {
            if k != rec.key {
                assert(before.index@.contains_key(k));
            }
        }
    }

    /// The value that a record read from a segment holds: `None` for a
    /// tombstone, and `DeserializationError` where the bytes do not start with
    /// a whole, well-formed record.
    pub fn value_from_record(record: &[u8]) -> (r: Result<Option<String>, HobbesError>)
        ensures
            match parse_record(record@) {
                Parsed::Complete(rec, _) => {
                    &&& r is Ok
                    &&& rec.val == tombstone_spec() ==> r->Ok_0 is None
                    &&& rec.val != tombstone_spec() ==> (r->Ok_0 matches Some(s) && s@ == rec.val)
                },
                _ => r matches Err(e) && e is DeserializationError,
            },
    {
        assert(record@.subrange(0, record@.len() as int) =~= record@);
        match decode_at(record, 0) {
            DecodeOutcome::Entry(e, _) => {
                if is_tombstone(&e.val) {
                    Ok(None)
                } else {
                    Ok(Some(e.val))
                }
            },
            DecodeOutcome::Truncated => Err(
                HobbesError::DeserializationError("record ends early".to_string()),
            ),
            DecodeOutcome::Malformed => Err(
                HobbesError::DeserializationError("record field is not UTF-8".to_string()),
            ),
        }
    }

    /// The record at a key's location holds the key's value, and reading just
    /// the record's own bytes gives the same.
    pub proof fn lemma_get(&self, k: Seq<char>)
        requires
            self.wf(),
            self.contents().contains_key(k),
        ensures
            ({
                let e = self.index()[k];
                let seg = self.disk()[e.segment_id];
                &&& self.disk().contains_key(e.segment_id)
                &&& parse_record(suffix_at(self.disk(), e)) matches Parsed::Complete(r, n) && r.key
                    == k && r.val == self.contents()[k] && r.val != tombstone_spec() && e.offset + n
                    <= seg.len() && parse_record(seg.subrange(e.offset as int, e.offset + n))
                    == Parsed::Complete(r, n)
            }),
    {
        let e = self.index@[k];
        assert(locates(self.disk@, k, e));
        let b1 = suffix_at(self.disk@, e);
        let n = parse_record(b1)->Complete_1 as int;
        let seg = self.disk@[e.segment_id];
        let b2 = seg.subrange(e.offset as int, e.offset + n);
        assert(b1.subrange(0, n) =~= b2.subrange(0, n));
        lemma_parse_prefix(b1, b2);
    }

    /// Where the latest record of `key` lies, if the store holds `key`.
    pub fn locate(&self, key: &String) -> (r: Option<IndexEntry>)
        requires
            self.wf(),
        ensures
            r == self.index().get(key@),
            r is Some <==> self.contents().contains_key(key@),
    {
        self.index.get(key)
    }

    /// The keys the store holds, each once.
    pub fn keys(&self) -> (r: Vec<String>)
        requires
            self.wf(),
        ensures
            forall|i: int| 0 <= i < r@.len() ==> self.contents().contains_key(#[trigger] r@[i]@),
            forall|k: Seq<char>| #[trigger]
                self.contents().contains_key(k) ==> exists|i: int| 0 <= i < r@.len() && r@[i]@ == k,
            forall|i: int, j: int|
                0 <= i < r@.len() && 0 <= j < r@.len() && i != j ==> #[trigger] r@[i]@
                    != #[trigger] r@[j]@,
    {
        self.index.keys()
    }

    /// The number of keys the store holds.
    pub fn len(&self) -> (r: usize)
        requires
            self.wf(),
        ensures
            r == self.contents().dom().len(),
    {
        assert(self.contents().dom() =~= self.index().dom());
        self.index.len()
    }
}


/// One step of replay: the index after reading record `r` at `pos` in segment `id`.
///
/// A record older than the key's current entry is skipped; otherwise a
/// tombstone drops the key and any other value points the key at the record.
pub open spec fn replay_step(
    m: Map<Seq<char>, IndexEntry>,
    id: u64,
    pos: int,
    r: Record,
) -> Map<Seq<char>, IndexEntry> {
    if m.contains_key(r.key) && r.timestamp < m[r.key].timestamp {
        m
    } else if r.val == tombstone_spec() {
        m.remove(r.key)
    } else {
        m.insert(r.key, IndexEntry { segment_id: id, offset: pos as u64, timestamp: r.timestamp })
    }
}

/// The index after replaying the records of segment `id` from `pos` on,
/// up to the first record that is not whole.
pub open spec fn replay_from(
    m: Map<Seq<char>, IndexEntry>,
    id: u64,
    b: Seq<u8>,
    pos: int,
) -> Map<Seq<char>, IndexEntry>
    decreases b.len() - pos,
{
    if 0 <= pos <= b.len() {
        match parse_record(b.subrange(pos, b.len() as int)) {
            Parsed::Complete(r, n) => if n > 0 {
                replay_from(replay_step(m, id, pos, r), id, b, pos + n)
            } else {
                m
            },
            _ => m,
        }
    } else {
        m
    }
}

/// Where the whole records of `b` from `pos` on end: `None` where a
/// malformed record comes before the end or a cut-off record.
pub open spec fn clean_end(b: Seq<u8>, pos: int) -> Option<int>
    decreases b.len() - pos,
{
    if 0 <= pos <= b.len() {
        match parse_record(b.subrange(pos, b.len() as int)) {
            Parsed::Complete(_, n) => if n > 0 {
                clean_end(b, pos + n)
            } else {
                None
            },
            Parsed::Truncated => Some(pos),
            Parsed::Malformed => None,
        }
    } else {
        None
    }
}

/// A parsed record takes at least its header.
proof fn lemma_parse_len(b: Seq<u8>)
    requires
        parse_record(b) is Complete,
    ensures
        parse_record(b)->Complete_1 >= HEADER_LEN,
        parse_record(b)->Complete_1 <= b.len(),
{
}

/// The segment holds whole records up to its end.
pub open spec fn clean(b: Seq<u8>) -> bool {
    clean_end(b, 0) == Some(b.len() as int)
}

/// The ids are strictly increasing.
pub open spec fn ascending(ids: Seq<u64>) -> bool {
    forall|i: int, j: int| 0 <= i < j < ids.len() ==> ids[i] < ids[j]
}

/// The index after replaying the segments `ids` of `disk`, in that order,
/// from an empty index.
pub open spec fn replay_list(disk: Map<u64, Seq<u8>>, ids: Seq<u64>) -> Map<Seq<char>, IndexEntry>
    decreases ids.len(),
{
    if ids.len() == 0 {
        Map::empty()
    } else {
        replay_from(replay_list(disk, ids.drop_last()), ids.last(), disk[ids.last()], 0)
    }
}

/// Appending a whole record to a segment that holds whole records makes
/// replay take one more step, and keeps the segment whole.
proof fn lemma_replay_append(
    m: Map<Seq<char>, IndexEntry>,
    id: u64,
    seg: Seq<u8>,
    r: Record,
    pos: int,
)
    requires
        encodable(r),
        0 <= pos <= seg.len(),
        clean_end(seg, pos) == Some(seg.len() as int),
    ensures
        replay_from(m, id, seg + record_bytes(r), pos) == replay_step(
            replay_from(m, id, seg, pos),
            id,
            seg.len() as int,
            r,
        ),
        clean_end(seg + record_bytes(r), pos) == Some((seg + record_bytes(r)).len() as int),
    decreases seg.len() - pos,
{
    let b = seg + record_bytes(r);
    lemma_parse_record_bytes(r, Seq::<u8>::empty());
    let n = record_bytes(r).len() as int;
    if pos == seg.len() {
        assert(b.subrange(pos, b.len() as int) =~= record_bytes(r) + Seq::<u8>::empty());
        assert(b.subrange(pos + n, b.len() as int) =~= Seq::<u8>::empty());
        assert(seg.subrange(pos, seg.len() as int) =~= Seq::<u8>::empty());
        assert(parse_record(Seq::<u8>::empty()) == Parsed::Truncated);
        let m2 = replay_step(m, id, pos, r);
        assert(replay_from(m2, id, b, pos + n) == m2);
        assert(clean_end(b, pos + n) == Some(pos + n));
    } else {
        let s1 = seg.subrange(pos, seg.len() as int);
        let s2 = b.subrange(pos, b.len() as int);
        lemma_parse_len_nonneg(s1);
        let n1 = parse_record(s1)->Complete_1 as int;
        assert(s1.subrange(0, n1) =~= s2.subrange(0, n1));
        lemma_parse_prefix(s1, s2);
        let r1 = parse_record(s1)->Complete_0;
        lemma_replay_append(replay_step(m, id, pos, r1), id, seg, r, pos + n1);
    }
}

proof fn lemma_parse_len_nonneg(b: Seq<u8>)
    requires
        !(parse_record(b) is Truncated),
        !(parse_record(b) is Malformed),
    ensures
        parse_record(b) is Complete,
        parse_record(b)->Complete_1 >= HEADER_LEN,
        parse_record(b)->Complete_1 <= b.len(),
{
}

/// Replay reads a segment only up to its last whole record.
proof fn lemma_replay_clean_prefix(m: Map<Seq<char>, IndexEntry>, id: u64, b: Seq<u8>, pos: int)
    requires
        0 <= pos <= b.len(),
        clean_end(b, pos) is Some,
    ensures
        pos <= clean_end(b, pos)->Some_0 <= b.len(),
        replay_from(m, id, b, pos) == replay_from(
            m,
            id,
            b.subrange(0, clean_end(b, pos)->Some_0),
            pos,
        ),
        clean_end(b.subrange(0, clean_end(b, pos)->Some_0), pos) == clean_end(b, pos),
    decreases b.len() - pos,
{
    let s1 = b.subrange(pos, b.len() as int);
    match parse_record(s1) {
        Parsed::Complete(r, n) => {
            let e = clean_end(b, pos + n)->Some_0;
            lemma_replay_clean_prefix(replay_step(m, id, pos, r), id, b, pos + n);
            let p = b.subrange(0, e);
            let s2 = p.subrange(pos, p.len() as int);
            assert(s1.subrange(0, n as int) =~= s2.subrange(0, n as int));
            lemma_parse_prefix(s1, s2);
        },
        _ => {
            let p = b.subrange(0, pos);
            assert(p.subrange(pos, p.len() as int) =~= Seq::<u8>::empty());
            assert(parse_record(Seq::<u8>::empty()) == Parsed::Truncated);
        },
    }
}

/// Replay of a list of segments reads only those segments.
proof fn lemma_replay_list_frame(d1: Map<u64, Seq<u8>>, d2: Map<u64, Seq<u8>>, ids: Seq<u64>)
    requires
        forall|i: int| 0 <= i < ids.len() ==> d1[#[trigger] ids[i]] == d2[ids[i]],
    ensures
        replay_list(d1, ids) == replay_list(d2, ids),
    decreases ids.len(),
{
    if ids.len() > 0 {
        let pre = ids.drop_last();
        assert forall|i: int| 0 <= i < pre.len() implies d1[#[trigger] pre[i]] == d2[pre[i]] by {
            assert(pre[i] == ids[i]);
        }
        lemma_replay_list_frame(d1, d2, pre);
        assert(d1[ids.last()] == d2[ids[ids.len() - 1]]);
    }
}

/// Two ascending lists of the same ids are the same list.
proof fn lemma_ascending_unique(a: Seq<u64>, b: Seq<u64>)
    requires
        ascending(a),
        ascending(b),
        a.to_set() == b.to_set(),
    ensures
        a == b,
    decreases a.len(),
{
    if a.len() == 0 {
        if b.len() > 0 {
            assert(b.to_set().contains(b[0]));
        }
    } else {
        assert(b.len() > 0) by {
            assert(a.to_set().contains(a[0]));
        }
        let x = a.last();
        let y = b.last();
        assert(a.to_set().contains(x));
        assert(b.to_set().contains(y));
        let i = choose|i: int| 0 <= i < b.len() && b[i] == x;
        let j = choose|j: int| 0 <= j < a.len() && a[j] == y;
        assert(x == y) by {
            if x < y {
                assert(a[j] <= a[a.len() - 1]);
            } else if y < x {
                assert(b[i] <= b[b.len() - 1]);
            }
        }
        let a2 = a.drop_last();
        let b2 = b.drop_last();
        assert(a2.to_set() =~= b2.to_set()) by {
            assert forall|v: u64| a2.to_set().contains(v) implies b2.to_set().contains(v) by {
                let k = choose|k: int| 0 <= k < a2.len() && a2[k] == v;
                assert(a.to_set().contains(v));
                let l = choose|l: int| 0 <= l < b.len() && b[l] == v;
                assert(l != b.len() - 1);
                assert(b2[l] == v);
            }
            assert forall|v: u64| b2.to_set().contains(v) implies a2.to_set().contains(v) by {
                let k = choose|k: int| 0 <= k < b2.len() && b2[k] == v;
                assert(b.to_set().contains(v));
                let l = choose|l: int| 0 <= l < a.len() && a[l] == v;
                assert(l != a.len() - 1);
                assert(a2[l] == v);
            }
        }
        lemma_ascending_unique(a2, b2);
        assert(a =~= a2.push(x));
        assert(b =~= b2.push(y));
    }
}

/// The state of a store being opened: the segments replayed so far.
pub struct Recovery {
    index: KeyIndex,
    max_id: u64,
    max_len: u64,
    any: bool,
    last_timestamp: u64,
    disk: Ghost<Map<u64, Seq<u8>>>,
    order: Ghost<Seq<u64>>,
}

impl Recovery {
    /// The whole records of each segment replayed so far.
    pub closed spec fn disk(&self) -> Map<u64, Seq<u8>> {
        self.disk@
    }

    /// The index rebuilt so far.
    pub closed spec fn index(&self) -> Map<Seq<char>, IndexEntry> {
        self.index@
    }

    /// The ids of the segments replayed so far, in the order replayed.
    pub closed spec fn order(&self) -> Seq<u64> {
        self.order@
    }

    pub closed spec fn wf(&self) -> bool {
        &&& self.index.wf()
        &&& index_sound(self.disk@, self.index@)
        &&& self.disk@.dom().finite()
        &&& forall|id: u64| self.disk@.contains_key(id) <==> self.order@.contains(id)
        &&& forall|i: int| 0 <= i < self.order@.len() ==> clean(#[trigger] self.disk@[self.order@[i]])
        &&& self.index@ == replay_list(self.disk@, self.order@)
        &&& forall|k: Seq<char>| #[trigger]
            self.index@.contains_key(k) ==> self.index@[k].timestamp <= self.last_timestamp
        &&& self.any ==> self.disk@.contains_key(self.max_id) && self.disk@[self.max_id].len()
            == self.max_len
        &&& !self.any ==> self.disk@.dom().is_empty()
        &&& forall|id: u64| #[trigger] self.disk@.contains_key(id) ==> id <= self.max_id
    }

    /// Nothing replayed yet.
    pub fn new() -> (r: Recovery)
        ensures
            r.wf(),
            r.disk() == Map::<u64, Seq<u8>>::empty(),
            r.index() == Map::<Seq<char>, IndexEntry>::empty(),
            r.order() == Seq::<u64>::empty(),
    {
        Recovery {
            index: KeyIndex::new(),
            max_id: 0,
            max_len: 0,
            any: false,
            last_timestamp: 0,
            disk: Ghost(Map::empty()),
            order: Ghost(Seq::empty()),
        }
    }

    /// Replays the bytes of segment `id`, record by record, under the recency
    /// rule of [`replay_step`]. A record cut off at the end ends the segment;
    /// one that is whole but malformed fails the replay with
    /// `DeserializationError`. The segment's whole records are kept as its bytes.
    pub fn replay_segment(&mut self, id: u64, bytes: &[u8]) -> (r: Result<(), HobbesError>)
        requires
            old(self).wf(),
            !old(self).disk().contains_key(id),
        ensures
            r is Ok <==> clean_end(bytes@, 0) is Some,
            r matches Err(e) ==> e is DeserializationError,
            r is Ok ==> final(self).wf(),
            r is Ok ==> final(self).disk() == old(self).disk().insert(
                id,
                bytes@.subrange(0, clean_end(bytes@, 0)->Some_0),
            ),
            r is Ok ==> final(self).index() == replay_from(old(self).index(), id, bytes@, 0),
            r is Ok ==> final(self).order() == old(self).order().push(id),
    {
        let ghost b = bytes@;
        let ghost d0 = self.disk@;
        let ghost i0 = self.index@;
        let ghost full = d0.insert(id, b);
        proof {
            assert forall|k: Seq<char>| #[trigger] self.index@.contains_key(k) implies locates(
                full,
                k,
                self.index@[k],
            ) && self.index@[k].segment_id != id by {
                assert(locates(d0, k, self.index@[k]));
                assert(suffix_at(full, self.index@[k]) == suffix_at(d0, self.index@[k]));
            }
        }
        let mut pos: usize = 0;
        loop
            invariant
                self.index.wf(),
                pos <= b.len(),
                b == bytes@,
                clean_end(b, pos as int) == clean_end(b, 0),
                replay_from(self.index@, id, b, pos as int) == replay_from(i0, id, b, 0),
                forall|k: Seq<char>| #[trigger]
                    self.index@.contains_key(k) ==> locates(full, k, self.index@[k]),
                forall|k: Seq<char>| #[trigger]
                    self.index@.contains_key(k) && self.index@[k].segment_id == id
                        ==> self.index@[k].offset + parse_record(
                        suffix_at(full, self.index@[k]),
                    )->Complete_1 <= pos,
                forall|k: Seq<char>| #[trigger]
                    self.index@.contains_key(k) && self.index@[k].segment_id != id
                        ==> locates(d0, k, self.index@[k]),
                self.disk@ == d0,
                full == d0.insert(id, b),
                self.max_id == old(self).max_id,
                self.max_len == old(self).max_len,
                self.any == old(self).any,
                self.order@ == old(self).order@,
                forall|k: Seq<char>| #[trigger]
                    self.index@.contains_key(k) ==> self.index@[k].timestamp <= self.last_timestamp,
            ensures
                self.order@ == old(self).order@,
                forall|k: Seq<char>| #[trigger]
                    self.index@.contains_key(k) ==> self.index@[k].timestamp <= self.last_timestamp,
                self.max_id == old(self).max_id,
                self.max_len == old(self).max_len,
                self.any == old(self).any,
                clean_end(b, pos as int) == Some(pos as int),
                replay_from(self.index@, id, b, pos as int) == self.index@,
                self.index.wf(),
                pos <= b.len(),
                clean_end(b, pos as int) == clean_end(b, 0),
                replay_from(self.index@, id, b, pos as int) == replay_from(i0, id, b, 0),
                forall|k: Seq<char>| #[trigger]
                    self.index@.contains_key(k) ==> locates(full, k, self.index@[k]),
                forall|k: Seq<char>| #[trigger]
                    self.index@.contains_key(k) && self.index@[k].segment_id == id
                        ==> self.index@[k].offset + parse_record(
                        suffix_at(full, self.index@[k]),
                    )->Complete_1 <= pos,
                forall|k: Seq<char>| #[trigger]
                    self.index@.contains_key(k) && self.index@[k].segment_id != id
                        ==> locates(d0, k, self.index@[k]),
                self.disk@ == d0,
            decreases b.len() - pos,
        {
            let ghost m0 = self.index@;
            let ghost suffix = b.subrange(pos as int, b.len() as int);
            match decode_at(bytes, pos) {
                DecodeOutcome::Entry(e, next) => {
                    proof {
                        lemma_parse_len(suffix);
                        lemma_parsed_encodable(suffix);
                        assert(parse_record(suffix) == Parsed::Complete(e@, (next - pos) as nat));
                        assert(clean_end(b, pos as int) == clean_end(b, next as int));
                        assert(replay_from(m0, id, b, pos as int) == replay_from(
                            replay_step(m0, id, pos as int, e@),
                            id,
                            b,
                            next as int,
                        ));
                    }
                    let ghost rec = e@;
                    let skip = match self.index.get(&e.key) {
                        Some(cur) => e.timestamp < cur.timestamp,
                        None => false,
                    };
                    if e.timestamp > self.last_timestamp {
                        self.last_timestamp = e.timestamp;
                    }
                    if !skip {
                        if is_tombstone(&e.val) {
                            self.index.remove(&e.key);
                        } else {
                            let ie = IndexEntry {
                                segment_id: id,
                                offset: pos as u64,
                                timestamp: e.timestamp,
                            };
                            proof {
                                assert(ie.offset as int == pos as int);
                                assert(full[id] == b);
                                assert(suffix_at(full, ie) == suffix);
                                assert(locates(full, rec.key, ie));
                            }
                            self.index.insert(e.key, ie);
                        }
                    }
                    proof {
                        assert(self.index@ == replay_step(m0, id, pos as int, rec));
                    }
                    pos = next;
                },
                DecodeOutcome::Truncated => {
                    assert(clean_end(b, pos as int) == Some(pos as int));
                    assert(replay_from(m0, id, b, pos as int) == m0);
                    break ;
                },
                DecodeOutcome::Malformed => {
                    assert(clean_end(b, pos as int) is None);
                    return Err(
                        HobbesError::DeserializationError(
                            "malformed record in segment".to_string(),
                        ),
                    );
                },
            }
        }
        let ghost whole = b.subrange(0, pos as int);
        let ghost d1 = d0.insert(id, whole);
        proof {
            assert forall|k: Seq<char>| #[trigger] self.index@.contains_key(k) implies locates(
                d1,
                k,
                self.index@[k],
            ) by {
                let e = self.index@[k];
                if e.segment_id == id {
                    let b1 = suffix_at(full, e);
                    let b2 = suffix_at(d1, e);
                    let n = parse_record(b1)->Complete_1 as int;
                    assert(b1.subrange(0, n) =~= b2.subrange(0, n));
                    lemma_parse_prefix(b1, b2);
                } else {
                    assert(locates(d0, k, e));
                    assert(suffix_at(d1, e) == suffix_at(d0, e));
                }
            }
        }
        self.disk = Ghost(d1);
        if !self.any || id > self.max_id {
            self.max_id = id;
            self.max_len = pos as u64;
        }
        self.any = true;
        let ghost o0 = self.order@;
        self.order = Ghost(o0.push(id));
        proof {
            lemma_replay_clean_prefix(i0, id, b, 0);
            assert(clean_end(b, 0) == Some(pos as int));
            assert(clean(whole));
            assert forall|i: int| 0 <= i < o0.len() implies d1[#[trigger] o0[i]] == d0[o0[i]] by {
                assert(o0.contains(o0[i]));
            }
            lemma_replay_list_frame(d1, d0, o0);
            assert(self.order@.drop_last() =~= o0);
            assert(replay_list(d1, self.order@) == replay_from(i0, id, whole, 0));
            assert forall|j: u64| d1.contains_key(j) <==> self.order@.contains(j) by {
                if j == id {
                    assert(self.order@[o0.len() as int] == id);
                } else if o0.contains(j) {
                    let k = choose|k: int| 0 <= k < o0.len() && o0[k] == j;
                    assert(self.order@[k] == j);
                } else if self.order@.contains(j) {
                    let k = choose|k: int| 0 <= k < self.order@.len() && self.order@[k] == j;
                    assert(o0[k] == j);
                }
            }
            assert forall|i: int| 0 <= i < self.order@.len() implies clean(
                #[trigger] d1[self.order@[i]],
            ) by {
                if i < o0.len() {
                    assert(self.order@[i] == o0[i]);
                    assert(o0.contains(o0[i]));
                    assert(clean(d0[o0[i]]));
                }
            }
            assert(d1.dom().finite());
            assert forall|j: u64| #[trigger] d1.contains_key(j) implies j <= self.max_id by {
                if j != id {
                    assert(d0.contains_key(j));
                }
            }
            assert(whole.len() == pos);
        }
        Ok(())
    }

    /// The opened store: the active segment is the one with the greatest id,
    /// holding its whole records; with no segment at all, a fresh store.
    pub fn finish(self) -> (r: Bitcask)
        requires
            self.wf(),
        ensures
            r.wf(),
            self.disk().dom().is_empty() ==> r.disk() == Map::<u64, Seq<u8>>::empty().insert(
                1u64,
                Seq::<u8>::empty(),
            ) && r.active_id() == 1 && r.contents() == Map::<Seq<char>, Seq<char>>::empty(),
            !self.disk().dom().is_empty() ==> r.disk() == self.disk() && r.index() == self.index()
                && self.disk().contains_key(r.active_id()) && forall|id: u64| #[trigger]
                self.disk().contains_key(id) ==> id <= r.active_id(),
            ascending(self.order()) ==> r.durable(),
            !self.disk().dom().is_empty() ==> r.segment_ids() == self.order(),
    {
        if !self.any {
            Bitcask::new()
        } else {
            proof {
                if ascending(self.order@) {
                    let o = self.order@;
                    assert(o.contains(self.max_id));
                    let k = choose|k: int| 0 <= k < o.len() && o[k] == self.max_id;
                    assert(o.len() > 0);
                    assert(self.disk@.contains_key(o.last())) by {
                        assert(o.contains(o[o.len() - 1]));
                    }
                    assert(o.last() <= self.max_id);
                    if k < o.len() - 1 {
                        assert(o[k] < o[o.len() - 1]);
                    }
                    assert(o.last() == self.max_id);
                }
            }
            Bitcask {
                index: self.index,
                current_id: self.max_id,
                active_len: self.max_len,
                last_timestamp: self.last_timestamp,
                disk: self.disk,
                ids: self.order,
            }
        }
    }
}

/// A segment that did not exist before leaves every entry where it was.
proof fn lemma_sound_new_segment(
    disk: Map<u64, Seq<u8>>,
    index: Map<Seq<char>, IndexEntry>,
    s: u64,
    x: Seq<u8>,
)
    requires
        !disk.contains_key(s),
        index_sound(disk, index),
    ensures
        index_sound(disk.insert(s, x), index),
        contents_of(disk.insert(s, x), index) == contents_of(disk, index),
{
    let d2 = disk.insert(s, x);
    assert forall|k: Seq<char>| #[trigger] index.contains_key(k) implies locates(d2, k, index[k])
        && value_at(d2, index[k]) == value_at(disk, index[k]) by {
        assert(locates(disk, k, index[k]));
        assert(suffix_at(d2, index[k]) == suffix_at(disk, index[k]));
    }
    assert(contents_of(d2, index) =~= contents_of(disk, index));
}

/// Appending a record to the last of the segments: replay takes one more step.
proof fn lemma_place_append_durable(
    d0: Map<u64, Seq<u8>>,
    i0: Map<Seq<char>, IndexEntry>,
    ids: Seq<u64>,
    cur: u64,
    rec: Record,
    x: Seq<u8>,
)
    requires
        ascending(ids),
        ids.len() > 0,
        ids.last() == cur,
        forall|id: u64| d0.contains_key(id) <==> ids.contains(id),
        forall|i: int| 0 <= i < ids.len() ==> clean(#[trigger] d0[ids[i]]),
        i0 == replay_list(d0, ids),
        encodable(rec),
        x == record_bytes(rec),
    ensures
        ({
            let d1 = d0.insert(cur, d0[cur] + x);
            &&& replay_list(d1, ids) == replay_step(i0, cur, d0[cur].len() as int, rec)
            &&& forall|i: int| 0 <= i < ids.len() ==> clean(#[trigger] d1[ids[i]])
            &&& forall|id: u64| d1.contains_key(id) <==> ids.contains(id)
        }),
{
    let d1 = d0.insert(cur, d0[cur] + x);
    let pre = ids.drop_last();
    assert(clean(d0[ids[ids.len() - 1]]));
    lemma_replay_append(replay_list(d0, pre), cur, d0[cur], rec, 0);
    assert forall|i: int| 0 <= i < pre.len() implies d1[#[trigger] pre[i]] == d0[pre[i]] by {
        assert(pre[i] == ids[i]);
        assert(ids[i] < ids[ids.len() - 1]);
    }
    lemma_replay_list_frame(d1, d0, pre);
    assert forall|id: u64| d1.contains_key(id) <==> ids.contains(id) by {
        if id == cur {
            assert(ids[ids.len() - 1] == cur);
        }
    }
    assert forall|i: int| 0 <= i < ids.len() implies clean(#[trigger] d1[ids[i]]) by {
        if ids[i] != cur {
            assert(clean(d0[ids[i]]));
        }
    }
}

/// A record in a new segment after all others: replay takes one more step.
proof fn lemma_place_new_durable(
    d0: Map<u64, Seq<u8>>,
    i0: Map<Seq<char>, IndexEntry>,
    ids: Seq<u64>,
    next: u64,
    rec: Record,
    x: Seq<u8>,
)
    requires
        ascending(ids),
        ids.len() > 0,
        ids.last() < next,
        forall|id: u64| d0.contains_key(id) <==> ids.contains(id),
        forall|i: int| 0 <= i < ids.len() ==> clean(#[trigger] d0[ids[i]]),
        i0 == replay_list(d0, ids),
        encodable(rec),
        x == record_bytes(rec),
    ensures
        ({
            let d1 = d0.insert(next, x);
            let ids1 = ids.push(next);
            &&& replay_list(d1, ids1) == replay_step(i0, next, 0, rec)
            &&& forall|i: int| 0 <= i < ids1.len() ==> clean(#[trigger] d1[ids1[i]])
            &&& forall|id: u64| d1.contains_key(id) <==> ids1.contains(id)
            &&& ascending(ids1)
        }),
{
    let d1 = d0.insert(next, x);
    let ids1 = ids.push(next);
    let e = Seq::<u8>::empty();
    assert(clean_end(e, 0) == Some(0int)) by {
        assert(e.subrange(0, 0) =~= e);
        assert(parse_record(e) == Parsed::Truncated);
    }
    lemma_replay_append(i0, next, e, rec, 0);
    assert(e + x =~= x);
    assert(replay_from(i0, next, e, 0) == i0) by {
        assert(e.subrange(0, 0) =~= e);
        assert(parse_record(e) == Parsed::Truncated);
    }
    assert forall|i: int| 0 <= i < ids.len() implies d1[#[trigger] ids[i]] == d0[ids[i]] by {
        assert(ids[i] <= ids[ids.len() - 1]);
    }
    lemma_replay_list_frame(d1, d0, ids);
    assert(ids1.drop_last() =~= ids);
    assert forall|id: u64| d1.contains_key(id) <==> ids1.contains(id) by {
        if id == next {
            assert(ids1[ids.len() as int] == next);
        } else if ids.contains(id) {
            let k = choose|k: int| 0 <= k < ids.len() && ids[k] == id;
            assert(ids1[k] == id);
        } else if ids1.contains(id) {
            let k = choose|k: int| 0 <= k < ids1.len() && ids1[k] == id;
            assert(ids[k] == id);
        }
    }
    assert forall|i: int| 0 <= i < ids1.len() implies clean(#[trigger] d1[ids1[i]]) by {
        if i < ids.len() {
            assert(ids1[i] == ids[i]);
            assert(ids[i] <= ids[ids.len() - 1]);
            assert(clean(d0[ids[i]]));
        }
    }
    assert forall|i: int, j: int| 0 <= i < j < ids1.len() implies ids1[i] < ids1[j] by {
        if j == ids.len() {
            assert(ids[i] <= ids[ids.len() - 1]);
        }
    }
}

/// An empty segment after all others changes nothing that replay builds.
proof fn lemma_place_new_durable_empty(
    d0: Map<u64, Seq<u8>>,
    i0: Map<Seq<char>, IndexEntry>,
    ids: Seq<u64>,
    next: u64,
)
    requires
        ascending(ids),
        ids.len() > 0,
        ids.last() < next,
        forall|id: u64| d0.contains_key(id) <==> ids.contains(id),
        forall|i: int| 0 <= i < ids.len() ==> clean(#[trigger] d0[ids[i]]),
        i0 == replay_list(d0, ids),
    ensures
        ({
            let d1 = d0.insert(next, Seq::<u8>::empty());
            let ids1 = ids.push(next);
            &&& replay_list(d1, ids1) == i0
            &&& forall|i: int| 0 <= i < ids1.len() ==> clean(#[trigger] d1[ids1[i]])
            &&& forall|id: u64| d1.contains_key(id) <==> ids1.contains(id)
            &&& ascending(ids1)
        }),
{
    let e = Seq::<u8>::empty();
    let d1 = d0.insert(next, e);
    let ids1 = ids.push(next);
    assert(e.subrange(0, 0) =~= e);
    assert(parse_record(e) == Parsed::Truncated);
    assert(clean_end(e, 0) == Some(0int));
    assert(replay_from(i0, next, e, 0) == i0);
    assert forall|i: int| 0 <= i < ids.len() implies d1[#[trigger] ids[i]] == d0[ids[i]] by {
        assert(ids[i] <= ids[ids.len() - 1]);
    }
    lemma_replay_list_frame(d1, d0, ids);
    assert(ids1.drop_last() =~= ids);
    assert forall|id: u64| d1.contains_key(id) <==> ids1.contains(id) by {
        if id == next {
            assert(ids1[ids.len() as int] == next);
        } else if ids.contains(id) {
            let k = choose|k: int| 0 <= k < ids.len() && ids[k] == id;
            assert(ids1[k] == id);
        } else if ids1.contains(id) {
            let k = choose|k: int| 0 <= k < ids1.len() && ids1[k] == id;
            assert(ids[k] == id);
        }
    }
    assert forall|i: int| 0 <= i < ids1.len() implies clean(#[trigger] d1[ids1[i]]) by {
        if i < ids.len() {
            assert(ids1[i] == ids[i]);
            assert(ids[i] <= ids[ids.len() - 1]);
            assert(clean(d0[ids[i]]));
        }
    }
    assert forall|i: int, j: int| 0 <= i < j < ids1.len() implies ids1[i] < ids1[j] by {
        if j == ids.len() {
            assert(ids[i] <= ids[ids.len() - 1]);
        }
    }
}

/// The bytes that the segments `ids` of `disk` hold together.
pub open spec fn total_len(disk: Map<u64, Seq<u8>>, ids: Seq<u64>) -> nat
    decreases ids.len(),
{
    if ids.len() == 0 {
        0
    } else {
        total_len(disk, ids.drop_last()) + disk[ids.last()].len()
    }
}

proof fn lemma_total_len_frame(d1: Map<u64, Seq<u8>>, d2: Map<u64, Seq<u8>>, ids: Seq<u64>)
    requires
        forall|i: int| 0 <= i < ids.len() ==> d1[#[trigger] ids[i]] == d2[ids[i]],
    ensures
        total_len(d1, ids) == total_len(d2, ids),
    decreases ids.len(),
{
    if ids.len() > 0 {
        let pre = ids.drop_last();
        assert forall|i: int| 0 <= i < pre.len() implies d1[#[trigger] pre[i]] == d2[pre[i]] by {
            assert(pre[i] == ids[i]);
        }
        lemma_total_len_frame(d1, d2, pre);
        assert(d1[ids.last()] == d2[ids[ids.len() - 1]]);
    }
}

/// Appending `x` to the last segment, or putting it in a new last segment,
/// adds its length to the total.
proof fn lemma_total_len_grow(d0: Map<u64, Seq<u8>>, ids: Seq<u64>, next: u64, x: Seq<u8>)
    requires
        ascending(ids),
        ids.len() > 0,
        ids.last() <= next,
    ensures
        ids.last() == next ==> total_len(d0.insert(next, d0[next] + x), ids) == total_len(d0, ids)
            + x.len(),
        ids.last() < next ==> total_len(d0.insert(next, x), ids.push(next)) == total_len(d0, ids)
            + x.len(),
{
    let pre = ids.drop_last();
    if ids.last() == next {
        let d1 = d0.insert(next, d0[next] + x);
        assert forall|i: int| 0 <= i < pre.len() implies d1[#[trigger] pre[i]] == d0[pre[i]] by {
            assert(pre[i] == ids[i]);
            assert(ids[i] < ids[ids.len() - 1]);
        }
        lemma_total_len_frame(d1, d0, pre);
    } else {
        let d1 = d0.insert(next, x);
        assert forall|i: int| 0 <= i < ids.len() implies d1[#[trigger] ids[i]] == d0[ids[i]] by {
            assert(ids[i] <= ids[ids.len() - 1]);
        }
        lemma_total_len_frame(d1, d0, ids);
        assert(ids.push(next).drop_last() =~= ids);
    }
}

proof fn lemma_size_bound(t: nat)
    ensures
        t <= MAX_FILE_SIZE * (t / (MAX_FILE_SIZE as nat) + 2),
{
    let m = MAX_FILE_SIZE as nat;
    assert(t <= m * (t / m + 2)) by (nonlinear_arith)
        requires
            m > 0,
    {
        assert(t == m * (t / m) + t % m);
        assert(t % m < m);
    }
}

/// Where compaction put one record: the segment, the offset in it, whether
/// the segment is a new one, and the bytes to append there.
pub struct Placement {
    pub segment_id: u64,
    pub offset: u64,
    pub new_segment: bool,
    pub bytes: Vec<u8>,
}

/// A compaction in progress: the live records rewritten so far into fresh
/// segments, numbered from 1, each filled up to [`MAX_FILE_SIZE`].
pub struct Compaction {
    index: KeyIndex,
    segment_id: u64,
    segment_len: u64,
    last_timestamp: u64,
    disk: Ghost<Map<u64, Seq<u8>>>,
    ids: Ghost<Seq<u64>>,
    written: Ghost<nat>,
}

impl Compaction {
    /// The bytes of each compacted segment.
    pub closed spec fn disk(&self) -> Map<u64, Seq<u8>> {
        self.disk@
    }

    /// The index over the compacted segments.
    pub closed spec fn index(&self) -> Map<Seq<char>, IndexEntry> {
        self.index@
    }

    /// The compacted segment that records go to.
    pub closed spec fn current_segment(&self) -> u64 {
        self.segment_id
    }

    /// The greatest timestamp placed so far.
    pub closed spec fn clock(&self) -> u64 {
        self.last_timestamp
    }

    /// The ids of the compacted segments, in ascending order.
    pub closed spec fn segment_ids(&self) -> Seq<u64> {
        self.ids@
    }

    /// The bytes of all the records placed so far.
    pub closed spec fn written(&self) -> nat {
        self.written@
    }

    /// The keys and values placed so far.
    pub open spec fn placed(&self) -> Map<Seq<char>, Seq<char>> {
        contents_of(self.disk(), self.index())
    }

    /// As for [`Bitcask::durable`]: the compacted segments, in ascending
    /// order, hold whole records and replay to exactly the index; and they
    /// hold nothing but the records placed.
    pub closed spec fn durable(&self) -> bool {
        &&& ascending(self.ids@)
        &&& self.ids@.len() > 0
        &&& self.ids@.last() == self.segment_id
        &&& forall|id: u64| self.disk@.contains_key(id) <==> self.ids@.contains(id)
        &&& forall|i: int| 0 <= i < self.ids@.len() ==> clean(#[trigger] self.disk@[self.ids@[i]])
        &&& self.index@ == replay_list(self.disk@, self.ids@)
        &&& forall|k: Seq<char>| #[trigger]
            self.index@.contains_key(k) ==> self.index@[k].timestamp <= self.last_timestamp
        &&& total_len(self.disk@, self.ids@) == self.written@
    }

    pub closed spec fn wf(&self) -> bool {
        &&& self.index.wf()
        &&& index_sound(self.disk@, self.index@)
        &&& self.disk@.dom().finite()
        &&& self.disk@.contains_key(self.segment_id)
        &&& self.disk@[self.segment_id].len() == self.segment_len
        &&& 1 <= self.segment_id < u64::MAX
        &&& forall|id: u64| #[trigger] self.disk@.contains_key(id) ==> 1 <= id <= self.segment_id
    }

    /// Nothing placed yet; the first compacted segment is 1 and empty.
    pub fn new() -> (r: Compaction)
        ensures
            r.wf(),
            r.durable(),
            r.written() == 0,
            r.current_segment() == 1,
            r.disk() == Map::<u64, Seq<u8>>::empty().insert(1u64, Seq::<u8>::empty()),
            r.placed() == Map::<Seq<char>, Seq<char>>::empty(),
    {
        let r = Compaction {
            index: KeyIndex::new(),
            segment_id: 1,
            segment_len: 0,
            last_timestamp: 0,
            disk: Ghost(Map::<u64, Seq<u8>>::empty().insert(1u64, Seq::<u8>::empty())),
            ids: Ghost(Seq::<u64>::empty().push(1u64)),
            written: Ghost(0),
        };
        assert(r.placed() =~= Map::<Seq<char>, Seq<char>>::empty());
        proof {
            lemma_fresh_durable(r.disk@, r.ids@, 1);
            assert(r.ids@.drop_last() =~= Seq::<u64>::empty());
            assert(total_len(r.disk@, r.ids@.drop_last()) == 0);
            assert(r.disk@[r.ids@.last()] == Seq::<u8>::empty());
            assert(total_len(r.disk@, r.ids@) == 0);
        }
        r
    }

    /// Places the record of `key`, `value` and `timestamp`: at the end of the
    /// current compacted segment, or at the start of the next one when the
    /// current one has reached [`MAX_FILE_SIZE`].
    ///
    /// Fails with `CompactionError` when `value` is the tombstone marker or
    /// the segment ids are used up, and with `SerializationError` exactly when
    /// the record is too long to encode.
    pub fn place(&mut self, key: String, value: String, timestamp: u64) -> (r: Result<
        Placement,
        HobbesError,
    >)
        requires
            old(self).wf(),
        ensures
            ({
                let rec = Record { key: key@, val: value@, timestamp };
                let rolls = old(self).disk()[old(self).current_segment()].len() >= MAX_FILE_SIZE;
                &&& r is Ok <==> value@ != tombstone_spec() && encodable(rec) && !(rolls
                    && old(self).current_segment() + 1 == u64::MAX)
                &&& r matches Err(e) ==> (e is SerializationError <==> value@ != tombstone_spec()
                    && !encodable(rec))
                &&& r matches Err(e) ==> (e is SerializationError || e is CompactionError)
                &&& r is Err ==> *final(self) == *old(self)
                &&& r matches Ok(p) ==> {
                    &&& final(self).wf()
                    &&& p.bytes@ == record_bytes(rec)
                    &&& p.new_segment == rolls
                    &&& p.segment_id == if rolls {
                        old(self).current_segment() + 1
                    } else {
                        old(self).current_segment() as int
                    }
                    &&& p.offset == if rolls {
                        0
                    } else {
                        old(self).disk()[old(self).current_segment()].len()
                    }
                    &&& final(self).current_segment() == p.segment_id
                    &&& final(self).disk() == if rolls {
                        old(self).disk().insert(p.segment_id, p.bytes@)
                    } else {
                        old(self).disk().insert(
                            p.segment_id,
                            old(self).disk()[p.segment_id] + p.bytes@,
                        )
                    }
                    &&& final(self).placed() == old(self).placed().insert(key@, value@)
                    &&& final(self).written() == old(self).written() + p.bytes@.len()
                }
                &&& r is Ok && old(self).durable() && !old(self).placed().contains_key(key@)
                    ==> final(self).durable()
            }),
    {
        if is_tombstone(&value) {
            return Err(HobbesError::CompactionError("a tombstone is not a live value".to_string()));
        }
        let ghost rec = Record { key: key@, val: value@, timestamp };
        let entry = LogEntry { key, val: value, timestamp };
        let bytes = match encode(&entry) {
            Ok(b) => b,
            Err(e) => {
                return Err(e);
            },
        };
        let rolls = self.segment_len >= MAX_FILE_SIZE;
        if rolls && self.segment_id + 1 == u64::MAX {
            return Err(HobbesError::CompactionError("compacted segment ids used up".to_string()));
        }
        proof {
            lemma_parse_record_bytes(rec, Seq::<u8>::empty());
        }
        let ghost d0 = self.disk@;
        let ghost i0 = self.index@;
        let len = bytes.len() as u64;
        let ghost ids0 = self.ids@;
        let ghost ts0 = self.last_timestamp;
        let ghost seg0 = self.segment_id;
        self.written = Ghost(self.written@ + bytes@.len());
        if rolls {
            self.segment_id = self.segment_id + 1;
            self.segment_len = 0;
            self.ids = Ghost(ids0.push(self.segment_id));
            proof {
                lemma_sound_new_segment(d0, i0, self.segment_id, bytes@);
            }
            self.disk = Ghost(d0.insert(self.segment_id, bytes@));
        } else {
            proof {
                lemma_sound_append(d0, i0, self.segment_id, bytes@);
            }
            self.disk = Ghost(d0.insert(self.segment_id, d0[self.segment_id] + bytes@));
        }
        let offset = self.segment_len;
        self.segment_len = offset + len;
        if timestamp > self.last_timestamp {
            self.last_timestamp = timestamp;
        }
        let ie = IndexEntry { segment_id: self.segment_id, offset, timestamp };
        let ghost d1 = self.disk@;
        proof {
            assert(suffix_at(d1, ie) =~= bytes@ + Seq::<u8>::empty());
            assert(locates(d1, rec.key, ie));
        }
        self.index.insert(entry.key, ie);
        proof {
            if old(self).durable() && !i0.contains_key(rec.key) {
                assert(self.index@ == replay_step(i0, ie.segment_id, ie.offset as int, rec));
                if rolls {
                    lemma_place_new_durable(d0, i0, ids0, ie.segment_id, rec, bytes@);
                } else {
                    lemma_place_append_durable(d0, i0, ids0, ie.segment_id, rec, bytes@);
                }
                lemma_total_len_grow(d0, ids0, ie.segment_id, bytes@);
                assert forall|k: Seq<char>| #[trigger]
                    self.index@.contains_key(k) implies self.index@[k].timestamp
                    <= self.last_timestamp by {
                    if k != rec.key {
                        assert(i0.contains_key(k));
                    }
                }
            }
            assert(contents_of(d1, self.index@) =~= contents_of(d1, i0).insert(rec.key, rec.val));
            assert forall|id: u64| #[trigger] d1.contains_key(id) implies 1 <= id
                <= self.segment_id by {
                if id != self.segment_id {
                    assert(d0.contains_key(id));
                }
            }
        }
        Ok(Placement { segment_id: self.segment_id, offset, new_segment: rolls, bytes })
    }
}

impl Bitcask {
    /// Replaces the store's segments with the compacted ones. The active
    /// segment becomes a new, empty one after the last compacted segment, and
    /// the store then holds exactly what the compaction placed. The segments
    /// then hold the placed records' bytes and nothing more, which is at most
    /// `MAX_FILE_SIZE * (written / MAX_FILE_SIZE + 2)`.
    pub fn install(&mut self, c: Compaction)
        requires
            old(self).wf(),
            c.wf(),
        ensures
            final(self).wf(),
            final(self).contents() == c.placed(),
            final(self).index() == c.index(),
            final(self).active_id() == c.current_segment() + 1,
            forall|id: u64| #[trigger]
                final(self).disk().contains_key(id) ==> id <= final(self).active_id(),
            final(self).disk() == c.disk().insert(
                (c.current_segment() + 1) as u64,
                Seq::<u8>::empty(),
            ),
            final(self).clock() == if c.clock() > old(self).clock() {
                c.clock()
            } else {
                old(self).clock()
            },
            c.placed() == old(self).contents() ==> final(self).contents() == old(self).contents(),
            c.durable() ==> final(self).durable(),
            c.durable() ==> final(self).segment_ids() == c.segment_ids().push(
                (c.current_segment() + 1) as u64,
            ),
            c.durable() ==> total_len(final(self).disk(), final(self).segment_ids()) == c.written(),
            c.durable() ==> total_len(final(self).disk(), final(self).segment_ids())
                <= MAX_FILE_SIZE * (c.written() / (MAX_FILE_SIZE as nat) + 2),
    {
        let next = c.segment_id + 1;
        let ghost written = c.written@;
        let ghost cdisk = c.disk@;
        let ghost cids = c.ids@;
        let ghost cdurable = c.durable();
        proof {
            lemma_sound_new_segment(c.disk@, c.index@, next, Seq::<u8>::empty());
            if cdurable {
                assert(total_len(cdisk, cids) == written);
            }
        }
        let last = if c.last_timestamp > self.last_timestamp {
            c.last_timestamp
        } else {
            self.last_timestamp
        };
        self.index = c.index;
        self.current_id = next;
        self.active_len = 0;
        self.last_timestamp = last;
        self.disk = Ghost(c.disk@.insert(next, Seq::<u8>::empty()));
        self.ids = Ghost(c.ids@.push(next));
        proof {
            if c.durable() {
                assert(c.ids@.last() < next);
                lemma_place_new_durable_empty(c.disk@, c.index@, c.ids@, next);
                lemma_total_len_grow(c.disk@, c.ids@, next, Seq::<u8>::empty());
                assert(c.disk@.insert(next, Seq::<u8>::empty()) == self.disk@);
                assert(cids.push(next) == self.ids@);
                assert(total_len(self.disk@, self.ids@) == written);
                lemma_size_bound(written);
                assert forall|k: Seq<char>| #[trigger]
                    self.index@.contains_key(k) implies self.index@[k].timestamp
                    <= self.last_timestamp by {
                    assert(c.index@.contains_key(k));
                }
            }
        }
    }
}

/// Reopening a store gives back its index. A recovery that has replayed,
/// in ascending order of id, segments holding exactly the bytes of a durable
/// store's segments has rebuilt exactly that store's index, and so holds the
/// same value for every key.
pub proof fn lemma_reopen(s: Bitcask, r: Recovery)
    requires
        s.wf(),
        s.durable(),
        r.wf(),
        ascending(r.order()),
        r.disk() == s.disk(),
    ensures
        r.index() == s.index(),
        contents_of(r.disk(), r.index()) == s.contents(),
{
    assert(r.order@.to_set() =~= s.ids@.to_set()) by {
        assert forall|v: u64| r.order@.to_set().contains(v) <==> s.ids@.to_set().contains(v) by {
            assert(r.disk@.contains_key(v) <==> r.order@.contains(v));
            assert(s.disk@.contains_key(v) <==> s.ids@.contains(v));
        }
    }
    lemma_ascending_unique(r.order@, s.ids@);
}

} // verus!
