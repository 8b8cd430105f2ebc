use std::collections::BTreeMap;

use hobbes_kv::codec::{record_len, HEADER_LEN};
use hobbes_kv::error::HobbesError;
use hobbes_kv::store::{Bitcask, Compaction, Recovery, MAX_FILE_SIZE};

/// Drives the store over segments held in memory, the way a server drives
/// it over files.
struct Sim {
    core: Bitcask,
    segs: BTreeMap<u64, Vec<u8>>,
    clock: u64,
    compactions: usize,
}

impl Sim {
    fn fresh() -> Sim {
        Sim::open(BTreeMap::new())
    }

    fn open(mut segs: BTreeMap<u64, Vec<u8>>) -> Sim {
        let mut rec = Recovery::new();
        for (id, bytes) in segs.iter() {
            rec.replay_segment(*id, bytes).expect("replay");
        }
        let core = rec.finish();
        let active = core.active_segment();
        let seg = segs.entry(active).or_default();
        seg.truncate(core.active_len() as usize);
        Sim { core, segs, clock: 1, compactions: 0 }
    }

    fn tick(&mut self) -> u64 {
        self.clock += 1;
        self.clock
    }

    fn append_and_commit(&mut self, w: hobbes_kv::store::PendingWrite) {
        let active = self.core.active_segment();
        self.segs.get_mut(&active).unwrap().extend_from_slice(w.bytes());
        if self.core.commit(w) {
            self.compact();
        }
    }

    fn set(&mut self, k: &str, v: &str) -> Result<(), HobbesError> {
        let now = self.tick();
        let w = self.core.prepare_set(k.to_string(), v.to_string(), now)?;
        self.append_and_commit(w);
        Ok(())
    }

    fn remove(&mut self, k: &str) -> Result<(), HobbesError> {
        let now = self.tick();
        let w = self.core.prepare_remove(k.to_string(), now)?;
        self.append_and_commit(w);
        Ok(())
    }

    fn get(&self, k: &str) -> Option<String> {
        let e = self.core.locate(&k.to_string())?;
        let seg = &self.segs[&e.segment_id];
        let off = e.offset as usize;
        let n = record_len(&seg[off..off + HEADER_LEN]).unwrap();
        Bitcask::value_from_record(&seg[off..off + n]).unwrap()
    }

    fn compact(&mut self) {
        let mut c = Compaction::new();
        let mut out: BTreeMap<u64, Vec<u8>> = BTreeMap::new();
        out.insert(1, Vec::new());
        for k in self.core.keys() {
            let e = self.core.locate(&k).unwrap();
            let v = self.get(&k).unwrap();
            let p = c.place(k, v, e.timestamp).unwrap();
            let seg = out.entry(p.segment_id).or_default();
            assert_eq!(seg.len() as u64, p.offset);
            seg.extend_from_slice(&p.bytes);
        }
        self.core.install(c);
        out.insert(self.core.active_segment(), Vec::new());
        self.segs = out;
        self.compactions += 1;
    }

    fn logs_size(&self) -> usize {
        self.segs.values().map(|s| s.len()).sum()
    }
}

#[test]
fn open_set_get_on_fresh_store() {
    let mut s = Sim::fresh();
    s.set("Foo", "Bar").unwrap();
    assert_eq!(s.get("Foo"), Some("Bar".to_string()));
    assert_eq!(s.get("Missing"), None);
}

#[test]
fn overwrite_then_remove_twice() {
    let mut s = Sim::fresh();
    s.set("k", "v1").unwrap();
    s.set("k", "v2").unwrap();
    assert_eq!(s.get("k"), Some("v2".to_string()));
    s.remove("k").unwrap();
    assert_eq!(s.get("k"), None);
    assert_eq!(s.remove("k"), Err(HobbesError::KeyNotFoundError));
}

#[test]
fn set_then_get_round_trip() {
    let mut s = Sim::fresh();
    for (k, v) in [("a", "1"), ("", "empty key"), ("ключ", "значение"), ("x", "")] {
        s.set(k, v).unwrap();
        assert_eq!(s.get(k), Some(v.to_string()));
    }
}

#[test]
fn remove_of_missing_key_is_key_not_found() {
    let mut s = Sim::fresh();
    assert_eq!(s.remove("nothing"), Err(HobbesError::KeyNotFoundError));
}

#[test]
fn tombstone_value_reads_as_absent() {
    let mut s = Sim::fresh();
    s.set("k", "v").unwrap();
    s.set("k", "!tomb!").unwrap();
    assert_eq!(s.get("k"), None);
}

#[test]
fn reopen_keeps_every_get() {
    let mut s = Sim::fresh();
    s.set("a", "1").unwrap();
    s.set("b", "2").unwrap();
    s.set("a", "3").unwrap();
    s.remove("b").unwrap();
    s.set("c", "4").unwrap();
    let r = Sim::open(s.segs.clone());
    for k in ["a", "b", "c", "d"] {
        assert_eq!(r.get(k), s.get(k));
    }
    assert_eq!(r.get("a"), Some("3".to_string()));
    assert_eq!(r.get("b"), None);
}

#[test]
fn reopen_after_removal_in_later_segment() {
    let mut s = Sim::fresh();
    s.set("gone", "x").unwrap();
    s.set("kept", "y").unwrap();
    s.compact();
    s.remove("gone").unwrap();
    let r = Sim::open(s.segs.clone());
    assert_eq!(r.get("gone"), None);
    assert_eq!(r.get("kept"), Some("y".to_string()));
}

#[test]
fn reopen_tolerates_truncated_tail() {
    let mut s = Sim::fresh();
    s.set("a", "1").unwrap();
    s.set("b", "2").unwrap();
    let mut segs = s.segs.clone();
    let active = s.core.active_segment();
    let seg = segs.get_mut(&active).unwrap();
    let cut = seg.len() - 3;
    seg.truncate(cut);
    let mut r = Sim::open(segs);
    assert_eq!(r.get("a"), Some("1".to_string()));
    assert_eq!(r.get("b"), None);
    r.set("c", "3").unwrap();
    let again = Sim::open(r.segs.clone());
    assert_eq!(again.get("c"), Some("3".to_string()));
    assert_eq!(again.get("a"), Some("1".to_string()));
}

#[test]
fn malformed_record_fails_replay() {
    let mut s = Sim::fresh();
    s.set("a", "1").unwrap();
    let mut bytes = s.segs[&s.core.active_segment()].clone();
    // the key's single byte becomes a stray continuation byte
    bytes[HEADER_LEN] = 0x80;
    let mut rec = Recovery::new();
    assert!(matches!(
        rec.replay_segment(1, &bytes),
        Err(HobbesError::DeserializationError(_))
    ));
}

#[test]
fn replay_keeps_newer_record_whatever_the_order() {
    let mut s = Sim::fresh();
    s.set("k", "old").unwrap();
    s.compact();
    s.set("k", "new").unwrap();
    let segs = s.segs.clone();
    let mut rec = Recovery::new();
    for (id, bytes) in segs.iter().rev() {
        rec.replay_segment(*id, bytes).unwrap();
    }
    let core = rec.finish();
    let e = core.locate(&"k".to_string()).unwrap();
    assert_eq!(e.segment_id, s.core.active_segment());
}

#[test]
fn many_writes_compact_and_survive_reopen() {
    let mut s = Sim::fresh();
    let value = "v".repeat(500);
    for i in 0..2000 {
        s.set(&format!("key_{i}"), &format!("{value}{i}")).unwrap();
    }
    assert!(s.compactions >= 1);
    for i in 0..2000 {
        assert_eq!(s.get(&format!("key_{i}")), Some(format!("{value}{i}")));
    }
    let r = Sim::open(s.segs.clone());
    for i in 0..2000 {
        assert_eq!(r.get(&format!("key_{i}")), Some(format!("{value}{i}")));
    }
}

#[test]
fn compaction_preserves_state_and_bounds_size() {
    let mut s = Sim::fresh();
    let value = "w".repeat(300);
    for round in 0..24 {
        for i in 0..400 {
            s.set(&format!("k{i}"), &format!("{round}-{value}")).unwrap();
        }
        for i in 0..50 {
            let _ = s.remove(&format!("k{}", i * 7 + round));
        }
    }
    assert!(s.compactions >= 2);
    let live = s.core.len();
    for i in 0..400 {
        let got = s.get(&format!("k{i}"));
        if let Some(v) = got {
            assert!(v.ends_with(&value));
        }
    }
    let per_entry = 16 + 4 + 300 + 3;
    let bound = MAX_FILE_SIZE as usize * (live * per_entry / MAX_FILE_SIZE as usize + 2);
    assert!(s.logs_size() <= bound);
    let before: Vec<Option<String>> = (0..400).map(|i| s.get(&format!("k{i}"))).collect();
    s.compact();
    let after: Vec<Option<String>> = (0..400).map(|i| s.get(&format!("k{i}"))).collect();
    assert_eq!(before, after);
}

#[test]
fn compaction_rolls_over_full_segments() {
    let mut c = Compaction::new();
    let big = "z".repeat(400_000);
    let first = c.place("a".to_string(), big.clone(), 1).unwrap();
    let second = c.place("b".to_string(), big.clone(), 2).unwrap();
    let third = c.place("c".to_string(), big.clone(), 3).unwrap();
    let fourth = c.place("d".to_string(), big, 4).unwrap();
    assert_eq!((first.segment_id, first.offset, first.new_segment), (1, 0, false));
    assert_eq!(second.segment_id, 1);
    assert_eq!(second.offset, first.bytes.len() as u64);
    assert_eq!(third.segment_id, 1);
    assert_eq!((fourth.segment_id, fourth.offset, fourth.new_segment), (2, 0, true));
}

#[test]
fn compaction_refuses_tombstone_value() {
    let mut c = Compaction::new();
    assert!(matches!(
        c.place("k".to_string(), "!tomb!".to_string(), 1),
        Err(HobbesError::CompactionError(_))
    ));
}

#[test]
fn install_moves_writes_past_compacted_segments() {
    let mut core = Bitcask::new();
    assert_eq!(core.active_segment(), 1);
    let w = core.prepare_set("k".to_string(), "v".to_string(), 5).unwrap();
    assert_eq!(w.get_timestamp(), 5);
    core.commit(w);
    let c = Compaction::new();
    core.install(c);
    assert_eq!(core.active_segment(), 2);
    assert_eq!(core.active_len(), 0);
    assert_eq!(core.len(), 0);
}

#[test]
fn timestamps_never_go_backwards() {
    let mut core = Bitcask::new();
    let w = core.prepare_set("k".to_string(), "v".to_string(), 100).unwrap();
    core.commit(w);
    let w2 = core.prepare_set("k".to_string(), "v2".to_string(), 40).unwrap();
    assert_eq!(w2.get_timestamp(), 100);
}

#[test]
fn commit_reports_compaction_due_at_threshold() {
    let mut core = Bitcask::new();
    let big = "q".repeat(MAX_FILE_SIZE as usize);
    let w = core.prepare_set("k".to_string(), "small".to_string(), 1).unwrap();
    assert!(!core.commit(w));
    assert!(!core.compaction_due());
    let w = core.prepare_set("k".to_string(), big, 2).unwrap();
    assert!(core.commit(w));
    assert!(core.compaction_due());
}

#[test]
fn locate_points_at_the_latest_record() {
    let mut core = Bitcask::new();
    let w1 = core.prepare_set("k".to_string(), "a".to_string(), 1).unwrap();
    let n1 = w1.bytes().len() as u64;
    core.commit(w1);
    let w2 = core.prepare_set("k".to_string(), "b".to_string(), 2).unwrap();
    core.commit(w2);
    let e = core.locate(&"k".to_string()).unwrap();
    assert_eq!((e.segment_id, e.offset, e.timestamp), (1, n1, 2));
    assert_eq!(core.active_len(), 2 * n1);
}
