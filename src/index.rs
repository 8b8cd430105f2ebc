//! The in-memory index: for each live key, where its latest record lies.
use vstd::prelude::*;

verus! {

/// Where a key's latest record lies: its segment, its byte offset in that
/// segment, and the record's timestamp.
#[derive(Debug, Clone, Copy, PartialEq, Eq, Structural)]
pub struct IndexEntry {
    pub segment_id: u64,
    pub offset: u64,
    pub timestamp: u64,
}

/// A map from keys to [`IndexEntry`] values, keys unique.
pub struct KeyIndex {
    entries: Vec<(String, IndexEntry)>,
    map: Ghost<Map<Seq<char>, IndexEntry>>,
}

impl View for KeyIndex {
    type V = Map<Seq<char>, IndexEntry>;

    closed spec fn view(&self) -> Map<Seq<char>, IndexEntry> {
        self.map@
    }
}

impl KeyIndex {
    /// The entries and the map agree, and no key occurs twice.
    pub closed spec fn wf(&self) -> bool {
        &&& forall|i: int|
            0 <= i < self.entries@.len() ==> #[trigger] self.map@.contains_key(
                self.entries@[i].0@,
            ) && self.map@[self.entries@[i].0@] == self.entries@[i].1
        &&& forall|k: Seq<char>| #[trigger]
            self.map@.contains_key(k) ==> exists|i: int|
                0 <= i < self.entries@.len() && #[trigger] self.entries@[i].0@ == k
        &&& forall|i: int, j: int|
            0 <= i < self.entries@.len() && 0 <= j < self.entries@.len() && i != j
                ==> #[trigger] self.entries@[i].0@ != #[trigger] self.entries@[j].0@
    }

    /// An empty index.
    pub fn new() -> (r: KeyIndex)
        ensures
            r.wf(),
            r@ == Map::<Seq<char>, IndexEntry>::empty(),
    {
        KeyIndex { entries: Vec::new(), map: Ghost(Map::empty()) }
    }

    fn find(&self, key: &String) -> (r: Option<usize>)
        requires
            self.wf(),
        ensures
            r matches Some(i) ==> i < self.entries@.len() && self.entries@[i as int].0@ == key@,
            r is None ==> !self@.contains_key(key@),
    {
        let mut i: usize = 0;
        while i < self.entries.len()
            invariant
                self.wf(),
                i <= self.entries@.len(),
                forall|j: int| 0 <= j < i ==> self.entries@[j].0@ != key@,
            decreases self.entries@.len() - i,
        {
            if self.entries[i].0 == *key {
                return Some(i);
            }
            i = i + 1;
        }
        None
    }

    /// The entry of `key`, if any.
    pub fn get(&self, key: &String) -> (r: Option<IndexEntry>)
        requires
            self.wf(),
        ensures
            r == self@.get(key@),
    {
        match self.find(key) {
            Some(i) => Some(self.entries[i].1),
            None => None,
        }
    }

    /// Whether `key` has an entry.
    pub fn contains(&self, key: &String) -> (r: bool)
        requires
            self.wf(),
        ensures
            r == self@.contains_key(key@),
    {
        self.find(key).is_some()
    }

    /// Sets the entry of `key` to `e`.
    pub fn insert(&mut self, key: String, e: IndexEntry)
        requires
            old(self).wf(),
        ensures
            final(self).wf(),
            final(self)@ == old(self)@.insert(key@, e),
    {
        let ghost k = key@;
        match self.find(&key) {
            Some(i) => {
                let ghost before = self.entries@;
                self.entries.set(i, (key, e));
                self.map = Ghost(self.map@.insert(k, e));
                assert forall|a: int, b: int|
                    0 <= a < self.entries@.len() && 0 <= b < self.entries@.len() && a != b
                        implies #[trigger] self.entries@[a].0@ != #[trigger] self.entries@[b].0@ by {
                    assert(before[a].0@ != before[b].0@);
                }
                assert forall|k2: Seq<char>| #[trigger]
                    self.map@.contains_key(k2) implies exists|j: int|
                        0 <= j < self.entries@.len() && #[trigger] self.entries@[j].0@ == k2 by {
                    if k2 != k {
                        let j = choose|j: int|
                            0 <= j < old(self).entries@.len() && #[trigger] old(
                                self,
                            ).entries@[j].0@ == k2;
                        assert(self.entries@[j].0@ == k2);
                    } else {
                        assert(self.entries@[i as int].0@ == k2);
                    }
                }
            },
            None => {
                let ghost before = self.entries@;
                assert forall|j: int| 0 <= j < before.len() implies before[j].0@ != k by {
                    assert(old(self).map@.contains_key(before[j].0@));
                }
                self.entries.push((key, e));
                self.map = Ghost(self.map@.insert(k, e));
                assert forall|a: int, b: int|
                    0 <= a < self.entries@.len() && 0 <= b < self.entries@.len() && a != b
                        implies #[trigger] self.entries@[a].0@ != #[trigger] self.entries@[b].0@ by {
                    if a < before.len() && b < before.len() {
                        assert(before[a].0@ != before[b].0@);
                    }
                }
                let ghost n = self.entries@.len() as int - 1;
                assert forall|k2: Seq<char>| #[trigger]
                    self.map@.contains_key(k2) implies exists|j: int|
                        0 <= j < self.entries@.len() && #[trigger] self.entries@[j].0@ == k2 by {
                    if k2 != k {
                        let j = choose|j: int|
                            0 <= j < old(self).entries@.len() && #[trigger] old(
                                self,
                            ).entries@[j].0@ == k2;
                        assert(self.entries@[j].0@ == k2);
                    } else {
                        assert(self.entries@[n].0@ == k2);
                    }
                }
            },
        }
    }

    /// Removes the entry of `key` and returns it, if there was one.
    pub fn remove(&mut self, key: &String) -> (r: Option<IndexEntry>)
        requires
            old(self).wf(),
        ensures
            final(self).wf(),
            r == old(self)@.get(key@),
            final(self)@ == old(self)@.remove(key@),
    {
        match self.find(key) {
            Some(i) => {
                let ghost k = key@;
                let ghost before = self.entries@;
                let removed = self.entries.swap_remove(i);
                self.map = Ghost(self.map@.remove(k));
                assert forall|k2: Seq<char>| #[trigger]
                    self.map@.contains_key(k2) implies exists|j: int|
                        0 <= j < self.entries@.len() && #[trigger] self.entries@[j].0@ == k2 by {
                    let j = choose|j: int|
                        0 <= j < before.len() && #[trigger] before[j].0@ == k2;
                    if j == before.len() - 1 {
                        assert(self.entries@[i as int].0@ == k2);
                    } else {
                        assert(self.entries@[j].0@ == k2);
                    }
                }
                Some(removed.1)
            },
            None => {
                assert(self.map@.remove(key@) =~= self.map@);
                None
            },
        }
    }

    /// The keys, each once.
    pub fn keys(&self) -> (r: Vec<String>)
        requires
            self.wf(),
        ensures
            r@.len() == self@.dom().len(),
            forall|i: int| 0 <= i < r@.len() ==> self@.contains_key(#[trigger] r@[i]@),
            forall|k: Seq<char>| #[trigger]
                self@.contains_key(k) ==> exists|i: int| 0 <= i < r@.len() && r@[i]@ == k,
            forall|i: int, j: int|
                0 <= i < r@.len() && 0 <= j < r@.len() && i != j ==> #[trigger] r@[i]@
                    != #[trigger] r@[j]@,
    {
        let mut out: Vec<String> = Vec::new();
        let mut i: usize = 0;
        while i < self.entries.len()
            invariant
                self.wf(),
                i <= self.entries@.len(),
                out@.len() == i,
                forall|j: int| 0 <= j < i ==> #[trigger] out@[j]@ == self.entries@[j].0@,
            decreases self.entries@.len() - i,
        {
            out.push(self.entries[i].0.clone());
            i = i + 1;
        }
        proof {
            self.lemma_len();
            assert forall|k: Seq<char>| #[trigger]
                self@.contains_key(k) implies exists|i: int| 0 <= i < out@.len() && out@[i]@ == k by {
                let j = choose|j: int|
                    0 <= j < self.entries@.len() && #[trigger] self.entries@[j].0@ == k;
                assert(out@[j]@ == k);
            }
            assert forall|a: int, b: int|
                0 <= a < out@.len() && 0 <= b < out@.len() && a != b implies #[trigger] out@[a]@
                    != #[trigger] out@[b]@ by {
                assert(self.entries@[a].0@ != self.entries@[b].0@);
            }
        }
        out
    }

    /// The number of keys.
    pub fn len(&self) -> (r: usize)
        requires
            self.wf(),
        ensures
            r == self@.dom().len(),
    {
        proof {
            self.lemma_len();
        }
        self.entries.len()
    }

    proof fn lemma_len(&self)
        requires
            self.wf(),
        ensures
            self.entries@.len() == self@.dom().len(),
            self@.dom().finite(),
    {
        let keys = self.entries@.map_values(|p: (String, IndexEntry)| p.0@);
        assert forall|i: int, j: int| 0 <= i < keys.len() && 0 <= j < keys.len() && i != j
            implies keys[i] != keys[j] by {
            assert(self.entries@[i].0@ != self.entries@[j].0@);
        }
        assert(keys.no_duplicates());
        keys.unique_seq_to_set();
        assert forall|k: Seq<char>| self@.dom().contains(k) <==> keys.to_set().contains(k) by {
            if self@.contains_key(k) {
                let j = choose|j: int|
                    0 <= j < self.entries@.len() && #[trigger] self.entries@[j].0@ == k;
                assert(keys[j] == k);
            }
            if keys.to_set().contains(k) {
                let j = choose|j: int| 0 <= j < keys.len() && keys[j] == k;
                assert(self.entries@[j].0@ == k);
            }
        }
        assert(self@.dom() =~= keys.to_set());
    }
}

} // verus!
