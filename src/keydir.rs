//! The in-memory key directory: from each live key to where its latest value lies.
use vstd::prelude::*;

verus! {

/// Where the latest value of a key lies: segment, offset of the value bytes, length, time written.
#[derive(Debug, Clone, Copy, PartialEq, Eq, Structural)]
pub struct KeyDir {
    pub file_id: u64,
    pub value_size: u64,
    pub value_pos: u64,
    pub timestamp: u64,
}

/// Whether two byte strings are equal, byte by byte.
pub fn bytes_eq(a: &[u8], b: &[u8]) -> (r: bool)
    ensures
        r == (a@ == b@),
{
    if a.len() != b.len() {
        return false;
    }
    let mut i: usize = 0;
    while i < a.len()
        invariant
            a@.len() == b@.len(),
            0 <= i <= a@.len(),
            forall|j: int| 0 <= j < i ==> a@[j] == b@[j],
        decreases a@.len() - i,
    {
        if a[i] != b[i] {
            return false;
        }
        i = i + 1;
    }
    assert(a@ =~= b@);
    true
}

/// A map from keys to `KeyDir` entries, kept as a vector of distinct keys.
#[derive(Debug)]
pub struct KeyDirectory {
    entries: Vec<(Vec<u8>, KeyDir)>,
}

/// Whether the keys of `s` are pairwise distinct.
pub open spec fn distinct_keys(s: Seq<(Vec<u8>, KeyDir)>) -> bool {
    forall|i: int, j: int|
        0 <= i < s.len() && 0 <= j < s.len() && #[trigger] s[i].0@ == #[trigger] s[j].0@ ==> i == j
}

/// Whether `k` is the key of some pair in `s`.
pub open spec fn holds_key(s: Seq<(Vec<u8>, KeyDir)>, k: Seq<u8>) -> bool {
    exists|i: int| 0 <= i < s.len() && #[trigger] s[i].0@ == k
}

/// The map that a vector of pairs with distinct keys stands for.
pub open spec fn pairs_map(s: Seq<(Vec<u8>, KeyDir)>) -> Map<Seq<u8>, KeyDir> {
    Map::new(
        |k: Seq<u8>| holds_key(s, k),
        |k: Seq<u8>| s[choose|i: int| 0 <= i < s.len() && #[trigger] s[i].0@ == k].1,
    )
}

impl View for KeyDirectory {
    type V = Map<Seq<u8>, KeyDir>;

    closed spec fn view(&self) -> Map<Seq<u8>, KeyDir> {
        pairs_map(self.entries@)
    }
}

proof fn lemma_pairs_map_at(s: Seq<(Vec<u8>, KeyDir)>, i: int)
    requires
        distinct_keys(s),
        0 <= i < s.len(),
    ensures
        pairs_map(s).contains_key(s[i].0@),
        pairs_map(s)[s[i].0@] == s[i].1,
{
    assert(holds_key(s, s[i].0@));
    let j = choose|j: int| 0 <= j < s.len() && #[trigger] s[j].0@ == s[i].0@;
    assert(s[j].0@ == s[i].0@);
}

impl KeyDirectory {
    /// Well-formed: no key appears twice.
    pub closed spec fn wf(&self) -> bool {
        distinct_keys(self.entries@)
    }

    /// An empty directory.
    pub fn new() -> (r: KeyDirectory)
        ensures
            r.wf(),
            r@ == Map::<Seq<u8>, KeyDir>::empty(),
    {
        let r = KeyDirectory { entries: Vec::new() };
        assert(r@ =~= Map::<Seq<u8>, KeyDir>::empty());
        r
    }

    /// The number of keys.
    pub fn len(&self) -> (r: usize)
        requires
            self.wf(),
        ensures
            r == self@.dom().len(),
    {
        proof {
            self.lemma_len();
        }
        self.entries.len()
    }

    proof fn lemma_len(&self)
        requires
            self.wf(),
        ensures
            self.entries@.len() == self@.dom().len(),
        decreases self.entries@.len(),
    {
        let s = self.entries@;
        let keys = Seq::new(s.len(), |i: int| s[i].0@);
        assert forall|i: int, j: int| 0 <= i < keys.len() && 0 <= j < keys.len() && i != j
            implies keys[i] != keys[j] by {
            assert(s[i].0@ == keys[i] && s[j].0@ == keys[j]);
        }
        assert(keys.no_duplicates());
        keys.unique_seq_to_set();
        assert(keys.to_set() =~= self@.dom()) by {
            assert forall|k: Seq<u8>| keys.to_set().contains(k) implies self@.dom().contains(k) by {
                let i = choose|i: int| 0 <= i < keys.len() && keys[i] == k;
                assert(s[i].0@ == k);
            }
            assert forall|k: Seq<u8>| self@.dom().contains(k) implies keys.to_set().contains(k) by {
                let i = choose|i: int| 0 <= i < s.len() && #[trigger] s[i].0@ == k;
                assert(keys[i] == k);
            }
        }
    }

    /// The index of `key`, if present.
    fn find(&self, key: &[u8]) -> (r: Option<usize>)
        requires
            self.wf(),
        ensures
            match r {
                Some(i) => i < self.entries@.len() && self.entries@[i as int].0@ == key@,
                None => !holds_key(self.entries@, key@),
            },
    {
        let mut i: usize = 0;
        while i < self.entries.len()
            invariant
                0 <= i <= self.entries@.len(),
                forall|j: int| 0 <= j < i ==> #[trigger] self.entries@[j].0@ != key@,
            decreases self.entries@.len() - i,
        {
            if bytes_eq(self.entries[i].0.as_slice(), key) {
                return Some(i);
            }
            i = i + 1;
        }
        None
    }

    /// The entry of `key`, if present.
    pub fn get(&self, key: &[u8]) -> (r: Option<KeyDir>)
        requires
            self.wf(),
        ensures
            r == (if self@.contains_key(key@) {
                Some(self@[key@])
            } else {
                None::<KeyDir>
            }),
    {
        match self.find(key) {
            Some(i) => {
                proof {
                    lemma_pairs_map_at(self.entries@, i as int);
                }
                Some(self.entries[i].1)
            },
            None => None,
        }
    }

    /// Whether `key` is present.
    pub fn contains_key(&self, key: &[u8]) -> (r: bool)
        requires
            self.wf(),
        ensures
            r == self@.contains_key(key@),
    {
        self.find(key).is_some()
    }

    /// The keys, each once, in no particular order.
    pub fn keys(&self) -> (r: Vec<Vec<u8>>)
        requires
            self.wf(),
        ensures
            r@.len() == self@.dom().len(),
            forall|i: int| 0 <= i < r@.len() ==> self@.contains_key(#[trigger] r@[i]@),
            forall|k: Seq<u8>|
                #[trigger] self@.contains_key(k) ==> exists|i: int| 0 <= i < r@.len() && r@[i]@ == k,
            forall|i: int, j: int|
                0 <= i < r@.len() && 0 <= j < r@.len() && #[trigger] r@[i]@ == #[trigger] r@[j]@
                    ==> i == j,
    {
        proof {
            self.lemma_len();
        }
        let mut r: Vec<Vec<u8>> = Vec::new();
        let mut i: usize = 0;
        while i < self.entries.len()
            invariant
                self.wf(),
                0 <= i <= self.entries@.len(),
                r@.len() == i,
                forall|j: int| 0 <= j < i ==> (#[trigger] r@[j])@ == self.entries@[j].0@,
            decreases self.entries@.len() - i,
        {
            let k = self.entries[i].0.clone();
            r.push(k);
            i = i + 1;
        }
        proof {
            let s = self.entries@;
            assert forall|j: int| 0 <= j < r@.len() implies self@.contains_key(#[trigger] r@[j]@) by {
                lemma_pairs_map_at(s, j);
            }
            assert forall|k: Seq<u8>| #[trigger] self@.contains_key(k) implies exists|j: int|
                0 <= j < r@.len() && r@[j]@ == k by {
                let j = choose|j: int| 0 <= j < s.len() && #[trigger] s[j].0@ == k;
                assert(r@[j]@ == k);
            }
            assert forall|a: int, b: int|
                0 <= a < r@.len() && 0 <= b < r@.len() && #[trigger] r@[a]@ == #[trigger] r@[b]@
                implies a == b by {
                assert(s[a].0@ == r@[a]@ && s[b].0@ == r@[b]@);
            }
        }
        r
    }

    /// Inserts or overwrites the entry of `key`.
    pub fn insert(&mut self, key: Vec<u8>, entry: KeyDir)
        requires
            old(self).wf(),
        ensures
            final(self).wf(),
            final(self)@ == old(self)@.insert(key@, entry),
    {
        let ghost s0 = self.entries@;
        match self.find(key.as_slice()) {
            Some(i) => {
                self.entries.set(i, (key, entry));
                let ghost s1 = self.entries@;
                assert(distinct_keys(s1)) by {
                    assert forall|a: int, b: int|
                        0 <= a < s1.len() && 0 <= b < s1.len() && #[trigger] s1[a].0@
                            == #[trigger] s1[b].0@ implies a == b by {
                        assert(s1[a].0@ == s0[a].0@ && s1[b].0@ == s0[b].0@);
                    }
                }
                assert(pairs_map(s1) =~= pairs_map(s0).insert(s1[i as int].0@, entry)) by {
                    assert forall|k: Seq<u8>| #[trigger] pairs_map(s1).contains_key(k)
                        <==> pairs_map(s0).insert(s1[i as int].0@, entry).contains_key(k) by {
                        if holds_key(s1, k) {
                            let a = choose|a: int| 0 <= a < s1.len() && #[trigger] s1[a].0@ == k;
                            assert(s0[a].0@ == k);
                        }
                        if holds_key(s0, k) {
                            let a = choose|a: int| 0 <= a < s0.len() && #[trigger] s0[a].0@ == k;
                            assert(s1[a].0@ == k);
                        }
                    }
                    assert forall|k: Seq<u8>| #[trigger] pairs_map(s1).contains_key(k) implies
                        pairs_map(s1)[k] == pairs_map(s0).insert(s1[i as int].0@, entry)[k] by {
                        let a = choose|a: int| 0 <= a < s1.len() && #[trigger] s1[a].0@ == k;
                        lemma_pairs_map_at(s1, a);
                        if a != i {
                            assert(s0[a] == s1[a]);
                            lemma_pairs_map_at(s0, a);
                        }
                    }
                }
            },
            None => {
                let ghost k = key@;
                self.entries.push((key, entry));
                let ghost s1 = self.entries@;
                assert(s1[s0.len() as int].0@ == k);
                assert(distinct_keys(s1)) by {
                    assert forall|a: int, b: int|
                        0 <= a < s1.len() && 0 <= b < s1.len() && #[trigger] s1[a].0@
                            == #[trigger] s1[b].0@ implies a == b by {
                        if a < s0.len() {
                            assert(s1[a] == s0[a]);
                        }
                        if b < s0.len() {
                            assert(s1[b] == s0[b]);
                        }
                    }
                }
                assert(pairs_map(s1) =~= pairs_map(s0).insert(k, entry)) by {
                    assert forall|kk: Seq<u8>| #[trigger] pairs_map(s1).contains_key(kk)
                        <==> pairs_map(s0).insert(k, entry).contains_key(kk) by {
                        if holds_key(s1, kk) && kk != k {
                            let a = choose|a: int| 0 <= a < s1.len() && #[trigger] s1[a].0@ == kk;
                            assert(s0[a].0@ == kk);
                        }
                        if holds_key(s0, kk) {
                            let a = choose|a: int| 0 <= a < s0.len() && #[trigger] s0[a].0@ == kk;
                            assert(s1[a].0@ == kk);
                        }
                    }
                    assert forall|kk: Seq<u8>| #[trigger] pairs_map(s1).contains_key(kk) implies
                        pairs_map(s1)[kk] == pairs_map(s0).insert(k, entry)[kk] by {
                        let a = choose|a: int| 0 <= a < s1.len() && #[trigger] s1[a].0@ == kk;
                        lemma_pairs_map_at(s1, a);
                        if a < s0.len() {
                            assert(s0[a] == s1[a]);
                            lemma_pairs_map_at(s0, a);
                        }
                    }
                }
            },
        }
    }
}

} // verus!
