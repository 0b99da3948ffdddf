use vstd::prelude::*;
use crate::bytes::{bytes_equal, compare_bytes, lemma_lex_irreflexive, lemma_lex_transitive, lex_lt};
use crate::hasher::{fx_hash, hash_key};
use crate::record::{join, Record, Summary};

verus! {

/// Statistics per key, kept in ascending byte order of the keys. Each key's
/// hash is kept beside it, so that a lookup compares bytes only where hashes match.
pub struct StatsMap {
    pub keys: Vec<Vec<u8>>,
    pub hashes: Vec<u64>,
    pub records: Vec<Record>,
}

impl StatsMap {
    pub open spec fn len_spec(&self) -> int {
        self.keys@.len() as int
    }

    pub open spec fn key_spec(&self, i: int) -> Seq<u8> {
        self.keys@[i]@
    }

    pub open spec fn record_spec(&self, i: int) -> Record {
        self.records@[i]
    }

    /// Columns of equal length, well-formed records, true hashes, and keys
    /// strictly ascending.
    pub open spec fn wf(&self) -> bool {
        &&& self.hashes@.len() == self.keys@.len()
        &&& self.records@.len() == self.keys@.len()
        &&& forall|i: int| 0 <= i < self.len_spec() ==> (#[trigger] self.records@[i]).wf()
        &&& forall|i: int| 0 <= i < self.len_spec() ==> #[trigger] self.hashes@[i] == fx_hash(self.keys@[i]@)
        &&& forall|i: int, j: int| 0 <= i < j < self.len_spec() ==> lex_lt(#[trigger] self.key_spec(i), #[trigger] self.key_spec(j))
    }

    pub open spec fn has(&self, k: Seq<u8>) -> bool {
        exists|i: int| 0 <= i < self.len_spec() && #[trigger] self.key_spec(i) == k
    }

    /// What the map holds for `k`.
    pub open spec fn get(&self, k: Seq<u8>) -> Option<Summary> {
        if self.has(k) {
            Some(self.records@[choose|i: int| 0 <= i < self.len_spec() && #[trigger] self.key_spec(i) == k]@)
        } else {
            None
        }
    }

    /// The keys in ascending order.
    pub open spec fn key_seq(&self) -> Seq<Seq<u8>> {
        Seq::new(self.keys@.len(), |i: int| self.keys@[i]@)
    }

    pub proof fn lemma_get_at(&self, i: int)
        requires
            self.wf(),
            0 <= i < self.len_spec(),
        ensures
            self.get(self.key_spec(i)) == Some(self.records@[i]@),
    {
        let k = self.key_spec(i);
        assert(self.has(k));
        let j = choose|j: int| 0 <= j < self.len_spec() && #[trigger] self.key_spec(j) == k;
        if j < i {
            lemma_lex_irreflexive(self.key_spec(j), self.key_spec(i));
        } else if i < j {
            lemma_lex_irreflexive(self.key_spec(i), self.key_spec(j));
        }
    }

    pub fn new() -> (r: StatsMap)
        ensures
            r.wf(),
            r.len_spec() == 0,
            forall|k: Seq<u8>| #[trigger] r.get(k) is None,
    {
        StatsMap { keys: Vec::new(), hashes: Vec::new(), records: Vec::new() }
    }

    pub fn len(&self) -> (r: usize)
        ensures
            r == self.len_spec(),
    {
        self.keys.len()
    }

    /// The key at position `i` in ascending order.
    pub fn key_at(&self, i: usize) -> (r: &Vec<u8>)
        requires
            i < self.len_spec(),
        ensures
            r@ == self.key_spec(i as int),
    {
        &self.keys[i]
    }

    /// The record at position `i` in ascending key order.
    pub fn record_at(&self, i: usize) -> (r: Record)
        requires
            self.wf(),
            i < self.len_spec(),
        ensures
            r == self.record_spec(i as int),
    {
        self.records[i]
    }

    /// Folds `rec` into the record of `key`, or inserts it where the key is new.
    pub fn add(&mut self, key: &[u8], rec: Record)
        requires
            old(self).wf(),
            rec.wf(),
            old(self).get(key@) matches Some(s) ==> s.count + rec.count <= u64::MAX,
        ensures
            final(self).wf(),
            forall|k: Seq<u8>| #[trigger] final(self).get(k)
                == join(old(self).get(k), if k == key@ { Some(rec@) } else { None }),
    {
        let ghost start = *self;
        let h = hash_key(key);
        let n = self.keys.len();
        let mut i: usize = 0;
        while i < n
            invariant
                *self == start,
                start == *old(self),
                h == fx_hash(key@),
                self.wf(),
                rec.wf(),
                self.get(key@) matches Some(s) ==> s.count + rec.count <= u64::MAX,
                n == self.len_spec(),
                i <= n,
                forall|j: int| 0 <= j < i ==> self.key_spec(j) != key@,
            decreases n - i,
        {
            let same = self.hashes[i] == h && bytes_equal(self.keys[i].as_slice(), key);
            if same {
                proof {
                    self.lemma_get_at(i as int);
                }
                let ghost prev = *self;
                let mut r = self.records[i];
                r.merge(rec);
                self.records.set(i, r);
                proof {
                    assert(self.keys@ == prev.keys@);
                    assert(self.hashes@ == prev.hashes@);
                    assert(forall|j: int| 0 <= j < self.len_spec() && j != i ==> self.records@[j] == prev.records@[j]);
                    assert(forall|j: int| 0 <= j < self.len_spec() ==> (#[trigger] self.records@[j]).wf());
                    assert(forall|j: int| 0 <= j < self.len_spec() ==> #[trigger] self.key_spec(j) == prev.key_spec(j));
                    assert(self.wf());
                    assert forall|k: Seq<u8>| #[trigger] self.get(k)
                        == join(prev.get(k), if k == key@ { Some(rec@) } else { None }) by {
                        if k == key@ {
                            self.lemma_get_at(i as int);
                        } else if prev.has(k) {
                            let j = choose|j: int| 0 <= j < prev.len_spec() && #[trigger] prev.key_spec(j) == k;
                            prev.lemma_get_at(j);
                            self.lemma_get_at(j);
                        } else {
                            assert(!self.has(k));
                        }
                    }
                }
                return;
            }
            i = i + 1;
        }
        assert(!self.has(key@));
        // The key is new: insert it before the first larger key.
        let mut pos: usize = 0;
        while pos < n && compare_bytes(self.keys[pos].as_slice(), key) < 0
            invariant
                *self == start,
                start == *old(self),
                h == fx_hash(key@),
                self.wf(),
                n == self.len_spec(),
                pos <= n,
                forall|j: int| 0 <= j < pos ==> lex_lt(self.key_spec(j), key@),
            decreases n - pos,
        {
            pos = pos + 1;
        }
        proof {
            if pos < n {
                assert(lex_lt(key@, self.key_spec(pos as int)));
                assert forall|j: int| pos < j < n implies lex_lt(key@, self.key_spec(j)) by {
                    lemma_lex_transitive(key@, self.key_spec(pos as int), self.key_spec(j));
                }
            }
        }
        let ghost prev = *self;
        self.keys.insert(pos, vstd::slice::slice_to_vec(key));
        self.hashes.insert(pos, h);
        self.records.insert(pos, rec);
        proof {
            assert forall|i: int, j: int| 0 <= i < j < self.len_spec() implies lex_lt(
                #[trigger] self.key_spec(i), #[trigger] self.key_spec(j)) by {
                if j < pos {
                    assert(self.key_spec(i) == prev.key_spec(i));
                    assert(self.key_spec(j) == prev.key_spec(j));
                } else if j == pos {
                    assert(self.key_spec(i) == prev.key_spec(i));
                } else if i < pos {
                    assert(self.key_spec(i) == prev.key_spec(i));
                    assert(self.key_spec(j) == prev.key_spec(j - 1));
                    lemma_lex_transitive(self.key_spec(i), key@, self.key_spec(j));
                } else if i == pos {
                    assert(self.key_spec(j) == prev.key_spec(j - 1));
                } else {
                    assert(self.key_spec(i) == prev.key_spec(i - 1));
                    assert(self.key_spec(j) == prev.key_spec(j - 1));
                }
            }
            assert forall|k: Seq<u8>| #[trigger] self.get(k)
                == join(prev.get(k), if k == key@ { Some(rec@) } else { None }) by {
                if k == key@ {
                    self.lemma_get_at(pos as int);
                } else if prev.has(k) {
                    let j = choose|j: int| 0 <= j < prev.len_spec() && #[trigger] prev.key_spec(j) == k;
                    prev.lemma_get_at(j);
                    if j < pos {
                        self.lemma_get_at(j);
                    } else {
                        assert(self.key_spec(j + 1) == k);
                        self.lemma_get_at(j + 1);
                    }
                } else {
                    if self.has(k) {
                        let j = choose|j: int| 0 <= j < self.len_spec() && #[trigger] self.key_spec(j) == k;
                        if j < pos {
                            assert(prev.key_spec(j) == k);
                        } else if j > pos {
                            assert(prev.key_spec(j - 1) == k);
                        }
                    }
                }
            }
        }
    }

    /// `k` is among the first `i` keys.
    pub open spec fn seen(&self, k: Seq<u8>, i: int) -> bool {
        exists|j: int| 0 <= j < i && #[trigger] self.key_spec(j) == k
    }

    /// No key's combined count overflows when `other` is merged in.
    pub open spec fn fits(&self, other: &StatsMap) -> bool {
        forall|k: Seq<u8>| #![trigger self.get(k)] #![trigger other.get(k)]
            (self.get(k) is Some && other.get(k) is Some) ==> self.get(k)->Some_0.count + other.get(k)->Some_0.count <= u64::MAX
    }

    /// Folds every record of `other` into this map.
    pub fn merge_from(&mut self, other: &StatsMap)
        requires
            old(self).wf(),
            other.wf(),
            old(self).fits(other),
        ensures
            final(self).wf(),
            forall|k: Seq<u8>| #[trigger] final(self).get(k) == join(old(self).get(k), other.get(k)),
    {
        let ghost start = *self;
        let n = other.len();
        let mut i: usize = 0;
        while i < n
            invariant
                start == *old(self),
                self.wf(),
                other.wf(),
                start.fits(other),
                n == other.len_spec(),
                i <= n,
                forall|k: Seq<u8>| #[trigger] self.get(k)
                    == join(start.get(k), if other.seen(k, i as int) { other.get(k) } else { None }),
            decreases n - i,
        {
            let ghost key = other.key_spec(i as int);
            proof {
                other.lemma_get_at(i as int);
                if other.seen(key, i as int) {
                    let j = choose|j: int| 0 <= j < i && #[trigger] other.key_spec(j) == key;
                    lemma_lex_irreflexive(other.key_spec(j), key);
                }
                assert(self.get(key) == start.get(key));
            }
            let ghost before = *self;
            self.add(other.keys[i].as_slice(), other.records[i]);
            proof {
                assert forall|k: Seq<u8>| #[trigger] self.get(k)
                    == join(start.get(k), if other.seen(k, i + 1) { other.get(k) } else { None }) by {
                    assert(before.get(k) == join(start.get(k), if other.seen(k, i as int) { other.get(k) } else { None }));
                    if k == key {
                        assert(other.seen(k, i + 1));
                    } else if other.seen(k, i + 1) {
                        let j = choose|j: int| 0 <= j < i + 1 && #[trigger] other.key_spec(j) == k;
                        assert(other.seen(k, i as int));
                    } else {
                        assert(!other.seen(k, i as int));
                    }
                }
            }
            i = i + 1;
        }
        proof {
            assert forall|k: Seq<u8>| #[trigger] self.get(k) == join(start.get(k), other.get(k)) by {
                if other.has(k) {
                    assert(other.seen(k, n as int));
                } else {
                    assert(!other.seen(k, n as int));
                }
            }
        }
    }
}

} // verus!
