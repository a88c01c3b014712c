//! The keyspace: a mapping from key to stored entry. An entry holds the value
//! and, when the key was set with a ttl, the absolute deadline on the engine's
//! monotonic clock, in milliseconds.
//!
//! The store is kept as a list of pairs with pairwise distinct keys; its
//! mathematical content is the map from key to entry model.
use vstd::prelude::*;
use crate::bytes::bytes_eq;

verus! {

/// A stored value together with its optional expiry deadline (milliseconds on
/// the engine's monotonic clock).
pub struct Entry {
    pub value: Vec<u8>,
    pub expires_at: Option<u64>,
}

/// The mathematical shape of an entry: the value bytes and the deadline.
pub ghost struct EntryModel {
    pub value: Seq<u8>,
    pub expires_at: Option<u64>,
}

impl Entry {
    pub open spec fn model(self) -> EntryModel {
        EntryModel { value: self.value@, expires_at: self.expires_at }
    }
}

/// Map from key to entry, average O(n) here where a production store would
/// hash; the contracts speak only of the map.
pub struct Keyspace {
    pairs: Vec<(Vec<u8>, Entry)>,
}

impl Keyspace {
    /// Keys are pairwise distinct.
    pub closed spec fn wf(&self) -> bool {
        forall|i: int, j: int|
            0 <= i < j < self.pairs@.len() ==> self.pairs@[i].0@ != self.pairs@[j].0@
    }

    spec fn has_key(s: Seq<(Vec<u8>, Entry)>, k: Seq<u8>) -> bool {
        exists|i: int| 0 <= i < s.len() && s[i].0@ == k
    }

    spec fn idx_of(s: Seq<(Vec<u8>, Entry)>, k: Seq<u8>) -> int {
        choose|i: int| 0 <= i < s.len() && s[i].0@ == k
    }

    /// The mathematical content of the keyspace.
    pub closed spec fn as_map(&self) -> Map<Seq<u8>, EntryModel> {
        Map::new(
            |k: Seq<u8>| Self::has_key(self.pairs@, k),
            |k: Seq<u8>| self.pairs@[Self::idx_of(self.pairs@, k)].1.model(),
        )
    }

    /// With distinct keys, the occurrence of a key at position `i` is the one
    /// the map speaks of.
    proof fn lemma_at(s: Seq<(Vec<u8>, Entry)>, i: int)
        requires
            0 <= i < s.len(),
            forall|p: int, q: int| 0 <= p < q < s.len() ==> s[p].0@ != s[q].0@,
        ensures
            Self::has_key(s, s[i].0@),
            Self::idx_of(s, s[i].0@) == i,
    {
        assert(Self::has_key(s, s[i].0@)) by {
            assert(0 <= i < s.len() && s[i].0@ == s[i].0@);
        }
        let j = Self::idx_of(s, s[i].0@);
        assert(0 <= j < s.len() && s[j].0@ == s[i].0@);
        if j < i {
            assert(s[j].0@ != s[i].0@);
        } else if i < j {
            assert(s[i].0@ != s[j].0@);
        }
    }

    /// An empty keyspace.
    pub fn new() -> (r: Self)
        ensures
            r.wf(),
            r.as_map() == Map::<Seq<u8>, EntryModel>::empty(),
    {
        let r = Keyspace { pairs: Vec::new() };
        proof {
            assert(r.as_map() =~= Map::<Seq<u8>, EntryModel>::empty());
        }
        r
    }

    fn find(&self, k: &Vec<u8>) -> (r: Option<usize>)
        ensures
            match r {
                Some(i) => i < self.pairs@.len() && self.pairs@[i as int].0@ == k@,
                None => !Self::has_key(self.pairs@, k@),
            },
    {
        let mut i: usize = 0;
        while i < self.pairs.len()
            invariant
                i <= self.pairs@.len(),
                forall|j: int| 0 <= j < i ==> self.pairs@[j].0@ != k@,
            decreases self.pairs@.len() - i,
        {
            if bytes_eq(&self.pairs[i].0, k) {
                return Some(i);
            }
            i = i + 1;
        }
        None
    }

    /// A clone of the stored value, when the key is present.
    pub fn get_value(&self, k: &Vec<u8>) -> (r: Option<Vec<u8>>)
        requires
            self.wf(),
        ensures
            r is Some <==> self.as_map().contains_key(k@),
            r matches Some(v) ==> v@ == self.as_map()[k@].value,
    {
        match self.find(k) {
            Some(i) => {
                let v = self.pairs[i].1.value.clone();
                proof {
                    Self::lemma_at(self.pairs@, i as int);
                    assert(v@ =~= self.pairs@[i as int].1.value@);
                }
                Some(v)
            }
            None => None,
        }
    }

    /// The deadline of a present key: `None` when the key is absent, otherwise
    /// the entry's optional deadline.
    pub fn deadline_of(&self, k: &Vec<u8>) -> (r: Option<Option<u64>>)
        requires
            self.wf(),
        ensures
            r is Some <==> self.as_map().contains_key(k@),
            r matches Some(e) ==> e == self.as_map()[k@].expires_at,
    {
        match self.find(k) {
            Some(i) => {
                proof {
                    Self::lemma_at(self.pairs@, i as int);
                }
                Some(self.pairs[i].1.expires_at)
            }
            None => None,
        }
    }

    /// Bind `k` to `e`, replacing any earlier binding.
    pub fn insert(&mut self, k: Vec<u8>, e: Entry)
        requires
            old(self).wf(),
        ensures
            final(self).wf(),
            final(self).as_map() == old(self).as_map().insert(k@, e.model()),
    {
        let ghost s0 = self.pairs@;
        let ghost kk = k@;
        let ghost m0 = self.as_map();
        match self.find(&k) {
            Some(i) => {
                let ghost gi = i as int;
                self.pairs.set(i, (k, e));
                proof {
                    let s1 = self.pairs@;
                    assert forall|p: int, q: int|
                        0 <= p < q < s1.len() implies s1[p].0@ != s1[q].0@ by {
                        assert(s1[p].0@ == s0[p].0@);
                        assert(s1[q].0@ == s0[q].0@);
                    }
                    assert forall|x: Seq<u8>| Self::has_key(s0, x) == Self::has_key(s1, x) by {
                        if Self::has_key(s0, x) {
                            let w = choose|w: int| 0 <= w < s0.len() && s0[w].0@ == x;
                            assert(s1[w].0@ == x);
                        }
                        if Self::has_key(s1, x) {
                            let w = choose|w: int| 0 <= w < s1.len() && s1[w].0@ == x;
                            assert(s0[w].0@ == x);
                        }
                    }
                    assert(self.as_map() =~= m0.insert(kk, e.model())) by {
                        assert forall|x: Seq<u8>| #[trigger] self.as_map().contains_key(x)
                            implies m0.insert(kk, e.model()).contains_key(x) by {}
                        assert forall|x: Seq<u8>| m0.insert(kk, e.model()).contains_key(x)
                            implies #[trigger] self.as_map().contains_key(x) by {
                            if x == kk {
                                Self::lemma_at(s0, gi);
                            }
                        }
                        assert forall|x: Seq<u8>| self.as_map().contains_key(x)
                            implies #[trigger] self.as_map()[x]
                                == m0.insert(kk, e.model())[x] by {
                            Self::lemma_at(s1, Self::idx_of(s1, x));
                            if x == kk {
                                Self::lemma_at(s1, gi);
                            } else {
                                let w = Self::idx_of(s1, x);
                                assert(s0[w].0@ == x);
                                Self::lemma_at(s0, w);
                            }
                        }
                    }
                }
            }
            None => {
                self.pairs.push((k, e));
                proof {
                    let s1 = self.pairs@;
                    let last = s1.len() - 1;
                    assert forall|p: int, q: int|
                        0 <= p < q < s1.len() implies s1[p].0@ != s1[q].0@ by {
                        if q < last {
                            assert(s1[p].0@ == s0[p].0@ && s1[q].0@ == s0[q].0@);
                        } else {
                            assert(s1[p].0@ == s0[p].0@);
                            if s1[p].0@ == kk {
                                assert(Self::has_key(s0, kk)) by {
                                    assert(0 <= p < s0.len() && s0[p].0@ == kk);
                                }
                            }
                        }
                    }
                    assert(self.as_map() =~= m0.insert(kk, e.model())) by {
                        assert forall|x: Seq<u8>| #[trigger] self.as_map().contains_key(x)
                            implies m0.insert(kk, e.model()).contains_key(x) by {
                            let w = choose|w: int| 0 <= w < s1.len() && s1[w].0@ == x;
                            if w < last {
                                assert(s0[w].0@ == x);
                            }
                        }
                        assert forall|x: Seq<u8>| m0.insert(kk, e.model()).contains_key(x)
                            implies #[trigger] self.as_map().contains_key(x) by {
                            if x == kk {
                                assert(s1[last].0@ == kk);
                            } else {
                                let w = choose|w: int| 0 <= w < s0.len() && s0[w].0@ == x;
                                assert(s1[w].0@ == x);
                            }
                        }
                        assert forall|x: Seq<u8>| self.as_map().contains_key(x)
                            implies #[trigger] self.as_map()[x]
                                == m0.insert(kk, e.model())[x] by {
                            Self::lemma_at(s1, Self::idx_of(s1, x));
                            if x == kk {
                                Self::lemma_at(s1, last);
                            } else {
                                let w = Self::idx_of(s1, x);
                                assert(w < last);
                                assert(s0[w].0@ == x);
                                Self::lemma_at(s0, w);
                            }
                        }
                    }
                }
            }
        }
    }

    /// Drop the binding of `k`, if any.
    pub fn remove(&mut self, k: &Vec<u8>)
        requires
            old(self).wf(),
        ensures
            final(self).wf(),
            final(self).as_map() == old(self).as_map().remove(k@),
    {
        let ghost s0 = self.pairs@;
        let ghost kk = k@;
        let ghost m0 = self.as_map();
        match self.find(k) {
            Some(i) => {
                let ghost gi = i as int;
                self.pairs.swap_remove(i);
                proof {
                    let s1 = self.pairs@;
                    let s0len = s0.len();
                    assert forall|p: int|
                        0 <= p < s1.len() implies (s1[p] == if p == gi && gi < s0len - 1 {
                        s0[s0len - 1]
                    } else {
                        s0[p]
                    }) by {}
                    assert forall|p: int, q: int|
                        0 <= p < q < s1.len() implies s1[p].0@ != s1[q].0@ by {}
                    assert(self.as_map() =~= m0.remove(kk)) by {
                        assert forall|x: Seq<u8>| #[trigger] self.as_map().contains_key(x)
                            implies m0.remove(kk).contains_key(x) by {
                            let w = choose|w: int| 0 <= w < s1.len() && s1[w].0@ == x;
                            if w == gi && gi < s0len - 1 {
                                assert(s0[s0len - 1].0@ == x);
                                Self::lemma_at(s0, s0len - 1);
                            } else {
                                assert(s0[w].0@ == x);
                                Self::lemma_at(s0, w);
                            }
                            Self::lemma_at(s0, gi);
                        }
                        assert forall|x: Seq<u8>| m0.remove(kk).contains_key(x)
                            implies #[trigger] self.as_map().contains_key(x) by {
                            let w = choose|w: int| 0 <= w < s0.len() && s0[w].0@ == x;
                            Self::lemma_at(s0, gi);
                            if w < s0len - 1 {
                                if w == gi {
                                    assert(s0[gi].0@ == kk);
                                } else {
                                    assert(s1[w].0@ == x);
                                }
                            } else {
                                if gi < s0len - 1 {
                                    assert(s1[gi].0@ == x);
                                } else {
                                    assert(s0[gi].0@ == kk);
                                }
                            }
                        }
                        assert forall|x: Seq<u8>| self.as_map().contains_key(x)
                            implies #[trigger] self.as_map()[x] == m0.remove(kk)[x] by {
                            let w = Self::idx_of(s1, x);
                            Self::lemma_at(s1, w);
                            if w == gi && gi < s0len - 1 {
                                assert(s0[s0len - 1].0@ == x);
                                Self::lemma_at(s0, s0len - 1);
                            } else {
                                assert(s0[w].0@ == x);
                                Self::lemma_at(s0, w);
                            }
                        }
                    }
                }
            }
            None => {
                proof {
                    assert(self.as_map() =~= m0.remove(kk));
                }
            }
        }
    }
}

} // verus!
