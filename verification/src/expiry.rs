//! The time-ordered expiration index: records of (deadline, key), earliest
//! deadline in front. The expirer pops expired records from the front; set and
//! del keep the index in step with the keyspace.
use vstd::prelude::*;
use crate::bytes::bytes_eq;

verus! {

/// Ordered set of (deadline, key) records. The earliest record is the next
/// deadline.
pub struct ExpiryIndex {
    recs: Vec<(u64, Vec<u8>)>,
}

impl ExpiryIndex {
    /// The records, in index order: earliest deadline first.
    pub closed spec fn records(&self) -> Seq<(u64, Seq<u8>)> {
        self.recs@.map_values(|r: (u64, Vec<u8>)| (r.0, r.1@))
    }

    /// Whether the record (d, k) stands in the index.
    pub open spec fn contains(&self, d: u64, k: Seq<u8>) -> bool {
        exists|i: int| 0 <= i < self.records().len() && self.records()[i] == (d, k)
    }

    /// Records are sorted by deadline, earliest first, and pairwise distinct.
    pub open spec fn wf(&self) -> bool {
        &&& forall|i: int, j: int|
            0 <= i < j < self.records().len() ==> self.records()[i].0 <= self.records()[j].0
        &&& forall|i: int, j: int|
            0 <= i < j < self.records().len() ==> self.records()[i] != self.records()[j]
    }

    /// An empty index.
    pub fn new() -> (r: Self)
        ensures
            r.wf(),
            r.records() == Seq::<(u64, Seq<u8>)>::empty(),
    {
        let r = ExpiryIndex { recs: Vec::new() };
        proof {
            assert(r.records() =~= Seq::<(u64, Seq<u8>)>::empty());
        }
        r
    }

    fn find(&self, d: u64, k: &Vec<u8>) -> (r: Option<usize>)
        ensures
            match r {
                Some(i) => i < self.records().len() && self.records()[i as int] == (d, k@),
                None => !self.contains(d, k@),
            },
    {
        let mut i: usize = 0;
        while i < self.recs.len()
            invariant
                i <= self.recs@.len(),
                self.records().len() == self.recs@.len(),
                forall|j: int| 0 <= j < self.records().len()
                    ==> self.records()[j] == (self.recs@[j].0, self.recs@[j].1@),
                forall|j: int| 0 <= j < i ==> self.records()[j] != (d, k@),
            decreases self.recs@.len() - i,
        {
            if self.recs[i].0 == d && bytes_eq(&self.recs[i].1, k) {
                return Some(i);
            }
            i = i + 1;
        }
        None
    }

    /// The earliest deadline, when the index is not empty.
    pub fn first(&self) -> (r: Option<u64>)
        ensures
            match r {
                None => self.records().len() == 0,
                Some(d) => self.records().len() > 0 && self.records()[0].0 == d,
            },
    {
        if self.recs.len() == 0 {
            None
        } else {
            Some(self.recs[0].0)
        }
    }

    /// Add the record (d, k). The caller guarantees it is not already there,
    /// which keeps records pairwise distinct.
    pub fn insert(&mut self, d: u64, k: Vec<u8>)
        requires
            old(self).wf(),
            !old(self).contains(d, k@),
        ensures
            final(self).wf(),
            final(self).records().len() == old(self).records().len() + 1,
            forall|d2: u64, k2: Seq<u8>|
                final(self).contains(d2, k2)
                    <==> (old(self).contains(d2, k2) || (d2, k2) == (d, k@)),
    {
        let ghost s0 = self.records();
        let ghost kk = k@;
        let mut pos: usize = 0;
        while pos < self.recs.len() && self.recs[pos].0 <= d
            invariant
                pos <= self.recs@.len(),
                self == old(self),
                forall|j: int| 0 <= j < pos ==> self.records()[j].0 <= d,
            decreases self.recs@.len() - pos,
        {
            pos = pos + 1;
        }
        let ghost gp = pos as int;
        assert(gp == s0.len() || s0[gp].0 > d);
        self.recs.insert(pos, (d, k));
        proof {
            let s1 = self.records();
            assert forall|p: int| 0 <= p < s1.len() implies (s1[p] == if p < gp {
                s0[p]
            } else if p == gp {
                (d, kk)
            } else {
                s0[p - 1]
            }) by {
                assert(self.recs@ == old(self).recs@.insert(gp, (d, k)));
            }
            assert(s1.len() == s0.len() + 1);
            assert forall|i: int, j: int| 0 <= i < j < s1.len() implies s1[i].0 <= s1[j].0 by {
                if i < gp && j == gp {
                } else if i == gp && j > gp {
                    if gp < s0.len() {
                        assert(s0[gp].0 <= s0[j - 1].0);
                    }
                }
            }
            assert forall|i: int, j: int| 0 <= i < j < s1.len() implies s1[i] != s1[j] by {
                if i == gp {
                    if s1[j] == (d, kk) {
                        assert(old(self).contains(d, kk)) by {
                            assert(s0[j - 1] == (d, kk));
                        }
                    }
                } else if j == gp {
                    if s1[i] == (d, kk) {
                        assert(old(self).contains(d, kk)) by {
                            assert(s0[i] == (d, kk));
                        }
                    }
                }
            }
            assert forall|d2: u64, k2: Seq<u8>|
                self.contains(d2, k2)
                    == (old(self).contains(d2, k2) || (d2, k2) == (d, kk)) by {
                if self.contains(d2, k2) {
                    let w = choose|w: int| 0 <= w < s1.len() && s1[w] == (d2, k2);
                    if w < gp {
                        assert(s0[w] == (d2, k2));
                    } else if w > gp {
                        assert(s0[w - 1] == (d2, k2));
                    }
                }
                if old(self).contains(d2, k2) {
                    let w = choose|w: int| 0 <= w < s0.len() && s0[w] == (d2, k2);
                    if w < gp {
                        assert(s1[w] == (d2, k2));
                    } else {
                        assert(s1[w + 1] == (d2, k2));
                    }
                }
                if (d2, k2) == (d, kk) {
                    assert(s1[gp] == (d2, k2));
                }
            }
        }
    }

    /// Drop the record (d, k), if it stands in the index.
    pub fn remove(&mut self, d: u64, k: &Vec<u8>)
        requires
            old(self).wf(),
        ensures
            final(self).wf(),
            forall|d2: u64, k2: Seq<u8>|
                final(self).contains(d2, k2)
                    <==> (old(self).contains(d2, k2) && (d2, k2) != (d, k@)),
            old(self).contains(d, k@)
                ==> final(self).records().len() == old(self).records().len() - 1,
            !old(self).contains(d, k@) ==> final(self).records() == old(self).records(),
    {
        let ghost s0 = self.records();
        let ghost kk = k@;
        match self.find(d, k) {
            Some(i) => {
                let ghost gi = i as int;
                self.recs.remove(i);
                proof {
                    let s1 = self.records();
                    assert forall|p: int| 0 <= p < s1.len() implies (s1[p] == if p < gi {
                        s0[p]
                    } else {
                        s0[p + 1]
                    }) by {
                        assert(self.recs@ == old(self).recs@.remove(gi));
                    }
                    assert(s1.len() == s0.len() - 1);
                    assert(old(self).contains(d, kk)) by {
                        assert(s0[gi] == (d, kk));
                    }
                    assert forall|d2: u64, k2: Seq<u8>|
                        self.contains(d2, k2)
                            == (old(self).contains(d2, k2) && (d2, k2) != (d, kk)) by {
                        if self.contains(d2, k2) {
                            let w = choose|w: int| 0 <= w < s1.len() && s1[w] == (d2, k2);
                            if w < gi {
                                assert(s0[w] == (d2, k2));
                                assert(s0[w] != s0[gi]);
                            } else {
                                assert(s0[w + 1] == (d2, k2));
                                assert(s0[gi] != s0[w + 1]);
                            }
                        }
                        if old(self).contains(d2, k2) && (d2, k2) != (d, kk) {
                            let w = choose|w: int| 0 <= w < s0.len() && s0[w] == (d2, k2);
                            if w < gi {
                                assert(s1[w] == (d2, k2));
                            } else {
                                assert(w > gi);
                                assert(s1[w - 1] == (d2, k2));
                            }
                        }
                    }
                }
            }
            None => {
                proof {
                    assert forall|d2: u64, k2: Seq<u8>|
                        self.contains(d2, k2)
                            == (old(self).contains(d2, k2) && (d2, k2) != (d, kk)) by {
                        if (d2, k2) == (d, kk) && old(self).contains(d2, k2) {
                            assert(old(self).contains(d, kk));
                        }
                    }
                }
            }
        }
    }

    /// Pop the earliest record when its deadline has passed: the expirer's one
    /// step. `None` means every remaining deadline lies after `now`.
    pub fn pop_front_le(&mut self, now: u64) -> (r: Option<(u64, Vec<u8>)>)
        requires
            old(self).wf(),
        ensures
            final(self).wf(),
            r is None ==> *final(self) == *old(self),
            match r {
                None => final(self).records() == old(self).records()
                    && forall|i: int|
                        0 <= i < final(self).records().len() ==> final(self).records()[i].0 > now,
                Some(rec) => rec.0 <= now
                    && old(self).records().len() > 0
                    && old(self).records()[0] == (rec.0, rec.1@)
                    && final(self).records() == old(self).records().drop_first()
                    && (forall|d2: u64, k2: Seq<u8>|
                        final(self).contains(d2, k2)
                            <==> (old(self).contains(d2, k2) && (d2, k2) != (rec.0, rec.1@))),
            },
    {
        let ghost s0 = self.records();
        if self.recs.len() > 0 && self.recs[0].0 <= now {
            let rec = self.recs.remove(0);
            proof {
                let s1 = self.records();
                assert forall|p: int| 0 <= p < s1.len() implies s1[p] == s0[p + 1] by {
                    assert(self.recs@ == old(self).recs@.remove(0));
                }
                assert(s1 =~= s0.drop_first());
                assert forall|d2: u64, k2: Seq<u8>|
                    self.contains(d2, k2)
                        == (old(self).contains(d2, k2) && (d2, k2) != (rec.0, rec.1@)) by {
                    if self.contains(d2, k2) {
                        let w = choose|w: int| 0 <= w < s1.len() && s1[w] == (d2, k2);
                        assert(s0[w + 1] == (d2, k2));
                        assert(s0[0] != s0[w + 1]);
                    }
                    if old(self).contains(d2, k2) && (d2, k2) != (rec.0, rec.1@) {
                        let w = choose|w: int| 0 <= w < s0.len() && s0[w] == (d2, k2);
                        assert(w > 0);
                        assert(s1[w - 1] == (d2, k2));
                    }
                }
            }
            Some(rec)
        } else {
            proof {
                if self.records().len() > 0 {
                    assert forall|i: int|
                        0 <= i < self.records().len() implies self.records()[i].0 > now by {
                        if i > 0 {
                            assert(self.records()[0].0 <= self.records()[i].0);
                        }
                    }
                }
            }
            None
        }
    }
}

} // verus!
