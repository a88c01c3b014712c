//! The engine: one object holding the keyspace, the expiration index and the
//! pub/sub registry, with get / set / del / publish / subscribe / ping and the
//! expirer's purge step. The embedding program keeps a `Db` behind one mutex,
//! runs the purge step from a background task, and wakes that task whenever an
//! operation reports that the earliest deadline moved.
//!
//! Deadlines are absolute points on the caller's monotonic clock, in
//! milliseconds; the engine never reads a clock itself.
use vstd::prelude::*;
use crate::expiry::ExpiryIndex;
use crate::keyspace::{Entry, EntryModel, Keyspace};
use crate::pubsub::PubSubRegistry;
use tokio::sync::broadcast::Receiver;

verus! {

/// An entry is expired at `now` when it has a deadline not after `now`.
pub open spec fn expired(e: EntryModel, now: u64) -> bool {
    match e.expires_at {
        Some(d) => d <= now,
        None => false,
    }
}

/// Whether a fresh deadline moves the horizon: it precedes the earliest known
/// deadline, or none was known. Only then is the expirer woken.
pub open spec fn sooner(expires_at: Option<u64>, next: Option<u64>) -> bool {
    match expires_at {
        None => false,
        Some(d) => match next {
            None => true,
            Some(e) => d < e,
        },
    }
}

/// The keyspace map after deleting the keys, in order.
pub open spec fn map_after_del(
    m: Map<Seq<u8>, EntryModel>,
    ks: Seq<Seq<u8>>,
) -> Map<Seq<u8>, EntryModel>
    decreases ks.len(),
{
    if ks.len() == 0 {
        m
    } else {
        map_after_del(m.remove(ks[0]), ks.drop_first())
    }
}

/// How many of the keys, deleted in order, were present when their turn came.
pub open spec fn del_count(m: Map<Seq<u8>, EntryModel>, ks: Seq<Seq<u8>>) -> int
    decreases ks.len(),
{
    if ks.len() == 0 {
        0
    } else {
        (if m.contains_key(ks[0]) {
            1int
        } else {
            0int
        }) + del_count(m.remove(ks[0]), ks.drop_first())
    }
}

/// Whether a del of the keys removes the deadline that was the earliest: only
/// then is the expirer woken.
pub open spec fn del_notify(
    m: Map<Seq<u8>, EntryModel>,
    ks: Seq<Seq<u8>>,
    next: Option<u64>,
) -> bool {
    match next {
        None => false,
        Some(e) => exists|i: int|
            0 <= i < ks.len() && m.contains_key(ks[i]) && m[ks[i]].expires_at == Some(e),
    }
}

/// Deleting one more key removes it from the result and counts it when it
/// survived the earlier deletions.
proof fn lemma_del_snoc(m: Map<Seq<u8>, EntryModel>, ks: Seq<Seq<u8>>, x: Seq<u8>)
    ensures
        map_after_del(m, ks.push(x)) == map_after_del(m, ks).remove(x),
        del_count(m, ks.push(x)) == del_count(m, ks) + (if map_after_del(
            m,
            ks,
        ).contains_key(x) {
            1int
        } else {
            0int
        }),
    decreases ks.len(),
{
    if ks.len() == 0 {
        assert(ks.push(x)[0] == x);
        assert(ks.push(x).drop_first() =~= Seq::<Seq<u8>>::empty());
        assert(map_after_del(m.remove(x), ks.push(x).drop_first()) == m.remove(x));
        assert(map_after_del(m, ks.push(x)) == m.remove(x));
        assert(map_after_del(m, ks) == m);
        assert(del_count(m.remove(x), ks.push(x).drop_first()) == 0);
        assert(del_count(m, ks) == 0);
    } else {
        assert(ks.push(x)[0] == ks[0]);
        assert(ks.push(x).drop_first() =~= ks.drop_first().push(x));
        lemma_del_snoc(m.remove(ks[0]), ks.drop_first(), x);
        assert(map_after_del(m, ks.push(x)) == map_after_del(
            m.remove(ks[0]),
            ks.drop_first().push(x),
        ));
        assert(map_after_del(m, ks) == map_after_del(m.remove(ks[0]), ks.drop_first()));
        assert(del_count(m, ks.push(x)) == (if m.contains_key(ks[0]) {
            1int
        } else {
            0int
        }) + del_count(m.remove(ks[0]), ks.drop_first().push(x)));
    }
}

/// A key survives the deletions exactly when it was bound and not named, and
/// then keeps its entry.
proof fn lemma_del_membership(m: Map<Seq<u8>, EntryModel>, ks: Seq<Seq<u8>>)
    ensures
        forall|k: Seq<u8>| #[trigger] map_after_del(m, ks).contains_key(k)
            <==> (m.contains_key(k) && !ks.contains(k)),
        forall|k: Seq<u8>| #[trigger] map_after_del(m, ks).contains_key(k)
            ==> map_after_del(m, ks)[k] == m[k],
    decreases ks.len(),
{
    if ks.len() > 0 {
        let m1 = m.remove(ks[0]);
        let kt = ks.drop_first();
        lemma_del_membership(m1, kt);
        assert(map_after_del(m, ks) == map_after_del(m1, kt));
        assert forall|k: Seq<u8>| #[trigger] map_after_del(m, ks).contains_key(k)
            implies (m.contains_key(k) && !ks.contains(k) && map_after_del(m, ks)[k]
                == m[k]) by {
            assert(map_after_del(m1, kt).contains_key(k));
            assert(m1.contains_key(k) && !kt.contains(k));
            assert(map_after_del(m1, kt)[k] == m1[k]);
            assert(k != ks[0]);
            if ks.contains(k) {
                let w = choose|w: int| 0 <= w < ks.len() && ks[w] == k;
                assert(w > 0);
                assert(kt[w - 1] == k);
                assert(kt.contains(k));
            }
        }
        assert forall|k: Seq<u8>| (m.contains_key(k) && !ks.contains(k))
            implies #[trigger] map_after_del(m, ks).contains_key(k) by {
            assert(ks[0] != k);
            assert(m1.contains_key(k));
            if kt.contains(k) {
                let w = choose|w: int| 0 <= w < kt.len() && kt[w] == k;
                assert(ks[w + 1] == k);
                assert(ks.contains(k));
            }
            assert(map_after_del(m1, kt).contains_key(k));
        }
    }
}

/// The two readings of one record — through the engine's record sequence and
/// through the index's own — name the same thing.
proof fn lemma_rec_contains_eq(db: Db, d: u64, k: Seq<u8>)
    ensures
        db.rec_contains(d, k) == db.expirations.contains(d, k),
{
    if db.rec_contains(d, k) {
        let w = choose|i: int| 0 <= i < db.records().len() && db.records()[i] == (d, k);
        assert(0 <= w < db.expirations.records().len() && db.expirations.records()[w] == (d, k));
        assert(db.expirations.contains(d, k));
    }
    if db.expirations.contains(d, k) {
        let w = choose|i: int|
            0 <= i < db.expirations.records().len() && db.expirations.records()[i] == (d, k);
        assert(0 <= w < db.records().len() && db.records()[w] == (d, k));
        assert(db.rec_contains(d, k));
    }
}

/// The in-memory store: keyspace, expiration index and pub/sub registry,
/// mutated together so that their joint invariant never breaks between
/// operations.
pub struct Db {
    keyspace: Keyspace,
    expirations: ExpiryIndex,
    pub_sub: PubSubRegistry,
}

impl Db {
    /// The keyspace's mathematical content: key to entry model.
    pub closed spec fn entries(&self) -> Map<Seq<u8>, EntryModel> {
        self.keyspace.as_map()
    }

    /// The expiration records, earliest deadline first.
    pub closed spec fn records(&self) -> Seq<(u64, Seq<u8>)> {
        self.expirations.records()
    }

    /// Whether the record (d, k) stands in the expiration index.
    pub open spec fn rec_contains(&self, d: u64, k: Seq<u8>) -> bool {
        exists|i: int| 0 <= i < self.records().len() && self.records()[i] == (d, k)
    }

    /// The channel names that have been materialized.
    pub closed spec fn channels(&self) -> Set<Seq<u8>> {
        self.pub_sub.names()
    }

    /// The earliest deadline in the index, if any.
    pub open spec fn next_deadline(&self) -> Option<u64> {
        if self.records().len() == 0 {
            None
        } else {
            Some(self.records()[0].0)
        }
    }

    /// The engine's invariant: each component well formed, and the index in
    /// step with the keyspace — a record (d, k) stands in the index exactly
    /// when key k is bound with deadline d.
    pub closed spec fn wf(&self) -> bool {
        &&& self.keyspace.wf()
        &&& self.expirations.wf()
        &&& self.pub_sub.wf()
        &&& forall|d: u64, k: Seq<u8>| #[trigger] self.expirations.contains(d, k)
            ==> self.entries().contains_key(k) && self.entries()[k].expires_at == Some(d)
        &&& forall|k: Seq<u8>| #[trigger] self.entries().contains_key(k)
            ==> match self.entries()[k].expires_at {
                Some(d) => self.expirations.contains(d, k),
                None => true,
            }
    }

    /// An empty store.
    pub fn new() -> (r: Db)
        ensures
            r.wf(),
            r.entries() == Map::<Seq<u8>, EntryModel>::empty(),
            r.records() == Seq::<(u64, Seq<u8>)>::empty(),
            r.channels() == Set::<Seq<u8>>::empty(),
    {
        Db {
            keyspace: Keyspace::new(),
            expirations: ExpiryIndex::new(),
            pub_sub: PubSubRegistry::new(),
        }
    }

    /// A clone of the value bound to the key, if any. Expired entries linger
    /// until the expirer runs; a read does not check the deadline.
    pub fn get(&self, key: &Vec<u8>) -> (r: Option<Vec<u8>>)
        requires
            self.wf(),
        ensures
            r is Some <==> self.entries().contains_key(key@),
            r matches Some(v) ==> v@ == self.entries()[key@].value,
    {
        self.keyspace.get_value(key)
    }

    /// Answers unconditionally; no state is touched.
    pub fn ping(&self) {
    }

    /// Bind the key to the value, with an optional absolute deadline. Any
    /// earlier binding, and its expiration record, goes away first. The result
    /// says whether the caller must wake the expirer: the new deadline
    /// precedes everything the index held.
    pub fn set(&mut self, key: Vec<u8>, value: Vec<u8>, expires_at: Option<u64>) -> (notify: bool)
        requires
            old(self).wf(),
        ensures
            final(self).wf(),
            final(self).entries() == old(self).entries().insert(
                key@,
                (EntryModel { value: value@, expires_at }),
            ),
            final(self).channels() == old(self).channels(),
            notify == sooner(expires_at, old(self).next_deadline()),
            forall|d2: u64, k2: Seq<u8>|
                #[trigger] final(self).rec_contains(d2, k2) == (if k2 == key@ {
                    expires_at == Some(d2)
                } else {
                    old(self).rec_contains(d2, k2)
                }),
    {
        let notify = match expires_at {
            Some(d) => match self.expirations.first() {
                None => true,
                Some(e) => d < e,
            },
            None => false,
        };
        let ghost kk = key@;
        match self.keyspace.deadline_of(&key) {
            Some(Some(w)) => {
                self.expirations.remove(w, &key);
                proof {
                    assert forall|d2: u64| !self.expirations.contains(d2, kk) by {
                        if self.expirations.contains(d2, kk) {
                            assert(old(self).expirations.contains(d2, kk));
                        }
                    }
                }
            }
            _ => {
                proof {
                    assert forall|d2: u64| !self.expirations.contains(d2, kk) by {}
                }
            }
        }
        let ghost mid = *self;
        if let Some(d) = expires_at {
            let key2 = key.clone();
            proof {
                assert(key2@ =~= kk);
            }
            self.expirations.insert(d, key2);
        }
        let ghost mid2 = *self;
        self.keyspace.insert(key, Entry { value, expires_at });
        proof {
            assert(self.entries() == old(self).entries().insert(
                kk,
                (EntryModel { value: value@, expires_at }),
            ));
            assert forall|d2: u64, k2: Seq<u8>| #[trigger] self.expirations.contains(d2, k2)
                implies self.entries().contains_key(k2) && self.entries()[k2].expires_at == Some(
                d2,
            ) by {
                if k2 == kk {
                } else {
                    assert(mid.expirations.contains(d2, k2));
                    assert(old(self).expirations.contains(d2, k2));
                }
            }
            assert forall|k2: Seq<u8>| #[trigger] self.entries().contains_key(k2)
                implies match self.entries()[k2].expires_at {
                Some(d2) => self.expirations.contains(d2, k2),
                None => true,
            } by {
                if k2 == kk {
                } else {
                    if self.entries()[k2].expires_at is Some {
                        let d2 = self.entries()[k2].expires_at->0;
                        assert(old(self).entries().contains_key(k2));
                        assert(old(self).expirations.contains(d2, k2));
                        assert(mid.expirations.contains(d2, k2));
                        assert(mid2.expirations.contains(d2, k2));
                    }
                }
            }
            assert forall|d2: u64, k2: Seq<u8>|
                #[trigger] self.rec_contains(d2, k2) == (if k2 == kk {
                    expires_at == Some(d2)
                } else {
                    old(self).rec_contains(d2, k2)
                }) by {
                lemma_rec_contains_eq(*self, d2, k2);
                lemma_rec_contains_eq(*old(self), d2, k2);
            }
        }
        notify
    }

    /// Remove the named keys; the result counts those that were present, and
    /// says whether the previously earliest deadline was among the removed
    /// ones, in which case the caller must wake the expirer.
    pub fn del(&mut self, keys: &Vec<Vec<u8>>) -> (r: (i64, bool))
        requires
            old(self).wf(),
            keys@.len() <= i64::MAX,
        ensures
            final(self).wf(),
            final(self).channels() == old(self).channels(),
            final(self).entries() == map_after_del(
                old(self).entries(),
                keys@.map_values(|k: Vec<u8>| k@),
            ),
            r.0 == del_count(old(self).entries(), keys@.map_values(|k: Vec<u8>| k@)),
            r.1 == del_notify(
                old(self).entries(),
                keys@.map_values(|k: Vec<u8>| k@),
                old(self).next_deadline(),
            ),
    {
        let first = self.expirations.first();
        let ghost m0 = self.entries();
        let ghost ksv = keys@.map_values(|k: Vec<u8>| k@);
        let ghost nd0 = self.next_deadline();
        let mut count: i64 = 0;
        let mut notify = false;
        let mut i: usize = 0;
        proof {
            assert(ksv.take(0) =~= Seq::<Seq<u8>>::empty());
        }
        while i < keys.len()
            invariant
                i <= keys@.len(),
                keys@.len() <= i64::MAX,
                self.wf(),
                ksv == keys@.map_values(|k: Vec<u8>| k@),
                self.channels() == old(self).channels(),
                self.entries() == map_after_del(m0, ksv.take(i as int)),
                m0 == old(self).entries(),
                nd0 == old(self).next_deadline(),
                match first {
                    None => nd0 is None,
                    Some(e) => nd0 == Some(e),
                },
                count == del_count(m0, ksv.take(i as int)),
                0 <= count <= i,
                notify == del_notify(m0, ksv.take(i as int), nd0),
            decreases keys@.len() - i,
        {
            let key = &keys[i];
            let ghost gi = i as int;
            proof {
                assert(ksv.take(gi + 1) =~= ksv.take(gi).push(key@));
                lemma_del_snoc(m0, ksv.take(gi), key@);
                lemma_del_membership(m0, ksv.take(gi));
            }
            match self.keyspace.deadline_of(key) {
                Some(w) => {
                    let ghost pre = *self;
                    self.keyspace.remove(key);
                    if let Some(wd) = w {
                        self.expirations.remove(wd, key);
                        if let Some(e) = first {
                            if wd == e {
                                notify = true;
                            }
                        }
                        proof {
                            assert forall|d2: u64, k2: Seq<u8>|
                                #[trigger] self.expirations.contains(d2, k2)
                                implies self.entries().contains_key(k2)
                                && self.entries()[k2].expires_at == Some(d2) by {
                                assert(pre.expirations.contains(d2, k2));
                                if k2 == key@ {
                                    assert(d2 == wd);
                                }
                            }
                            assert forall|k2: Seq<u8>| #[trigger] self.entries().contains_key(k2)
                                implies match self.entries()[k2].expires_at {
                                Some(d2) => self.expirations.contains(d2, k2),
                                None => true,
                            } by {
                                if self.entries()[k2].expires_at is Some {
                                    let d2 = self.entries()[k2].expires_at->0;
                                    assert(pre.entries().contains_key(k2));
                                    assert(pre.expirations.contains(d2, k2));
                                    assert(k2 != key@);
                                }
                            }
                        }
                    } else {
                        proof {
                            assert forall|d2: u64, k2: Seq<u8>|
                                #[trigger] self.expirations.contains(d2, k2)
                                implies self.entries().contains_key(k2)
                                && self.entries()[k2].expires_at == Some(d2) by {
                                assert(pre.expirations.contains(d2, k2));
                                if k2 == key@ {
                                    assert(pre.entries()[k2].expires_at == Some(d2));
                                }
                            }
                            assert forall|k2: Seq<u8>| #[trigger] self.entries().contains_key(k2)
                                implies match self.entries()[k2].expires_at {
                                Some(d2) => self.expirations.contains(d2, k2),
                                None => true,
                            } by {
                                if self.entries()[k2].expires_at is Some {
                                    let d2 = self.entries()[k2].expires_at->0;
                                    assert(pre.entries().contains_key(k2));
                                    assert(pre.expirations.contains(d2, k2));
                                }
                            }
                        }
                    }
                    count = count + 1;
                    proof {
                        assert(pre.entries().contains_key(key@));
                        assert(pre.entries()[key@] == m0[key@]);
                        match nd0 {
                            Some(e) => {
                                if w == Some(e) {
                                    assert(del_notify(m0, ksv.take(gi + 1), nd0)) by {
                                        assert(ksv.take(gi + 1)[gi] == key@);
                                        assert(m0.contains_key(key@)
                                            && m0[key@].expires_at == Some(e));
                                    }
                                } else {
                                    if del_notify(m0, ksv.take(gi + 1), nd0) && !del_notify(
                                        m0,
                                        ksv.take(gi),
                                        nd0,
                                    ) {
                                        let kt = ksv.take(gi + 1);
                                        let wit = choose|wi: int|
                                            0 <= wi < kt.len() && m0.contains_key(kt[wi])
                                                && m0[kt[wi]].expires_at == Some(e);
                                        assert(0 <= wit < kt.len() && m0.contains_key(kt[wit])
                                            && m0[kt[wit]].expires_at == Some(e));
                                        assert(wit == gi);
                                        assert(m0[key@].expires_at == Some(e));
                                        assert(false);
                                    }
                                }
                            }
                            None => {}
                        }
                    }
                }
                None => {
                    proof {
                        assert(!m0.contains_key(key@) || ksv.take(gi).contains(key@));
                        assert(map_after_del(m0, ksv.take(gi + 1)) =~= map_after_del(
                            m0,
                            ksv.take(gi),
                        ));
                        match nd0 {
                            Some(e) => {
                                if del_notify(m0, ksv.take(gi + 1), nd0) && !del_notify(
                                    m0,
                                    ksv.take(gi),
                                    nd0,
                                ) {
                                    let kt = ksv.take(gi + 1);
                                    let wit = choose|wi: int|
                                        0 <= wi < kt.len() && m0.contains_key(kt[wi])
                                            && m0[kt[wi]].expires_at == Some(e);
                                    assert(0 <= wit < kt.len() && m0.contains_key(kt[wit])
                                        && m0[kt[wit]].expires_at == Some(e));
                                    assert(wit == gi);
                                    assert(m0.contains_key(key@));
                                    let wj = choose|wj: int|
                                        0 <= wj < ksv.take(gi).len() && ksv.take(gi)[wj] == key@;
                                    assert(del_notify(m0, ksv.take(gi), nd0)) by {
                                        assert(m0.contains_key(ksv.take(gi)[wj])
                                            && m0[ksv.take(gi)[wj]].expires_at == Some(e));
                                    }
                                    assert(false);
                                }
                            }
                            None => {}
                        }
                    }
                }
            }
            i = i + 1;
        }
        proof {
            assert(ksv.take(keys@.len() as int) =~= ksv);
        }
        (count, notify)
    }

    /// Send a message on a channel. An absent channel — no one ever subscribed
    /// to it — delivers to nobody and is not created. On an existing channel
    /// the result is the number of receivers live at the moment of the send,
    /// zero once all of them have been dropped; that count rests on the
    /// broadcast endpoint and is not tied to the engine's own state.
    pub fn publish(&self, channel: &Vec<u8>, message: Vec<u8>) -> (r: i64)
        requires
            self.wf(),
        ensures
            r >= 0,
            !self.channels().contains(channel@) ==> r == 0,
    {
        self.pub_sub.publish(channel, message)
    }

    /// One fresh receiver per requested channel, in request order, created
    /// atomically with respect to publishers: a publish issued after this
    /// returns is seen by every receiver in the list. Channels are
    /// materialized on first subscription.
    pub fn subscribe(&mut self, channels: Vec<Vec<u8>>) -> (r: Vec<Receiver<Vec<u8>>>)
        requires
            old(self).wf(),
        ensures
            final(self).wf(),
            r@.len() == channels@.len(),
            final(self).entries() == old(self).entries(),
            final(self).records() == old(self).records(),
            forall|c: Seq<u8>| #[trigger] final(self).channels().contains(c)
                <==> (old(self).channels().contains(c) || exists|j: int|
                    0 <= j < channels@.len() && channels@[j]@ == c),
    {
        let mut rxs: Vec<Receiver<Vec<u8>>> = Vec::new();
        let mut i: usize = 0;
        while i < channels.len()
            invariant
                i <= channels@.len(),
                self.wf(),
                rxs@.len() == i,
                self.entries() == old(self).entries(),
                self.records() == old(self).records(),
                forall|c: Seq<u8>| #[trigger] self.channels().contains(c)
                    <==> (old(self).channels().contains(c) || exists|j: int|
                        0 <= j < i && channels@[j]@ == c),
            decreases channels@.len() - i,
        {
            let name = channels[i].clone();
            proof {
                assert(name@ =~= channels@[i as int]@);
            }
            let ghost pre = *self;
            let rx = self.pub_sub.subscribe(name);
            rxs.push(rx);
            proof {
                assert forall|c: Seq<u8>| #[trigger] self.channels().contains(c)
                    implies (old(self).channels().contains(c) || exists|j: int|
                    0 <= j < i + 1 && channels@[j]@ == c) by {
                    if c == channels@[i as int]@ {
                        assert(channels@[i as int]@ == c);
                    } else {
                        assert(pre.channels().contains(c));
                    }
                }
                assert forall|c: Seq<u8>|
                    (old(self).channels().contains(c) || exists|j: int|
                        0 <= j < i + 1 && channels@[j]@ == c)
                    implies #[trigger] self.channels().contains(c) by {
                    if old(self).channels().contains(c) {
                        assert(pre.channels().contains(c));
                    } else {
                        let j = choose|j: int| 0 <= j < i + 1 && channels@[j]@ == c;
                        if j < i {
                            assert(pre.channels().contains(c));
                        } else {
                            assert(c == name@);
                        }
                    }
                }
            }
            i = i + 1;
        }
        rxs
    }

    /// The expirer's step at time `now`: every entry whose deadline is not
    /// after `now` goes away, records first. The result is the deadline the
    /// expirer should next sleep until — the earliest one left, always after
    /// `now` — or nothing, when no deadline is left.
    pub fn purge_expired(&mut self, now: u64) -> (next: Option<u64>)
        requires
            old(self).wf(),
        ensures
            final(self).wf(),
            final(self).channels() == old(self).channels(),
            forall|k: Seq<u8>| #[trigger] final(self).entries().contains_key(k)
                <==> (old(self).entries().contains_key(k) && !expired(old(self).entries()[k], now)),
            forall|k: Seq<u8>| #[trigger] final(self).entries().contains_key(k)
                ==> final(self).entries()[k] == old(self).entries()[k],
            next == final(self).next_deadline(),
            next matches Some(d) ==> d > now && forall|i: int|
                0 <= i < final(self).records().len() ==> d <= final(self).records()[i].0,
            forall|i: int| 0 <= i < final(self).records().len() ==> final(self).records()[i].0 > now,
    {
        let mut go = true;
        while go
            invariant
                self.wf(),
                self.channels() == old(self).channels(),
                forall|k: Seq<u8>| #[trigger] self.entries().contains_key(k)
                    ==> old(self).entries().contains_key(k) && self.entries()[k] == old(
                    self,
                ).entries()[k],
                forall|k: Seq<u8>|
                    old(self).entries().contains_key(k) && !expired(old(self).entries()[k], now)
                        ==> #[trigger] self.entries().contains_key(k),
                !go ==> forall|i: int|
                    0 <= i < self.records().len() ==> self.records()[i].0 > now,
            decreases self.records().len() + (if go {
                1int
            } else {
                0int
            }),
        {
            let ghost pre = *self;
            match self.expirations.pop_front_le(now) {
                None => {
                    go = false;
                }
                Some(rec) => {
                    proof {
                        assert(pre.expirations.contains(rec.0, rec.1@)) by {
                            assert(pre.records()[0] == (rec.0, rec.1@));
                        }
                        assert(pre.entries().contains_key(rec.1@));
                        assert(pre.entries()[rec.1@].expires_at == Some(rec.0));
                        assert(expired(old(self).entries()[rec.1@], now));
                    }
                    self.keyspace.remove(&rec.1);
                    proof {
                        assert forall|d2: u64, k2: Seq<u8>|
                            #[trigger] self.expirations.contains(d2, k2)
                            implies self.entries().contains_key(k2)
                            && self.entries()[k2].expires_at == Some(d2) by {
                            assert(pre.expirations.contains(d2, k2));
                            if k2 == rec.1@ {
                                assert(d2 == rec.0);
                            }
                        }
                        assert forall|k2: Seq<u8>| #[trigger] self.entries().contains_key(k2)
                            implies match self.entries()[k2].expires_at {
                            Some(d2) => self.expirations.contains(d2, k2),
                            None => true,
                        } by {
                            if self.entries()[k2].expires_at is Some {
                                let d2 = self.entries()[k2].expires_at->0;
                                assert(pre.entries().contains_key(k2));
                                assert(pre.expirations.contains(d2, k2));
                                assert(k2 != rec.1@);
                            }
                        }
                    }
                }
            }
        }
        let next = self.expirations.first();
        proof {
            assert forall|k: Seq<u8>| #[trigger] self.entries().contains_key(k)
                implies (old(self).entries().contains_key(k) && !expired(
                old(self).entries()[k],
                now,
            )) by {
                if expired(old(self).entries()[k], now) {
                    let d = old(self).entries()[k].expires_at->0;
                    assert(self.entries()[k].expires_at == Some(d));
                    assert(self.expirations.contains(d, k));
                    let w = choose|w: int|
                        0 <= w < self.records().len() && self.records()[w] == (d, k);
                    assert(self.records()[w].0 > now);
                }
            }
        }
        next
    }
}

/// Law: under the invariant the expiration records stand sorted by deadline,
/// so the record in front — what `next_deadline()` reads — carries the least
/// deadline in the index. The wake rules of `set` and `del`, and the sleep
/// time `purge_expired` hands back, therefore speak of the earliest deadline.
pub proof fn lemma_records_sorted(db: Db)
    requires
        db.wf(),
    ensures
        forall|i: int, j: int|
            0 <= i <= j < db.records().len() ==> db.records()[i].0 <= db.records()[j].0,
        db.next_deadline() matches Some(d) ==> forall|i: int|
            0 <= i < db.records().len() ==> d <= db.records()[i].0,
{
    assert forall|i: int, j: int|
        0 <= i <= j < db.records().len() implies db.records()[i].0 <= db.records()[j].0 by {
        if i < j {
            assert(db.expirations.records()[i].0 <= db.expirations.records()[j].0);
        }
    }
    if db.next_deadline() is Some {
        let d = db.next_deadline()->0;
        assert forall|i: int| 0 <= i < db.records().len() implies d <= db.records()[i].0 by {
            assert(db.records()[0].0 <= db.records()[i].0);
        }
    }
}

/// Law: a key bound with a deadline has its record in the index, the index
/// never holds one record twice, and no record with another deadline mentions
/// the key.
pub proof fn lemma_record_per_deadline(db: Db, k: Seq<u8>, d: u64)
    requires
        db.wf(),
        db.entries().contains_key(k),
        db.entries()[k].expires_at == Some(d),
    ensures
        db.rec_contains(d, k),
        forall|i: int, j: int| 0 <= i < j < db.records().len() ==> db.records()[i]
            != db.records()[j],
        forall|i: int| 0 <= i < db.records().len() && db.records()[i].1 == k
            ==> db.records()[i] == (d, k),
{
    assert(db.expirations.contains(d, k));
    lemma_rec_contains_eq(db, d, k);
    assert forall|i: int| 0 <= i < db.records().len() && db.records()[i].1 == k
        implies db.records()[i] == (d, k) by {
        let d2 = db.records()[i].0;
        assert(db.expirations.contains(d2, k)) by {
            assert(db.expirations.records()[i] == (d2, k));
        }
    }
}

/// Law: a record in the index always answers to a key bound with exactly that
/// deadline.
pub proof fn lemma_record_only_for_deadline(db: Db, k: Seq<u8>, d: u64)
    requires
        db.wf(),
        db.rec_contains(d, k),
    ensures
        db.entries().contains_key(k),
        db.entries()[k].expires_at == Some(d),
{
    assert(db.expirations.contains(d, k));
}

/// Law: deleting a key that is not bound deletes nothing and counts nothing;
/// that `get` finds nothing either is what `get`'s contract says of an unbound
/// key.
pub proof fn lemma_del_missing(m: Map<Seq<u8>, EntryModel>, k: Seq<u8>)
    requires
        !m.contains_key(k),
    ensures
        del_count(m, seq![k]) == 0,
        map_after_del(m, seq![k]) == m,
{
    let ks = seq![k];
    assert(ks[0] == k);
    assert(ks.drop_first() =~= Seq::<Seq<u8>>::empty());
    assert(map_after_del(m.remove(k), ks.drop_first()) == m.remove(k));
    assert(map_after_del(m, ks) == m.remove(k));
    assert(del_count(m.remove(k), ks.drop_first()) == 0);
    assert(del_count(m, ks) == 0);
    assert(m.remove(k) =~= m);
}

/// Law: the round trip — after set(k, v, e) the entry of k is (v, e), so `get`
/// answers v; and neither a set of another key nor a del that does not name k
/// touches k's entry.
pub proof fn lemma_round_trip(
    m: Map<Seq<u8>, EntryModel>,
    k: Seq<u8>,
    v: Seq<u8>,
    e: Option<u64>,
    k2: Seq<u8>,
    em2: EntryModel,
    ks: Seq<Seq<u8>>,
)
    requires
        k2 != k,
        !ks.contains(k),
    ensures
        m.insert(k, (EntryModel { value: v, expires_at: e }))[k] == (EntryModel {
            value: v,
            expires_at: e,
        }),
        m.insert(k, (EntryModel { value: v, expires_at: e })).contains_key(k),
        m.contains_key(k) ==> m.insert(k2, em2)[k] == m[k] && m.insert(k2, em2).contains_key(k),
        m.contains_key(k) ==> map_after_del(m, ks).contains_key(k) && map_after_del(m, ks)[k]
            == m[k],
{
    lemma_del_membership(m, ks);
    if m.contains_key(k) {
        assert(map_after_del(m, ks).contains_key(k));
        assert(map_after_del(m, ks)[k] == m[k]);
    }
}

/// Law: deleting the same single key twice counts at most one key the first
/// time and none the second.
pub proof fn lemma_del_idempotent(m: Map<Seq<u8>, EntryModel>, k: Seq<u8>)
    ensures
        0 <= del_count(m, seq![k]) <= 1,
        del_count(map_after_del(m, seq![k]), seq![k]) == 0,
{
    let ks = seq![k];
    assert(ks[0] == k);
    assert(ks.drop_first() =~= Seq::<Seq<u8>>::empty());
    assert(map_after_del(m.remove(k), ks.drop_first()) == m.remove(k));
    assert(map_after_del(m, ks) == m.remove(k));
    assert(del_count(m.remove(k), ks.drop_first()) == 0);
    assert(del_count(m, ks) == (if m.contains_key(k) {
        1int
    } else {
        0int
    }));
    lemma_del_missing(m.remove(k), k);
}

} // verus!

