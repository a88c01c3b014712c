//! The pub/sub registry: a mapping from channel name to a broadcast endpoint,
//! materialized lazily on first subscribe. The endpoint itself is tokio's
//! broadcast channel; the registry's contracts speak of the set of channel
//! names that exist.
use vstd::prelude::*;
use crate::bytes::bytes_eq;
use tokio::sync::broadcast::{Receiver, Sender};

verus! {

#[verifier::external_type_specification]
#[verifier::external_body]
#[verifier::reject_recursive_types(T)]
pub struct ExSender<T>(Sender<T>);

#[verifier::external_type_specification]
#[verifier::external_body]
#[verifier::reject_recursive_types(T)]
pub struct ExReceiver<T>(Receiver<T>);

/// Buffer capacity of every channel's broadcast endpoint. One slot: a message
/// published while a subscriber still holds an unread one pushes it out, and
/// the subscriber observes a lag on its next read.
pub const CHANNEL_CAPACITY: usize = 1;

/// Relies on tokio::sync::broadcast::channel: builds a broadcast endpoint with
/// the given buffer capacity, together with one fresh receiver. The call
/// panics when the capacity is zero or above `usize::MAX / 2`, so those
/// capacities are kept out.
#[verifier::external_body]
fn new_channel(capacity: usize) -> (r: (Sender<Vec<u8>>, Receiver<Vec<u8>>))
    requires
        1 <= capacity <= usize::MAX / 2,
{
    tokio::sync::broadcast::channel(capacity)
}

/// Relies on tokio::sync::broadcast::Sender::subscribe: a fresh receiver that
/// yields the messages sent after this call.
#[verifier::external_body]
fn subscribe_to(tx: &Sender<Vec<u8>>) -> (r: Receiver<Vec<u8>>) {
    tx.subscribe()
}

/// Relies on tokio::sync::broadcast::Sender::send: the message goes to every
/// receiver live at the moment of the send and their number is returned; when
/// none is live the send reports an error instead and the message is dropped.
/// The error case comes back as zero, so the result is the number of receivers
/// the message was delivered to, and never negative. How many receivers are
/// live depends on the subscribers, so nothing ties the count to the engine's
/// own state.
#[verifier::external_body]
fn send_to(tx: &Sender<Vec<u8>>, message: Vec<u8>) -> (r: i64)
    ensures
        r >= 0,
{
    match tx.send(message) {
        Ok(n) => i64::try_from(n).unwrap_or(i64::MAX),
        Err(_) => 0,
    }
}

/// Map from channel name to broadcast endpoint, names pairwise distinct. The
/// contracts speak of the set of names.
pub struct PubSubRegistry {
    chans: Vec<(Vec<u8>, Sender<Vec<u8>>)>,
}

impl PubSubRegistry {
    /// Names are pairwise distinct.
    pub closed spec fn wf(&self) -> bool {
        forall|i: int, j: int|
            0 <= i < j < self.chans@.len() ==> self.chans@[i].0@ != self.chans@[j].0@
    }

    /// The set of channel names that have been materialized.
    pub closed spec fn names(&self) -> Set<Seq<u8>> {
        Set::new(|k: Seq<u8>| exists|i: int| 0 <= i < self.chans@.len() && self.chans@[i].0@ == k)
    }

    /// An empty registry.
    pub fn new() -> (r: Self)
        ensures
            r.wf(),
            r.names() == Set::<Seq<u8>>::empty(),
    {
        let r = PubSubRegistry { chans: Vec::new() };
        proof {
            assert(r.names() =~= Set::<Seq<u8>>::empty());
        }
        r
    }

    fn find(&self, k: &Vec<u8>) -> (r: Option<usize>)
        ensures
            match r {
                Some(i) => i < self.chans@.len() && self.chans@[i as int].0@ == k@,
                None => !self.names().contains(k@),
            },
    {
        let mut i: usize = 0;
        while i < self.chans.len()
            invariant
                i <= self.chans@.len(),
                forall|j: int| 0 <= j < i ==> self.chans@[j].0@ != k@,
            decreases self.chans@.len() - i,
        {
            if bytes_eq(&self.chans[i].0, k) {
                return Some(i);
            }
            i = i + 1;
        }
        None
    }

    /// Send a message on a channel. An absent channel means no one ever
    /// subscribed to it: nothing is delivered and no channel is created.
    /// On an existing channel, the result is the number of receivers live at
    /// the moment of the send, zero when all of them have been dropped.
    pub fn publish(&self, channel: &Vec<u8>, message: Vec<u8>) -> (r: i64)
        requires
            self.wf(),
        ensures
            r >= 0,
            !self.names().contains(channel@) ==> r == 0,
    {
        match self.find(channel) {
            Some(i) => send_to(&self.chans[i].1, message),
            None => 0,
        }
    }

    /// Get or create the channel and hand back a fresh receiver for it.
    pub fn subscribe(&mut self, channel: Vec<u8>) -> (r: Receiver<Vec<u8>>)
        requires
            old(self).wf(),
        ensures
            final(self).wf(),
            final(self).names() == old(self).names().insert(channel@),
    {
        let ghost s0 = self.chans@;
        let ghost kk = channel@;
        match self.find(&channel) {
            Some(i) => {
                let rx = subscribe_to(&self.chans[i].1);
                proof {
                    assert(self.names() =~= old(self).names().insert(kk)) by {
                        assert(self.names().contains(kk)) by {
                            assert(self.chans@[i as int].0@ == kk);
                        }
                    }
                }
                rx
            }
            None => {
                let (tx, rx) = new_channel(CHANNEL_CAPACITY);
                self.chans.push((channel, tx));
                proof {
                    let s1 = self.chans@;
                    let last = s1.len() - 1;
                    assert forall|p: int, q: int|
                        0 <= p < q < s1.len() implies s1[p].0@ != s1[q].0@ by {
                        if q < last {
                            assert(s1[p].0@ == s0[p].0@ && s1[q].0@ == s0[q].0@);
                        } else {
                            assert(s1[p].0@ == s0[p].0@);
                            if s1[p].0@ == kk {
                                assert(old(self).names().contains(kk)) by {
                                    assert(s0[p].0@ == kk);
                                }
                            }
                        }
                    }
                    assert(self.names() =~= old(self).names().insert(kk)) by {
                        assert forall|x: Seq<u8>| #[trigger] self.names().contains(x)
                            implies old(self).names().insert(kk).contains(x) by {
                            let w = choose|w: int| 0 <= w < s1.len() && s1[w].0@ == x;
                            if w < last {
                                assert(s0[w].0@ == x);
                            }
                        }
                        assert forall|x: Seq<u8>| old(self).names().insert(kk).contains(x)
                            implies #[trigger] self.names().contains(x) by {
                            if x == kk {
                                assert(s1[last].0@ == kk);
                            } else {
                                let w = choose|w: int| 0 <= w < s0.len() && s0[w].0@ == x;
                                assert(s1[w].0@ == x);
                            }
                        }
                    }
                }
                rx
            }
        }
    }
}

} // verus!
