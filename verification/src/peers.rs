//! The synced peers, and the choice among them.
use rand::seq::SliceRandom;

use vstd::prelude::*;

use crate::batch::{BatchInfo, BatchView};
use crate::requests::{load, ActiveRequests};
use crate::types::{BatchId, PeerId};

verus! {

/// Brings the peers into a random order, with `rand`'s `SliceRandom::shuffle` and the generator
/// that `rand::thread_rng` gives.
///
/// The result holds the same peers, each as often as before. In which order they stand depends on
/// chance, and nothing is said of it. The generator panics if the system has no seed to give it;
/// which peers are to be shuffled does not matter for that.
#[verifier::external_body]
fn shuffle(peers: Vec<PeerId>) -> (shuffled: Vec<PeerId>)
    ensures
        shuffled@.to_multiset() == peers@.to_multiset(),
{
    let mut shuffled = peers;
    shuffled.shuffle(&mut rand::thread_rng());
    shuffled
}

/// The peers that are synced at some moment, in a random order that spreads the load.
///
/// The idle ones among them, taken in this order, are in random order too.
#[derive(Debug)]
pub struct PeerPool {
    peers: Vec<PeerId>,
}

impl View for PeerPool {
    type V = Seq<PeerId>;

    closed spec fn view(&self) -> Seq<PeerId> {
        self.peers@
    }
}

/// The peers of the pool that nothing is to come from, in the order of the pool.
pub open spec fn idle_peers(
    pool: Seq<PeerId>,
    requests: Map<PeerId, Set<BatchId>>,
) -> Seq<PeerId> {
    pool.filter(|peer: PeerId| load(requests, peer) == 0)
}

/// Whether a batch is better asked of peer `a` than of peer `b`: peers with which it has not
/// failed come first, then peers of which less is asked, then peers of a smaller number.
pub open spec fn is_preferred(
    batch: BatchView,
    requests: Map<PeerId, Set<BatchId>>,
    a: PeerId,
    b: PeerId,
) -> bool {
    if batch.has_failed_with(a) != batch.has_failed_with(b) {
        !batch.has_failed_with(a)
    } else if load(requests, a) != load(requests, b) {
        load(requests, a) < load(requests, b)
    } else {
        a <= b
    }
}

/// Whether the peer is of the pool, and no peer of the pool is preferred to it.
pub open spec fn is_best(
    batch: BatchView,
    requests: Map<PeerId, Set<BatchId>>,
    pool: Seq<PeerId>,
    peer: PeerId,
) -> bool {
    &&& pool.contains(peer)
    &&& forall|other: PeerId|
        pool.contains(other) ==> #[trigger] is_preferred(batch, requests, peer, other)
}

/// The peer of the pool that the batch is best asked of.
pub open spec fn best_peer(
    batch: BatchView,
    requests: Map<PeerId, Set<BatchId>>,
    pool: Seq<PeerId>,
) -> Option<PeerId> {
    if pool.len() == 0 {
        None
    } else {
        Some(choose|peer: PeerId| is_best(batch, requests, pool, peer))
    }
}

impl PeerPool {
    /// The given peers in a random order.
    pub fn new(synced_peers: Vec<PeerId>) -> (pool: Self)
        ensures
            pool@.to_multiset() == synced_peers@.to_multiset(),
    {
        PeerPool { peers: shuffle(synced_peers) }
    }

    /// Whether there is no peer.
    pub fn is_empty(&self) -> (empty: bool)
        ensures
            empty == (self@.len() == 0),
    {
        self.peers.len() == 0
    }

    /// The peers that nothing is to come from, in the order of the pool.
    pub fn idle(&self, requests: &ActiveRequests) -> (idle: Vec<PeerId>)
        ensures
            idle@ == idle_peers(self@, requests@),
    {
        let ghost is_idle = |peer: PeerId| load(requests@, peer) == 0;
        let mut idle: Vec<PeerId> = Vec::new();
        let mut i: usize = 0;
        assert(idle@ =~= self@.take(0).filter(is_idle)) by {
            reveal(Seq::filter);
        }
        while i < self.peers.len()
            invariant
                i <= self@.len(),
                self@ == self.peers@,
                is_idle == (|peer: PeerId| load(requests@, peer) == 0),
                idle@ == self@.take(i as int).filter(is_idle),
            decreases self@.len() - i,
        {
            proof {
                assert(self@.take(i + 1).drop_last() =~= self@.take(i as int));
                reveal(Seq::filter);
            }
            let peer: PeerId = self.peers[i];
            if requests.load(peer) == 0 {
                idle.push(peer);
            }
            i = i + 1;
        }
        assert(self@.take(i as int) =~= self@);
        idle
    }

    /// The peer that the batch is best asked of.
    pub fn best(&self, batch: &BatchInfo, requests: &ActiveRequests) -> (best: Option<PeerId>)
        ensures
            best == best_peer(batch@, requests@, self@),
    {
        if self.peers.len() == 0 {
            return None;
        }
        let mut best: PeerId = self.peers[0];
        let mut best_failed: bool = batch.has_failed_with(best);
        let mut best_load: usize = requests.load(best);
        let mut i: usize = 1;
        assert(self@.take(1) =~= seq![best]);
        assert(self@.take(1)[0] == best);
        while i < self.peers.len()
            invariant
                1 <= i <= self@.len(),
                self@ == self.peers@,
                best_failed == batch@.has_failed_with(best),
                best_load == load(requests@, best),
                is_best(batch@, requests@, self@.take(i as int), best),
            decreases self@.len() - i,
        {
            let peer: PeerId = self.peers[i];
            let failed: bool = batch.has_failed_with(peer);
            let asked: usize = requests.load(peer);
            let ghost before = best;
            if (!failed && best_failed) || (failed == best_failed && (asked < best_load || (asked
                == best_load && peer < best))) {
                best = peer;
                best_failed = failed;
                best_load = asked;
            }
            proof {
                let seen = self@.take(i as int);
                let next = self@.take(i + 1);
                assert(next =~= seen.push(peer));
                assert(next[i as int] == peer);
                assert(next.contains(best)) by {
                    if best == before {
                        let k = choose|k: int| 0 <= k < seen.len() && seen[k] == best;
                        assert(next[k] == best);
                    }
                }
                assert forall|other: PeerId| next.contains(other) implies #[trigger] is_preferred(
                    batch@,
                    requests@,
                    best,
                    other,
                ) by {
                    if other != peer {
                        let k = choose|k: int| 0 <= k < next.len() && next[k] == other;
                        assert(seen[k] == other);
                        assert(is_preferred(batch@, requests@, before, other));
                    }
                }
            }
            i = i + 1;
        }
        proof {
            assert(self@.take(i as int) =~= self@);
            lemma_best_is_unique(batch@, requests@, self@, best);
        }
        Some(best)
    }
}

/// At most one peer of the pool is the best to ask.
pub proof fn lemma_best_is_unique(
    batch: BatchView,
    requests: Map<PeerId, Set<BatchId>>,
    pool: Seq<PeerId>,
    peer: PeerId,
)
    requires
        is_best(batch, requests, pool, peer),
    ensures
        best_peer(batch, requests, pool) == Some(peer),
{
    let chosen = choose|p: PeerId| is_best(batch, requests, pool, p);
    assert(is_preferred(batch, requests, peer, chosen));
    assert(is_preferred(batch, requests, chosen, peer));
}

} // verus!
