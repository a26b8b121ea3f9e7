//! Which peers and how many batches count when a peer is chosen: all of it can be told from the
//! batches themselves.
use vstd::prelude::*;

use crate::batch::{BatchView, MAX_BATCH_DOWNLOAD_ATTEMPTS, MAX_BATCH_PROCESSING_ATTEMPTS};
use crate::batches::{buffered, ids_of};
use crate::laws::law_the_best_peer_is_asked;
use crate::model::{lemma_ids_of, SyncView, BACKFILL_BATCH_BUFFER_SIZE};
use crate::order::lemma_filter_ascending;
use crate::peers::{best_peer, idle_peers, is_preferred};
use crate::requests::{is_requested, load};
use crate::types::{BatchId, Epoch, PeerId, BACKFILL_EPOCHS_PER_BATCH};

verus! {

/// Whether a download of the batch from the peer has failed, or a version that the peer sent.
pub open spec fn has_failed(batch: BatchView, peer: PeerId) -> bool {
    ||| exists|i: int|
        0 <= i < batch.failed_download_attempts.len()
            && #[trigger] batch.failed_download_attempts[i] == peer
    ||| exists|i: int|
        0 <= i < batch.failed_processing_attempts.len()
            && (#[trigger] batch.failed_processing_attempts[i]).peer_id == peer
}

impl SyncView {
    /// The batches that are being downloaded from the peer.
    pub open spec fn downloads_from(self, peer: PeerId) -> Set<BatchId> {
        self.batches.dom().filter(
            |id: BatchId|
                self.batches[id].state is Downloading && self.batches[id].state->Downloading_0
                    == peer,
        )
    }

    /// The batches that are being downloaded, or wait to be processed.
    pub open spec fn in_buffer(self) -> Set<BatchId> {
        self.batches.dom().filter(
            |id: BatchId|
                self.batches[id].state is Downloading || self.batches[id].state
                    is AwaitingProcessing,
        )
    }

    /// Whether one more batch can be taken in: the final batch has not been requested, and fewer
    /// than twenty batches are being downloaded or wait to be processed.
    pub open spec fn has_room(self) -> bool {
        !self.last_batch_downloaded && self.in_buffer().len() < 20
    }

    /// The peers of the pool that no batch is being downloaded from, in the order of the pool.
    pub open spec fn idle_of(self, pool: Seq<PeerId>) -> Seq<PeerId> {
        pool.filter(|peer: PeerId| self.downloads_from(peer) == Set::<BatchId>::empty())
    }

    /// Whether no peer of the pool is better to be asked for the batch: none that has not failed at
    /// it, if this one has; and of those that have failed at it, or not, as this one, none that
    /// fewer batches are being downloaded from, nor, with as many, one of a smaller number.
    pub open spec fn is_best_for(self, id: BatchId, pool: Seq<PeerId>, peer: PeerId) -> bool {
        &&& pool.contains(peer)
        &&& forall|other: PeerId| #[trigger]
            pool.contains(other) ==> {
                let batch = self.batches[id];
                let asked = self.downloads_from(peer).len();
                let asked_other = self.downloads_from(other).len();
                &&& has_failed(batch, peer) ==> has_failed(batch, other)
                &&& has_failed(batch, peer) == has_failed(batch, other) ==> asked < asked_other || (
                asked == asked_other && peer <= other)
            }
    }
}

/// What is registered as being to come from a peer is just what is being downloaded from it, and
/// is counted batch by batch.
pub proof fn law_the_load_counts_downloads(s: SyncView, peer: PeerId, id: BatchId)
    requires
        s.inv(),
    ensures
        is_requested(s.active_requests, peer, id) <==> s.downloads_from(peer).contains(id),
        load(s.active_requests, peer) == s.downloads_from(peer).len(),
        load(s.active_requests, peer) == 0 <==> s.downloads_from(peer) == Set::<BatchId>::empty(),
        s.downloads_from(peer).finite(),
{
    lemma_load(s, peer);
    if s.downloads_from(peer).contains(id) {
        assert(s.batches[id].is_downloading_from(peer));
    }
}

/// The load of a peer, counted by its downloads.
pub proof fn lemma_load(s: SyncView, peer: PeerId)
    requires
        s.is_consistent(),
    ensures
        load(s.active_requests, peer) == s.downloads_from(peer).len(),
        load(s.active_requests, peer) == 0 <==> s.downloads_from(peer) == Set::<BatchId>::empty(),
        s.downloads_from(peer).finite(),
{
    let downloads = s.downloads_from(peer);
    assert(downloads.finite());
    assert forall|id: BatchId| downloads.contains(id) <==> is_requested(
        s.active_requests,
        peer,
        id,
    ) by {
        if downloads.contains(id) {
            assert(s.batches[id].is_downloading_from(peer));
        }
    }
    if s.active_requests.contains_key(peer) {
        assert forall|id: BatchId| downloads.contains(id) <==> s.active_requests[peer].contains(
            id,
        ) by {
            assert(downloads.contains(id) <==> is_requested(s.active_requests, peer, id));
        }
        assert(s.active_requests[peer] =~= downloads);
    } else {
        assert(downloads =~= Set::empty());
    }
    if downloads.len() == 0 {
        assert(downloads =~= Set::empty());
    }
}

/// The number of batches that take up room in the buffer is that of the batches which are being
/// downloaded or wait to be processed.
pub proof fn law_the_buffer_counts_batches(s: SyncView)
    requires
        s.batches.dom().finite(),
    ensures
        buffered(s.batches) == s.in_buffer().len(),
{
    let pick = |id: BatchId| s.batches[id].is_in_buffer();
    let picked = ids_of(s.batches).filter(pick);
    lemma_ids_of(s.batches);
    lemma_filter_ascending(ids_of(s.batches), pick);
    picked.unique_seq_to_set();
    assert forall|id: BatchId| picked.to_set().contains(id) <==> s.in_buffer().contains(id) by {
        assert(picked.contains(id) <==> ids_of(s.batches).contains(id) && pick(id));
    }
    assert(picked.to_set() =~= s.in_buffer());
}

/// The idle peers are those of the pool that no batch is being downloaded from.
pub proof fn law_idle_peers_download_nothing(s: SyncView, pool: Seq<PeerId>, peer: PeerId)
    requires
        s.inv(),
    ensures
        idle_peers(pool, s.active_requests) == s.idle_of(pool),
        s.idle_of(pool).contains(peer) <==> pool.contains(peer) && forall|id: BatchId| #[trigger]
            s.batches.contains_key(id) ==> !(s.batches[id].state is Downloading
                && s.batches[id].state->Downloading_0 == peer),
{
    lemma_idle(s, pool);
    let none = |peer: PeerId| s.downloads_from(peer) == Set::<BatchId>::empty();
    if s.idle_of(pool).contains(peer) {
        pool.lemma_filter_contains_rev(none, peer);
        let i = choose|i: int| 0 <= i < s.idle_of(pool).len() && s.idle_of(pool)[i] == peer;
        assert(none(s.idle_of(pool)[i]));
        assert forall|id: BatchId| #[trigger] s.batches.contains_key(id) implies !(
        s.batches[id].state is Downloading && s.batches[id].state->Downloading_0 == peer) by {
            assert(!s.downloads_from(peer).contains(id));
        }
    }
    if pool.contains(peer) && forall|id: BatchId| #[trigger]
        s.batches.contains_key(id) ==> !(s.batches[id].state is Downloading
            && s.batches[id].state->Downloading_0 == peer) {
        assert(s.downloads_from(peer) =~= Set::empty());
        assert(none(peer));
        let i = choose|i: int| 0 <= i < pool.len() && pool[i] == peer;
        assert(pool.filter(none).contains(pool[i]));
    }
}

/// Which peers are idle, told by their downloads.
pub proof fn lemma_idle(s: SyncView, pool: Seq<PeerId>)
    requires
        s.is_consistent(),
    ensures
        idle_peers(pool, s.active_requests) == s.idle_of(pool),
{
    let pick = |peer: PeerId| load(s.active_requests, peer) == 0;
    let none = |peer: PeerId| s.downloads_from(peer) == Set::<BatchId>::empty();
    assert forall|peer: PeerId| (#[trigger] load(s.active_requests, peer) == 0) == (
    s.downloads_from(peer) == Set::<BatchId>::empty()) by {
        lemma_load(s, peer);
    }
    assert(pick =~= none);
}

/// Which peers are idle, whether there is room, and which peer is the best to ask for a batch
/// depends on the batches alone.
pub proof fn lemma_depends_on_batches(
    a: SyncView,
    b: SyncView,
    pool: Seq<PeerId>,
    id: BatchId,
    peer: PeerId,
)
    requires
        a.batches == b.batches,
        a.last_batch_downloaded == b.last_batch_downloaded,
    ensures
        a.idle_of(pool) == b.idle_of(pool),
        a.has_room() == b.has_room(),
        a.is_best_for(id, pool, peer) == b.is_best_for(id, pool, peer),
{
    assert(b.in_buffer() =~= a.in_buffer());
    assert forall|p: PeerId| #[trigger] b.downloads_from(p) == a.downloads_from(p) by {
        assert(b.downloads_from(p) =~= a.downloads_from(p));
    }
    assert((|p: PeerId| b.downloads_from(p) == Set::<BatchId>::empty()) =~= (|p: PeerId|
        a.downloads_from(p) == Set::<BatchId>::empty()));
}

/// Which peer is the best to ask for a batch, told by the downloads.
pub proof fn lemma_best(s: SyncView, id: BatchId, pool: Seq<PeerId>)
    requires
        s.is_consistent(),
        pool.len() > 0,
    ensures
        best_peer(s.batches[id], s.active_requests, pool) is Some,
        s.is_best_for(id, pool, best_peer(s.batches[id], s.active_requests, pool)->0),
{
    let batch = s.batches[id];
    law_the_best_peer_is_asked(batch, s.active_requests, pool);
    let peer = best_peer(batch, s.active_requests, pool)->0;
    assert forall|p: PeerId| #[trigger] has_failed(batch, p) == batch.has_failed_with(p) by {}
    assert forall|other: PeerId| #[trigger] pool.contains(other) implies {
        let asked = s.downloads_from(peer).len();
        let asked_other = s.downloads_from(other).len();
        &&& has_failed(batch, peer) ==> has_failed(batch, other)
        &&& has_failed(batch, peer) == has_failed(batch, other) ==> asked < asked_other || (asked
            == asked_other && peer <= other)
    } by {
        assert(is_preferred(batch, s.active_requests, peer, other));
        lemma_load(s, peer);
        lemma_load(s, other);
        assert(has_failed(batch, peer) == batch.has_failed_with(peer));
        assert(has_failed(batch, other) == batch.has_failed_with(other));
    }
}

/// Of the peers of a pool just one is the best to ask.
pub proof fn law_one_peer_is_best(
    s: SyncView,
    id: BatchId,
    pool: Seq<PeerId>,
    a: PeerId,
    b: PeerId,
)
    requires
        s.is_best_for(id, pool, a),
        s.is_best_for(id, pool, b),
    ensures
        a == b,
{
    assert(pool.contains(a) && pool.contains(b));
}

/// Syncing to an epoch would complete the sync exactly if the epoch does not begin behind the slot
/// at which the sync is complete.
pub proof fn law_where_the_sync_would_complete(s: SyncView, epoch: Epoch)
    requires
        s.slots_per_epoch > 0,
    ensures
        s.would_complete(epoch) <==> epoch * s.slots_per_epoch <= s.genesis_backfill_slot,
{
    let n = s.slots_per_epoch as int;
    let g = s.genesis_backfill_slot as int;
    let e = epoch as int;
    vstd::arithmetic::div_mod::lemma_fundamental_div_mod(g, n);
    if e <= g / n {
        assert(e * n <= (g / n) * n) by (nonlinear_arith)
            requires
                e <= g / n,
                n > 0,
        ;
        assert((g / n) * n == n * (g / n)) by (nonlinear_arith);
    } else {
        assert(e * n >= (g / n + 1) * n) by (nonlinear_arith)
            requires
                e >= g / n + 1,
                n > 0,
        ;
        assert((g / n + 1) * n == n * (g / n) + n) by (nonlinear_arith);
    }
}

/// How often a batch may fail to be downloaded or to be processed, how many batches the buffer
/// takes, and how many epochs make up a batch.
pub proof fn law_limits()
    ensures
        MAX_BATCH_DOWNLOAD_ATTEMPTS == 10,
        MAX_BATCH_PROCESSING_ATTEMPTS == 10,
        BACKFILL_BATCH_BUFFER_SIZE == 20,
        BACKFILL_EPOCHS_PER_BATCH == 1,
{
}

} // verus!
