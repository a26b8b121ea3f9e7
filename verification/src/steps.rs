//! Which step a call comes to.
use vstd::prelude::*;

use crate::always::{lemma_last_turn, lemma_nothing_skipped, lemma_turn, turned, turns};
use crate::batch::{attempt_hash, Attempt, BatchStateView, BatchView};
use crate::choices::{law_the_buffer_counts_batches, lemma_best, lemma_idle};
use crate::gapless::lemma_no_robust_target;
use crate::model::{lemma_next_batch, SyncView, Waiting, WorkView};
use crate::text::decimal;
use crate::types::{
    BackFillState, BatchId, BlocksByRangeRequest, ErrorView, Outcome, PeerId, StepView,
};

verus! {

/// The request for the slots of a batch.
pub open spec fn slots_of(batch: BatchView) -> BlocksByRangeRequest {
    BlocksByRangeRequest {
        start_slot: batch.start_slot,
        count: if batch.start_slot <= batch.end_slot {
            (batch.end_slot - batch.start_slot) as u64
        } else {
            0
        },
    }
}

/// The batch once its blocks have been handed to the block processor.
pub open spec fn handed_over(batch: BatchView) -> BatchView {
    match batch.state {
        BatchStateView::AwaitingProcessing(peer, blocks) => BatchView {
            state: BatchStateView::Processing(
                Attempt { peer_id: peer, hash: attempt_hash(blocks) },
            ),
            ..batch
        },
        _ => batch,
    }
}

impl SyncView {
    /// The idle peers that are to be asked for new batches, the next one last.
    pub open spec fn peers_to_ask(self, pool: Seq<PeerId>) -> Seq<PeerId> {
        if self.work.idle.len() > 0 {
            self.work.idle
        } else if self.work.request && self.state == BackFillState::Syncing {
            self.idle_of(pool)
        } else {
            Seq::empty()
        }
    }

    /// Whether a batch is to be processed now.
    pub open spec fn is_to_process(self) -> bool {
        &&& self.work.process
        &&& self.state == BackFillState::Syncing
        &&& self.current_processing_batch is None
    }

    /// Whether `t` and `step` are what doing the work that is left of a call comes to: first, the
    /// batches that are to be downloaded again are requested, each from the best peer there is;
    /// then new batches, as long as there are idle peers and room; then the next batch is
    /// processed if it is ready.
    #[verifier::opaque]
    pub open spec fn goes_on_to(self, pool: Seq<PeerId>, t: SyncView, step: StepView) -> bool {
        let target = self.processing_target;
        let peers = self.peers_to_ask(pool);
        let done = WorkView::none(Outcome::Handled);
        if self.work.retries.len() > 0 {
            let id = self.work.retries[0];
            let peer = t.waiting->Request_peer;
            if pool.len() == 0 {
                &&& step == StepView::Done(Err(ErrorView::Paused))
                &&& t == (SyncView {
                    state: BackFillState::Paused,
                    work: done,
                    waiting: Waiting::Nothing,
                    ..self
                })
            } else {
                &&& step == (StepView::RequestBlocks {
                    peer,
                    batch_id: id,
                    request: slots_of(self.batches[id]),
                    batch_type: self.batches[id].batch_type,
                })
                &&& self.is_best_for(id, pool, peer)
                &&& t == (SyncView {
                    participating_peers: self.participating_peers.insert(peer),
                    work: WorkView { retries: self.work.retries.drop_first(), ..self.work },
                    waiting: Waiting::Request { batch_id: id, peer },
                    ..self
                })
            }
        } else if peers.len() > 0 && self.has_room() {
            let id = self.to_be_downloaded;
            &&& step == (StepView::BatchType { batch_id: id })
            &&& t == (SyncView {
                work: WorkView {
                    idle: peers.drop_last(),
                    request: self.work.request && self.work.idle.len() > 0,
                    ..self.work
                },
                waiting: Waiting::BatchType { batch_id: id, peer: peers.last() },
                ..self
            })
        } else if self.is_to_process() && !self.batches.contains_key(target) {
            &&& step == StepView::Done(
                Err(
                    ErrorView::InvalidSyncState(
                        "Batch not found for current processing target "@ + decimal(target as nat),
                    ),
                ),
            )
            &&& t == self.cleared()
        } else if self.is_to_process() && self.batches[target].state is AwaitingProcessing {
            &&& step == (StepView::SendChainSegment {
                batch_id: target,
                blocks: self.batches[target].state->AwaitingProcessing_1,
            })
            &&& t == (SyncView {
                batches: self.batches.insert(target, handed_over(self.batches[target])),
                current_processing_batch: Some(target),
                work: WorkView::none(self.work.outcome),
                waiting: Waiting::Segment { batch_id: target },
                ..self
            })
        } else {
            &&& step == StepView::Done(Ok(self.work.outcome))
            &&& t == (SyncView {
                to_be_downloaded: t.to_be_downloaded,
                work: done,
                waiting: Waiting::Nothing,
                ..self
            })
            &&& !self.last_batch_downloaded ==> t.to_be_downloaded == self.to_be_downloaded
            &&& self.is_to_process() ==> {
                ||| self.batches[target].state is Downloading
                ||| self.batches[target].state is AwaitingValidation && target == 0
            }
        }
    }

    /// The sync after it has failed: nothing is left of it but where it has come to.
    pub open spec fn cleared(self) -> SyncView {
        SyncView {
            state: BackFillState::Failed,
            current_start: self.current_start,
            processing_target: self.current_start,
            to_be_downloaded: self.current_start,
            last_batch_downloaded: false,
            batches: Map::empty(),
            active_requests: Map::empty(),
            current_processing_batch: None,
            validated_batches: self.validated_batches,
            participating_peers: Set::empty(),
            restart_failed_sync: false,
            genesis_backfill_slot: self.genesis_backfill_slot,
            slots_per_epoch: self.slots_per_epoch,
            work: WorkView::none(Outcome::Handled),
            waiting: Waiting::Nothing,
        }
    }
}

/// What doing the work that is left of a call comes to.
#[verifier::rlimit(40)]
pub proof fn lemma_goes_on(u: SyncView, pool: Seq<PeerId>)
    requires
        u.is_consistent(),
        u.leaves_nothing_out(),
        u.waiting is Nothing,
    ensures
        u.goes_on_to(pool, u.proceed(pool).0, u.proceed(pool).1),
    decreases
        (if u.work.process { 1int } else { 0int }),
        (if u.work.request { 1int } else { 0int }),
        u.work.idle.len(),
        u.work.retries.len(),
{
    reveal(SyncView::goes_on_to);
    let (t, step) = u.proceed(pool);
    let target = u.processing_target;
    lemma_nothing_skipped(u);
    lemma_next_batch(u);
    law_the_buffer_counts_batches(u);
    lemma_idle(u, pool);
    if turns(u, pool) {
        let next = turned(u, pool);
        lemma_turn(u, pool);
        if u.work.idle.len() == 0 && !u.work.request && u.is_to_process()
            && u.batches[target].state is AwaitingValidation {
            lemma_no_robust_target(u);
            assert(u.would_complete(0));
            assert(u.last_batch_downloaded);
        }
        assert(next.leaves_nothing_out());
        lemma_goes_on(next, pool);
        assert(next.in_buffer() == u.in_buffer());
        assert(next.idle_of(pool) == u.idle_of(pool)) by {
            lemma_idle(next, pool);
        }
        assert(u.goes_on_to(pool, t, step));
    } else {
        lemma_last_turn(u, pool);
        if u.work.retries.len() > 0 {
            let id = u.work.retries[0];
            assert(u.batches.contains_key(id));
            if pool.len() > 0 {
                lemma_best(u, id, pool);
            }
        } else if u.work.idle.len() > 0 {
            assert(u.next_batch().1 == Some(u.to_be_downloaded));
        } else if u.work.process {
            if !u.batches.contains_key(target) {
                assert(t =~= u.cleared());
            } else {
                assert(!u.work.retries.contains(target));
                assert(u.batches[target].state is AwaitingProcessing);
                assert(t.work =~= WorkView::none(u.work.outcome));
            }
        }
    }
}

/// As a call goes on, it changes no batch but one whose blocks are handed to the block processor,
/// and adds none; and it does not move the start of the chain.
pub proof fn lemma_goes_on_keeps(
    u: SyncView,
    pool: Seq<PeerId>,
    t: SyncView,
    step: StepView,
    id: BatchId,
)
    requires
        u.goes_on_to(pool, t, step),
    ensures
        t.current_start == u.current_start,
        t.batches.contains_key(id) ==> {
            &&& u.batches.contains_key(id)
            &&& t.batches[id] == if step is SendChainSegment && step->SendChainSegment_batch_id
                == id {
                handed_over(u.batches[id])
            } else {
                u.batches[id]
            }
        },
        u.batches.contains_key(id) && t.state != BackFillState::Failed ==> t.batches.contains_key(
            id,
        ),
        step matches StepView::SendChainSegment { batch_id, blocks } ==> {
            &&& u.batches.contains_key(batch_id)
            &&& u.batches[batch_id].state is AwaitingProcessing
            &&& u.batches[batch_id].state->AwaitingProcessing_1 == blocks
        },
{
    reveal(SyncView::goes_on_to);
}

/// As a call goes on, it moves none of the targets, unless the sync fails; it makes a participant
/// of whoever is asked for a batch, and has a batch processed only if none is.
pub proof fn lemma_goes_on_targets(u: SyncView, pool: Seq<PeerId>, t: SyncView, step: StepView)
    requires
        u.goes_on_to(pool, t, step),
    ensures
        t.current_start == u.current_start,
        t.validated_batches == u.validated_batches,
        t.genesis_backfill_slot == u.genesis_backfill_slot,
        t.slots_per_epoch == u.slots_per_epoch,
        t == u.cleared() || {
            &&& t.state == u.state || t.state == BackFillState::Paused && step == StepView::Done(
                Err(ErrorView::Paused),
            )
            &&& t.processing_target == u.processing_target
            &&& t.last_batch_downloaded == u.last_batch_downloaded
            &&& !u.last_batch_downloaded ==> t.to_be_downloaded == u.to_be_downloaded
            &&& t.restart_failed_sync == u.restart_failed_sync
            &&& t.participating_peers == if step is RequestBlocks {
                u.participating_peers.insert(step->RequestBlocks_peer)
            } else {
                u.participating_peers
            }
            &&& t.current_processing_batch == if step is SendChainSegment {
                Some(u.processing_target)
            } else {
                u.current_processing_batch
            }
        },
        step is SendChainSegment ==> step->SendChainSegment_batch_id == u.processing_target,
        match step {
            StepView::Done(Ok(outcome)) => outcome == u.work.outcome,
            StepView::Done(Err(_)) => true,
            _ => t.work.outcome == u.work.outcome,
        },
{
    reveal(SyncView::goes_on_to);
}

} // verus!
