//! That the sync does not stand still: whatever can be requested or processed is, as soon as a call
//! that moves the sync forward has come to its end.
use vstd::prelude::*;

use crate::batch::Block;
use crate::blocks::blocks_fit;
use crate::calls::{
    law_of_failure_through_a_fault, law_of_failure_without_fault, law_of_inject_error,
    law_of_on_batch_type, law_of_on_block_response, law_of_on_request_failed,
    law_of_on_request_sent, law_of_peer_disconnected, law_of_segments, law_of_start,
    law_of_success, law_of_unexpected_results,
};
use crate::choices::lemma_depends_on_batches;
use crate::laws::{
    has_work, law_every_call_keeps_the_invariant, law_the_target_does_not_await_validation,
    lemma_begin_of, lemma_begin_of_gapless, Call,
};
use crate::model::{SyncView, Waiting};
use crate::steps::lemma_goes_on;
use crate::types::{
    AnchorInfo, BackFillState, BatchId, BatchProcessResult, Id, PeerId, Slot, StepView,
};

verus! {

/// How a call goes on once it has done what is its own.
proof fn lemma_goes_on_after(s: SyncView, call: Call, pool: Seq<PeerId>)
    requires
        s.inv(),
        s.accepts(call),
        has_work(call),
    ensures
        ({
            let (u, flow) = s.begin_of(call, pool);
            let (t, step) = s.after(call, pool);
            if flow is Proceed {
                u.goes_on_to(pool, t, step)
            } else {
                step is Done
            }
        }),
{
    lemma_begin_of(s, call, pool);
    lemma_begin_of_gapless(s, call, pool);
    let (u, flow) = s.begin_of(call, pool);
    if flow is Proceed {
        lemma_goes_on(u, pool);
    }
}

/// A batch that is requested again is asked of the best synced peer: one that has not failed at it,
/// if there is such a peer; among these, one that as few batches as possible are being downloaded
/// from; and among these, the one of the smallest number.
pub proof fn law_requests_go_to_the_best_peer(s: SyncView, call: Call, pool: Seq<PeerId>)
    requires
        s.inv(),
        s.accepts(call),
        !(call is BatchType),
    ensures
        ({
            let (t, step) = s.after(call, pool);
            step matches StepView::RequestBlocks { peer, batch_id, .. } ==> {
                &&& t.is_best_for(batch_id, pool, peer)
                &&& t.waiting == (Waiting::Request { batch_id, peer })
                &&& t.participating_peers.contains(peer)
                &&& t.batches[batch_id].state is AwaitingDownload
            }
        }),
{
    let (t, step) = s.after(call, pool);
    law_every_call_keeps_the_invariant(s, call, pool);
    if has_work(call) {
        lemma_goes_on_after(s, call, pool);
        let (u, flow) = s.begin_of(call, pool);
        reveal(SyncView::goes_on_to);
        if let StepView::RequestBlocks { peer, batch_id, .. } = step {
            lemma_depends_on_batches(u, t, pool, batch_id, peer);
        }
    }
}

impl SyncView {
    /// Whether the call moves the sync forward: it resumes the sync, ends a download with blocks
    /// that fit, or tells that the batch which was being processed was processed with success.
    pub open spec fn moves_forward(self, call: Call, pool: Seq<PeerId>) -> bool {
        match call {
            Call::Start { .. } => self.state == BackFillState::Paused && pool.len() > 0,
            Call::BlockResponse { batch_id, peer, request_id, block } => {
                &&& block is None
                &&& self.expects(batch_id, peer, request_id)
                &&& blocks_fit(self.batches[batch_id], self.batches[batch_id].state->Downloading_1)
            },
            Call::ProcessResult { batch_id, result, .. } => {
                &&& self.current_processing_batch == Some(batch_id)
                &&& result is Success
            },
            _ => false,
        }
    }
}

/// A call that moves a running sync forward, and has nothing to request again, does not end, nor
/// have a batch processed, while there is an idle peer and room for one more batch; and it does not
/// end while the next batch waits to be processed and none is being processed. So it is unless the
/// sync is complete or has failed. A new batch is asked of a peer that is idle.
pub proof fn law_nothing_is_left_undone(s: SyncView, call: Call, pool: Seq<PeerId>)
    requires
        s.inv(),
        s.accepts(call),
        s.moves_forward(call, pool),
        s.after(call, pool).0.state == BackFillState::Syncing,
    ensures
        ({
            let (t, step) = s.after(call, pool);
            let target = t.processing_target;
            &&& step is Done ==> {
                &&& !(t.idle_of(pool).len() > 0 && t.has_room())
                &&& t.current_processing_batch is None ==> {
                    &&& t.batches.contains_key(target)
                    &&& !(t.batches[target].state is AwaitingProcessing)
                }
            }
            &&& step is SendChainSegment ==> {
                ||| t.idle_of(pool).len() == 0
                ||| t.last_batch_downloaded
                ||| t.in_buffer().len() + 1 >= 20
            }
            &&& step is BatchType ==> {
                &&& t.waiting->BatchType_peer == t.idle_of(pool).last()
                &&& t.work.idle == t.idle_of(pool).drop_last()
            }
            &&& step is BatchType || step is RequestBlocks ==> t.work.process
            &&& step is RequestBlocks ==> t.work.request
        }),
{
    let (t, step) = s.after(call, pool);
    let (u, flow) = s.begin_of(call, pool);
    lemma_begin_of(s, call, pool);
    lemma_goes_on_after(s, call, pool);
    reveal(SyncView::goes_on_to);
    if let Call::BlockResponse { batch_id, .. } = call {
        assert(s.batches[batch_id].crossed_boundary() is None);
    }
    assert(flow is Proceed);
    assert(u.work.request && u.work.process);
    assert(u.state == BackFillState::Syncing);
    if !(step is SendChainSegment) {
        lemma_depends_on_batches(u, t, pool, 0, 0);
    }
    if step is SendChainSegment {
        let target = u.processing_target;
        assert(u.in_buffer() =~= t.in_buffer().insert(target));
        assert(t.in_buffer().finite());
        assert forall|p: PeerId| #[trigger] u.downloads_from(p) == t.downloads_from(p) by {
            assert(u.downloads_from(p) =~= t.downloads_from(p));
        }
        assert((|p: PeerId| u.downloads_from(p) == Set::<BatchId>::empty()) =~= (|p: PeerId|
            t.downloads_from(p) == Set::<BatchId>::empty()));
        assert(u.idle_of(pool) == t.idle_of(pool));
    }
}

impl SyncView {
    /// Whether the next batch is ready, and nothing keeps it from being processed.
    pub open spec fn has_ready_batch(self) -> bool {
        &&& self.state == BackFillState::Syncing
        &&& self.current_processing_batch is None
        &&& self.batches.contains_key(self.processing_target)
        &&& self.batches[self.processing_target].state is AwaitingProcessing
    }

    /// Whether a batch that is ready is going to be processed by the call that is under way; and
    /// processing does not start above where the chain is validated from.
    pub open spec fn keeps_going(self) -> bool {
        &&& self.processing_target <= self.current_start
        &&& self.has_ready_batch() ==> self.work.process
    }
}

/// A call that goes on keeps going.
proof fn lemma_goes_on_going(u: SyncView, pool: Seq<PeerId>, t: SyncView, step: StepView)
    requires
        u.goes_on_to(pool, t, step),
        u.keeps_going(),
    ensures
        t.keeps_going(),
{
    reveal(SyncView::goes_on_to);
}

/// The sync keeps going when a peer is lost.
proof fn lemma_going_after_disconnection(s: SyncView, peer: PeerId, pool: Seq<PeerId>)
    requires
        s.inv(),
        s.is_idle(),
        s.keeps_going(),
    ensures
        s.peer_disconnected(peer, pool).0.keeps_going(),
{
    let (t, step) = s.peer_disconnected(peer, pool);
    assert forall|u: SyncView| #[trigger] u.goes_on_to(pool, t, step)
        && u.keeps_going() implies t.keeps_going() by {
        lemma_goes_on_going(u, pool, t, step);
    }
    law_of_peer_disconnected(s, peer, pool);
}

/// The sync keeps going when a request has failed.
proof fn lemma_going_after_error(
    s: SyncView,
    id: BatchId,
    peer: PeerId,
    request_id: Id,
    pool: Seq<PeerId>,
)
    requires
        s.inv(),
        s.is_idle(),
        s.keeps_going(),
    ensures
        s.inject_error(id, peer, request_id, pool).0.keeps_going(),
{
    let (t, step) = s.inject_error(id, peer, request_id, pool);
    assert forall|u: SyncView| #[trigger] u.goes_on_to(pool, t, step)
        && u.keeps_going() implies t.keeps_going() by {
        lemma_goes_on_going(u, pool, t, step);
    }
    law_of_inject_error(s, id, peer, request_id, pool);
}

/// The sync keeps going when a block has come.
proof fn lemma_going_after_block(
    s: SyncView,
    id: BatchId,
    peer: PeerId,
    request_id: Id,
    block: Option<Block>,
    pool: Seq<PeerId>,
)
    requires
        s.inv(),
        s.is_idle(),
        s.keeps_going(),
    ensures
        s.on_block_response(id, peer, request_id, block, pool).0.keeps_going(),
{
    let (t, step) = s.on_block_response(id, peer, request_id, block, pool);
    assert forall|u: SyncView| #[trigger] u.goes_on_to(pool, t, step)
        && u.keeps_going() implies t.keeps_going() by {
        lemma_goes_on_going(u, pool, t, step);
    }
    law_of_on_block_response(s, id, peer, request_id, block, pool);
}

/// The sync keeps going when a request was sent.
proof fn lemma_going_after_request(s: SyncView, request_id: Id, pool: Seq<PeerId>)
    requires
        s.inv(),
        s.waiting is Request,
        s.keeps_going(),
    ensures
        s.on_request_sent(request_id, pool).0.keeps_going(),
{
    let (t, step) = s.on_request_sent(request_id, pool);
    assert forall|u: SyncView| #[trigger] u.goes_on_to(pool, t, step)
        && u.keeps_going() implies t.keeps_going() by {
        lemma_goes_on_going(u, pool, t, step);
    }
    law_of_on_request_sent(s, request_id, pool);
}

/// The sync keeps going when a request could not be sent.
proof fn lemma_going_after_failed_request(s: SyncView, pool: Seq<PeerId>)
    requires
        s.inv(),
        s.waiting is Request,
        s.keeps_going(),
    ensures
        s.on_request_failed(pool).0.keeps_going(),
{
    let (t, step) = s.on_request_failed(pool);
    assert forall|u: SyncView| #[trigger] u.goes_on_to(pool, t, step)
        && u.keeps_going() implies t.keeps_going() by {
        lemma_goes_on_going(u, pool, t, step);
    }
    law_of_on_request_failed(s, pool);
}

/// The sync keeps going when blocks were not taken.
proof fn lemma_going_after_rejection(s: SyncView, pool: Seq<PeerId>)
    requires
        s.inv(),
        s.waiting is Segment,
        s.keeps_going(),
    ensures
        s.on_segment_rejected(pool).0.keeps_going(),
{
    let (t, step) = s.on_segment_rejected(pool);
    assert forall|u: SyncView| #[trigger] u.goes_on_to(pool, t, step)
        && u.keeps_going() implies t.keeps_going() by {
        lemma_goes_on_going(u, pool, t, step);
    }
    law_of_segments(s, pool);
}

/// The sync keeps going when a batch has been processed.
proof fn lemma_going_after_result(
    s: SyncView,
    id: BatchId,
    result: BatchProcessResult,
    anchor: Option<AnchorInfo>,
    pool: Seq<PeerId>,
)
    requires
        s.inv(),
        s.is_idle(),
        s.keeps_going(),
    ensures
        s.on_batch_process_result(id, result, anchor, pool).0.keeps_going(),
{
    let (t, _, step) = s.on_batch_process_result(id, result, anchor, pool);
    assert forall|u: SyncView| #[trigger] u.goes_on_to(pool, t, step)
        && u.keeps_going() implies t.keeps_going() by {
        lemma_goes_on_going(u, pool, t, step);
    }
    if s.current_processing_batch != Some(id) {
        law_of_unexpected_results(s, id, result, anchor, pool);
    } else {
        match result {
            BatchProcessResult::Success { was_non_empty } => {
                law_of_success(s, id, was_non_empty, anchor, pool);
            },
            BatchProcessResult::FaultyFailure { imported_blocks, penalty } => {
                law_of_failure_through_a_fault(s, id, imported_blocks, penalty, anchor, pool);
            },
            BatchProcessResult::NonFaultyFailure => {
                law_of_failure_without_fault(s, id, anchor, pool);
            },
        }
    }
}

/// The sync keeps going when it is started.
proof fn lemma_going_after_start(s: SyncView, anchor: Option<AnchorInfo>, pool: Seq<PeerId>)
    requires
        s.inv(),
        s.is_idle(),
        s.keeps_going(),
    ensures
        s.start(pool, anchor).0.keeps_going() || (s.restarts(Call::Start { anchor }) && s.start(
            pool,
            anchor,
        ).0.current_start < s.current_start),
{
    let (t, step) = s.start(pool, anchor);
    assert forall|u: SyncView| #[trigger] u.goes_on_to(pool, t, step)
        && u.keeps_going() implies t.keeps_going() by {
        lemma_goes_on_going(u, pool, t, step);
    }
    law_of_start(s, pool, anchor);
}

/// A batch that is ready is processed: whenever a call has come to its end, and the sync runs and
/// processes no batch, the batch that is to be processed next is still being downloaded, if it is
/// there. (The batch of the very first epoch may have been processed already.)
///
/// This holds of a new sync, and every call keeps it, unless a failed sync starts over and the
/// chain is then validated further down than before.
pub proof fn law_a_ready_batch_is_processed(s: SyncView, call: Call, pool: Seq<PeerId>)
    requires
        s.inv(),
        s.accepts(call),
        s.keeps_going(),
    ensures
        ({
            let (t, step) = s.after(call, pool);
            let target = t.processing_target;
            &&& t.keeps_going() || (s.restarts(call) && t.current_start < s.current_start)
            &&& t.keeps_going() && step is Done && t.state == BackFillState::Syncing
                && t.current_processing_batch is None && t.batches.contains_key(target) ==> {
                ||| t.batches[target].state is Downloading
                ||| t.batches[target].state is AwaitingValidation && target == 0
            }
        }),
{
    let (t, step) = s.after(call, pool);
    match call {
        Call::Pause | Call::FullySyncedPeerJoined => {},
        Call::Start { anchor } => {
            lemma_going_after_start(s, anchor, pool);
        },
        Call::PeerDisconnected { peer } => {
            lemma_going_after_disconnection(s, peer, pool);
        },
        Call::InjectError { batch_id, peer, request_id } => {
            lemma_going_after_error(s, batch_id, peer, request_id, pool);
        },
        Call::BlockResponse { batch_id, peer, request_id, block } => {
            lemma_going_after_block(s, batch_id, peer, request_id, block, pool);
        },
        Call::ProcessResult { batch_id, result, anchor } => {
            lemma_going_after_result(s, batch_id, result, anchor, pool);
        },
        Call::BatchType { batch_type } => {
            law_of_on_batch_type(s, batch_type);
        },
        Call::RequestSent { request_id } => {
            lemma_going_after_request(s, request_id, pool);
        },
        Call::RequestFailed => {
            lemma_going_after_failed_request(s, pool);
        },
        Call::SegmentSent => {
            law_of_segments(s, pool);
        },
        Call::SegmentRejected => {
            lemma_going_after_rejection(s, pool);
        },
    }
    law_every_call_keeps_the_invariant(s, call, pool);
    let target = t.processing_target;
    if t.batches.contains_key(target) && t.batches[target].state is AwaitingValidation {
        law_the_target_does_not_await_validation(t);
    }
    if step is Done && t.batches.contains_key(target) {
        assert(!t.work.retries.contains(target));
        assert(t.batches[target].is_alive());
    }
}

/// A new sync keeps going.
pub proof fn law_a_new_sync_keeps_going(
    anchor: Option<AnchorInfo>,
    genesis_backfill_slot: Slot,
    slots_per_epoch: u64,
)
    ensures
        SyncView::initial(anchor, genesis_backfill_slot, slots_per_epoch).keeps_going(),
{
}

} // verus!
