//! What becomes of the targets of the sync, and of what it counts, whatever it is called with.
use vstd::prelude::*;

use crate::always::lemma_settle;
use crate::batch::Block;
use crate::calls::{
    law_of_failure_through_a_fault, law_of_failure_without_fault, law_of_inject_error,
    law_of_on_batch_type, law_of_on_block_response, law_of_on_request_failed,
    law_of_on_request_sent, law_of_peer_disconnected, law_of_segments, law_of_start,
    law_of_success, law_of_unexpected_results, lemma_progress,
};
use crate::laws::{
    has_work, is_reply, law_start_tells_the_progress, lemma_begin_of, lemma_begin_of_state, Call,
};
use crate::model::{successful, SyncView};
use crate::steps::lemma_goes_on_targets;
use crate::types::{
    AnchorInfo, BackFillState, BatchId, BatchProcessResult, Id, Outcome, PeerId,
    ProcessResult, StepView, SyncStart,
};

verus! {

impl SyncView {
    /// Whether the call tells the result of the batch that is being processed.
    pub open spec fn is_told_result(self, call: Call) -> bool {
        call is ProcessResult && self.current_processing_batch == Some(
            call->ProcessResult_batch_id,
        )
    }

    /// The peers that participate after the call, unless the sync fails: those that did, without a
    /// peer that has disconnected, and with the one that is now asked for a batch.
    pub open spec fn participants_after(self, call: Call, step: StepView) -> Set<PeerId> {
        let stayed = if call is PeerDisconnected && self.state != BackFillState::NotRequired {
            self.participating_peers.remove(call->PeerDisconnected_peer)
        } else {
            self.participating_peers
        };
        if step is RequestBlocks {
            stayed.insert(step->RequestBlocks_peer)
        } else {
            stayed
        }
    }
}

/// Whether `t` is where the call has to come to from `s`:
/// - the chain is validated from where it was; or from the batch on that was being processed, if
///   that moves the chain forward; or from the epoch of the oldest block, if a failed sync starts
///   over;
/// - the batches that are validated by this are counted;
/// - the next batch to be processed is the one below that which was processed with success; or
///   where the chain is validated from, if it was not, through the fault of a peer; or else the
///   same;
/// - the next batch to be downloaded is the one below that which has been taken in, or else the
///   same, as long as the final batch has not been requested, and that is the one which does not
///   begin behind the end of the sync;
/// - a batch is known to be processed from when it is handed out until its result is told, or it is
///   not taken;
/// - who is asked participates, until the peer disconnects.
pub open spec fn moves_to(s: SyncView, call: Call, t: SyncView, step: StepView) -> bool {
    let is_forward = s.is_advanced_by(call);
    let result_id = call->ProcessResult_batch_id;
    let new_id = s.waiting->BatchType_batch_id;
    let validated = s.validated_batches + s.above(result_id).len();
    &&& if is_forward {
        t.current_start == result_id
    } else if s.restarts(call) && call->Start_anchor is Some
        && !call->Start_anchor->0.block_backfill_complete {
        &&& t.current_start * s.slots_per_epoch <= call->Start_anchor->0.oldest_block_slot
        &&& call->Start_anchor->0.oldest_block_slot < (t.current_start + 1) * s.slots_per_epoch
    } else {
        t.current_start == s.current_start
    }
    &&& t.validated_batches == if !is_forward {
        s.validated_batches as int
    } else if validated <= u64::MAX {
        validated
    } else {
        u64::MAX as int
    }
    &&& t.genesis_backfill_slot == s.genesis_backfill_slot
    &&& t.slots_per_epoch == s.slots_per_epoch
    &&& t.state != BackFillState::Failed ==> {
        &&& t.processing_target == if s.is_told_result(call) && call->ProcessResult_result
            is Success {
            if result_id > 0 {
                result_id - 1
            } else {
                0
            }
        } else if s.is_told_result(call) && call->ProcessResult_result is FaultyFailure {
            t.current_start as int
        } else {
            s.processing_target as int
        }
        &&& t.last_batch_downloaded == if call is BatchType {
            new_id * s.slots_per_epoch <= s.genesis_backfill_slot
        } else {
            s.last_batch_downloaded
        }
        &&& !t.last_batch_downloaded ==> t.to_be_downloaded == if !(call is BatchType) {
            s.to_be_downloaded as int
        } else if new_id > 0 {
            new_id - 1
        } else {
            0
        }
        &&& t.current_processing_batch == if step is SendChainSegment {
            Some(t.processing_target)
        } else if s.is_told_result(call) || call is SegmentRejected {
            None
        } else {
            s.current_processing_batch
        }
        &&& t.restart_failed_sync == s.restart_failed_sync
        &&& t.participating_peers == s.participants_after(call, step)
    }
    &&& t.state == BackFillState::Failed ==> {
        &&& t.restart_failed_sync == if s.state == BackFillState::Failed && !s.restarts(call) {
            s.restart_failed_sync || call is FullySyncedPeerJoined
        } else {
            false
        }
        &&& t.participating_peers == Set::<PeerId>::empty()
        &&& t.processing_target == t.current_start
        &&& t.to_be_downloaded == t.current_start
        &&& !t.last_batch_downloaded
        &&& t.current_processing_batch is None
    }
}

/// A call that goes on from where it has to come to stays there.
proof fn lemma_goes_on_moved(
    s: SyncView,
    call: Call,
    u: SyncView,
    pool: Seq<PeerId>,
    t: SyncView,
    step: StepView,
    outcome: Outcome,
)
    requires
        u.goes_on_to(pool, t, step),
        !(call is BatchType),
        s.state != BackFillState::Failed || s.restarts(call),
        u.state != BackFillState::Failed,
        moves_to(s, call, u, StepView::Done(Ok(outcome))),
    ensures
        moves_to(s, call, t, step),
{
    lemma_goes_on_targets(u, pool, t, step);
}

/// Where an attempt to start the sync comes to.
proof fn lemma_moved_by_start(
    s: SyncView,
    anchor: Option<AnchorInfo>,
    pool: Seq<PeerId>,
)
    requires
        s.inv(),
        s.is_idle(),
    ensures
        ({
            let (t, step) = s.start(pool, anchor);
            moves_to(s, Call::Start { anchor }, t, step)
        }),
{
    let call = Call::Start { anchor };
    let (t, step) = s.start(pool, anchor);
    let done = StepView::Done(Ok(Outcome::Handled));
    assert forall|u: SyncView| #[trigger] u.goes_on_to(pool, t, step) && (s.state
        != BackFillState::Failed || s.restarts(call)) && u.state != BackFillState::Failed
        && moves_to(s, call, u, done) implies moves_to(s, call, t, step) by {
        lemma_goes_on_moved(s, call, u, pool, t, step, Outcome::Handled);
    }
    assert forall|u: SyncView| #[trigger] u.goes_on_to(pool, t, step) implies t.current_start
        == u.current_start && (!u.last_batch_downloaded && t.state != BackFillState::Failed
        ==> t.to_be_downloaded == u.to_be_downloaded) by {
        lemma_goes_on_targets(u, pool, t, step);
    }
    law_of_start(s, pool, anchor);
}

/// Where the loss of a peer comes to.
proof fn lemma_moved_by_disconnection(
    s: SyncView,
    peer: PeerId,
    pool: Seq<PeerId>,
)
    requires
        s.inv(),
        s.is_idle(),
    ensures
        ({
            let (t, step) = s.peer_disconnected(peer, pool);
            moves_to(s, Call::PeerDisconnected { peer }, t, step)
        }),
{
    let call = Call::PeerDisconnected { peer };
    let (t, step) = s.peer_disconnected(peer, pool);
    let done = StepView::Done(Ok(Outcome::Handled));
    assert forall|u: SyncView| #[trigger] u.goes_on_to(pool, t, step) && (s.state
        != BackFillState::Failed || s.restarts(call)) && u.state != BackFillState::Failed
        && moves_to(s, call, u, done) implies moves_to(s, call, t, step) by {
        lemma_goes_on_moved(s, call, u, pool, t, step, Outcome::Handled);
    }
    assert forall|u: SyncView| #[trigger] u.goes_on_to(pool, t, step) implies t.current_start
        == u.current_start && (!u.last_batch_downloaded && t.state != BackFillState::Failed
        ==> t.to_be_downloaded == u.to_be_downloaded) by {
        lemma_goes_on_targets(u, pool, t, step);
    }
    law_of_peer_disconnected(s, peer, pool);
}

/// Where an error comes to.
proof fn lemma_moved_by_error(
    s: SyncView,
    batch_id: BatchId,
    peer: PeerId,
    request_id: Id,
    pool: Seq<PeerId>,
)
    requires
        s.inv(),
        s.is_idle(),
    ensures
        ({
            let (t, step) = s.inject_error(batch_id, peer, request_id, pool);
            moves_to(s, Call::InjectError { batch_id, peer, request_id }, t, step)
        }),
{
    let call = Call::InjectError { batch_id, peer, request_id };
    let (t, step) = s.inject_error(batch_id, peer, request_id, pool);
    let done = StepView::Done(Ok(Outcome::Handled));
    assert forall|u: SyncView| #[trigger] u.goes_on_to(pool, t, step) && (s.state
        != BackFillState::Failed || s.restarts(call)) && u.state != BackFillState::Failed
        && moves_to(s, call, u, done) implies moves_to(s, call, t, step) by {
        lemma_goes_on_moved(s, call, u, pool, t, step, Outcome::Handled);
    }
    assert forall|u: SyncView| #[trigger] u.goes_on_to(pool, t, step) implies t.current_start
        == u.current_start && (!u.last_batch_downloaded && t.state != BackFillState::Failed
        ==> t.to_be_downloaded == u.to_be_downloaded) by {
        lemma_goes_on_targets(u, pool, t, step);
    }
    law_of_inject_error(s, batch_id, peer, request_id, pool);
}

/// Where a block, or the end of the blocks, comes to.
proof fn lemma_moved_by_block(
    s: SyncView,
    batch_id: BatchId,
    peer: PeerId,
    request_id: Id,
    block: Option<Block>,
    pool: Seq<PeerId>,
)
    requires
        s.inv(),
        s.is_idle(),
    ensures
        ({
            let (t, step) = s.on_block_response(batch_id, peer, request_id, block, pool);
            moves_to(s, Call::BlockResponse { batch_id, peer, request_id, block }, t, step)
        }),
{
    let call = Call::BlockResponse { batch_id, peer, request_id, block };
    let (t, step) = s.on_block_response(batch_id, peer, request_id, block, pool);
    let done = StepView::Done(Ok(Outcome::Handled));
    assert forall|u: SyncView| #[trigger] u.goes_on_to(pool, t, step) && (s.state
        != BackFillState::Failed || s.restarts(call)) && u.state != BackFillState::Failed
        && moves_to(s, call, u, done) implies moves_to(s, call, t, step) by {
        lemma_goes_on_moved(s, call, u, pool, t, step, Outcome::Handled);
    }
    assert forall|u: SyncView| #[trigger] u.goes_on_to(pool, t, step) implies t.current_start
        == u.current_start && (!u.last_batch_downloaded && t.state != BackFillState::Failed
        ==> t.to_be_downloaded == u.to_be_downloaded) by {
        lemma_goes_on_targets(u, pool, t, step);
    }
    law_of_on_block_response(s, batch_id, peer, request_id, block, pool);
}

/// Where a request comes to.
proof fn lemma_moved_by_request(
    s: SyncView,
    request_id: Id,
    pool: Seq<PeerId>,
)
    requires
        s.inv(),
        s.waiting is Request,
    ensures
        ({
            let (t, step) = s.on_request_sent(request_id, pool);
            moves_to(s, Call::RequestSent { request_id }, t, step)
        }),
{
    let call = Call::RequestSent { request_id };
    let (t, step) = s.on_request_sent(request_id, pool);
    let done = StepView::Done(Ok(Outcome::Handled));
    assert forall|u: SyncView| #[trigger] u.goes_on_to(pool, t, step) && (s.state
        != BackFillState::Failed || s.restarts(call)) && u.state != BackFillState::Failed
        && moves_to(s, call, u, done) implies moves_to(s, call, t, step) by {
        lemma_goes_on_moved(s, call, u, pool, t, step, Outcome::Handled);
    }
    assert forall|u: SyncView| #[trigger] u.goes_on_to(pool, t, step) implies t.current_start
        == u.current_start && (!u.last_batch_downloaded && t.state != BackFillState::Failed
        ==> t.to_be_downloaded == u.to_be_downloaded) by {
        lemma_goes_on_targets(u, pool, t, step);
    }
    law_of_on_request_sent(s, request_id, pool);
}

/// Where a failed request comes to.
proof fn lemma_moved_by_failed_request(
    s: SyncView,
    pool: Seq<PeerId>,
)
    requires
        s.inv(),
        s.waiting is Request,
    ensures
        ({
            let (t, step) = s.on_request_failed(pool);
            moves_to(s, Call::RequestFailed, t, step)
        }),
{
    let call = Call::RequestFailed;
    let (t, step) = s.on_request_failed(pool);
    let done = StepView::Done(Ok(Outcome::Handled));
    assert forall|u: SyncView| #[trigger] u.goes_on_to(pool, t, step) && (s.state
        != BackFillState::Failed || s.restarts(call)) && u.state != BackFillState::Failed
        && moves_to(s, call, u, done) implies moves_to(s, call, t, step) by {
        lemma_goes_on_moved(s, call, u, pool, t, step, Outcome::Handled);
    }
    assert forall|u: SyncView| #[trigger] u.goes_on_to(pool, t, step) implies t.current_start
        == u.current_start && (!u.last_batch_downloaded && t.state != BackFillState::Failed
        ==> t.to_be_downloaded == u.to_be_downloaded) by {
        lemma_goes_on_targets(u, pool, t, step);
    }
    law_of_on_request_failed(s, pool);
}

/// Where blocks that were taken come to.
proof fn lemma_moved_by_segment(
    s: SyncView,
    pool: Seq<PeerId>,
)
    requires
        s.inv(),
        s.waiting is Segment,
    ensures
        ({
            let (t, step) = s.on_segment_sent(pool);
            moves_to(s, Call::SegmentSent, t, step)
        }),
{
    let call = Call::SegmentSent;
    let (t, step) = s.on_segment_sent(pool);
    let done = StepView::Done(Ok(Outcome::Handled));
    assert forall|u: SyncView| #[trigger] u.goes_on_to(pool, t, step) && (s.state
        != BackFillState::Failed || s.restarts(call)) && u.state != BackFillState::Failed
        && moves_to(s, call, u, done) implies moves_to(s, call, t, step) by {
        lemma_goes_on_moved(s, call, u, pool, t, step, Outcome::Handled);
    }
    assert forall|u: SyncView| #[trigger] u.goes_on_to(pool, t, step) implies t.current_start
        == u.current_start && (!u.last_batch_downloaded && t.state != BackFillState::Failed
        ==> t.to_be_downloaded == u.to_be_downloaded) by {
        lemma_goes_on_targets(u, pool, t, step);
    }
    law_of_segments(s, pool);
}

/// Where blocks that were not taken come to.
proof fn lemma_moved_by_rejection(
    s: SyncView,
    pool: Seq<PeerId>,
)
    requires
        s.inv(),
        s.waiting is Segment,
    ensures
        ({
            let (t, step) = s.on_segment_rejected(pool);
            moves_to(s, Call::SegmentRejected, t, step)
        }),
{
    let call = Call::SegmentRejected;
    let (t, step) = s.on_segment_rejected(pool);
    let done = StepView::Done(Ok(Outcome::Handled));
    assert forall|u: SyncView| #[trigger] u.goes_on_to(pool, t, step) && (s.state
        != BackFillState::Failed || s.restarts(call)) && u.state != BackFillState::Failed
        && moves_to(s, call, u, done) implies moves_to(s, call, t, step) by {
        lemma_goes_on_moved(s, call, u, pool, t, step, Outcome::Handled);
    }
    assert forall|u: SyncView| #[trigger] u.goes_on_to(pool, t, step) implies t.current_start
        == u.current_start && (!u.last_batch_downloaded && t.state != BackFillState::Failed
        ==> t.to_be_downloaded == u.to_be_downloaded) by {
        lemma_goes_on_targets(u, pool, t, step);
    }
    law_of_segments(s, pool);
}

/// Where the result of a batch comes to.
proof fn lemma_moved_by_result(
    s: SyncView,
    batch_id: BatchId,
    result: BatchProcessResult,
    anchor: Option<AnchorInfo>,
    pool: Seq<PeerId>,
)
    requires
        s.inv(),
        s.is_idle(),
    ensures
        ({
            let (t, _, step) = s.on_batch_process_result(batch_id, result, anchor, pool);
            moves_to(s, Call::ProcessResult { batch_id, result, anchor }, t, step)
        }),
{
    let call = Call::ProcessResult { batch_id, result, anchor };
    let (t, _, step) = s.on_batch_process_result(batch_id, result, anchor, pool);
    let done = StepView::Done(Ok(Outcome::Handled));
    assert forall|u: SyncView| #[trigger] u.goes_on_to(pool, t, step) && (s.state
        != BackFillState::Failed || s.restarts(call)) && u.state != BackFillState::Failed
        && moves_to(s, call, u, done) implies moves_to(s, call, t, step) by {
        lemma_goes_on_moved(s, call, u, pool, t, step, Outcome::Handled);
    }
    assert forall|u: SyncView| #[trigger] u.goes_on_to(pool, t, step) implies t.current_start
        == u.current_start && (!u.last_batch_downloaded && t.state != BackFillState::Failed
        ==> t.to_be_downloaded == u.to_be_downloaded) by {
        lemma_goes_on_targets(u, pool, t, step);
    }
    if s.current_processing_batch != Some(batch_id) {
        law_of_unexpected_results(s, batch_id, result, anchor, pool);
    } else {
        match result {
            BatchProcessResult::Success { was_non_empty } => {
                law_of_success(s, batch_id, was_non_empty, anchor, pool);
            },
            BatchProcessResult::FaultyFailure { imported_blocks, penalty } => {
                law_of_failure_through_a_fault(s, batch_id, imported_blocks, penalty, anchor, pool);
            },
            BatchProcessResult::NonFaultyFailure => {
                law_of_failure_without_fault(s, batch_id, anchor, pool);
            },
        }
    }
}

/// Where every call moves the targets of the sync: see [`moves_to`].
pub proof fn law_where_every_call_moves_to(s: SyncView, call: Call, pool: Seq<PeerId>)
    requires
        s.inv(),
        s.accepts(call),
    ensures
        moves_to(s, call, s.after(call, pool).0, s.after(call, pool).1),
{
    match call {
        Call::Pause | Call::FullySyncedPeerJoined => {},
        Call::Start { anchor } => {
            lemma_moved_by_start(s, anchor, pool);
        },
        Call::PeerDisconnected { peer } => {
            lemma_moved_by_disconnection(s, peer, pool);
        },
        Call::InjectError { batch_id, peer, request_id } => {
            lemma_moved_by_error(s, batch_id, peer, request_id, pool);
        },
        Call::BlockResponse { batch_id, peer, request_id, block } => {
            lemma_moved_by_block(s, batch_id, peer, request_id, block, pool);
        },
        Call::ProcessResult { batch_id, result, anchor } => {
            lemma_moved_by_result(s, batch_id, result, anchor, pool);
        },
        Call::BatchType { batch_type } => {
            law_of_on_batch_type(s, batch_type);
        },
        Call::RequestSent { request_id } => {
            lemma_moved_by_request(s, request_id, pool);
        },
        Call::RequestFailed => {
            lemma_moved_by_failed_request(s, pool);
        },
        Call::SegmentSent => {
            lemma_moved_by_segment(s, pool);
        },
        Call::SegmentRejected => {
            lemma_moved_by_rejection(s, pool);
        },
    }
}

/// What a call comes to, if it succeeds, or is to come to if it awaits a reply: a start tells how
/// far the sync has come, or that it does not run; blocks and results tell that they were handled,
/// and whether the sync is complete; replies come to what the call was to come to; and all others
/// have nothing to tell.
pub proof fn law_what_a_call_comes_to(s: SyncView, call: Call, pool: Seq<PeerId>)
    requires
        s.inv(),
        s.accepts(call),
    ensures
        ({
            let (t, step) = s.after(call, pool);
            let outcome = if is_reply(call) {
                s.work.outcome
            } else {
                match call {
                    Call::Start { .. } => Outcome::Started(
                        if t.state == BackFillState::Syncing {
                            t.slots_done_and_left()
                        } else {
                            SyncStart::NotSyncing
                        },
                    ),
                    Call::BlockResponse { .. } => Outcome::Processed(ProcessResult::Successful),
                    Call::ProcessResult { .. } => Outcome::Processed(
                        if step == StepView::Done(
                            Ok(Outcome::Processed(ProcessResult::SyncCompleted)),
                        ) {
                            ProcessResult::SyncCompleted
                        } else {
                            ProcessResult::Successful
                        },
                    ),
                    _ => Outcome::Handled,
                }
            };
            match step {
                StepView::Done(Ok(told)) => told == outcome,
                StepView::Done(Err(_)) => true,
                _ => t.work.outcome == outcome,
            }
        }),
{
    let (t, step) = s.after(call, pool);
    if has_work(call) {
        lemma_begin_of(s, call, pool);
        lemma_begin_of_state(s, call, pool);
        lemma_settle(s.begin_of(call, pool), pool);
        if call is Start {
            law_start_tells_the_progress(s, call, pool);
            lemma_progress(t);
            law_of_start(s, pool, call->Start_anchor);
        }
        if let Call::ProcessResult { batch_id, result, anchor } = call {
            if s.current_processing_batch == Some(batch_id) {
                lemma_result_outcome(s, batch_id, result, anchor);
            }
        }
    }
}

/// The result of a batch does not change what the call is to come to.
proof fn lemma_result_outcome(
    s: SyncView,
    id: BatchId,
    result: BatchProcessResult,
    anchor: Option<AnchorInfo>,
)
    ensures
        ({
            let (u, _, flow) = s.begun(successful()).processed(id, result, anchor);
            flow is Proceed ==> u.work.outcome == successful()
        }),
{
}

} // verus!
