//! That batches keep to the slots of their epochs: what is asked for, and what is processed.
use vstd::prelude::*;

use crate::batch::{BatchStateView, BatchView, Block};
use crate::blocks::{blocks_fit, slots_ascend};
use crate::calls::{
    law_of_failure_through_a_fault, law_of_failure_without_fault, law_of_inject_error,
    law_of_on_batch_type, law_of_on_block_response, law_of_on_request_failed,
    law_of_on_request_sent, law_of_peer_disconnected, law_of_segments, law_of_start,
    law_of_success, law_of_unexpected_results,
};
use crate::laws::{law_every_call_keeps_the_invariant, law_progress_is_never_lost, Call};
use crate::model::SyncView;
use crate::steps::{lemma_goes_on_keeps, slots_of};
use crate::types::{
    AnchorInfo, BackFillState, BatchId, BatchProcessResult, ErrorView, Id, PeerId, Slot, StepView,
};

verus! {

/// Whether two batches ask for the same: for the same slots, and for blocks with or without what
/// belongs to them.
pub open spec fn ask_for_the_same(a: BatchView, b: BatchView) -> bool {
    &&& a.start_slot == b.start_slot
    &&& a.end_slot == b.end_slot
    &&& a.batch_type == b.batch_type
}

/// Whether a batch that has become another one can have got there by one call: it asks for the
/// same, and if it now waits to be processed, it did so before with the same blocks, or its
/// download has ended with these blocks, which fit.
pub open spec fn is_kept(a: BatchView, b: BatchView) -> bool {
    &&& ask_for_the_same(a, b)
    &&& b.state matches BatchStateView::AwaitingProcessing(peer, blocks) ==> {
        ||| a.state == b.state
        ||| {
            &&& a.state is Downloading
            &&& a.state->Downloading_0 == peer
            &&& a.state->Downloading_1 == blocks
            &&& blocks_fit(a, blocks)
        }
    }
}

impl SyncView {
    /// Whether every batch is that of the slots of its epoch, as far as there are such numbers.
    pub open spec fn covers_epochs(self) -> bool {
        forall|id: BatchId| #[trigger]
            self.batches.contains_key(id) ==> {
                let start = id * self.slots_per_epoch;
                let end = start + self.slots_per_epoch;
                let batch = self.batches[id];
                &&& batch.start_slot == if start <= u64::MAX { start } else { u64::MAX as int }
                &&& batch.end_slot == if end <= u64::MAX { end } else { u64::MAX as int }
            }
    }

    /// Whether the blocks of every batch that waits to be processed fit it.
    pub open spec fn holds_fitting_blocks(self) -> bool {
        forall|id: BatchId| #[trigger]
            self.batches.contains_key(id) ==> (
            self.batches[id].state matches BatchStateView::AwaitingProcessing(_, blocks)
                ==> blocks_fit(self.batches[id], blocks))
    }
}

/// Whether the step hands out only blocks that waited to be processed in `s`, or that have been
/// downloaded since and fit.
spec fn hands_out(s: SyncView, step: StepView) -> bool {
    step matches StepView::SendChainSegment { batch_id, blocks } ==> {
        &&& s.batches.contains_key(batch_id)
        &&& {
            ||| s.batches[batch_id].state is AwaitingProcessing
                && s.batches[batch_id].state->AwaitingProcessing_1 == blocks
            ||| {
                &&& s.batches[batch_id].state is Downloading
                &&& s.batches[batch_id].state->Downloading_1 == blocks
                &&& blocks_fit(s.batches[batch_id], blocks)
            }
        }
    }
}

/// Whether a call that was in `s`, and has come to `t` and this step, has kept the batch.
spec fn has_kept(s: SyncView, t: SyncView, step: StepView, id: BatchId) -> bool {
    &&& t.batches.contains_key(id) ==> s.batches.contains_key(id) && is_kept(
        s.batches[id],
        t.batches[id],
    )
    &&& hands_out(s, step)
}

/// A call that goes on from where the batch, and the one whose blocks are handed out, was kept
/// keeps it.
proof fn lemma_goes_on_from_kept(
    s: SyncView,
    u: SyncView,
    pool: Seq<PeerId>,
    t: SyncView,
    step: StepView,
    id: BatchId,
)
    requires
        u.goes_on_to(pool, t, step),
        forall|k: BatchId| #[trigger]
            u.batches.contains_key(k) ==> s.batches.contains_key(k) && is_kept(
                s.batches[k],
                u.batches[k],
            ),
    ensures
        has_kept(s, t, step, id),
{
    lemma_goes_on_keeps(u, pool, t, step, id);
    if let StepView::SendChainSegment { batch_id, blocks } = step {
        assert(is_kept(s.batches[batch_id], u.batches[batch_id]));
    }
}

/// What every call keeps of a batch.
proof fn lemma_kept(s: SyncView, call: Call, pool: Seq<PeerId>, id: BatchId)
    requires
        s.inv(),
        s.accepts(call),
        !(call is BatchType && id == s.waiting->BatchType_batch_id),
    ensures
        ({
            let (t, step) = s.after(call, pool);
            has_kept(s, t, step, id)
        }),
{
    match call {
        Call::Pause | Call::FullySyncedPeerJoined => {},
        Call::Start { anchor } => {
            lemma_kept_by_start(s, anchor, pool, id);
        },
        Call::PeerDisconnected { peer } => {
            lemma_kept_by_disconnection(s, peer, pool, id);
        },
        Call::InjectError { batch_id, peer, request_id } => {
            lemma_kept_by_error(s, batch_id, peer, request_id, pool, id);
        },
        Call::BlockResponse { batch_id, peer, request_id, block } => {
            lemma_kept_by_block(s, batch_id, peer, request_id, block, pool, id);
        },
        Call::ProcessResult { batch_id, result, anchor } => {
            lemma_kept_by_result(s, batch_id, result, anchor, pool, id);
        },
        Call::BatchType { batch_type } => {
            law_of_on_batch_type(s, batch_type);
        },
        Call::RequestSent { request_id } => {
            lemma_kept_by_request(s, request_id, pool, id);
        },
        Call::RequestFailed => {
            lemma_kept_by_failed_request(s, pool, id);
        },
        Call::SegmentSent => {
            law_of_segments(s, pool);
        },
        Call::SegmentRejected => {
            lemma_kept_by_rejection(s, pool, id);
        },
    }
}

/// What an attempt to start the sync keeps of every batch.
proof fn lemma_kept_by_start(
    s: SyncView,
    anchor: Option<AnchorInfo>,
    pool: Seq<PeerId>,
    id: BatchId,
)
    requires
        s.inv(),
        s.is_idle(),
    ensures
        ({
            let (t, step) = s.start(pool, anchor);
            has_kept(s, t, step, id)
        }),
{
    let (t, step) = s.start(pool, anchor);
    assert forall|u: SyncView| #[trigger] u.goes_on_to(pool, t, step) && (forall|k: BatchId|
     #[trigger]
        u.batches.contains_key(k) ==> s.batches.contains_key(k) && is_kept(
            s.batches[k],
            u.batches[k],
        )) implies has_kept(s, t, step, id) by {
        lemma_goes_on_from_kept(s, u, pool, t, step, id);
    }
    law_of_start(s, pool, anchor);
}

/// What the loss of a peer keeps of every batch.
proof fn lemma_kept_by_disconnection(s: SyncView, peer: PeerId, pool: Seq<PeerId>, id: BatchId)
    requires
        s.inv(),
        s.is_idle(),
    ensures
        ({
            let (t, step) = s.peer_disconnected(peer, pool);
            has_kept(s, t, step, id)
        }),
{
    let (t, step) = s.peer_disconnected(peer, pool);
    assert forall|u: SyncView| #[trigger] u.goes_on_to(pool, t, step) && (forall|k: BatchId|
     #[trigger]
        u.batches.contains_key(k) ==> s.batches.contains_key(k) && is_kept(
            s.batches[k],
            u.batches[k],
        )) implies has_kept(s, t, step, id) by {
        lemma_goes_on_from_kept(s, u, pool, t, step, id);
    }
    law_of_peer_disconnected(s, peer, pool);
}

/// What an error keeps of every batch.
proof fn lemma_kept_by_error(
    s: SyncView,
    batch_id: BatchId,
    peer: PeerId,
    request_id: Id,
    pool: Seq<PeerId>,
    id: BatchId,
)
    requires
        s.inv(),
        s.is_idle(),
    ensures
        ({
            let (t, step) = s.inject_error(batch_id, peer, request_id, pool);
            has_kept(s, t, step, id)
        }),
{
    let (t, step) = s.inject_error(batch_id, peer, request_id, pool);
    assert forall|u: SyncView| #[trigger] u.goes_on_to(pool, t, step) && (forall|k: BatchId|
     #[trigger]
        u.batches.contains_key(k) ==> s.batches.contains_key(k) && is_kept(
            s.batches[k],
            u.batches[k],
        )) implies has_kept(s, t, step, id) by {
        lemma_goes_on_from_kept(s, u, pool, t, step, id);
    }
    law_of_inject_error(s, batch_id, peer, request_id, pool);
}

/// What a block, or the end of the blocks, keeps of every batch.
proof fn lemma_kept_by_block(
    s: SyncView,
    batch_id: BatchId,
    peer: PeerId,
    request_id: Id,
    block: Option<Block>,
    pool: Seq<PeerId>,
    id: BatchId,
)
    requires
        s.inv(),
        s.is_idle(),
    ensures
        ({
            let (t, step) = s.on_block_response(batch_id, peer, request_id, block, pool);
            has_kept(s, t, step, id)
        }),
{
    let (t, step) = s.on_block_response(batch_id, peer, request_id, block, pool);
    assert forall|u: SyncView| #[trigger] u.goes_on_to(pool, t, step) && (forall|k: BatchId|
     #[trigger]
        u.batches.contains_key(k) ==> s.batches.contains_key(k) && is_kept(
            s.batches[k],
            u.batches[k],
        )) implies has_kept(s, t, step, id) by {
        lemma_goes_on_from_kept(s, u, pool, t, step, id);
    }
    law_of_on_block_response(s, batch_id, peer, request_id, block, pool);
}

/// What a request keeps of every batch.
proof fn lemma_kept_by_request(s: SyncView, request_id: Id, pool: Seq<PeerId>, id: BatchId)
    requires
        s.inv(),
        s.waiting is Request,
    ensures
        ({
            let (t, step) = s.on_request_sent(request_id, pool);
            has_kept(s, t, step, id)
        }),
{
    let (t, step) = s.on_request_sent(request_id, pool);
    assert forall|u: SyncView| #[trigger] u.goes_on_to(pool, t, step) && (forall|k: BatchId|
     #[trigger]
        u.batches.contains_key(k) ==> s.batches.contains_key(k) && is_kept(
            s.batches[k],
            u.batches[k],
        )) implies has_kept(s, t, step, id) by {
        lemma_goes_on_from_kept(s, u, pool, t, step, id);
    }
    law_of_on_request_sent(s, request_id, pool);
}

/// What a failed request keeps of every batch.
proof fn lemma_kept_by_failed_request(s: SyncView, pool: Seq<PeerId>, id: BatchId)
    requires
        s.inv(),
        s.waiting is Request,
    ensures
        ({
            let (t, step) = s.on_request_failed(pool);
            has_kept(s, t, step, id)
        }),
{
    let (t, step) = s.on_request_failed(pool);
    assert forall|u: SyncView| #[trigger] u.goes_on_to(pool, t, step) && (forall|k: BatchId|
     #[trigger]
        u.batches.contains_key(k) ==> s.batches.contains_key(k) && is_kept(
            s.batches[k],
            u.batches[k],
        )) implies has_kept(s, t, step, id) by {
        lemma_goes_on_from_kept(s, u, pool, t, step, id);
    }
    law_of_on_request_failed(s, pool);
}

/// What blocks that were not taken keep of every batch.
proof fn lemma_kept_by_rejection(s: SyncView, pool: Seq<PeerId>, id: BatchId)
    requires
        s.inv(),
        s.waiting is Segment,
    ensures
        ({
            let (t, step) = s.on_segment_rejected(pool);
            has_kept(s, t, step, id)
        }),
{
    let (t, step) = s.on_segment_rejected(pool);
    assert forall|u: SyncView| #[trigger] u.goes_on_to(pool, t, step) && (forall|k: BatchId|
     #[trigger]
        u.batches.contains_key(k) ==> s.batches.contains_key(k) && is_kept(
            s.batches[k],
            u.batches[k],
        )) implies has_kept(s, t, step, id) by {
        lemma_goes_on_from_kept(s, u, pool, t, step, id);
    }
    law_of_segments(s, pool);
}

/// What the result of a batch keeps of every batch.
#[verifier::spinoff_prover]
proof fn lemma_kept_by_result(
    s: SyncView,
    batch_id: BatchId,
    result: BatchProcessResult,
    anchor: Option<AnchorInfo>,
    pool: Seq<PeerId>,
    id: BatchId,
)
    requires
        s.inv(),
        s.is_idle(),
    ensures
        ({
            let (t, _, step) = s.on_batch_process_result(batch_id, result, anchor, pool);
            has_kept(s, t, step, id)
        }),
{
    let (t, _, step) = s.on_batch_process_result(batch_id, result, anchor, pool);
    assert forall|u: SyncView| #[trigger] u.goes_on_to(pool, t, step) && (forall|k: BatchId|
     #[trigger]
        u.batches.contains_key(k) ==> s.batches.contains_key(k) && is_kept(
            s.batches[k],
            u.batches[k],
        )) implies has_kept(s, t, step, id) by {
        lemma_goes_on_from_kept(s, u, pool, t, step, id);
    }
    if s.current_processing_batch != Some(batch_id) {
        law_of_unexpected_results(s, batch_id, result, anchor, pool);
    } else {
        assert(s.batches.contains_key(batch_id));
        match result {
            BatchProcessResult::Success { was_non_empty } => {
                law_of_success(s, batch_id, was_non_empty, anchor, pool);
            },
            BatchProcessResult::FaultyFailure { imported_blocks, penalty } => {
                law_of_failure_through_a_fault(
                    s,
                    batch_id,
                    imported_blocks,
                    penalty,
                    anchor,
                    pool,
                );
            },
            BatchProcessResult::NonFaultyFailure => {
                law_of_failure_without_fault(s, batch_id, anchor, pool);
            },
        }
    }
}

/// No call changes the slots of a batch that is there before and after it, nor whether it asks for
/// blocks with or without what belongs to them.
pub proof fn law_a_batch_asks_for_the_same_ever_after(
    s: SyncView,
    call: Call,
    pool: Seq<PeerId>,
    id: BatchId,
)
    requires
        s.inv(),
        s.accepts(call),
        s.batches.contains_key(id),
        s.after(call, pool).0.batches.contains_key(id),
    ensures
        s.after(call, pool).0.batches[id].start_slot == s.batches[id].start_slot,
        s.after(call, pool).0.batches[id].end_slot == s.batches[id].end_slot,
        s.after(call, pool).0.batches[id].batch_type == s.batches[id].batch_type,
{
    lemma_kept(s, call, pool, id);
}

/// A new sync has no batches that could be out of place, and every call keeps all batches to the
/// slots of their epochs, and blocks that wait to be processed within their batches.
pub proof fn law_batches_keep_to_their_epochs(
    s: SyncView,
    call: Call,
    pool: Seq<PeerId>,
    anchor: Option<AnchorInfo>,
    genesis_backfill_slot: Slot,
    slots_per_epoch: u64,
)
    requires
        s.inv(),
        s.accepts(call),
        slots_per_epoch > 0,
    ensures
        SyncView::initial(anchor, genesis_backfill_slot, slots_per_epoch).covers_epochs(),
        SyncView::initial(anchor, genesis_backfill_slot, slots_per_epoch).holds_fitting_blocks(),
        s.covers_epochs() ==> s.after(call, pool).0.covers_epochs(),
        s.holds_fitting_blocks() ==> s.after(call, pool).0.holds_fitting_blocks(),
{
    let t = s.after(call, pool).0;
    law_progress_is_never_lost(s, call, pool);
    assert forall|id: BatchId| #[trigger] t.batches.contains_key(id) implies {
        ||| call is BatchType && id == s.waiting->BatchType_batch_id
        ||| s.batches.contains_key(id) && is_kept(s.batches[id], t.batches[id])
    } by {
        if !(call is BatchType && id == s.waiting->BatchType_batch_id) {
            lemma_kept(s, call, pool, id);
        }
    }
    if let Call::BatchType { batch_type } = call {
        law_of_on_batch_type(s, batch_type);
    }
}

/// Every request for a batch, the first as well as any other, asks for the slots of its epoch, all
/// of them, and for the type that the batch was taken in with.
pub proof fn law_requests_ask_for_the_epoch(s: SyncView, call: Call, pool: Seq<PeerId>)
    requires
        s.inv(),
        s.accepts(call),
        s.covers_epochs(),
    ensures
        ({
            let (t, step) = s.after(call, pool);
            step matches StepView::RequestBlocks { batch_id, request, batch_type, .. } ==> {
                &&& (batch_id + 1) * s.slots_per_epoch <= u64::MAX ==> {
                    &&& request.start_slot == batch_id * s.slots_per_epoch
                    &&& request.count == s.slots_per_epoch
                }
                &&& t.batches.contains_key(batch_id)
                &&& request == slots_of(t.batches[batch_id])
                &&& batch_type == t.batches[batch_id].batch_type
                &&& match call {
                    Call::BatchType { batch_type: given } => {
                        &&& batch_type == given
                        &&& batch_id == s.waiting->BatchType_batch_id
                    },
                    _ => {
                        &&& s.batches.contains_key(batch_id)
                        &&& request == slots_of(s.batches[batch_id])
                        &&& batch_type == s.batches[batch_id].batch_type
                    },
                }
            }
        }),
{
    let (t, step) = s.after(call, pool);
    law_every_call_keeps_the_invariant(s, call, pool);
    law_batches_keep_to_their_epochs(s, call, pool, None, 0, 1);
    law_progress_is_never_lost(s, call, pool);
    if let StepView::RequestBlocks { batch_id, request, batch_type, .. } = step {
        assert(t.batches.contains_key(batch_id));
        assert((batch_id + 1) * s.slots_per_epoch == batch_id * s.slots_per_epoch
            + s.slots_per_epoch) by (nonlinear_arith);
        assert(batch_id * s.slots_per_epoch >= 0) by (nonlinear_arith);
        if let Call::BatchType { batch_type: given } = call {
            law_of_on_batch_type(s, given);
        } else {
            lemma_kept(s, call, pool, batch_id);
        }
    }
}

/// Blocks that are handed to the block processor are those that the peer sent for the batch, and
/// lie within it: the first does not lie before the epoch, nor the last one behind it; so, if their
/// slots ascend, none does.
pub proof fn law_processed_blocks_lie_within_the_epoch(s: SyncView, call: Call, pool: Seq<PeerId>)
    requires
        s.inv(),
        s.accepts(call),
        s.covers_epochs(),
        s.holds_fitting_blocks(),
    ensures
        ({
            let (t, step) = s.after(call, pool);
            step matches StepView::SendChainSegment { batch_id, blocks } ==> {
                &&& s.batches.contains_key(batch_id)
                &&& blocks_fit(s.batches[batch_id], blocks)
                &&& {
                    ||| s.batches[batch_id].state is AwaitingProcessing
                        && s.batches[batch_id].state->AwaitingProcessing_1 == blocks
                    ||| s.batches[batch_id].state is Downloading
                        && s.batches[batch_id].state->Downloading_1 == blocks
                }
                &&& slots_ascend(blocks) && (batch_id + 1) * s.slots_per_epoch <= u64::MAX
                    ==> forall|i: int|
                    0 <= i < blocks.len() ==> batch_id * s.slots_per_epoch <= (
                    #[trigger] blocks[i]).slot <= (batch_id + 1) * s.slots_per_epoch
            }
        }),
{
    let (t, step) = s.after(call, pool);
    if let StepView::SendChainSegment { batch_id, blocks } = step {
        law_every_call_keeps_the_invariant(s, call, pool);
        lemma_kept(s, call, pool, batch_id);
        assert((batch_id + 1) * s.slots_per_epoch == batch_id * s.slots_per_epoch
            + s.slots_per_epoch) by (nonlinear_arith);
        assert(batch_id * s.slots_per_epoch >= 0) by (nonlinear_arith);
        if slots_ascend(blocks) && (batch_id + 1) * s.slots_per_epoch <= u64::MAX {
            assert forall|i: int| 0 <= i < blocks.len() implies batch_id * s.slots_per_epoch <= (
            #[trigger] blocks[i]).slot <= (batch_id + 1) * s.slots_per_epoch by {
                if i > 0 {
                    assert(blocks[0].slot < blocks[i].slot);
                }
                if i < blocks.len() - 1 {
                    assert(blocks[i].slot < blocks[blocks.len() - 1].slot);
                }
            }
        }
    }
}

/// If the slots of the blocks ascend that have come for a batch when they end, and one of them lies
/// before the batch or behind it, wherever it stands among them, the download has failed: no blocks
/// of the batch are processed, and it is requested again, or the sync fails. If none does, just
/// these blocks are processed or wait for it, unless the batch to be processed next is not there
/// and the sync fails.
pub proof fn law_one_block_beyond_the_batch_fails_its_download(
    s: SyncView,
    id: BatchId,
    peer: PeerId,
    request_id: Id,
    pool: Seq<PeerId>,
)
    requires
        s.inv(),
        s.is_idle(),
        s.expects(id, peer, request_id),
        slots_ascend(s.batches[id].state->Downloading_1),
    ensures
        ({
            let (t, step) = s.on_block_response(id, peer, request_id, None, pool);
            let batch = s.batches[id];
            let blocks = batch.state->Downloading_1;
            if exists|i: int|
                0 <= i < blocks.len() && !(batch.start_slot <= (#[trigger] blocks[i]).slot
                    <= batch.end_slot) {
                ||| {
                    &&& batch.failed_download_attempts.len() + 1 >= 10
                    &&& t.state == BackFillState::Failed
                    &&& step == StepView::Done(Err(ErrorView::BatchDownloadFailed(id)))
                }
                ||| {
                    &&& t.batches.contains_key(id)
                    &&& t.batches[id].state is AwaitingDownload
                    &&& t.batches[id].failed_download_attempts
                        == batch.failed_download_attempts.push(peer)
                    &&& if pool.len() == 0 {
                        step == StepView::Done(Err(ErrorView::Paused))
                    } else {
                        step is RequestBlocks && step->RequestBlocks_batch_id == id
                    }
                }
            } else {
                ||| step == (StepView::SendChainSegment { batch_id: id, blocks })
                ||| t.batches.contains_key(id) && t.batches[id].state
                    == BatchStateView::AwaitingProcessing(peer, blocks)
                ||| t.state == BackFillState::Failed && !s.batches.contains_key(s.processing_target)
            }
        }),
{
    reveal(SyncView::goes_on_to);
    let (t, step) = s.on_block_response(id, peer, request_id, None, pool);
    let batch = s.batches[id];
    let blocks = batch.state->Downloading_1;
    law_of_on_block_response(s, id, peer, request_id, None, pool);
    if exists|i: int|
        0 <= i < blocks.len() && !(batch.start_slot <= (#[trigger] blocks[i]).slot
            <= batch.end_slot) {
        let i = choose|i: int|
            0 <= i < blocks.len() && !(batch.start_slot <= (#[trigger] blocks[i]).slot
                <= batch.end_slot);
        if i > 0 {
            assert(blocks[0].slot < blocks[i].slot);
        }
        if i < blocks.len() - 1 {
            assert(blocks[i].slot < blocks[blocks.len() - 1].slot);
        }
        assert(!blocks_fit(batch, blocks));
        assert(seq![id][0] == id);
    } else {
        if blocks.len() > 0 {
            assert(batch.start_slot <= blocks[0].slot <= batch.end_slot);
            assert(batch.start_slot <= blocks[blocks.len() - 1].slot <= batch.end_slot);
        }
        assert(blocks_fit(batch, blocks));
    }
}

} // verus!
