//! What becomes of each batch, whatever the sync is called with.
use vstd::prelude::*;

use crate::batch::{attempt_hash, Attempt, BatchStateView, BatchView, Block};
use crate::blocks::blocks_fit;
use crate::calls::{
    law_of_failure_through_a_fault, law_of_failure_without_fault, law_of_inject_error,
    law_of_on_batch_type, law_of_on_block_response, law_of_on_request_failed,
    law_of_on_request_sent, law_of_peer_disconnected, law_of_segments, law_of_start,
    law_of_success, law_of_unexpected_results,
};
use crate::laws::{law_every_call_keeps_the_invariant, Call};
use crate::model::SyncView;
use crate::steps::lemma_goes_on_keeps;
use crate::types::{
    AnchorInfo, BackFillState, BatchId, BatchProcessResult, Id, PeerId, StepView,
};

verus! {

/// Whether nothing has changed of a batch but the state it is in.
pub open spec fn differ_in_state(a: BatchView, b: BatchView) -> bool {
    &&& a.start_slot == b.start_slot
    &&& a.end_slot == b.end_slot
    &&& a.batch_type == b.batch_type
    &&& a.failed_processing_attempts == b.failed_processing_attempts
    &&& a.failed_download_attempts == b.failed_download_attempts
}

/// Whether a batch has come to await a download because one from the peer has failed.
pub open spec fn has_failed_download(a: BatchView, b: BatchView, peer: PeerId) -> bool {
    &&& b.state is AwaitingDownload
    &&& a.start_slot == b.start_slot
    &&& a.end_slot == b.end_slot
    &&& a.batch_type == b.batch_type
    &&& a.failed_processing_attempts == b.failed_processing_attempts
    &&& b.failed_download_attempts == a.failed_download_attempts.push(peer)
}

/// Whether a batch has come to await a download because this version of it was found invalid.
pub open spec fn has_failed_version(a: BatchView, b: BatchView, version: Attempt) -> bool {
    &&& b.state is AwaitingDownload
    &&& a.start_slot == b.start_slot
    &&& a.end_slot == b.end_slot
    &&& a.batch_type == b.batch_type
    &&& b.failed_processing_attempts == a.failed_processing_attempts.push(version)
    &&& a.failed_download_attempts == b.failed_download_attempts
}

/// Whether `a`, a batch of `s`, becomes `b` by the call, where `is_sent` says whether its blocks
/// are now handed to the block processor:
/// - one that awaits a download is being downloaded once its request has been sent, and has failed
///   with the peer if it could not be;
/// - one that is being downloaded takes each block that its request is answered with; once the
///   blocks end, it waits to be processed with them if they fit, and its download has failed if
///   they do not, if its request is answered with an error, or if the peer is lost;
/// - one that waits to be processed is being processed once its blocks have been handed out, as the
///   version of the peer that they came from;
/// - one that is being processed awaits validation if this succeeds, and a download if it does not;
///   if through the fault of a peer, that version has failed;
/// - one that awaits validation has failed, with that version, if one below it fails through the
///   fault of a peer;
/// - and nothing else ever happens to a batch.
pub open spec fn becomes(
    s: SyncView,
    call: Call,
    id: BatchId,
    a: BatchView,
    b: BatchView,
    is_sent: bool,
) -> bool {
    match a.state {
        BatchStateView::AwaitingDownload => match call {
            Call::RequestSent { request_id } if s.waiting is Request
                && s.waiting->Request_batch_id == id => {
                &&& differ_in_state(a, b)
                &&& b.state == BatchStateView::Downloading(
                    s.waiting->Request_peer,
                    Seq::empty(),
                    request_id,
                )
            },
            Call::RequestFailed if s.waiting is Request && s.waiting->Request_batch_id == id => {
                has_failed_download(a, b, s.waiting->Request_peer)
            },
            _ => b == a,
        },
        BatchStateView::Downloading(peer, blocks, request_id) => match call {
            Call::InjectError { batch_id, peer: p, request_id: r } if batch_id == id && p == peer
                && r == request_id => has_failed_download(a, b, peer),
            Call::BlockResponse { batch_id, peer: p, request_id: r, block } if batch_id == id && p
                == peer && r == request_id => match block {
                Some(block) => {
                    &&& differ_in_state(a, b)
                    &&& b.state == BatchStateView::Downloading(
                        peer,
                        blocks.push(block),
                        request_id,
                    )
                },
                None => if blocks_fit(a, blocks) {
                    &&& differ_in_state(a, b)
                    &&& b.state == if is_sent {
                        BatchStateView::Processing(
                            Attempt { peer_id: peer, hash: attempt_hash(blocks) },
                        )
                    } else {
                        BatchStateView::AwaitingProcessing(peer, blocks)
                    }
                } else {
                    has_failed_download(a, b, peer)
                },
            },
            Call::PeerDisconnected { peer: p } if p == peer && s.state
                != BackFillState::NotRequired => has_failed_download(a, b, peer),
            _ => b == a,
        },
        BatchStateView::AwaitingProcessing(peer, blocks) => if is_sent {
            &&& differ_in_state(a, b)
            &&& b.state == BatchStateView::Processing(
                Attempt { peer_id: peer, hash: attempt_hash(blocks) },
            )
        } else {
            b == a
        },
        BatchStateView::Processing(version) => match call {
            Call::ProcessResult { batch_id, result, .. } if batch_id == id => match result {
                BatchProcessResult::Success { .. } => {
                    &&& differ_in_state(a, b)
                    &&& b.state == BatchStateView::AwaitingValidation(version)
                },
                BatchProcessResult::FaultyFailure { .. } => has_failed_version(a, b, version),
                BatchProcessResult::NonFaultyFailure => {
                    differ_in_state(a, b) && b.state is AwaitingDownload
                },
            },
            Call::SegmentRejected => differ_in_state(a, b) && b.state is AwaitingDownload,
            _ => b == a,
        },
        BatchStateView::AwaitingValidation(version) => match call {
            Call::ProcessResult { batch_id, result, .. } if s.current_processing_batch == Some(
                batch_id,
            ) && batch_id < id && result is FaultyFailure => has_failed_version(a, b, version),
            _ => b == a,
        },
        BatchStateView::Failed => false,
    }
}

impl SyncView {
    /// Whether the call tells a result by which the batches above the one that was being processed
    /// are validated, and removed.
    pub open spec fn is_advanced_by(self, call: Call) -> bool {
        match call {
            Call::ProcessResult { batch_id, result, .. } => self.advances_by(batch_id, result),
            _ => false,
        }
    }

    /// Whether there is a batch of this id after the call, unless the sync fails: it was there, and
    /// has not been removed by being validated; or it is the new one that has been taken in.
    pub open spec fn has_after(self, call: Call, id: BatchId) -> bool {
        ||| call is BatchType && id == self.waiting->BatchType_batch_id
        ||| self.batches.contains_key(id) && !(self.is_advanced_by(call) && id
            > call->ProcessResult_batch_id)
    }
}

/// Whether what the call has come to is right for the batch.
spec fn is_right(s: SyncView, call: Call, t: SyncView, step: StepView, id: BatchId) -> bool {
    let is_sent = step is SendChainSegment && step->SendChainSegment_batch_id == id;
    &&& t.state != BackFillState::Failed ==> (t.batches.contains_key(id) <==> s.has_after(
        call,
        id,
    ))
    &&& t.state == BackFillState::Failed ==> !t.batches.contains_key(id)
    &&& s.batches.contains_key(id) && t.batches.contains_key(id) ==> becomes(
        s,
        call,
        id,
        s.batches[id],
        t.batches[id],
        is_sent,
    )
}

/// Whether `u` is right for every batch before any is handed to the block processor.
spec fn is_right_for_all(s: SyncView, call: Call, u: SyncView) -> bool {
    &&& forall|k: BatchId| #[trigger] u.batches.contains_key(k) <==> s.has_after(call, k)
    &&& forall|k: BatchId| #[trigger]
        u.batches.contains_key(k) && s.batches.contains_key(k) ==> becomes(
            s,
            call,
            k,
            s.batches[k],
            u.batches[k],
            false,
        )
}

/// A call that goes on from what is right comes to what is right.
proof fn lemma_goes_on_right(
    s: SyncView,
    call: Call,
    u: SyncView,
    pool: Seq<PeerId>,
    t: SyncView,
    step: StepView,
    id: BatchId,
)
    requires
        u.goes_on_to(pool, t, step),
        is_right_for_all(s, call, u),
        t.state == BackFillState::Failed ==> !t.batches.contains_key(id),
        s.batches.contains_key(id) ==> !(s.batches[id].state is Failed),
    ensures
        is_right(s, call, t, step, id),
{
    lemma_goes_on_keeps(u, pool, t, step, id);
}

/// What an attempt to start the sync makes of every batch.
proof fn lemma_right_after_start(
    s: SyncView,
    anchor: Option<AnchorInfo>,
    pool: Seq<PeerId>,
    id: BatchId,
)
    requires
        s.inv(),
        s.is_idle(),
    ensures
        ({
            let (t, step) = s.start(pool, anchor);
            is_right(s, Call::Start { anchor }, t, step, id)
        }),
{
    let call = Call::Start { anchor };
    let (t, step) = s.start(pool, anchor);
    law_every_call_keeps_the_invariant(s, call, pool);
    assert forall|u: SyncView| #[trigger] u.goes_on_to(pool, t, step) && is_right_for_all(
        s,
        call,
        u,
    ) implies is_right(s, call, t, step, id) by {
        lemma_goes_on_right(s, call, u, pool, t, step, id);
    }
    law_of_start(s, pool, anchor);
}

/// What the loss of a peer makes of every batch.
proof fn lemma_right_after_disconnection(
    s: SyncView,
    peer: PeerId,
    pool: Seq<PeerId>,
    id: BatchId,
)
    requires
        s.inv(),
        s.is_idle(),
    ensures
        ({
            let (t, step) = s.peer_disconnected(peer, pool);
            is_right(s, Call::PeerDisconnected { peer }, t, step, id)
        }),
{
    let call = Call::PeerDisconnected { peer };
    let (t, step) = s.peer_disconnected(peer, pool);
    law_every_call_keeps_the_invariant(s, call, pool);
    assert forall|u: SyncView| #[trigger] u.goes_on_to(pool, t, step) && is_right_for_all(
        s,
        call,
        u,
    ) implies is_right(s, call, t, step, id) by {
        lemma_goes_on_right(s, call, u, pool, t, step, id);
    }
    law_of_peer_disconnected(s, peer, pool);
}

/// What an error makes of every batch.
proof fn lemma_right_after_error(
    s: SyncView,
    batch_id: BatchId,
    peer: PeerId,
    request_id: Id,
    pool: Seq<PeerId>,
    id: BatchId,
)
    requires
        s.inv(),
        s.is_idle(),
    ensures
        ({
            let (t, step) = s.inject_error(batch_id, peer, request_id, pool);
            is_right(s, Call::InjectError { batch_id, peer, request_id }, t, step, id)
        }),
{
    let call = Call::InjectError { batch_id, peer, request_id };
    let (t, step) = s.inject_error(batch_id, peer, request_id, pool);
    law_every_call_keeps_the_invariant(s, call, pool);
    assert forall|u: SyncView| #[trigger] u.goes_on_to(pool, t, step) && is_right_for_all(
        s,
        call,
        u,
    ) implies is_right(s, call, t, step, id) by {
        lemma_goes_on_right(s, call, u, pool, t, step, id);
    }
    law_of_inject_error(s, batch_id, peer, request_id, pool);
}

/// What a block, or the end of the blocks, makes of every batch.
proof fn lemma_right_after_block(
    s: SyncView,
    batch_id: BatchId,
    peer: PeerId,
    request_id: Id,
    block: Option<Block>,
    pool: Seq<PeerId>,
    id: BatchId,
)
    requires
        s.inv(),
        s.is_idle(),
    ensures
        ({
            let (t, step) = s.on_block_response(batch_id, peer, request_id, block, pool);
            is_right(s, Call::BlockResponse { batch_id, peer, request_id, block }, t, step, id)
        }),
{
    let call = Call::BlockResponse { batch_id, peer, request_id, block };
    let (t, step) = s.on_block_response(batch_id, peer, request_id, block, pool);
    law_every_call_keeps_the_invariant(s, call, pool);
    assert forall|u: SyncView| #[trigger] u.goes_on_to(pool, t, step) && is_right_for_all(
        s,
        call,
        u,
    ) implies is_right(s, call, t, step, id) by {
        lemma_goes_on_right(s, call, u, pool, t, step, id);
    }
    law_of_on_block_response(s, batch_id, peer, request_id, block, pool);
}

/// What a request makes of every batch.
proof fn lemma_right_after_request(
    s: SyncView,
    request_id: Id,
    pool: Seq<PeerId>,
    id: BatchId,
)
    requires
        s.inv(),
        s.waiting is Request,
    ensures
        ({
            let (t, step) = s.on_request_sent(request_id, pool);
            is_right(s, Call::RequestSent { request_id }, t, step, id)
        }),
{
    let call = Call::RequestSent { request_id };
    let (t, step) = s.on_request_sent(request_id, pool);
    law_every_call_keeps_the_invariant(s, call, pool);
    assert forall|u: SyncView| #[trigger] u.goes_on_to(pool, t, step) && is_right_for_all(
        s,
        call,
        u,
    ) implies is_right(s, call, t, step, id) by {
        lemma_goes_on_right(s, call, u, pool, t, step, id);
    }
    law_of_on_request_sent(s, request_id, pool);
}

/// What a failed request makes of every batch.
proof fn lemma_right_after_failed_request(
    s: SyncView,
    pool: Seq<PeerId>,
    id: BatchId,
)
    requires
        s.inv(),
        s.waiting is Request,
    ensures
        ({
            let (t, step) = s.on_request_failed(pool);
            is_right(s, Call::RequestFailed, t, step, id)
        }),
{
    let call = Call::RequestFailed;
    let (t, step) = s.on_request_failed(pool);
    law_every_call_keeps_the_invariant(s, call, pool);
    assert forall|u: SyncView| #[trigger] u.goes_on_to(pool, t, step) && is_right_for_all(
        s,
        call,
        u,
    ) implies is_right(s, call, t, step, id) by {
        lemma_goes_on_right(s, call, u, pool, t, step, id);
    }
    law_of_on_request_failed(s, pool);
}

/// What blocks that were not taken make of every batch.
proof fn lemma_right_after_rejection(
    s: SyncView,
    pool: Seq<PeerId>,
    id: BatchId,
)
    requires
        s.inv(),
        s.waiting is Segment,
    ensures
        ({
            let (t, step) = s.on_segment_rejected(pool);
            is_right(s, Call::SegmentRejected, t, step, id)
        }),
{
    let call = Call::SegmentRejected;
    let (t, step) = s.on_segment_rejected(pool);
    law_every_call_keeps_the_invariant(s, call, pool);
    assert forall|u: SyncView| #[trigger] u.goes_on_to(pool, t, step) && is_right_for_all(
        s,
        call,
        u,
    ) implies is_right(s, call, t, step, id) by {
        lemma_goes_on_right(s, call, u, pool, t, step, id);
    }
    law_of_segments(s, pool);
}

/// What a success makes of every batch.
proof fn lemma_right_after_success(
    s: SyncView,
    batch_id: BatchId,
    was_non_empty: bool,
    anchor: Option<AnchorInfo>,
    pool: Seq<PeerId>,
    id: BatchId,
)
    requires
        s.inv(),
        s.is_idle(),
        s.current_processing_batch == Some(batch_id),
    ensures
        ({
            let result = BatchProcessResult::Success { was_non_empty };
            let (t, _, step) = s.on_batch_process_result(batch_id, result, anchor, pool);
            is_right(s, Call::ProcessResult { batch_id, result, anchor }, t, step, id)
        }),
{
    let result = BatchProcessResult::Success { was_non_empty };
    let call = Call::ProcessResult { batch_id, result, anchor };
    let (t, _, step) = s.on_batch_process_result(batch_id, result, anchor, pool);
    law_every_call_keeps_the_invariant(s, call, pool);
    assert forall|u: SyncView| #[trigger] u.goes_on_to(pool, t, step) && is_right_for_all(
        s,
        call,
        u,
    ) implies is_right(s, call, t, step, id) by {
        lemma_goes_on_right(s, call, u, pool, t, step, id);
    }
    law_of_success(s, batch_id, was_non_empty, anchor, pool);
}

/// What a failure makes of every batch.
proof fn lemma_right_after_failure(
    s: SyncView,
    batch_id: BatchId,
    result: BatchProcessResult,
    anchor: Option<AnchorInfo>,
    pool: Seq<PeerId>,
    id: BatchId,
)
    requires
        s.inv(),
        s.is_idle(),
        s.current_processing_batch == Some(batch_id),
        !(result is Success),
    ensures
        ({
            let (t, _, step) = s.on_batch_process_result(batch_id, result, anchor, pool);
            is_right(s, Call::ProcessResult { batch_id, result, anchor }, t, step, id)
        }),
{
    let call = Call::ProcessResult { batch_id, result, anchor };
    let (t, _, step) = s.on_batch_process_result(batch_id, result, anchor, pool);
    law_every_call_keeps_the_invariant(s, call, pool);
    assert forall|u: SyncView| #[trigger] u.goes_on_to(pool, t, step) && is_right_for_all(
        s,
        call,
        u,
    ) implies is_right(s, call, t, step, id) by {
        lemma_goes_on_right(s, call, u, pool, t, step, id);
    }
    if let BatchProcessResult::FaultyFailure { imported_blocks, penalty } = result {
        law_of_failure_through_a_fault(s, batch_id, imported_blocks, penalty, anchor, pool);
        let above = s.above(batch_id);
        let is_bad = |k: BatchId|
            above.contains(k) && (!(s.batches[k].state is AwaitingValidation)
                || s.batches[k].failed_processing_attempts.len() + 1 >= 10);
        assert forall|k: BatchId| #[trigger]
            s.batches.contains_key(k) && k > batch_id && !(imported_blocks && batch_id
                < s.current_start) && t.state != BackFillState::Failed implies s.batches[k].state
            is AwaitingValidation by {
            assert(!is_bad(k));
            assert(above.contains(k));
        }
    } else {
        law_of_failure_without_fault(s, batch_id, anchor, pool);
    }
}

/// What a call makes of a batch, told by the batch before and after it, and what happened:
/// see [`becomes`].
///
/// After the call there are the same batches as before, but for a new one that has been taken in,
/// and for those that have been validated. If the sync fails, there are none.
pub proof fn law_what_becomes_of_a_batch(s: SyncView, call: Call, pool: Seq<PeerId>, id: BatchId)
    requires
        s.inv(),
        s.accepts(call),
    ensures
        ({
            let (t, step) = s.after(call, pool);
            let is_sent = step is SendChainSegment && step->SendChainSegment_batch_id == id;
            &&& t.batches.contains_key(id) <==> t.state != BackFillState::Failed && s.has_after(
                call,
                id,
            )
            &&& s.batches.contains_key(id) && t.batches.contains_key(id) ==> becomes(
                s,
                call,
                id,
                s.batches[id],
                t.batches[id],
                is_sent,
            )
        }),
{
    law_every_call_keeps_the_invariant(s, call, pool);
    match call {
        Call::Pause | Call::FullySyncedPeerJoined => {},
        Call::Start { anchor } => {
            lemma_right_after_start(s, anchor, pool, id);
        },
        Call::PeerDisconnected { peer } => {
            lemma_right_after_disconnection(s, peer, pool, id);
        },
        Call::InjectError { batch_id, peer, request_id } => {
            lemma_right_after_error(s, batch_id, peer, request_id, pool, id);
        },
        Call::BlockResponse { batch_id, peer, request_id, block } => {
            lemma_right_after_block(s, batch_id, peer, request_id, block, pool, id);
        },
        Call::ProcessResult { batch_id, result, anchor } => {
            if s.current_processing_batch != Some(batch_id) {
                law_of_unexpected_results(s, batch_id, result, anchor, pool);
            } else if let BatchProcessResult::Success { was_non_empty } = result {
                lemma_right_after_success(s, batch_id, was_non_empty, anchor, pool, id);
            } else {
                lemma_right_after_failure(s, batch_id, result, anchor, pool, id);
            }
        },
        Call::BatchType { batch_type } => {
            law_of_on_batch_type(s, batch_type);
        },
        Call::RequestSent { request_id } => {
            lemma_right_after_request(s, request_id, pool, id);
        },
        Call::RequestFailed => {
            lemma_right_after_failed_request(s, pool, id);
        },
        Call::SegmentSent => {
            law_of_segments(s, pool);
        },
        Call::SegmentRejected => {
            lemma_right_after_rejection(s, pool, id);
        },
    }
}

} // verus!
