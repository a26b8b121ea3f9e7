//! What holds of the sync as a whole, whatever it is called with.
use vstd::prelude::*;

use crate::always::{
    is_failure, lemma_advance_chain, lemma_batch_processed, lemma_begun, lemma_block_received,
    lemma_download_failed, lemma_error_injected, lemma_last_turn, lemma_nothing_skipped,
    lemma_on_batch_type, lemma_peer_left, lemma_replace_processed, lemma_request_sent,
    lemma_settle, lemma_started, lemma_turn, lemma_with_each_dom, turned, turns,
};
use crate::batch::{
    attempt_hash, Attempt, BatchProcessingResult, BatchStateView, BatchView, Block,
    MAX_BATCH_DOWNLOAD_ATTEMPTS, MAX_BATCH_PROCESSING_ATTEMPTS,
};
use crate::batches::{buffered, ids_of};
use crate::gapless::{
    lemma_batch_processed_gapless, lemma_block_received_gapless, lemma_download_failed_gapless,
    lemma_error_injected_gapless, lemma_no_robust_target, lemma_on_batch_type_gapless,
    lemma_peer_left_gapless, lemma_request_sent_gapless, lemma_settle_gapless,
    lemma_started_gapless,
};
use crate::model::{
    all_penalties, failure_reports, lemma_ids_above, lemma_ids_of, lemma_next_batch,
    missing_batch, penalties, penalty, raised, successful, with_each, Flow, SyncView, Waiting,
    WorkView, BACKFILL_BATCH_BUFFER_SIZE,
};
use crate::order::{
    ascending, lemma_ascending_of_finite, lemma_filter_ascending, lemma_first_not_none,
};
use crate::peers::{best_peer, idle_peers, is_best, is_preferred, lemma_best_is_unique};
use crate::requests::{is_requested, load, unregistered};
use crate::types::{
    AnchorInfo, BackFillState, BatchId, BatchProcessResult, BatchType, Epoch, ErrorView, Id,
    Outcome, PeerAction, PeerId, PeerReport, ProcessResult, ReportReason, StepView, SyncStart,
    BACKFILL_EPOCHS_PER_BATCH,
};

verus! {

/// A call of a public function of [`BackFillSync`](crate::backfill::BackFillSync).
pub ghost enum Call {
    Pause,
    Start { anchor: Option<AnchorInfo> },
    FullySyncedPeerJoined,
    PeerDisconnected { peer: PeerId },
    InjectError { batch_id: BatchId, peer: PeerId, request_id: Id },
    BlockResponse { batch_id: BatchId, peer: PeerId, request_id: Id, block: Option<Block> },
    ProcessResult { batch_id: BatchId, result: BatchProcessResult, anchor: Option<AnchorInfo> },
    BatchType { batch_type: BatchType },
    RequestSent { request_id: Id },
    RequestFailed,
    SegmentSent,
    SegmentRejected,
}

impl SyncView {
    /// Whether the sync can be called like this: replies are taken when they are awaited, all else
    /// when nothing is.
    pub open spec fn accepts(self, call: Call) -> bool {
        match call {
            Call::BatchType { .. } => self.waiting is BatchType,
            Call::RequestSent { .. } | Call::RequestFailed => self.waiting is Request,
            Call::SegmentSent | Call::SegmentRejected => self.waiting is Segment,
            _ => self.is_idle(),
        }
    }

    /// What a call does, and the step that it comes to.
    pub open spec fn after(self, call: Call, pool: Seq<PeerId>) -> (SyncView, StepView) {
        let handled = StepView::Done(Ok(Outcome::Handled));
        match call {
            Call::Pause => (self.pause(), handled),
            Call::Start { anchor } => self.start(pool, anchor),
            Call::FullySyncedPeerJoined => (self.fully_synced_peer_joined(), handled),
            Call::PeerDisconnected { peer } => self.peer_disconnected(peer, pool),
            Call::InjectError { batch_id, peer, request_id } => self.inject_error(
                batch_id,
                peer,
                request_id,
                pool,
            ),
            Call::BlockResponse { batch_id, peer, request_id, block } => self.on_block_response(
                batch_id,
                peer,
                request_id,
                block,
                pool,
            ),
            Call::ProcessResult { batch_id, result, anchor } => {
                let (next, _, step) = self.on_batch_process_result(batch_id, result, anchor, pool);
                (next, step)
            },
            Call::BatchType { batch_type } => self.on_batch_type(batch_type),
            Call::RequestSent { request_id } => self.on_request_sent(request_id, pool),
            Call::RequestFailed => self.on_request_failed(pool),
            Call::SegmentSent => self.on_segment_sent(pool),
            Call::SegmentRejected => self.on_segment_rejected(pool),
        }
    }

    /// What a call does on its own account, before it goes on with the work that is left. Calls
    /// that have no such work are not concerned.
    pub open spec fn begin_of(self, call: Call, pool: Seq<PeerId>) -> (SyncView, Flow) {
        match call {
            Call::Start { anchor } => self.started(pool, anchor),
            Call::PeerDisconnected { peer } => self.begun(Outcome::Handled).peer_left(peer),
            Call::InjectError { batch_id, peer, request_id } => self.begun(
                Outcome::Handled,
            ).error_injected(batch_id, peer, request_id),
            Call::BlockResponse { batch_id, peer, request_id, block } => self.begun(
                successful(),
            ).block_received(batch_id, peer, request_id, block),
            Call::ProcessResult { batch_id, result, anchor } => {
                let (next, _, flow) = self.begun(successful()).batch_processed(
                    batch_id,
                    result,
                    anchor,
                );
                (next, flow)
            },
            Call::RequestSent { request_id } => self.request_sent(request_id),
            Call::RequestFailed => self.request_failed(),
            Call::SegmentSent => (SyncView { waiting: Waiting::Nothing, ..self }, Flow::Proceed),
            Call::SegmentRejected => {
                let (next, _, flow) = SyncView {
                    waiting: Waiting::Nothing,
                    ..self
                }.batch_processed(
                    self.waiting->Segment_batch_id,
                    BatchProcessResult::NonFaultyFailure,
                    None,
                );
                (next, flow)
            },
            _ => (self, Flow::Proceed),
        }
    }

    /// Whether the sync has been told to start over from the store of the chain.
    pub open spec fn restarts(self, call: Call) -> bool {
        &&& call is Start
        &&& self.state == BackFillState::Failed
        &&& self.restart_failed_sync
    }
}

/// Whether the call goes on with the work that is left, once it has done its own.
pub open spec fn has_work(call: Call) -> bool {
    !(call is Pause || call is FullySyncedPeerJoined || call is BatchType)
}

/// What is known of the begin of a call.
pub proof fn lemma_begin_of(s: SyncView, call: Call, pool: Seq<PeerId>)
    requires
        s.inv(),
        s.accepts(call),
        has_work(call),
    ensures
        SyncView::can_settle(s.begin_of(call, pool)),
        s.after(call, pool) == SyncView::settle(s.begin_of(call, pool), pool),
        s.begin_of(call, pool).1 matches Flow::Stop(Err(error)) ==> {
            ||| is_failure(error) && s.begin_of(call, pool).0.has_just_failed()
            ||| s.restarts(call) && error is InvalidSyncState && s.begin_of(call, pool).0.state == (
            if call->Start_anchor is None {
                BackFillState::NotRequired
            } else {
                BackFillState::Completed
            })
        },
{
    match call {
        Call::Start { anchor } => {
            lemma_started(s, pool, anchor);
        },
        Call::PeerDisconnected { peer } => {
            lemma_begun(s, Outcome::Handled);
            lemma_peer_left(s.begun(Outcome::Handled), peer);
        },
        Call::InjectError { batch_id, peer, request_id } => {
            lemma_begun(s, Outcome::Handled);
            lemma_error_injected(s.begun(Outcome::Handled), batch_id, peer, request_id);
        },
        Call::BlockResponse { batch_id, peer, request_id, block } => {
            lemma_begun(s, successful());
            lemma_block_received(s.begun(successful()), batch_id, peer, request_id, block);
        },
        Call::ProcessResult { batch_id, result, anchor } => {
            lemma_begun(s, successful());
            lemma_batch_processed(s.begun(successful()), batch_id, result, anchor);
        },
        Call::RequestSent { request_id } => {
            lemma_request_sent(s, request_id);
        },
        Call::RequestFailed => {
            lemma_download_failed(s, s.waiting->Request_batch_id, s.waiting->Request_peer);
        },
        Call::SegmentSent => {
            assert(SyncView { waiting: Waiting::Nothing, ..s }.inv());
        },
        Call::SegmentRejected => {
            let r = SyncView { waiting: Waiting::Nothing, ..s };
            assert(r.inv());
            lemma_batch_processed(
                r,
                s.waiting->Segment_batch_id,
                BatchProcessResult::NonFaultyFailure,
                None,
            );
        },
        _ => {},
    }
}

/// Every call keeps what holds of the sync at all times, and comes to a step that the sync awaits
/// the reply of, or to its end.
pub proof fn law_every_call_keeps_the_invariant(s: SyncView, call: Call, pool: Seq<PeerId>)
    requires
        s.inv(),
        s.accepts(call),
    ensures
        s.after(call, pool).0.inv(),
        s.after(call, pool).0.awaits(s.after(call, pool).1),
{
    if has_work(call) {
        lemma_begin_of(s, call, pool);
        lemma_begin_of_gapless(s, call, pool);
        lemma_settle(s.begin_of(call, pool), pool);
        lemma_settle_gapless(s.begin_of(call, pool), pool);
    } else if let Call::BatchType { batch_type } = call {
        lemma_on_batch_type(s, batch_type);
        lemma_on_batch_type_gapless(s, batch_type);
    }
}

/// What a call does on its own account leaves nothing out.
pub proof fn lemma_begin_of_gapless(s: SyncView, call: Call, pool: Seq<PeerId>)
    requires
        s.inv(),
        s.accepts(call),
        has_work(call),
    ensures
        ({
            let t = s.begin_of(call, pool).0;
            &&& t.leaves_nothing_out()
            &&& s.reaches_start() && (call is Start ==> t.current_start == s.current_start)
                ==> t.reaches_start()
        }),
{
    match call {
        Call::Start { anchor } => {
            lemma_started_gapless(s, pool, anchor);
        },
        Call::PeerDisconnected { peer } => {
            lemma_begun(s, Outcome::Handled);
            lemma_peer_left_gapless(s.begun(Outcome::Handled), peer);
        },
        Call::InjectError { batch_id, peer, request_id } => {
            lemma_error_injected_gapless(s.begun(Outcome::Handled), batch_id, peer, request_id);
        },
        Call::BlockResponse { batch_id, peer, request_id, block } => {
            lemma_block_received_gapless(s.begun(successful()), batch_id, peer, request_id, block);
        },
        Call::ProcessResult { batch_id, result, anchor } => {
            lemma_begun(s, successful());
            lemma_batch_processed_gapless(s.begun(successful()), batch_id, result, anchor);
        },
        Call::RequestSent { request_id } => {
            lemma_request_sent_gapless(s, request_id);
        },
        Call::RequestFailed => {
            lemma_download_failed_gapless(
                SyncView { waiting: Waiting::Nothing, ..s },
                s.waiting->Request_batch_id,
                s.waiting->Request_peer,
            );
        },
        Call::SegmentRejected => {
            let r = SyncView { waiting: Waiting::Nothing, ..s };
            assert(r.is_consistent());
            lemma_batch_processed_gapless(
                r,
                s.waiting->Segment_batch_id,
                BatchProcessResult::NonFaultyFailure,
                None,
            );
        },
        _ => {},
    }
}

/// The batches that are being worked on reach up to where the chain is validated from, and every
/// call keeps that, unless a failed sync starts over and the chain's store tells another start.
///
/// So, from there down to the batch that is processed, no epoch is missing: see
/// [`law_no_epoch_is_left_out`].
pub proof fn law_the_batches_reach_the_start(s: SyncView, call: Call, pool: Seq<PeerId>)
    requires
        s.inv(),
        s.accepts(call),
        s.reaches_start(),
        s.restarts(call) && call->Start_anchor is Some
            ==> call->Start_anchor->0.block_backfill_complete
            || call->Start_anchor->0.oldest_block_slot / s.slots_per_epoch == s.current_start,
    ensures
        s.after(call, pool).0.reaches_start(),
{
    if has_work(call) {
        lemma_begin_of(s, call, pool);
        lemma_begin_of_gapless(s, call, pool);
        lemma_settle_gapless(s.begin_of(call, pool), pool);
    } else if let Call::BatchType { batch_type } = call {
        lemma_on_batch_type_gapless(s, batch_type);
    }
}

/// No epoch is left out: between any two batches that are being worked on there is every other;
/// until the final batch has been requested they reach down to the one that is requested next; and
/// all from where the chain is validated down to the one that is processed next, but for this one,
/// have been processed with success.
pub proof fn law_no_epoch_is_left_out(s: SyncView, a: BatchId, b: BatchId, k: BatchId)
    requires
        s.inv(),
        s.batches.contains_key(a),
        s.batches.contains_key(b),
        a <= b,
    ensures
        a <= k <= b ==> s.batches.contains_key(k),
        !s.last_batch_downloaded && s.to_be_downloaded < k <= b ==> s.batches.contains_key(k),
        a <= k <= s.current_start && k > s.processing_target && s.reaches_start() ==> {
            &&& s.batches.contains_key(k)
            &&& s.batches[k].state is AwaitingValidation
        },
{
    if a <= k <= s.current_start && s.reaches_start() {
        assert(s.batches.contains_key(s.current_start));
        assert(s.batches.contains_key(k));
    }
}

/// Unless a failed sync starts over, where the chain is validated from moves only by the result of
/// the batch that is being processed, to that batch, and only if blocks of it were imported. All
/// batches between had been processed with success; and if the batches reached up to where the
/// chain was validated from, there was one for every epoch.
pub proof fn law_the_start_moves_over_processed_batches(
    s: SyncView,
    call: Call,
    pool: Seq<PeerId>,
    k: BatchId,
)
    requires
        s.inv(),
        s.accepts(call),
        !s.restarts(call),
        s.after(call, pool).0.current_start != s.current_start,
    ensures
        ({
            let t = s.after(call, pool).0;
            &&& call is ProcessResult
            &&& s.current_processing_batch == Some(call->ProcessResult_batch_id)
            &&& t.current_start == call->ProcessResult_batch_id
            &&& t.current_start < s.current_start
            &&& match call->ProcessResult_result {
                BatchProcessResult::Success { was_non_empty } => was_non_empty,
                BatchProcessResult::FaultyFailure { imported_blocks, .. } => imported_blocks,
                BatchProcessResult::NonFaultyFailure => false,
            }
            &&& t.current_start < k <= s.current_start && s.batches.contains_key(k)
                ==> s.batches[k].state is AwaitingValidation
            &&& t.current_start < k <= s.current_start && s.reaches_start()
                ==> s.batches.contains_key(k)
        }),
{
    if has_work(call) {
        lemma_begin_of(s, call, pool);
        lemma_settle(s.begin_of(call, pool), pool);
        if let Call::ProcessResult { batch_id, result, anchor } = call {
            if s.current_processing_batch == Some(batch_id) {
                lemma_processed_start(s.begun(successful()), batch_id, result, anchor);
                if s.reaches_start() {
                    assert(s.batches.contains_key(s.current_start));
                    assert(s.batches.contains_key(batch_id));
                }
            }
        }
        if let Call::SegmentRejected = call {
            lemma_processed_start(
                SyncView { waiting: Waiting::Nothing, ..s },
                s.waiting->Segment_batch_id,
                BatchProcessResult::NonFaultyFailure,
                None,
            );
        }
    }
}

/// Where the chain is validated from after the result of a batch.
proof fn lemma_processed_start(
    s: SyncView,
    id: BatchId,
    result: BatchProcessResult,
    anchor: Option<AnchorInfo>,
)
    ensures
        s.processed(id, result, anchor).0.current_start == s.current_start || {
            &&& s.processed(id, result, anchor).0.current_start == id
            &&& id < s.current_start
            &&& match result {
                BatchProcessResult::Success { was_non_empty } => was_non_empty,
                BatchProcessResult::FaultyFailure { imported_blocks, .. } => imported_blocks,
                BatchProcessResult::NonFaultyFailure => false,
            }
        },
{
}

/// A batch comes to await validation only by being processed with success.
pub proof fn law_only_success_awaits_validation(
    s: SyncView,
    call: Call,
    pool: Seq<PeerId>,
    id: BatchId,
)
    requires
        s.inv(),
        s.accepts(call),
        s.after(call, pool).0.batches.contains_key(id),
        s.after(call, pool).0.batches[id].state is AwaitingValidation,
    ensures
        ({
            ||| s.batches.contains_key(id) && s.batches[id].state is AwaitingValidation
            ||| {
                &&& call is ProcessResult
                &&& call->ProcessResult_batch_id == id
                &&& call->ProcessResult_result is Success
                &&& s.current_processing_batch == Some(id)
            }
        }),
{
    if has_work(call) {
        lemma_begin_of(s, call, pool);
        lemma_settle(s.begin_of(call, pool), pool);
        let u = s.begin_of(call, pool).0;
        let t = s.after(call, pool).0;
        assert(u.batches.contains_key(id) && u.batches[id].state is AwaitingValidation) by {
            if t.has_just_failed() {
                assert(t.batches == Map::<BatchId, BatchView>::empty()) by {
                    law_every_call_keeps_the_invariant(s, call, pool);
                }
            }
        }
        lemma_begin_of_validation(s, call, pool, id);
    }
}

/// What a call does on its own account has no batch await validation but one that was processed
/// with success.
proof fn lemma_begin_of_validation(s: SyncView, call: Call, pool: Seq<PeerId>, id: BatchId)
    requires
        s.inv(),
        s.accepts(call),
        has_work(call),
        s.begin_of(call, pool).0.batches.contains_key(id),
        s.begin_of(call, pool).0.batches[id].state is AwaitingValidation,
    ensures
        ({
            ||| s.batches.contains_key(id) && s.batches[id].state is AwaitingValidation
            ||| {
                &&& call is ProcessResult
                &&& call->ProcessResult_batch_id == id
                &&& call->ProcessResult_result is Success
                &&& s.current_processing_batch == Some(id)
            }
        }),
{
    match call {
        Call::PeerDisconnected { peer } => {
            let r = s.begun(Outcome::Handled);
            let asked = r.asked_of(peer);
            let change = |batch: BatchView| batch.failed_downloading(batch.state->Downloading_0);
            lemma_with_each_dom(r.batches, asked, change);
        },
        Call::ProcessResult { batch_id, result, anchor } => {
            let r = s.begun(successful());
            lemma_begun(s, successful());
            if s.current_processing_batch == Some(batch_id) {
                lemma_processed_validation(r, batch_id, result, anchor, id);
            }
        },
        Call::SegmentRejected => {
            let r = SyncView { waiting: Waiting::Nothing, ..s };
            assert(r.is_consistent());
            lemma_processed_validation(
                r,
                s.waiting->Segment_batch_id,
                BatchProcessResult::NonFaultyFailure,
                None,
                id,
            );
        },
        _ => {},
    }
}

/// The result of a batch has no batch await validation but that one, if it is a success.
proof fn lemma_processed_validation(
    s: SyncView,
    id: BatchId,
    result: BatchProcessResult,
    anchor: Option<AnchorInfo>,
    k: BatchId,
)
    requires
        s.is_consistent(),
        s.waiting is Nothing,
        s.work.retries.len() == 0,
        s.work.idle.len() == 0,
        s.current_processing_batch == Some(id),
        s.processed(id, result, anchor).0.batches.contains_key(k),
        s.processed(id, result, anchor).0.batches[k].state is AwaitingValidation,
    ensures
        ({
            ||| s.batches.contains_key(k) && s.batches[k].state is AwaitingValidation
            ||| k == id && result is Success
        }),
{
    let (t, _, flow) = s.processed(id, result, anchor);
    let idle = SyncView { current_processing_batch: None, ..s };
    match result {
        BatchProcessResult::Success { was_non_empty } => {
            let batch = s.batches[id].completed_processing(BatchProcessingResult::Success);
            let r = idle.with_batch(id, batch);
            lemma_replace_processed(s, id, batch);
            lemma_advance_chain(r, id);
            if was_non_empty {
                assert(r.advance_chain(id).0.batches.contains_key(k));
            }
            assert(r.batches.contains_key(k));
        },
        BatchProcessResult::FaultyFailure { imported_blocks, .. } => {
            let batch = s.batches[id].completed_processing(BatchProcessingResult::FaultyFailure);
            let r = idle.with_batch(id, batch);
            if flow is Proceed {
                lemma_replace_processed(s, id, batch);
                let p = r.in_state(BackFillState::Paused);
                lemma_advance_chain(p, id);
                assert(p.advance_chain(id).0 == r.advance_chain(id).0.in_state(
                    BackFillState::Paused,
                ));
                let advanced = if imported_blocks {
                    r.advance_chain(id).0
                } else {
                    r
                };
                let above = advanced.ids_above(id);
                let change = |batch: BatchView| batch.failed_validation();
                lemma_with_each_dom(advanced.batches, above, change);
                assert(t.batches == with_each(advanced.batches, above, change));
                assert(advanced.batches.contains_key(k));
                assert(r.batches.contains_key(k));
            }
        },
        BatchProcessResult::NonFaultyFailure => {},
    }
}

/// A batch that awaits validation is never the next to be processed, unless it is that of the very
/// first epoch, below which there is none.
pub proof fn law_the_target_does_not_await_validation(s: SyncView)
    requires
        s.inv(),
        s.batches.contains_key(s.processing_target),
        s.batches[s.processing_target].state is AwaitingValidation,
    ensures
        s.processing_target == 0,
{
    lemma_no_robust_target(s);
}

/// What a call does on its own account loses no progress, and changes the state only in these ways.
pub proof fn lemma_begin_of_state(s: SyncView, call: Call, pool: Seq<PeerId>)
    requires
        s.inv(),
        s.accepts(call),
        has_work(call),
    ensures
        ({
            let (t, flow) = s.begin_of(call, pool);
            &&& t.validated_batches >= s.validated_batches
            &&& !s.restarts(call) ==> t.current_start <= s.current_start
            &&& t.genesis_backfill_slot == s.genesis_backfill_slot
            &&& t.slots_per_epoch == s.slots_per_epoch
            &&& flow is Proceed ==> {
                ||| t.state == s.state
                ||| call is Start && t.state == BackFillState::Syncing
            }
            &&& flow matches Flow::Stop(Ok(outcome)) ==> {
                ||| t.state == s.state && outcome != Outcome::Processed(
                    ProcessResult::SyncCompleted,
                )
                ||| {
                    &&& t.state == BackFillState::Completed
                    &&& outcome == Outcome::Processed(ProcessResult::SyncCompleted)
                    &&& call is ProcessResult
                    &&& t.check_completed(call->ProcessResult_anchor)
                }
            }
        }),
{
    if let Call::ProcessResult { batch_id, result, anchor } = call {
        let r = s.begun(successful());
        if s.current_processing_batch == Some(batch_id) {
            lemma_processed_moves(r, batch_id, result, anchor);
        }
    }
}

/// The result of a batch loses no progress, and changes the state only if it completes the sync or
/// fails it.
pub proof fn lemma_processed_moves(
    s: SyncView,
    id: BatchId,
    result: BatchProcessResult,
    anchor: Option<AnchorInfo>,
)
    requires
        s.inv(),
        s.current_processing_batch == Some(id),
    ensures
        ({
            let (t, _, flow) = s.processed(id, result, anchor);
            &&& t.validated_batches >= s.validated_batches
            &&& t.current_start <= s.current_start
            &&& t.genesis_backfill_slot == s.genesis_backfill_slot
            &&& t.slots_per_epoch == s.slots_per_epoch
            &&& flow is Proceed ==> t.state == s.state
            &&& flow matches Flow::Stop(Ok(outcome)) ==> {
                &&& t.state == BackFillState::Completed
                &&& outcome == Outcome::Processed(ProcessResult::SyncCompleted)
                &&& t.check_completed(anchor)
            }
        }),
{
}

/// The sync never forgets how far it has come: the number of validated batches never falls, and
/// the epoch from which on the chain is validated never rises, unless a failed sync starts over
/// from the store of the chain.
pub proof fn law_progress_is_never_lost(s: SyncView, call: Call, pool: Seq<PeerId>)
    requires
        s.inv(),
        s.accepts(call),
    ensures
        s.after(call, pool).0.validated_batches >= s.validated_batches,
        !s.restarts(call) ==> s.after(call, pool).0.current_start <= s.current_start,
        s.after(call, pool).0.genesis_backfill_slot == s.genesis_backfill_slot,
        s.after(call, pool).0.slots_per_epoch == s.slots_per_epoch,
{
    if has_work(call) {
        lemma_begin_of(s, call, pool);
        lemma_begin_of_state(s, call, pool);
        lemma_settle(s.begin_of(call, pool), pool);
    }
}

/// If a call comes to an error, the sync has paused for want of a peer, or it has failed; or it
/// was to start over, and the chain says that it is complete or that no sync is required.
///
/// A sync that has failed is cleared, and is not restarted before a peer joins. The errors it can
/// fail with are those of batches that failed too often, of the batch to be processed next not
/// being there, and of batches above an invalid one not awaiting validation: no other state of the
/// sync is ever found to be inconsistent.
pub proof fn law_an_error_is_a_failure(s: SyncView, call: Call, pool: Seq<PeerId>)
    requires
        s.inv(),
        s.accepts(call),
    ensures
        ({
            let (t, step) = s.after(call, pool);
            step matches StepView::Done(Err(error)) ==> {
                ||| error is Paused && t.state == BackFillState::Paused
                ||| {
                    &&& is_failure(error)
                    &&& t == t.failed()
                }
                ||| {
                    &&& s.restarts(call)
                    &&& call->Start_anchor is None
                    &&& error == ErrorView::InvalidSyncState("backfill not required"@)
                    &&& t.state == BackFillState::NotRequired
                }
                ||| {
                    &&& s.restarts(call)
                    &&& call->Start_anchor is Some
                    &&& call->Start_anchor->0.block_backfill_complete
                    &&& error == ErrorView::InvalidSyncState("chain completed"@)
                    &&& t.state == BackFillState::Completed
                }
            }
        }),
{
    if has_work(call) {
        lemma_begin_of(s, call, pool);
        lemma_begin_of_state(s, call, pool);
        lemma_settle(s.begin_of(call, pool), pool);
        let (t, step) = s.after(call, pool);
        if let StepView::Done(Err(error)) = step {
            let at = s.begin_of(call, pool);
            if at.1 is Proceed && !(error is Paused) {
                assert(is_failure(missing_batch(at.0.processing_target)));
            }
            if t.state == BackFillState::Failed {
                assert(t =~= t.failed());
            }
        }
    }
}

/// The sync begins to run only when it is started. It pauses only when it is told to, or, whatever
/// its state was, for want of a peer that a batch could be requested from again; it fails only with
/// an error; it completes only when it has reached its end and the chain agrees, or when the chain
/// says so as it is to start over; and only then can it be found not to be required.
pub proof fn law_state_changes(s: SyncView, call: Call, pool: Seq<PeerId>)
    requires
        s.inv(),
        s.accepts(call),
    ensures
        ({
            let (t, step) = s.after(call, pool);
            t.state != s.state ==> match t.state {
                BackFillState::Syncing => call is Start,
                BackFillState::Paused => call is Pause || step == StepView::Done(
                    Err(ErrorView::Paused),
                ),
                BackFillState::Failed => step is Done && step->Done_0 is Err && is_failure(
                    step->Done_0->Err_0,
                ),
                BackFillState::Completed => {
                    ||| {
                        &&& step == StepView::Done(
                            Ok(Outcome::Processed(ProcessResult::SyncCompleted)),
                        )
                        &&& call is ProcessResult
                        &&& t.check_completed(call->ProcessResult_anchor)
                    }
                    ||| s.restarts(call) && call->Start_anchor is Some
                        && call->Start_anchor->0.block_backfill_complete
                },
                BackFillState::NotRequired => s.restarts(call) && call->Start_anchor is None,
            }
        }),
{
    if has_work(call) {
        lemma_begin_of(s, call, pool);
        lemma_begin_of_state(s, call, pool);
        lemma_settle(s.begin_of(call, pool), pool);
        let at = s.begin_of(call, pool);
        assert(is_failure(missing_batch(at.0.processing_target)));
    }
}

/// A sync that has failed does nothing until a fully synced peer joins: no other call changes it.
pub proof fn law_a_failed_sync_waits_for_a_peer(s: SyncView, call: Call, pool: Seq<PeerId>)
    requires
        s.inv(),
        s.accepts(call),
        s.has_just_failed(),
        !(call is FullySyncedPeerJoined),
    ensures
        s.after(call, pool).0 == s,
        s.after(call, pool).1 == StepView::Done(
            Ok(
                match call {
                    Call::Start { .. } => Outcome::Started(SyncStart::NotSyncing),
                    Call::BlockResponse { .. } | Call::ProcessResult { .. } => successful(),
                    _ => Outcome::Handled,
                },
            ),
        ),
{
    assert(s.is_idle());
    assert(s.begun(Outcome::Handled) =~= s);
    assert(s.begun(successful()).begun(Outcome::Handled) =~= s);
}

/// Once a fully synced peer has joined, a failed sync can be started again. The chain then counts
/// as validated from the oldest block that it has stored; but batches are requested and processed
/// from the epoch on that it was validated from when the sync failed.
pub proof fn law_a_joined_peer_restarts_a_failed_sync(
    s: SyncView,
    pool: Seq<PeerId>,
    anchor: AnchorInfo,
)
    requires
        s.inv(),
        s.is_idle(),
        s.state == BackFillState::Failed,
        !anchor.block_backfill_complete,
    ensures
        ({
            let (t, step) = s.fully_synced_peer_joined().start(pool, Some(anchor));
            &&& t.state == BackFillState::Syncing
            &&& t.current_start == anchor.oldest_block_slot / s.slots_per_epoch
            &&& t.processing_target == s.current_start
            &&& t.to_be_downloaded == s.current_start
            &&& t.validated_batches == s.validated_batches
            &&& step is BatchType || step == StepView::Done(Ok(Outcome::Started(t.progress())))
        }),
{
    let j = s.fully_synced_peer_joined();
    assert(j.inv());
    lemma_started(j, pool, Some(anchor));
    let at = j.started(pool, Some(anchor));
    lemma_settle(at, pool);
    lemma_no_retries(at.0, pool);
    let turn = turned(at.0, pool);
    lemma_turn(at.0, pool);
    lemma_nothing_skipped(turn);
    if turns(turn, pool) {
        lemma_turn(turn, pool);
    }
}

/// Without batches to be downloaded again, no batch is requested before it is known what it is to
/// ask for, and the sync does not pause.
pub proof fn lemma_no_retries(s: SyncView, pool: Seq<PeerId>)
    requires
        s.work.retries.len() == 0,
    ensures
        !(s.proceed(pool).1 is RequestBlocks),
        s.proceed(pool).1 != StepView::Done(Err(ErrorView::Paused)),
    decreases
        (if s.work.process { 1int } else { 0int }),
        (if s.work.request { 1int } else { 0int }),
        s.work.idle.len(),
{
    let work = s.work;
    if work.idle.len() > 0 {
        lemma_next_batch(s);
        if s.next_batch().1 is None {
            lemma_no_retries(
                SyncView { work: WorkView { idle: Seq::empty(), ..work }, ..s.next_batch().0 },
                pool,
            );
        }
    } else if work.request {
        lemma_no_retries(
            SyncView {
                work: WorkView {
                    idle: if s.state == BackFillState::Syncing {
                        idle_peers(pool, s.active_requests)
                    } else {
                        Seq::empty()
                    },
                    request: false,
                    ..work
                },
                ..s
            },
            pool,
        );
    } else if work.process {
        let rest = SyncView { work: WorkView { process: false, ..work }, ..s };
        let (next, blocks, flow) = rest.process_completed_batches();
        if blocks is None && flow is Proceed {
            lemma_no_retries(next, pool);
        }
    }
}

/// A sync that is complete, or not required, or paused without any synced peer, is not started.
pub proof fn law_not_started(s: SyncView, pool: Seq<PeerId>, anchor: Option<AnchorInfo>)
    requires
        s.inv(),
        s.is_idle(),
        s.state == BackFillState::Completed || s.state == BackFillState::NotRequired || (s.state
            == BackFillState::Paused && pool.len() == 0),
    ensures
        s.start(pool, anchor) == (
            s,
            StepView::Done(Ok(Outcome::Started(SyncStart::NotSyncing))),
        ),
{
    assert(s.begun(Outcome::Handled) =~= s);
}

/// A sync that runs already is not disturbed by an attempt to start it: it tells how far it has
/// come.
pub proof fn law_already_syncing(s: SyncView, pool: Seq<PeerId>, anchor: Option<AnchorInfo>)
    requires
        s.inv(),
        s.is_idle(),
        s.state == BackFillState::Syncing,
    ensures
        s.start(pool, anchor) == (s, StepView::Done(Ok(Outcome::Started(s.progress())))),
{
    assert(s.begun(Outcome::Handled) =~= s);
}

/// A paused sync that is started with a synced peer resumes the batches that await a download,
/// the first of them at once, with the best peer there is.
pub proof fn law_resuming_requests_what_failed(
    s: SyncView,
    pool: Seq<PeerId>,
    anchor: Option<AnchorInfo>,
    id: BatchId,
)
    requires
        s.inv(),
        s.is_idle(),
        s.state == BackFillState::Paused,
        pool.len() > 0,
        s.batches.contains_key(id),
        s.batches[id].state is AwaitingDownload,
    ensures
        ({
            let (t, step) = s.start(pool, anchor);
            let retries = s.to_resume();
            &&& t.state == BackFillState::Syncing
            &&& retries.contains(id)
            &&& t.work.retries == retries.drop_first()
            &&& step is RequestBlocks
            &&& step->RequestBlocks_batch_id == retries[0]
            &&& Some(step->RequestBlocks_peer) == best_peer(
                s.batches[retries[0]],
                s.active_requests,
                pool,
            )
        }),
{
    let retries = s.to_resume();
    let pick = |id: BatchId| s.batches[id].state is AwaitingDownload;
    lemma_ids_of(s.batches);
    lemma_filter_ascending(ids_of(s.batches), pick);
    assert(ids_of(s.batches).contains(id) && pick(id));
    assert(retries.contains(id));
    assert(retries.contains(retries[0]));
    lemma_started(s, pool, anchor);
}

/// Resuming undoes pausing: the sync goes on as one that runs does when it is to request batches
/// and to process the next one.
pub proof fn law_resuming_undoes_pausing(
    s: SyncView,
    pool: Seq<PeerId>,
    anchor: Option<AnchorInfo>,
)
    requires
        s.inv(),
        s.is_idle(),
        s.state == BackFillState::Syncing,
        pool.len() > 0,
    ensures
        s.pause().start(pool, anchor) == s.begun(
            Outcome::Started(s.progress()),
        ).with_progress_due().proceed(pool),
{
    let p = s.pause();
    let retries = p.to_resume();
    let pick = |id: BatchId| p.batches[id].state is AwaitingDownload;
    lemma_ids_of(p.batches);
    lemma_filter_ascending(ids_of(p.batches), pick);
    if retries.len() > 0 {
        assert(retries.contains(retries[0]));
        assert(s.batches.contains_key(retries[0]));
    }
    assert(p.started(pool, anchor).0 =~= s.begun(
        Outcome::Started(s.progress()),
    ).with_progress_due());
}

/// With a synced peer at hand, no call pauses the sync for want of one.
pub proof fn law_pauses_only_without_peers(s: SyncView, call: Call, pool: Seq<PeerId>)
    requires
        s.inv(),
        s.accepts(call),
        pool.len() > 0,
    ensures
        s.after(call, pool).1 != StepView::Done(Err(ErrorView::Paused)),
{
    if has_work(call) {
        lemma_begin_of(s, call, pool);
        let at = s.begin_of(call, pool);
        if at.1 is Proceed {
            if at.0.work.retries.len() > 0 {
                let id = at.0.work.retries[0];
                assert(at.0.batches.contains_key(id));
            } else {
                lemma_no_retries(at.0, pool);
            }
        }
    }
}

/// Without any synced peer, a batch that is to be downloaded again pauses the sync, and is kept
/// for when it is resumed.
pub proof fn law_pauses_without_peers(s: SyncView)
    requires
        s.inv(),
        s.waiting is Nothing,
        s.work.retries.len() > 0,
    ensures
        ({
            let (t, step) = s.proceed(Seq::empty());
            &&& step == StepView::Done(Err(ErrorView::Paused))
            &&& t.state == BackFillState::Paused
            &&& t.batches == s.batches
            &&& t.to_resume().contains(s.work.retries[0])
        }),
{
    let id = s.work.retries[0];
    let t = s.proceed(Seq::empty()).0;
    let pick = |id: BatchId| t.batches[id].state is AwaitingDownload;
    assert(s.batches.contains_key(id));
    lemma_ids_of(t.batches);
    lemma_filter_ascending(ids_of(t.batches), pick);
    assert(ids_of(t.batches).contains(id) && pick(id));
}

/// Batches are processed only while the sync runs, one at a time, and each in its turn: blocks are
/// handed out when no other batch is being processed, and they are those of the batch that is next.
pub proof fn law_one_batch_is_processed_at_a_time(s: SyncView, call: Call, pool: Seq<PeerId>)
    requires
        s.inv(),
        s.accepts(call),
    ensures
        ({
            let (t, step) = s.after(call, pool);
            step matches StepView::SendChainSegment { batch_id, blocks } ==> {
                &&& t.state == BackFillState::Syncing
                &&& batch_id == t.processing_target
                &&& t.batches[batch_id].state is Processing
                &&& t.batches[batch_id].state->Processing_0.hash == attempt_hash(blocks)
                &&& forall|id: BatchId| #[trigger]
                    t.batches.contains_key(id) && t.batches[id].state is Processing ==> id
                        == batch_id
            }
        }),
{
    law_every_call_keeps_the_invariant(s, call, pool);
    if has_work(call) {
        lemma_begin_of(s, call, pool);
        lemma_settle(s.begin_of(call, pool), pool);
    }
}

/// A new batch is taken in only while the sync runs and fewer batches than the buffer takes are
/// downloading or wait to be processed. It lies right below the batches that are there, and none of
/// those has reached the end of the sync.
pub proof fn law_new_batches(s: SyncView, call: Call, pool: Seq<PeerId>)
    requires
        s.inv(),
        s.accepts(call),
    ensures
        ({
            let (t, step) = s.after(call, pool);
            step matches StepView::BatchType { batch_id } ==> {
                &&& t.state == BackFillState::Syncing
                &&& buffered(t.batches) < BACKFILL_BATCH_BUFFER_SIZE
                &&& !t.batches.contains_key(batch_id)
                &&& forall|id: BatchId| #[trigger]
                    t.batches.contains_key(id) ==> {
                        &&& batch_id < id
                        &&& !t.would_complete(id)
                        &&& t.batches.contains_key((batch_id + 1) as u64)
                    }
            }
        }),
{
    law_every_call_keeps_the_invariant(s, call, pool);
    let (t, step) = s.after(call, pool);
    if let StepView::BatchType { batch_id } = step {
        assert forall|id: BatchId| #[trigger] t.batches.contains_key(id) implies
            t.batches.contains_key((batch_id + 1) as u64) by {
            assert(batch_id < id);
        }
    }
}

/// Replacing or adding one batch puts no more than one more into the buffer, and a new one that
/// counts puts in just one.
pub proof fn lemma_buffered_insert(batches: Map<BatchId, BatchView>, id: BatchId, batch: BatchView)
    requires
        batches.dom().finite(),
    ensures
        buffered(batches.insert(id, batch)) <= buffered(batches) + 1,
        !batches.contains_key(id) && batch.is_in_buffer() ==> buffered(batches.insert(id, batch))
            == buffered(batches) + 1,
{
    let after = batches.insert(id, batch);
    let pick = |k: BatchId| batches[k].is_in_buffer();
    let pick_after = |k: BatchId| after[k].is_in_buffer();
    let some = ids_of(batches).filter(pick);
    let all = ids_of(after).filter(pick_after);
    lemma_ids_of(batches);
    lemma_ids_of(after);
    lemma_filter_ascending(ids_of(batches), pick);
    lemma_filter_ascending(ids_of(after), pick_after);
    some.unique_seq_to_set();
    all.unique_seq_to_set();
    assert forall|k: BatchId| all.to_set().contains(k) implies #[trigger] some.to_set().insert(
        id,
    ).contains(k) by {
        assert(all.contains(k));
        if k != id {
            assert(batches[k] == after[k]);
            assert(ids_of(batches).contains(k) && pick(k));
            assert(some.contains(k));
        }
    }
    vstd::set_lib::lemma_len_subset(all.to_set(), some.to_set().insert(id));
    if !batches.contains_key(id) && batch.is_in_buffer() {
        assert forall|k: BatchId| some.to_set().insert(id).contains(k) implies #[trigger]
            all.to_set().contains(k) by {
            if k != id {
                assert(some.contains(k));
                assert(batches[k] == after[k]);
            }
            assert(ids_of(after).contains(k) && pick_after(k));
            assert(all.contains(k));
        }
        assert(all.to_set() =~= some.to_set().insert(id));
        assert(!some.contains(id));
    }
}

/// A new batch that has been taken in and requested does not exceed the buffer: no more batches
/// than it takes are then downloading or wait to be processed.
pub proof fn law_new_batches_fit_the_buffer(
    s: SyncView,
    batch_type: BatchType,
    request_id: Id,
)
    requires
        s.inv(),
        s.waiting is BatchType,
    ensures
        buffered(s.on_batch_type(batch_type).0.request_sent(request_id).0.batches)
            <= BACKFILL_BATCH_BUFFER_SIZE,
{
    let id = s.waiting->BatchType_batch_id;
    let t = s.on_batch_type(batch_type).0;
    let u = t.request_sent(request_id).0;
    lemma_on_batch_type(s, batch_type);
    assert(u.batches =~= s.batches.insert(id, u.batches[id]));
    lemma_buffered_insert(s.batches, id, u.batches[id]);
}

/// No more than one of the batches that are being worked on reaches the end of the sync, and once
/// it has been requested no further batch is: none beyond genesis ever is.
pub proof fn law_nothing_is_requested_beyond_genesis(s: SyncView, a: BatchId, b: BatchId)
    requires
        s.inv(),
        s.batches.contains_key(a),
        s.batches.contains_key(b),
        s.would_complete(a),
        s.would_complete(b),
    ensures
        a == b,
        s.next_batch().1 is None,
{
}

/// While the sync runs and is to request batches, or has idle peers left to ask, one more batch is
/// requested, unless no peer is idle, the buffer is full or the final batch has been requested.
pub proof fn law_requests_until_exhausted(s: SyncView, pool: Seq<PeerId>)
    requires
        s.inv(),
        s.waiting is Nothing,
        s.state == BackFillState::Syncing,
        s.work.retries.len() == 0,
        s.work.request || s.work.idle.len() > 0,
    ensures
        ({
            let idle = if s.work.idle.len() > 0 {
                s.work.idle
            } else {
                idle_peers(pool, s.active_requests)
            };
            idle.len() > 0 && !s.last_batch_downloaded && buffered(s.batches)
                < BACKFILL_BATCH_BUFFER_SIZE ==> {
                &&& s.proceed(pool).1 == (StepView::BatchType { batch_id: s.to_be_downloaded })
                &&& s.proceed(pool).0.waiting == (Waiting::BatchType {
                    batch_id: s.to_be_downloaded,
                    peer: idle.last(),
                })
            }
        }),
{
    if s.work.idle.len() == 0 {
        let next = SyncView {
            work: WorkView {
                idle: idle_peers(pool, s.active_requests),
                request: false,
                ..s.work
            },
            ..s
        };
        assert(s.proceed(pool) == next.proceed(pool));
    }
}

/// A block of a batch that is being downloaded is added to those that have come, and nothing else
/// changes.
pub proof fn law_blocks_are_kept(
    s: SyncView,
    id: BatchId,
    peer: PeerId,
    request_id: Id,
    block: Block,
    pool: Seq<PeerId>,
)
    requires
        s.inv(),
        s.is_idle(),
        s.batches.contains_key(id),
        s.batches[id].is_expecting(peer, request_id),
    ensures
        ({
            let (t, step) = s.on_block_response(id, peer, request_id, Some(block), pool);
            &&& step == StepView::Done(Ok(successful()))
            &&& t == s.with_batch(id, t.batches[id])
            &&& t.batches[id].is_expecting(peer, request_id)
            &&& t.batches[id].state->Downloading_1 == s.batches[id].state->Downloading_1.push(block)
        }),
{
    let t = s.on_block_response(id, peer, request_id, Some(block), pool).0;
    assert(t =~= s.with_batch(id, s.batches[id].with_block(block)));
}

/// Once the blocks of a batch have come to their end, and lie within it, just these blocks await
/// processing, or are handed out to be processed; unless the sync fails.
pub proof fn law_blocks_reach_the_processor(
    s: SyncView,
    id: BatchId,
    peer: PeerId,
    request_id: Id,
    pool: Seq<PeerId>,
)
    requires
        s.inv(),
        s.is_idle(),
        s.batches.contains_key(id),
        s.batches[id].is_expecting(peer, request_id),
        s.batches[id].crossed_boundary() is None,
    ensures
        ({
            let (t, step) = s.on_block_response(id, peer, request_id, None, pool);
            let blocks = s.batches[id].state->Downloading_1;
            ||| step == (StepView::SendChainSegment { batch_id: id, blocks })
            ||| t.batches.contains_key(id) && t.batches[id].state
                == BatchStateView::AwaitingProcessing(peer, blocks)
            ||| t.has_just_failed()
        }),
{
    let call = Call::BlockResponse { batch_id: id, peer, request_id, block: None };
    lemma_begin_of(s, call, pool);
    lemma_settle(s.begin_of(call, pool), pool);
}

/// Blocks, errors and results that nothing waits for change nothing.
pub proof fn law_the_unexpected_is_ignored(
    s: SyncView,
    id: BatchId,
    peer: PeerId,
    request_id: Id,
    block: Option<Block>,
    result: BatchProcessResult,
    anchor: Option<AnchorInfo>,
    pool: Seq<PeerId>,
)
    requires
        s.inv(),
        s.is_idle(),
    ensures
        !(s.batches.contains_key(id) && s.batches[id].is_expecting(peer, request_id)) ==> {
            &&& s.on_block_response(id, peer, request_id, block, pool) == (
                s,
                StepView::Done(Ok(successful())),
            )
            &&& s.inject_error(id, peer, request_id, pool) == (
                s,
                StepView::Done(Ok(Outcome::Handled)),
            )
        },
        s.current_processing_batch != Some(id) ==> s.on_batch_process_result(
            id,
            result,
            anchor,
            pool,
        ) == (s, Seq::<PeerReport>::empty(), StepView::Done(Ok(successful()))),
{
    assert(s.begun(Outcome::Handled) =~= s);
    assert(s.begun(successful()).begun(Outcome::Handled) =~= s);
}

/// No batch is worked on any more once it has used up the attempts it is allowed.
pub proof fn law_attempts_are_bounded(s: SyncView, id: BatchId)
    requires
        s.inv(),
        s.batches.contains_key(id),
    ensures
        s.batches[id].failed_download_attempts.len() < MAX_BATCH_DOWNLOAD_ATTEMPTS,
        s.batches[id].failed_processing_attempts.len() < MAX_BATCH_PROCESSING_ATTEMPTS,
        !(s.batches[id].state is Failed),
{
}

/// A batch whose download fails for the last time that is allowed fails the sync; before that it
/// is requested again, from the best peer there is.
pub proof fn law_a_failed_download_is_retried(
    s: SyncView,
    id: BatchId,
    peer: PeerId,
    request_id: Id,
    pool: Seq<PeerId>,
)
    requires
        s.inv(),
        s.is_idle(),
        s.batches.contains_key(id),
        s.batches[id].is_expecting(peer, request_id),
        pool.len() > 0,
    ensures
        ({
            let (t, step) = s.inject_error(id, peer, request_id, pool);
            let failures = s.batches[id].failed_download_attempts.len() + 1;
            if failures >= MAX_BATCH_DOWNLOAD_ATTEMPTS {
                &&& step == StepView::Done(Err(ErrorView::BatchDownloadFailed(id)))
                &&& t.has_just_failed()
            } else {
                &&& step is RequestBlocks
                &&& step->RequestBlocks_batch_id == id
                &&& Some(step->RequestBlocks_peer) == best_peer(
                    s.batches[id].failed_downloading(peer),
                    unregistered(s.active_requests, peer, id),
                    pool,
                )
                &&& t.batches[id].has_failed_with(peer)
            }
        }),
{
    let r = s.begun(Outcome::Handled);
    let (u, flow) = r.error_injected(id, peer, request_id);
    let failed = s.batches[id].failed_downloading(peer);
    let attempts = failed.failed_download_attempts;
    assert(attempts[attempts.len() - 1] == peer);
    if flow is Proceed {
        assert(u.work.retries[0] == id);
        assert(u.batches.contains_key(id) && u.batches[id] == failed);
    }
}

/// The batches that were to come from a peer which disconnects are considered failed, and the
/// first of them is requested again at once; then nothing is to come from the peer any more. If
/// one of them has used up its attempts, the sync fails.
pub proof fn law_batches_of_a_lost_peer_are_requested_again(
    s: SyncView,
    peer: PeerId,
    pool: Seq<PeerId>,
    id: BatchId,
)
    requires
        s.inv(),
        s.is_idle(),
        s.batches.contains_key(id),
        s.batches[id].is_downloading_from(peer),
        s.state != BackFillState::NotRequired,
        pool.len() > 0,
    ensures
        ({
            let (t, step) = s.peer_disconnected(peer, pool);
            let asked = s.asked_of(peer);
            &&& asked.contains(id)
            &&& {
                ||| {
                    &&& step is Done
                    &&& step->Done_0 is Err
                    &&& step->Done_0->Err_0 is BatchDownloadFailed
                    &&& t.has_just_failed()
                }
                ||| {
                    &&& step is RequestBlocks
                    &&& step->RequestBlocks_batch_id == asked[0]
                    &&& t.work.retries == asked.drop_first()
                    &&& load(t.active_requests, peer) == 0
                    &&& forall|k: BatchId| #[trigger]
                        asked.contains(k) ==> t.batches.contains_key(k) && t.batches[k]
                            == s.batches[k].failed_downloading(peer)
                }
            }
        }),
{
    let r = s.begun(Outcome::Handled);
    lemma_begun(s, Outcome::Handled);
    lemma_peer_left(r, peer);
    let (u, flow) = r.peer_left(peer);
    let asked = s.asked_of(peer);
    assert(r.asked_of(peer) == asked) by {
        assert((|id: BatchId| is_requested(r.active_requests, peer, id)) =~= (|id: BatchId|
            is_requested(s.active_requests, peer, id)));
    }
    assert(asked.contains(id));
    if flow is Proceed {
        assert(asked.contains(asked[0]));
        assert(u.batches.contains_key(asked[0]));
    }
}

/// The sync completes exactly if a batch was processed with success, the chain is then validated
/// down to the end of the sync, and the chain's store agrees.
pub proof fn law_completion(
    s: SyncView,
    id: BatchId,
    result: BatchProcessResult,
    anchor: Option<AnchorInfo>,
    pool: Seq<PeerId>,
)
    requires
        s.inv(),
        s.is_idle(),
        s.current_processing_batch == Some(id),
    ensures
        ({
            let (t, _, step) = s.on_batch_process_result(id, result, anchor, pool);
            let completed = StepView::Done(Ok(Outcome::Processed(ProcessResult::SyncCompleted)));
            let was_non_empty = result == (BatchProcessResult::Success { was_non_empty: true });
            &&& step == completed <==> {
                &&& result is Success
                &&& s.would_complete(
                    if was_non_empty && id < s.current_start {
                        id
                    } else {
                        s.current_start
                    },
                )
                &&& anchor is Some
                &&& anchor->0.block_backfill_complete
            }
            &&& step == completed ==> t.state == BackFillState::Completed
        }),
{
    let call = Call::ProcessResult { batch_id: id, result, anchor };
    lemma_begin_of(s, call, pool);
    lemma_begin_of_state(s, call, pool);
    lemma_settle(s.begin_of(call, pool), pool);
}

/// A batch that was processed with success, and was not empty, validates all batches above it:
/// they are removed and counted, and the chain is validated from that batch on.
///
/// All of them up to where the chain was validated from had been processed with success before, and
/// no epoch was missing among them, nor, if they reached up to there, above them.
pub proof fn law_success_validates(
    s: SyncView,
    id: BatchId,
    anchor: Option<AnchorInfo>,
    pool: Seq<PeerId>,
)
    requires
        s.inv(),
        s.is_idle(),
        s.current_processing_batch == Some(id),
        id < s.current_start,
    ensures
        ({
            let result = BatchProcessResult::Success { was_non_empty: true };
            let (t, _, _) = s.on_batch_process_result(id, result, anchor, pool);
            &&& forall|k: BatchId|
                id < k <= s.current_start && #[trigger] s.batches.contains_key(k)
                    ==> s.batches[k].state is AwaitingValidation
            &&& forall|k: BatchId, b: BatchId|
                id <= k <= b && #[trigger] s.batches.contains_key(b)
                    ==> #[trigger] s.batches.contains_key(k)
            &&& s.reaches_start() ==> forall|k: BatchId|
                id <= k <= s.current_start ==> #[trigger] s.batches.contains_key(k)
            &&& t.current_start == id
            &&& t.validated_batches == raised(s.validated_batches, s.ids_above(id).len())
            &&& forall|k: BatchId| #[trigger] t.batches.contains_key(k) ==> k <= id
            &&& t.has_just_failed() || (t.batches.contains_key(id) && t.batches[id].state
                is AwaitingValidation)
        }),
{
    let result = BatchProcessResult::Success { was_non_empty: true };
    let call = Call::ProcessResult { batch_id: id, result, anchor };
    let r = s.begun(successful());
    lemma_begun(s, successful());
    lemma_begin_of(s, call, pool);
    let at = s.begin_of(call, pool);
    lemma_settle(at, pool);
    let completed = SyncView { current_processing_batch: None, ..r }.with_batch(
        id,
        s.batches[id].completed_processing(BatchProcessingResult::Success),
    );
    lemma_replace_processed(r, id, completed.batches[id]);
    lemma_advance_chain(completed, id);
    assert(completed.batches.dom() =~= s.batches.dom());
    assert(completed.ids_above(id) == s.ids_above(id));
    let t = s.on_batch_process_result(id, result, anchor, pool).0;
    assert(at.0.batches == completed.advance_chain(id).0.batches);
    assert forall|k: BatchId| #[trigger] t.batches.contains_key(k) implies k <= id by {
        assert(at.0.batches.contains_key(k));
    }
    assert(at.0.batches.contains_key(id));
}

/// Batches are processed from the top down: after one was processed with success, the one below
/// it is next.
pub proof fn law_processing_goes_down(
    s: SyncView,
    id: BatchId,
    was_non_empty: bool,
    anchor: Option<AnchorInfo>,
)
    requires
        s.inv(),
        s.current_processing_batch == Some(id),
    ensures
        s.processed(id, BatchProcessResult::Success { was_non_empty }, anchor).0.processing_target
            == id.saturating_sub(BACKFILL_EPOCHS_PER_BATCH),
{
}

/// The batches to be requested again when a batch is found invalid, in this order: those above it,
/// unless blocks of it were imported which validates them, and then the batch itself.
pub open spec fn invalid_batches(s: SyncView, id: BatchId, imported_blocks: bool) -> Seq<BatchId> {
    if imported_blocks && id < s.current_start {
        seq![id]
    } else {
        s.ids_above(id).push(id)
    }
}

/// Whether the invalid batch, and the others that are to be requested again with it, all can be.
pub open spec fn can_handle_invalid(s: SyncView, id: BatchId, imported_blocks: bool) -> bool {
    &&& s.batches[id].failed_processing_attempts.len() + 1 < MAX_BATCH_PROCESSING_ATTEMPTS
    &&& imported_blocks && id < s.current_start || forall|k: BatchId| #[trigger]
        s.batches.contains_key(k) && k > id ==> s.can_revalidate(k)
}

/// What becomes of a batch that could not be processed through the fault of a peer, and of the
/// others.
pub proof fn lemma_invalid(
    s: SyncView,
    id: BatchId,
    imported_blocks: bool,
    penalty: PeerAction,
    anchor: Option<AnchorInfo>,
)
    requires
        s.inv(),
        s.waiting is Nothing,
        s.work.retries.len() == 0,
        s.work.idle.len() == 0,
        s.current_processing_batch == Some(id),
    ensures
        ({
            let result = BatchProcessResult::FaultyFailure { imported_blocks, penalty };
            let (t, _, flow) = s.processed(id, result, anchor);
            &&& can_handle_invalid(s, id, imported_blocks) ==> flow is Proceed
            &&& flow is Proceed ==> {
                &&& t.work == (WorkView {
                    retries: invalid_batches(s, id, imported_blocks),
                    ..s.work
                })
                &&& t.state == s.state
                &&& t.processing_target == t.current_start
                &&& t.batches[id].has_failed_with(s.batches[id].state->Processing_0.peer_id)
                &&& forall|k: BatchId| #[trigger]
                    t.batches.contains_key(k) <==> s.batches.contains_key(k) && !(k > id
                        && imported_blocks && id < s.current_start)
                &&& forall|k: BatchId|
                    s.batches.contains_key(k) && k < id ==> #[trigger] t.batches[k] == s.batches[k]
            }
        }),
{
    let result = BatchProcessResult::FaultyFailure { imported_blocks, penalty };
    let (t, _, flow) = s.processed(id, result, anchor);
    let failed = s.batches[id].completed_processing(BatchProcessingResult::FaultyFailure);
    let r = SyncView { current_processing_batch: None, ..s }.with_batch(id, failed);
    if !(failed.state is Failed) {
        lemma_replace_processed(s, id, failed);
        lemma_advance_chain(r.in_state(BackFillState::Paused), id);
        assert(r.batches.dom() =~= s.batches.dom());
        let advanced = if imported_blocks {
            r.advance_chain(id).0
        } else {
            r
        };
        assert(r.in_state(BackFillState::Paused).advance_chain(id).0 == r.advance_chain(
            id,
        ).0.in_state(BackFillState::Paused));
        let above = advanced.ids_above(id);
        lemma_ids_above(advanced, id);
        if imported_blocks && id < s.current_start {
            if above.len() > 0 {
                assert(above.contains(above[0]));
            }
            assert(above.push(id) =~= seq![id]);
        } else {
            assert(above == s.ids_above(id));
        }
        let ok = |k: BatchId| advanced.can_revalidate(k);
        lemma_first_not_none(above, ok);
        if can_handle_invalid(s, id, imported_blocks) {
            assert forall|i: int| 0 <= i < above.len() implies ok(#[trigger] above[i]) by {
                assert(above.contains(above[i]));
                assert(s.batches.contains_key(above[i]));
                assert(s.can_revalidate(above[i]));
            }
        }
        if flow is Proceed {
            let change = |batch: BatchView| batch.failed_validation();
            lemma_with_each_dom(advanced.batches, above, change);
            assert(t.batches == with_each(advanced.batches, above, change));
            let attempt = s.batches[id].state->Processing_0;
            let attempts = failed.failed_processing_attempts;
            assert(attempts[attempts.len() - 1] == attempt);
            assert(!above.contains(id));
            assert(advanced.batches.contains_key(id));
            assert(t.batches[id] == failed);
            assert(t.batches[id].failed_processing_attempts[attempts.len() - 1].peer_id
                == attempt.peer_id);
            assert forall|k: BatchId| s.batches.contains_key(k) && k < id implies
                #[trigger] t.batches[k] == s.batches[k] by {
                assert(advanced.batches.contains_key(k));
                assert(!above.contains(k));
            }
            assert(t.work =~= WorkView {
                retries: invalid_batches(s, id, imported_blocks),
                ..s.work
            });
        }
    }
}

/// A batch that could not be processed through the fault of a peer, and can be tried again, is
/// requested again behind all batches above it; these are spared if blocks of it were imported,
/// for this validates them. Processing starts over from where the chain is validated.
pub proof fn law_invalid_batches_are_downloaded_again(
    s: SyncView,
    id: BatchId,
    imported_blocks: bool,
    penalty: PeerAction,
    anchor: Option<AnchorInfo>,
)
    requires
        s.inv(),
        s.is_idle(),
        s.current_processing_batch == Some(id),
    ensures
        ({
            let result = BatchProcessResult::FaultyFailure { imported_blocks, penalty };
            let (t, _, flow) = s.processed(id, result, anchor);
            &&& can_handle_invalid(s, id, imported_blocks) ==> flow is Proceed
            &&& flow is Proceed ==> {
                &&& t.work.retries == invalid_batches(s, id, imported_blocks)
                &&& t.processing_target == t.current_start
                &&& t.batches[id].has_failed_with(s.batches[id].state->Processing_0.peer_id)
            }
        }),
{
    lemma_invalid(s, id, imported_blocks, penalty, anchor);
}

/// Whether a report is the penalty for a version of the batch that differs from the validated one.
pub open spec fn is_penalty_for(report: PeerReport, batch: BatchView) -> bool {
    &&& batch.state is AwaitingValidation
    &&& exists|i: int|
        0 <= i < batch.failed_processing_attempts.len()
            && (#[trigger] batch.failed_processing_attempts[i]).hash
            != batch.state->AwaitingValidation_0.hash && report == penalty(
            batch.failed_processing_attempts[i],
            batch.state->AwaitingValidation_0,
        )
}

/// What the penalties for a batch are.
proof fn lemma_penalties(batch: BatchView, report: PeerReport)
    ensures
        penalties(batch).contains(report) <==> is_penalty_for(report, batch),
{
    if batch.state is AwaitingValidation {
        let right = batch.state->AwaitingValidation_0;
        let attempts = batch.failed_processing_attempts;
        let differs = |attempt: Attempt| attempt.hash != right.hash;
        let of = |attempt: Attempt| penalty(attempt, right);
        let wrong = attempts.filter(differs);
        assert(penalties(batch) == wrong.map_values(of));
        if penalties(batch).contains(report) {
            let k = choose|k: int|
                0 <= k < penalties(batch).len() && penalties(batch)[k] == report;
            assert(differs(wrong[k]));
            assert(wrong.contains(wrong[k]));
            attempts.lemma_filter_contains_rev(differs, wrong[k]);
            let i = choose|i: int| 0 <= i < attempts.len() && attempts[i] == wrong[k];
            assert(attempts[i].hash != right.hash);
        }
        if is_penalty_for(report, batch) {
            let i = choose|i: int|
                0 <= i < attempts.len() && (#[trigger] attempts[i]).hash != right.hash && report
                    == penalty(attempts[i], right);
            assert(differs(attempts[i]));
            assert(wrong.contains(attempts[i]));
            let k = choose|k: int| 0 <= k < wrong.len() && wrong[k] == attempts[i];
            assert(penalties(batch)[k] == report);
        }
    }
}

/// What the penalties for several batches are.
pub proof fn lemma_all_penalties(
    batches: Map<BatchId, BatchView>,
    ids: Seq<BatchId>,
    report: PeerReport,
)
    ensures
        all_penalties(batches, ids).contains(report) <==> exists|i: int|
            0 <= i < ids.len() && is_penalty_for(report, #[trigger] batches[ids[i]]),
    decreases ids.len(),
{
    let all = all_penalties(batches, ids);
    if ids.len() > 0 {
        let rest = ids.drop_last();
        let some = all_penalties(batches, rest);
        let last = penalties(batches[ids.last()]);
        lemma_all_penalties(batches, rest, report);
        lemma_penalties(batches[ids.last()], report);
        if all.contains(report) {
            let k = choose|k: int| 0 <= k < all.len() && all[k] == report;
            if k < some.len() {
                assert(some[k] == report);
                let i = choose|i: int|
                    0 <= i < rest.len() && is_penalty_for(report, #[trigger] batches[rest[i]]);
                assert(batches[ids[i]] == batches[rest[i]]);
            } else {
                assert(last[k - some.len()] == report);
                assert(batches[ids[ids.len() - 1]] == batches[ids.last()]);
            }
        }
        if exists|i: int| 0 <= i < ids.len() && is_penalty_for(report, #[trigger] batches[ids[i]]) {
            let i = choose|i: int|
                0 <= i < ids.len() && is_penalty_for(report, #[trigger] batches[ids[i]]);
            if i < rest.len() {
                assert(batches[rest[i]] == batches[ids[i]]);
                let k = choose|k: int| 0 <= k < some.len() && some[k] == report;
                assert(all[k] == report);
            } else {
                let k = choose|k: int| 0 <= k < last.len() && last[k] == report;
                assert(all[some.len() + k] == report);
            }
        }
    }
}

/// When the chain advances, a peer is penalised exactly if it had sent a version of a batch that
/// differs from the version which is now validated. The penalty is the harder one if another peer
/// sent the validated version.
pub proof fn law_penalties_when_the_chain_advances(s: SyncView, epoch: Epoch, report: PeerReport)
    requires
        s.inv(),
        epoch < s.current_start,
    ensures
        s.advance_chain(epoch).1.contains(report) <==> exists|id: BatchId|
            s.batches.contains_key(id) && id > epoch && is_penalty_for(
                report,
                #[trigger] s.batches[id],
            ),
{
    let above = s.ids_above(epoch);
    lemma_ids_above(s, epoch);
    lemma_all_penalties(s.batches, above, report);
    if s.advance_chain(epoch).1.contains(report) {
        let i = choose|i: int|
            0 <= i < above.len() && is_penalty_for(report, #[trigger] s.batches[above[i]]);
        assert(above.contains(above[i]));
    }
    if exists|id: BatchId|
        s.batches.contains_key(id) && id > epoch && is_penalty_for(
            report,
            #[trigger] s.batches[id],
        ) {
        let id = choose|id: BatchId|
            s.batches.contains_key(id) && id > epoch && is_penalty_for(
                report,
                #[trigger] s.batches[id],
            );
        assert(above.contains(id));
        let i = choose|i: int| 0 <= i < above.len() && above[i] == id;
        assert(is_penalty_for(report, s.batches[above[i]]));
    }
}

/// Peers participate exactly by being asked: a call that asks a peer for a batch makes it a
/// participant, and no other peer becomes one. A participant remains one until it disconnects, or
/// the sync fails.
#[verifier::spinoff_prover]
#[verifier::rlimit(30)]
pub proof fn law_who_is_asked_participates(
    s: SyncView,
    call: Call,
    pool: Seq<PeerId>,
    peer: PeerId,
)
    requires
        s.inv(),
        s.accepts(call),
    ensures
        ({
            let (t, step) = s.after(call, pool);
            let asked = step is RequestBlocks && step->RequestBlocks_peer == peer;
            let left = call is PeerDisconnected && call->PeerDisconnected_peer == peer;
            &&& asked ==> t.participating_peers.contains(peer)
            &&& t.participating_peers.contains(peer) ==> s.participating_peers.contains(peer)
                || asked
            &&& s.participating_peers.contains(peer) ==> t.participating_peers.contains(peer)
                || left || t.has_just_failed()
        }),
{
    if has_work(call) {
        lemma_begin_of(s, call, pool);
        lemma_begin_of_participants(s, call, pool);
        lemma_settle_participants(s.begin_of(call, pool), pool);
    }
}

/// As a call goes on, whoever is asked becomes a participant, and nobody else does; nobody is one
/// any more if the sync fails.
proof fn lemma_settle_participants(at: (SyncView, Flow), pool: Seq<PeerId>)
    requires
        SyncView::can_settle(at),
    ensures
        ({
            let (t, step) = SyncView::settle(at, pool);
            if t.has_just_failed() {
                t.participating_peers == Set::<PeerId>::empty() && !(step is RequestBlocks)
            } else {
                t.participating_peers == match step {
                    StepView::RequestBlocks { peer, .. } => at.0.participating_peers.insert(peer),
                    _ => at.0.participating_peers,
                }
            }
        }),
{
    lemma_settle(at, pool);
    let (t, step) = SyncView::settle(at, pool);
    if t.has_just_failed() && step is RequestBlocks {
        assert(t.batches.contains_key(step->RequestBlocks_batch_id));
    }
}

/// What a call does on its own account makes nobody participate, and nobody leave but a peer that
/// disconnects, unless the sync fails.
proof fn lemma_begin_of_participants(s: SyncView, call: Call, pool: Seq<PeerId>)
    requires
        s.inv(),
        s.accepts(call),
        has_work(call),
    ensures
        ({
            let t = s.begin_of(call, pool).0;
            ||| t.participating_peers == s.participating_peers
            ||| call is PeerDisconnected && t.participating_peers == s.participating_peers.remove(
                call->PeerDisconnected_peer,
            )
            ||| t.has_just_failed()
        }),
{
    match call {
        Call::ProcessResult { batch_id, result, anchor } => {
            lemma_processed_participants(s.begun(successful()), batch_id, result, anchor);
        },
        Call::SegmentRejected => {
            lemma_processed_participants(
                SyncView { waiting: Waiting::Nothing, ..s },
                s.waiting->Segment_batch_id,
                BatchProcessResult::NonFaultyFailure,
                None,
            );
        },
        _ => {},
    }
}

/// The result of a batch makes nobody participate, and nobody leave unless the sync fails.
proof fn lemma_processed_participants(
    s: SyncView,
    id: BatchId,
    result: BatchProcessResult,
    anchor: Option<AnchorInfo>,
)
    ensures
        ({
            let t = s.processed(id, result, anchor).0;
            t.has_just_failed() && t.participating_peers == Set::<PeerId>::empty()
                || t.participating_peers == s.participating_peers
        }),
{
}

/// A peer that a batch is being downloaded from is a participant.
pub proof fn law_who_sends_participates(s: SyncView, id: BatchId, peer: PeerId)
    requires
        s.inv(),
        s.batches.contains_key(id),
        s.batches[id].is_downloading_from(peer),
    ensures
        s.participating_peers.contains(peer),
{
    assert(is_requested(s.active_requests, peer, id));
}

/// The peers that have participated are penalised, all of them and none else, exactly if a batch
/// has failed processing for the last time that is allowed; then the sync has failed.
pub proof fn law_participants_pay_if_the_sync_fails(
    s: SyncView,
    id: BatchId,
    result: BatchProcessResult,
    anchor: Option<AnchorInfo>,
    pool: Seq<PeerId>,
    peer: PeerId,
)
    requires
        s.inv(),
        s.is_idle(),
        s.current_processing_batch == Some(id),
    ensures
        ({
            let (t, reports, step) = s.on_batch_process_result(id, result, anchor, pool);
            let exhausted = s.batches[id].failed_processing_attempts.len() + 1
                >= MAX_BATCH_PROCESSING_ATTEMPTS;
            if exhausted && result is FaultyFailure {
                &&& step == StepView::Done(Err(ErrorView::BatchProcessingFailed(id)))
                &&& t.has_just_failed()
                &&& s.participating_peers.contains(peer) <==> reports.contains(
                    PeerReport {
                        peer,
                        action: result->FaultyFailure_penalty,
                        reason: ReportReason::BatchFailed,
                    },
                )
                &&& forall|i: int|
                    0 <= i < reports.len() ==> (#[trigger] reports[i]).reason
                        == ReportReason::BatchFailed
            } else {
                forall|i: int|
                    0 <= i < reports.len() ==> (#[trigger] reports[i]).reason
                        != ReportReason::BatchFailed
            }
        }),
{
    let (t, reports, step) = s.on_batch_process_result(id, result, anchor, pool);
    let peers = ascending(s.participating_peers);
    lemma_ascending_of_finite(s.participating_peers);
    if let BatchProcessResult::FaultyFailure { imported_blocks, penalty: action } = result {
        let report = PeerReport { peer, action, reason: ReportReason::BatchFailed };
        if s.batches[id].failed_processing_attempts.len() + 1 >= MAX_BATCH_PROCESSING_ATTEMPTS {
            assert(reports == failure_reports(peers, action));
            assert(peers.to_set().contains(peer) <==> peers.contains(peer));
            if peers.contains(peer) {
                let i = choose|i: int| 0 <= i < peers.len() && peers[i] == peer;
                assert(reports[i] == report);
            }
            if reports.contains(report) {
                let i = choose|i: int| 0 <= i < reports.len() && reports[i] == report;
                assert(peers[i] == peer);
            }
        }
    }
    if !(s.batches[id].failed_processing_attempts.len() + 1 >= MAX_BATCH_PROCESSING_ATTEMPTS
        && result is FaultyFailure) {
        let r = s.begun(successful());
        let completed = SyncView { current_processing_batch: None, ..r }.with_batch(
            id,
            s.batches[id].completed_processing(
                match result {
                    BatchProcessResult::Success { .. } => BatchProcessingResult::Success,
                    BatchProcessResult::FaultyFailure {
                        ..
                    } => BatchProcessingResult::FaultyFailure,
                    BatchProcessResult::NonFaultyFailure => BatchProcessingResult::NonFaultyFailure,
                },
            ),
        );
        assert(reports == Seq::<PeerReport>::empty() || reports == completed.advance_chain(id).1);
        assert forall|i: int| 0 <= i < reports.len() implies (#[trigger] reports[i]).reason
            != ReportReason::BatchFailed by {
            let above = completed.ids_above(id);
            assert(reports.contains(reports[i]));
            lemma_all_penalties(completed.batches, above, reports[i]);
        }
    }
}

/// Of a pool that is not empty, one peer is the best to ask for a batch.
proof fn lemma_best_exists(
    batch: BatchView,
    requests: Map<PeerId, Set<BatchId>>,
    pool: Seq<PeerId>,
) -> (best: PeerId)
    requires
        pool.len() > 0,
    ensures
        is_best(batch, requests, pool, best),
    decreases pool.len(),
{
    let last = pool.last();
    assert(pool[pool.len() - 1] == last);
    let rest = pool.drop_last();
    if rest.len() == 0 {
        assert forall|p: PeerId| pool.contains(p) implies #[trigger] is_preferred(
            batch,
            requests,
            last,
            p,
        ) by {}
        last
    } else {
        let other = lemma_best_exists(batch, requests, rest);
        let k = choose|k: int| 0 <= k < rest.len() && rest[k] == other;
        assert(pool[k] == other);
        let best = if is_preferred(batch, requests, other, last) {
            other
        } else {
            last
        };
        assert forall|p: PeerId| pool.contains(p) implies #[trigger] is_preferred(
            batch,
            requests,
            best,
            p,
        ) by {
            let i = choose|i: int| 0 <= i < pool.len() && pool[i] == p;
            if i < rest.len() {
                assert(rest[i] == p);
                assert(is_preferred(batch, requests, other, p));
            }
        }
        best
    }
}

/// A batch is asked of a peer of the pool such that no peer of the pool is preferred to it: peers
/// with which it has not failed come first, and among them those of which less is asked.
pub proof fn law_the_best_peer_is_asked(
    batch: BatchView,
    requests: Map<PeerId, Set<BatchId>>,
    pool: Seq<PeerId>,
)
    requires
        pool.len() > 0,
    ensures
        best_peer(batch, requests, pool) is Some,
        is_best(batch, requests, pool, best_peer(batch, requests, pool)->0),
{
    let best = lemma_best_exists(batch, requests, pool);
    lemma_best_is_unique(batch, requests, pool, best);
}

/// Which peer is asked again does not depend on the order in which the peers come.
pub proof fn law_the_choice_ignores_the_order(
    batch: BatchView,
    requests: Map<PeerId, Set<BatchId>>,
    a: Seq<PeerId>,
    b: Seq<PeerId>,
)
    requires
        a.to_multiset() == b.to_multiset(),
    ensures
        best_peer(batch, requests, a) == best_peer(batch, requests, b),
{
    vstd::seq_lib::to_multiset_len(a);
    vstd::seq_lib::to_multiset_len(b);
    assert forall|p: PeerId| #[trigger] a.contains(p) <==> b.contains(p) by {
        vstd::seq_lib::to_multiset_contains(a, p);
        vstd::seq_lib::to_multiset_contains(b, p);
    }
    if a.len() > 0 {
        let best = lemma_best_exists(batch, requests, a);
        assert(is_best(batch, requests, b, best));
        lemma_best_is_unique(batch, requests, a, best);
        lemma_best_is_unique(batch, requests, b, best);
    }
}

/// How often a peer is among the picked ones.
proof fn lemma_picked_count(pool: Seq<PeerId>, pick: spec_fn(PeerId) -> bool, peer: PeerId)
    ensures
        pool.filter(pick).to_multiset().count(peer) == (if pick(peer) {
            pool.to_multiset().count(peer)
        } else {
            0
        }),
    decreases pool.len(),
{
    broadcast use vstd::seq_lib::group_to_multiset_ensures;

    reveal(Seq::filter);
    if pool.len() > 0 {
        let rest = pool.drop_last();
        lemma_picked_count(rest, pick, peer);
        assert(pool =~= rest.push(pool.last()));
    }
}

/// Which peers are idle does not depend on the order in which the peers come: a random order of
/// the peers gives a random order of just these.
pub proof fn law_idle_peers_ignore_the_order(
    requests: Map<PeerId, Set<BatchId>>,
    a: Seq<PeerId>,
    b: Seq<PeerId>,
)
    requires
        a.to_multiset() == b.to_multiset(),
    ensures
        idle_peers(a, requests).to_multiset() == idle_peers(b, requests).to_multiset(),
{
    let pick = |peer: PeerId| load(requests, peer) == 0;
    assert forall|peer: PeerId| #[trigger]
        idle_peers(a, requests).to_multiset().count(peer) == idle_peers(
            b,
            requests,
        ).to_multiset().count(peer) by {
        lemma_picked_count(a, pick, peer);
        lemma_picked_count(b, pick, peer);
    }
    assert(idle_peers(a, requests).to_multiset() =~= idle_peers(b, requests).to_multiset());
}

/// Whether the call is the reply to a step.
pub open spec fn is_reply(call: Call) -> bool {
    ||| call is BatchType
    ||| call is RequestSent
    ||| call is RequestFailed
    ||| call is SegmentSent
    ||| call is SegmentRejected
}

/// What an attempt to start the sync tells of its progress is what the progress then is, however
/// many replies it takes until it is told.
pub proof fn law_start_tells_the_progress(s: SyncView, call: Call, pool: Seq<PeerId>)
    requires
        s.inv(),
        s.accepts(call),
        call is Start || (is_reply(call) && s.work.outcome == Outcome::Started(s.progress())),
    ensures
        ({
            let (t, step) = s.after(call, pool);
            match step {
                StepView::Done(Ok(outcome)) => {
                    ||| outcome == Outcome::Started(t.progress())
                    ||| call is Start && outcome == Outcome::Started(SyncStart::NotSyncing)
                },
                StepView::Done(Err(_)) => true,
                _ => t.work.outcome == Outcome::Started(t.progress()),
            }
        }),
{
    if has_work(call) {
        lemma_begin_of(s, call, pool);
        lemma_settle(s.begin_of(call, pool), pool);
        if let Call::SegmentRejected = call {
            lemma_processed_moves(
                SyncView { waiting: Waiting::Nothing, ..s },
                s.waiting->Segment_batch_id,
                BatchProcessResult::NonFaultyFailure,
                None,
            );
        }
    }
}

/// How many downloads of these batches may still fail.
pub open spec fn attempts_left(batches: Map<BatchId, BatchView>, ids: Seq<BatchId>) -> int
    decreases ids.len(),
{
    if ids.len() == 0 {
        0
    } else {
        attempts_left(batches, ids.drop_last()) + MAX_BATCH_DOWNLOAD_ATTEMPTS
            - batches[ids.last()].failed_download_attempts.len()
    }
}

impl SyncView {
    /// The batches that the call has to request again, or is requesting.
    pub open spec fn due(self) -> Seq<BatchId> {
        if self.waiting is Request {
            self.work.retries.push(self.waiting->Request_batch_id)
        } else {
            self.work.retries
        }
    }

    /// How much is left of a call: whether a batch is to be processed, whether idle peers are to
    /// be looked for, how many there are to ask, and how many requests of them may still fail.
    pub open spec fn effort(self) -> (int, int, int, int) {
        (
            if self.work.process || self.waiting is Segment {
                1
            } else {
                0
            },
            if self.work.request {
                1
            } else {
                0
            },
            self.work.idle.len() + if self.waiting is BatchType {
                1int
            } else {
                0
            },
            attempts_left(self.batches, self.due()),
        )
    }
}

/// Whether `a` is less than `b`, or as much, where what comes first counts most.
pub open spec fn is_at_most(a: (int, int, int, int), b: (int, int, int, int)) -> bool {
    a == b || is_less(a, b)
}

/// Whether `a` is less than `b`, where what comes first counts most.
pub open spec fn is_less(a: (int, int, int, int), b: (int, int, int, int)) -> bool {
    ||| a.0 < b.0
    ||| a.0 == b.0 && a.1 < b.1
    ||| a.0 == b.0 && a.1 == b.1 && a.2 < b.2
    ||| a.0 == b.0 && a.1 == b.1 && a.2 == b.2 && a.3 < b.3
}

/// No effort is less than nothing.
proof fn lemma_attempts_left(batches: Map<BatchId, BatchView>, ids: Seq<BatchId>)
    requires
        forall|i: int| 0 <= i < ids.len() ==> (#[trigger] batches[ids[i]]).is_alive(),
    ensures
        attempts_left(batches, ids) >= ids.len(),
    decreases ids.len(),
{
    if ids.len() > 0 {
        let rest = ids.drop_last();
        assert forall|i: int| 0 <= i < rest.len() implies (
        #[trigger] batches[rest[i]]).is_alive() by {
            assert(batches[rest[i]] == batches[ids[i]]);
        }
        lemma_attempts_left(batches, rest);
        assert(batches[ids[ids.len() - 1]].is_alive());
    }
}

/// What other batches there are does not matter.
proof fn lemma_attempts_left_of_same(
    a: Map<BatchId, BatchView>,
    b: Map<BatchId, BatchView>,
    ids: Seq<BatchId>,
)
    requires
        forall|i: int| 0 <= i < ids.len() ==> a[#[trigger] ids[i]] == b[ids[i]],
    ensures
        attempts_left(a, ids) == attempts_left(b, ids),
    decreases ids.len(),
{
    if ids.len() > 0 {
        let rest = ids.drop_last();
        assert forall|i: int| 0 <= i < rest.len() implies a[#[trigger] rest[i]] == b[rest[i]] by {
            assert(rest[i] == ids[i]);
        }
        lemma_attempts_left_of_same(a, b, rest);
        assert(a[ids[ids.len() - 1]] == b[ids[ids.len() - 1]]);
    }
}

/// The attempts that are left of the first batch, and of the others.
proof fn lemma_attempts_left_first(batches: Map<BatchId, BatchView>, ids: Seq<BatchId>)
    requires
        ids.len() > 0,
    ensures
        attempts_left(batches, ids) == attempts_left(batches, ids.drop_first())
            + MAX_BATCH_DOWNLOAD_ATTEMPTS - batches[ids[0]].failed_download_attempts.len(),
    decreases ids.len(),
{
    if ids.len() > 1 {
        let rest = ids.drop_last();
        lemma_attempts_left_first(batches, rest);
        assert(rest.drop_first() =~= ids.drop_first().drop_last());
        assert(ids.drop_first().last() == ids.last());
        assert(rest[0] == ids[0]);
    } else {
        assert(ids.drop_first() =~= Seq::empty());
        assert(ids.drop_last() =~= Seq::empty());
        assert(ids.last() == ids[0]);
    }
}

/// Doing what is left of a call takes no more effort than is left.
proof fn lemma_proceed_effort(s: SyncView, pool: Seq<PeerId>)
    requires
        s.is_consistent(),
        s.waiting is Nothing,
    ensures
        !(s.proceed(pool).1 is Done) ==> is_at_most(s.proceed(pool).0.effort(), s.effort()),
    decreases
        (if s.work.process { 1int } else { 0int }),
        (if s.work.request { 1int } else { 0int }),
        s.work.idle.len(),
        s.work.retries.len(),
{
    let (t, step) = s.proceed(pool);
    if turns(s, pool) {
        let next = turned(s, pool);
        lemma_turn(s, pool);
        lemma_proceed_effort(next, pool);
        assert(is_less(next.effort(), s.effort()));
    } else {
        lemma_last_turn(s, pool);
        if s.work.retries.len() > 0 {
            let id = s.work.retries[0];
            assert(s.batches.contains_key(id));
            lemma_attempts_left_first(s.batches, s.work.retries);
            if step is RequestBlocks {
                assert(t.due() =~= s.work.retries.drop_first().push(id));
                assert(t.due().drop_last() =~= s.work.retries.drop_first());
                assert(t.due().last() == id);
            }
        } else if s.work.idle.len() > 0 {
            lemma_next_batch(s);
            lemma_nothing_skipped(s);
        }
    }
}

/// Every call comes to its end: each reply to a step leaves less to be done.
pub proof fn law_every_call_ends(s: SyncView, call: Call, pool: Seq<PeerId>)
    requires
        s.inv(),
        s.accepts(call),
        is_reply(call),
    ensures
        !(s.after(call, pool).1 is Done) ==> is_less(s.after(call, pool).0.effort(), s.effort()),
        s.effort().0 >= 0,
        s.effort().1 >= 0,
        s.effort().2 >= 0,
        s.effort().3 >= 0,
{
    assert forall|i: int| 0 <= i < s.due().len() implies (
    #[trigger] s.batches[s.due()[i]]).is_alive() by {
        if i < s.work.retries.len() {
            assert(s.due()[i] == s.work.retries[i]);
        }
        assert(s.batches.contains_key(s.due()[i]));
    }
    lemma_attempts_left(s.batches, s.due());
    if has_work(call) {
        lemma_begin_of(s, call, pool);
        let (u, flow) = s.begin_of(call, pool);
        if flow is Proceed {
            lemma_proceed_effort(u, pool);
            if s.waiting is Request {
                let id = s.waiting->Request_batch_id;
                let retries = s.work.retries;
                assert(s.due().drop_last() =~= retries);
                assert(s.due().last() == id);
                assert(s.batches[id].is_alive());
                assert forall|i: int| 0 <= i < retries.len() implies s.batches[
                    #[trigger] retries[i]
                ] == u.batches[retries[i]] by {
                    assert(retries.contains(retries[i]));
                }
                lemma_attempts_left_of_same(s.batches, u.batches, retries);
                if call is RequestFailed {
                    assert(u.work.retries =~= seq![id] + retries);
                    assert(u.work.retries.drop_first() =~= retries);
                    lemma_attempts_left_first(u.batches, u.work.retries);
                }
                assert(is_less(u.effort(), s.effort()));
            } else {
                assert(is_less(u.effort(), s.effort()));
            }
        }
    }
}

} // verus!
