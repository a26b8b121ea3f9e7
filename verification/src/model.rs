//! What every operation of the sync does, as mathematics.
//!
//! An operation takes the state of the sync, as a [`SyncView`], to the state that follows. One
//! that takes part in a call also says how the call goes on, as a [`Flow`]. A call that is not
//! at its end [proceeds](SyncView::proceed) with the [`WorkView`] that is left, until it needs
//! something from outside or ends.
use vstd::prelude::*;

use crate::batch::{
    cannot_complete_processing, cannot_download, cannot_fail_download, cannot_fail_validation,
    cannot_process, capped_product, Attempt, BatchProcessingResult, BatchStateView, BatchView,
    Block,
};
use crate::batches::{buffered, ids_of};
use crate::order::{
    ascending, first_not, is_ascending, lemma_ascending_of_finite, lemma_filter_ascending,
};
use crate::peers::{best_peer, idle_peers};
use crate::requests::{is_requested, registered, unregistered};
use crate::text::decimal;
use crate::types::{
    AnchorInfo, BackFillState, BatchId, BatchProcessResult, BatchType, Epoch, ErrorView, Id,
    Outcome, PeerAction, PeerId, PeerReport, ProcessResult, ReportReason, Slot, StepView,
    SyncStart, BACKFILL_EPOCHS_PER_BATCH,
};

verus! {

/// The maximum number of batches to queue before requesting more.
pub const BACKFILL_BATCH_BUFFER_SIZE: u8 = 20;

/// What a call needs from outside before it can go on.
#[derive(Debug, Clone, Copy, PartialEq, Eq, Structural)]
pub enum Waiting {
    /// Nothing: no call is under way.
    Nothing,
    /// What the batch, which is about to be asked of the peer, is to ask for.
    BatchType { batch_id: BatchId, peer: PeerId },
    /// Whether the batch could be requested from the peer.
    Request { batch_id: BatchId, peer: PeerId },
    /// Whether the block processor took the batch.
    Segment { batch_id: BatchId },
}

/// What is left to do of a call, in this order.
#[verifier::ext_equal]
pub ghost struct WorkView {
    /// Batches to be downloaded again, the next one first.
    pub retries: Seq<BatchId>,
    /// Idle peers to ask for new batches, the next one last.
    pub idle: Seq<PeerId>,
    /// Whether idle peers are to be looked for.
    pub request: bool,
    /// Whether the next batch is to be processed.
    pub process: bool,
    /// What the call comes to in the end.
    pub outcome: Outcome,
}

/// The state of the sync.
#[verifier::ext_equal]
pub ghost struct SyncView {
    /// Whether the sync is running.
    pub state: BackFillState,
    /// The epoch from which on the chain is validated.
    pub current_start: Epoch,
    /// The batch that needs to be processed next.
    pub processing_target: BatchId,
    /// The next batch that needs to be downloaded.
    pub to_be_downloaded: BatchId,
    /// Whether the final batch has been requested.
    pub last_batch_downloaded: bool,
    /// The batches that are being worked on.
    pub batches: Map<BatchId, BatchView>,
    /// The batches that are to come from each peer.
    pub active_requests: Map<PeerId, Set<BatchId>>,
    /// The batch that is being processed.
    pub current_processing_batch: Option<BatchId>,
    /// The number of batches that have been validated.
    pub validated_batches: u64,
    /// The peers that have participated: those that batches have been requested from.
    pub participating_peers: Set<PeerId>,
    /// Whether a failed sync may be restarted.
    pub restart_failed_sync: bool,
    /// The slot at which the sync is complete.
    pub genesis_backfill_slot: Slot,
    /// The length of an epoch.
    pub slots_per_epoch: u64,
    /// What is left of the call that is under way.
    pub work: WorkView,
    /// What that call needs from outside.
    pub waiting: Waiting,
}

/// How a call goes on.
pub ghost enum Flow {
    /// It proceeds with the work that is left.
    Proceed,
    /// It has come to its end.
    Stop(Result<Outcome, ErrorView>),
}

impl WorkView {
    /// No work, but for telling what the call comes to.
    pub open spec fn none(outcome: Outcome) -> WorkView {
        WorkView {
            retries: Seq::empty(),
            idle: Seq::empty(),
            request: false,
            process: false,
            outcome,
        }
    }
}

/// What a call that moves the sync forward comes to, unless it completes the sync.
pub open spec fn successful() -> Outcome {
    Outcome::Processed(ProcessResult::Successful)
}

/// The penalties for the peers that sent other versions of a batch than the one which is now
/// known to be right.
///
/// Only for batches awaiting validation can we be sure the last attempt is right, and thus, that
/// any different attempt is wrong.
pub open spec fn penalties(batch: BatchView) -> Seq<PeerReport> {
    match batch.state {
        BatchStateView::AwaitingValidation(right) => batch.failed_processing_attempts.filter(
            |attempt: Attempt| attempt.hash != right.hash,
        ).map_values(|attempt: Attempt| penalty(attempt, right)),
        _ => Seq::empty(),
    }
}

/// The penalty for the peer that sent `wrong` when `right` would have been right.
pub open spec fn penalty(wrong: Attempt, right: Attempt) -> PeerReport {
    if right.peer_id != wrong.peer_id {
        PeerReport {
            peer: wrong.peer_id,
            action: PeerAction::LowToleranceError,
            reason: ReportReason::ReprocessedOriginalPeer,
        }
    } else {
        PeerReport {
            peer: wrong.peer_id,
            action: PeerAction::MidToleranceError,
            reason: ReportReason::ReprocessedSamePeer,
        }
    }
}

/// The penalties that the batches of these ids give rise to, batch by batch.
pub open spec fn all_penalties(batches: Map<BatchId, BatchView>, ids: Seq<BatchId>) -> Seq<
    PeerReport,
>
    decreases ids.len(),
{
    if ids.len() == 0 {
        Seq::empty()
    } else {
        all_penalties(batches, ids.drop_last()) + penalties(batches[ids.last()])
    }
}

/// The requests without those of the batches of these ids.
pub open spec fn without_downloads(
    requests: Map<PeerId, Set<BatchId>>,
    batches: Map<BatchId, BatchView>,
    ids: Seq<BatchId>,
) -> Map<PeerId, Set<BatchId>> {
    requests.map_entries(
        |peer: PeerId, asked: Set<BatchId>|
            asked.filter(
                |id: BatchId| !(ids.contains(id) && batches[id].is_downloading_from(peer)),
            ),
    )
}

/// The batch that is being processed, unless one of these ids is being processed and does not lie
/// below it.
pub open spec fn without_processing(
    current: Option<BatchId>,
    batches: Map<BatchId, BatchView>,
    ids: Seq<BatchId>,
) -> Option<BatchId> {
    if current is Some && exists|i: int|
        0 <= i < ids.len() && current->0 <= ids[i] && (#[trigger] batches[ids[i]]).state
            is Processing {
        None
    } else {
        current
    }
}

/// The batches with a change made to those of these ids.
pub open spec fn with_each(
    batches: Map<BatchId, BatchView>,
    ids: Seq<BatchId>,
    change: spec_fn(BatchView) -> BatchView,
) -> Map<BatchId, BatchView> {
    batches.map_entries(
        |id: BatchId, batch: BatchView|
            if ids.contains(id) {
                change(batch)
            } else {
                batch
            },
    )
}

/// A count raised by `n`, or the greatest number there is.
pub open spec fn raised(count: u64, n: nat) -> u64 {
    if count + n > u64::MAX {
        u64::MAX
    } else {
        (count + n) as u64
    }
}

/// The reports of peers that took part in a sync that failed.
pub open spec fn failure_reports(peers: Seq<PeerId>, action: PeerAction) -> Seq<PeerReport> {
    peers.map_values(|peer: PeerId| PeerReport { peer, action, reason: ReportReason::BatchFailed })
}

/// The error of processing a batch that is not there.
pub open spec fn nothing_to_process(id: BatchId) -> ErrorView {
    ErrorView::InvalidSyncState(
        "Trying to process a batch that does not exist: "@ + decimal(id as nat),
    )
}

/// The error of a batch to be processed next that is not there.
pub open spec fn missing_batch(id: BatchId) -> ErrorView {
    ErrorView::InvalidSyncState(
        "Batch not found for current processing target "@ + decimal(id as nat),
    )
}

/// The error of a result for a batch that is not there.
pub open spec fn missing_processed_batch(id: BatchId) -> ErrorView {
    ErrorView::InvalidSyncState("Current processing batch not found: "@ + decimal(id as nat))
}

/// The error of a batch that is next to be processed, and that nothing is being done about.
pub open spec fn unexpected_state() -> ErrorView {
    ErrorView::InvalidSyncState("Invalid expected batch state"@)
}

impl SyncView {
    /// The sync of a chain whose store tells `anchor`.
    pub open spec fn initial(
        anchor: Option<AnchorInfo>,
        genesis_backfill_slot: Slot,
        slots_per_epoch: u64,
    ) -> SyncView {
        let (state, start) = match anchor {
            None => (BackFillState::NotRequired, 0u64),
            Some(info) => if info.block_backfill_complete {
                (BackFillState::Completed, 0u64)
            } else {
                (BackFillState::Paused, info.oldest_block_slot / slots_per_epoch)
            },
        };
        SyncView {
            state,
            current_start: start,
            processing_target: start,
            to_be_downloaded: start,
            last_batch_downloaded: false,
            batches: Map::empty(),
            active_requests: Map::empty(),
            current_processing_batch: None,
            validated_batches: 0,
            participating_peers: Set::empty(),
            restart_failed_sync: false,
            genesis_backfill_slot,
            slots_per_epoch,
            work: WorkView::none(Outcome::Handled),
            waiting: Waiting::Nothing,
        }
    }

    /// Whether backfill would complete by syncing to `start_epoch`.
    pub open spec fn would_complete(self, start_epoch: Epoch) -> bool {
        start_epoch <= self.genesis_backfill_slot / self.slots_per_epoch
    }

    /// How far the sync has come.
    pub open spec fn progress(self) -> SyncStart {
        SyncStart::Syncing {
            completed: (self.validated_batches * BACKFILL_EPOCHS_PER_BATCH
                * self.slots_per_epoch) as usize,
            remaining: capped_product(
                self.current_start,
                self.slots_per_epoch,
            ).saturating_sub(self.genesis_backfill_slot) as usize,
        }
    }

    /// Whether the number of slots that have been processed is within the range of numbers.
    pub open spec fn has_progress_in_range(self) -> bool {
        self.validated_batches * self.slots_per_epoch <= u64::MAX
    }

    /// The sync in another state.
    pub open spec fn in_state(self, state: BackFillState) -> SyncView {
        SyncView { state, ..self }
    }

    /// The sync with one batch replaced.
    pub open spec fn with_batch(self, id: BatchId, batch: BatchView) -> SyncView {
        SyncView { batches: self.batches.insert(id, batch), ..self }
    }

    /// The sync at the begin of a call.
    pub open spec fn begun(self, outcome: Outcome) -> SyncView {
        SyncView { work: WorkView::none(outcome), waiting: Waiting::Nothing, ..self }
    }

    /// The sync with batches to be downloaded again before all else.
    pub open spec fn with_retries(self, retries: Seq<BatchId>) -> SyncView {
        SyncView { work: WorkView { retries, ..self.work }, ..self }
    }

    /// The sync with new batches to be requested, and the next one to be processed.
    pub open spec fn with_progress_due(self) -> SyncView {
        SyncView { work: WorkView { request: true, process: true, ..self.work }, ..self }
    }

    /// The sync after it has failed: all that was under way is dropped, and the targets are back
    /// at the epoch from which on the chain is validated.
    pub open spec fn failed(self) -> SyncView {
        SyncView {
            state: BackFillState::Failed,
            batches: Map::empty(),
            active_requests: Map::empty(),
            participating_peers: Set::empty(),
            restart_failed_sync: false,
            processing_target: self.current_start,
            to_be_downloaded: self.current_start,
            last_batch_downloaded: false,
            current_processing_batch: None,
            ..self
        }
    }

    /// The sync fails with an error.
    pub open spec fn fail(self, error: ErrorView) -> (SyncView, Flow) {
        (self.failed(), Flow::Stop(Err(error)))
    }

    /// The end of a call.
    pub open spec fn finish(self, result: Result<Outcome, ErrorView>) -> (SyncView, StepView) {
        (self.begun(Outcome::Handled), StepView::Done(result))
    }

    /// The next step of a call.
    pub open spec fn settle(at: (SyncView, Flow), pool: Seq<PeerId>) -> (SyncView, StepView) {
        match at.1 {
            Flow::Proceed => at.0.proceed(pool),
            Flow::Stop(result) => at.0.finish(result),
        }
    }

    /// Asks the peer for the blocks of a batch; with this, it participates in the sync.
    pub open spec fn send_batch(self, id: BatchId, peer: PeerId) -> (SyncView, StepView) {
        (
            SyncView {
                participating_peers: self.participating_peers.insert(peer),
                waiting: Waiting::Request { batch_id: id, peer },
                ..self
            },
            StepView::RequestBlocks {
                peer,
                batch_id: id,
                request: self.batches[id].request(),
                batch_type: self.batches[id].batch_type,
            },
        )
    }

    /// Sends the request of a batch awaiting download to the best peer there is. Without any peer,
    /// the sync is paused.
    pub open spec fn retry_batch_download(self, pool: Seq<PeerId>, id: BatchId) -> (
        SyncView,
        StepView,
    ) {
        match best_peer(self.batches[id], self.active_requests, pool) {
            Some(peer) => self.send_batch(id, peer),
            None => self.in_state(BackFillState::Paused).finish(Err(ErrorView::Paused)),
        }
    }

    /// Finds the next batch that is to be requested: the first one, going back from
    /// `to_be_downloaded`, that is not there yet. There is none once the final batch has been
    /// requested, nor while the buffer is full.
    pub open spec fn next_batch(self) -> (SyncView, Option<BatchId>)
        decreases self.to_be_downloaded,
    {
        let id = self.to_be_downloaded;
        if self.last_batch_downloaded || buffered(self.batches) >= BACKFILL_BATCH_BUFFER_SIZE {
            (self, None)
        } else if !self.batches.contains_key(id) {
            (self, Some(id))
        } else if id == 0 {
            (self.past(id), None)
        } else {
            self.past(id).next_batch()
        }
    }

    /// The sync once batch `id` has been dealt with.
    pub open spec fn past(self, id: BatchId) -> SyncView {
        SyncView {
            last_batch_downloaded: self.last_batch_downloaded || self.would_complete(id),
            to_be_downloaded: id.saturating_sub(BACKFILL_EPOCHS_PER_BATCH),
            ..self
        }
    }

    /// Takes a new batch in.
    pub open spec fn included(self, id: BatchId, batch_type: BatchType) -> SyncView {
        self.with_batch(
            id,
            BatchView::fresh(id, BACKFILL_EPOCHS_PER_BATCH, self.slots_per_epoch, batch_type),
        ).past(id)
    }

    /// The sync that has begun to process the batch, which awaits it.
    pub open spec fn processing(self, id: BatchId) -> SyncView {
        SyncView {
            current_processing_batch: Some(id),
            waiting: Waiting::Segment { batch_id: id },
            ..self.with_batch(id, self.batches[id].started_processing())
        }
    }

    /// Processes the batch with the given id, if the sync is running and processes none: either
    /// its blocks are to be sent, or the call goes on. The batch must exist and be ready for
    /// processing.
    pub open spec fn process_batch(self, id: BatchId) -> (SyncView, Option<Seq<Block>>, Flow) {
        if self.state != BackFillState::Syncing || self.current_processing_batch is Some {
            (self, None, Flow::Proceed)
        } else if !self.batches.contains_key(id) {
            (self.failed(), None, Flow::Stop(Err(nothing_to_process(id))))
        } else {
            match self.batches[id].state {
                BatchStateView::AwaitingProcessing(_, blocks) => (
                    self.processing(id),
                    Some(blocks),
                    Flow::Proceed,
                ),
                _ => (
                    self.failed(),
                    None,
                    Flow::Stop(Err(ErrorView::BatchInvalidState(id, cannot_process()))),
                ),
            }
        }
    }

    /// The sync that moves its targets past a batch which is awaiting validation.
    pub open spec fn past_target(self) -> SyncView {
        let target = self.processing_target.saturating_sub(BACKFILL_EPOCHS_PER_BATCH);
        SyncView {
            processing_target: target,
            to_be_downloaded: if self.to_be_downloaded >= target {
                target.saturating_sub(BACKFILL_EPOCHS_PER_BATCH)
            } else {
                self.to_be_downloaded
            },
            work: WorkView { request: true, ..self.work },
            ..self
        }
    }

    /// Processes the next ready batch, if the sync is running and processes none: either its
    /// blocks are to be sent, or the call goes on.
    pub open spec fn process_completed_batches(self) -> (SyncView, Option<Seq<Block>>, Flow) {
        let target = self.processing_target;
        if self.state != BackFillState::Syncing || self.current_processing_batch is Some {
            (self, None, Flow::Proceed)
        } else if !self.batches.contains_key(target) {
            (self.failed(), None, Flow::Stop(Err(missing_batch(target))))
        } else {
            match self.batches[target].state {
                BatchStateView::AwaitingProcessing(_, _) => self.process_batch(target),
                BatchStateView::Downloading(_, _, _) => (self, None, Flow::Proceed),
                BatchStateView::AwaitingValidation(_) => (
                    self.past_target(),
                    None,
                    Flow::Proceed,
                ),
                BatchStateView::AwaitingDownload
                | BatchStateView::Processing(_)
                | BatchStateView::Failed => (
                    self.failed(),
                    None,
                    Flow::Stop(Err(unexpected_state())),
                ),
            }
        }
    }

    /// Does what is left of a call, up to the point where it needs something from outside, or ends.
    pub open spec fn proceed(self, pool: Seq<PeerId>) -> (SyncView, StepView)
        decreases
            (if self.work.process { 1int } else { 0int }),
            (if self.work.request { 1int } else { 0int }),
            self.work.idle.len(),
            self.work.retries.len(),
    {
        let work = self.work;
        if work.retries.len() > 0 {
            let id = work.retries[0];
            let rest = self.with_retries(work.retries.drop_first());
            if rest.batches.contains_key(id) {
                rest.retry_batch_download(pool, id)
            } else {
                rest.proceed(pool)
            }
        } else if work.idle.len() > 0 {
            match self.next_batch() {
                (next, Some(id)) => (
                    SyncView {
                        work: WorkView { idle: work.idle.drop_last(), ..work },
                        waiting: Waiting::BatchType { batch_id: id, peer: work.idle.last() },
                        ..next
                    },
                    StepView::BatchType { batch_id: id },
                ),
                (next, None) => SyncView {
                    work: WorkView { idle: Seq::empty(), ..work },
                    ..next
                }.proceed(pool),
            }
        } else if work.request {
            SyncView {
                work: WorkView {
                    idle: if self.state == BackFillState::Syncing {
                        idle_peers(pool, self.active_requests)
                    } else {
                        Seq::empty()
                    },
                    request: false,
                    ..work
                },
                ..self
            }.proceed(pool)
        } else if work.process {
            let rest = SyncView { work: WorkView { process: false, ..work }, ..self };
            match rest.process_completed_batches() {
                (next, Some(blocks), _) => (
                    next,
                    StepView::SendChainSegment { batch_id: self.processing_target, blocks },
                ),
                (next, None, Flow::Proceed) => next.proceed(pool),
                (next, None, Flow::Stop(result)) => next.finish(result),
            }
        } else {
            self.finish(Ok(work.outcome))
        }
    }

    /// The sync with a batch to be downloaded again before all else.
    pub open spec fn retrying(self, id: BatchId) -> (SyncView, Flow) {
        (self.with_retries(seq![id] + self.work.retries), Flow::Proceed)
    }

    /// What is done when it is known what the batch, which is about to be requested, is to ask for.
    pub open spec fn on_batch_type(self, batch_type: BatchType) -> (SyncView, StepView) {
        let id = self.waiting->BatchType_batch_id;
        self.included(id, batch_type).send_batch(id, self.waiting->BatchType_peer)
    }

    /// What is done when the batch has been requested: its download begins.
    pub open spec fn request_sent(self, request_id: Id) -> (SyncView, Flow) {
        let id = self.waiting->Request_batch_id;
        let peer = self.waiting->Request_peer;
        if !(self.batches[id].state is AwaitingDownload) {
            self.fail(ErrorView::BatchInvalidState(id, cannot_download()))
        } else {
            (
                SyncView {
                    active_requests: registered(self.active_requests, peer, id),
                    waiting: Waiting::Nothing,
                    ..self.with_batch(
                        id,
                        self.batches[id].started_downloading(peer, request_id),
                    )
                },
                Flow::Proceed,
            )
        }
    }

    /// What is done when the batch could not be requested: this counts as a failed download, and
    /// the batch is requested again if it can be.
    pub open spec fn request_failed(self) -> (SyncView, Flow) {
        let id = self.waiting->Request_batch_id;
        let peer = self.waiting->Request_peer;
        if !(self.batches[id].state is AwaitingDownload) {
            self.fail(ErrorView::BatchInvalidState(id, cannot_download()))
        } else {
            SyncView { waiting: Waiting::Nothing, ..self }.download_failed(id, peer)
        }
    }

    /// What is done when the download of a batch from a peer has failed: the batch is requested
    /// again if it can be.
    pub open spec fn download_failed(self, id: BatchId, peer: PeerId) -> (SyncView, Flow) {
        self.with_batch(id, self.batches[id].failed_downloading(peer)).without_download(id, peer)
    }

    /// What is done with a batch that is not to come from the peer any more: it is requested again
    /// if it can be.
    pub open spec fn without_download(self, id: BatchId, peer: PeerId) -> (SyncView, Flow) {
        let next = SyncView {
            active_requests: unregistered(self.active_requests, peer, id),
            ..self
        };
        if self.batches[id].state is Failed {
            next.fail(ErrorView::BatchDownloadFailed(id))
        } else {
            next.retrying(id)
        }
    }

    /// Removes the batches above the given `validating_epoch`, which are validated by it, and
    /// updates the current boundaries of the chain. Also gives the penalties for peers that had
    /// sent other versions of these batches.
    pub open spec fn advance_chain(self, validating_epoch: Epoch) -> (SyncView, Seq<PeerReport>) {
        if validating_epoch >= self.current_start {
            (self, Seq::empty())
        } else {
            let above = self.ids_above(validating_epoch);
            let kept = self.batches.remove_keys(above.to_set());
            let download = if self.to_be_downloaded <= validating_epoch {
                self.to_be_downloaded
            } else {
                validating_epoch
            };
            (
                SyncView {
                    current_start: validating_epoch,
                    processing_target: if self.processing_target <= validating_epoch {
                        self.processing_target
                    } else {
                        validating_epoch
                    },
                    to_be_downloaded: if kept.contains_key(download) {
                        download.saturating_sub(BACKFILL_EPOCHS_PER_BATCH)
                    } else {
                        download
                    },
                    batches: kept,
                    active_requests: without_downloads(
                        self.active_requests,
                        self.batches,
                        above,
                    ),
                    current_processing_batch: without_processing(
                        self.current_processing_batch,
                        self.batches,
                        above,
                    ),
                    validated_batches: raised(self.validated_batches, above.len()),
                    ..self
                },
                all_penalties(self.batches, above),
            )
        }
    }

    /// The ids of the batches above an epoch, in ascending order.
    pub open spec fn ids_above(self, epoch: Epoch) -> Seq<BatchId> {
        ids_of(self.batches).filter(|id: BatchId| id > epoch)
    }

    /// Whether the batch of this id, when it is found invalid, can be tried again.
    pub open spec fn can_revalidate(self, id: BatchId) -> bool {
        self.batches[id].state is AwaitingValidation && !(self.batches[id].failed_validation().state
            is Failed)
    }

    /// An invalid batch has been received that could not be processed, but that can be retried:
    /// that batch, and all batches above it, are requested again, if they all can be.
    pub open spec fn handle_invalid_batch(self, batch_id: BatchId) -> (SyncView, Flow) {
        let above = self.ids_above(batch_id);
        match first_not(above, |id: BatchId| self.can_revalidate(id)) {
            Some(id) => if self.batches[id].state is AwaitingValidation {
                self.fail(ErrorView::BatchProcessingFailed(batch_id))
            } else {
                self.fail(ErrorView::BatchInvalidState(batch_id, cannot_fail_validation()))
            },
            None => (
                SyncView {
                    batches: with_each(
                        self.batches,
                        above,
                        |batch: BatchView| batch.failed_validation(),
                    ),
                    processing_target: self.current_start,
                    work: WorkView { retries: above.push(batch_id), ..self.work },
                    ..self
                },
                Flow::Proceed,
            ),
        }
    }

    /// Whether the sync has reached its end, and the chain agrees.
    pub open spec fn check_completed(self, anchor: Option<AnchorInfo>) -> bool {
        &&& self.would_complete(self.current_start)
        &&& anchor is Some
        &&& anchor->0.block_backfill_complete
    }

    /// What is done with the result of the batch that is being processed. Also gives the penalties
    /// that follow from it.
    pub open spec fn processed(
        self,
        id: BatchId,
        result: BatchProcessResult,
        anchor: Option<AnchorInfo>,
    ) -> (SyncView, Seq<PeerReport>, Flow) {
        let batch = self.batches[id];
        let idle = SyncView { current_processing_batch: None, ..self };
        if !self.batches.contains_key(id) {
            (idle.failed(), Seq::empty(), Flow::Stop(Err(missing_processed_batch(id))))
        } else if batch.current_peer() is None {
            (
                idle.failed(),
                Seq::empty(),
                Flow::Stop(Err(ErrorView::BatchInvalidState(id, "Peer does not exist"@))),
            )
        } else if !(batch.state is Processing) {
            (
                idle.failed(),
                Seq::empty(),
                Flow::Stop(Err(ErrorView::BatchInvalidState(id, cannot_complete_processing()))),
            )
        } else {
            match result {
                BatchProcessResult::Success { was_non_empty } => idle.with_batch(
                    id,
                    batch.completed_processing(BatchProcessingResult::Success),
                ).processed_well(id, was_non_empty, anchor),
                BatchProcessResult::FaultyFailure { imported_blocks, penalty } => idle.with_batch(
                    id,
                    batch.completed_processing(BatchProcessingResult::FaultyFailure),
                ).processed_badly(id, imported_blocks, penalty),
                BatchProcessResult::NonFaultyFailure => {
                    let next = idle.with_batch(
                        id,
                        batch.completed_processing(BatchProcessingResult::NonFaultyFailure),
                    ).retrying(id);
                    (next.0, Seq::empty(), next.1)
                },
            }
        }
    }

    /// What is done after a batch was processed with success: if it was not empty, the batches
    /// above it are validated. Then the sync completes, or goes on.
    pub open spec fn processed_well(
        self,
        id: BatchId,
        was_non_empty: bool,
        anchor: Option<AnchorInfo>,
    ) -> (SyncView, Seq<PeerReport>, Flow) {
        let (advanced, reports) = if was_non_empty {
            self.advance_chain(id)
        } else {
            (self, Seq::empty())
        };
        let next = SyncView {
            processing_target: if id == advanced.processing_target {
                id.saturating_sub(BACKFILL_EPOCHS_PER_BATCH)
            } else {
                advanced.processing_target
            },
            ..advanced
        };
        if next.check_completed(anchor) {
            (
                next.in_state(BackFillState::Completed),
                reports,
                Flow::Stop(Ok(Outcome::Processed(ProcessResult::SyncCompleted))),
            )
        } else {
            (next.with_progress_due(), reports, Flow::Proceed)
        }
    }

    /// What is done after the processing of a batch has failed through the fault of a peer: if the
    /// batch has used up its attempts, all peers that took part are reported, and the sync fails;
    /// else the batch is requested again, and so are those above it, unless blocks of the batch
    /// were imported, which validates them.
    pub open spec fn processed_badly(
        self,
        id: BatchId,
        imported_blocks: bool,
        penalty: PeerAction,
    ) -> (SyncView, Seq<PeerReport>, Flow) {
        if self.batches[id].state is Failed {
            (
                self.failed(),
                failure_reports(ascending(self.participating_peers), penalty),
                Flow::Stop(Err(ErrorView::BatchProcessingFailed(id))),
            )
        } else {
            let (advanced, reports) = if imported_blocks {
                self.advance_chain(id)
            } else {
                (self, Seq::empty())
            };
            let (next, flow) = advanced.handle_invalid_batch(id);
            (next, reports, flow)
        }
    }

    /// What is done with the result of processing a batch. Results of any but the batch that is
    /// being processed are ignored.
    pub open spec fn batch_processed(
        self,
        id: BatchId,
        result: BatchProcessResult,
        anchor: Option<AnchorInfo>,
    ) -> (SyncView, Seq<PeerReport>, Flow) {
        if self.current_processing_batch != Some(id) {
            (self, Seq::empty(), Flow::Stop(Ok(successful())))
        } else {
            self.processed(id, result, anchor)
        }
    }

    /// What is done about a request that came to nothing. Requests that no batch waits for are
    /// ignored.
    pub open spec fn error_injected(self, id: BatchId, peer: PeerId, request_id: Id) -> (
        SyncView,
        Flow,
    ) {
        if self.batches.contains_key(id) && self.batches[id].is_expecting(peer, request_id) {
            self.download_failed(id, peer)
        } else {
            (self, Flow::Stop(Ok(Outcome::Handled)))
        }
    }

    /// What is done with a block, or with the end of the blocks that a request was answered with.
    /// Answers that no batch waits for are ignored.
    pub open spec fn block_received(
        self,
        id: BatchId,
        peer: PeerId,
        request_id: Id,
        block: Option<Block>,
    ) -> (SyncView, Flow) {
        let batch = self.batches[id];
        if !(self.batches.contains_key(id) && batch.is_expecting(peer, request_id)) {
            (self, Flow::Stop(Ok(successful())))
        } else {
            match block {
                Some(block) => (
                    self.with_batch(id, batch.with_block(block)),
                    Flow::Stop(Ok(successful())),
                ),
                None => if batch.crossed_boundary() is Some {
                    self.download_failed(id, peer)
                } else {
                    (
                        SyncView {
                            active_requests: unregistered(self.active_requests, peer, id),
                            ..self.with_batch(id, batch.completed_downloading())
                        }.with_progress_due(),
                        Flow::Proceed,
                    )
                },
            }
        }
    }

    /// The batches that are to come from a peer, in ascending order.
    pub open spec fn asked_of(self, peer: PeerId) -> Seq<BatchId> {
        ids_of(self.batches).filter(|id: BatchId| is_requested(self.active_requests, peer, id))
    }

    /// Whether the batch of this id, when its download has failed, can be tried again.
    pub open spec fn can_redownload(self, id: BatchId) -> bool {
        self.batches[id].state is Downloading && !(self.batches[id].failed_downloading(
            self.batches[id].state->Downloading_0,
        ).state is Failed)
    }

    /// What is done when a peer has left: the batches that were to come from it are considered
    /// failed, and are requested again, if they all can be. A sync that has failed, or is not
    /// required, is not concerned.
    pub open spec fn peer_left(self, peer: PeerId) -> (SyncView, Flow) {
        let asked = self.asked_of(peer);
        if self.state == BackFillState::Failed || self.state == BackFillState::NotRequired {
            (self, Flow::Stop(Ok(Outcome::Handled)))
        } else {
            match first_not(asked, |id: BatchId| self.can_redownload(id)) {
                Some(id) => if self.batches[id].state is Downloading {
                    self.fail(ErrorView::BatchDownloadFailed(id))
                } else {
                    self.fail(ErrorView::BatchInvalidState(id, cannot_fail_download()))
                },
                None => (
                    SyncView {
                        batches: with_each(
                            self.batches,
                            asked,
                            |batch: BatchView|
                                batch.failed_downloading(batch.state->Downloading_0),
                        ),
                        active_requests: self.active_requests.remove(peer),
                        participating_peers: self.participating_peers.remove(peer),
                        ..self
                    }.with_retries(asked),
                    Flow::Proceed,
                ),
            }
        }
    }

    /// The batches that need to be downloaded again when the sync is resumed.
    pub open spec fn to_resume(self) -> Seq<BatchId> {
        ids_of(self.batches).filter(|id: BatchId| self.batches[id].state is AwaitingDownload)
    }

    /// What is done to start or resume the sync.
    pub open spec fn started(self, pool: Seq<PeerId>, anchor: Option<AnchorInfo>) -> (
        SyncView,
        Flow,
    ) {
        let not_syncing = Flow::Stop(Ok(Outcome::Started(SyncStart::NotSyncing)));
        match self.state {
            BackFillState::Syncing => (self, Flow::Stop(Ok(Outcome::Started(self.progress())))),
            BackFillState::Paused => if pool.len() > 0 {
                (
                    self.in_state(BackFillState::Syncing).begun(
                        Outcome::Started(self.progress()),
                    ).with_retries(self.to_resume()).with_progress_due(),
                    Flow::Proceed,
                )
            } else {
                (self, not_syncing)
            },
            BackFillState::Failed => if self.restart_failed_sync {
                match anchor {
                    None => (
                        self.in_state(BackFillState::NotRequired),
                        Flow::Stop(Err(ErrorView::InvalidSyncState("backfill not required"@))),
                    ),
                    Some(info) => if info.block_backfill_complete {
                        (
                            self.in_state(BackFillState::Completed),
                            Flow::Stop(Err(ErrorView::InvalidSyncState("chain completed"@))),
                        )
                    } else {
                        let reset = SyncView {
                            state: BackFillState::Syncing,
                            current_start: info.oldest_block_slot / self.slots_per_epoch,
                            ..self
                        }.begun(Outcome::Handled);
                        (
                            SyncView {
                                work: WorkView {
                                    request: true,
                                    outcome: Outcome::Started(reset.progress()),
                                    ..reset.work
                                },
                                ..reset
                            },
                            Flow::Proceed,
                        )
                    },
                }
            } else {
                (self, not_syncing)
            },
            BackFillState::Completed | BackFillState::NotRequired => (self, not_syncing),
        }
    }

    /// Whether an attempt to start the sync tells how far it has come, unless it fails.
    pub open spec fn is_startable(self, pool: Seq<PeerId>, anchor: Option<AnchorInfo>) -> bool {
        match self.state {
            BackFillState::Syncing => true,
            BackFillState::Paused => pool.len() > 0,
            BackFillState::Failed => self.restart_failed_sync && anchor is Some
                && !anchor->0.block_backfill_complete,
            BackFillState::Completed | BackFillState::NotRequired => false,
        }
    }

    /// A call of [`pause`](crate::backfill::BackFillSync::pause).
    pub open spec fn pause(self) -> SyncView {
        if self.state == BackFillState::Syncing {
            self.in_state(BackFillState::Paused)
        } else {
            self
        }
    }

    /// A call of
    /// [`fully_synced_peer_joined`](crate::backfill::BackFillSync::fully_synced_peer_joined).
    pub open spec fn fully_synced_peer_joined(self) -> SyncView {
        if self.state == BackFillState::Failed {
            SyncView { restart_failed_sync: true, ..self }
        } else {
            self
        }
    }

    /// A call of [`start`](crate::backfill::BackFillSync::start).
    pub open spec fn start(self, pool: Seq<PeerId>, anchor: Option<AnchorInfo>) -> (
        SyncView,
        StepView,
    ) {
        Self::settle(self.started(pool, anchor), pool)
    }

    /// A call of [`peer_disconnected`](crate::backfill::BackFillSync::peer_disconnected).
    pub open spec fn peer_disconnected(self, peer: PeerId, pool: Seq<PeerId>) -> (
        SyncView,
        StepView,
    ) {
        Self::settle(self.begun(Outcome::Handled).peer_left(peer), pool)
    }

    /// A call of [`inject_error`](crate::backfill::BackFillSync::inject_error).
    pub open spec fn inject_error(
        self,
        id: BatchId,
        peer: PeerId,
        request_id: Id,
        pool: Seq<PeerId>,
    ) -> (SyncView, StepView) {
        Self::settle(self.begun(Outcome::Handled).error_injected(id, peer, request_id), pool)
    }

    /// A call of [`on_block_response`](crate::backfill::BackFillSync::on_block_response).
    pub open spec fn on_block_response(
        self,
        id: BatchId,
        peer: PeerId,
        request_id: Id,
        block: Option<Block>,
        pool: Seq<PeerId>,
    ) -> (SyncView, StepView) {
        Self::settle(
            self.begun(successful()).block_received(id, peer, request_id, block),
            pool,
        )
    }

    /// A call of
    /// [`on_batch_process_result`](crate::backfill::BackFillSync::on_batch_process_result).
    pub open spec fn on_batch_process_result(
        self,
        id: BatchId,
        result: BatchProcessResult,
        anchor: Option<AnchorInfo>,
        pool: Seq<PeerId>,
    ) -> (SyncView, Seq<PeerReport>, StepView) {
        let (next, reports, flow) = self.begun(successful()).batch_processed(id, result, anchor);
        let (last, step) = Self::settle((next, flow), pool);
        (last, reports, step)
    }

    /// A call of [`on_request_sent`](crate::backfill::BackFillSync::on_request_sent).
    pub open spec fn on_request_sent(self, request_id: Id, pool: Seq<PeerId>) -> (
        SyncView,
        StepView,
    ) {
        Self::settle(self.request_sent(request_id), pool)
    }

    /// A call of [`on_request_failed`](crate::backfill::BackFillSync::on_request_failed).
    pub open spec fn on_request_failed(self, pool: Seq<PeerId>) -> (SyncView, StepView) {
        Self::settle(self.request_failed(), pool)
    }

    /// A call of [`on_segment_sent`](crate::backfill::BackFillSync::on_segment_sent).
    pub open spec fn on_segment_sent(self, pool: Seq<PeerId>) -> (SyncView, StepView) {
        SyncView { waiting: Waiting::Nothing, ..self }.proceed(pool)
    }

    /// A call of [`on_segment_rejected`](crate::backfill::BackFillSync::on_segment_rejected).
    pub open spec fn on_segment_rejected(self, pool: Seq<PeerId>) -> (SyncView, StepView) {
        let (next, _, flow) = SyncView { waiting: Waiting::Nothing, ..self }.batch_processed(
            self.waiting->Segment_batch_id,
            BatchProcessResult::NonFaultyFailure,
            None,
        );
        Self::settle((next, flow), pool)
    }
}

/// Looking for the next batch changes nothing but where to look next.
pub proof fn lemma_next_batch(s: SyncView)
    ensures
        s.next_batch().0 == (SyncView {
            last_batch_downloaded: s.next_batch().0.last_batch_downloaded,
            to_be_downloaded: s.next_batch().0.to_be_downloaded,
            ..s
        }),
        s.next_batch().1 matches Some(id) ==> {
            &&& id == s.next_batch().0.to_be_downloaded
            &&& !s.next_batch().0.last_batch_downloaded
            &&& !s.batches.contains_key(id)
            &&& id <= s.to_be_downloaded
            &&& buffered(s.batches) < BACKFILL_BATCH_BUFFER_SIZE
        },
    decreases s.to_be_downloaded,
{
    let id = s.to_be_downloaded;
    if !(s.last_batch_downloaded || buffered(s.batches) >= BACKFILL_BATCH_BUFFER_SIZE) && id != 0
        && s.batches.contains_key(id) {
        lemma_next_batch(s.past(id));
    }
}

/// Dropping the requests of batches, one batch further.
pub proof fn lemma_without_downloads_step(
    requests: Map<PeerId, Set<BatchId>>,
    batches: Map<BatchId, BatchView>,
    ids: Seq<BatchId>,
    i: int,
)
    requires
        0 <= i < ids.len(),
    ensures
        without_downloads(requests, batches, ids.take(i + 1)) == (match batches[ids[i]].state {
            BatchStateView::Downloading(peer, _, _) => unregistered(
                without_downloads(requests, batches, ids.take(i)),
                peer,
                ids[i],
            ),
            _ => without_downloads(requests, batches, ids.take(i)),
        }),
{
    let id = ids[i];
    let seen = ids.take(i);
    let next = ids.take(i + 1);
    assert(next =~= seen.push(id));
    assert forall|k: BatchId| next.contains(k) <==> seen.contains(k) || k == id by {
        if seen.contains(k) {
            let j = choose|j: int| 0 <= j < seen.len() && seen[j] == k;
            assert(next[j] == k);
        }
        assert(next[i] == id);
    }
    let before = without_downloads(requests, batches, seen);
    let after = without_downloads(requests, batches, next);
    match batches[id].state {
        BatchStateView::Downloading(peer, _, _) => {
            let one = unregistered(before, peer, id);
            assert forall|p: PeerId| requests.contains_key(p) implies #[trigger] after[p]
                == one[p] by {
                assert(after[p] =~= one[p]);
            }
            assert(after =~= one);
        },
        _ => {
            assert forall|p: PeerId| requests.contains_key(p) implies #[trigger] after[p]
                == before[p] by {
                assert(after[p] =~= before[p]);
            }
            assert(after =~= before);
        },
    }
}

/// Dropping no batches drops no requests.
pub proof fn lemma_without_downloads_none(
    requests: Map<PeerId, Set<BatchId>>,
    batches: Map<BatchId, BatchView>,
)
    ensures
        without_downloads(requests, batches, Seq::empty()) == requests,
{
    let after = without_downloads(requests, batches, Seq::empty());
    assert forall|p: PeerId| requests.contains_key(p) implies #[trigger] after[p]
        == requests[p] by {
        assert(after[p] =~= requests[p]);
    }
    assert(after =~= requests);
}

/// Dropping the batch that is being processed, one batch further.
pub proof fn lemma_without_processing_step(
    current: Option<BatchId>,
    batches: Map<BatchId, BatchView>,
    ids: Seq<BatchId>,
    i: int,
)
    requires
        0 <= i < ids.len(),
    ensures
        without_processing(current, batches, ids.take(i + 1)) == (match without_processing(
            current,
            batches,
            ids.take(i),
        ) {
            Some(c) if c <= ids[i] && batches[ids[i]].state is Processing => None,
            rest => rest,
        }),
{
    let seen = ids.take(i);
    let next = ids.take(i + 1);
    if current is Some {
        let c = current->0;
        if exists|j: int|
            0 <= j < seen.len() && c <= seen[j] && (#[trigger] batches[seen[j]]).state
                is Processing {
            let j = choose|j: int|
                0 <= j < seen.len() && c <= seen[j] && (#[trigger] batches[seen[j]]).state
                    is Processing;
            assert(next[j] == seen[j]);
            assert(batches[next[j]].state is Processing);
        } else if c <= ids[i] && batches[ids[i]].state is Processing {
            assert(batches[next[i]].state is Processing);
        } else {
            assert forall|j: int| 0 <= j < next.len() && c <= next[j] implies !((
            #[trigger] batches[next[j]]).state is Processing) by {
                if j < i {
                    assert(seen[j] == next[j]);
                    assert(!(batches[seen[j]].state is Processing));
                }
            }
        }
    }
}

/// Making a change to batches, one batch further.
pub proof fn lemma_with_each_step(
    batches: Map<BatchId, BatchView>,
    ids: Seq<BatchId>,
    change: spec_fn(BatchView) -> BatchView,
    i: int,
)
    requires
        is_ascending(ids),
        0 <= i < ids.len(),
        batches.contains_key(ids[i]),
    ensures
        with_each(batches, ids.take(i), change).contains_key(ids[i]),
        with_each(batches, ids.take(i), change)[ids[i]] == batches[ids[i]],
        with_each(batches, ids.take(i + 1), change) == with_each(
            batches,
            ids.take(i),
            change,
        ).insert(ids[i], change(batches[ids[i]])),
{
    let id = ids[i];
    let seen = ids.take(i);
    let next = ids.take(i + 1);
    assert(!seen.contains(id));
    assert forall|k: BatchId| next.contains(k) <==> seen.contains(k) || k == id by {
        if seen.contains(k) {
            let j = choose|j: int| 0 <= j < seen.len() && seen[j] == k;
            assert(next[j] == k);
        }
        assert(next[i] == id);
        if next.contains(k) && k != id {
            let j = choose|j: int| 0 <= j < next.len() && next[j] == k;
            assert(seen[j] == k);
        }
    }
    assert(with_each(batches, next, change) =~= with_each(batches, seen, change).insert(
        id,
        change(batches[id]),
    ));
}

/// Making a change to no batches.
pub proof fn lemma_with_each_none(
    batches: Map<BatchId, BatchView>,
    change: spec_fn(BatchView) -> BatchView,
)
    ensures
        with_each(batches, Seq::empty(), change) == batches,
{
    assert(with_each(batches, Seq::empty(), change) =~= batches);
}

/// What is known of the ids above an epoch.
pub proof fn lemma_ids_above(s: SyncView, epoch: Epoch)
    requires
        s.batches.dom().finite(),
    ensures
        is_ascending(s.ids_above(epoch)),
        forall|id: BatchId| #[trigger]
            s.ids_above(epoch).contains(id) <==> s.batches.contains_key(id) && id > epoch,
{
    lemma_ids_of(s.batches);
    lemma_filter_ascending(ids_of(s.batches), |id: BatchId| id > epoch);
}

/// What is known of the ids of batches.
pub proof fn lemma_ids_of(batches: Map<BatchId, BatchView>)
    requires
        batches.dom().finite(),
    ensures
        is_ascending(ids_of(batches)),
        forall|id: BatchId| #[trigger]
            ids_of(batches).contains(id) <==> batches.contains_key(id),
{
    lemma_ascending_of_finite(batches.dom());
    assert forall|id: BatchId| #[trigger] ids_of(batches).contains(id) <==> batches.contains_key(
        id,
    ) by {
        assert(ids_of(batches).to_set().contains(id) <==> batches.dom().contains(id));
    }
}

} // verus!
