//! The sync of a chain backwards from the epoch it was started at.
//!
//! A call of [`BackFillSync`] returns a [`Step`]. Unless this is the end of the call, the sync then
//! waits for the reply to it, and takes no other call before. The replies to a
//! [`Step::RequestBlocks`] and a [`Step::SendChainSegment`] take the peers that are synced by then.
use std::collections::BTreeSet;

use vstd::prelude::*;
use vstd::std_specs::iter::IteratorSpec;

use crate::always::{
    lemma_batch_processed, lemma_begun, lemma_block_received, lemma_download_failed,
    lemma_error_injected, lemma_initial, lemma_on_batch_type, lemma_peer_left, lemma_proceed,
    lemma_request_sent, lemma_settle, lemma_started,
};
use crate::batch::{
    saturating_product, Attempt, BatchInfo, BatchOperationOutcome, BatchProcessingResult,
    BatchState, BatchStateView, BatchView, Block,
};
use crate::batches::Batches;
use crate::gapless::{
    lemma_batch_processed_gapless, lemma_block_received_gapless, lemma_download_failed_gapless,
    lemma_error_injected_gapless, lemma_initial_gapless, lemma_on_batch_type_gapless,
    lemma_peer_left_gapless, lemma_proceed_gapless, lemma_request_sent_gapless,
    lemma_settle_gapless, lemma_started_gapless,
};
use crate::model::{
    all_penalties, failure_reports, lemma_next_batch, lemma_with_each_none, lemma_with_each_step,
    lemma_without_downloads_none, lemma_without_downloads_step, lemma_without_processing_step,
    penalties, penalty, raised, successful, with_each, without_downloads, without_processing, Flow,
    SyncView, Waiting, WorkView, BACKFILL_BATCH_BUFFER_SIZE,
};
use crate::order::{
    ascending, is_ascending, lemma_ascending_is, lemma_filter_step, lemma_first_not,
    lemma_first_not_none, lemma_increasing_refs_ascend,
};
use crate::peers::{idle_peers, PeerPool};
use crate::requests::{is_requested, unregistered, ActiveRequests};
use crate::text::numbered;
use crate::types::{
    AnchorInfo, BackFillError, BackFillState, BatchId, BatchProcessResult, BatchType, Epoch,
    Id, Outcome, PeerAction, PeerId, PeerReport, ProcessResult, ReportReason,
    ResetEpochError, Slot, Step, SyncStart, BACKFILL_EPOCHS_PER_BATCH,
};

verus! {

/// What is left to do of a call, in this order.
#[derive(Debug)]
struct Work {
    /// Batches to be downloaded again, the next one first.
    retries: Vec<BatchId>,
    /// Idle peers to ask for new batches, the next one last.
    idle: Vec<PeerId>,
    /// Whether idle peers are to be looked for.
    request: bool,
    /// Whether the next batch is to be processed.
    process: bool,
    /// What the call comes to in the end.
    outcome: Outcome,
}

impl View for Work {
    type V = WorkView;

    closed spec fn view(&self) -> WorkView {
        WorkView {
            retries: self.retries@,
            idle: self.idle@,
            request: self.request,
            process: self.process,
            outcome: self.outcome,
        }
    }
}

impl Work {
    fn none(outcome: Outcome) -> (work: Work)
        ensures
            work@ == WorkView::none(outcome),
    {
        let work = Work {
            retries: Vec::new(),
            idle: Vec::new(),
            request: false,
            process: false,
            outcome,
        };
        assert(work@ =~= WorkView::none(outcome));
        work
    }
}

/// How a call goes on.
#[derive(Debug)]
enum Next {
    /// It proceeds with the work that is left.
    Proceed,
    /// It has come to its end.
    Stop(Result<Outcome, BackFillError>),
}

impl View for Next {
    type V = Flow;

    closed spec fn view(&self) -> Flow {
        match self {
            Next::Proceed => Flow::Proceed,
            Next::Stop(Ok(outcome)) => Flow::Stop(Ok(*outcome)),
            Next::Stop(Err(error)) => Flow::Stop(Err(error@)),
        }
    }
}

/// The backfill sync.
#[derive(Debug)]
pub struct BackFillSync {
    /// Whether the sync is running.
    state: BackFillState,
    /// Keeps track of the current progress of the backfill.
    /// This only gets refreshed from the beacon chain if we enter a failed state.
    current_start: BatchId,
    /// Starting epoch of the batch that needs to be processed next.
    processing_target: BatchId,
    /// Starting epoch of the next batch that needs to be downloaded.
    to_be_downloaded: BatchId,
    /// Keeps track if we have requested the final batch.
    last_batch_downloaded: bool,
    /// Sorted map of batches undergoing some kind of processing.
    batches: Batches,
    /// List of peers we are currently awaiting a response for.
    active_requests: ActiveRequests,
    /// The current processing batch, if any.
    current_processing_batch: Option<BatchId>,
    /// Batches validated by this chain.
    validated_batches: u64,
    /// We keep track of peers that are participating in the backfill sync, and only penalize these
    /// peers if backfill sync fails.
    participating_peers: BTreeSet<PeerId>,
    /// When a backfill sync fails, we keep track of whether a new fully synced peer has joined.
    /// This signifies that we are able to attempt to restart a failed chain.
    restart_failed_sync: bool,
    /// The slot at which the sync is complete.
    genesis_backfill_slot: Slot,
    /// The length of an epoch.
    slots_per_epoch: u64,
    /// What is left of the call that is under way.
    work: Work,
    /// What that call needs from outside.
    waiting: Waiting,
}

impl View for BackFillSync {
    type V = SyncView;

    closed spec fn view(&self) -> SyncView {
        SyncView {
            state: self.state,
            current_start: self.current_start,
            processing_target: self.processing_target,
            to_be_downloaded: self.to_be_downloaded,
            last_batch_downloaded: self.last_batch_downloaded,
            batches: self.batches@,
            active_requests: self.active_requests@,
            current_processing_batch: self.current_processing_batch,
            validated_batches: self.validated_batches,
            participating_peers: self.participating_peers@,
            restart_failed_sync: self.restart_failed_sync,
            genesis_backfill_slot: self.genesis_backfill_slot,
            slots_per_epoch: self.slots_per_epoch,
            work: self.work@,
            waiting: self.waiting,
        }
    }
}

impl BackFillSync {
    /// The sync of a chain, whose store tells `anchor`, down to `genesis_backfill_slot`.
    ///
    /// If the store has no anchor, then backfill is not required for this running instance.
    /// If, for some reason, a backfill has already been completed (or we've used a trusted
    /// genesis root) then backfill has been completed.
    pub fn new(anchor: Option<AnchorInfo>, genesis_backfill_slot: Slot, slots_per_epoch: u64)
        -> (bfs: Self)
        requires
            slots_per_epoch > 0,
        ensures
            bfs@ == SyncView::initial(anchor, genesis_backfill_slot, slots_per_epoch),
            bfs@.inv(),
            bfs@.is_idle(),
    {
        let (state, current_start): (BackFillState, Epoch) = match anchor {
            Some(anchor_info) => {
                if anchor_info.block_backfill_complete {
                    (BackFillState::Completed, 0)
                } else {
                    (BackFillState::Paused, anchor_info.oldest_block_slot / slots_per_epoch)
                }
            },
            None => (BackFillState::NotRequired, 0),
        };
        let bfs = BackFillSync {
            state,
            current_start,
            processing_target: current_start,
            to_be_downloaded: current_start,
            last_batch_downloaded: false,
            batches: Batches::new(),
            active_requests: ActiveRequests::new(),
            current_processing_batch: None,
            validated_batches: 0,
            participating_peers: BTreeSet::new(),
            restart_failed_sync: false,
            genesis_backfill_slot,
            slots_per_epoch,
            work: Work::none(Outcome::Handled),
            waiting: Waiting::Nothing,
        };
        proof {
            assert(bfs@ =~= SyncView::initial(anchor, genesis_backfill_slot, slots_per_epoch));
            lemma_initial(anchor, genesis_backfill_slot, slots_per_epoch);
            lemma_initial_gapless(anchor, genesis_backfill_slot, slots_per_epoch);
        }
        bfs
    }

    /// Pauses the backfill sync if it's currently syncing.
    pub fn pause(&mut self)
        requires
            old(self)@.inv(),
            old(self)@.is_idle(),
        ensures
            final(self)@ == old(self)@.pause(),
            final(self)@.inv(),
            final(self)@.is_idle(),
    {
        if self.state == BackFillState::Syncing {
            self.state = BackFillState::Paused;
            assert(self@ =~= old(self)@.in_state(BackFillState::Paused));
        }
    }

    /// Starts or resumes syncing.
    ///
    /// If resuming is successful, reports back the current syncing metrics.
    #[must_use]
    pub fn start(&mut self, pool: &PeerPool, anchor: Option<AnchorInfo>) -> (step: Step)
        requires
            old(self)@.inv(),
            old(self)@.is_idle(),
            old(self)@.is_startable(pool@, anchor) ==> old(self)@.has_progress_in_range(),
        ensures
            (final(self)@, step@) == old(self)@.start(pool@, anchor),
            final(self)@.inv(),
            final(self)@.awaits(step@),
    {
        proof {
            lemma_started(self@, pool@, anchor);
            lemma_settle(self@.started(pool@, anchor), pool@);
            lemma_started_gapless(self@, pool@, anchor);
            lemma_settle_gapless(self@.started(pool@, anchor), pool@);
        }
        let next = self.started(pool, anchor);
        self.settle(next, pool)
    }

    /// A fully synced peer has joined us.
    /// If we are in a failed state, update a local variable to indicate we are able to restart
    /// the failed sync on the next attempt.
    pub fn fully_synced_peer_joined(&mut self)
        requires
            old(self)@.inv(),
            old(self)@.is_idle(),
        ensures
            final(self)@ == old(self)@.fully_synced_peer_joined(),
            final(self)@.inv(),
            final(self)@.is_idle(),
    {
        if self.state == BackFillState::Failed {
            self.restart_failed_sync = true;
            assert(self@ =~= old(self)@.fully_synced_peer_joined());
        }
    }

    /// A peer has disconnected.
    /// If the peer has active batches, those are considered failed and re-requested.
    ///
    /// As with any batch that is requested again, the sync pauses if no peer is synced, and fails
    /// if a batch has used up its attempts; so does one that is complete, if a batch was still to
    /// come from the peer.
    #[must_use]
    pub fn peer_disconnected(&mut self, pool: &PeerPool, peer_id: PeerId) -> (step: Step)
        requires
            old(self)@.inv(),
            old(self)@.is_idle(),
        ensures
            (final(self)@, step@) == old(self)@.peer_disconnected(peer_id, pool@),
            final(self)@.inv(),
            final(self)@.awaits(step@),
    {
        self.begin(Outcome::Handled);
        proof {
            lemma_begun(old(self)@, Outcome::Handled);
            lemma_peer_left(self@, peer_id);
            lemma_settle(self@.peer_left(peer_id), pool@);
            lemma_peer_left_gapless(self@, peer_id);
            lemma_settle_gapless(self@.peer_left(peer_id), pool@);
        }
        let next = self.peer_left(peer_id);
        self.settle(next, pool)
    }

    /// An RPC error has occurred.
    ///
    /// If the batch exists it is re-requested.
    #[must_use]
    pub fn inject_error(
        &mut self,
        pool: &PeerPool,
        batch_id: BatchId,
        peer_id: PeerId,
        request_id: Id,
    ) -> (step: Step)
        requires
            old(self)@.inv(),
            old(self)@.is_idle(),
        ensures
            (final(self)@, step@) == old(self)@.inject_error(batch_id, peer_id, request_id, pool@),
            final(self)@.inv(),
            final(self)@.awaits(step@),
    {
        self.begin(Outcome::Handled);
        proof {
            lemma_begun(old(self)@, Outcome::Handled);
            lemma_error_injected(self@, batch_id, peer_id, request_id);
            lemma_settle(self@.error_injected(batch_id, peer_id, request_id), pool@);
            lemma_error_injected_gapless(self@, batch_id, peer_id, request_id);
            lemma_settle_gapless(self@.error_injected(batch_id, peer_id, request_id), pool@);
        }
        let next = self.error_injected(batch_id, peer_id, request_id);
        self.settle(next, pool)
    }

    /// A block has been received for a batch relating to this backfilling chain.
    /// If the block correctly completes the batch it will be processed if possible.
    /// If this comes to an error, the backfill sync has failed and will be restarted once new
    /// peers join the system; but [`BackFillError::Paused`] says that it has paused for want of a
    /// synced peer, and can be resumed.
    #[must_use]
    pub fn on_block_response(
        &mut self,
        pool: &PeerPool,
        batch_id: BatchId,
        peer_id: PeerId,
        request_id: Id,
        beacon_block: Option<Block>,
    ) -> (step: Step)
        requires
            old(self)@.inv(),
            old(self)@.is_idle(),
        ensures
            (final(self)@, step@) == old(self)@.on_block_response(
                batch_id,
                peer_id,
                request_id,
                beacon_block,
                pool@,
            ),
            final(self)@.inv(),
            final(self)@.awaits(step@),
    {
        self.begin(Outcome::Processed(ProcessResult::Successful));
        proof {
            lemma_begun(old(self)@, successful());
            lemma_block_received(self@, batch_id, peer_id, request_id, beacon_block);
            lemma_block_received_gapless(self@, batch_id, peer_id, request_id, beacon_block);
            let at = self@.block_received(batch_id, peer_id, request_id, beacon_block);
            lemma_settle(at, pool@);
            lemma_settle_gapless(at, pool@);
        }
        let next = self.block_received(batch_id, peer_id, request_id, beacon_block);
        self.settle(next, pool)
    }

    /// The block processor has completed processing a batch. This function handles the result
    /// of the batch processor, and returns the penalties that follow from it.
    /// If it comes to an error the BackFill sync has failed; but [`BackFillError::Paused`] says
    /// that it has paused for want of a synced peer, and can be resumed.
    #[must_use]
    pub fn on_batch_process_result(
        &mut self,
        pool: &PeerPool,
        batch_id: BatchId,
        result: BatchProcessResult,
        anchor: Option<AnchorInfo>,
    ) -> (handled: (Vec<PeerReport>, Step))
        requires
            old(self)@.inv(),
            old(self)@.is_idle(),
        ensures
            (final(self)@, handled.0@, handled.1@) == old(self)@.on_batch_process_result(
                batch_id,
                result,
                anchor,
                pool@,
            ),
            final(self)@.inv(),
            final(self)@.awaits(handled.1@),
    {
        self.begin(Outcome::Processed(ProcessResult::Successful));
        proof {
            lemma_begun(old(self)@, successful());
            lemma_batch_processed(self@, batch_id, result, anchor);
            lemma_batch_processed_gapless(self@, batch_id, result, anchor);
            let (t, _, flow) = self@.batch_processed(batch_id, result, anchor);
            lemma_settle((t, flow), pool@);
            lemma_settle_gapless((t, flow), pool@);
        }
        let (reports, next) = self.batch_processed(batch_id, result, anchor);
        let step = self.settle(next, pool);
        (reports, step)
    }

    /// Takes the reply to [`Step::BatchType`]: what the new batch is to ask for.
    #[must_use]
    pub fn on_batch_type(&mut self, batch_type: BatchType) -> (step: Step)
        requires
            old(self)@.inv(),
            old(self)@.waiting is BatchType,
        ensures
            (final(self)@, step@) == old(self)@.on_batch_type(batch_type),
            final(self)@.inv(),
            final(self)@.awaits(step@),
    {
        proof {
            lemma_on_batch_type(self@, batch_type);
            lemma_on_batch_type_gapless(self@, batch_type);
        }
        match self.waiting {
            Waiting::BatchType { batch_id, peer } => {
                self.include_batch(batch_id, batch_type);
                self.send_batch(batch_id, peer)
            },
            _ => Step::Done(Ok(Outcome::Handled)),
        }
    }

    /// Takes the reply to [`Step::RequestBlocks`] that the request was sent: its id.
    #[must_use]
    pub fn on_request_sent(&mut self, pool: &PeerPool, request_id: Id) -> (step: Step)
        requires
            old(self)@.inv(),
            old(self)@.waiting is Request,
        ensures
            (final(self)@, step@) == old(self)@.on_request_sent(request_id, pool@),
            final(self)@.inv(),
            final(self)@.awaits(step@),
    {
        proof {
            lemma_request_sent(self@, request_id);
            lemma_settle(self@.request_sent(request_id), pool@);
            lemma_request_sent_gapless(self@, request_id);
            lemma_settle_gapless(self@.request_sent(request_id), pool@);
        }
        let next = self.request_sent(request_id);
        self.settle(next, pool)
    }

    /// Takes the reply to [`Step::RequestBlocks`] that the request could not be sent.
    #[must_use]
    pub fn on_request_failed(&mut self, pool: &PeerPool) -> (step: Step)
        requires
            old(self)@.inv(),
            old(self)@.waiting is Request,
        ensures
            (final(self)@, step@) == old(self)@.on_request_failed(pool@),
            final(self)@.inv(),
            final(self)@.awaits(step@),
    {
        proof {
            lemma_download_failed(
                self@,
                self@.waiting->Request_batch_id,
                self@.waiting->Request_peer,
            );
            lemma_settle(self@.request_failed(), pool@);
            lemma_download_failed_gapless(
                SyncView { waiting: Waiting::Nothing, ..self@ },
                self@.waiting->Request_batch_id,
                self@.waiting->Request_peer,
            );
            lemma_settle_gapless(self@.request_failed(), pool@);
        }
        let next = self.request_failed();
        self.settle(next, pool)
    }

    /// Takes the reply to [`Step::SendChainSegment`] that the block processor took the blocks.
    #[must_use]
    pub fn on_segment_sent(&mut self, pool: &PeerPool) -> (step: Step)
        requires
            old(self)@.inv(),
            old(self)@.waiting is Segment,
        ensures
            (final(self)@, step@) == old(self)@.on_segment_sent(pool@),
            final(self)@.inv(),
            final(self)@.awaits(step@),
    {
        self.waiting = Waiting::Nothing;
        proof {
            assert(self@ =~= SyncView { waiting: Waiting::Nothing, ..old(self)@ });
            lemma_proceed(self@, pool@);
            lemma_proceed_gapless(self@, pool@);
        }
        self.proceed(pool)
    }

    /// Takes the reply to [`Step::SendChainSegment`] that the block processor did not take the
    /// blocks.
    ///
    /// This is unlikely to happen but it would stall syncing since the batch now has no
    /// blocks to continue, and the chain is expecting a processing result that won't
    /// arrive. To mitigate this, (fake) fail this processing so that the batch is
    /// re-downloaded.
    #[must_use]
    pub fn on_segment_rejected(&mut self, pool: &PeerPool) -> (step: Step)
        requires
            old(self)@.inv(),
            old(self)@.waiting is Segment,
        ensures
            (final(self)@, step@) == old(self)@.on_segment_rejected(pool@),
            final(self)@.inv(),
            final(self)@.awaits(step@),
    {
        let batch_id: BatchId = match self.waiting {
            Waiting::Segment { batch_id } => batch_id,
            _ => 0,
        };
        self.waiting = Waiting::Nothing;
        proof {
            assert(self@ =~= SyncView { waiting: Waiting::Nothing, ..old(self)@ });
            let result = BatchProcessResult::NonFaultyFailure;
            lemma_batch_processed(self@, batch_id, result, None);
            lemma_batch_processed_gapless(self@, batch_id, result, None);
            let (t, _, flow) = self@.batch_processed(batch_id, result, None);
            lemma_settle((t, flow), pool@);
            lemma_settle_gapless((t, flow), pool@);
        }
        let (_, next) = self.batch_processed(batch_id, BatchProcessResult::NonFaultyFailure, None);
        self.settle(next, pool)
    }

    /// Whether an attempt to start the sync tells how far it has come, unless it fails.
    pub fn is_startable(&self, pool: &PeerPool, anchor: Option<AnchorInfo>) -> (startable: bool)
        ensures
            startable == self@.is_startable(pool@, anchor),
    {
        match self.state {
            BackFillState::Syncing => true,
            BackFillState::Paused => !pool.is_empty(),
            BackFillState::Failed => match anchor {
                Some(anchor_info) => {
                    self.restart_failed_sync && !anchor_info.block_backfill_complete
                },
                None => false,
            },
            BackFillState::Completed | BackFillState::NotRequired => false,
        }
    }

    /// Whether the number of slots that have been processed is within the range of numbers.
    pub fn has_progress_in_range(&self) -> (in_range: bool)
        ensures
            in_range == self@.has_progress_in_range(),
    {
        self.validated_batches.checked_mul(self.slots_per_epoch).is_some()
    }

    /// Whether the sync is running.
    pub fn state(&self) -> (state: BackFillState)
        ensures
            state == self@.state,
    {
        self.state
    }

    /// What the call that is under way needs from outside.
    pub fn waiting(&self) -> (waiting: Waiting)
        ensures
            waiting == self@.waiting,
    {
        self.waiting
    }

    /// The epoch from which on the chain is validated.
    pub fn current_start(&self) -> (epoch: Epoch)
        ensures
            epoch == self@.current_start,
    {
        self.current_start
    }

    /// The batch that needs to be processed next.
    pub fn processing_target(&self) -> (id: BatchId)
        ensures
            id == self@.processing_target,
    {
        self.processing_target
    }

    /// The number of batches that have been validated.
    pub fn validated_batches(&self) -> (count: u64)
        ensures
            count == self@.validated_batches,
    {
        self.validated_batches
    }

    /// The number of batches that are being worked on.
    pub fn batch_count(&self) -> (count: usize)
        ensures
            count == self@.batches.dom().len(),
    {
        self.batches.len()
    }

    /// The batch of this id, while it is being worked on.
    pub fn batch(&self, batch_id: BatchId) -> (batch: Option<&BatchInfo>)
        ensures
            match batch {
                Some(batch) => self@.batches.contains_key(batch_id) && batch@
                    == self@.batches[batch_id],
                None => !self@.batches.contains_key(batch_id),
            },
    {
        self.batches.get(batch_id)
    }

    /// Checks if backfill would complete by syncing to `start_epoch`.
    pub fn would_complete(&self, start_epoch: Epoch) -> (complete: bool)
        requires
            self@.slots_per_epoch > 0,
        ensures
            complete == self@.would_complete(start_epoch),
    {
        start_epoch <= self.genesis_backfill_slot / self.slots_per_epoch
    }

    /// The syncing process has failed.
    ///
    /// This resets past variables, to allow for a fresh start when resuming.
    fn fail_sync(&mut self, error: BackFillError) -> (result: Result<(), BackFillError>)
        ensures
            match result {
                Ok(()) => error@ is Paused && final(self)@ == old(self)@,
                Err(e) => !(error@ is Paused) && e@ == error@ && final(self)@
                    == old(self)@.failed(),
            },
    {
        // Some errors shouldn't fail the chain.
        if matches!(error, BackFillError::Paused) {
            return Ok(());
        }
        self.state = BackFillState::Failed;
        // Remove all batches and active requests and participating peers.
        self.batches.clear();
        self.active_requests.clear();
        self.participating_peers.clear();
        self.restart_failed_sync = false;
        // Reset all downloading and processing targets
        self.processing_target = self.current_start;
        self.to_be_downloaded = self.current_start;
        self.last_batch_downloaded = false;
        self.current_processing_batch = None;
        assert(self@ =~= old(self)@.failed());
        Err(error)
    }

    /// Ends the call with an error that fails the sync.
    fn fail(&mut self, error: BackFillError) -> (next: Next)
        requires
            !(error@ is Paused),
        ensures
            (final(self)@, next@) == old(self)@.fail(error@),
    {
        match self.fail_sync(error) {
            Ok(()) => Next::Proceed,
            Err(e) => Next::Stop(Err(e)),
        }
    }

    /// Ends the call.
    fn finish(&mut self, result: Result<Outcome, BackFillError>) -> (step: Step)
        ensures
            (final(self)@, step@) == old(self)@.finish(
                match result {
                    Ok(outcome) => Ok(outcome),
                    Err(e) => Err(e@),
                },
            ),
    {
        self.work = Work::none(Outcome::Handled);
        self.waiting = Waiting::Nothing;
        assert(self@ =~= old(self)@.begun(Outcome::Handled));
        Step::Done(result)
    }

    /// Begins a call.
    fn begin(&mut self, outcome: Outcome)
        ensures
            final(self)@ == old(self)@.begun(outcome),
    {
        self.work = Work::none(outcome);
        self.waiting = Waiting::Nothing;
        assert(self@ =~= old(self)@.begun(outcome));
    }

    /// Requests the batch assigned to the given id from a given peer.
    fn send_batch(&mut self, batch_id: BatchId, peer: PeerId) -> (step: Step)
        requires
            old(self)@.batches.contains_key(batch_id),
        ensures
            (final(self)@, step@) == old(self)@.send_batch(batch_id, peer),
    {
        match self.batches.get(batch_id) {
            Some(batch) => {
                let (request, batch_type) = batch.to_blocks_by_range_request();
                self.participating_peers.insert(peer);
                self.waiting = Waiting::Request { batch_id, peer };
                assert(self@ =~= old(self)@.send_batch(batch_id, peer).0);
                Step::RequestBlocks { peer, batch_id, request, batch_type }
            },
            None => Step::Done(Ok(Outcome::Handled)),
        }
    }

    /// Sends and registers the request of a batch awaiting download.
    fn retry_batch_download(&mut self, pool: &PeerPool, batch_id: BatchId) -> (step: Step)
        requires
            old(self)@.batches.contains_key(batch_id),
        ensures
            (final(self)@, step@) == old(self)@.retry_batch_download(pool@, batch_id),
    {
        // Find a peer to request the batch, prioritizing unrelated peers with less active requests.
        let new_peer = match self.batches.get(batch_id) {
            Some(batch) => pool.best(batch, &self.active_requests),
            None => None,
        };
        match new_peer {
            Some(peer) => {
                self.send_batch(batch_id, peer)
            },
            None => {
                // If we are here the chain has no more synced peers
                self.state = BackFillState::Paused;
                assert(self@ =~= old(self)@.in_state(BackFillState::Paused));
                self.finish(Err(BackFillError::Paused))
            },
        }
    }

    /// Marks a batch as dealt with.
    fn move_past(&mut self, batch_id: BatchId)
        requires
            old(self)@.slots_per_epoch > 0,
        ensures
            final(self)@ == old(self)@.past(batch_id),
    {
        if self.would_complete(batch_id) {
            self.last_batch_downloaded = true;
        }
        self.to_be_downloaded = batch_id.saturating_sub(BACKFILL_EPOCHS_PER_BATCH);
        assert(self@ =~= old(self)@.past(batch_id));
    }

    /// Finds the next required batch of the chain. If there are no more batches required, `None`
    /// is returned.
    fn next_batch(&mut self) -> (next: Option<BatchId>)
        requires
            old(self)@.slots_per_epoch > 0,
        ensures
            (final(self)@, next) == old(self)@.next_batch(),
        decreases old(self)@.to_be_downloaded,
    {
        // don't request batches beyond genesis
        if self.last_batch_downloaded {
            return None;
        }
        // only request batches up to the buffer size limit
        // NOTE: we don't count batches in the AwaitingValidation state, to prevent stalling sync
        // if the current processing window is contained in a long range of skip slots.
        if self.batches.buffered() >= BACKFILL_BATCH_BUFFER_SIZE as usize {
            return None;
        }
        let batch_id: BatchId = self.to_be_downloaded;
        if !self.batches.contains(batch_id) {
            return Some(batch_id);
        }
        // this batch doesn't need downloading, let this same function decide the next batch
        self.move_past(batch_id);
        if batch_id == 0 {
            return None;
        }
        self.next_batch()
    }

    /// Creates the batch that was found to be required next.
    fn include_batch(&mut self, batch_id: BatchId, batch_type: BatchType)
        requires
            old(self)@.slots_per_epoch > 0,
        ensures
            final(self)@ == old(self)@.included(batch_id, batch_type),
    {
        let batch = BatchInfo::new(
            batch_id,
            BACKFILL_EPOCHS_PER_BATCH,
            self.slots_per_epoch,
            batch_type,
        );
        self.batches.insert(batch_id, batch);
        assert(self@ =~= old(self)@.with_batch(batch_id, batch@));
        self.move_past(batch_id);
    }

    /// Processes the batch with the given id: either its blocks are to be sent, or the call goes
    /// on. The batch must exist and be ready for processing.
    fn process_batch(&mut self, batch_id: BatchId) -> (result: (Option<Vec<Block>>, Next))
        ensures
            ({
                let (next, blocks, flow) = old(self)@.process_batch(batch_id);
                &&& final(self)@ == next
                &&& (match result.0 {
                    Some(sent) => blocks == Some(sent@),
                    None => blocks is None,
                })
                &&& result.1@ == flow
            }),
    {
        // Only process batches if this chain is Syncing, and only one at a time
        if self.state != BackFillState::Syncing || self.current_processing_batch.is_some() {
            return (None, Next::Proceed);
        }
        let mut batch = match self.batches.remove(batch_id) {
            Some(batch) => batch,
            None => {
                assert(self@ =~= old(self)@);
                let message = numbered(
                    "Trying to process a batch that does not exist: ",
                    batch_id,
                );
                return (None, self.fail(BackFillError::InvalidSyncState(message)));
            },
        };
        // NOTE: We send empty batches to the processor in order to trigger the block processor
        // result callback. This is done, because an empty batch could end a chain and the logic
        // for removing chains and checking completion is in the callback.
        let started = batch.start_processing();
        self.batches.insert(batch_id, batch);
        match started {
            Ok(blocks) => {
                self.current_processing_batch = Some(batch_id);
                self.waiting = Waiting::Segment { batch_id };
                assert(self@ =~= old(self)@.processing(batch_id));
                (Some(blocks), Next::Proceed)
            },
            Err(e) => {
                assert(self@ =~= old(self)@);
                (None, self.fail(BackFillError::BatchInvalidState(batch_id, e.0)))
            },
        }
    }

    /// Processes the next ready batch: either its blocks are to be sent, or the call goes on.
    fn process_completed_batches(&mut self) -> (result: (Option<Vec<Block>>, Next))
        ensures
            ({
                let (next, blocks, flow) = old(self)@.process_completed_batches();
                &&& final(self)@ == next
                &&& (match result.0 {
                    Some(sent) => blocks == Some(sent@),
                    None => blocks is None,
                })
                &&& result.1@ == flow
            }),
    {
        // Only process batches if backfill is syncing and only process one batch at a time
        if self.state != BackFillState::Syncing || self.current_processing_batch.is_some() {
            return (None, Next::Proceed);
        }
        // Find the id of the batch we are going to process.
        let target: BatchId = self.processing_target;
        match self.batches.get(target) {
            Some(batch) => match batch.state() {
                BatchState::AwaitingProcessing(..) => self.process_batch(target),
                BatchState::Downloading(..) => {
                    // Batch is not ready, nothing to process
                    (None, Next::Proceed)
                },
                BatchState::Failed | BatchState::AwaitingDownload | BatchState::Processing(_) => {
                    // these are all inconsistent states:
                    // - Failed -> non recoverable batch. Chain should have been removed
                    // - AwaitingDownload -> A recoverable failed batch should have been
                    //   re-requested.
                    // - Processing -> `self.current_processing_batch` is None
                    let message = "Invalid expected batch state".to_owned();
                    (None, self.fail(BackFillError::InvalidSyncState(message)))
                },
                BatchState::AwaitingValidation(_) => {
                    self.processing_target = target.saturating_sub(BACKFILL_EPOCHS_PER_BATCH);
                    if self.to_be_downloaded >= self.processing_target {
                        self.to_be_downloaded =
                            self.processing_target.saturating_sub(BACKFILL_EPOCHS_PER_BATCH);
                    }
                    self.work.request = true;
                    assert(self@ =~= old(self)@.past_target());
                    (None, Next::Proceed)
                },
            },
            None => {
                let message = numbered("Batch not found for current processing target ", target);
                (None, self.fail(BackFillError::InvalidSyncState(message)))
            },
        }
    }

    /// Does what is left of the call that is under way, until it needs something from outside, or
    /// ends.
    fn proceed(&mut self, pool: &PeerPool) -> (step: Step)
        requires
            old(self)@.slots_per_epoch > 0,
        ensures
            (final(self)@, step@) == old(self)@.proceed(pool@),
        decreases
            (if old(self)@.work.process { 1int } else { 0int }),
            (if old(self)@.work.request { 1int } else { 0int }),
            old(self)@.work.idle.len(),
            old(self)@.work.retries.len(),
    {
        if self.work.retries.len() > 0 {
            let batch_id: BatchId = self.work.retries.remove(0);
            assert(self@ =~= old(self)@.with_retries(old(self)@.work.retries.drop_first()));
            if self.batches.contains(batch_id) {
                self.retry_batch_download(pool, batch_id)
            } else {
                self.proceed(pool)
            }
        } else if self.work.idle.len() > 0 {
            proof {
                lemma_next_batch(self@);
            }
            match self.next_batch() {
                Some(batch_id) => {
                    let peer: PeerId = match self.work.idle.pop() {
                        Some(peer) => peer,
                        None => 0,
                    };
                    self.waiting = Waiting::BatchType { batch_id, peer };
                    assert(self@ =~= old(self)@.proceed(pool@).0);
                    Step::BatchType { batch_id }
                },
                None => {
                    // No more batches, simply stop
                    self.work.idle.clear();
                    assert(self@ =~= SyncView {
                        work: WorkView { idle: Seq::empty(), ..old(self)@.work },
                        ..old(self)@.next_batch().0
                    });
                    self.proceed(pool)
                },
            }
        } else if self.work.request {
            self.work.request = false;
            if self.state == BackFillState::Syncing {
                self.work.idle = pool.idle(&self.active_requests);
            }
            assert(self@ =~= SyncView {
                work: WorkView {
                    idle: if old(self)@.state == BackFillState::Syncing {
                        idle_peers(pool@, old(self)@.active_requests)
                    } else {
                        Seq::empty()
                    },
                    request: false,
                    ..old(self)@.work
                },
                ..old(self)@
            });
            self.proceed(pool)
        } else if self.work.process {
            self.work.process = false;
            assert(self@ =~= SyncView {
                work: WorkView { process: false, ..old(self)@.work },
                ..old(self)@
            });
            let target: BatchId = self.processing_target;
            match self.process_completed_batches() {
                (Some(blocks), _) => Step::SendChainSegment { batch_id: target, blocks },
                (None, Next::Proceed) => self.proceed(pool),
                (None, Next::Stop(result)) => self.finish(result),
            }
        } else {
            let outcome: Outcome = self.work.outcome;
            self.finish(Ok(outcome))
        }
    }

    /// Goes on with the call.
    fn settle(&mut self, next: Next, pool: &PeerPool) -> (step: Step)
        requires
            old(self)@.slots_per_epoch > 0,
        ensures
            (final(self)@, step@) == SyncView::settle((old(self)@, next@), pool@),
    {
        match next {
            Next::Proceed => self.proceed(pool),
            Next::Stop(result) => self.finish(result),
        }
    }

    /// The ids of the batches above an epoch, in ascending order.
    fn ids_above(&self, epoch: Epoch) -> (above: Vec<BatchId>)
        ensures
            above@ == self@.ids_above(epoch),
            is_ascending(above@),
            forall|id: BatchId| #[trigger]
                above@.contains(id) <==> self@.batches.contains_key(id) && id > epoch,
    {
        let is_above = |id: BatchId| -> (above: bool)
            ensures
                above == (id > epoch),
            {
                epoch < id
            };
        self.batches.select(is_above, Ghost(|id: BatchId| id > epoch))
    }

    /// Adds the penalties for the peers that sent other versions of a batch than the one which is
    /// now known to be right.
    fn penalize(batch: &BatchInfo, right: Attempt, reports: &mut Vec<PeerReport>)
        requires
            batch@.state == BatchStateView::AwaitingValidation(right),
        ensures
            final(reports)@ == old(reports)@ + penalties(batch@),
    {
        let attempts = batch.attempts();
        let ghost differs = |attempt: Attempt| attempt.hash != right.hash;
        let ghost report = |attempt: Attempt| penalty(attempt, right);
        let ghost start = reports@;
        let mut i: usize = 0;
        assert(start =~= start + attempts@.take(0).filter(differs).map_values(report)) by {
            reveal(Seq::filter);
        }
        while i < attempts.len()
            invariant
                i <= attempts@.len(),
                differs == (|attempt: Attempt| attempt.hash != right.hash),
                report == (|attempt: Attempt| penalty(attempt, right)),
                reports@ == start + attempts@.take(i as int).filter(differs).map_values(report),
            decreases attempts@.len() - i,
        {
            let attempt: Attempt = attempts[i];
            let ghost picked = attempts@.take(i as int).filter(differs);
            proof {
                lemma_filter_step(attempts@, differs, i as int);
                assert(picked.push(attempt).map_values(report) =~= picked.map_values(report).push(
                    penalty(attempt, right),
                ));
            }
            // The validated batch has been re-processed
            if attempt.hash != right.hash {
                // The re-downloaded version was different.
                if right.peer_id != attempt.peer_id {
                    // A different peer sent the correct batch, the previous peer did not
                    // We negatively score the original peer.
                    reports.push(
                        PeerReport {
                            peer: attempt.peer_id,
                            action: PeerAction::LowToleranceError,
                            reason: ReportReason::ReprocessedOriginalPeer,
                        },
                    );
                } else {
                    // The same peer corrected its previous mistake. There was an error, so we
                    // negative score the original peer.
                    reports.push(
                        PeerReport {
                            peer: attempt.peer_id,
                            action: PeerAction::MidToleranceError,
                            reason: ReportReason::ReprocessedSamePeer,
                        },
                    );
                }
                assert(reports@ =~= start + picked.push(attempt).map_values(report));
            }
            i = i + 1;
        }
        assert(attempts@.take(i as int) =~= attempts@);
    }

    /// Removes any batches previous to the given `validating_epoch` and updates the current
    /// boundaries of the chain.
    ///
    /// The `validating_epoch` must align with batch boundaries.
    ///
    /// If a previous batch has been validated and it had been re-processed, penalize the original
    /// peer.
    fn advance_chain(&mut self, validating_epoch: Epoch) -> (reports: Vec<PeerReport>)
        ensures
            (final(self)@, reports@) == old(self)@.advance_chain(validating_epoch),
    {
        let mut reports: Vec<PeerReport> = Vec::new();
        // make sure this epoch produces an advancement
        if validating_epoch >= self.current_start {
            assert(reports@ =~= Seq::empty());
            return reports;
        }
        // We can now validate higher batches than the current batch. Here we remove all
        // batches that are higher than the current batch.
        let removed = self.ids_above(validating_epoch);
        let ghost ids = removed@;
        let ghost before = self@;
        proof {
            assert(ids.take(0) =~= Seq::empty());
            assert(before.batches.remove_keys(ids.take(0).to_set()) =~= before.batches);
            lemma_without_downloads_none(before.active_requests, before.batches);
        }
        let mut i: usize = 0;
        while i < removed.len()
            invariant
                i <= removed@.len(),
                ids == removed@,
                ids == before.ids_above(validating_epoch),
                is_ascending(ids),
                forall|id: BatchId| #[trigger]
                    ids.contains(id) <==> before.batches.contains_key(id) && id > validating_epoch,
                self@ == (SyncView {
                    batches: before.batches.remove_keys(ids.take(i as int).to_set()),
                    active_requests: without_downloads(
                        before.active_requests,
                        before.batches,
                        ids.take(i as int),
                    ),
                    current_processing_batch: without_processing(
                        before.current_processing_batch,
                        before.batches,
                        ids.take(i as int),
                    ),
                    validated_batches: raised(before.validated_batches, i as nat),
                    ..before
                }),
                reports@ == all_penalties(before.batches, ids.take(i as int)),
            decreases removed@.len() - i,
        {
            let id: BatchId = removed[i];
            let ghost kept = self@.batches;
            proof {
                assert(ids.contains(ids[i as int]));
                assert(!ids.take(i as int).contains(id));
                assert(kept.contains_key(id) && kept[id] == before.batches[id]);
                assert(ids.take(i + 1).drop_last() =~= ids.take(i as int));
                assert(kept.remove(id) =~= before.batches.remove_keys(ids.take(i + 1).to_set()))
                    by {
                    assert forall|k: BatchId|
                        ids.take(i + 1).contains(k) <==> ids.take(i as int).contains(k) || k
                            == id by {
                        if ids.take(i as int).contains(k) {
                            let j = choose|j: int|
                                0 <= j < i && ids.take(i as int)[j] == k;
                            assert(ids.take(i + 1)[j] == k);
                        }
                        assert(ids.take(i + 1)[i as int] == id);
                    }
                }
                lemma_without_downloads_step(
                    before.active_requests,
                    before.batches,
                    ids,
                    i as int,
                );
                lemma_without_processing_step(
                    before.current_processing_batch,
                    before.batches,
                    ids,
                    i as int,
                );
            }
            self.validated_batches = self.validated_batches.saturating_add(1);
            if let Some(batch) = self.batches.remove(id) {
                // only for batches awaiting validation can we be sure the last attempt is
                // right, and thus, that any different attempt is wrong
                match batch.state() {
                    BatchState::AwaitingValidation(processed_attempt) => {
                        Self::penalize(&batch, *processed_attempt, &mut reports);
                    },
                    BatchState::Downloading(peer, _, _) => {
                        // remove this batch from the peer's active requests
                        self.active_requests.unregister(*peer, id);
                    },
                    BatchState::Processing(_) => {
                        if let Some(processing_id) = self.current_processing_batch {
                            if id >= processing_id {
                                self.current_processing_batch = None;
                            }
                        }
                    },
                    BatchState::Failed
                    | BatchState::AwaitingDownload
                    | BatchState::AwaitingProcessing(..) => {},
                }
            }
            assert(reports@ =~= all_penalties(before.batches, ids.take(i + 1)));
            i = i + 1;
        }
        assert(ids.take(i as int) =~= ids);
        if validating_epoch < self.processing_target {
            self.processing_target = validating_epoch;
        }
        self.current_start = validating_epoch;
        if validating_epoch < self.to_be_downloaded {
            self.to_be_downloaded = validating_epoch;
        }
        if self.batches.contains(self.to_be_downloaded) {
            // if a chain is advanced by Range beyond the previous `self.to_be_downloaded`, we
            // won't have this batch, so we need to request it.
            self.to_be_downloaded = self.to_be_downloaded.saturating_sub(BACKFILL_EPOCHS_PER_BATCH);
        }
        assert(self@ =~= before.advance_chain(validating_epoch).0);
        reports
    }

    /// Reports all peers that have participated.
    fn report_participants(&self, penalty: PeerAction) -> (reports: Vec<PeerReport>)
        ensures
            reports@ == failure_reports(ascending(self@.participating_peers), penalty),
    {
        let mut reports: Vec<PeerReport> = Vec::new();
        let peers = self.participating_peers.iter();
        let ghost ids = peers.remaining().unref();
        let ghost report = |peer: PeerId|
            PeerReport { peer, action: penalty, reason: ReportReason::BatchFailed };
        for peer in it: peers
            invariant
                report == (|peer: PeerId|
                    PeerReport { peer, action: penalty, reason: ReportReason::BatchFailed }),
                ids == it.seq().unref(),
                reports@ == ids.take(it.index() as int).map_values(report),
        {
            reports.push(
                PeerReport { peer: *peer, action: penalty, reason: ReportReason::BatchFailed },
            );
            assert(reports@ =~= ids.take(it.index() + 1).map_values(report));
        }
        proof {
            assert(ids.take(ids.len() as int) =~= ids);
            lemma_increasing_refs_ascend(peers.remaining());
            lemma_ascending_is(ids);
        }
        reports
    }

    /// An invalid batch has been received that could not be processed, but that can be retried.
    ///
    /// These events occur when a peer has successfully responded with blocks, but the blocks we
    /// have received are incorrect or invalid. This indicates the peer has not performed as
    /// intended and can result in downvoting a peer.
    fn handle_invalid_batch(&mut self, batch_id: BatchId) -> (next: Next)
        ensures
            (final(self)@, next@) == old(self)@.handle_invalid_batch(batch_id),
    {
        // The current batch could not be processed, indicating either the current or previous
        // batches are invalid.
        //
        // The previous batch could be incomplete due to the block sizes being too large to fit in
        // a single RPC request or there could be consecutive empty batches which are not supposed
        // to be there
        //
        // The current (sub-optimal) strategy is to simply re-request all batches that could
        // potentially be faulty. If a batch returns a different result than the original and
        // results in successful processing, we downvote the original peer that sent us the batch.
        let mut redownload_queue = self.ids_above(batch_id);
        let ghost before = self@;
        let ghost ids = redownload_queue@;
        let ghost change = |batch: BatchView| batch.failed_validation();
        let ghost ok = |id: BatchId| before.can_revalidate(id);
        let mut i: usize = 0;
        proof {
            assert(ids.take(0) =~= Seq::empty());
            lemma_with_each_none(before.batches, change);
        }
        while i < redownload_queue.len()
            invariant
                i <= redownload_queue@.len(),
                ids == redownload_queue@,
                before == old(self)@,
                ids == before.ids_above(batch_id),
                is_ascending(ids),
                forall|id: BatchId| #[trigger]
                    ids.contains(id) <==> before.batches.contains_key(id) && id > batch_id,
                change == (|batch: BatchView| batch.failed_validation()),
                ok == (|id: BatchId| before.can_revalidate(id)),
                forall|j: int| 0 <= j < i ==> ok(#[trigger] ids[j]),
                self@ == (SyncView {
                    batches: with_each(before.batches, ids.take(i as int), change),
                    ..before
                }),
            decreases redownload_queue@.len() - i,
        {
            let id: BatchId = redownload_queue[i];
            proof {
                assert(ids.contains(ids[i as int]));
                lemma_with_each_step(before.batches, ids, change, i as int);
            }
            if let Some(mut batch) = self.batches.remove(id) {
                let outcome = batch.validation_failed();
                self.batches.insert(id, batch);
                match outcome {
                    Err(e) => {
                        proof {
                            lemma_first_not(ids, ok, i as int);
                            assert(self@.failed() =~= before.failed());
                        }
                        return self.fail(BackFillError::BatchInvalidState(batch_id, e.0));
                    },
                    Ok(BatchOperationOutcome::Failed) => {
                        // Batch has failed and cannot be redownloaded.
                        proof {
                            lemma_first_not(ids, ok, i as int);
                            assert(self@.failed() =~= before.failed());
                        }
                        return self.fail(BackFillError::BatchProcessingFailed(batch_id));
                    },
                    Ok(BatchOperationOutcome::Continue) => {},
                }
            }
            i = i + 1;
            assert(self@ =~= (SyncView {
                batches: with_each(before.batches, ids.take(i as int), change),
                ..before
            }));
        }
        proof {
            assert(ids.take(i as int) =~= ids);
            lemma_first_not_none(ids, ok);
        }
        // no batch maxed out its process attempts, so now the chain's volatile progress must be
        // reset
        self.processing_target = self.current_start;
        // finally, re-request the failed batch.
        redownload_queue.push(batch_id);
        self.work.retries = redownload_queue;
        assert(self@ =~= before.handle_invalid_batch(batch_id).0);
        Next::Proceed
    }

    /// Checks with the beacon chain if backfill sync has completed.
    fn check_completed(&self, anchor: Option<AnchorInfo>) -> (completed: bool)
        requires
            self@.slots_per_epoch > 0,
        ensures
            completed == self@.check_completed(anchor),
    {
        if self.would_complete(self.current_start) {
            // Check that the beacon chain agrees
            if let Some(anchor_info) = anchor {
                // Conditions that we have completed a backfill sync
                return anchor_info.block_backfill_complete;
            }
        }
        false
    }

    /// Puts a batch first among those to be downloaded again.
    fn retry(&mut self, batch_id: BatchId) -> (next: Next)
        ensures
            (final(self)@, next@) == old(self)@.retrying(batch_id),
    {
        self.work.retries.insert(0, batch_id);
        assert(self@ =~= old(self)@.retrying(batch_id).0);
        Next::Proceed
    }

    /// Goes on after a successfully processed batch.
    fn processed_well(
        &mut self,
        batch_id: BatchId,
        was_non_empty: bool,
        anchor: Option<AnchorInfo>,
    ) -> (result: (Vec<PeerReport>, Next))
        requires
            old(self)@.slots_per_epoch > 0,
        ensures
            (final(self)@, result.0@, result.1@) == old(self)@.processed_well(
                batch_id,
                was_non_empty,
                anchor,
            ),
    {
        // If the processed batch was not empty, we can validate previous unvalidated
        // blocks.
        let reports = if was_non_empty {
            self.advance_chain(batch_id)
        } else {
            Vec::new()
        };
        let ghost advanced = self@;
        assert(was_non_empty || reports@ =~= Seq::empty());
        if batch_id == self.processing_target {
            self.processing_target = batch_id.saturating_sub(BACKFILL_EPOCHS_PER_BATCH);
        }
        let ghost next = SyncView {
            processing_target: if batch_id == advanced.processing_target {
                batch_id.saturating_sub(BACKFILL_EPOCHS_PER_BATCH)
            } else {
                advanced.processing_target
            },
            ..advanced
        };
        assert(self@ =~= next);
        // check if the chain has completed syncing
        if self.check_completed(anchor) {
            // chain is completed
            self.state = BackFillState::Completed;
            assert(self@ =~= next.in_state(BackFillState::Completed));
            (reports, Next::Stop(Ok(Outcome::Processed(ProcessResult::SyncCompleted))))
        } else {
            // chain is not completed: attempt to request more batches, and to process more batches
            self.make_progress();
            (reports, Next::Proceed)
        }
    }

    /// Has new batches requested, and the next one processed.
    fn make_progress(&mut self)
        ensures
            final(self)@ == old(self)@.with_progress_due(),
    {
        self.work.request = true;
        self.work.process = true;
        assert(self@ =~= old(self)@.with_progress_due());
    }

    /// Goes on after a batch that could not be processed through the fault of a peer.
    fn processed_badly(
        &mut self,
        batch_id: BatchId,
        outcome: BatchOperationOutcome,
        imported_blocks: bool,
        penalty: PeerAction,
    ) -> (result: (Vec<PeerReport>, Next))
        requires
            outcome == old(self)@.batches[batch_id].outcome(),
        ensures
            (final(self)@, result.0@, result.1@) == old(self)@.processed_badly(
                batch_id,
                imported_blocks,
                penalty,
            ),
    {
        match outcome {
            BatchOperationOutcome::Failed => {
                // check that we have not exceeded the re-process retry counter
                // If a batch has exceeded the invalid batch lookup attempts limit, it means
                // that it is likely all peers are sending invalid batches
                // repeatedly and are either malicious or faulty. We stop the backfill sync and
                // report all synced peers that have participated.
                let reports = self.report_participants(penalty);
                (reports, self.fail(BackFillError::BatchProcessingFailed(batch_id)))
            },
            BatchOperationOutcome::Continue => {
                // chain can continue. Check if it can be progressed
                let reports = if imported_blocks {
                    // At least one block was successfully verified and imported, then we can be
                    // sure all previous batches are valid and we only need to download the
                    // current failed batch.
                    self.advance_chain(batch_id)
                } else {
                    Vec::new()
                };
                assert(imported_blocks || reports@ =~= Seq::empty());
                // Handle this invalid batch, that is within the re-process retries limit.
                (reports, self.handle_invalid_batch(batch_id))
            },
        }
    }

    /// Handles the result of processing a batch.
    fn batch_processed(
        &mut self,
        batch_id: BatchId,
        result: BatchProcessResult,
        anchor: Option<AnchorInfo>,
    ) -> (handled: (Vec<PeerReport>, Next))
        requires
            old(self)@.slots_per_epoch > 0,
        ensures
            (final(self)@, handled.0@, handled.1@) == old(self)@.batch_processed(
                batch_id,
                result,
                anchor,
            ),
    {
        let none: Vec<PeerReport> = Vec::new();
        assert(none@ =~= Seq::empty());
        let expected: bool = match self.current_processing_batch {
            Some(processing_id) => processing_id == batch_id,
            None => false,
        };
        if !expected {
            return (none, Next::Stop(Ok(Outcome::Processed(ProcessResult::Successful))));
        }
        // batch_id matches, continue
        self.current_processing_batch = None;
        let ghost idle = SyncView { current_processing_batch: None, ..old(self)@ };
        assert(self@ =~= idle);
        let mut batch = match self.batches.remove(batch_id) {
            Some(batch) => batch,
            None => {
                // This is an error. Fail the sync algorithm.
                assert(self@ =~= idle);
                let message = numbered("Current processing batch not found: ", batch_id);
                return (none, self.fail(BackFillError::InvalidSyncState(message)));
            },
        };
        if batch.current_peer().is_none() {
            self.batches.insert(batch_id, batch);
            assert(self@ =~= idle);
            let message = "Peer does not exist".to_owned();
            return (none, self.fail(BackFillError::BatchInvalidState(batch_id, message)));
        }
        let outcome = batch.processing_completed(
            match result {
                BatchProcessResult::Success { .. } => BatchProcessingResult::Success,
                BatchProcessResult::FaultyFailure { .. } => BatchProcessingResult::FaultyFailure,
                BatchProcessResult::NonFaultyFailure => BatchProcessingResult::NonFaultyFailure,
            },
        );
        let ghost completed = batch@;
        self.batches.insert(batch_id, batch);
        assert(self@ =~= idle.with_batch(batch_id, completed));
        match outcome {
            Err(e) => {
                // Batch was in the wrong state
                assert(self@.failed() =~= idle.failed());
                (none, self.fail(BackFillError::BatchInvalidState(batch_id, e.0)))
            },
            Ok(outcome) => match result {
                BatchProcessResult::Success { was_non_empty } => self.processed_well(
                    batch_id,
                    was_non_empty,
                    anchor,
                ),
                BatchProcessResult::FaultyFailure { imported_blocks, penalty } => {
                    self.processed_badly(batch_id, outcome, imported_blocks, penalty)
                },
                BatchProcessResult::NonFaultyFailure => (none, self.retry(batch_id)),
            },
        }
    }

    /// Gives a download up that has failed. `outcome` tells whether the batch can be tried again.
    fn give_up_download(&mut self, batch_id: BatchId, peer: PeerId, outcome: BatchOperationOutcome)
        -> (next: Next)
        requires
            outcome == old(self)@.batches[batch_id].outcome(),
        ensures
            (final(self)@, next@) == old(self)@.without_download(batch_id, peer),
    {
        self.active_requests.unregister(peer, batch_id);
        assert(self@ =~= SyncView {
            active_requests: unregistered(old(self)@.active_requests, peer, batch_id),
            ..old(self)@
        });
        match outcome {
            BatchOperationOutcome::Failed => self.fail(
                BackFillError::BatchDownloadFailed(batch_id),
            ),
            BatchOperationOutcome::Continue => self.retry(batch_id),
        }
    }

    /// Handles an RPC error.
    fn error_injected(&mut self, batch_id: BatchId, peer_id: PeerId, request_id: Id) -> (next: Next)
        ensures
            (final(self)@, next@) == old(self)@.error_injected(batch_id, peer_id, request_id),
    {
        let mut batch = match self.batches.remove(batch_id) {
            Some(batch) => batch,
            None => {
                // this could be an error for an old batch, removed when the chain advances
                assert(self@ =~= old(self)@);
                return Next::Stop(Ok(Outcome::Handled));
            },
        };
        // A batch could be retried without the peer failing the request (disconnecting/
        // sending an error /timeout) if the peer is removed from the chain for other
        // reasons. Check that this block belongs to the expected peer
        if !batch.is_expecting_block(peer_id, request_id) {
            self.batches.insert(batch_id, batch);
            assert(self@ =~= old(self)@);
            return Next::Stop(Ok(Outcome::Handled));
        }
        let outcome = batch.download_failed();
        let ghost failed = batch@;
        self.batches.insert(batch_id, batch);
        assert(self@ =~= old(self)@.with_batch(batch_id, failed));
        match outcome {
            Err(e) => self.fail(BackFillError::BatchInvalidState(batch_id, e.0)),
            Ok(outcome) => self.give_up_download(batch_id, peer_id, outcome),
        }
    }

    /// Handles a block, or the end of the blocks, of a batch.
    fn block_received(
        &mut self,
        batch_id: BatchId,
        peer_id: PeerId,
        request_id: Id,
        beacon_block: Option<Block>,
    ) -> (next: Next)
        ensures
            (final(self)@, next@) == old(self)@.block_received(
                batch_id,
                peer_id,
                request_id,
                beacon_block,
            ),
    {
        // check if we have this batch
        let mut batch = match self.batches.remove(batch_id) {
            Some(batch) => batch,
            None => {
                // A batch might get removed when the chain advances, so this is non fatal.
                assert(self@ =~= old(self)@);
                return Next::Stop(Ok(Outcome::Processed(ProcessResult::Successful)));
            },
        };
        // A batch could be retried without the peer failing the request (disconnecting/
        // sending an error /timeout) if the peer is removed from the chain for other
        // reasons. Check that this block belongs to the expected peer, and that the
        // request_id matches
        if !batch.is_expecting_block(peer_id, request_id) {
            self.batches.insert(batch_id, batch);
            assert(self@ =~= old(self)@);
            return Next::Stop(Ok(Outcome::Processed(ProcessResult::Successful)));
        }
        match beacon_block {
            Some(block) => {
                // This is not a stream termination, simply add the block to the request
                let added = batch.add_block(block);
                let ghost changed = batch@;
                self.batches.insert(batch_id, batch);
                assert(self@ =~= old(self)@.with_batch(batch_id, changed));
                match added {
                    Err(e) => self.fail(BackFillError::BatchInvalidState(batch_id, e.0)),
                    Ok(()) => Next::Stop(Ok(Outcome::Processed(ProcessResult::Successful))),
                }
            },
            None => {
                // A stream termination has been sent. This batch has ended. Process a completed
                // batch.
                let completed = batch.download_completed();
                let ghost changed = batch@;
                self.batches.insert(batch_id, batch);
                assert(self@ =~= old(self)@.with_batch(batch_id, changed));
                match completed {
                    Ok(_) => {
                        // Remove the request from the peer's active batches
                        self.active_requests.unregister(peer_id, batch_id);
                        assert(self@ =~= SyncView {
                            active_requests: unregistered(
                                old(self)@.active_requests,
                                peer_id,
                                batch_id,
                            ),
                            ..old(self)@.with_batch(batch_id, changed)
                        });
                        // pre-emptively request more blocks from peers whilst we process current
                        // blocks
                        self.make_progress();
                        Next::Proceed
                    },
                    Err(Ok((_, _, outcome))) => {
                        // this batch can't be used, so we need to request it again.
                        self.give_up_download(batch_id, peer_id, outcome)
                    },
                    Err(Err(e)) => self.fail(BackFillError::BatchInvalidState(batch_id, e.0)),
                }
            },
        }
    }

    /// The batches that are to come from a peer, in ascending order.
    fn asked_of(&self, peer: PeerId) -> (asked: Vec<BatchId>)
        ensures
            asked@ == self@.asked_of(peer),
            is_ascending(asked@),
            forall|id: BatchId| #[trigger] asked@.contains(id) ==> self@.batches.contains_key(id),
    {
        let is_asked = |id: BatchId| -> (asked: bool)
            ensures
                asked == is_requested(self@.active_requests, peer, id),
            {
                self.active_requests.contains(peer, id)
            };
        self.batches.select(
            is_asked,
            Ghost(|id: BatchId| is_requested(self@.active_requests, peer, id)),
        )
    }

    /// Handles that a peer has left.
    fn peer_left(&mut self, peer_id: PeerId) -> (next: Next)
        ensures
            (final(self)@, next@) == old(self)@.peer_left(peer_id),
    {
        if self.state == BackFillState::Failed || self.state == BackFillState::NotRequired {
            return Next::Stop(Ok(Outcome::Handled));
        }
        // Active batches of the peer are considered failed
        let asked = self.asked_of(peer_id);
        let ghost before = self@;
        let ghost ids = asked@;
        let ghost change = |batch: BatchView| batch.failed_downloading(batch.state->Downloading_0);
        let ghost ok = |id: BatchId| before.can_redownload(id);
        let mut i: usize = 0;
        proof {
            assert(ids.take(0) =~= Seq::empty());
            lemma_with_each_none(before.batches, change);
        }
        while i < asked.len()
            invariant
                i <= asked@.len(),
                ids == asked@,
                before == old(self)@,
                before.state != BackFillState::Failed,
                before.state != BackFillState::NotRequired,
                ids == before.asked_of(peer_id),
                is_ascending(ids),
                forall|id: BatchId| #[trigger]
                    ids.contains(id) ==> before.batches.contains_key(id),
                change == (|batch: BatchView|
                    batch.failed_downloading(batch.state->Downloading_0)),
                ok == (|id: BatchId| before.can_redownload(id)),
                forall|j: int| 0 <= j < i ==> ok(#[trigger] ids[j]),
                self@ == (SyncView {
                    batches: with_each(before.batches, ids.take(i as int), change),
                    ..before
                }),
            decreases asked@.len() - i,
        {
            let id: BatchId = asked[i];
            proof {
                assert(ids.contains(ids[i as int]));
                lemma_with_each_step(before.batches, ids, change, i as int);
            }
            if let Some(mut batch) = self.batches.remove(id) {
                let outcome = batch.download_failed();
                self.batches.insert(id, batch);
                match outcome {
                    Err(e) => {
                        proof {
                            lemma_first_not(ids, ok, i as int);
                            assert(self@.failed() =~= before.failed());
                        }
                        return self.fail(BackFillError::BatchInvalidState(id, e.0));
                    },
                    Ok(BatchOperationOutcome::Failed) => {
                        proof {
                            lemma_first_not(ids, ok, i as int);
                            assert(self@.failed() =~= before.failed());
                        }
                        return self.fail(BackFillError::BatchDownloadFailed(id));
                    },
                    Ok(BatchOperationOutcome::Continue) => {},
                }
            }
            i = i + 1;
            assert(self@ =~= (SyncView {
                batches: with_each(before.batches, ids.take(i as int), change),
                ..before
            }));
        }
        proof {
            assert(ids.take(i as int) =~= ids);
            lemma_first_not_none(ids, ok);
        }
        self.active_requests.remove(peer_id);
        // Remove the peer from the participation list
        self.participating_peers.remove(&peer_id);
        // and re-request the batches
        self.work.retries = asked;
        assert(self@ =~= before.peer_left(peer_id).0);
        Next::Proceed
    }

    /// When resuming a chain, this function searches for batches that need to be re-downloaded.
    fn to_resume(&self) -> (batch_ids_to_retry: Vec<BatchId>)
        ensures
            batch_ids_to_retry@ == self@.to_resume(),
    {
        let awaits_download = |id: BatchId| -> (awaits: bool)
            ensures
                self@.batches.contains_key(id) ==> awaits == (self@.batches[id].state
                    is AwaitingDownload),
            {
                match self.batches.get(id) {
                    Some(batch) => matches!(batch.state(), BatchState::AwaitingDownload),
                    None => false,
                }
            };
        self.batches.select(
            awaits_download,
            Ghost(|id: BatchId| self@.batches[id].state is AwaitingDownload),
        )
    }

    /// Resets the start epoch based on the beacon chain.
    ///
    /// This errors if the beacon chain indicates that backfill sync has already completed or is
    /// not required.
    fn reset_start_epoch(&mut self, anchor: Option<AnchorInfo>) -> (result: Result<
        (),
        ResetEpochError,
    >)
        requires
            old(self)@.slots_per_epoch > 0,
        ensures
            match result {
                Ok(()) => {
                    &&& anchor is Some
                    &&& !anchor->0.block_backfill_complete
                    &&& final(self)@ == (SyncView {
                        current_start: anchor->0.oldest_block_slot / old(self)@.slots_per_epoch,
                        ..old(self)@
                    })
                },
                Err(ResetEpochError::SyncCompleted) => {
                    &&& anchor is Some
                    &&& anchor->0.block_backfill_complete
                    &&& final(self)@ == old(self)@
                },
                Err(ResetEpochError::NotRequired) => anchor is None && final(self)@ == old(self)@,
            },
    {
        if let Some(anchor_info) = anchor {
            if anchor_info.block_backfill_complete {
                Err(ResetEpochError::SyncCompleted)
            } else {
                self.current_start = anchor_info.oldest_block_slot / self.slots_per_epoch;
                assert(self@ =~= SyncView {
                    current_start: anchor->0.oldest_block_slot / old(self)@.slots_per_epoch,
                    ..old(self)@
                });
                Ok(())
            }
        } else {
            Err(ResetEpochError::NotRequired)
        }
    }

    /// The current syncing metrics.
    fn progress(&self) -> (progress: SyncStart)
        requires
            self@.has_progress_in_range(),
        ensures
            progress == self@.progress(),
    {
        let completed: u64 = self.validated_batches * BACKFILL_EPOCHS_PER_BATCH
            * self.slots_per_epoch;
        let start_slot: u64 = saturating_product(self.current_start, self.slots_per_epoch);
        SyncStart::Syncing {
            completed: completed as usize,
            remaining: start_slot.saturating_sub(self.genesis_backfill_slot) as usize,
        }
    }

    /// Starts or resumes the sync.
    fn started(&mut self, pool: &PeerPool, anchor: Option<AnchorInfo>) -> (next: Next)
        requires
            old(self)@.slots_per_epoch > 0,
            old(self)@.is_startable(pool@, anchor) ==> old(self)@.has_progress_in_range(),
        ensures
            (final(self)@, next@) == old(self)@.started(pool@, anchor),
    {
        match self.state {
            BackFillState::Syncing => {
                // already syncing ignore.
                Next::Stop(Ok(Outcome::Started(self.progress())))
            },
            BackFillState::Paused => {
                if pool.is_empty() {
                    return Next::Stop(Ok(Outcome::Started(SyncStart::NotSyncing)));
                }
                // If there are peers to resume with, begin the resume.
                let progress = self.progress();
                self.state = BackFillState::Syncing;
                assert(self@ =~= old(self)@.in_state(BackFillState::Syncing));
                self.begin(Outcome::Started(progress));
                // Resume any previously failed batches.
                self.work.retries = self.to_resume();
                assert(self@ =~= old(self)@.in_state(BackFillState::Syncing).begun(
                    Outcome::Started(progress),
                ).with_retries(old(self)@.to_resume()));
                // begin requesting blocks from the peer pool, until all peers are exhausted, and
                // start processing batches if needed
                self.make_progress();
                Next::Proceed
            },
            BackFillState::Failed => {
                // Attempt to recover from a failed sync. All local variables should be reset and
                // cleared already for a fresh start.
                // We only attempt to restart a failed backfill sync if a new synced peer has been
                // added.
                if !self.restart_failed_sync {
                    return Next::Stop(Ok(Outcome::Started(SyncStart::NotSyncing)));
                }
                self.state = BackFillState::Syncing;
                assert(self@ =~= old(self)@.in_state(BackFillState::Syncing));
                // Obtain a new start slot, from the beacon chain and handle possible errors.
                match self.reset_start_epoch(anchor) {
                    Err(ResetEpochError::SyncCompleted) => {
                        self.state = BackFillState::Completed;
                        assert(self@ =~= old(self)@.in_state(BackFillState::Completed));
                        let message = "chain completed".to_owned();
                        Next::Stop(Err(BackFillError::InvalidSyncState(message)))
                    },
                    Err(ResetEpochError::NotRequired) => {
                        self.state = BackFillState::NotRequired;
                        assert(self@ =~= old(self)@.in_state(BackFillState::NotRequired));
                        let message = "backfill not required".to_owned();
                        Next::Stop(Err(BackFillError::InvalidSyncState(message)))
                    },
                    Ok(()) => {
                        // begin requesting blocks from the peer pool, until all peers are
                        // exhausted.
                        let progress = self.progress();
                        self.begin(Outcome::Started(progress));
                        self.work.request = true;
                        assert(self@ =~= old(self)@.started(pool@, anchor).0);
                        Next::Proceed
                    },
                }
            },
            BackFillState::Completed | BackFillState::NotRequired => {
                Next::Stop(Ok(Outcome::Started(SyncStart::NotSyncing)))
            },
        }
    }

    /// Handles that the batch has been requested.
    fn request_sent(&mut self, request_id: Id) -> (next: Next)
        requires
            old(self)@.waiting is Request,
            old(self)@.batches.contains_key(old(self)@.waiting->Request_batch_id),
        ensures
            (final(self)@, next@) == old(self)@.request_sent(request_id),
    {
        let (batch_id, peer): (BatchId, PeerId) = match self.waiting {
            Waiting::Request { batch_id, peer } => (batch_id, peer),
            _ => (0, 0),
        };
        if let Some(mut batch) = self.batches.remove(batch_id) {
            // inform the batch about the new request
            let started = batch.start_downloading_from_peer(peer, request_id);
            let ghost changed = batch@;
            self.batches.insert(batch_id, batch);
            assert(self@ =~= old(self)@.with_batch(batch_id, changed));
            if let Err(e) = started {
                assert(self@.failed() =~= old(self)@.failed());
                return self.fail(BackFillError::BatchInvalidState(batch_id, e.0));
            }
        }
        // register the batch for this peer
        self.active_requests.register(peer, batch_id);
        self.waiting = Waiting::Nothing;
        assert(self@ =~= old(self)@.request_sent(request_id).0);
        Next::Proceed
    }

    /// Handles that the batch could not be requested.
    fn request_failed(&mut self) -> (next: Next)
        requires
            old(self)@.waiting is Request,
            old(self)@.batches.contains_key(old(self)@.waiting->Request_batch_id),
        ensures
            (final(self)@, next@) == old(self)@.request_failed(),
    {
        let (batch_id, peer): (BatchId, PeerId) = match self.waiting {
            Waiting::Request { batch_id, peer } => (batch_id, peer),
            _ => (0, 0),
        };
        let mut batch = match self.batches.remove(batch_id) {
            Some(batch) => batch,
            None => {
                return Next::Proceed;
            },
        };
        // register the failed download and check if the batch can be retried
        let started = batch.start_downloading_from_peer(peer, 1);
        if let Err(e) = started {
            self.batches.insert(batch_id, batch);
            assert(self@ =~= old(self)@);
            return self.fail(BackFillError::BatchInvalidState(batch_id, e.0));
        }
        let outcome = batch.download_failed();
        let ghost changed = batch@;
        self.batches.insert(batch_id, batch);
        self.waiting = Waiting::Nothing;
        assert(changed =~= old(self)@.batches[batch_id].failed_downloading(peer));
        assert(self@ =~= SyncView { waiting: Waiting::Nothing, ..old(self)@ }.with_batch(
            batch_id,
            changed,
        ));
        match outcome {
            Err(e) => self.fail(BackFillError::BatchInvalidState(batch_id, e.0)),
            Ok(outcome) => self.give_up_download(batch_id, peer, outcome),
        }
    }
}

} // verus!
