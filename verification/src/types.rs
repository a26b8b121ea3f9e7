//! The plain values that the sync takes and gives back.
use vstd::prelude::*;

use crate::batch::Block;

verus! {

/// A point in time at which at most one block can be proposed.
pub type Slot = u64;

/// A fixed number of consecutive slots.
pub type Epoch = u64;

/// A batch is named by the epoch it starts at.
pub type BatchId = Epoch;

/// A peer. Peers are compared, and told apart, by this number alone.
pub type PeerId = u64;

/// A request that was sent to a peer.
pub type Id = u32;

/// Blocks are downloaded in batches from peers. This constant specifies how many epochs worth of
/// blocks per batch are requested _at most_.
pub const BACKFILL_EPOCHS_PER_BATCH: u64 = 1;

/// The state of the sync.
#[derive(Debug, Clone, Copy, PartialEq, Eq, Structural)]
pub enum BackFillState {
    /// The sync is partially completed and currently paused.
    Paused,
    /// The sync is running.
    Syncing,
    /// The sync has reached the oldest block that is wanted.
    Completed,
    /// No sync is needed.
    NotRequired,
    /// Too many attempts have failed. The sync is tried again when a new peer joins.
    Failed,
}

/// What a batch asks for.
#[derive(Debug, Clone, Copy, PartialEq, Eq, Structural)]
pub enum BatchType {
    Blocks,
    BlocksAndBlobs,
}

/// How severely a peer is penalised.
#[derive(Debug, Clone, Copy, PartialEq, Eq, Structural)]
pub enum PeerAction {
    Fatal,
    LowToleranceError,
    MidToleranceError,
    HighToleranceError,
}

/// Why a peer is penalised.
#[derive(Debug, Clone, Copy, PartialEq, Eq, Structural)]
pub enum ReportReason {
    /// A batch has failed too often; every peer that took part is reported.
    BatchFailed,
    /// A batch was validated that differs from the one which this peer had sent; another peer
    /// sent the validated one.
    ReprocessedOriginalPeer,
    /// A batch was validated that differs from the one which this peer had sent; the same peer
    /// sent the validated one.
    ReprocessedSamePeer,
}

/// The text under which a reason is reported.
pub open spec fn reason_text(reason: ReportReason) -> Seq<char> {
    match reason {
        ReportReason::BatchFailed => "backfill_batch_failed"@,
        ReportReason::ReprocessedOriginalPeer => "backfill_reprocessed_original_peer"@,
        ReportReason::ReprocessedSamePeer => "backfill_reprocessed_same_peer"@,
    }
}

impl ReportReason {
    /// The text under which the reason is reported.
    pub fn message(&self) -> (text: &'static str)
        ensures
            text@ == reason_text(*self),
    {
        match self {
            ReportReason::BatchFailed => "backfill_batch_failed",
            ReportReason::ReprocessedOriginalPeer => "backfill_reprocessed_original_peer",
            ReportReason::ReprocessedSamePeer => "backfill_reprocessed_same_peer",
        }
    }
}

/// A penalty for a peer.
#[derive(Debug, Clone, Copy, PartialEq, Eq, Structural)]
pub struct PeerReport {
    pub peer: PeerId,
    pub action: PeerAction,
    pub reason: ReportReason,
}

/// The outcome of processing a batch, as the block processor tells it.
#[derive(Debug, Clone, Copy, PartialEq, Eq, Structural)]
pub enum BatchProcessResult {
    /// The batch was imported.
    Success { was_non_empty: bool },
    /// The batch could not be imported, and the peer that sent it is at fault.
    FaultyFailure { imported_blocks: bool, penalty: PeerAction },
    /// The batch could not be imported, and no peer is at fault.
    NonFaultyFailure,
}

/// What the chain's store knows of a chain that has started from a trusted state.
#[derive(Debug, Clone, Copy, PartialEq, Eq, Structural)]
pub struct AnchorInfo {
    /// The slot of the oldest block that has been stored.
    pub oldest_block_slot: Slot,
    /// Whether the store holds every block that the backfill is to fetch.
    pub block_backfill_complete: bool,
}

/// Return type when attempting to start the backfill sync process.
#[derive(Debug, Clone, Copy, PartialEq, Eq, Structural)]
pub enum SyncStart {
    /// The chain started syncing or is already syncing.
    Syncing {
        /// The number of slots that have been processed so far.
        completed: usize,
        /// The number of slots still to be processed.
        remaining: usize,
    },
    /// The chain didn't start syncing.
    NotSyncing,
}

/// A standard result of the calls that move the sync forward.
#[derive(Debug, Clone, Copy, PartialEq, Eq, Structural)]
pub enum ProcessResult {
    /// The call was successful.
    Successful,
    /// The call resulted in completing the backfill sync.
    SyncCompleted,
}

/// The ways a backfill sync can fail.
#[derive(Debug)]
pub enum BackFillError {
    /// A batch failed to be downloaded.
    BatchDownloadFailed(BatchId),
    /// A batch could not be processed.
    BatchProcessingFailed(BatchId),
    /// A batch entered an invalid state.
    BatchInvalidState(BatchId, String),
    /// The sync algorithm entered an invalid state.
    InvalidSyncState(String),
    /// The chain became paused.
    Paused,
}

/// A [`BackFillError`] with its message as a sequence of characters.
pub ghost enum ErrorView {
    BatchDownloadFailed(BatchId),
    BatchProcessingFailed(BatchId),
    BatchInvalidState(BatchId, Seq<char>),
    InvalidSyncState(Seq<char>),
    Paused,
}

impl View for BackFillError {
    type V = ErrorView;

    open spec fn view(&self) -> ErrorView {
        match self {
            BackFillError::BatchDownloadFailed(id) => ErrorView::BatchDownloadFailed(*id),
            BackFillError::BatchProcessingFailed(id) => ErrorView::BatchProcessingFailed(*id),
            BackFillError::BatchInvalidState(id, message) => ErrorView::BatchInvalidState(
                *id,
                message@,
            ),
            BackFillError::InvalidSyncState(message) => ErrorView::InvalidSyncState(message@),
            BackFillError::Paused => ErrorView::Paused,
        }
    }
}

/// What keeps a failed sync from being restarted.
#[derive(Debug, Clone, Copy, PartialEq, Eq, Structural)]
pub enum ResetEpochError {
    /// The chain has already completed.
    SyncCompleted,
    /// Backfill is not required.
    NotRequired,
}

/// A request for the blocks of `count` slots, from `start_slot` on.
#[derive(Debug, Clone, Copy, PartialEq, Eq, Structural)]
pub struct BlocksByRangeRequest {
    pub start_slot: Slot,
    pub count: u64,
}

/// What a call comes to when it succeeds.
#[derive(Debug, Clone, Copy, PartialEq, Eq, Structural)]
pub enum Outcome {
    /// A call that has nothing to tell.
    Handled,
    /// A call that attempts to start the sync.
    Started(SyncStart),
    /// A call that moves the sync forward.
    Processed(ProcessResult),
}

/// What is to be done next.
#[derive(Debug)]
pub enum Step {
    /// Find out what a new batch is to ask for.
    BatchType { batch_id: BatchId },
    /// Ask a peer for the blocks of a batch.
    RequestBlocks {
        peer: PeerId,
        batch_id: BatchId,
        request: BlocksByRangeRequest,
        batch_type: BatchType,
    },
    /// Hand the blocks of a batch to the block processor.
    SendChainSegment { batch_id: BatchId, blocks: Vec<Block> },
    /// Nothing: the call has come to its end.
    Done(Result<Outcome, BackFillError>),
}

/// A [`Step`] with its collections as sequences.
pub ghost enum StepView {
    BatchType { batch_id: BatchId },
    RequestBlocks {
        peer: PeerId,
        batch_id: BatchId,
        request: BlocksByRangeRequest,
        batch_type: BatchType,
    },
    SendChainSegment { batch_id: BatchId, blocks: Seq<Block> },
    Done(Result<Outcome, ErrorView>),
}

impl View for Step {
    type V = StepView;

    open spec fn view(&self) -> StepView {
        match self {
            Step::BatchType { batch_id } => StepView::BatchType { batch_id: *batch_id },
            Step::RequestBlocks {
                peer,
                batch_id,
                request,
                batch_type,
            } => StepView::RequestBlocks {
                peer: *peer,
                batch_id: *batch_id,
                request: *request,
                batch_type: *batch_type,
            },
            Step::SendChainSegment { batch_id, blocks } => StepView::SendChainSegment {
                batch_id: *batch_id,
                blocks: blocks@,
            },
            Step::Done(Ok(outcome)) => StepView::Done(Ok(*outcome)),
            Step::Done(Err(error)) => StepView::Done(Err(error@)),
        }
    }
}

} // verus!
