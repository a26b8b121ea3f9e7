//! One batch of blocks: the state it is in, and the attempts at it that have failed.
use std::collections::hash_map::DefaultHasher;
use std::hash::Hasher;

use vstd::bytes::spec_u64_to_le_bytes;
use vstd::bytes::u64_to_le_bytes;
use vstd::prelude::*;
use vstd::std_specs::hash::DefaultHasherAdditionalSpecFns;

use crate::types::{BatchType, BlocksByRangeRequest, Epoch, Id, PeerId, Slot};

verus! {

/// The number of times to retry a batch before it is considered failed.
pub const MAX_BATCH_DOWNLOAD_ATTEMPTS: u8 = 10;

/// Invalid batches are attempted to be re-downloaded from other peers. If a batch cannot be
/// processed after `MAX_BATCH_PROCESSING_ATTEMPTS` times, it is considered faulty.
pub const MAX_BATCH_PROCESSING_ATTEMPTS: u8 = 10;

/// A block, as a peer has sent it.
#[derive(Debug)]
pub struct Block {
    /// The slot at which the block was proposed.
    pub slot: Slot,
    /// The encoded block, with all that came along with it.
    pub content: Vec<u8>,
}

/// A version of a batch that was handed to the block processor.
#[derive(Debug, Clone, Copy, PartialEq, Eq, Structural)]
pub struct Attempt {
    /// The peer that sent the batch.
    pub peer_id: PeerId,
    /// The hash of the blocks that it sent.
    pub hash: u64,
}

/// How the processing of a batch ended, as far as the batch is concerned.
#[derive(Debug, Clone, Copy, PartialEq, Eq, Structural)]
pub enum BatchProcessingResult {
    Success,
    FaultyFailure,
    NonFaultyFailure,
}

/// Whether a batch can still be worked on.
#[derive(Debug, Clone, Copy, PartialEq, Eq, Structural)]
pub enum BatchOperationOutcome {
    Continue,
    Failed,
}

/// An operation was asked of a batch whose state does not allow it.
#[derive(Debug)]
pub struct WrongState(pub String);

/// The state of a batch.
#[derive(Debug)]
pub enum BatchState {
    /// The batch has failed either downloading or processing, but can be requested again, or
    /// it has not been requested yet.
    AwaitingDownload,
    /// The batch is being downloaded.
    Downloading(PeerId, Vec<Block>, Id),
    /// The batch has been completely downloaded and is ready for processing.
    AwaitingProcessing(PeerId, Vec<Block>),
    /// The batch is being processed.
    Processing(Attempt),
    /// The batch was successfully processed and is waiting to be validated.
    ///
    /// It is not sufficient to process a batch successfully to consider it correct. A batch
    /// could be erroneously empty, or incomplete: it is valid once the next batch imports.
    AwaitingValidation(Attempt),
    /// The batch has maxed out the allowed attempts for either downloading or processing.
    Failed,
}

/// A [`BatchState`] with its blocks as a sequence.
#[verifier::ext_equal]
pub ghost enum BatchStateView {
    AwaitingDownload,
    Downloading(PeerId, Seq<Block>, Id),
    AwaitingProcessing(PeerId, Seq<Block>),
    Processing(Attempt),
    AwaitingValidation(Attempt),
    Failed,
}

impl View for BatchState {
    type V = BatchStateView;

    open spec fn view(&self) -> BatchStateView {
        match self {
            BatchState::AwaitingDownload => BatchStateView::AwaitingDownload,
            BatchState::Downloading(peer, blocks, id) => BatchStateView::Downloading(
                *peer,
                blocks@,
                *id,
            ),
            BatchState::AwaitingProcessing(peer, blocks) => BatchStateView::AwaitingProcessing(
                *peer,
                blocks@,
            ),
            BatchState::Processing(attempt) => BatchStateView::Processing(*attempt),
            BatchState::AwaitingValidation(attempt) => BatchStateView::AwaitingValidation(*attempt),
            BatchState::Failed => BatchStateView::Failed,
        }
    }
}

/// The product of two numbers, or the greatest number there is.
pub open spec fn capped_product(a: u64, b: u64) -> u64 {
    if a * b > u64::MAX {
        u64::MAX
    } else {
        (a * b) as u64
    }
}

/// Multiplies two numbers; a product that does not fit becomes the greatest number there is.
pub fn saturating_product(a: u64, b: u64) -> (product: u64)
    ensures
        product == capped_product(a, b),
{
    match a.checked_mul(b) {
        Some(product) => product,
        None => u64::MAX,
    }
}

/// What the blocks of a batch write into a hasher: how many they are, then of each its length and
/// its content.
pub open spec fn hash_input(blocks: Seq<Block>) -> Seq<Seq<u8>>
    decreases blocks.len(),
{
    if blocks.len() == 0 {
        Seq::empty()
    } else {
        hash_input(blocks.drop_last()).push(
            spec_u64_to_le_bytes(blocks.last().content@.len() as u64),
        ).push(blocks.last().content@)
    }
}

/// The hash by which two downloads of one batch are told apart.
pub open spec fn attempt_hash(blocks: Seq<Block>) -> u64 {
    DefaultHasher::spec_finish(
        seq![spec_u64_to_le_bytes(blocks.len() as u64)] + hash_input(blocks),
    )
}

/// The settings of a backfill batch.
pub struct BackFillBatchConfig {}

impl BackFillBatchConfig {
    pub fn max_batch_download_attempts() -> (attempts: u8)
        ensures
            attempts == MAX_BATCH_DOWNLOAD_ATTEMPTS,
    {
        MAX_BATCH_DOWNLOAD_ATTEMPTS
    }

    pub fn max_batch_processing_attempts() -> (attempts: u8)
        ensures
            attempts == MAX_BATCH_PROCESSING_ATTEMPTS,
    {
        MAX_BATCH_PROCESSING_ATTEMPTS
    }

    /// Hashes the blocks of a batch.
    pub fn batch_attempt_hash(blocks: &Vec<Block>) -> (hash: u64)
        ensures
            hash == attempt_hash(blocks@),
    {
        let mut hasher = DefaultHasher::new();
        let count: usize = blocks.len();
        hasher.write(u64_to_le_bytes(count as u64).as_slice());
        let ghost start = seq![spec_u64_to_le_bytes(blocks@.len() as u64)];
        assert(hasher@ =~= start);
        let mut i: usize = 0;
        while i < count
            invariant
                count == blocks@.len(),
                i <= count,
                hasher@ == start + hash_input(blocks@.take(i as int)),
            decreases count - i,
        {
            let block = &blocks[i];
            hasher.write(u64_to_le_bytes(block.content.len() as u64).as_slice());
            hasher.write(block.content.as_slice());
            proof {
                assert(blocks@.take(i + 1).drop_last() =~= blocks@.take(i as int));
                assert(hasher@ =~= start + hash_input(blocks@.take(i + 1)));
            }
            i = i + 1;
        }
        assert(blocks@.take(count as int) =~= blocks@);
        hasher.finish()
    }
}

/// A batch of consecutive slots.
#[derive(Debug)]
pub struct BatchInfo {
    /// The first slot of the batch.
    start_slot: Slot,
    /// The first slot behind the batch.
    end_slot: Slot,
    /// What is asked for.
    batch_type: BatchType,
    /// The versions of the batch that have been found invalid.
    failed_processing_attempts: Vec<Attempt>,
    /// The peers from which a download has failed, once for each failure.
    failed_download_attempts: Vec<PeerId>,
    /// The state of the batch.
    state: BatchState,
}

/// What a [`BatchInfo`] holds.
#[verifier::ext_equal]
pub ghost struct BatchView {
    pub start_slot: Slot,
    pub end_slot: Slot,
    pub batch_type: BatchType,
    pub failed_processing_attempts: Seq<Attempt>,
    pub failed_download_attempts: Seq<PeerId>,
    pub state: BatchStateView,
}

impl BatchView {
    /// A batch of `epochs` epochs that nobody has been asked for.
    pub open spec fn fresh(
        start_epoch: Epoch,
        epochs: u64,
        slots_per_epoch: u64,
        batch_type: BatchType,
    ) -> BatchView {
        let start_slot = capped_product(start_epoch, slots_per_epoch);
        BatchView {
            start_slot,
            end_slot: start_slot.saturating_add(capped_product(epochs, slots_per_epoch)),
            batch_type,
            failed_processing_attempts: Seq::empty(),
            failed_download_attempts: Seq::empty(),
            state: BatchStateView::AwaitingDownload,
        }
    }

    /// Whether a batch keeps within the attempts it is allowed.
    pub open spec fn is_alive(self) -> bool {
        &&& self.failed_processing_attempts.len() < MAX_BATCH_PROCESSING_ATTEMPTS
        &&& self.failed_download_attempts.len() < MAX_BATCH_DOWNLOAD_ATTEMPTS
        &&& !(self.state is Failed)
    }

    /// Whether the batch is being downloaded from this peer by this request.
    pub open spec fn is_expecting(self, peer: PeerId, request_id: Id) -> bool {
        self.is_downloading_from(peer) && self.state->Downloading_2 == request_id
    }

    /// Whether the batch is being downloaded from this peer.
    pub open spec fn is_downloading_from(self, peer: PeerId) -> bool {
        self.state is Downloading && self.state->Downloading_0 == peer
    }

    /// Whether the batch takes up room among the batches that wait to be processed.
    pub open spec fn is_in_buffer(self) -> bool {
        self.state is Downloading || self.state is AwaitingProcessing
    }

    /// The peer that the state of the batch is owed to.
    pub open spec fn current_peer(self) -> Option<PeerId> {
        match self.state {
            BatchStateView::Downloading(peer, _, _) => Some(peer),
            BatchStateView::AwaitingProcessing(peer, _) => Some(peer),
            BatchStateView::Processing(attempt) => Some(attempt.peer_id),
            BatchStateView::AwaitingValidation(attempt) => Some(attempt.peer_id),
            BatchStateView::AwaitingDownload | BatchStateView::Failed => None,
        }
    }

    /// Whether an attempt at the batch has failed with this peer.
    pub open spec fn has_failed_with(self, peer: PeerId) -> bool {
        ||| self.failed_download_attempts.contains(peer)
        ||| exists|i: int|
            0 <= i < self.failed_processing_attempts.len()
                && #[trigger] self.failed_processing_attempts[i].peer_id == peer
    }

    /// The request for the blocks of the batch.
    pub open spec fn request(self) -> BlocksByRangeRequest {
        BlocksByRangeRequest {
            start_slot: self.start_slot,
            count: self.end_slot.saturating_sub(self.start_slot),
        }
    }

    /// Whether the batch can still be worked on.
    pub open spec fn outcome(self) -> BatchOperationOutcome {
        if self.state is Failed {
            BatchOperationOutcome::Failed
        } else {
            BatchOperationOutcome::Continue
        }
    }

    /// The batch in another state.
    pub open spec fn in_state(self, state: BatchStateView) -> BatchView {
        BatchView { state, ..self }
    }

    /// The batch once it is being downloaded.
    pub open spec fn started_downloading(self, peer: PeerId, request_id: Id) -> BatchView {
        self.in_state(BatchStateView::Downloading(peer, Seq::empty(), request_id))
    }

    /// The batch with one more block; it is being downloaded.
    pub open spec fn with_block(self, block: Block) -> BatchView {
        self.in_state(
            BatchStateView::Downloading(
                self.state->Downloading_0,
                self.state->Downloading_1.push(block),
                self.state->Downloading_2,
            ),
        )
    }

    /// The batch once a download from `peer` has failed. It can be downloaded again unless it has
    /// used up its attempts.
    pub open spec fn failed_downloading(self, peer: PeerId) -> BatchView {
        let failed = self.failed_download_attempts.push(peer);
        BatchView {
            failed_download_attempts: failed,
            state: if failed.len() >= MAX_BATCH_DOWNLOAD_ATTEMPTS {
                BatchStateView::Failed
            } else {
                BatchStateView::AwaitingDownload
            },
            ..self
        }
    }

    /// If the first block that came lies before the batch, or the last one behind it, the boundary
    /// that is crossed, and the slot of that block.
    pub open spec fn crossed_boundary(self) -> Option<(Slot, Slot)> {
        let blocks = self.state->Downloading_1;
        if blocks.len() == 0 {
            None
        } else if blocks[0].slot < self.start_slot {
            Some((self.start_slot, blocks[0].slot))
        } else if self.end_slot < blocks.last().slot {
            Some((self.end_slot, blocks.last().slot))
        } else {
            None
        }
    }

    /// The batch once its last block has come; it is being downloaded, and no block lies beyond
    /// it.
    pub open spec fn completed_downloading(self) -> BatchView {
        self.in_state(
            BatchStateView::AwaitingProcessing(
                self.state->Downloading_0,
                self.state->Downloading_1,
            ),
        )
    }

    /// The batch once its blocks are being processed; it is awaiting that.
    pub open spec fn started_processing(self) -> BatchView {
        self.in_state(
            BatchStateView::Processing(
                Attempt {
                    peer_id: self.state->AwaitingProcessing_0,
                    hash: attempt_hash(self.state->AwaitingProcessing_1),
                },
            ),
        )
    }

    /// The batch once the version `attempt` of it was found invalid. It can be downloaded again
    /// unless it has used up its attempts.
    pub open spec fn failed_processing(self, attempt: Attempt) -> BatchView {
        let failed = self.failed_processing_attempts.push(attempt);
        BatchView {
            failed_processing_attempts: failed,
            state: if failed.len() >= MAX_BATCH_PROCESSING_ATTEMPTS {
                BatchStateView::Failed
            } else {
                BatchStateView::AwaitingDownload
            },
            ..self
        }
    }

    /// The batch once its blocks have been processed; they are being processed.
    pub open spec fn completed_processing(self, result: BatchProcessingResult) -> BatchView {
        match result {
            BatchProcessingResult::Success => self.in_state(
                BatchStateView::AwaitingValidation(self.state->Processing_0),
            ),
            BatchProcessingResult::FaultyFailure => self.failed_processing(
                self.state->Processing_0,
            ),
            BatchProcessingResult::NonFaultyFailure => self.in_state(
                BatchStateView::AwaitingDownload,
            ),
        }
    }

    /// The batch once it has been found invalid after all; it is awaiting validation.
    pub open spec fn failed_validation(self) -> BatchView {
        self.failed_processing(self.state->AwaitingValidation_0)
    }
}

impl View for BatchInfo {
    type V = BatchView;

    closed spec fn view(&self) -> BatchView {
        BatchView {
            start_slot: self.start_slot,
            end_slot: self.end_slot,
            batch_type: self.batch_type,
            failed_processing_attempts: self.failed_processing_attempts@,
            failed_download_attempts: self.failed_download_attempts@,
            state: self.state@,
        }
    }
}

/// What is wrong when a download is begun of a batch that does not await it.
pub open spec fn cannot_download() -> Seq<char> {
    "Starting download for batch in wrong state"@
}

/// What is wrong when a block comes for a batch that is not being downloaded.
pub open spec fn cannot_add_block() -> Seq<char> {
    "Add block for batch in wrong state"@
}

/// What is wrong when a download ends of a batch that is not being downloaded.
pub open spec fn cannot_complete_download() -> Seq<char> {
    "Download completed for batch in wrong state"@
}

/// What is wrong when a download fails of a batch that is not being downloaded.
pub open spec fn cannot_fail_download() -> Seq<char> {
    "Download failed for batch in wrong state"@
}

/// What is wrong when a batch is processed that does not await it.
pub open spec fn cannot_process() -> Seq<char> {
    "Starting processing for batch in wrong state"@
}

/// What is wrong when the processing ends of a batch that is not being processed.
pub open spec fn cannot_complete_processing() -> Seq<char> {
    "Processing completed for batch in wrong state"@
}

/// What is wrong when a batch is found invalid that does not await validation.
pub open spec fn cannot_fail_validation() -> Seq<char> {
    "Validation failed for batch in wrong state"@
}

impl BatchInfo {
    /// A batch of `num_of_epochs` epochs, from `start_epoch` on, that nobody has been asked for.
    pub fn new(
        start_epoch: Epoch,
        num_of_epochs: u64,
        slots_per_epoch: u64,
        batch_type: BatchType,
    ) -> (batch: Self)
        ensures
            batch@ == BatchView::fresh(start_epoch, num_of_epochs, slots_per_epoch, batch_type),
    {
        let start_slot: u64 = saturating_product(start_epoch, slots_per_epoch);
        let length: u64 = saturating_product(num_of_epochs, slots_per_epoch);
        let batch = BatchInfo {
            start_slot,
            end_slot: start_slot.saturating_add(length),
            batch_type,
            failed_processing_attempts: Vec::new(),
            failed_download_attempts: Vec::new(),
            state: BatchState::AwaitingDownload,
        };
        assert(batch@ =~= BatchView::fresh(
            start_epoch,
            num_of_epochs,
            slots_per_epoch,
            batch_type,
        ));
        batch
    }

    /// Whether an attempt at the batch has failed with this peer.
    pub fn has_failed_with(&self, peer: PeerId) -> (failed: bool)
        ensures
            failed == self@.has_failed_with(peer),
    {
        let mut i: usize = 0;
        while i < self.failed_download_attempts.len()
            invariant
                i <= self.failed_download_attempts@.len(),
                forall|j: int| 0 <= j < i ==> self.failed_download_attempts@[j] != peer,
            decreases self.failed_download_attempts@.len() - i,
        {
            if self.failed_download_attempts[i] == peer {
                return true;
            }
            i = i + 1;
        }
        let mut k: usize = 0;
        while k < self.failed_processing_attempts.len()
            invariant
                k <= self.failed_processing_attempts@.len(),
                forall|j: int|
                    0 <= j < k ==> (#[trigger] self.failed_processing_attempts@[j]).peer_id != peer,
            decreases self.failed_processing_attempts@.len() - k,
        {
            if self.failed_processing_attempts[k].peer_id == peer {
                assert(self@.failed_processing_attempts[k as int].peer_id == peer);
                return true;
            }
            k = k + 1;
        }
        false
    }

    /// Verifies if an incoming block belongs to this batch.
    pub fn is_expecting_block(&self, peer_id: PeerId, request_id: Id) -> (expecting: bool)
        ensures
            expecting == self@.is_expecting(peer_id, request_id),
    {
        match &self.state {
            BatchState::Downloading(expected_peer, _, expected_id) => {
                peer_id == *expected_peer && request_id == *expected_id
            },
            _ => false,
        }
    }

    /// If the batch is being downloaded, and the first block that came lies before it, or the last
    /// one behind it, the boundary that is crossed, and the slot of that block.
    pub fn crossed_boundary(&self) -> (crossed: Option<(Slot, Slot)>)
        ensures
            crossed == (if self@.state is Downloading {
                self@.crossed_boundary()
            } else {
                None
            }),
    {
        match &self.state {
            BatchState::Downloading(_, blocks, _) => {
                let received: usize = blocks.len();
                if received == 0 {
                    return None;
                }
                let first_slot: Slot = blocks[0].slot;
                let last_slot: Slot = blocks[received - 1].slot;
                if first_slot < self.start_slot {
                    Some((self.start_slot, first_slot))
                } else if self.end_slot < last_slot {
                    Some((self.end_slot, last_slot))
                } else {
                    None
                }
            },
            _ => None,
        }
    }

    /// Returns the peer that is currently responsible for progressing the state of the batch.
    pub fn current_peer(&self) -> (peer: Option<PeerId>)
        ensures
            peer == self@.current_peer(),
    {
        match &self.state {
            BatchState::AwaitingDownload | BatchState::Failed => None,
            BatchState::Downloading(peer_id, _, _) => Some(*peer_id),
            BatchState::AwaitingProcessing(peer_id, _) => Some(*peer_id),
            BatchState::Processing(attempt) => Some(attempt.peer_id),
            BatchState::AwaitingValidation(attempt) => Some(attempt.peer_id),
        }
    }

    /// Returns the request for the blocks of the batch, and what it is to ask for.
    pub fn to_blocks_by_range_request(&self) -> (request: (BlocksByRangeRequest, BatchType))
        ensures
            request == (self@.request(), self@.batch_type),
    {
        (
            BlocksByRangeRequest {
                start_slot: self.start_slot,
                count: self.end_slot.saturating_sub(self.start_slot),
            },
            self.batch_type,
        )
    }

    /// Whether the batch can still be worked on.
    pub fn outcome(&self) -> (outcome: BatchOperationOutcome)
        ensures
            outcome == self@.outcome(),
    {
        match &self.state {
            BatchState::Failed => BatchOperationOutcome::Failed,
            _ => BatchOperationOutcome::Continue,
        }
    }

    /// The state of the batch.
    pub fn state(&self) -> (state: &BatchState)
        ensures
            state@ == self@.state,
    {
        &self.state
    }

    /// The versions of the batch that have been found invalid.
    pub fn attempts(&self) -> (attempts: &Vec<Attempt>)
        ensures
            attempts@ == self@.failed_processing_attempts,
    {
        &self.failed_processing_attempts
    }

    /// Begins to download the batch from a peer.
    pub fn start_downloading_from_peer(&mut self, peer: PeerId, request_id: Id) -> (result: Result<
        (),
        WrongState,
    >)
        ensures
            match result {
                Ok(()) => {
                    &&& old(self)@.state is AwaitingDownload
                    &&& final(self)@ == old(self)@.started_downloading(peer, request_id)
                },
                Err(e) => {
                    &&& !(old(self)@.state is AwaitingDownload)
                    &&& final(self)@ == old(self)@
                    &&& e.0@ == cannot_download()
                },
            },
    {
        match &self.state {
            BatchState::AwaitingDownload => {},
            _ => {
                return Err(WrongState("Starting download for batch in wrong state".to_owned()));
            },
        }
        self.state = BatchState::Downloading(peer, Vec::new(), request_id);
        assert(self@ =~= old(self)@.started_downloading(peer, request_id));
        Ok(())
    }

    /// Adds a block to the batch, which is being downloaded.
    pub fn add_block(&mut self, block: Block) -> (result: Result<(), WrongState>)
        ensures
            match result {
                Ok(()) => {
                    &&& old(self)@.state is Downloading
                    &&& final(self)@ == old(self)@.with_block(block)
                },
                Err(e) => {
                    &&& !(old(self)@.state is Downloading)
                    &&& final(self)@ == old(self)@
                    &&& e.0@ == cannot_add_block()
                },
            },
    {
        let mut state = BatchState::AwaitingDownload;
        core::mem::swap(&mut state, &mut self.state);
        match state {
            BatchState::Downloading(peer, mut blocks, request_id) => {
                blocks.push(block);
                self.state = BatchState::Downloading(peer, blocks, request_id);
                assert(self@ =~= old(self)@.with_block(block));
                Ok(())
            },
            other => {
                self.state = other;
                Err(WrongState("Add block for batch in wrong state".to_owned()))
            },
        }
    }

    /// Ends the download of the batch. If the blocks are in the range of the batch, it is ready to
    /// be processed, and the number of blocks is returned; else this is a failed download, and the
    /// boundary that the blocks cross is returned, the slot with which they cross it, and whether
    /// the batch can be tried again.
    pub fn download_completed(&mut self) -> (result: Result<
        usize,
        Result<(Slot, Slot, BatchOperationOutcome), WrongState>,
    >)
        ensures
            match result {
                Ok(received) => {
                    &&& old(self)@.state is Downloading
                    &&& old(self)@.crossed_boundary() is None
                    &&& received == old(self)@.state->Downloading_1.len()
                    &&& final(self)@ == old(self)@.completed_downloading()
                },
                Err(Ok((expected, received, outcome))) => {
                    &&& old(self)@.state is Downloading
                    &&& old(self)@.crossed_boundary() == Some((expected, received))
                    &&& final(self)@ == old(self)@.failed_downloading(
                        old(self)@.state->Downloading_0,
                    )
                    &&& outcome == final(self)@.outcome()
                },
                Err(Err(e)) => {
                    &&& !(old(self)@.state is Downloading)
                    &&& final(self)@ == old(self)@
                    &&& e.0@ == cannot_complete_download()
                },
            },
    {
        let crossed = self.crossed_boundary();
        let mut state = BatchState::AwaitingDownload;
        core::mem::swap(&mut state, &mut self.state);
        match state {
            BatchState::Downloading(peer, blocks, _) => {
                let received: usize = blocks.len();
                if let Some((expected_boundary, received_boundary)) = crossed {
                    self.fail_download(peer);
                    assert(self@ =~= old(self)@.failed_downloading(peer));
                    return Err(Ok((expected_boundary, received_boundary, self.outcome())));
                }
                self.state = BatchState::AwaitingProcessing(peer, blocks);
                assert(self@ =~= old(self)@.completed_downloading());
                Ok(received)
            },
            other => {
                self.state = other;
                Err(Err(WrongState("Download completed for batch in wrong state".to_owned())))
            },
        }
    }

    /// Marks the download of the batch as failed, and returns whether it can be tried again.
    pub fn download_failed(&mut self) -> (result: Result<BatchOperationOutcome, WrongState>)
        ensures
            match result {
                Ok(outcome) => {
                    &&& old(self)@.state is Downloading
                    &&& final(self)@ == old(self)@.failed_downloading(
                        old(self)@.state->Downloading_0,
                    )
                    &&& outcome == final(self)@.outcome()
                },
                Err(e) => {
                    &&& !(old(self)@.state is Downloading)
                    &&& final(self)@ == old(self)@
                    &&& e.0@ == cannot_fail_download()
                },
            },
    {
        let peer: PeerId = match &self.state {
            BatchState::Downloading(peer, _, _) => *peer,
            _ => {
                return Err(WrongState("Download failed for batch in wrong state".to_owned()));
            },
        };
        self.fail_download(peer);
        Ok(self.outcome())
    }

    /// Registers a failed download.
    fn fail_download(&mut self, peer: PeerId)
        ensures
            final(self)@ == old(self)@.failed_downloading(peer),
    {
        self.failed_download_attempts.push(peer);
        let limit: u8 = BackFillBatchConfig::max_batch_download_attempts();
        self.state = if self.failed_download_attempts.len() >= limit as usize {
            BatchState::Failed
        } else {
            BatchState::AwaitingDownload
        };
        assert(self@ =~= old(self)@.failed_downloading(peer));
    }

    /// Begins to process the batch, and hands out its blocks.
    pub fn start_processing(&mut self) -> (result: Result<Vec<Block>, WrongState>)
        ensures
            match result {
                Ok(blocks) => {
                    &&& old(self)@.state is AwaitingProcessing
                    &&& blocks@ == old(self)@.state->AwaitingProcessing_1
                    &&& final(self)@ == old(self)@.started_processing()
                },
                Err(e) => {
                    &&& !(old(self)@.state is AwaitingProcessing)
                    &&& final(self)@ == old(self)@
                    &&& e.0@ == cannot_process()
                },
            },
    {
        let mut state = BatchState::AwaitingDownload;
        core::mem::swap(&mut state, &mut self.state);
        match state {
            BatchState::AwaitingProcessing(peer_id, blocks) => {
                let hash: u64 = BackFillBatchConfig::batch_attempt_hash(&blocks);
                self.state = BatchState::Processing(Attempt { peer_id, hash });
                assert(self@ =~= old(self)@.started_processing());
                Ok(blocks)
            },
            other => {
                self.state = other;
                Err(WrongState("Starting processing for batch in wrong state".to_owned()))
            },
        }
    }

    /// Registers an invalid version of the batch.
    fn fail_processing(&mut self, attempt: Attempt)
        ensures
            final(self)@ == old(self)@.failed_processing(attempt),
    {
        self.failed_processing_attempts.push(attempt);
        let limit: u8 = BackFillBatchConfig::max_batch_processing_attempts();
        self.state = if self.failed_processing_attempts.len() >= limit as usize {
            BatchState::Failed
        } else {
            BatchState::AwaitingDownload
        };
        assert(self@ =~= old(self)@.failed_processing(attempt));
    }

    /// Ends the processing of the batch, and returns whether it can still be worked on.
    pub fn processing_completed(&mut self, result: BatchProcessingResult) -> (outcome: Result<
        BatchOperationOutcome,
        WrongState,
    >)
        ensures
            match outcome {
                Ok(outcome) => {
                    &&& old(self)@.state is Processing
                    &&& final(self)@ == old(self)@.completed_processing(result)
                    &&& outcome == final(self)@.outcome()
                },
                Err(e) => {
                    &&& !(old(self)@.state is Processing)
                    &&& final(self)@ == old(self)@
                    &&& e.0@ == cannot_complete_processing()
                },
            },
    {
        let attempt: Attempt = match &self.state {
            BatchState::Processing(attempt) => *attempt,
            _ => {
                return Err(WrongState("Processing completed for batch in wrong state".to_owned()));
            },
        };
        match result {
            BatchProcessingResult::Success => {
                self.state = BatchState::AwaitingValidation(attempt);
            },
            BatchProcessingResult::FaultyFailure => {
                self.fail_processing(attempt);
            },
            BatchProcessingResult::NonFaultyFailure => {
                self.state = BatchState::AwaitingDownload;
            },
        }
        assert(self@ =~= old(self)@.completed_processing(result));
        Ok(self.outcome())
    }

    /// Marks the batch, which was awaiting validation, as invalid, and returns whether it can be
    /// tried again.
    pub fn validation_failed(&mut self) -> (outcome: Result<BatchOperationOutcome, WrongState>)
        ensures
            match outcome {
                Ok(outcome) => {
                    &&& old(self)@.state is AwaitingValidation
                    &&& final(self)@ == old(self)@.failed_validation()
                    &&& outcome == final(self)@.outcome()
                },
                Err(e) => {
                    &&& !(old(self)@.state is AwaitingValidation)
                    &&& final(self)@ == old(self)@
                    &&& e.0@ == cannot_fail_validation()
                },
            },
    {
        let attempt: Attempt = match &self.state {
            BatchState::AwaitingValidation(attempt) => *attempt,
            _ => {
                return Err(WrongState("Validation failed for batch in wrong state".to_owned()));
            },
        };
        self.fail_processing(attempt);
        Ok(self.outcome())
    }
}

} // verus!
