//! Runs of the whole sync.
use backfill_sync::backfill::BackFillSync;
use backfill_sync::batch::{
    BatchState, Block, MAX_BATCH_DOWNLOAD_ATTEMPTS, MAX_BATCH_PROCESSING_ATTEMPTS,
};
use backfill_sync::model::{Waiting, BACKFILL_BATCH_BUFFER_SIZE};
use backfill_sync::peers::PeerPool;
use backfill_sync::types::{
    AnchorInfo, BackFillError, BackFillState, BatchProcessResult, BatchType, BlocksByRangeRequest,
    Outcome, PeerAction, PeerReport, ProcessResult, ReportReason, Step, SyncStart,
    BACKFILL_EPOCHS_PER_BATCH,
};

const SLOTS_PER_EPOCH: u64 = 32;

/// A network that answers every request, and a processor that takes every segment.
struct Network {
    peers: Vec<u64>,
    last_id: u32,
    /// The batch, the peer and the id of each request.
    requests: Vec<(u64, u64, u32)>,
    /// The batch of each segment, and the slots of its blocks.
    segments: Vec<(u64, Vec<u64>)>,
}

impl Network {
    fn new(peers: &[u64]) -> Network {
        Network { peers: peers.to_vec(), last_id: 0, requests: Vec::new(), segments: Vec::new() }
    }

    fn pool(&self) -> PeerPool {
        PeerPool::new(self.peers.clone())
    }

    /// The peer and the id of the last request for a batch.
    fn last_request(&self, batch_id: u64) -> (u64, u32) {
        let found = self.requests.iter().rev().find(|request| request.0 == batch_id);
        let request = found.expect("the batch has been requested");
        (request.1, request.2)
    }

    /// Answers one step, unless it is the end of the call.
    fn answer(&mut self, sync: &mut BackFillSync, step: Step) -> Result<Step, Step> {
        let pool = self.pool();
        match step {
            Step::BatchType { .. } => Ok(sync.on_batch_type(BatchType::Blocks)),
            Step::RequestBlocks { peer, batch_id, .. } => {
                self.last_id += 1;
                self.requests.push((batch_id, peer, self.last_id));
                Ok(sync.on_request_sent(&pool, self.last_id))
            }
            Step::SendChainSegment { batch_id, blocks } => {
                self.segments.push((batch_id, blocks.iter().map(|block| block.slot).collect()));
                Ok(sync.on_segment_sent(&pool))
            }
            done => Err(done),
        }
    }

    /// Answers every step until the call has come to its end.
    fn run(&mut self, sync: &mut BackFillSync, step: Step) -> Result<Outcome, BackFillError> {
        let mut step = step;
        loop {
            match self.answer(sync, step) {
                Ok(next) => step = next,
                Err(Step::Done(result)) => {
                    assert_eq!(sync.waiting(), Waiting::Nothing);
                    return result;
                }
                Err(other) => panic!("not an end: {:?}", other),
            }
        }
    }

    fn start(
        &mut self,
        sync: &mut BackFillSync,
        anchor: Option<AnchorInfo>,
    ) -> Result<Outcome, BackFillError> {
        let step = sync.start(&self.pool(), anchor);
        self.run(sync, step)
    }

    /// Delivers blocks of these slots for a batch, and their end.
    fn deliver(
        &mut self,
        sync: &mut BackFillSync,
        batch_id: u64,
        slots: &[u64],
        content: u8,
    ) -> Result<Outcome, BackFillError> {
        let (peer, id) = self.last_request(batch_id);
        for slot in slots {
            let block = Block { slot: *slot, content: vec![content, *slot as u8] };
            let step = sync.on_block_response(&self.pool(), batch_id, peer, id, Some(block));
            assert!(is_successful(&self.run(sync, step)));
        }
        let step = sync.on_block_response(&self.pool(), batch_id, peer, id, None);
        self.run(sync, step)
    }

    fn result(
        &mut self,
        sync: &mut BackFillSync,
        batch_id: u64,
        result: BatchProcessResult,
        anchor: Option<AnchorInfo>,
    ) -> (Vec<PeerReport>, Result<Outcome, BackFillError>) {
        let (reports, step) = sync.on_batch_process_result(&self.pool(), batch_id, result, anchor);
        (reports, self.run(sync, step))
    }

    fn error(&mut self, sync: &mut BackFillSync, batch_id: u64) -> Result<Outcome, BackFillError> {
        let (peer, id) = self.last_request(batch_id);
        let step = sync.inject_error(&self.pool(), batch_id, peer, id);
        self.run(sync, step)
    }
}

fn anchor(oldest_block_slot: u64) -> Option<AnchorInfo> {
    Some(AnchorInfo { oldest_block_slot, block_backfill_complete: false })
}

fn complete_anchor() -> Option<AnchorInfo> {
    Some(AnchorInfo { oldest_block_slot: 0, block_backfill_complete: true })
}

/// A sync that starts at an epoch and ends at slot 0.
fn sync_from(epoch: u64) -> BackFillSync {
    BackFillSync::new(anchor(epoch * SLOTS_PER_EPOCH), 0, SLOTS_PER_EPOCH)
}

fn is_successful(result: &Result<Outcome, BackFillError>) -> bool {
    matches!(result, Ok(Outcome::Processed(ProcessResult::Successful)))
}

fn success(was_non_empty: bool) -> BatchProcessResult {
    BatchProcessResult::Success { was_non_empty }
}

fn faulty(imported_blocks: bool) -> BatchProcessResult {
    BatchProcessResult::FaultyFailure {
        imported_blocks,
        penalty: PeerAction::HighToleranceError,
    }
}

#[test]
fn a_new_sync_reads_the_anchor() {
    let none = BackFillSync::new(None, 0, SLOTS_PER_EPOCH);
    assert_eq!(none.state(), BackFillState::NotRequired);
    assert_eq!(none.current_start(), 0);
    let complete = BackFillSync::new(complete_anchor(), 0, SLOTS_PER_EPOCH);
    assert_eq!(complete.state(), BackFillState::Completed);
    assert_eq!(complete.current_start(), 0);
    let paused = BackFillSync::new(anchor(101), 0, SLOTS_PER_EPOCH);
    assert_eq!(paused.state(), BackFillState::Paused);
    assert_eq!(paused.current_start(), 3);
    assert_eq!(paused.processing_target(), 3);
    assert_eq!(paused.validated_batches(), 0);
    assert_eq!(paused.waiting(), Waiting::Nothing);
}

#[test]
fn a_sync_without_peers_does_not_start() {
    let mut sync = sync_from(3);
    let mut network = Network::new(&[]);
    let outcome = network.start(&mut sync, anchor(96));
    assert!(matches!(outcome, Ok(Outcome::Started(SyncStart::NotSyncing))));
    assert_eq!(sync.state(), BackFillState::Paused);
}

#[test]
fn a_complete_or_unneeded_sync_does_not_start() {
    for anchor_info in [None, complete_anchor()] {
        let mut sync = BackFillSync::new(anchor_info, 0, SLOTS_PER_EPOCH);
        let state = sync.state();
        let outcome = Network::new(&[1]).start(&mut sync, anchor_info);
        assert!(matches!(outcome, Ok(Outcome::Started(SyncStart::NotSyncing))));
        assert_eq!(sync.state(), state);
    }
}

#[test]
fn starting_asks_for_the_first_batch_step_by_step() {
    let mut sync = sync_from(3);
    let pool = PeerPool::new(vec![7]);
    let step = sync.start(&pool, anchor(96));
    assert!(matches!(step, Step::BatchType { batch_id: 3 }));
    assert_eq!(sync.waiting(), Waiting::BatchType { batch_id: 3, peer: 7 });
    let step = sync.on_batch_type(BatchType::BlocksAndBlobs);
    match step {
        Step::RequestBlocks { peer, batch_id, request, batch_type } => {
            assert_eq!((peer, batch_id), (7, 3));
            assert_eq!(request, BlocksByRangeRequest { start_slot: 96, count: 32 });
            assert_eq!(batch_type, BatchType::BlocksAndBlobs);
        }
        other => panic!("{:?}", other),
    }
    assert_eq!(sync.waiting(), Waiting::Request { batch_id: 3, peer: 7 });
    match sync.on_request_sent(&pool, 5) {
        Step::Done(Ok(Outcome::Started(SyncStart::Syncing { completed, remaining }))) => {
            assert_eq!((completed, remaining), (0, 96));
        }
        other => panic!("{:?}", other),
    }
    assert_eq!(sync.state(), BackFillState::Syncing);
    assert!(matches!(
        sync.batch(3).map(|batch| batch.state()),
        Some(BatchState::Downloading(7, _, 5))
    ));
}

#[test]
fn the_progress_counts_slots_above_the_end_of_the_sync() {
    let mut sync = BackFillSync::new(anchor(100 * 32), 1000, SLOTS_PER_EPOCH);
    let outcome = Network::new(&[1]).start(&mut sync, anchor(100 * 32));
    match outcome {
        Ok(Outcome::Started(SyncStart::Syncing { completed, remaining })) => {
            assert_eq!((completed, remaining), (0, 2200));
        }
        other => panic!("{:?}", other),
    }
    // a sync that runs already tells the same
    match Network::new(&[1]).start(&mut sync, None) {
        Ok(Outcome::Started(SyncStart::Syncing { completed, remaining })) => {
            assert_eq!((completed, remaining), (0, 2200));
        }
        other => panic!("{:?}", other),
    }
}

#[test]
fn a_sync_runs_to_its_end() {
    let mut sync = sync_from(1);
    let mut network = Network::new(&[1]);
    assert!(network.start(&mut sync, anchor(32)).is_ok());
    // the next batch is requested before the first one is processed
    assert!(is_successful(&network.deliver(&mut sync, 1, &[33, 40], 0)));
    assert_eq!(network.requests, vec![(1, 1, 1), (0, 1, 2)]);
    assert_eq!(network.segments, vec![(1, vec![33, 40])]);
    assert!(matches!(
        sync.batch(1).map(|batch| batch.state()),
        Some(BatchState::Processing(_))
    ));
    let (reports, outcome) = network.result(&mut sync, 1, success(true), anchor(33));
    assert!(reports.is_empty());
    assert!(is_successful(&outcome));
    assert_eq!(sync.processing_target(), 0);
    assert_eq!(sync.current_start(), 1);
    assert!(is_successful(&network.deliver(&mut sync, 0, &[0, 31], 0)));
    assert_eq!(network.segments, vec![(1, vec![33, 40]), (0, vec![0, 31])]);
    let (reports, outcome) = network.result(&mut sync, 0, success(true), complete_anchor());
    assert!(reports.is_empty());
    assert!(matches!(outcome, Ok(Outcome::Processed(ProcessResult::SyncCompleted))));
    assert_eq!(sync.state(), BackFillState::Completed);
    assert_eq!(sync.current_start(), 0);
    assert_eq!(sync.validated_batches(), 1);
    assert!(sync.batch(1).is_none());
    assert_eq!(network.requests.len(), 2);
}

#[test]
fn the_sync_is_not_complete_before_the_chain_agrees() {
    let mut sync = sync_from(0);
    let mut network = Network::new(&[1]);
    assert!(network.start(&mut sync, anchor(5)).is_ok());
    assert!(is_successful(&network.deliver(&mut sync, 0, &[3], 0)));
    let (_, outcome) = network.result(&mut sync, 0, success(true), anchor(3));
    assert!(is_successful(&outcome));
    assert_eq!(sync.state(), BackFillState::Syncing);
}

#[test]
fn no_batch_is_requested_beyond_genesis() {
    let mut sync = BackFillSync::new(anchor(3 * 32), 64, SLOTS_PER_EPOCH);
    let mut network = Network::new(&[1, 2, 3, 4, 5]);
    assert!(network.start(&mut sync, anchor(3 * 32)).is_ok());
    let mut batches: Vec<u64> = network.requests.iter().map(|request| request.0).collect();
    batches.sort_unstable();
    assert_eq!(batches, vec![2, 3]);
}

#[test]
fn batches_are_requested_up_to_the_buffer_size() {
    let mut sync = sync_from(1000);
    let peers: Vec<u64> = (0..50).collect();
    let mut network = Network::new(&peers);
    assert!(network.start(&mut sync, anchor(32000)).is_ok());
    assert_eq!(network.requests.len(), BACKFILL_BATCH_BUFFER_SIZE as usize);
    let batches: Vec<u64> = network.requests.iter().map(|request| request.0).collect();
    let expected: Vec<u64> =
        (0..20).map(|i| 1000 - i * BACKFILL_EPOCHS_PER_BATCH).collect();
    assert_eq!(batches, expected);
    // each of another peer
    let mut asked: Vec<u64> = network.requests.iter().map(|request| request.1).collect();
    asked.sort_unstable();
    asked.dedup();
    assert_eq!(asked.len(), 20);
    // a batch that has been downloaded is still in the buffer
    assert!(is_successful(&network.deliver(&mut sync, 990, &[], 0)));
    assert_eq!(network.requests.len(), 20);
    // once one is being processed, one more is requested
    assert!(is_successful(&network.deliver(&mut sync, 1000, &[], 0)));
    assert_eq!(network.requests.len(), 20);
    assert!(is_successful(&network.deliver(&mut sync, 991, &[], 0)));
    assert_eq!(network.requests.len(), 21);
    assert_eq!(network.requests[20].0, 980);
}

#[test]
fn only_one_batch_is_processed_at_a_time() {
    let mut sync = sync_from(10);
    let mut network = Network::new(&[1, 2, 3]);
    assert!(network.start(&mut sync, anchor(320)).is_ok());
    // a batch that is not next is not processed
    assert!(is_successful(&network.deliver(&mut sync, 9, &[288], 0)));
    assert!(network.segments.is_empty());
    assert!(matches!(
        sync.batch(9).map(|batch| batch.state()),
        Some(BatchState::AwaitingProcessing(_, _))
    ));
    assert!(is_successful(&network.deliver(&mut sync, 10, &[320], 0)));
    assert!(is_successful(&network.deliver(&mut sync, 8, &[256], 0)));
    assert_eq!(network.segments, vec![(10, vec![320])]);
    let (_, outcome) = network.result(&mut sync, 10, success(true), anchor(320));
    assert!(is_successful(&outcome));
    assert_eq!(network.segments, vec![(10, vec![320]), (9, vec![288])]);
}

#[test]
fn a_paused_sync_processes_nothing() {
    let mut sync = sync_from(10);
    let mut network = Network::new(&[1]);
    assert!(network.start(&mut sync, anchor(320)).is_ok());
    sync.pause();
    assert_eq!(sync.state(), BackFillState::Paused);
    assert!(is_successful(&network.deliver(&mut sync, 10, &[320], 0)));
    assert!(network.segments.is_empty());
    assert_eq!(network.requests.len(), 1);
    assert!(network.start(&mut sync, anchor(320)).is_ok());
    assert_eq!(network.segments, vec![(10, vec![320])]);
}

#[test]
fn only_a_running_sync_is_paused() {
    let mut sync = BackFillSync::new(complete_anchor(), 0, SLOTS_PER_EPOCH);
    sync.pause();
    assert_eq!(sync.state(), BackFillState::Completed);
}

#[test]
fn unexpected_answers_are_ignored() {
    let mut sync = sync_from(10);
    let mut network = Network::new(&[1]);
    assert!(network.start(&mut sync, anchor(320)).is_ok());
    let pool = network.pool();
    let block = |slot: u64| Some(Block { slot, content: vec![1] });
    // another batch, another peer, another request
    for (batch_id, peer, id) in [(9, 1, 1), (10, 2, 1), (10, 1, 2)] {
        let step = sync.on_block_response(&pool, batch_id, peer, id, block(320));
        assert!(matches!(
            step,
            Step::Done(Ok(Outcome::Processed(ProcessResult::Successful)))
        ));
        let step = sync.on_block_response(&pool, batch_id, peer, id, None);
        assert!(matches!(
            step,
            Step::Done(Ok(Outcome::Processed(ProcessResult::Successful)))
        ));
        let step = sync.inject_error(&pool, batch_id, peer, id);
        assert!(matches!(step, Step::Done(Ok(Outcome::Handled))));
    }
    let (reports, step) =
        sync.on_batch_process_result(&pool, 10, faulty(false), anchor(320));
    assert!(reports.is_empty());
    assert!(matches!(step, Step::Done(Ok(Outcome::Processed(ProcessResult::Successful)))));
    match sync.batch(10).map(|batch| batch.state()) {
        Some(BatchState::Downloading(1, blocks, 1)) => assert!(blocks.is_empty()),
        other => panic!("{:?}", other),
    }
}

#[test]
fn blocks_reach_the_processor_in_the_order_they_came() {
    let mut sync = sync_from(10);
    let mut network = Network::new(&[1]);
    assert!(network.start(&mut sync, anchor(320)).is_ok());
    assert!(is_successful(&network.deliver(&mut sync, 10, &[320, 325, 330, 351], 0)));
    assert_eq!(network.segments, vec![(10, vec![320, 325, 330, 351])]);
}

#[test]
fn blocks_out_of_range_are_requested_again() {
    for slots in [&[319u64, 325][..], &[320, 353][..]] {
        let mut sync = sync_from(10);
        let mut network = Network::new(&[1, 2]);
        assert!(network.start(&mut sync, anchor(320)).is_ok());
        let (first, _) = network.last_request(10);
        let outcome = network.deliver(&mut sync, 10, slots, 0);
        assert!(is_successful(&outcome));
        assert!(network.segments.is_empty());
        // another peer is asked
        let (second, _) = network.last_request(10);
        assert_ne!(first, second);
        assert!(matches!(
            sync.batch(10).map(|batch| batch.has_failed_with(first)),
            Some(true)
        ));
    }
}

#[test]
fn a_download_that_fails_too_often_fails_the_sync() {
    let mut sync = sync_from(10);
    let mut network = Network::new(&[1]);
    assert!(network.start(&mut sync, anchor(320)).is_ok());
    for _ in 1..MAX_BATCH_DOWNLOAD_ATTEMPTS {
        assert!(matches!(network.error(&mut sync, 10), Ok(Outcome::Handled)));
        assert_eq!(sync.state(), BackFillState::Syncing);
    }
    assert_eq!(network.requests.len(), MAX_BATCH_DOWNLOAD_ATTEMPTS as usize);
    assert!(matches!(
        network.error(&mut sync, 10),
        Err(BackFillError::BatchDownloadFailed(10))
    ));
    assert_eq!(sync.state(), BackFillState::Failed);
    assert!(sync.batch(10).is_none());
    assert_eq!(sync.current_start(), 10);
}

#[test]
fn a_failed_sync_restarts_once_a_peer_has_joined() {
    let mut sync = sync_from(10);
    let mut network = Network::new(&[1]);
    assert!(network.start(&mut sync, anchor(320)).is_ok());
    for _ in 1..MAX_BATCH_DOWNLOAD_ATTEMPTS {
        assert!(network.error(&mut sync, 10).is_ok());
    }
    assert!(network.error(&mut sync, 10).is_err());
    let outcome = network.start(&mut sync, anchor(320));
    assert!(matches!(outcome, Ok(Outcome::Started(SyncStart::NotSyncing))));
    assert_eq!(sync.state(), BackFillState::Failed);
    sync.fully_synced_peer_joined();
    match network.start(&mut sync, anchor(161)) {
        Ok(Outcome::Started(SyncStart::Syncing { completed, remaining })) => {
            assert_eq!((completed, remaining), (0, 160));
        }
        other => panic!("{:?}", other),
    }
    assert_eq!(sync.state(), BackFillState::Syncing);
    assert_eq!(sync.current_start(), 5);
    // batches are requested and processed from where the chain was validated when the sync failed
    assert_eq!(sync.processing_target(), 10);
    assert_eq!(network.requests.last().map(|request| request.0), Some(10));
}

/// A sync that has failed, and that a peer has joined since.
fn failed_sync() -> BackFillSync {
    let mut sync = sync_from(10);
    let mut network = Network::new(&[1]);
    assert!(network.start(&mut sync, anchor(320)).is_ok());
    for _ in 1..MAX_BATCH_DOWNLOAD_ATTEMPTS {
        assert!(network.error(&mut sync, 10).is_ok());
    }
    assert!(network.error(&mut sync, 10).is_err());
    sync.fully_synced_peer_joined();
    sync
}

#[test]
fn a_failed_sync_may_be_found_complete_or_not_required() {
    let mut sync = failed_sync();
    match Network::new(&[1]).start(&mut sync, complete_anchor()) {
        Err(BackFillError::InvalidSyncState(message)) => assert_eq!(message, "chain completed"),
        other => panic!("{:?}", other),
    }
    assert_eq!(sync.state(), BackFillState::Completed);
    let mut sync = failed_sync();
    match Network::new(&[1]).start(&mut sync, None) {
        Err(BackFillError::InvalidSyncState(message)) => {
            assert_eq!(message, "backfill not required")
        }
        other => panic!("{:?}", other),
    }
    assert_eq!(sync.state(), BackFillState::NotRequired);
}

#[test]
fn a_failed_sync_ignores_everything_else() {
    let mut sync = sync_from(10);
    let mut network = Network::new(&[1]);
    assert!(network.start(&mut sync, anchor(320)).is_ok());
    for _ in 0..MAX_BATCH_DOWNLOAD_ATTEMPTS {
        let _ = network.error(&mut sync, 10);
    }
    assert_eq!(sync.state(), BackFillState::Failed);
    let pool = network.pool();
    sync.pause();
    assert!(matches!(sync.peer_disconnected(&pool, 1), Step::Done(Ok(Outcome::Handled))));
    assert!(matches!(
        sync.on_block_response(&pool, 10, 1, 10, None),
        Step::Done(Ok(Outcome::Processed(ProcessResult::Successful)))
    ));
    assert_eq!(sync.state(), BackFillState::Failed);
}

#[test]
fn without_peers_a_retry_pauses_the_sync() {
    let mut sync = sync_from(10);
    let mut network = Network::new(&[1]);
    assert!(network.start(&mut sync, anchor(320)).is_ok());
    network.peers.clear();
    assert!(matches!(network.error(&mut sync, 10), Err(BackFillError::Paused)));
    assert_eq!(sync.state(), BackFillState::Paused);
    assert!(matches!(
        sync.batch(10).map(|batch| batch.state()),
        Some(BatchState::AwaitingDownload)
    ));
    // the batch is requested again when the sync is resumed
    network.peers.push(4);
    assert!(network.start(&mut sync, anchor(320)).is_ok());
    assert_eq!(network.last_request(10).0, 4);
}

#[test]
fn retries_prefer_peers_that_have_not_failed_and_are_asked_for_less() {
    let mut sync = sync_from(10);
    let mut network = Network::new(&[5, 6]);
    assert!(network.start(&mut sync, anchor(320)).is_ok());
    assert_eq!(network.requests.len(), 2);
    // new peers are idle; the smallest number is chosen among them
    network.peers = vec![5, 9, 6, 8];
    assert!(network.error(&mut sync, 10).is_ok());
    assert_eq!(network.last_request(10).0, 8);
    // 8 has failed too, and 9 is idle
    assert!(network.error(&mut sync, 10).is_ok());
    assert_eq!(network.last_request(10).0, 9);
    // of those that are left only one has not failed, although it is busy with another batch
    let busy = network.last_request(9).0;
    assert!(network.error(&mut sync, 10).is_ok());
    assert_eq!(network.last_request(10).0, busy);
}

#[test]
fn a_request_that_cannot_be_sent_counts_as_a_failed_download() {
    let mut sync = sync_from(10);
    let pool = PeerPool::new(vec![1]);
    let mut step = sync.start(&pool, anchor(320));
    assert!(matches!(step, Step::BatchType { batch_id: 10 }));
    step = sync.on_batch_type(BatchType::Blocks);
    for _ in 1..MAX_BATCH_DOWNLOAD_ATTEMPTS {
        assert!(matches!(step, Step::RequestBlocks { peer: 1, batch_id: 10, .. }));
        step = sync.on_request_failed(&pool);
    }
    assert!(matches!(step, Step::RequestBlocks { peer: 1, batch_id: 10, .. }));
    step = sync.on_request_failed(&pool);
    assert!(matches!(step, Step::Done(Err(BackFillError::BatchDownloadFailed(10)))));
    assert_eq!(sync.state(), BackFillState::Failed);
    assert_eq!(sync.waiting(), Waiting::Nothing);
}

#[test]
fn a_segment_that_is_not_taken_is_downloaded_again() {
    let mut sync = sync_from(10);
    let mut network = Network::new(&[1]);
    assert!(network.start(&mut sync, anchor(320)).is_ok());
    let pool = network.pool();
    let mut step = sync.on_block_response(&pool, 10, 1, 1, None);
    loop {
        match step {
            Step::SendChainSegment { batch_id, blocks } => {
                assert_eq!(batch_id, 10);
                assert!(blocks.is_empty());
                break;
            }
            other => match network.answer(&mut sync, other) {
                Ok(next) => step = next,
                Err(other) => panic!("{:?}", other),
            },
        }
    }
    let step = sync.on_segment_rejected(&pool);
    assert!(matches!(step, Step::RequestBlocks { peer: 1, batch_id: 10, .. }));
    assert!(is_successful(&network.run(&mut sync, step)));
    assert!(matches!(
        sync.batch(10).map(|batch| batch.state()),
        Some(BatchState::Downloading(1, _, 3))
    ));
    // no attempt was used up
    assert!(matches!(sync.batch(10).map(|batch| batch.has_failed_with(1)), Some(false)));
}

#[test]
fn batches_of_a_peer_that_disconnects_are_requested_again() {
    let mut sync = sync_from(10);
    let mut network = Network::new(&[1, 2]);
    assert!(network.start(&mut sync, anchor(320)).is_ok());
    let lost = network.last_request(10).0;
    network.peers.retain(|peer| *peer != lost);
    let step = sync.peer_disconnected(&network.pool(), lost);
    assert!(matches!(step, Step::RequestBlocks { batch_id: 10, .. }));
    assert!(matches!(network.run(&mut sync, step), Ok(Outcome::Handled)));
    let (peer, id) = network.last_request(10);
    assert_eq!(peer, network.peers[0]);
    assert!(matches!(
        sync.batch(10).map(|batch| batch.is_expecting_block(peer, id)),
        Some(true)
    ));
    assert!(matches!(sync.batch(10).map(|batch| batch.has_failed_with(lost)), Some(true)));
    // a peer that nothing was asked of changes nothing
    let step = sync.peer_disconnected(&network.pool(), 77);
    assert!(matches!(step, Step::Done(Ok(Outcome::Handled))));
}

#[test]
fn a_missing_target_fails_the_sync() {
    let mut sync = sync_from(12);
    let mut network = Network::new(&[1]);
    assert!(network.start(&mut sync, anchor(12 * 32)).is_ok());
    network.peers.clear();
    assert!(is_successful(&network.deliver(&mut sync, 12, &[384], 0)));
    let (_, outcome) = network.result(&mut sync, 12, success(true), anchor(384));
    match outcome {
        Err(BackFillError::InvalidSyncState(message)) => {
            assert_eq!(message, "Batch not found for current processing target 11")
        }
        other => panic!("{:?}", other),
    }
    assert_eq!(sync.state(), BackFillState::Failed);
    assert_eq!(sync.processing_target(), 12);
}

#[test]
fn empty_batches_are_validated_by_the_next_that_is_not() {
    let mut sync = sync_from(10);
    let mut network = Network::new(&[1, 2, 3]);
    assert!(network.start(&mut sync, anchor(320)).is_ok());
    assert!(is_successful(&network.deliver(&mut sync, 10, &[], 0)));
    assert!(is_successful(&network.deliver(&mut sync, 9, &[], 0)));
    assert!(is_successful(&network.deliver(&mut sync, 8, &[256], 0)));
    for batch_id in [10, 9] {
        let (_, outcome) = network.result(&mut sync, batch_id, success(false), anchor(320));
        assert!(is_successful(&outcome));
        assert_eq!(sync.current_start(), 10);
        assert_eq!(sync.validated_batches(), 0);
    }
    let (_, outcome) = network.result(&mut sync, 8, success(true), anchor(256));
    assert!(is_successful(&outcome));
    assert_eq!(sync.current_start(), 8);
    assert_eq!(sync.validated_batches(), 2);
    assert!(sync.batch(10).is_none());
    assert!(sync.batch(9).is_none());
    assert!(matches!(
        sync.batch(8).map(|batch| batch.state()),
        Some(BatchState::AwaitingValidation(_))
    ));
    // what has been processed since the start, in slots
    match network.start(&mut sync, None) {
        Ok(Outcome::Started(SyncStart::Syncing { completed, remaining })) => {
            assert_eq!((completed, remaining), (64, 256));
        }
        other => panic!("{:?}", other),
    }
}

#[test]
fn an_invalid_batch_is_downloaded_again_with_those_above_it() {
    let mut sync = sync_from(10);
    let mut network = Network::new(&[1, 2]);
    assert!(network.start(&mut sync, anchor(320)).is_ok());
    assert!(is_successful(&network.deliver(&mut sync, 10, &[], 0)));
    assert!(is_successful(&network.deliver(&mut sync, 9, &[288], 0)));
    let (_, outcome) = network.result(&mut sync, 10, success(false), anchor(320));
    assert!(is_successful(&outcome));
    let before = network.requests.len();
    let (reports, outcome) = network.result(&mut sync, 9, faulty(false), anchor(320));
    assert!(reports.is_empty());
    assert!(is_successful(&outcome));
    let again: Vec<u64> = network.requests[before..].iter().map(|request| request.0).collect();
    assert_eq!(again, vec![10, 9]);
    assert_eq!(sync.processing_target(), 10);
}

#[test]
fn imported_blocks_validate_the_batches_above() {
    let mut sync = sync_from(10);
    let mut network = Network::new(&[1, 2]);
    assert!(network.start(&mut sync, anchor(320)).is_ok());
    assert!(is_successful(&network.deliver(&mut sync, 10, &[], 0)));
    assert!(is_successful(&network.deliver(&mut sync, 9, &[288], 0)));
    let (_, outcome) = network.result(&mut sync, 10, success(false), anchor(320));
    assert!(is_successful(&outcome));
    let before = network.requests.len();
    let (_, outcome) = network.result(&mut sync, 9, faulty(true), anchor(290));
    assert!(is_successful(&outcome));
    let again: Vec<u64> = network.requests[before..].iter().map(|request| request.0).collect();
    assert_eq!(again, vec![9]);
    assert_eq!(sync.current_start(), 9);
    assert_eq!(sync.processing_target(), 9);
    assert_eq!(sync.validated_batches(), 1);
}

/// Lets batch 10 fail once with the content 1 and then succeed with the content 2, and has it
/// validated. Returns the peers of both, and the penalties.
fn reprocess(peers: &[u64]) -> (u64, u64, Vec<PeerReport>) {
    let mut sync = sync_from(10);
    let mut network = Network::new(peers);
    assert!(network.start(&mut sync, anchor(320)).is_ok());
    let first = network.last_request(10).0;
    assert!(is_successful(&network.deliver(&mut sync, 10, &[320], 1)));
    let (reports, outcome) = network.result(&mut sync, 10, faulty(false), anchor(320));
    assert!(reports.is_empty());
    assert!(is_successful(&outcome));
    let second = network.last_request(10).0;
    assert!(is_successful(&network.deliver(&mut sync, 10, &[320], 2)));
    let (reports, outcome) = network.result(&mut sync, 10, success(true), anchor(320));
    assert!(reports.is_empty());
    assert!(is_successful(&outcome));
    assert!(is_successful(&network.deliver(&mut sync, 9, &[288], 2)));
    let (reports, outcome) = network.result(&mut sync, 9, success(true), anchor(288));
    assert!(is_successful(&outcome));
    (first, second, reports)
}

#[test]
fn the_original_peer_is_penalised_if_another_one_sent_the_right_batch() {
    let (first, second, reports) = reprocess(&[1, 2]);
    assert_ne!(first, second);
    assert_eq!(
        reports,
        vec![PeerReport {
            peer: first,
            action: PeerAction::LowToleranceError,
            reason: ReportReason::ReprocessedOriginalPeer,
        }]
    );
    assert_eq!(reports[0].reason.message(), "backfill_reprocessed_original_peer");
}

#[test]
fn a_peer_that_corrects_itself_is_penalised_less() {
    let (first, second, reports) = reprocess(&[1]);
    assert_eq!(first, second);
    assert_eq!(
        reports,
        vec![PeerReport {
            peer: first,
            action: PeerAction::MidToleranceError,
            reason: ReportReason::ReprocessedSamePeer,
        }]
    );
    assert_eq!(reports[0].reason.message(), "backfill_reprocessed_same_peer");
}

#[test]
fn the_same_version_is_not_penalised() {
    let mut sync = sync_from(10);
    let mut network = Network::new(&[1]);
    assert!(network.start(&mut sync, anchor(320)).is_ok());
    assert!(is_successful(&network.deliver(&mut sync, 10, &[320], 1)));
    let _ = network.result(&mut sync, 10, faulty(false), anchor(320));
    assert!(is_successful(&network.deliver(&mut sync, 10, &[320], 1)));
    let _ = network.result(&mut sync, 10, success(true), anchor(320));
    assert!(is_successful(&network.deliver(&mut sync, 9, &[288], 1)));
    let (reports, _) = network.result(&mut sync, 9, success(true), anchor(288));
    assert!(reports.is_empty());
    assert_eq!(sync.validated_batches(), 1);
}

#[test]
fn a_batch_that_is_invalid_too_often_fails_the_sync() {
    let mut sync = sync_from(0);
    let mut network = Network::new(&[3, 1, 2]);
    assert!(network.start(&mut sync, anchor(5)).is_ok());
    for _ in 1..MAX_BATCH_PROCESSING_ATTEMPTS {
        assert!(is_successful(&network.deliver(&mut sync, 0, &[4], 1)));
        let (reports, outcome) = network.result(&mut sync, 0, faulty(false), anchor(5));
        assert!(reports.is_empty());
        assert!(is_successful(&outcome));
    }
    assert!(is_successful(&network.deliver(&mut sync, 0, &[4], 1)));
    let (reports, outcome) = network.result(&mut sync, 0, faulty(false), anchor(5));
    assert!(matches!(outcome, Err(BackFillError::BatchProcessingFailed(0))));
    // each of the peers has been asked, and is reported once
    let mut asked: Vec<u64> = network.requests.iter().map(|request| request.1).collect();
    asked.sort_unstable();
    asked.dedup();
    assert_eq!(asked, vec![1, 2, 3]);
    let expected: Vec<PeerReport> = asked
        .iter()
        .map(|peer| PeerReport {
            peer: *peer,
            action: PeerAction::HighToleranceError,
            reason: ReportReason::BatchFailed,
        })
        .collect();
    assert_eq!(reports, expected);
    assert_eq!(reports[0].reason.message(), "backfill_batch_failed");
    assert_eq!(sync.state(), BackFillState::Failed);
}

#[test]
fn batches_above_an_invalid_one_must_await_validation() {
    // The sync fails at epoch 10 and restarts when the chain has blocks down to epoch 9: then
    // batch 10 is above the epoch from which on the chain is validated.
    let mut sync = failed_sync();
    let mut network = Network::new(&[1, 2, 3, 4]);
    assert!(network.start(&mut sync, anchor(9 * 32)).is_ok());
    assert_eq!(sync.current_start(), 9);
    assert_eq!(sync.processing_target(), 10);
    assert!(is_successful(&network.deliver(&mut sync, 9, &[288], 0)));
    assert!(is_successful(&network.deliver(&mut sync, 10, &[320], 0)));
    // batch 10 is invalid; processing goes back to epoch 9, while batch 10 is downloaded again
    let (_, outcome) = network.result(&mut sync, 10, faulty(false), anchor(288));
    assert!(is_successful(&outcome));
    assert_eq!(sync.processing_target(), 9);
    assert!(is_successful(&network.deliver(&mut sync, 8, &[256], 0)));
    assert!(matches!(
        sync.batch(9).map(|batch| batch.state()),
        Some(BatchState::Processing(_))
    ));
    let (_, outcome) = network.result(&mut sync, 9, faulty(false), anchor(288));
    match outcome {
        Err(BackFillError::BatchInvalidState(9, message)) => {
            assert_eq!(message, "Validation failed for batch in wrong state")
        }
        other => panic!("{:?}", other),
    }
    assert_eq!(sync.state(), BackFillState::Failed);
}

#[test]
fn progress_is_kept_when_the_sync_fails() {
    let mut sync = sync_from(10);
    let mut network = Network::new(&[1]);
    assert!(network.start(&mut sync, anchor(320)).is_ok());
    assert!(is_successful(&network.deliver(&mut sync, 10, &[320], 0)));
    assert!(is_successful(&network.result(&mut sync, 10, success(true), anchor(320)).1));
    assert!(is_successful(&network.deliver(&mut sync, 9, &[288], 0)));
    assert!(is_successful(&network.result(&mut sync, 9, success(true), anchor(288)).1));
    assert_eq!((sync.validated_batches(), sync.current_start()), (1, 9));
    for _ in 0..MAX_BATCH_DOWNLOAD_ATTEMPTS {
        let _ = network.error(&mut sync, 8);
    }
    assert_eq!(sync.state(), BackFillState::Failed);
    assert_eq!((sync.validated_batches(), sync.current_start()), (1, 9));
    assert_eq!(sync.processing_target(), 9);
}

#[test]
fn every_call_ends_though_no_request_can_be_sent() {
    let mut sync = sync_from(100);
    let peers: Vec<u64> = (0..30).collect();
    let pool = PeerPool::new(peers);
    let mut step = sync.start(&pool, anchor(3200));
    let mut steps = 0;
    loop {
        step = match step {
            Step::BatchType { .. } => sync.on_batch_type(BatchType::Blocks),
            Step::RequestBlocks { .. } => sync.on_request_failed(&pool),
            Step::SendChainSegment { .. } => sync.on_segment_rejected(&pool),
            Step::Done(result) => {
                assert!(matches!(result, Err(BackFillError::BatchDownloadFailed(100))));
                break;
            }
        };
        steps += 1;
    }
    assert_eq!(steps, 1 + MAX_BATCH_DOWNLOAD_ATTEMPTS as usize);
}

/// Has batch 10 fail processing for good, and returns the peers that are reported.
fn reported_peers(sync: &mut BackFillSync, network: &mut Network) -> Vec<u64> {
    loop {
        assert!(is_successful(&network.deliver(sync, 10, &[320], 1)));
        let (reports, outcome) = network.result(sync, 10, faulty(false), anchor(320));
        if outcome.is_err() {
            return reports.iter().map(|report| report.peer).collect();
        }
    }
}

#[test]
fn peers_that_were_asked_only_once_participate() {
    let mut sync = sync_from(10);
    let mut network = Network::new(&[1, 2, 3]);
    assert!(network.start(&mut sync, anchor(320)).is_ok());
    // peers 1 to 3 have been asked for one new batch each; from now on only 1 and 9 are synced
    network.peers = vec![1, 9];
    let mut reported = reported_peers(&mut sync, &mut network);
    reported.sort_unstable();
    assert_eq!(reported, vec![1, 2, 3, 9]);
}

#[test]
fn peers_that_were_not_asked_or_have_left_do_not_participate() {
    let mut sync = BackFillSync::new(anchor(10 * 32), 10 * 32, SLOTS_PER_EPOCH);
    let mut network = Network::new(&[4]);
    assert!(network.start(&mut sync, anchor(320)).is_ok());
    network.peers = vec![5];
    let step = sync.peer_disconnected(&network.pool(), 4);
    assert!(matches!(network.run(&mut sync, step), Ok(Outcome::Handled)));
    // peer 4 has left, and is not reported
    network.peers = vec![5, 6];
    let reported = reported_peers(&mut sync, &mut network);
    assert_eq!(reported, vec![5, 6]);
}

#[test]
fn all_batches_of_a_lost_peer_are_downloaded_from_others() {
    let mut sync = sync_from(10);
    let mut network = Network::new(&[1]);
    assert!(network.start(&mut sync, anchor(320)).is_ok());
    // peer 1 gets a second batch as the only peer that is left
    network.peers = vec![1, 2];
    assert!(is_successful(&network.deliver(&mut sync, 10, &[320], 0)));
    network.peers = vec![1];
    for batch_id in [9, 8] {
        if network.last_request(batch_id).0 == 2 {
            assert!(network.error(&mut sync, batch_id).is_ok());
        }
        assert_eq!(network.last_request(batch_id).0, 1);
    }
    network.peers = vec![3, 4];
    let before = network.requests.len();
    let step = sync.peer_disconnected(&network.pool(), 1);
    assert!(matches!(network.run(&mut sync, step), Ok(Outcome::Handled)));
    let again: Vec<(u64, u64)> =
        network.requests[before..].iter().map(|request| (request.0, request.1)).collect();
    // in ascending order, and of the peer that less is asked of
    assert_eq!(again, vec![(8, 3), (9, 4)]);
    for batch_id in [8, 9] {
        let (peer, id) = network.last_request(batch_id);
        let batch = sync.batch(batch_id).expect("the batch is there");
        assert!(batch.is_expecting_block(peer, id));
        assert!(batch.has_failed_with(1));
    }
    assert!(matches!(
        sync.batch(10).map(|batch| batch.state()),
        Some(BatchState::Processing(_))
    ));
}

#[test]
fn all_batches_that_await_a_download_are_resumed() {
    let mut sync = sync_from(10);
    let mut network = Network::new(&[1, 2, 3]);
    assert!(network.start(&mut sync, anchor(320)).is_ok());
    network.peers.clear();
    for batch_id in [9, 10] {
        assert!(matches!(network.error(&mut sync, batch_id), Err(BackFillError::Paused)));
    }
    let untouched = network.last_request(8);
    network.peers = vec![5];
    let before = network.requests.len();
    assert!(network.start(&mut sync, anchor(320)).is_ok());
    let again: Vec<(u64, u64)> =
        network.requests[before..].iter().map(|request| (request.0, request.1)).collect();
    assert_eq!(again, vec![(9, 5), (10, 5)]);
    assert_eq!(sync.state(), BackFillState::Syncing);
    for batch_id in [9, 10] {
        let (peer, id) = network.last_request(batch_id);
        assert!(matches!(
            sync.batch(batch_id).map(|batch| batch.is_expecting_block(peer, id)),
            Some(true)
        ));
    }
    assert!(matches!(
        sync.batch(8).map(|batch| batch.is_expecting_block(untouched.0, untouched.1)),
        Some(true)
    ));
}

#[test]
fn all_invalid_batches_are_downloaded() {
    let mut sync = sync_from(10);
    let mut network = Network::new(&[1, 2, 3, 4]);
    assert!(network.start(&mut sync, anchor(320)).is_ok());
    for batch_id in [10, 9, 8] {
        assert!(is_successful(&network.deliver(&mut sync, batch_id, &[], 0)));
    }
    for batch_id in [10, 9] {
        let (_, outcome) = network.result(&mut sync, batch_id, success(false), anchor(320));
        assert!(is_successful(&outcome));
    }
    let below = network.last_request(7);
    let before = network.requests.len();
    let (_, outcome) = network.result(&mut sync, 8, faulty(false), anchor(320));
    assert!(is_successful(&outcome));
    let again: Vec<u64> = network.requests[before..].iter().map(|request| request.0).collect();
    assert_eq!(again, vec![9, 10, 8]);
    for batch_id in [8, 9, 10] {
        let (peer, id) = network.last_request(batch_id);
        assert!(matches!(
            sync.batch(batch_id).map(|batch| batch.is_expecting_block(peer, id)),
            Some(true)
        ));
    }
    assert!(matches!(
        sync.batch(7).map(|batch| batch.is_expecting_block(below.0, below.1)),
        Some(true)
    ));
    assert_eq!(sync.processing_target(), 10);
}

#[test]
fn a_start_is_known_to_tell_the_progress_or_not() {
    let none = PeerPool::new(Vec::new());
    let one = PeerPool::new(vec![1]);
    let paused = sync_from(10);
    assert!(!paused.is_startable(&none, anchor(320)));
    assert!(paused.is_startable(&one, None));
    assert!(paused.has_progress_in_range());
    let failed = failed_sync();
    assert!(failed.is_startable(&none, anchor(320)));
    assert!(!failed.is_startable(&one, None));
    assert!(!failed.is_startable(&one, complete_anchor()));
    let complete = BackFillSync::new(complete_anchor(), 0, SLOTS_PER_EPOCH);
    assert!(!complete.is_startable(&one, anchor(320)));
}

#[test]
fn batches_are_requested_until_no_peer_is_idle() {
    let mut sync = sync_from(10);
    let mut network = Network::new(&[1, 2, 3]);
    assert!(network.start(&mut sync, anchor(320)).is_ok());
    let batches: Vec<u64> = network.requests.iter().map(|request| request.0).collect();
    assert_eq!(batches, vec![10, 9, 8]);
    let mut asked: Vec<u64> = network.requests.iter().map(|request| request.1).collect();
    asked.sort_unstable();
    assert_eq!(asked, vec![1, 2, 3]);
    assert_eq!(sync.batch_count(), 3);
    // a call that finds two idle peers requests two more
    network.peers.push(4);
    assert!(is_successful(&network.deliver(&mut sync, 8, &[], 0)));
    let batches: Vec<u64> = network.requests[3..].iter().map(|request| request.0).collect();
    assert_eq!(batches, vec![7, 6]);
    assert_eq!(sync.batch_count(), 5);
}

#[test]
fn the_end_of_the_sync_is_an_epoch() {
    let sync = BackFillSync::new(anchor(3200), 70, SLOTS_PER_EPOCH);
    assert!(sync.would_complete(0));
    assert!(sync.would_complete(2));
    assert!(!sync.would_complete(3));
}

#[test]
fn no_epoch_is_left_out() {
    let mut sync = BackFillSync::new(anchor(12 * 32), 0, SLOTS_PER_EPOCH);
    let mut network = Network::new(&[1, 2, 3]);
    assert!(network.start(&mut sync, anchor(12 * 32)).is_ok());
    let mut succeeded: Vec<u64> = Vec::new();
    let mut rounds = 0;
    while sync.state() != BackFillState::Completed {
        rounds += 1;
        assert!(rounds < 100);
        // an error now and then, and a peer that leaves and comes back
        let target = sync.processing_target();
        if rounds % 3 == 0 && network.last_request(target).0 == 2 {
            let step = sync.peer_disconnected(&network.pool(), 2);
            assert!(network.run(&mut sync, step).is_ok());
        }
        let state = sync.batch(target).map(|batch| batch.state());
        if matches!(state, Some(BatchState::Downloading(..))) {
            if rounds % 4 == 0 {
                assert!(network.error(&mut sync, target).is_ok());
            }
            // every other batch is empty
            let slots = if target % 2 == 0 { vec![target * 32] } else { vec![] };
            assert!(is_successful(&network.deliver(&mut sync, target, &slots, 0)));
        }
        assert!(matches!(
            sync.batch(target).map(|batch| batch.state()),
            Some(BatchState::Processing(_))
        ));
        // the batches are consecutive
        let ids: Vec<u64> = (0..20).filter(|id| sync.batch(*id).is_some()).collect();
        assert!(ids.windows(2).all(|pair| pair[0] + 1 == pair[1]));
        // all between the target and the start of the validated chain await validation
        for id in target + 1..=sync.current_start() {
            assert!(matches!(
                sync.batch(id).map(|batch| batch.state()),
                Some(BatchState::AwaitingValidation(_))
            ));
        }
        if target == 7 && rounds < 20 && !succeeded.contains(&7) && rounds % 2 == 0 {
            assert!(is_successful(&network.result(&mut sync, target, faulty(false), None).1));
            continue;
        }
        succeeded.push(target);
        let (_, outcome) =
            network.result(&mut sync, target, success(target % 2 == 0), complete_anchor());
        assert!(outcome.is_ok());
    }
    succeeded.sort_unstable();
    succeeded.dedup();
    assert_eq!(succeeded, (0..=12).collect::<Vec<u64>>());
    assert_eq!(sync.current_start(), 0);
    assert_eq!(sync.validated_batches(), 12);
}
