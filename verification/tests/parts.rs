//! Batches, peers, requests and messages by themselves.
use backfill_sync::batch::{
    saturating_product, Attempt, BackFillBatchConfig, BatchInfo, BatchOperationOutcome,
    BatchProcessingResult, BatchState, Block, MAX_BATCH_DOWNLOAD_ATTEMPTS,
    MAX_BATCH_PROCESSING_ATTEMPTS,
};
use backfill_sync::batches::Batches;
use backfill_sync::peers::PeerPool;
use backfill_sync::requests::ActiveRequests;
use backfill_sync::text::{decimal_text, numbered};
use backfill_sync::types::{BatchType, BlocksByRangeRequest};

fn batch() -> BatchInfo {
    BatchInfo::new(3, 1, 32, BatchType::Blocks)
}

fn block(slot: u64, content: &[u8]) -> Block {
    Block { slot, content: content.to_vec() }
}

#[test]
fn numbers_are_written_in_decimal() {
    assert_eq!(decimal_text(0), "0");
    assert_eq!(decimal_text(10), "10");
    assert_eq!(decimal_text(12345), "12345");
    assert_eq!(decimal_text(u64::MAX), u64::MAX.to_string());
    assert_eq!(numbered("Batch ", 907), "Batch 907");
}

#[test]
fn products_are_capped() {
    assert_eq!(saturating_product(3, 32), 96);
    assert_eq!(saturating_product(u64::MAX, 2), u64::MAX);
    assert_eq!(saturating_product(0, u64::MAX), 0);
}

#[test]
fn the_settings_of_a_batch() {
    assert_eq!(BackFillBatchConfig::max_batch_download_attempts(), 10);
    assert_eq!(BackFillBatchConfig::max_batch_processing_attempts(), 10);
}

#[test]
fn hashes_tell_versions_of_a_batch_apart() {
    let hash = |contents: &[&[u8]]| {
        let blocks: Vec<Block> = contents.iter().map(|content| block(0, content)).collect();
        BackFillBatchConfig::batch_attempt_hash(&blocks)
    };
    assert_eq!(hash(&[&[1, 2], &[3]]), hash(&[&[1, 2], &[3]]));
    assert_ne!(hash(&[&[1, 2], &[3]]), hash(&[&[1], &[2, 3]]));
    assert_ne!(hash(&[&[1, 2], &[3]]), hash(&[&[3], &[1, 2]]));
    assert_ne!(hash(&[]), hash(&[&[]]));
}

#[test]
fn a_batch_asks_for_its_slots() {
    let request = batch().to_blocks_by_range_request();
    assert_eq!(
        request,
        (BlocksByRangeRequest { start_slot: 96, count: 32 }, BatchType::Blocks)
    );
    let last = BatchInfo::new(u64::MAX, 1, 32, BatchType::BlocksAndBlobs);
    assert_eq!(
        last.to_blocks_by_range_request(),
        (BlocksByRangeRequest { start_slot: u64::MAX, count: 0 }, BatchType::BlocksAndBlobs)
    );
}

#[test]
fn a_batch_goes_from_download_to_validation() {
    let mut batch = batch();
    assert_eq!(batch.current_peer(), None);
    assert!(batch.start_downloading_from_peer(5, 1).is_ok());
    assert_eq!(batch.current_peer(), Some(5));
    assert!(batch.is_expecting_block(5, 1));
    assert!(!batch.is_expecting_block(5, 2));
    assert!(!batch.is_expecting_block(6, 1));
    assert!(batch.add_block(block(96, &[1])).is_ok());
    assert!(batch.add_block(block(128, &[2])).is_ok());
    assert!(matches!(batch.download_completed(), Ok(2)));
    let blocks = batch.start_processing().expect("the batch awaits processing");
    assert_eq!(blocks.len(), 2);
    let hash = BackFillBatchConfig::batch_attempt_hash(&blocks);
    match batch.state() {
        BatchState::Processing(attempt) => assert_eq!(*attempt, Attempt { peer_id: 5, hash }),
        other => panic!("{:?}", other),
    }
    let outcome = batch.processing_completed(BatchProcessingResult::Success);
    assert!(matches!(outcome, Ok(BatchOperationOutcome::Continue)));
    assert!(matches!(batch.state(), BatchState::AwaitingValidation(_)));
    let outcome = batch.validation_failed();
    assert!(matches!(outcome, Ok(BatchOperationOutcome::Continue)));
    assert_eq!(batch.attempts(), &vec![Attempt { peer_id: 5, hash }]);
    assert!(batch.has_failed_with(5));
    assert!(!batch.has_failed_with(6));
}

#[test]
fn blocks_beyond_a_batch_fail_its_download() {
    let mut early = batch();
    assert!(early.start_downloading_from_peer(5, 1).is_ok());
    assert_eq!(early.crossed_boundary(), None);
    assert!(early.add_block(block(95, &[])).is_ok());
    assert_eq!(early.crossed_boundary(), Some((96, 95)));
    assert!(matches!(
        early.download_completed(),
        Err(Ok((96, 95, BatchOperationOutcome::Continue)))
    ));
    let mut late = batch();
    assert!(late.start_downloading_from_peer(5, 1).is_ok());
    assert!(late.add_block(block(96, &[])).is_ok());
    assert!(late.add_block(block(129, &[])).is_ok());
    assert_eq!(late.crossed_boundary(), Some((128, 129)));
    assert!(matches!(
        late.download_completed(),
        Err(Ok((128, 129, BatchOperationOutcome::Continue)))
    ));
    assert_eq!(late.crossed_boundary(), None);
    assert!(late.has_failed_with(5));
    assert!(matches!(late.state(), BatchState::AwaitingDownload));
}

#[test]
fn a_batch_has_so_many_attempts() {
    let mut failing = batch();
    for i in 1..=MAX_BATCH_DOWNLOAD_ATTEMPTS {
        assert!(failing.start_downloading_from_peer(5, 1).is_ok());
        let expected = if i < MAX_BATCH_DOWNLOAD_ATTEMPTS {
            BatchOperationOutcome::Continue
        } else {
            BatchOperationOutcome::Failed
        };
        assert_eq!(failing.download_failed().ok(), Some(expected));
        assert_eq!(failing.outcome(), expected);
    }
    let mut invalid = batch();
    for i in 1..=MAX_BATCH_PROCESSING_ATTEMPTS {
        assert!(invalid.start_downloading_from_peer(5, 1).is_ok());
        assert!(invalid.download_completed().is_ok());
        assert!(invalid.start_processing().is_ok());
        let outcome = invalid.processing_completed(BatchProcessingResult::FaultyFailure);
        let expected = if i < MAX_BATCH_PROCESSING_ATTEMPTS {
            BatchOperationOutcome::Continue
        } else {
            BatchOperationOutcome::Failed
        };
        assert_eq!(outcome.ok(), Some(expected));
    }
    assert!(matches!(invalid.state(), BatchState::Failed));
}

#[test]
fn a_failure_without_fault_uses_no_attempt_up() {
    let mut batch = batch();
    assert!(batch.start_downloading_from_peer(5, 1).is_ok());
    assert!(batch.download_completed().is_ok());
    assert!(batch.start_processing().is_ok());
    let outcome = batch.processing_completed(BatchProcessingResult::NonFaultyFailure);
    assert!(matches!(outcome, Ok(BatchOperationOutcome::Continue)));
    assert!(matches!(batch.state(), BatchState::AwaitingDownload));
    assert!(batch.attempts().is_empty());
}

#[test]
fn a_batch_in_the_wrong_state_says_so() {
    let mut fresh = batch();
    let message = |error: Option<backfill_sync::batch::WrongState>| error.map(|e| e.0);
    assert_eq!(
        message(fresh.add_block(block(96, &[])).err()),
        Some("Add block for batch in wrong state".to_string())
    );
    assert!(matches!(fresh.download_completed(), Err(Err(_))));
    assert_eq!(
        message(fresh.download_failed().err()),
        Some("Download failed for batch in wrong state".to_string())
    );
    assert_eq!(
        message(fresh.start_processing().err()),
        Some("Starting processing for batch in wrong state".to_string())
    );
    assert_eq!(
        message(fresh.processing_completed(BatchProcessingResult::Success).err()),
        Some("Processing completed for batch in wrong state".to_string())
    );
    assert_eq!(
        message(fresh.validation_failed().err()),
        Some("Validation failed for batch in wrong state".to_string())
    );
    assert!(fresh.start_downloading_from_peer(1, 1).is_ok());
    assert_eq!(
        message(fresh.start_downloading_from_peer(2, 2).err()),
        Some("Starting download for batch in wrong state".to_string())
    );
    assert!(fresh.is_expecting_block(1, 1));
}

#[test]
fn a_pool_holds_its_peers_in_a_random_order() {
    let peers: Vec<u64> = (0..200).collect();
    let pool = PeerPool::new(peers.clone());
    let order = pool.idle(&ActiveRequests::new());
    assert_ne!(order, peers);
    let mut sorted = order.clone();
    sorted.sort_unstable();
    assert_eq!(sorted, peers);
    assert!(!pool.is_empty());
    assert!(PeerPool::new(Vec::new()).is_empty());
}

#[test]
fn idle_peers_are_those_of_which_nothing_is_asked() {
    let mut requests = ActiveRequests::new();
    requests.register(2, 10);
    requests.register(3, 10);
    requests.unregister(3, 10);
    let mut idle = PeerPool::new(vec![1, 2, 3]).idle(&requests);
    idle.sort_unstable();
    assert_eq!(idle, vec![1, 3]);
}

#[test]
fn the_best_peer_does_not_depend_on_the_order() {
    let mut requests = ActiveRequests::new();
    requests.register(1, 10);
    requests.register(1, 11);
    requests.register(2, 12);
    let mut batch = batch();
    for _ in 0..20 {
        let pool = PeerPool::new(vec![4, 3, 2, 1]);
        assert_eq!(pool.best(&batch, &requests), Some(3));
    }
    assert!(batch.start_downloading_from_peer(3, 1).is_ok());
    assert!(batch.download_failed().is_ok());
    assert!(batch.start_downloading_from_peer(4, 1).is_ok());
    assert!(batch.download_failed().is_ok());
    for _ in 0..20 {
        let pool = PeerPool::new(vec![4, 3, 2, 1]);
        assert_eq!(pool.best(&batch, &requests), Some(2));
    }
    assert_eq!(PeerPool::new(Vec::new()).best(&batch, &requests), None);
}

#[test]
fn requests_are_counted_for_each_peer() {
    let mut requests = ActiveRequests::new();
    assert_eq!(requests.load(1), 0);
    requests.register(1, 10);
    requests.register(1, 11);
    requests.register(1, 11);
    assert_eq!(requests.load(1), 2);
    assert!(requests.contains(1, 11));
    assert!(!requests.contains(2, 11));
    requests.unregister(1, 11);
    requests.unregister(2, 11);
    assert_eq!(requests.load(1), 1);
    requests.remove(1);
    assert_eq!(requests.load(1), 0);
    requests.register(4, 1);
    requests.clear();
    assert!(!requests.contains(4, 1));
}

#[test]
fn batches_come_in_ascending_order() {
    let mut batches = Batches::new();
    for id in [5, 3, 9] {
        batches.insert(id, BatchInfo::new(id, 1, 32, BatchType::Blocks));
    }
    assert_eq!(batches.ids(), vec![3, 5, 9]);
    assert_eq!(batches.len(), 3);
    assert_eq!(batches.buffered(), 0);
    let mut one = batches.remove(5).expect("the batch is there");
    assert!(one.start_downloading_from_peer(1, 1).is_ok());
    batches.insert(5, one);
    assert_eq!(batches.buffered(), 1);
    assert!(batches.contains(5));
    assert!(batches.get(4).is_none());
    batches.clear();
    assert!(batches.ids().is_empty());
}
