//! That no operation leaves an epoch out, nor loses what reaches up to where the chain is validated
//! from.
use vstd::prelude::*;

use crate::always::{
    lemma_advance_chain, lemma_last_turn, lemma_nothing_skipped, lemma_peer_left,
    lemma_replace_processed, lemma_turn, lemma_with_each_dom, turned, turns,
};
use crate::batch::{BatchProcessingResult, BatchView, Block};
use crate::model::{lemma_ids_above, with_each, Flow, SyncView};
use crate::order::lemma_first_not_none;
use crate::types::{
    AnchorInfo, BackFillState, BatchId, BatchProcessResult, BatchType, Id, PeerAction, PeerId, Slot,
};

verus! {

/// A new sync leaves nothing out.
pub proof fn lemma_initial_gapless(
    anchor: Option<AnchorInfo>,
    genesis_backfill_slot: Slot,
    slots_per_epoch: u64,
)
    ensures
        SyncView::initial(anchor, genesis_backfill_slot, slots_per_epoch).leaves_nothing_out(),
        SyncView::initial(anchor, genesis_backfill_slot, slots_per_epoch).reaches_start(),
{
}

/// A batch that is next to be processed and awaits validation is that of the very first epoch.
pub proof fn lemma_no_robust_target(s: SyncView)
    requires
        s.leaves_nothing_out(),
        s.batches.contains_key(s.processing_target),
        s.batches[s.processing_target].state is AwaitingValidation,
    ensures
        s.processing_target == 0,
{
}

/// Doing what is left of a call leaves nothing out.
pub proof fn lemma_proceed_gapless(s: SyncView, pool: Seq<PeerId>)
    requires
        s.is_consistent(),
        s.leaves_nothing_out(),
        s.waiting is Nothing,
    ensures
        s.proceed(pool).0.leaves_nothing_out(),
        s.reaches_start() ==> s.proceed(pool).0.reaches_start(),
    decreases
        (if s.work.process { 1int } else { 0int }),
        (if s.work.request { 1int } else { 0int }),
        s.work.idle.len(),
        s.work.retries.len(),
{
    lemma_nothing_skipped(s);
    if turns(s, pool) {
        let t = turned(s, pool);
        lemma_turn(s, pool);
        assert(t.leaves_nothing_out());
        lemma_proceed_gapless(t, pool);
    } else {
        lemma_last_turn(s, pool);
    }
}

/// A call goes on such that nothing is left out.
pub proof fn lemma_settle_gapless(at: (SyncView, Flow), pool: Seq<PeerId>)
    requires
        SyncView::can_settle(at),
        at.0.leaves_nothing_out(),
    ensures
        SyncView::settle(at, pool).0.leaves_nothing_out(),
        at.0.reaches_start() ==> SyncView::settle(at, pool).0.reaches_start(),
{
    if at.1 is Proceed {
        lemma_proceed_gapless(at.0, pool);
    }
}

/// Taking the next batch in leaves nothing out.
pub proof fn lemma_on_batch_type_gapless(s: SyncView, batch_type: BatchType)
    requires
        s.inv(),
        s.waiting is BatchType,
    ensures
        s.on_batch_type(batch_type).0.leaves_nothing_out(),
        s.reaches_start() ==> s.on_batch_type(batch_type).0.reaches_start(),
{
    let id = s.to_be_downloaded;
    let t = s.on_batch_type(batch_type).0;
    assert(s.would_complete(0));
    assert forall|a: BatchId, b: BatchId, k: BatchId|
        a <= k <= b && #[trigger] t.batches.contains_key(a) && #[trigger] t.batches.contains_key(
            b,
        ) implies #[trigger] t.batches.contains_key(k) by {
        if k != id {
            if a == id {
                assert(s.batches.contains_key(b));
            }
            if s.batches.contains_key(a) && s.batches.contains_key(b) {
                assert(s.batches.contains_key(k));
            }
        }
    }
    assert forall|b: BatchId, k: BatchId|
        !t.last_batch_downloaded && t.to_be_downloaded < k <= b && #[trigger]
        t.batches.contains_key(b) implies #[trigger] t.batches.contains_key(k) by {
        if k != id {
            assert(s.batches.contains_key(b));
            assert(s.batches.contains_key(k));
        }
    }
}

/// The begin of a download leaves nothing out.
pub proof fn lemma_request_sent_gapless(s: SyncView, request_id: Id)
    requires
        s.inv(),
        s.waiting is Request,
    ensures
        s.request_sent(request_id).0.leaves_nothing_out(),
        s.reaches_start() ==> s.request_sent(request_id).0.reaches_start(),
{
    let id = s.waiting->Request_batch_id;
    let t = s.request_sent(request_id).0;
    lemma_replaced(s, t, id);
}

/// Replacing one batch that does not await validation by another that does not leaves nothing out.
proof fn lemma_replaced(s: SyncView, t: SyncView, id: BatchId)
    requires
        s.leaves_nothing_out(),
        s.batches.contains_key(id),
        !(s.batches[id].state is AwaitingValidation),
        !(t.batches[id].state is AwaitingValidation),
        t.batches == s.batches.insert(id, t.batches[id]),
        t.last_batch_downloaded == s.last_batch_downloaded,
        t.to_be_downloaded == s.to_be_downloaded,
        t.processing_target == s.processing_target,
        t.current_start == s.current_start,
    ensures
        t.leaves_nothing_out(),
        s.reaches_start() ==> t.reaches_start(),
{
    assert forall|k: BatchId| #[trigger] t.batches.contains_key(k) <==> s.batches.contains_key(
        k,
    ) by {}
}

/// Giving a download up leaves nothing out.
pub proof fn lemma_download_failed_gapless(s: SyncView, id: BatchId, peer: PeerId)
    requires
        s.leaves_nothing_out(),
        s.batches.contains_key(id),
        s.batches[id].state is AwaitingDownload || s.batches[id].state is Downloading,
    ensures
        s.download_failed(id, peer).0.leaves_nothing_out(),
        s.reaches_start() ==> s.download_failed(id, peer).0.reaches_start(),
{
    let (t, flow) = s.download_failed(id, peer);
    if flow is Proceed {
        lemma_replaced(s, t, id);
    }
}

/// Handling a failed request leaves nothing out.
pub proof fn lemma_error_injected_gapless(s: SyncView, id: BatchId, peer: PeerId, request_id: Id)
    requires
        s.leaves_nothing_out(),
    ensures
        s.error_injected(id, peer, request_id).0.leaves_nothing_out(),
        s.reaches_start() ==> s.error_injected(id, peer, request_id).0.reaches_start(),
{
    if s.batches.contains_key(id) && s.batches[id].is_expecting(peer, request_id) {
        lemma_download_failed_gapless(s, id, peer);
    }
}

/// Handling a block, or the end of the blocks, leaves nothing out.
pub proof fn lemma_block_received_gapless(
    s: SyncView,
    id: BatchId,
    peer: PeerId,
    request_id: Id,
    block: Option<Block>,
)
    requires
        s.leaves_nothing_out(),
    ensures
        s.block_received(id, peer, request_id, block).0.leaves_nothing_out(),
        s.reaches_start() ==> s.block_received(id, peer, request_id, block).0.reaches_start(),
{
    let batch = s.batches[id];
    let t = s.block_received(id, peer, request_id, block).0;
    if s.batches.contains_key(id) && batch.is_expecting(peer, request_id) {
        if block is None && batch.crossed_boundary() is Some {
            lemma_download_failed_gapless(s, id, peer);
        } else {
            lemma_replaced(s, t, id);
        }
    }
}

/// Handling the loss of a peer leaves nothing out.
pub proof fn lemma_peer_left_gapless(s: SyncView, peer: PeerId)
    requires
        s.inv(),
        s.waiting is Nothing,
        s.work.retries.len() == 0,
        s.work.idle.len() == 0,
    ensures
        s.peer_left(peer).0.leaves_nothing_out(),
        s.reaches_start() ==> s.peer_left(peer).0.reaches_start(),
{
    let asked = s.asked_of(peer);
    let change = |batch: BatchView| batch.failed_downloading(batch.state->Downloading_0);
    let (t, flow) = s.peer_left(peer);
    lemma_peer_left(s, peer);
    lemma_with_each_dom(s.batches, asked, change);
    if flow is Proceed {
        assert forall|k: BatchId| #[trigger] t.batches.contains_key(k) implies {
            &&& s.batches.contains_key(k)
            &&& t.batches[k].state is AwaitingValidation <==> s.batches[k].state
                is AwaitingValidation
        } by {
            assert(t.batches[k] == with_each(s.batches, asked, change)[k]);
        }
        if !s.batches.contains_key(s.current_start) && s.reaches_start() {
            assert(t.batches =~= Map::<BatchId, BatchView>::empty());
        }
    }
}

/// Handling the result of a batch leaves nothing out.
pub proof fn lemma_batch_processed_gapless(
    s: SyncView,
    id: BatchId,
    result: BatchProcessResult,
    anchor: Option<AnchorInfo>,
)
    requires
        s.inv(),
        s.waiting is Nothing,
        s.work.retries.len() == 0,
        s.work.idle.len() == 0,
    ensures
        s.batch_processed(id, result, anchor).0.leaves_nothing_out(),
        s.reaches_start() ==> s.batch_processed(id, result, anchor).0.reaches_start(),
{
    if s.current_processing_batch == Some(id) {
        match result {
            BatchProcessResult::Success { was_non_empty } => {
                lemma_processed_well_gapless(s, id, was_non_empty, anchor);
            },
            BatchProcessResult::FaultyFailure { imported_blocks, penalty } => {
                lemma_processed_badly_gapless(s, id, imported_blocks, penalty, anchor);
            },
            BatchProcessResult::NonFaultyFailure => {
                lemma_replaced(s, s.processed(id, result, anchor).0, id);
            },
        }
    }
}

/// Going on below a batch that was processed with success leaves nothing out.
proof fn lemma_processed_well_gapless(
    s: SyncView,
    id: BatchId,
    was_non_empty: bool,
    anchor: Option<AnchorInfo>,
)
    requires
        s.inv(),
        s.waiting is Nothing,
        s.work.retries.len() == 0,
        s.work.idle.len() == 0,
        s.current_processing_batch == Some(id),
    ensures
        ({
            let result = BatchProcessResult::Success { was_non_empty };
            let t = s.processed(id, result, anchor).0;
            t.leaves_nothing_out() && (s.reaches_start() ==> t.reaches_start())
        }),
{
    let batch = s.batches[id].completed_processing(BatchProcessingResult::Success);
    let r = SyncView { current_processing_batch: None, ..s }.with_batch(id, batch);
    let t = s.processed(id, BatchProcessResult::Success { was_non_empty }, anchor).0;
    lemma_replace_processed(s, id, batch);
    lemma_advance_chain(r, id);
    assert forall|k: BatchId| #[trigger] t.batches.contains_key(k) implies {
        &&& s.batches.contains_key(k)
        &&& k != id ==> t.batches[k] == s.batches[k]
        &&& was_non_empty && id < s.current_start ==> k <= id
    } by {
        if was_non_empty {
            assert(r.advance_chain(id).0.batches.contains_key(k));
        }
    }
    assert forall|k: BatchId| s.batches.contains_key(k) && k <= id implies #[trigger]
        t.batches.contains_key(k) by {
        assert(r.batches.contains_key(k));
        if was_non_empty {
            assert(r.advance_chain(id).0.batches.contains_key(k));
        }
    }
    if !(was_non_empty && id < s.current_start) {
        assert(t.batches == r.batches);
    }
    assert(t.batches[id].state is AwaitingValidation);
}

/// Requesting batches again that may be invalid leaves nothing out.
proof fn lemma_processed_badly_gapless(
    s: SyncView,
    id: BatchId,
    imported_blocks: bool,
    penalty: PeerAction,
    anchor: Option<AnchorInfo>,
)
    requires
        s.inv(),
        s.waiting is Nothing,
        s.work.retries.len() == 0,
        s.work.idle.len() == 0,
        s.current_processing_batch == Some(id),
    ensures
        ({
            let result = BatchProcessResult::FaultyFailure { imported_blocks, penalty };
            let t = s.processed(id, result, anchor).0;
            t.leaves_nothing_out() && (s.reaches_start() ==> t.reaches_start())
        }),
{
    let result = BatchProcessResult::FaultyFailure { imported_blocks, penalty };
    let batch = s.batches[id].completed_processing(BatchProcessingResult::FaultyFailure);
    let r = SyncView { current_processing_batch: None, ..s }.with_batch(id, batch);
    let (t, _, flow) = s.processed(id, result, anchor);
    if flow is Proceed {
        lemma_replace_processed(s, id, batch);
        let p = r.in_state(BackFillState::Paused);
        lemma_advance_chain(p, id);
        let advanced = if imported_blocks {
            r.advance_chain(id).0
        } else {
            r
        };
        assert(p.advance_chain(id).0 == r.advance_chain(id).0.in_state(BackFillState::Paused));
        let above = advanced.ids_above(id);
        let change = |batch: BatchView| batch.failed_validation();
        let ok = |k: BatchId| advanced.can_revalidate(k);
        lemma_ids_above(advanced, id);
        lemma_first_not_none(above, ok);
        lemma_with_each_dom(advanced.batches, above, change);
        assert forall|k: BatchId| #[trigger] t.batches.contains_key(k) implies {
            &&& s.batches.contains_key(k)
            &&& imported_blocks && id < s.current_start ==> k <= id
            &&& !(t.batches[k].state is AwaitingValidation)
        } by {
            assert(advanced.batches.contains_key(k));
            assert(t.batches[k] == with_each(advanced.batches, above, change)[k]);
            if above.contains(k) {
                let i = choose|i: int| 0 <= i < above.len() && above[i] == k;
                assert(ok(above[i]));
            }
        }
        assert forall|k: BatchId|
            s.batches.contains_key(k) && (k <= id || !(imported_blocks && id
                < s.current_start)) implies #[trigger] t.batches.contains_key(k) by {
            assert(r.batches.contains_key(k));
            assert(advanced.batches.contains_key(k));
        }
    }
}

/// Starting or resuming leaves nothing out.
pub proof fn lemma_started_gapless(s: SyncView, pool: Seq<PeerId>, anchor: Option<AnchorInfo>)
    requires
        s.inv(),
    ensures
        s.started(pool, anchor).0.leaves_nothing_out(),
        s.reaches_start() && s.started(pool, anchor).0.current_start == s.current_start
            ==> s.started(pool, anchor).0.reaches_start(),
{
}

} // verus!
