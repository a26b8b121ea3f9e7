//! What each call does to the sync, and the step that it comes to.
use vstd::prelude::*;

use crate::always::{lemma_begun, lemma_peer_left, lemma_replace_processed, lemma_with_each_dom};
use crate::batch::{BatchProcessingResult, BatchStateView, BatchView, Block};
use crate::batches::ids_of;
use crate::blocks::blocks_fit;
use crate::choices::{law_where_the_sync_would_complete, lemma_depends_on_batches};
use crate::laws::{lemma_begin_of, lemma_begin_of_gapless, Call};
use crate::model::{
    lemma_ids_above, lemma_ids_of, successful, with_each, SyncView, Waiting, WorkView,
};
use crate::order::{
    ascending, first_not, is_ascending, lemma_ascending_is, lemma_ascending_of_finite,
    lemma_filter_ascending, lemma_first_not_none,
};
use crate::requests::is_requested;
use crate::steps::{lemma_goes_on, lemma_goes_on_keeps, slots_of};
use crate::types::{
    AnchorInfo, BackFillState, BatchId, BatchProcessResult, BatchType, ErrorView, Id, Outcome,
    PeerAction, PeerId, ProcessResult, Slot, StepView, SyncStart,
};

verus! {

impl SyncView {
    /// Whether the batch is being downloaded from the peer by the request.
    pub open spec fn expects(self, id: BatchId, peer: PeerId, request_id: Id) -> bool {
        &&& self.batches.contains_key(id)
        &&& self.batches[id].state is Downloading
        &&& self.batches[id].state->Downloading_0 == peer
        &&& self.batches[id].state->Downloading_2 == request_id
    }

    /// How many slots have been processed, and how many are still to be.
    pub open spec fn slots_done_and_left(self) -> SyncStart {
        let start = self.current_start * self.slots_per_epoch;
        let start_slot = if start <= u64::MAX {
            start
        } else {
            u64::MAX as int
        };
        SyncStart::Syncing {
            completed: (self.validated_batches * self.slots_per_epoch) as usize,
            remaining: (if start_slot > self.genesis_backfill_slot {
                start_slot - self.genesis_backfill_slot
            } else {
                0
            }) as usize,
        }
    }

    /// The batches above this one.
    pub open spec fn above(self, id: BatchId) -> Set<BatchId> {
        self.batches.dom().filter(|k: BatchId| k > id)
    }

    /// The sync with this work to be done.
    pub open spec fn doing(self, work: WorkView) -> SyncView {
        SyncView { work, waiting: Waiting::Nothing, ..self }
    }
}

/// The work of requesting these batches again.
pub open spec fn requesting_again(ids: Seq<BatchId>, outcome: Outcome) -> WorkView {
    WorkView { retries: ids, idle: Seq::empty(), request: false, process: false, outcome }
}

/// The work of requesting new batches, and of processing the next one.
pub open spec fn making_progress(outcome: Outcome) -> WorkView {
    WorkView { retries: Seq::empty(), idle: Seq::empty(), request: true, process: true, outcome }
}

/// No work.
pub open spec fn nothing_to_do() -> WorkView {
    WorkView {
        retries: Seq::empty(),
        idle: Seq::empty(),
        request: false,
        process: false,
        outcome: Outcome::Handled,
    }
}

/// What the calls come to that tell of blocks and of results, unless they complete the sync.
pub open spec fn ok() -> Outcome {
    Outcome::Processed(ProcessResult::Successful)
}

/// The ascending order of a set of numbers is just that: each number of the set stands in it, and
/// before all that are greater.
pub proof fn law_ascending_order(ids: Set<u64>)
    requires
        ids.finite(),
    ensures
        forall|i: int, j: int|
            0 <= i < j < ascending(ids).len() ==> ascending(ids)[i] < ascending(ids)[j],
        forall|id: u64| #[trigger] ascending(ids).contains(id) <==> ids.contains(id),
        ascending(ids).len() == ids.len(),
{
    lemma_ascending_of_finite(ids);
    ascending(ids).unique_seq_to_set();
    assert forall|id: u64| #[trigger] ascending(ids).contains(id) <==> ids.contains(id) by {
        assert(ascending(ids).to_set().contains(id) <==> ids.contains(id));
    }
}

/// Which of the requests are known to be to come does not matter for how a call goes on, nor which
/// batch would be next once the final one has been requested.
proof fn lemma_goes_on_alike(
    a: SyncView,
    b: SyncView,
    pool: Seq<PeerId>,
    t: SyncView,
    step: StepView,
)
    requires
        a.goes_on_to(pool, t, step),
        b == (SyncView {
            active_requests: t.active_requests,
            to_be_downloaded: if a.last_batch_downloaded {
                t.to_be_downloaded
            } else {
                a.to_be_downloaded
            },
            ..a
        }),
    ensures
        b.goes_on_to(pool, t, step),
{
    reveal(SyncView::goes_on_to);
    lemma_depends_on_batches(a, b, pool, 0, 0);
    assert(b.cleared() == a.cleared());
}

/// A new sync is not required without an anchor, complete if the store says so, and else paused at
/// the epoch of the oldest block. Nothing has been done yet.
pub proof fn law_of_new(
    anchor: Option<AnchorInfo>,
    genesis_backfill_slot: Slot,
    slots_per_epoch: u64,
)
    requires
        slots_per_epoch > 0,
    ensures
        ({
            let s = SyncView::initial(anchor, genesis_backfill_slot, slots_per_epoch);
            let (state, start) = match anchor {
                None => (BackFillState::NotRequired, 0u64),
                Some(info) => if info.block_backfill_complete {
                    (BackFillState::Completed, 0u64)
                } else {
                    (BackFillState::Paused, s.current_start)
                },
            };
            &&& state == BackFillState::Paused ==> {
                &&& s.current_start * slots_per_epoch <= anchor->0.oldest_block_slot
                &&& anchor->0.oldest_block_slot < (s.current_start + 1) * slots_per_epoch
            }
            &&& s == (SyncView {
                state,
                current_start: start,
                processing_target: start,
                to_be_downloaded: start,
                last_batch_downloaded: false,
                batches: Map::empty(),
                active_requests: Map::empty(),
                current_processing_batch: None,
                validated_batches: 0,
                participating_peers: Set::empty(),
                restart_failed_sync: false,
                genesis_backfill_slot,
                slots_per_epoch,
                work: nothing_to_do(),
                waiting: Waiting::Nothing,
            })
        }),
{
    if let Some(info) = anchor {
        lemma_epoch_of(info.oldest_block_slot, slots_per_epoch);
    }
}

/// The epoch of a slot is the one that the slot lies in.
proof fn lemma_epoch_of(slot: Slot, slots_per_epoch: u64)
    requires
        slots_per_epoch > 0,
    ensures
        (slot / slots_per_epoch) * slots_per_epoch <= slot,
        slot < (slot / slots_per_epoch + 1) * slots_per_epoch,
{
    let n = slots_per_epoch as int;
    let x = slot as int;
    vstd::arithmetic::div_mod::lemma_fundamental_div_mod(x, n);
    assert((x / n) * n == n * (x / n)) by (nonlinear_arith);
    assert((x / n + 1) * n == n * (x / n) + n) by (nonlinear_arith);
}

/// Pausing pauses a sync that runs, and changes nothing else; a peer that joins lets a failed sync
/// restart, and changes nothing else.
pub proof fn law_of_pausing_and_joining(s: SyncView)
    ensures
        s.pause() == (SyncView {
            state: if s.state == BackFillState::Syncing {
                BackFillState::Paused
            } else {
                s.state
            },
            ..s
        }),
        s.fully_synced_peer_joined() == (SyncView {
            restart_failed_sync: s.restart_failed_sync || s.state == BackFillState::Failed,
            ..s
        }),
{
}

/// Starting a paused sync with a synced peer requests all batches again that await a download, in
/// ascending order, then new batches, and then processes the next one. Starting a failed sync, if a
/// peer has joined since, takes up the epoch of the oldest block and requests new batches. The call
/// tells how far the sync has come. Any other sync is left as it is.
pub proof fn law_of_start(s: SyncView, pool: Seq<PeerId>, anchor: Option<AnchorInfo>)
    requires
        s.inv(),
        s.is_idle(),
    ensures
        ({
            let (t, step) = s.start(pool, anchor);
            let not_syncing = StepView::Done(Ok(Outcome::Started(SyncStart::NotSyncing)));
            match s.state {
                BackFillState::Syncing => {
                    &&& t == s
                    &&& step == StepView::Done(Ok(Outcome::Started(s.slots_done_and_left())))
                },
                BackFillState::Paused => if pool.len() == 0 {
                    t == s && step == not_syncing
                } else {
                    let awaiting = s.batches.dom().filter(
                        |id: BatchId| s.batches[id].state is AwaitingDownload,
                    );
                    let outcome = Outcome::Started(s.slots_done_and_left());
                    SyncView { state: BackFillState::Syncing, ..s }.doing(
                        WorkView { retries: ascending(awaiting), ..making_progress(outcome) },
                    ).goes_on_to(pool, t, step)
                },
                BackFillState::Failed => if !s.restart_failed_sync {
                    t == s && step == not_syncing
                } else {
                    match anchor {
                        None => {
                            &&& t == (SyncView { state: BackFillState::NotRequired, ..s })
                            &&& step == StepView::Done(
                                Err(ErrorView::InvalidSyncState("backfill not required"@)),
                            )
                        },
                        Some(info) => if info.block_backfill_complete {
                            &&& t == (SyncView { state: BackFillState::Completed, ..s })
                            &&& step == StepView::Done(
                                Err(ErrorView::InvalidSyncState("chain completed"@)),
                            )
                        } else {
                            let restarted = SyncView {
                                state: BackFillState::Syncing,
                                current_start: t.current_start,
                                ..s
                            };
                            let outcome = Outcome::Started(restarted.slots_done_and_left());
                            &&& t.current_start * s.slots_per_epoch <= info.oldest_block_slot
                            &&& info.oldest_block_slot < (t.current_start + 1) * s.slots_per_epoch
                            &&& restarted.doing(
                                WorkView { process: false, ..making_progress(outcome) },
                            ).goes_on_to(pool, t, step)
                        },
                    }
                },
                BackFillState::Completed | BackFillState::NotRequired => {
                    t == s && step == not_syncing
                },
            }
        }),
{
    let call = Call::Start { anchor };
    let (t, step) = s.start(pool, anchor);
    assert(s.begun(Outcome::Handled) =~= s);
    lemma_begin_of(s, call, pool);
    lemma_begin_of_gapless(s, call, pool);
    let (u, flow) = s.begin_of(call, pool);
    assert(s.progress() == s.slots_done_and_left()) by {
        lemma_progress(s);
    }
    if s.state == BackFillState::Paused && pool.len() > 0 {
        let pick = |id: BatchId| s.batches[id].state is AwaitingDownload;
        let awaiting = s.batches.dom().filter(pick);
        lemma_picked(s, pick);
        let outcome = Outcome::Started(s.slots_done_and_left());
        assert(u =~= SyncView { state: BackFillState::Syncing, ..s }.doing(
            WorkView { retries: ascending(awaiting), ..making_progress(outcome) },
        ));
        lemma_goes_on(u, pool);
    }
    if let Some(info) = anchor {
        if s.state == BackFillState::Failed && s.restart_failed_sync
            && !info.block_backfill_complete {
            lemma_epoch_of(info.oldest_block_slot, s.slots_per_epoch);
            lemma_goes_on(u, pool);
            lemma_goes_on_keeps(u, pool, t, step, 0);
            let restarted = SyncView {
                state: BackFillState::Syncing,
                current_start: info.oldest_block_slot / s.slots_per_epoch,
                ..s
            };
            lemma_progress(restarted);
            let outcome = Outcome::Started(restarted.slots_done_and_left());
            assert(u =~= restarted.doing(WorkView { process: false, ..making_progress(outcome) }));
        }
    }
}

/// The progress, counted in slots.
pub proof fn lemma_progress(s: SyncView)
    ensures
        s.progress() == s.slots_done_and_left(),
{
    assert(s.validated_batches * 1 * s.slots_per_epoch == s.validated_batches * s.slots_per_epoch)
        by (nonlinear_arith);
    assert(s.current_start * s.slots_per_epoch >= 0) by (nonlinear_arith);
}

/// The ids that are picked, in ascending order, are those of the set of them.
pub proof fn lemma_picked(s: SyncView, pick: spec_fn(BatchId) -> bool)
    requires
        s.batches.dom().finite(),
    ensures
        ids_of(s.batches).filter(pick) == ascending(s.batches.dom().filter(pick)),
        s.batches.dom().filter(pick).finite(),
{
    let picked = ids_of(s.batches).filter(pick);
    lemma_ids_of(s.batches);
    lemma_filter_ascending(ids_of(s.batches), pick);
    assert forall|id: BatchId| picked.to_set().contains(id) <==> s.batches.dom().filter(
        pick,
    ).contains(id) by {
        assert(picked.contains(id) <==> ids_of(s.batches).contains(id) && pick(id));
    }
    assert(picked.to_set() =~= s.batches.dom().filter(pick));
    lemma_ascending_is(picked);
}

/// An error that answers a request which a batch waits for counts as a failed download: the batch
/// is requested again, and nothing else changes; but the sync fails at the tenth. Any other error
/// changes nothing.
pub proof fn law_of_inject_error(
    s: SyncView,
    id: BatchId,
    peer: PeerId,
    request_id: Id,
    pool: Seq<PeerId>,
)
    requires
        s.inv(),
        s.is_idle(),
    ensures
        ({
            let (t, step) = s.inject_error(id, peer, request_id, pool);
            let batch = s.batches[id];
            let attempts = batch.failed_download_attempts.push(peer);
            if !s.expects(id, peer, request_id) {
                t == s && step == StepView::Done(Ok(Outcome::Handled))
            } else if attempts.len() >= 10 {
                &&& t == s.cleared()
                &&& step == StepView::Done(Err(ErrorView::BatchDownloadFailed(id)))
            } else {
                let lost = BatchView {
                    failed_download_attempts: attempts,
                    state: BatchStateView::AwaitingDownload,
                    ..batch
                };
                SyncView {
                    batches: s.batches.insert(id, lost),
                    active_requests: t.active_requests,
                    ..s
                }.doing(requesting_again(seq![id], Outcome::Handled)).goes_on_to(pool, t, step)
            }
        }),
{
    let call = Call::InjectError { batch_id: id, peer, request_id };
    let (t, step) = s.inject_error(id, peer, request_id, pool);
    assert(s.begun(Outcome::Handled) =~= s);
    lemma_begin_of(s, call, pool);
    lemma_begin_of_gapless(s, call, pool);
    if s.expects(id, peer, request_id) {
        lemma_lost(s, s.begun(Outcome::Handled), id, peer, pool, t, step);
    }
}

/// What a failed download comes to.
proof fn lemma_lost(
    s: SyncView,
    r: SyncView,
    id: BatchId,
    peer: PeerId,
    pool: Seq<PeerId>,
    t: SyncView,
    step: StepView,
)
    requires
        s.inv(),
        r == s.begun(r.work.outcome) || (r == SyncView { waiting: Waiting::Nothing, ..s }),
        s.batches.contains_key(id),
        SyncView::can_settle(r.download_failed(id, peer)),
        r.download_failed(id, peer).0.leaves_nothing_out(),
        (t, step) == SyncView::settle(r.download_failed(id, peer), pool),
    ensures
        ({
            let attempts = s.batches[id].failed_download_attempts.push(peer);
            if attempts.len() >= 10 {
                &&& t == s.cleared()
                &&& step == StepView::Done(Err(ErrorView::BatchDownloadFailed(id)))
            } else {
                let lost = BatchView {
                    failed_download_attempts: attempts,
                    state: BatchStateView::AwaitingDownload,
                    ..s.batches[id]
                };
                SyncView {
                    batches: s.batches.insert(id, lost),
                    active_requests: t.active_requests,
                    ..s
                }.doing(WorkView { retries: seq![id] + r.work.retries, ..r.work }).goes_on_to(
                    pool,
                    t,
                    step,
                )
            }
        }),
{
    reveal(SyncView::goes_on_to);
    let (u, flow) = r.download_failed(id, peer);
    let attempts = s.batches[id].failed_download_attempts.push(peer);
    if attempts.len() >= 10 {
        assert(t =~= s.cleared());
    } else {
        let lost = BatchView {
            failed_download_attempts: attempts,
            state: BatchStateView::AwaitingDownload,
            ..s.batches[id]
        };
        lemma_goes_on(u, pool);
        let v = SyncView {
            batches: s.batches.insert(id, lost),
            active_requests: t.active_requests,
            ..s
        }.doing(WorkView { retries: seq![id] + r.work.retries, ..r.work });
        assert(u.work.retries[0] == id);
        assert(v =~= u);
    }
}

/// A block that answers a request which a batch waits for is added behind those that have come, and
/// nothing else changes. The end of these blocks has the batch await processing with just these
/// blocks, if the first of them does not lie before the batch nor the last one behind it; then new
/// batches are requested, and the next one is processed. Else this is a failed download: the batch
/// is requested again, but the sync fails at the tenth. Any other answer changes nothing.
pub proof fn law_of_on_block_response(
    s: SyncView,
    id: BatchId,
    peer: PeerId,
    request_id: Id,
    block: Option<Block>,
    pool: Seq<PeerId>,
)
    requires
        s.inv(),
        s.is_idle(),
    ensures
        ({
            let (t, step) = s.on_block_response(id, peer, request_id, block, pool);
            let batch = s.batches[id];
            let blocks = batch.state->Downloading_1;
            let attempts = batch.failed_download_attempts.push(peer);
            if !s.expects(id, peer, request_id) {
                t == s && step == StepView::Done(Ok(ok()))
            } else if block is Some {
                let state = BatchStateView::Downloading(peer, blocks.push(block->0), request_id);
                &&& t == (SyncView {
                    batches: s.batches.insert(id, BatchView { state, ..batch }),
                    ..s
                })
                &&& step == StepView::Done(Ok(ok()))
            } else if blocks_fit(batch, blocks) {
                let state = BatchStateView::AwaitingProcessing(peer, blocks);
                SyncView {
                    batches: s.batches.insert(id, BatchView { state, ..batch }),
                    active_requests: t.active_requests,
                    to_be_downloaded: if s.last_batch_downloaded {
                        t.to_be_downloaded
                    } else {
                        s.to_be_downloaded
                    },
                    ..s
                }.doing(making_progress(ok())).goes_on_to(pool, t, step)
            } else if attempts.len() >= 10 {
                &&& t == s.cleared()
                &&& step == StepView::Done(Err(ErrorView::BatchDownloadFailed(id)))
            } else {
                let lost = BatchView {
                    failed_download_attempts: attempts,
                    state: BatchStateView::AwaitingDownload,
                    ..batch
                };
                SyncView {
                    batches: s.batches.insert(id, lost),
                    active_requests: t.active_requests,
                    ..s
                }.doing(requesting_again(seq![id], ok())).goes_on_to(pool, t, step)
            }
        }),
{
    let call = Call::BlockResponse { batch_id: id, peer, request_id, block };
    let (t, step) = s.on_block_response(id, peer, request_id, block, pool);
    let batch = s.batches[id];
    let blocks = batch.state->Downloading_1;
    let r = s.begun(successful());
    assert(r.begun(Outcome::Handled) =~= s);
    lemma_begin_of(s, call, pool);
    lemma_begin_of_gapless(s, call, pool);
    let (u, flow) = s.begin_of(call, pool);
    if s.expects(id, peer, request_id) {
        if block is Some {
            let state = BatchStateView::Downloading(peer, blocks.push(block->0), request_id);
            assert(t =~= SyncView {
                batches: s.batches.insert(id, BatchView { state, ..batch }),
                ..s
            });
        } else if blocks_fit(batch, blocks) {
            lemma_goes_on(u, pool);
            let state = BatchStateView::AwaitingProcessing(peer, blocks);
            let v = SyncView {
                batches: s.batches.insert(id, BatchView { state, ..batch }),
                active_requests: t.active_requests,
                to_be_downloaded: if s.last_batch_downloaded {
                    t.to_be_downloaded
                } else {
                    s.to_be_downloaded
                },
                ..s
            }.doing(making_progress(ok()));
            assert(v =~= SyncView {
                active_requests: t.active_requests,
                to_be_downloaded: v.to_be_downloaded,
                ..u
            });
            lemma_goes_on_alike(u, v, pool, t, step);
        } else {
            lemma_lost(s, r, id, peer, pool, t, step);
            assert(seq![id] + r.work.retries =~= seq![id]);
        }
    }
}

/// What the new batch is to ask for has it taken in, with the slots of its epoch and no failed
/// attempts, and asked of the peer that it was to be asked of. The batch below it is next, unless
/// this was the final one.
pub proof fn law_of_on_batch_type(s: SyncView, batch_type: BatchType)
    requires
        s.inv(),
        s.waiting is BatchType,
    ensures
        ({
            let (t, step) = s.on_batch_type(batch_type);
            let id = s.waiting->BatchType_batch_id;
            let peer = s.waiting->BatchType_peer;
            let start = id * s.slots_per_epoch;
            let end = start + s.slots_per_epoch;
            let batch = t.batches[id];
            &&& batch == (BatchView {
                start_slot: if start <= u64::MAX {
                    start as u64
                } else {
                    u64::MAX
                },
                end_slot: if end <= u64::MAX {
                    end as u64
                } else {
                    u64::MAX
                },
                batch_type,
                failed_processing_attempts: Seq::empty(),
                failed_download_attempts: Seq::empty(),
                state: BatchStateView::AwaitingDownload,
            })
            &&& t == (SyncView {
                batches: s.batches.insert(id, batch),
                to_be_downloaded: if id > 0 {
                    (id - 1) as u64
                } else {
                    0
                },
                last_batch_downloaded: id * s.slots_per_epoch <= s.genesis_backfill_slot,
                participating_peers: s.participating_peers.insert(peer),
                waiting: Waiting::Request { batch_id: id, peer },
                ..s
            })
            &&& step == (StepView::RequestBlocks {
                peer,
                batch_id: id,
                request: slots_of(batch),
                batch_type,
            })
        }),
{
    let id = s.waiting->BatchType_batch_id;
    let (t, step) = s.on_batch_type(batch_type);
    law_where_the_sync_would_complete(s, id);
    assert(id * s.slots_per_epoch >= 0) by (nonlinear_arith);
    assert(1 * s.slots_per_epoch == s.slots_per_epoch);
    assert(t.batches =~= s.batches.insert(id, t.batches[id]));
}

/// Once a request was sent, the batch is being downloaded by it from the peer that was asked, and
/// no block has come yet; then the call goes on.
pub proof fn law_of_on_request_sent(s: SyncView, request_id: Id, pool: Seq<PeerId>)
    requires
        s.inv(),
        s.waiting is Request,
    ensures
        ({
            let (t, step) = s.on_request_sent(request_id, pool);
            let id = s.waiting->Request_batch_id;
            let peer = s.waiting->Request_peer;
            let state = BatchStateView::Downloading(peer, Seq::empty(), request_id);
            SyncView {
                batches: s.batches.insert(id, BatchView { state, ..s.batches[id] }),
                active_requests: t.active_requests,
                to_be_downloaded: if s.last_batch_downloaded {
                    t.to_be_downloaded
                } else {
                    s.to_be_downloaded
                },
                ..s
            }.doing(s.work).goes_on_to(pool, t, step)
        }),
{
    let call = Call::RequestSent { request_id };
    let (t, step) = s.on_request_sent(request_id, pool);
    lemma_begin_of(s, call, pool);
    lemma_begin_of_gapless(s, call, pool);
    let (u, flow) = s.begin_of(call, pool);
    lemma_goes_on(u, pool);
    let id = s.waiting->Request_batch_id;
    let peer = s.waiting->Request_peer;
    let state = BatchStateView::Downloading(peer, Seq::empty(), request_id);
    let v = SyncView {
        batches: s.batches.insert(id, BatchView { state, ..s.batches[id] }),
        active_requests: t.active_requests,
        to_be_downloaded: if s.last_batch_downloaded {
            t.to_be_downloaded
        } else {
            s.to_be_downloaded
        },
        ..s
    }.doing(s.work);
    assert(v =~= SyncView {
        active_requests: t.active_requests,
        to_be_downloaded: v.to_be_downloaded,
        ..u
    });
    lemma_goes_on_alike(u, v, pool, t, step);
}

/// A request that could not be sent counts as a failed download: the batch is requested again
/// before all else, and the call goes on; but the sync fails at the tenth.
pub proof fn law_of_on_request_failed(s: SyncView, pool: Seq<PeerId>)
    requires
        s.inv(),
        s.waiting is Request,
    ensures
        ({
            let (t, step) = s.on_request_failed(pool);
            let id = s.waiting->Request_batch_id;
            let peer = s.waiting->Request_peer;
            let attempts = s.batches[id].failed_download_attempts.push(peer);
            if attempts.len() >= 10 {
                &&& t == s.cleared()
                &&& step == StepView::Done(Err(ErrorView::BatchDownloadFailed(id)))
            } else {
                let lost = BatchView {
                    failed_download_attempts: attempts,
                    state: BatchStateView::AwaitingDownload,
                    ..s.batches[id]
                };
                SyncView {
                    batches: s.batches.insert(id, lost),
                    active_requests: t.active_requests,
                    ..s
                }.doing(WorkView { retries: seq![id] + s.work.retries, ..s.work }).goes_on_to(
                    pool,
                    t,
                    step,
                )
            }
        }),
{
    let call = Call::RequestFailed;
    let (t, step) = s.on_request_failed(pool);
    lemma_begin_of(s, call, pool);
    lemma_begin_of_gapless(s, call, pool);
    let id = s.waiting->Request_batch_id;
    let peer = s.waiting->Request_peer;
    lemma_lost(s, SyncView { waiting: Waiting::Nothing, ..s }, id, peer, pool, t, step);
}

/// Blocks that the block processor took end the call. Blocks that it did not take are downloaded
/// again, without counting as a failed attempt.
pub proof fn law_of_segments(s: SyncView, pool: Seq<PeerId>)
    requires
        s.inv(),
        s.waiting is Segment,
    ensures
        s.on_segment_sent(pool) == (
            s.doing(nothing_to_do()),
            StepView::Done(Ok(s.work.outcome)),
        ),
        ({
            let (t, step) = s.on_segment_rejected(pool);
            let id = s.waiting->Segment_batch_id;
            let state = BatchStateView::AwaitingDownload;
            SyncView {
                batches: s.batches.insert(id, BatchView { state, ..s.batches[id] }),
                current_processing_batch: None,
                ..s
            }.doing(requesting_again(seq![id], s.work.outcome)).goes_on_to(pool, t, step)
        }),
{
    assert(s.on_segment_sent(pool).0 =~= s.doing(nothing_to_do()));
    let call = Call::SegmentRejected;
    let (t, step) = s.on_segment_rejected(pool);
    lemma_begin_of(s, call, pool);
    lemma_begin_of_gapless(s, call, pool);
    let (u, flow) = s.begin_of(call, pool);
    let id = s.waiting->Segment_batch_id;
    let state = BatchStateView::AwaitingDownload;
    assert(u =~= SyncView {
        batches: s.batches.insert(id, BatchView { state, ..s.batches[id] }),
        current_processing_batch: None,
        ..s
    }.doing(requesting_again(seq![id], s.work.outcome)));
    lemma_goes_on(u, pool);
}

/// When a peer disconnects, it does not participate any more, and the downloads from it have
/// failed: these batches are requested again in ascending order, and nothing else changes. If for
/// one of them this is the tenth failed download, the sync fails with the lowest such batch. A sync
/// that has failed, or is not required, is left as it is.
pub proof fn law_of_peer_disconnected(s: SyncView, peer: PeerId, pool: Seq<PeerId>)
    requires
        s.inv(),
        s.is_idle(),
    ensures
        ({
            let (t, step) = s.peer_disconnected(peer, pool);
            let from_peer = s.downloads_from(peer);
            let is_last = |id: BatchId|
                from_peer.contains(id) && s.batches[id].failed_download_attempts.len() + 1 >= 10;
            if s.state == BackFillState::Failed || s.state == BackFillState::NotRequired {
                t == s && step == StepView::Done(Ok(Outcome::Handled))
            } else if exists|id: BatchId| #[trigger] is_last(id) {
                &&& t == s.cleared()
                &&& exists|id: BatchId| #[trigger]
                    is_last(id) && (forall|k: BatchId| k < id ==> !#[trigger] is_last(k)) && step
                        == StepView::Done(Err(ErrorView::BatchDownloadFailed(id)))
            } else {
                let batches = s.batches.map_entries(
                    |id: BatchId, batch: BatchView|
                        if from_peer.contains(id) {
                            BatchView {
                                failed_download_attempts: batch.failed_download_attempts.push(peer),
                                state: BatchStateView::AwaitingDownload,
                                ..batch
                            }
                        } else {
                            batch
                        },
                );
                SyncView {
                    batches,
                    active_requests: t.active_requests,
                    participating_peers: s.participating_peers.remove(peer),
                    ..s
                }.doing(requesting_again(ascending(from_peer), Outcome::Handled)).goes_on_to(
                    pool,
                    t,
                    step,
                )
            }
        }),
{
    let call = Call::PeerDisconnected { peer };
    let (t, step) = s.peer_disconnected(peer, pool);
    let r = s.begun(Outcome::Handled);
    assert(r =~= s);
    lemma_begin_of(s, call, pool);
    lemma_begin_of_gapless(s, call, pool);
    lemma_peer_left(s, peer);
    let (u, flow) = s.begin_of(call, pool);
    let from_peer = s.downloads_from(peer);
    let is_last = |id: BatchId|
        from_peer.contains(id) && s.batches[id].failed_download_attempts.len() + 1 >= 10;
    let asked = s.asked_of(peer);
    let pick = |id: BatchId| is_requested(s.active_requests, peer, id);
    lemma_picked(s, pick);
    lemma_ids_of(s.batches);
    lemma_filter_ascending(ids_of(s.batches), pick);
    assert forall|id: BatchId| from_peer.contains(id) <==> s.batches.dom().filter(pick).contains(
        id,
    ) by {
        assert(asked.contains(id) <==> s.batches.contains_key(id)
            && s.batches[id].is_downloading_from(peer));
        assert(asked.contains(id) <==> ids_of(s.batches).contains(id) && pick(id));
    }
    assert(from_peer =~= s.batches.dom().filter(pick));
    assert(asked == ascending(from_peer));
    if !(s.state == BackFillState::Failed || s.state == BackFillState::NotRequired) {
        let ok = |id: BatchId| s.can_redownload(id);
        lemma_first_not_none(asked, ok);
        assert forall|id: BatchId| #[trigger] asked.contains(id) implies ok(id) == !is_last(id) by {
            assert(from_peer.contains(id));
        }
        match first_not(asked, ok) {
            Some(id) => {
                lemma_first_not_is_first(asked, ok);
                assert(is_last(id));
                assert forall|k: BatchId| k < id implies !#[trigger] is_last(k) by {
                    if from_peer.contains(k) {
                        assert(asked.contains(k));
                    }
                }
                assert(t =~= s.cleared());
            },
            None => {
                assert forall|id: BatchId| !#[trigger] is_last(id) by {
                    if from_peer.contains(id) {
                        assert(asked.contains(id));
                        let i = choose|i: int| 0 <= i < asked.len() && asked[i] == id;
                        assert(ok(asked[i]));
                    }
                }
                let change = |batch: BatchView|
                    batch.failed_downloading(batch.state->Downloading_0);
                lemma_with_each_dom(s.batches, asked, change);
                let batches = s.batches.map_entries(
                    |id: BatchId, batch: BatchView|
                        if from_peer.contains(id) {
                            BatchView {
                                failed_download_attempts: batch.failed_download_attempts.push(peer),
                                state: BatchStateView::AwaitingDownload,
                                ..batch
                            }
                        } else {
                            batch
                        },
                );
                assert forall|id: BatchId| s.batches.contains_key(id) implies #[trigger]
                    batches[id] == u.batches[id] by {
                    assert(u.batches[id] == with_each(s.batches, asked, change)[id]);
                    assert(asked.contains(id) <==> from_peer.contains(id));
                    if from_peer.contains(id) {
                        assert(!is_last(id));
                    }
                }
                assert(batches =~= u.batches);
                lemma_goes_on(u, pool);
                let v = SyncView {
                    batches,
                    active_requests: t.active_requests,
                    participating_peers: s.participating_peers.remove(peer),
                    ..s
                }.doing(requesting_again(ascending(from_peer), Outcome::Handled));
                assert(v =~= u);
            },
        }
    }
}

/// The first number that does not satisfy `ok` is one of the sequence, does not satisfy it, and all
/// smaller ones of an ascending sequence do.
proof fn lemma_first_not_is_first(ids: Seq<BatchId>, ok: spec_fn(BatchId) -> bool)
    requires
        is_ascending(ids),
    ensures
        first_not(ids, ok) matches Some(id) ==> {
            &&& ids.contains(id)
            &&& !ok(id)
            &&& forall|k: BatchId| #[trigger] ids.contains(k) && k < id ==> ok(k)
        },
    decreases ids.len(),
{
    if ids.len() > 0 {
        let rest = ids.drop_first();
        lemma_first_not_is_first(rest, ok);
        if let Some(id) = first_not(ids, ok) {
            if ok(ids[0]) {
                let i = choose|i: int| 0 <= i < rest.len() && rest[i] == id;
                assert(ids[i + 1] == id);
            } else {
                assert(ids[0] == id);
            }
            assert forall|k: BatchId| #[trigger] ids.contains(k) && k < id implies ok(k) by {
                let i = choose|i: int| 0 <= i < ids.len() && ids[i] == k;
                if i > 0 {
                    assert(rest[i - 1] == k);
                    assert(rest.contains(k));
                }
            }
        }
    }
}

/// The batches without those of a set, and with one of the others changed, is as changing the one
/// first.
proof fn lemma_removed(s: SyncView, id: BatchId, batch: BatchView, gone: Set<BatchId>)
    requires
        !gone.contains(id),
    ensures
        s.batches.insert(id, batch).remove_keys(gone) == s.batches.remove_keys(gone).insert(
            id,
            batch,
        ),
{
    assert(s.batches.insert(id, batch).remove_keys(gone) =~= s.batches.remove_keys(gone).insert(
        id,
        batch,
    ));
}

/// What advancing the chain comes to while no batch is being processed.
proof fn lemma_advanced(r: SyncView, s: SyncView, id: BatchId)
    requires
        r.in_state(BackFillState::Paused).is_consistent(),
        r.waiting is Nothing,
        r.state != BackFillState::Failed,
        r.work.retries.len() == 0,
        r.current_processing_batch is None,
        r.batches.dom() == s.batches.dom(),
        s.batches.dom().finite(),
        id < r.current_start,
        r.batches.contains_key(id),
    ensures
        s.above(id).finite(),
        r.advance_chain(id).0 == (SyncView {
            current_start: id,
            processing_target: if r.processing_target <= id {
                r.processing_target
            } else {
                id
            },
            to_be_downloaded: r.advance_chain(id).0.to_be_downloaded,
            batches: r.batches.remove_keys(s.above(id)),
            active_requests: r.advance_chain(id).0.active_requests,
            validated_batches: if r.validated_batches + s.above(id).len() <= u64::MAX {
                (r.validated_batches + s.above(id).len()) as u64
            } else {
                u64::MAX
            },
            ..r
        }),
        !r.last_batch_downloaded ==> r.advance_chain(id).0.to_be_downloaded == r.to_be_downloaded,
{
    let pick = |k: BatchId| k > id;
    lemma_picked(r, pick);
    law_ascending_order(r.above(id));
    lemma_ids_above(r, id);
    let above = r.ids_above(id);
    assert(r.above(id) =~= s.above(id));
    assert(r.ids_above(id) == ascending(r.above(id)));
    assert forall|k: BatchId| above.to_set().contains(k) <==> s.above(id).contains(k) by {
        assert(above.contains(k) <==> r.above(id).contains(k));
    }
    assert(above.to_set() =~= s.above(id));
    let p = r.in_state(BackFillState::Paused);
    assert(p.stops_at_genesis());
    assert(p.batches.contains_key(id));
}

/// A batch that was processed with success awaits validation, and the batch below it is next. If it
/// was not empty, and lies below where the chain is validated from, it validates the batches above
/// it: they are removed and counted, and the chain is validated from it on. If the sync has then
/// come to its end, and the chain's store agrees, it is complete; else new batches are requested,
/// and the next one is processed.
pub proof fn law_of_success(
    s: SyncView,
    id: BatchId,
    was_non_empty: bool,
    anchor: Option<AnchorInfo>,
    pool: Seq<PeerId>,
)
    requires
        s.inv(),
        s.is_idle(),
        s.current_processing_batch == Some(id),
    ensures
        ({
            let result = BatchProcessResult::Success { was_non_empty };
            let (t, _, step) = s.on_batch_process_result(id, result, anchor, pool);
            let advances = was_non_empty && id < s.current_start;
            let gone = if advances {
                s.above(id)
            } else {
                Set::empty()
            };
            let state = BatchStateView::AwaitingValidation(s.batches[id].state->Processing_0);
            let next = SyncView {
                current_start: if advances {
                    id
                } else {
                    s.current_start
                },
                processing_target: if id > 0 {
                    (id - 1) as u64
                } else {
                    0
                },
                to_be_downloaded: if s.last_batch_downloaded {
                    t.to_be_downloaded
                } else {
                    s.to_be_downloaded
                },
                batches: s.batches.remove_keys(gone).insert(
                    id,
                    BatchView { state, ..s.batches[id] },
                ),
                active_requests: t.active_requests,
                current_processing_batch: None,
                validated_batches: if s.validated_batches + gone.len() <= u64::MAX {
                    (s.validated_batches + gone.len()) as u64
                } else {
                    u64::MAX
                },
                ..s
            };
            &&& gone.finite()
            &&& if anchor is Some && anchor->0.block_backfill_complete && next.current_start
                * s.slots_per_epoch <= s.genesis_backfill_slot {
                &&& t == (SyncView { state: BackFillState::Completed, ..next })
                &&& step == StepView::Done(
                    Ok(Outcome::Processed(ProcessResult::SyncCompleted)),
                )
            } else {
                next.doing(making_progress(ok())).goes_on_to(pool, t, step)
            }
        }),
{
    let result = BatchProcessResult::Success { was_non_empty };
    let call = Call::ProcessResult { batch_id: id, result, anchor };
    let (t, _, step) = s.on_batch_process_result(id, result, anchor, pool);
    let r = s.begun(successful());
    lemma_begun(s, successful());
    lemma_begin_of(s, call, pool);
    lemma_begin_of_gapless(s, call, pool);
    let (u, flow) = s.begin_of(call, pool);
    let batch = s.batches[id].completed_processing(BatchProcessingResult::Success);
    let c = SyncView { current_processing_batch: None, ..r }.with_batch(id, batch);
    lemma_replace_processed(r, id, batch);
    assert(c.batches.dom() =~= s.batches.dom());
    let advances = was_non_empty && id < s.current_start;
    let gone = if advances {
        s.above(id)
    } else {
        Set::empty()
    };
    if advances {
        lemma_advanced(c, s, id);
    } else {
        assert(s.batches.remove_keys(gone) =~= s.batches);
    }
    lemma_removed(s, id, batch, gone);
    assert(c.batches.remove_keys(gone) == s.batches.remove_keys(gone).insert(id, batch));
    let start = if advances {
        id
    } else {
        s.current_start
    };
    law_where_the_sync_would_complete(s, start);
    let next = SyncView {
        current_start: start,
        processing_target: if id > 0 {
            (id - 1) as u64
        } else {
            0
        },
        to_be_downloaded: if s.last_batch_downloaded {
            t.to_be_downloaded
        } else {
            s.to_be_downloaded
        },
        batches: s.batches.remove_keys(gone).insert(id, batch),
        active_requests: t.active_requests,
        current_processing_batch: None,
        validated_batches: if s.validated_batches + gone.len() <= u64::MAX {
            (s.validated_batches + gone.len()) as u64
        } else {
            u64::MAX
        },
        ..s
    };
    assert(u.batches =~= next.batches);
    if anchor is Some && anchor->0.block_backfill_complete && start * s.slots_per_epoch
        <= s.genesis_backfill_slot {
        assert(t =~= SyncView { state: BackFillState::Completed, ..next });
    } else {
        lemma_goes_on(u, pool);
        let v = next.doing(making_progress(ok()));
        assert(v =~= SyncView {
            active_requests: t.active_requests,
            to_be_downloaded: v.to_be_downloaded,
            ..u
        });
        lemma_goes_on_alike(u, v, pool, t, step);
    }
}

/// A batch that could not be processed, and no peer is at fault, is requested again without
/// counting as a failed attempt. Nobody is penalised, and nothing else changes.
pub proof fn law_of_failure_without_fault(
    s: SyncView,
    id: BatchId,
    anchor: Option<AnchorInfo>,
    pool: Seq<PeerId>,
)
    requires
        s.inv(),
        s.is_idle(),
        s.current_processing_batch == Some(id),
    ensures
        ({
            let result = BatchProcessResult::NonFaultyFailure;
            let (t, reports, step) = s.on_batch_process_result(id, result, anchor, pool);
            let state = BatchStateView::AwaitingDownload;
            &&& reports.len() == 0
            &&& SyncView {
                batches: s.batches.insert(id, BatchView { state, ..s.batches[id] }),
                current_processing_batch: None,
                ..s
            }.doing(requesting_again(seq![id], ok())).goes_on_to(pool, t, step)
        }),
{
    let result = BatchProcessResult::NonFaultyFailure;
    let call = Call::ProcessResult { batch_id: id, result, anchor };
    lemma_begin_of(s, call, pool);
    lemma_begin_of_gapless(s, call, pool);
    let (u, flow) = s.begin_of(call, pool);
    let state = BatchStateView::AwaitingDownload;
    assert(u =~= SyncView {
        batches: s.batches.insert(id, BatchView { state, ..s.batches[id] }),
        current_processing_batch: None,
        ..s
    }.doing(requesting_again(seq![id], ok())));
    lemma_goes_on(u, pool);
}

/// A batch that could not be processed, through the fault of a peer, has failed with the version
/// that was processed; at the tenth, the sync fails. Else, if blocks of it were imported and it
/// lies below where the chain is validated from, the batches above it are validated; if not, they
/// have failed too, each with the version that awaited validation, and the sync fails if one of
/// them did not await it, or has failed for the tenth time. All of them are then requested again,
/// those above in ascending order and the batch itself last, and processing starts over from where
/// the chain is validated from.
#[verifier::rlimit(60)]
pub proof fn law_of_failure_through_a_fault(
    s: SyncView,
    id: BatchId,
    imported_blocks: bool,
    penalty: PeerAction,
    anchor: Option<AnchorInfo>,
    pool: Seq<PeerId>,
)
    requires
        s.inv(),
        s.is_idle(),
        s.current_processing_batch == Some(id),
    ensures
        ({
            let result = BatchProcessResult::FaultyFailure { imported_blocks, penalty };
            let (t, _, step) = s.on_batch_process_result(id, result, anchor, pool);
            let advances = imported_blocks && id < s.current_start;
            let above = s.above(id);
            let is_bad = |k: BatchId|
                above.contains(k) && (!(s.batches[k].state is AwaitingValidation)
                    || s.batches[k].failed_processing_attempts.len() + 1 >= 10);
            let failed = StepView::Done(Err(ErrorView::BatchProcessingFailed(id)));
            &&& above.finite()
            &&& if s.batches[id].failed_processing_attempts.len() + 1 >= 10 {
                t == s.cleared() && step == failed
            } else if !advances && exists|k: BatchId| #[trigger] is_bad(k) {
                &&& t == s.cleared()
                &&& exists|k: BatchId| #[trigger]
                    is_bad(k) && (forall|j: BatchId| j < k ==> !#[trigger] is_bad(j)) && step == (
                    if s.batches[k].state is AwaitingValidation {
                        failed
                    } else {
                        StepView::Done(
                            Err(
                                ErrorView::BatchInvalidState(
                                    id,
                                    "Validation failed for batch in wrong state"@,
                                ),
                            ),
                        )
                    })
            } else {
                let start = if advances {
                    id
                } else {
                    s.current_start
                };
                let batches = s.batches.map_entries(
                    |k: BatchId, batch: BatchView|
                        if k == id {
                            BatchView {
                                failed_processing_attempts: batch.failed_processing_attempts.push(
                                    batch.state->Processing_0,
                                ),
                                state: BatchStateView::AwaitingDownload,
                                ..batch
                            }
                        } else if k > id {
                            BatchView {
                                failed_processing_attempts: batch.failed_processing_attempts.push(
                                    batch.state->AwaitingValidation_0,
                                ),
                                state: BatchStateView::AwaitingDownload,
                                ..batch
                            }
                        } else {
                            batch
                        },
                );
                SyncView {
                    current_start: start,
                    processing_target: start,
                    to_be_downloaded: if s.last_batch_downloaded {
                        t.to_be_downloaded
                    } else {
                        s.to_be_downloaded
                    },
                    batches: if advances {
                        batches.remove_keys(above)
                    } else {
                        batches
                    },
                    active_requests: t.active_requests,
                    current_processing_batch: None,
                    validated_batches: if !advances {
                        s.validated_batches
                    } else if s.validated_batches + above.len() <= u64::MAX {
                        (s.validated_batches + above.len()) as u64
                    } else {
                        u64::MAX
                    },
                    ..s
                }.doing(
                    requesting_again(
                        if advances {
                            seq![id]
                        } else {
                            ascending(above).push(id)
                        },
                        ok(),
                    ),
                ).goes_on_to(pool, t, step)
            }
        }),
{
    let result = BatchProcessResult::FaultyFailure { imported_blocks, penalty };
    let call = Call::ProcessResult { batch_id: id, result, anchor };
    let (t, _, step) = s.on_batch_process_result(id, result, anchor, pool);
    let r = s.begun(successful());
    lemma_begun(s, successful());
    lemma_begin_of(s, call, pool);
    lemma_begin_of_gapless(s, call, pool);
    let (u, flow) = s.begin_of(call, pool);
    let failed = s.batches[id].completed_processing(BatchProcessingResult::FaultyFailure);
    let c = SyncView { current_processing_batch: None, ..r }.with_batch(id, failed);
    let advances = imported_blocks && id < s.current_start;
    let above = s.above(id);
    let pick = |k: BatchId| k > id;
    lemma_picked(s, pick);
    assert(above =~= s.batches.dom().filter(pick));
    law_ascending_order(above);
    let is_bad = |k: BatchId|
        above.contains(k) && (!(s.batches[k].state is AwaitingValidation)
            || s.batches[k].failed_processing_attempts.len() + 1 >= 10);
    if s.batches[id].failed_processing_attempts.len() + 1 >= 10 {
        assert(t =~= s.cleared());
    } else {
        lemma_replace_processed(r, id, failed);
        assert(c.batches.dom() =~= s.batches.dom());
        if advances {
            lemma_advanced(c, s, id);
        }
        let a = if imported_blocks {
            c.advance_chain(id).0
        } else {
            c
        };
        assert(!advances ==> a == c);
        let over = a.ids_above(id);
        assert(a.batches.dom().finite()) by {
            if advances {
                assert(a.batches.dom() =~= c.batches.dom().difference(above));
            }
        }
        lemma_ids_above(a, id);
        let ok_again = |k: BatchId| a.can_revalidate(k);
        lemma_first_not_none(over, ok_again);
        if advances {
            if over.len() > 0 {
                assert(over.contains(over[0]));
                assert(above.contains(over[0]));
            }
            assert(over =~= Seq::empty());
        } else {
            assert(over == ascending(above));
            assert forall|k: BatchId| #[trigger] over.contains(k) implies ok_again(k)
                == !is_bad(k) by {
                assert(above.contains(k));
                assert(a.batches[k] == s.batches[k]);
            }
        }
        match first_not(over, ok_again) {
            Some(k) => {
                lemma_first_not_is_first(over, ok_again);
                assert(over.contains(k));
                assert(is_bad(k));
                assert forall|j: BatchId| j < k implies !#[trigger] is_bad(j) by {
                    if above.contains(j) {
                        assert(over.contains(j));
                    }
                }
                assert(a.batches[k] == s.batches[k]);
                assert(t =~= s.cleared());
            },
            None => {
                assert forall|k: BatchId| !advances implies !#[trigger] is_bad(k) by {
                    if above.contains(k) {
                        assert(over.contains(k));
                        let i = choose|i: int| 0 <= i < over.len() && over[i] == k;
                        assert(ok_again(over[i]));
                    }
                }
                let change = |batch: BatchView| batch.failed_validation();
                lemma_with_each_dom(a.batches, over, change);
                let all = s.batches.map_entries(
                    |k: BatchId, batch: BatchView|
                        if k == id {
                            BatchView {
                                failed_processing_attempts: batch.failed_processing_attempts.push(
                                    batch.state->Processing_0,
                                ),
                                state: BatchStateView::AwaitingDownload,
                                ..batch
                            }
                        } else if k > id {
                            BatchView {
                                failed_processing_attempts: batch.failed_processing_attempts.push(
                                    batch.state->AwaitingValidation_0,
                                ),
                                state: BatchStateView::AwaitingDownload,
                                ..batch
                            }
                        } else {
                            batch
                        },
                );
                let batches = if advances {
                    all.remove_keys(above)
                } else {
                    all
                };
                assert forall|k: BatchId| #[trigger] batches.contains_key(k)
                    <==> u.batches.contains_key(k) by {
                    assert(with_each(a.batches, over, change).contains_key(k)
                        <==> a.batches.contains_key(k));
                }
                assert forall|k: BatchId| batches.contains_key(k) implies #[trigger] batches[k]
                    == u.batches[k] by {
                    assert(u.batches[k] == with_each(a.batches, over, change)[k]);
                    assert(s.batches.contains_key(k));
                    assert(a.batches.contains_key(k));
                    if k > id {
                        assert(above.contains(k));
                        assert(!advances);
                        assert(over.contains(k));
                        assert(!is_bad(k));
                        assert(a.batches[k] == s.batches[k]);
                    } else {
                        assert(!over.contains(k));
                    }
                }
                assert(batches =~= u.batches);
                lemma_goes_on(u, pool);
                let v = SyncView {
                    current_start: u.current_start,
                    processing_target: u.current_start,
                    to_be_downloaded: if s.last_batch_downloaded {
                        t.to_be_downloaded
                    } else {
                        s.to_be_downloaded
                    },
                    batches,
                    active_requests: t.active_requests,
                    current_processing_batch: None,
                    validated_batches: u.validated_batches,
                    ..s
                }.doing(
                    requesting_again(
                        if advances {
                            seq![id]
                        } else {
                            ascending(above).push(id)
                        },
                        ok(),
                    ),
                );
                assert(over.push(id) =~= v.work.retries);
                assert(v =~= SyncView {
                    active_requests: t.active_requests,
                    to_be_downloaded: v.to_be_downloaded,
                    ..u
                });
                lemma_goes_on_alike(u, v, pool, t, step);
            },
        }
    }
}

/// The result of a batch that is not being processed changes nothing, and nobody is penalised.
pub proof fn law_of_unexpected_results(
    s: SyncView,
    id: BatchId,
    result: BatchProcessResult,
    anchor: Option<AnchorInfo>,
    pool: Seq<PeerId>,
)
    requires
        s.inv(),
        s.is_idle(),
        s.current_processing_batch != Some(id),
    ensures
        ({
            let (t, reports, step) = s.on_batch_process_result(id, result, anchor, pool);
            t == s && reports.len() == 0 && step == StepView::Done(Ok(ok()))
        }),
{
    assert(s.begun(successful()).begun(Outcome::Handled) =~= s);
}

/// A start tells how far the sync has come exactly if the sync runs; or is paused, and a peer is
/// synced; or has failed, a peer has joined since, and the chain's store tells of an anchor and not
/// that it is complete. How many slots have been processed is told exactly if it is in range.
pub proof fn law_what_can_be_started(s: SyncView, pool: Seq<PeerId>, anchor: Option<AnchorInfo>)
    requires
        s.inv(),
        s.is_idle(),
    ensures
        s.is_startable(pool, anchor) <==> {
            ||| s.state == BackFillState::Syncing
            ||| s.state == BackFillState::Paused && pool.len() > 0
            ||| {
                &&& s.state == BackFillState::Failed
                &&& s.restart_failed_sync
                &&& anchor is Some
                &&& !anchor->0.block_backfill_complete
            }
        },
        s.is_startable(pool, anchor) <==> {
            let t = s.start(pool, anchor).0;
            t.state == BackFillState::Syncing || s.state == BackFillState::Paused && t.state
                == BackFillState::Failed
        },
        s.has_progress_in_range() <==> s.validated_batches * s.slots_per_epoch <= u64::MAX,
        s.validated_batches * s.slots_per_epoch <= usize::MAX
            ==> s.slots_done_and_left()->completed as int == s.validated_batches
            * s.slots_per_epoch,
{
    reveal(SyncView::goes_on_to);
    law_of_start(s, pool, anchor);
    assert(s.validated_batches * s.slots_per_epoch >= 0) by (nonlinear_arith);
}

} // verus!
