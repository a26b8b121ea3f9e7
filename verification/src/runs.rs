//! What calls come to that request several batches, once every request has been sent.
use vstd::prelude::*;

use crate::always::{
    lemma_batch_processed, lemma_begun, lemma_last_turn, lemma_on_batch_type, lemma_peer_left,
    lemma_proceed, lemma_request_sent, lemma_started, lemma_turn, lemma_with_each_dom, turned,
};
use crate::batch::BatchView;
use crate::batches::{buffered, ids_of};
use crate::choices::lemma_depends_on_batches;
use crate::gapless::lemma_started_gapless;
use crate::laws::{
    can_handle_invalid, invalid_batches, law_the_best_peer_is_asked,
    lemma_buffered_insert, lemma_invalid, lemma_no_retries,
};
use crate::model::{
    lemma_ids_above, lemma_ids_of, missing_batch, successful, with_each, SyncView, Waiting,
    WorkView, BACKFILL_BATCH_BUFFER_SIZE,
};
use crate::order::{is_ascending, lemma_filter_ascending, lemma_first_not_none};
use crate::peers::idle_peers;
use crate::requests::is_requested;
use crate::steps::lemma_goes_on;
use crate::types::{
    AnchorInfo, BackFillState, BatchId, BatchProcessResult, BatchType, Id, Outcome, PeerAction,
    PeerId, StepView, BACKFILL_EPOCHS_PER_BATCH,
};

verus! {

/// The reply that a request was sent.
pub ghost struct Sent {
    /// The id of the request.
    pub request_id: Id,
    /// The peers that are synced by then.
    pub pool: Seq<PeerId>,
}

/// A request that was sent: the batch, and the peer that it was asked of.
pub ghost struct Request {
    pub batch_id: BatchId,
    pub peer: PeerId,
}

impl SyncView {
    /// The sync, which is requesting a batch, once it has got these replies one after the other,
    /// and the step that the last of them comes to.
    pub open spec fn after_sending(self, replies: Seq<Sent>) -> (SyncView, StepView)
        decreases replies.len(),
    {
        let next = self.on_request_sent(replies[0].request_id, replies[0].pool);
        if replies.len() <= 1 {
            next
        } else {
            next.0.after_sending(replies.drop_first())
        }
    }

    /// The requests that these replies are given to, one after the other.
    pub open spec fn requests_sent(self, replies: Seq<Sent>) -> Seq<Request>
        decreases replies.len(),
    {
        let request = Request {
            batch_id: self.waiting->Request_batch_id,
            peer: self.waiting->Request_peer,
        };
        if replies.len() <= 1 {
            seq![request]
        } else {
            seq![request] + self.on_request_sent(
                replies[0].request_id,
                replies[0].pool,
            ).0.requests_sent(replies.drop_first())
        }
    }

    /// The sync when the last of these replies has come, before it goes on.
    pub open spec fn all_sent(self, replies: Seq<Sent>) -> SyncView
        decreases replies.len(),
    {
        if replies.len() <= 1 {
            self.request_sent(replies[0].request_id).0
        } else {
            self.on_request_sent(replies[0].request_id, replies[0].pool).0.all_sent(
                replies.drop_first(),
            )
        }
    }

    /// The batches that are to be requested again, with the one that is being requested first.
    pub open spec fn queue(self) -> Seq<BatchId> {
        seq![self.waiting->Request_batch_id] + self.work.retries
    }
}

/// Whether there are replies for so many requests, and always a synced peer.
pub open spec fn answers(replies: Seq<Sent>, count: nat) -> bool {
    &&& replies.len() == count
    &&& forall|i: int| 0 <= i < replies.len() ==> (#[trigger] replies[i]).pool.len() > 0
}

/// Whether these batches have been requested in this order, and are being downloaded, each by the
/// request and the reply that stand at its place.
pub open spec fn are_downloading(
    t: SyncView,
    ids: Seq<BatchId>,
    requests: Seq<Request>,
    replies: Seq<Sent>,
) -> bool {
    &&& requests.len() == ids.len()
    &&& forall|i: int|
        0 <= i < ids.len() ==> {
            &&& (#[trigger] requests[i]).batch_id == ids[i]
            &&& t.batches.contains_key(ids[i])
            &&& t.batches[ids[i]].is_expecting(requests[i].peer, replies[i].request_id)
            &&& is_requested(t.active_requests, requests[i].peer, ids[i])
        }
}

/// The first of the batches that are to be downloaded again is requested, from a synced peer.
proof fn lemma_first_request(s: SyncView, pool: Seq<PeerId>)
    requires
        s.is_consistent(),
        s.waiting is Nothing,
        s.work.retries.len() > 0,
        pool.len() > 0,
    ensures
        ({
            let (t, step) = s.proceed(pool);
            &&& t.is_consistent()
            &&& step is RequestBlocks
            &&& t.waiting is Request
            &&& t.waiting->Request_batch_id == s.work.retries[0]
            &&& pool.contains(t.waiting->Request_peer)
            &&& t.queue() == s.work.retries
            &&& t == (SyncView {
                participating_peers: t.participating_peers,
                waiting: t.waiting,
                work: WorkView { retries: s.work.retries.drop_first(), ..s.work },
                ..s
            })
        }),
{
    let id = s.work.retries[0];
    let t = s.proceed(pool).0;
    assert(s.batches.contains_key(id));
    lemma_last_turn(s, pool);
    law_the_best_peer_is_asked(s.batches[id], s.active_requests, pool);
    assert(t.queue() =~= s.work.retries);
}

/// Once every request has been sent, every batch that was to be requested again is being
/// downloaded, and nothing else has changed.
proof fn lemma_all_sent(s: SyncView, replies: Seq<Sent>)
    requires
        s.is_consistent(),
        s.waiting is Request,
        answers(replies, s.work.retries.len() + 1),
    ensures
        ({
            let u = s.all_sent(replies);
            let requests = s.requests_sent(replies);
            let ids = s.queue();
            &&& u.is_consistent()
            &&& u == (SyncView {
                batches: u.batches,
                active_requests: u.active_requests,
                participating_peers: u.participating_peers,
                waiting: Waiting::Nothing,
                work: WorkView { retries: Seq::empty(), ..s.work },
                ..s
            })
            &&& s.after_sending(replies) == u.proceed(replies.last().pool)
            &&& are_downloading(u, ids, requests, replies)
            &&& forall|i: int|
                0 <= i < ids.len() ==> u.batches[(#[trigger] requests[i]).batch_id]
                    == s.batches[ids[i]].started_downloading(
                    requests[i].peer,
                    replies[i].request_id,
                )
            &&& requests[0].peer == s.waiting->Request_peer
            &&& forall|i: int|
                1 <= i < ids.len() ==> replies[i - 1].pool.contains((#[trigger] requests[i]).peer)
            &&& forall|k: BatchId| #[trigger]
                u.batches.contains_key(k) <==> s.batches.contains_key(k)
            &&& forall|k: BatchId|
                s.batches.contains_key(k) && !ids.contains(k) ==> #[trigger] u.batches[k]
                    == s.batches[k]
        }),
    decreases replies.len(),
{
    let id = s.waiting->Request_batch_id;
    let peer = s.waiting->Request_peer;
    let ids = s.queue();
    let request_id = replies[0].request_id;
    let v = s.request_sent(request_id).0;
    let requests = s.requests_sent(replies);
    let u = s.all_sent(replies);
    lemma_request_sent(s, request_id);
    assert(ids[0] == id);
    assert(v.batches[id].is_downloading_from(peer));
    assert(is_requested(v.active_requests, peer, id));
    if replies.len() == 1 {
        assert(s.work.retries =~= Seq::empty());
        assert(ids =~= seq![id]);
        assert(requests =~= seq![Request { batch_id: id, peer }]);
        assert forall|k: BatchId|
            s.batches.contains_key(k) && !ids.contains(k) implies #[trigger] u.batches[k]
            == s.batches[k] by {
            assert(k != id);
        }
    } else {
        let pool = replies[0].pool;
        let rest = replies.drop_first();
        lemma_first_request(v, pool);
        let w = v.proceed(pool).0;
        assert(s.on_request_sent(request_id, pool).0 == w);
        assert forall|i: int| 0 <= i < rest.len() implies (#[trigger] rest[i]).pool.len() > 0 by {
            assert(rest[i] == replies[i + 1]);
        }
        lemma_all_sent(w, rest);
        let later = w.requests_sent(rest);
        assert(w.queue() == s.work.retries);
        assert(requests =~= seq![Request { batch_id: id, peer }] + later);
        assert(rest.last() == replies.last());
        assert(!s.work.retries.contains(id));
        assert(u.batches[id] == w.batches[id]);
        assert(u.batches.contains_key(id));
        assert(u.batches[id].is_downloading_from(peer));
        assert forall|i: int| 0 <= i < ids.len() implies {
            &&& (#[trigger] requests[i]).batch_id == ids[i]
            &&& u.batches.contains_key(ids[i])
            &&& u.batches[ids[i]] == s.batches[ids[i]].started_downloading(
                requests[i].peer,
                replies[i].request_id,
            )
            &&& is_requested(u.active_requests, requests[i].peer, ids[i])
            &&& i > 0 ==> replies[i - 1].pool.contains(requests[i].peer)
        } by {
            if i > 0 {
                assert(requests[i] == later[i - 1]);
                assert(rest[i - 1] == replies[i]);
                assert(ids[i] == w.queue()[i - 1]);
                assert(s.work.retries.contains(ids[i]));
                if i > 1 {
                    assert(rest[i - 2] == replies[i - 1]);
                } else {
                    assert(later[0].peer == w.waiting->Request_peer);
                }
            }
        }
        assert forall|k: BatchId|
            s.batches.contains_key(k) && !ids.contains(k) implies #[trigger] u.batches[k]
            == s.batches[k] by {
            assert(k != id);
            if s.work.retries.contains(k) {
                let i = choose|i: int| 0 <= i < s.work.retries.len() && s.work.retries[i] == k;
                assert(ids[i + 1] == k);
            }
            assert(w.batches.contains_key(k));
        }
    }
}

/// When a peer disconnects whose batches all can be tried again, and every request for them is
/// sent, then each of them, with one more failed download, is being downloaded from another peer,
/// and all other batches are unchanged.
pub proof fn law_batches_of_a_lost_peer_are_downloaded_from_others(
    s: SyncView,
    peer: PeerId,
    pool: Seq<PeerId>,
    replies: Seq<Sent>,
)
    requires
        s.inv(),
        s.is_idle(),
        s.state != BackFillState::NotRequired,
        s.asked_of(peer).len() > 0,
        forall|id: BatchId| #[trigger] s.asked_of(peer).contains(id) ==> s.can_redownload(id),
        pool.len() > 0,
        !pool.contains(peer),
        answers(replies, s.asked_of(peer).len()),
        forall|i: int| 0 <= i < replies.len() ==> !(#[trigger] replies[i]).pool.contains(peer),
    ensures
        ({
            let asked = s.asked_of(peer);
            let begun = s.peer_disconnected(peer, pool).0;
            let requests = begun.requests_sent(replies);
            let (t, step) = begun.after_sending(replies);
            &&& step == StepView::Done(Ok(Outcome::Handled))
            &&& is_ascending(asked)
            &&& forall|id: BatchId| #[trigger]
                asked.contains(id) <==> s.batches.contains_key(id)
                    && s.batches[id].is_downloading_from(peer)
            &&& are_downloading(t, asked, requests, replies)
            &&& forall|i: int|
                0 <= i < asked.len() ==> {
                    &&& (#[trigger] requests[i]).peer != peer
                    &&& t.batches[asked[i]] == s.batches[asked[i]].failed_downloading(
                        peer,
                    ).started_downloading(requests[i].peer, replies[i].request_id)
                }
            &&& forall|k: BatchId| #[trigger]
                t.batches.contains_key(k) <==> s.batches.contains_key(k)
            &&& forall|k: BatchId|
                s.batches.contains_key(k) && !asked.contains(k) ==> #[trigger] t.batches[k]
                    == s.batches[k]
        }),
{
    let asked = s.asked_of(peer);
    let r = s.begun(Outcome::Handled);
    lemma_begun(s, Outcome::Handled);
    lemma_peer_left(r, peer);
    let pick = |id: BatchId| is_requested(s.active_requests, peer, id);
    assert(r.asked_of(peer) == asked) by {
        assert((|id: BatchId| is_requested(r.active_requests, peer, id)) =~= pick);
    }
    lemma_ids_of(s.batches);
    lemma_filter_ascending(ids_of(s.batches), pick);
    let ok = |id: BatchId| r.can_redownload(id);
    lemma_first_not_none(asked, ok);
    assert forall|i: int| 0 <= i < asked.len() implies ok(#[trigger] asked[i]) by {
        assert(asked.contains(asked[i]));
        assert(s.can_redownload(asked[i]));
    }
    assert(asked.contains(asked[0]));
    assert(s.batches.contains_key(asked[0]));
    let (left, flow) = r.peer_left(peer);
    assert(flow is Proceed);
    lemma_first_request(left, pool);
    let begun = left.proceed(pool).0;
    assert(s.peer_disconnected(peer, pool).0 == begun);
    lemma_all_sent(begun, replies);
    let u = begun.all_sent(replies);
    let requests = begun.requests_sent(replies);
    assert(u.work =~= WorkView::none(Outcome::Handled));
    let t = begun.after_sending(replies).0;
    let change = |batch: BatchView| batch.failed_downloading(batch.state->Downloading_0);
    lemma_with_each_dom(s.batches, asked, change);
    assert(begun.batches == with_each(s.batches, asked, change));
    assert forall|i: int| 0 <= i < asked.len() implies {
        &&& (#[trigger] requests[i]).peer != peer
        &&& t.batches[asked[i]] == s.batches[asked[i]].failed_downloading(
            peer,
        ).started_downloading(requests[i].peer, replies[i].request_id)
    } by {
        assert(asked.contains(asked[i]));
        assert(begun.batches[asked[i]] == with_each(s.batches, asked, change)[asked[i]]);
        if i > 0 {
            assert(!replies[i - 1].pool.contains(peer));
        }
    }
    assert forall|k: BatchId| s.batches.contains_key(k) && !asked.contains(k) implies
        #[trigger] t.batches[k] == s.batches[k] by {
        assert(begun.batches[k] == with_each(s.batches, asked, change)[k]);
    }
}

/// When a paused sync is resumed, and every request for the batches that await a download is sent,
/// then each of them is being downloaded. They are requested in ascending order. All other batches
/// are unchanged, but for one that is now being processed, the one that was next. How far the sync
/// has come is unchanged too. If the batch to be processed is not there, the sync fails.
pub proof fn law_resumed_batches_are_downloaded(
    s: SyncView,
    pool: Seq<PeerId>,
    anchor: Option<AnchorInfo>,
    replies: Seq<Sent>,
)
    requires
        s.inv(),
        s.is_idle(),
        s.state == BackFillState::Paused,
        s.to_resume().len() > 0,
        pool.len() > 0,
        answers(replies, s.to_resume().len()),
    ensures
        ({
            let ids = s.to_resume();
            let begun = s.start(pool, anchor).0;
            let requests = begun.requests_sent(replies);
            let (t, step) = begun.after_sending(replies);
            &&& is_ascending(ids)
            &&& forall|id: BatchId| #[trigger]
                ids.contains(id) <==> s.batches.contains_key(id) && s.batches[id].state
                    is AwaitingDownload
            &&& t.current_start == s.current_start
            &&& t.validated_batches == s.validated_batches
            &&& begun.all_sent(replies).processing_target == s.processing_target
            &&& step is SendChainSegment ==> step->SendChainSegment_batch_id == s.processing_target
            &&& {
                ||| {
                    &&& step == StepView::Done(Err(missing_batch(s.processing_target)))
                    &&& !s.batches.contains_key(s.processing_target)
                    &&& t.has_just_failed()
                }
                ||| {
                    &&& t.state == BackFillState::Syncing
                    &&& are_downloading(t, ids, requests, replies)
                    &&& forall|i: int|
                        0 <= i < ids.len() ==> t.batches[(#[trigger] requests[i]).batch_id]
                            == s.batches[ids[i]].started_downloading(
                            requests[i].peer,
                            replies[i].request_id,
                        )
                    &&& forall|k: BatchId| #[trigger]
                        t.batches.contains_key(k) <==> s.batches.contains_key(k)
                    &&& forall|k: BatchId|
                        s.batches.contains_key(k) && !ids.contains(k) ==> {
                            ||| #[trigger] t.batches[k] == s.batches[k]
                            ||| {
                                &&& step is SendChainSegment
                                &&& step->SendChainSegment_batch_id == k
                                &&& t.batches[k] == s.batches[k].started_processing()
                            }
                        }
                }
            }
        }),
{
    let ids = s.to_resume();
    let pick = |id: BatchId| s.batches[id].state is AwaitingDownload;
    lemma_ids_of(s.batches);
    lemma_filter_ascending(ids_of(s.batches), pick);
    assert forall|id: BatchId| #[trigger] ids.contains(id) <==> s.batches.contains_key(id)
        && s.batches[id].state is AwaitingDownload by {
        assert(ids.contains(id) <==> ids_of(s.batches).contains(id) && pick(id));
    }
    lemma_started(s, pool, anchor);
    let resumed = s.started(pool, anchor).0;
    lemma_first_request(resumed, pool);
    let begun = resumed.proceed(pool).0;
    assert(s.start(pool, anchor).0 == begun);
    lemma_all_sent(begun, replies);
    let u = begun.all_sent(replies);
    let requests = begun.requests_sent(replies);
    let (t, step) = begun.after_sending(replies);
    lemma_proceed(u, replies.last().pool);
    lemma_no_retries(u, replies.last().pool);
    if !t.has_just_failed() {
        assert forall|i: int| 0 <= i < ids.len() implies {
            &&& (#[trigger] requests[i]).batch_id == ids[i]
            &&& t.batches.contains_key(ids[i])
            &&& t.batches[ids[i]] == s.batches[ids[i]].started_downloading(
                requests[i].peer,
                replies[i].request_id,
            )
            &&& is_requested(t.active_requests, requests[i].peer, ids[i])
        } by {
            assert(u.batches.contains_key(ids[i]));
            assert(t.batches[ids[i]].is_downloading_from(requests[i].peer));
        }
    }
}

/// When a paused sync is resumed, and every request for the batches that await a download is sent,
/// it then goes on: if there is an idle peer and room for one more batch, the next new batch is
/// requested, from such a peer; and if not, the batch that is next to be processed is handed to the
/// block processor, if it is ready and none is being processed. It is just so if no batch awaited a
/// download.
pub proof fn law_resuming_goes_on_with_new_batches(
    s: SyncView,
    pool: Seq<PeerId>,
    anchor: Option<AnchorInfo>,
    replies: Seq<Sent>,
)
    requires
        s.inv(),
        s.is_idle(),
        s.state == BackFillState::Paused,
        pool.len() > 0,
        answers(replies, s.to_resume().len()),
    ensures
        ({
            let ids = s.to_resume();
            let begun = s.start(pool, anchor);
            // the sync when the last request has been sent, and the peers that are synced by then
            let (batches, last_pool) = if ids.len() > 0 {
                (begun.0.all_sent(replies).batches, replies.last().pool)
            } else {
                (s.batches, pool)
            };
            let u = SyncView { batches, ..s };
            let (t, step) = if ids.len() > 0 {
                begun.0.after_sending(replies)
            } else {
                begun
            };
            let target = s.processing_target;
            &&& forall|k: BatchId| #[trigger]
                batches.contains_key(k) <==> s.batches.contains_key(k)
            &&& forall|k: BatchId|
                s.batches.contains_key(k) ==> if s.batches[k].state is AwaitingDownload {
                    (#[trigger] batches[k]).state is Downloading
                } else {
                    batches[k] == s.batches[k]
                }
            &&& if u.idle_of(last_pool).len() > 0 && u.has_room() {
                &&& step == (StepView::BatchType { batch_id: s.to_be_downloaded })
                &&& t.waiting == (Waiting::BatchType {
                    batch_id: s.to_be_downloaded,
                    peer: u.idle_of(last_pool).last(),
                })
                &&& t.work.idle == u.idle_of(last_pool).drop_last()
                &&& t.work.process
            } else {
                s.batches.contains_key(target) && s.current_processing_batch is None
                    && s.batches[target].state is AwaitingProcessing ==> step == (
                StepView::SendChainSegment {
                    batch_id: target,
                    blocks: s.batches[target].state->AwaitingProcessing_1,
                })
            }
        }),
{
    reveal(SyncView::goes_on_to);
    let ids = s.to_resume();
    let pick = |id: BatchId| s.batches[id].state is AwaitingDownload;
    lemma_ids_of(s.batches);
    lemma_filter_ascending(ids_of(s.batches), pick);
    assert forall|id: BatchId| #[trigger] ids.contains(id) <==> s.batches.contains_key(id)
        && s.batches[id].state is AwaitingDownload by {
        assert(ids.contains(id) <==> ids_of(s.batches).contains(id) && pick(id));
    }
    lemma_started(s, pool, anchor);
    lemma_started_gapless(s, pool, anchor);
    let resumed = s.started(pool, anchor).0;
    if ids.len() > 0 {
        lemma_first_request(resumed, pool);
        let begun = resumed.proceed(pool).0;
        assert(s.start(pool, anchor).0 == begun);
        lemma_all_sent(begun, replies);
        let u = begun.all_sent(replies);
        let requests = begun.requests_sent(replies);
        assert forall|k: BatchId| s.batches.contains_key(k) implies if s.batches[k].state
            is AwaitingDownload {
            (#[trigger] u.batches[k]).state is Downloading
        } else {
            u.batches[k] == s.batches[k]
        } by {
            if s.batches[k].state is AwaitingDownload {
                assert(ids.contains(k));
                let i = choose|i: int| 0 <= i < ids.len() && ids[i] == k;
                assert(requests[i].batch_id == ids[i]);
            }
        }
        assert(u.leaves_nothing_out());
        lemma_goes_on(u, replies.last().pool);
        let v = SyncView { batches: u.batches, ..s };
        lemma_depends_on_batches(u, v, replies.last().pool, 0, 0);
    } else {
        assert forall|k: BatchId| s.batches.contains_key(k) implies !(
        (#[trigger] s.batches[k]).state is AwaitingDownload) by {
            assert(!ids.contains(k));
        }
        lemma_goes_on(resumed, pool);
        lemma_depends_on_batches(resumed, s, pool, 0, 0);
        assert(SyncView { batches: s.batches, ..s } == s);
    }
}

/// When a batch could not be processed through the fault of a peer, and it and the batches above it
/// that it leaves in doubt all can be tried again, and every request for them is sent, then each of
/// them is being downloaded. Each is requested once, the batch itself last. The batches below it
/// are unchanged; those above it are gone if blocks of it were imported, which validates them.
pub proof fn law_invalid_batches_are_downloaded(
    s: SyncView,
    id: BatchId,
    imported_blocks: bool,
    penalty: PeerAction,
    anchor: Option<AnchorInfo>,
    pool: Seq<PeerId>,
    replies: Seq<Sent>,
)
    requires
        s.inv(),
        s.is_idle(),
        s.current_processing_batch == Some(id),
        can_handle_invalid(s, id, imported_blocks),
        pool.len() > 0,
        answers(replies, invalid_batches(s, id, imported_blocks).len()),
    ensures
        ({
            let result = BatchProcessResult::FaultyFailure { imported_blocks, penalty };
            let ids = invalid_batches(s, id, imported_blocks);
            let begun = s.on_batch_process_result(id, result, anchor, pool).0;
            let requests = begun.requests_sent(replies);
            let (t, step) = begun.after_sending(replies);
            &&& step == StepView::Done(Ok(successful()))
            &&& ids.no_duplicates()
            &&& ids.last() == id
            &&& are_downloading(t, ids, requests, replies)
            &&& t.processing_target == t.current_start
            &&& forall|k: BatchId| #[trigger]
                t.batches.contains_key(k) <==> s.batches.contains_key(k) && (k <= id
                    || ids.contains(k))
            &&& forall|k: BatchId|
                s.batches.contains_key(k) && k < id ==> #[trigger] t.batches[k] == s.batches[k]
        }),
{
    let result = BatchProcessResult::FaultyFailure { imported_blocks, penalty };
    let ids = invalid_batches(s, id, imported_blocks);
    let r = s.begun(successful());
    lemma_begun(s, successful());
    lemma_ids_above(s, id);
    assert(r.ids_above(id) == s.ids_above(id));
    assert forall|k: BatchId| #[trigger] r.batches.contains_key(k) && k > id && !(imported_blocks
        && id < s.current_start) implies r.can_revalidate(k) by {
        assert(s.can_revalidate(k));
    }
    lemma_invalid(r, id, imported_blocks, penalty, anchor);
    lemma_batch_processed(r, id, result, anchor);
    let (handled, _, flow) = r.batch_processed(id, result, anchor);
    assert(flow is Proceed);
    assert(handled.work.retries == ids);
    lemma_first_request(handled, pool);
    let begun = handled.proceed(pool).0;
    assert(s.on_batch_process_result(id, result, anchor, pool).0 == begun);
    lemma_all_sent(begun, replies);
    let u = begun.all_sent(replies);
    assert(u.work =~= WorkView::none(successful()));
    let t = begun.after_sending(replies).0;
    assert(ids.last() == id);
    assert(ids[ids.len() - 1] == id);
    assert forall|k: BatchId| #[trigger] ids.contains(k) implies k >= id by {
        let i = choose|i: int| 0 <= i < ids.len() && ids[i] == k;
        if k != id {
            assert(s.ids_above(id)[i] == k);
            assert(s.ids_above(id).contains(k));
        }
    }
    if !(imported_blocks && id < s.current_start) {
        let above = s.ids_above(id);
        assert forall|k: BatchId| s.batches.contains_key(k) && k > id implies #[trigger]
            ids.contains(k) by {
            assert(above.contains(k));
            let i = choose|i: int| 0 <= i < above.len() && above[i] == k;
            assert(ids[i] == k);
        }
    }
}

/// The replies by which a new batch is taken in and requested.
pub ghost struct Taken {
    /// What the batch is to ask for.
    pub batch_type: BatchType,
    /// That the request was sent.
    pub sent: Sent,
}

impl SyncView {
    /// The sync, which awaits what a new batch is to ask for, once it has got these replies one
    /// after the other, and the step that the last of them comes to.
    pub open spec fn after_taking(self, replies: Seq<Taken>) -> (SyncView, StepView)
        decreases replies.len(),
    {
        let sent = replies[0].sent;
        let next = self.on_batch_type(replies[0].batch_type).0.on_request_sent(
            sent.request_id,
            sent.pool,
        );
        if replies.len() <= 1 {
            next
        } else {
            next.0.after_taking(replies.drop_first())
        }
    }

    /// The sync when the last of these replies has come, before it goes on.
    pub open spec fn all_taken(self, replies: Seq<Taken>) -> SyncView
        decreases replies.len(),
    {
        let sent = replies[0].sent;
        let requesting = self.on_batch_type(replies[0].batch_type).0;
        if replies.len() <= 1 {
            requesting.request_sent(sent.request_id).0
        } else {
            requesting.on_request_sent(sent.request_id, sent.pool).0.all_taken(
                replies.drop_first(),
            )
        }
    }

    /// Whether so many new batches can be taken in, one from each of as many idle peers: there is
    /// room for them in the buffer, and none but the last of them reaches the end of the sync.
    pub open spec fn has_room_for(self, count: nat) -> bool {
        &&& !self.last_batch_downloaded
        &&& buffered(self.batches) + count <= BACKFILL_BATCH_BUFFER_SIZE
        &&& count >= 2 ==> count - 2 <= self.to_be_downloaded && !self.would_complete(
            (self.to_be_downloaded - (count - 2)) as u64,
        )
    }

    /// Whether of the batches from `first` down so many are being downloaded, each from the peer,
    /// counted from the end, and by the reply that belong to it, and are new otherwise.
    pub open spec fn has_taken(
        self,
        first: BatchId,
        peers: Seq<PeerId>,
        replies: Seq<Taken>,
    ) -> bool {
        forall|i: int|
            0 <= i < replies.len() ==> {
                let id = (first - i) as u64;
                let peer = peers[peers.len() - 1 - i];
                &&& first >= i
                &&& self.batches.contains_key(id)
                &&& self.batches[id] == BatchView::fresh(
                    id,
                    BACKFILL_EPOCHS_PER_BATCH,
                    self.slots_per_epoch,
                    (#[trigger] replies[i]).batch_type,
                ).started_downloading(peer, replies[i].sent.request_id)
                &&& is_requested(self.active_requests, peer, id)
            }
    }
}

/// One new batch is taken in and requested.
proof fn lemma_taken(s: SyncView, reply: Taken)
    requires
        s.is_consistent(),
        s.waiting is BatchType,
    ensures
        ({
            let id = s.to_be_downloaded;
            let peer = s.waiting->BatchType_peer;
            let u = s.on_batch_type(reply.batch_type).0.request_sent(reply.sent.request_id).0;
            let batch = BatchView::fresh(
                id,
                BACKFILL_EPOCHS_PER_BATCH,
                s.slots_per_epoch,
                reply.batch_type,
            ).started_downloading(peer, reply.sent.request_id);
            &&& u.is_consistent()
            &&& u == (SyncView {
                batches: s.batches.insert(id, batch),
                active_requests: u.active_requests,
                participating_peers: u.participating_peers,
                last_batch_downloaded: s.would_complete(id),
                to_be_downloaded: id.saturating_sub(BACKFILL_EPOCHS_PER_BATCH),
                waiting: Waiting::Nothing,
                ..s
            })
            &&& is_requested(u.active_requests, peer, id)
            &&& buffered(u.batches) == buffered(s.batches) + 1
            &&& s.on_batch_type(reply.batch_type).0.on_request_sent(
                reply.sent.request_id,
                reply.sent.pool,
            ) == u.proceed(reply.sent.pool)
        }),
{
    let id = s.to_be_downloaded;
    let peer = s.waiting->BatchType_peer;
    let t = s.on_batch_type(reply.batch_type).0;
    lemma_on_batch_type(s, reply.batch_type);
    lemma_request_sent(t, reply.sent.request_id);
    let u = t.request_sent(reply.sent.request_id).0;
    let batch = BatchView::fresh(
        id,
        BACKFILL_EPOCHS_PER_BATCH,
        s.slots_per_epoch,
        reply.batch_type,
    ).started_downloading(peer, reply.sent.request_id);
    assert(u.batches =~= s.batches.insert(id, batch));
    lemma_buffered_insert(s.batches, id, batch);
    assert(u.batches[id].is_downloading_from(peer));
}

/// Once the replies for so many new batches have come, each of them is being downloaded.
proof fn lemma_all_taken(s: SyncView, replies: Seq<Taken>)
    requires
        s.is_consistent(),
        s.waiting is BatchType,
        replies.len() >= 1,
        replies.len() <= s.work.idle.len() + 1,
        s.has_room_for(replies.len()),
    ensures
        ({
            let count = replies.len();
            let first = s.to_be_downloaded;
            let last = (first - (count - 1)) as u64;
            let peers = s.work.idle.push(s.waiting->BatchType_peer);
            let u = s.all_taken(replies);
            &&& first >= count - 1
            &&& u.is_consistent()
            &&& u == (SyncView {
                batches: u.batches,
                active_requests: u.active_requests,
                participating_peers: u.participating_peers,
                last_batch_downloaded: s.would_complete(last),
                to_be_downloaded: last.saturating_sub(BACKFILL_EPOCHS_PER_BATCH),
                waiting: Waiting::Nothing,
                work: WorkView { idle: peers.take(peers.len() - count), ..s.work },
                ..s
            })
            &&& s.after_taking(replies) == u.proceed(replies.last().sent.pool)
            &&& u.has_taken(first, peers, replies)
            &&& buffered(u.batches) == buffered(s.batches) + count
            &&& forall|k: BatchId|
                k > first || k < last ==> (#[trigger] u.batches.contains_key(k)
                    <==> s.batches.contains_key(k))
            &&& forall|k: BatchId|
                s.batches.contains_key(k) ==> #[trigger] u.batches[k] == s.batches[k]
        }),
    decreases replies.len(),
{
    let count = replies.len();
    let first = s.to_be_downloaded;
    let peer = s.waiting->BatchType_peer;
    let peers = s.work.idle.push(peer);
    let reply = replies[0];
    let v = s.on_batch_type(reply.batch_type).0.request_sent(reply.sent.request_id).0;
    lemma_taken(s, reply);
    let u = s.all_taken(replies);
    if count == 1 {
        assert(peers.take(peers.len() - 1) =~= s.work.idle);
    } else {
        let pool = reply.sent.pool;
        let rest = replies.drop_first();
        let next = s.work.idle.last();
        assert(!s.would_complete(first));
        assert(s.would_complete(0));
        assert(v.next_batch() == (v, Some(v.to_be_downloaded)));
        let w = v.proceed(pool).0;
        lemma_last_turn(v, pool);
        assert(w == (SyncView {
            work: WorkView { idle: s.work.idle.drop_last(), ..s.work },
            waiting: Waiting::BatchType { batch_id: v.to_be_downloaded, peer: next },
            ..v
        }));
        assert(w.to_be_downloaded == first - 1);
        assert(w.has_room_for(rest.len()));
        lemma_all_taken(w, rest);
        let others = w.work.idle.push(next);
        assert(others =~= s.work.idle);
        assert(rest.last() == replies.last());
        assert(others.take(others.len() - rest.len()) =~= peers.take(peers.len() - count));
        assert forall|i: int| 0 <= i < replies.len() implies {
            let id = (first - i) as u64;
            let asked = peers[peers.len() - 1 - i];
            &&& first >= i
            &&& u.batches.contains_key(id)
            &&& u.batches[id] == BatchView::fresh(
                id,
                BACKFILL_EPOCHS_PER_BATCH,
                u.slots_per_epoch,
                (#[trigger] replies[i]).batch_type,
            ).started_downloading(asked, replies[i].sent.request_id)
            &&& is_requested(u.active_requests, asked, id)
        } by {
            if i > 0 {
                assert(rest[i - 1] == replies[i]);
                assert(others[others.len() - 1 - (i - 1)] == peers[peers.len() - 1 - i]);
                assert(first - i == w.to_be_downloaded - (i - 1));
            } else {
                assert(w.batches.contains_key(first));
                assert(u.batches.contains_key(first));
                assert(u.batches[first] == w.batches[first]);
                assert(u.batches[first].is_downloading_from(peer));
            }
        }
        assert forall|k: BatchId| s.batches.contains_key(k) implies #[trigger] u.batches[k]
            == s.batches[k] by {
            assert(w.batches.contains_key(k));
        }
    }
}

/// While the sync runs, batches are requested, each from the next idle peer and each below the
/// last, until no peer is idle, the buffer is full or the final batch has been requested.
///
/// So many of them as there are replies are then being downloaded, and the batches that were there
/// are unchanged. If there are idle peers and room for one more, that one is next; else all idle
/// peers have been asked, or no further batch is to be requested.
pub proof fn law_batches_are_requested_until_exhausted(
    s: SyncView,
    pool: Seq<PeerId>,
    replies: Seq<Taken>,
)
    requires
        s.inv(),
        s.waiting is Nothing,
        s.state == BackFillState::Syncing,
        s.work.retries.len() == 0,
        s.work.idle.len() == 0,
        s.work.request,
        1 <= replies.len() <= idle_peers(pool, s.active_requests).len(),
        s.has_room_for(replies.len()),
    ensures
        ({
            let count = replies.len();
            let first = s.to_be_downloaded;
            let idle = idle_peers(pool, s.active_requests);
            let (begun, step) = s.proceed(pool);
            let u = begun.all_taken(replies);
            let (t, last_step) = begun.after_taking(replies);
            &&& step == (StepView::BatchType { batch_id: first })
            &&& (t, last_step) == u.proceed(replies.last().sent.pool)
            &&& u.has_taken(first, idle, replies)
            &&& buffered(u.batches) == buffered(s.batches) + count
            &&& forall|k: BatchId|
                k > first || k <= first - count ==> (#[trigger] u.batches.contains_key(k)
                    <==> s.batches.contains_key(k))
            &&& forall|k: BatchId|
                s.batches.contains_key(k) ==> #[trigger] u.batches[k] == s.batches[k]
            &&& u.work.idle == idle.take(idle.len() - count)
            &&& if count < idle.len() && s.has_room_for(count + 1) {
                &&& last_step == (StepView::BatchType { batch_id: (first - count) as u64 })
                &&& t.waiting->BatchType_peer == idle[idle.len() - 1 - count]
            } else {
                u.work.idle.len() == 0 || u.next_batch().1 is None
            }
        }),
{
    let count = replies.len();
    let first = s.to_be_downloaded;
    let idle = idle_peers(pool, s.active_requests);
    let turn = turned(s, pool);
    lemma_turn(s, pool);
    assert(turn.next_batch() == (turn, Some(first)));
    lemma_last_turn(turn, pool);
    let begun = s.proceed(pool).0;
    assert(idle.drop_last().push(idle.last()) =~= idle);
    lemma_all_taken(begun, replies);
    let u = begun.all_taken(replies);
    let last = (first - (count - 1)) as u64;
    assert(s.would_complete(0));
    if count < idle.len() {
        if s.has_room_for(count + 1) {
            assert(!s.would_complete(last));
            assert(u.next_batch() == (u, Some(u.to_be_downloaded)));
            assert(u.work.idle.last() == idle[idle.len() - 1 - count]);
        } else {
            assert(u.last_batch_downloaded || buffered(u.batches) >= BACKFILL_BATCH_BUFFER_SIZE);
        }
    }
}

} // verus!
