//! What holds of the sync at all times, and that every operation keeps it.
use vstd::prelude::*;

use crate::batch::{cannot_fail_validation, BatchProcessingResult, BatchView, Block};
use crate::batches::{buffered, ids_of};
use crate::model::{
    lemma_ids_above, lemma_ids_of, lemma_next_batch, missing_batch, with_each, Flow, SyncView,
    Waiting, WorkView, BACKFILL_BATCH_BUFFER_SIZE,
};
use crate::order::{first_not, lemma_filter_ascending, lemma_first_not_none};
use crate::peers::idle_peers;
use crate::requests::{is_requested, unregistered};
use crate::types::{
    AnchorInfo, BackFillState, BatchId, BatchProcessResult, BatchType, Epoch, ErrorView, Id,
    Outcome, PeerId, Slot, StepView, BACKFILL_EPOCHS_PER_BATCH,
};

verus! {

impl SyncView {
    /// No batch has used up its attempts.
    pub open spec fn has_live_batches(self) -> bool {
        forall|id: BatchId| #[trigger]
            self.batches.contains_key(id) ==> self.batches[id].is_alive()
    }

    /// The batch that is known to be processed is being processed, and no other is. It is the one
    /// that was to be processed next.
    pub open spec fn processes_one(self) -> bool {
        &&& self.current_processing_batch matches Some(id) ==> {
            &&& self.batches.contains_key(id)
            &&& self.batches[id].state is Processing
            &&& id == self.processing_target
        }
        &&& forall|id: BatchId| #[trigger]
            self.batches.contains_key(id) && self.batches[id].state is Processing
                ==> self.current_processing_batch == Some(id)
    }

    /// A batch is known to be to come from a peer exactly if it is being downloaded from it.
    pub open spec fn knows_downloads(self) -> bool {
        &&& forall|peer: PeerId, id: BatchId| #[trigger]
            is_requested(self.active_requests, peer, id) ==> self.batches.contains_key(id)
                && self.batches[id].is_downloading_from(peer)
        &&& forall|peer: PeerId, id: BatchId|
            self.batches.contains_key(id) && #[trigger] self.batches[id].is_downloading_from(peer)
                ==> is_requested(self.active_requests, peer, id)
    }

    /// Every peer that a batch is to come from is known to participate.
    pub open spec fn knows_participants(self) -> bool {
        forall|peer: PeerId, id: BatchId| #[trigger]
            is_requested(self.active_requests, peer, id) ==> self.participating_peers.contains(peer)
    }

    /// Until the final batch has been requested, all batches lie above the one to be downloaded
    /// next, and above the end of the sync. Afterwards, no more than one reaches that end.
    pub open spec fn stops_at_genesis(self) -> bool {
        &&& !self.last_batch_downloaded ==> forall|id: BatchId| #[trigger]
            self.batches.contains_key(id) ==> id > self.to_be_downloaded && !self.would_complete(id)
        &&& forall|a: BatchId, b: BatchId| #[trigger]
            self.batches.contains_key(a) && #[trigger] self.batches.contains_key(b)
                && self.would_complete(a) && self.would_complete(b) ==> a == b
    }

    /// The batches to be downloaded again are there, and await it. While the sync runs, no other
    /// batch awaits a download, but the one that is being requested.
    pub open spec fn retries_what_failed(self) -> bool {
        &&& self.work.retries.no_duplicates()
        &&& forall|i: int|
            0 <= i < self.work.retries.len() ==> {
                &&& self.batches.contains_key(#[trigger] self.work.retries[i])
                &&& self.batches[self.work.retries[i]].state is AwaitingDownload
            }
        &&& self.state == BackFillState::Syncing ==> forall|id: BatchId| #[trigger]
            self.batches.contains_key(id) && self.batches[id].state is AwaitingDownload
                ==> self.work.retries.contains(id) || self.is_requesting(id)
    }

    /// Whether the call that is under way is requesting the batch.
    pub open spec fn is_requesting(self, id: BatchId) -> bool {
        self.waiting is Request && self.waiting->Request_batch_id == id
    }

    /// What the call that is under way needs from outside makes sense.
    pub open spec fn waits_for_something(self) -> bool {
        &&& self.work.idle.len() > 0 ==> self.state == BackFillState::Syncing
        &&& match self.waiting {
            Waiting::Nothing => true,
            Waiting::BatchType { batch_id, .. } => {
                &&& self.state == BackFillState::Syncing
                &&& self.work.retries.len() == 0
                &&& !self.last_batch_downloaded
                &&& batch_id == self.to_be_downloaded
                &&& !self.batches.contains_key(batch_id)
                &&& buffered(self.batches) < BACKFILL_BATCH_BUFFER_SIZE
            },
            Waiting::Request { batch_id, peer } => {
                &&& self.participating_peers.contains(peer)
                &&& self.batches.contains_key(batch_id)
                &&& self.batches[batch_id].state is AwaitingDownload
                &&& !self.work.retries.contains(batch_id)
            },
            Waiting::Segment { batch_id } => {
                &&& self.state == BackFillState::Syncing
                &&& self.work == WorkView::none(self.work.outcome)
                &&& self.current_processing_batch == Some(batch_id)
            },
        }
    }

    /// Nothing is left of a sync that has failed but where it has come to.
    pub open spec fn is_cleared_if_failed(self) -> bool {
        self.state == BackFillState::Failed ==> {
            &&& self.batches == Map::<BatchId, BatchView>::empty()
            &&& self.active_requests == Map::<PeerId, Set<BatchId>>::empty()
            &&& self.participating_peers == Set::<PeerId>::empty()
            &&& self.current_processing_batch is None
            &&& !self.last_batch_downloaded
            &&& self.processing_target == self.current_start
            &&& self.to_be_downloaded == self.current_start
        }
    }

    /// Whether the sync has failed, and no peer has joined since.
    pub open spec fn has_just_failed(self) -> bool {
        self.state == BackFillState::Failed && !self.restart_failed_sync
    }

    /// The tables of the sync agree with each other.
    pub open spec fn is_consistent(self) -> bool {
        &&& self.slots_per_epoch > 0
        &&& self.batches.dom().finite()
        &&& self.participating_peers.finite()
        &&& self.has_live_batches()
        &&& self.processes_one()
        &&& self.knows_downloads()
        &&& self.knows_participants()
        &&& self.stops_at_genesis()
        &&& self.retries_what_failed()
        &&& self.waits_for_something()
        &&& self.is_cleared_if_failed()
    }

    /// No epoch is left out:
    /// - the batches are consecutive;
    /// - until the final batch has been requested, they reach down to the one to be downloaded
    ///   next;
    /// - those that await validation lie above the one to be processed next, unless that is the
    ///   very first epoch;
    /// - all between that one and where the chain is validated from await validation;
    /// - the one to be downloaded next has not been passed over by processing; but after a restart
    ///   both may lie above where the chain is validated from.
    pub open spec fn leaves_nothing_out(self) -> bool {
        &&& forall|a: BatchId, b: BatchId, k: BatchId|
            a <= k <= b && #[trigger] self.batches.contains_key(a)
                && #[trigger] self.batches.contains_key(b)
                ==> #[trigger] self.batches.contains_key(k)
        &&& !self.last_batch_downloaded ==> forall|b: BatchId, k: BatchId|
            self.to_be_downloaded < k <= b && #[trigger] self.batches.contains_key(b)
                ==> #[trigger] self.batches.contains_key(k)
        &&& forall|k: BatchId| #[trigger]
            self.batches.contains_key(k) && self.batches[k].state is AwaitingValidation ==> k
                > self.processing_target || self.processing_target == 0
        &&& forall|k: BatchId|
            self.processing_target < k <= self.current_start
                && #[trigger] self.batches.contains_key(k) ==> self.batches[k].state
                is AwaitingValidation
        &&& !self.last_batch_downloaded ==> {
            ||| self.to_be_downloaded <= self.processing_target
            ||| self.to_be_downloaded > self.current_start && self.processing_target
                >= self.current_start
        }
    }

    /// The batches reach up to where the chain is validated from, or the first of them will.
    pub open spec fn reaches_start(self) -> bool {
        ||| self.batches.contains_key(self.current_start)
        ||| self.batches == Map::<BatchId, BatchView>::empty() && self.to_be_downloaded
            == self.current_start
    }

    /// What holds of the sync at all times.
    pub open spec fn inv(self) -> bool {
        &&& self.is_consistent()
        &&& self.leaves_nothing_out()
    }

    /// No call is under way.
    pub open spec fn is_idle(self) -> bool {
        &&& self.waiting is Nothing
        &&& self.work == WorkView::none(Outcome::Handled)
    }

    /// Whether this step is what the sync waits for, or the end of a call.
    pub open spec fn awaits(self, step: StepView) -> bool {
        match step {
            StepView::BatchType { batch_id } => self.waiting is BatchType
                && self.waiting->BatchType_batch_id == batch_id,
            StepView::RequestBlocks { peer, batch_id, request, batch_type } => {
                &&& self.waiting == Waiting::Request { batch_id, peer }
                &&& request == self.batches[batch_id].request()
                &&& batch_type == self.batches[batch_id].batch_type
            },
            StepView::SendChainSegment { batch_id, .. } => self.waiting == Waiting::Segment {
                batch_id,
            },
            StepView::Done(_) => self.is_idle(),
        }
    }

    /// Whether a call that was in state `before`, and has come to this state with this step, has
    /// done no more on the way than to request and to process batches.
    pub open spec fn is_continuation_of(self, before: SyncView, step: StepView) -> bool {
        &&& self.current_start == before.current_start
        &&& self.validated_batches == before.validated_batches
        &&& self.genesis_backfill_slot == before.genesis_backfill_slot
        &&& self.slots_per_epoch == before.slots_per_epoch
        &&& !self.has_just_failed() ==> self.participating_peers == match step {
            StepView::RequestBlocks { peer, .. } => before.participating_peers.insert(peer),
            _ => before.participating_peers,
        }
        &&& match step {
            StepView::Done(Ok(outcome)) => {
                &&& outcome == before.work.outcome
                &&& self.state == before.state
                &&& self.batches == before.batches
                &&& self.current_processing_batch == before.current_processing_batch
            },
            StepView::Done(Err(ErrorView::Paused)) => {
                &&& self.state == BackFillState::Paused
                &&& self.batches == before.batches
                &&& self.current_processing_batch == before.current_processing_batch
            },
            StepView::Done(Err(error)) => {
                &&& before.work.process
                &&& error == missing_batch(before.processing_target)
                &&& !before.batches.contains_key(before.processing_target)
                &&& self.has_just_failed()
            },
            StepView::SendChainSegment { batch_id, blocks } => {
                &&& before.work.process
                &&& before.state == BackFillState::Syncing
                &&& before.current_processing_batch is None
                &&& before.processing_target == batch_id
                &&& before.batches.contains_key(batch_id)
                &&& before.batches[batch_id].state is AwaitingProcessing
                &&& before.batches[batch_id].state->AwaitingProcessing_1 == blocks
                &&& self.batches == before.batches.insert(
                    batch_id,
                    before.batches[batch_id].started_processing(),
                )
                &&& self.state == before.state
                &&& self.work == WorkView::none(before.work.outcome)
            },
            StepView::BatchType { .. } | StepView::RequestBlocks { .. } => {
                &&& self.state == before.state
                &&& self.batches == before.batches
                &&& self.current_processing_batch == before.current_processing_batch
                &&& self.work.outcome == before.work.outcome
            },
        }
    }

    /// Whether the operation leaves the sync such that the call can go on as it says.
    pub open spec fn can_settle(at: (SyncView, Flow)) -> bool {
        match at.1 {
            Flow::Proceed => at.0.is_consistent() && at.0.waiting is Nothing,
            Flow::Stop(_) => at.0.begun(Outcome::Handled).is_consistent(),
        }
    }
}

/// Dropping what is left of a call keeps the tables consistent, unless batches would be forgotten.
pub proof fn lemma_begun(s: SyncView, outcome: Outcome)
    requires
        s.is_consistent(),
        s.state == BackFillState::Syncing ==> s.work.retries.len() == 0 && !(s.waiting is Request),
    ensures
        s.begun(outcome).is_consistent(),
{
    let t = s.begun(outcome);
    assert(t.work.retries.no_duplicates());
    assert(t.retries_what_failed());
}

/// A sync that has failed is consistent.
pub proof fn lemma_failed(s: SyncView)
    requires
        s.slots_per_epoch > 0,
    ensures
        s.failed().begun(Outcome::Handled).is_consistent(),
{
    let t = s.failed().begun(Outcome::Handled);
    assert(t.work.retries.no_duplicates());
    assert(t.batches.dom() =~= Set::empty());
}

/// Whether `t` knows of the batch exactly what is to come from the peer.
spec fn tells_download(t: SyncView, peer: PeerId, id: BatchId) -> bool {
    is_requested(t.active_requests, peer, id) <==> t.batches.contains_key(id)
        && t.batches[id].is_downloading_from(peer)
}

/// If of each peer and batch `t` knows what is to come, or what `s` knew, it knows the downloads as
/// `s` did.
proof fn lemma_downloads_kept(s: SyncView, t: SyncView)
    requires
        s.knows_downloads(),
        forall|peer: PeerId, id: BatchId| #[trigger]
            tells_download(t, peer, id) || {
                &&& is_requested(t.active_requests, peer, id) <==> is_requested(
                    s.active_requests,
                    peer,
                    id,
                )
                &&& t.batches.contains_key(id) && t.batches[id].is_downloading_from(peer)
                    <==> s.batches.contains_key(id) && s.batches[id].is_downloading_from(peer)
            },
    ensures
        t.knows_downloads(),
{
    assert forall|peer: PeerId, id: BatchId| #[trigger] is_requested(
        t.active_requests,
        peer,
        id,
    ) implies t.batches.contains_key(id) && t.batches[id].is_downloading_from(peer) by {
        assert(tells_download(t, peer, id) || is_requested(s.active_requests, peer, id));
    }
    assert forall|peer: PeerId, id: BatchId|
        t.batches.contains_key(id) && #[trigger] t.batches[id].is_downloading_from(peer) implies
            is_requested(t.active_requests, peer, id) by {
        assert(tells_download(t, peer, id) || s.batches[id].is_downloading_from(peer));
    }
}

/// Nothing has to be skipped to find the next batch that is to be requested.
pub proof fn lemma_nothing_skipped(s: SyncView)
    requires
        s.is_consistent(),
    ensures
        s.next_batch().0 == s,
{
}

/// What is behind the first of a sequence.
proof fn lemma_drop_first(ids: Seq<BatchId>)
    requires
        ids.len() > 0,
        ids.no_duplicates(),
    ensures
        ids.drop_first().no_duplicates(),
        !ids.drop_first().contains(ids[0]),
        forall|id: BatchId| #[trigger]
            ids.drop_first().contains(id) <==> ids.contains(id) && id != ids[0],
{
    let rest = ids.drop_first();
    assert forall|id: BatchId| ids.contains(id) && id != ids[0] implies #[trigger] rest.contains(
        id,
    ) by {
        let i = choose|i: int| 0 <= i < ids.len() && ids[i] == id;
        assert(rest[i - 1] == id);
    }
    assert forall|id: BatchId| #[trigger] rest.contains(id) implies ids.contains(id) && id
        != ids[0] by {
        let i = choose|i: int| 0 <= i < rest.len() && rest[i] == id;
        assert(ids[i + 1] == id);
    }
}

/// Asking again for a batch keeps the tables consistent.
proof fn lemma_retry(s: SyncView, pool: Seq<PeerId>)
    requires
        s.is_consistent(),
        s.waiting is Nothing,
        s.work.retries.len() > 0,
    ensures
        ({
            let rest = s.with_retries(s.work.retries.drop_first());
            let (t, step) = rest.retry_batch_download(pool, s.work.retries[0]);
            t.is_consistent() && t.awaits(step)
        }),
{
    let retries = s.work.retries;
    let id = retries[0];
    lemma_drop_first(retries);
    let rest = s.with_retries(retries.drop_first());
    let (t, step) = rest.retry_batch_download(pool, id);
    assert(retries.contains(id));
    assert forall|i: int| 0 <= i < rest.work.retries.len() implies {
        &&& s.batches.contains_key(#[trigger] rest.work.retries[i])
        &&& s.batches[rest.work.retries[i]].state is AwaitingDownload
    } by {
        assert(rest.work.retries[i] == retries[i + 1]);
    }
    assert(t.retries_what_failed());
}

/// Processing a batch keeps the tables consistent.
proof fn lemma_processing(s: SyncView, id: BatchId)
    requires
        s.is_consistent(),
        s.waiting is Nothing,
        s.work == WorkView::none(s.work.outcome),
        s.state == BackFillState::Syncing,
        s.current_processing_batch is None,
        s.processing_target == id,
        s.batches.contains_key(id),
        s.batches[id].state is AwaitingProcessing,
    ensures
        s.processing(id).is_consistent(),
{
    let t = s.processing(id);
    lemma_downloads_kept(s, t);
    assert(t.stops_at_genesis());
}

/// The sync after one turn of doing what is left of a call, if the call goes on then.
pub open spec fn turned(s: SyncView, pool: Seq<PeerId>) -> SyncView {
    let work = s.work;
    if work.idle.len() > 0 {
        SyncView { work: WorkView { idle: Seq::empty(), ..work }, ..s }
    } else if work.request {
        SyncView {
            work: WorkView {
                idle: if s.state == BackFillState::Syncing {
                    idle_peers(pool, s.active_requests)
                } else {
                    Seq::empty()
                },
                request: false,
                ..work
            },
            ..s
        }
    } else {
        let rest = SyncView { work: WorkView { process: false, ..work }, ..s };
        if s.state != BackFillState::Syncing || s.current_processing_batch is Some
            || s.batches[s.processing_target].state is Downloading {
            rest
        } else {
            rest.past_target()
        }
    }
}

/// Whether there is one more turn after this.
pub open spec fn turns(s: SyncView, pool: Seq<PeerId>) -> bool {
    let work = s.work;
    &&& work.retries.len() == 0
    &&& if work.idle.len() > 0 {
        s.next_batch().1 is None
    } else {
        ||| work.request
        ||| work.process && {
            ||| s.state != BackFillState::Syncing
            ||| s.current_processing_batch is Some
            ||| s.batches.contains_key(s.processing_target) && (
            s.batches[s.processing_target].state is Downloading
                || s.batches[s.processing_target].state is AwaitingValidation)
        }
    }
}

/// One turn of doing what is left of a call.
pub proof fn lemma_turn(s: SyncView, pool: Seq<PeerId>)
    requires
        s.is_consistent(),
        s.waiting is Nothing,
        turns(s, pool),
    ensures
        turned(s, pool).is_consistent(),
        turned(s, pool).waiting is Nothing,
        s.proceed(pool) == turned(s, pool).proceed(pool),
{
    lemma_nothing_skipped(s);
    assert(turned(s, pool).retries_what_failed());
}

/// The last turn of doing what is left of a call, up to a step.
pub proof fn lemma_last_turn(s: SyncView, pool: Seq<PeerId>)
    requires
        s.is_consistent(),
        s.waiting is Nothing,
        !turns(s, pool),
    ensures
        s.proceed(pool).0.is_consistent(),
        s.proceed(pool).0.awaits(s.proceed(pool).1),
        s.proceed(pool).0.is_continuation_of(s, s.proceed(pool).1),
{
    let work = s.work;
    if work.retries.len() > 0 {
        lemma_retry(s, pool);
    } else if work.idle.len() > 0 {
        lemma_next_batch(s);
        lemma_nothing_skipped(s);
        assert(s.proceed(pool).0.is_consistent());
    } else if work.process {
        let rest = SyncView { work: WorkView { process: false, ..work }, ..s };
        assert(rest.is_consistent());
        let target = s.processing_target;
        if !s.batches.contains_key(target) {
            lemma_failed(rest);
        } else {
            assert(!work.retries.contains(target));
            assert(s.batches[target].state is AwaitingProcessing);
            assert(rest.work =~= WorkView::none(work.outcome));
            lemma_processing(rest, target);
        }
    } else {
        lemma_begun(s, Outcome::Handled);
    }
}

/// Doing what is left of a call keeps the tables consistent. It neither moves the start of the
/// chain nor validates batches. It ends with what the call comes to, or fails for want of a peer or
/// of the batch to be processed.
pub proof fn lemma_proceed(s: SyncView, pool: Seq<PeerId>)
    requires
        s.is_consistent(),
        s.waiting is Nothing,
    ensures
        s.proceed(pool).0.is_consistent(),
        s.proceed(pool).0.awaits(s.proceed(pool).1),
        s.proceed(pool).0.is_continuation_of(s, s.proceed(pool).1),
    decreases
        (if s.work.process { 1int } else { 0int }),
        (if s.work.request { 1int } else { 0int }),
        s.work.idle.len(),
        s.work.retries.len(),
{
    if turns(s, pool) {
        lemma_turn(s, pool);
        lemma_proceed(turned(s, pool), pool);
    } else {
        lemma_last_turn(s, pool);
    }
}

/// Whether this is an error that the sync can fail with.
pub open spec fn is_failure(error: ErrorView) -> bool {
    match error {
        ErrorView::BatchDownloadFailed(_) => true,
        ErrorView::BatchProcessingFailed(_) => true,
        ErrorView::BatchInvalidState(_, message) => message == cannot_fail_validation(),
        ErrorView::InvalidSyncState(_) => exists|id: BatchId| error == #[trigger] missing_batch(id),
        ErrorView::Paused => false,
    }
}

/// Taking a new batch in keeps the tables consistent.
pub proof fn lemma_on_batch_type(s: SyncView, batch_type: BatchType)
    requires
        s.is_consistent(),
        s.waiting is BatchType,
    ensures
        s.on_batch_type(batch_type).0.is_consistent(),
        s.on_batch_type(batch_type).0.awaits(s.on_batch_type(batch_type).1),
{
    let id = s.waiting->BatchType_batch_id;
    let t = s.on_batch_type(batch_type).0;
    assert(s.would_complete(0));
    lemma_downloads_kept(s, t);
    assert(t.stops_at_genesis());
    assert(t.retries_what_failed());
}

/// The begin of a download keeps the tables consistent.
pub proof fn lemma_request_sent(s: SyncView, request_id: Id)
    requires
        s.is_consistent(),
        s.waiting is Request,
    ensures
        SyncView::can_settle(s.request_sent(request_id)),
        s.request_sent(request_id).1 is Proceed,
{
    let id = s.waiting->Request_batch_id;
    let peer = s.waiting->Request_peer;
    let t = s.request_sent(request_id).0;
    lemma_downloads_kept(s, t);
    assert forall|i: int| 0 <= i < t.work.retries.len() implies {
        &&& t.batches.contains_key(#[trigger] t.work.retries[i])
        &&& t.batches[t.work.retries[i]].state is AwaitingDownload
    } by {
        assert(s.work.retries.contains(s.work.retries[i]));
    }
    assert(t.retries_what_failed());
    assert(t.stops_at_genesis());
}

/// Giving a download up keeps the tables consistent.
pub proof fn lemma_download_failed(s: SyncView, id: BatchId, peer: PeerId)
    requires
        s.is_consistent(),
        s.batches.contains_key(id),
        s.is_requesting(id) || (s.waiting is Nothing && s.batches[id].is_downloading_from(peer)),
    ensures
        ({
            let at = SyncView { waiting: Waiting::Nothing, ..s }.download_failed(id, peer);
            &&& SyncView::can_settle(at)
            &&& at.1 matches Flow::Stop(result) ==> result == Err::<Outcome, ErrorView>(
                ErrorView::BatchDownloadFailed(id),
            ) && at.0.has_just_failed()
        }),
{
    let r = SyncView { waiting: Waiting::Nothing, ..s };
    let (t, flow) = r.download_failed(id, peer);
    if flow is Proceed {
        lemma_downloads_kept(s, t);
        let before = s.work.retries;
        let retries = t.work.retries;
        assert(retries =~= seq![id] + before);
        assert(!before.contains(id));
        assert forall|k: BatchId| #[trigger] before.contains(k) implies retries.contains(k) by {
            let i = choose|i: int| 0 <= i < before.len() && before[i] == k;
            assert(retries[i + 1] == k);
        }
        assert(retries[0] == id);
        assert forall|i: int| 0 <= i < retries.len() implies {
            &&& t.batches.contains_key(#[trigger] retries[i])
            &&& t.batches[retries[i]].state is AwaitingDownload
        } by {
            if i > 0 {
                assert(retries[i] == before[i - 1]);
                assert(before.contains(before[i - 1]));
            }
        }
        assert(retries.no_duplicates()) by {
            assert forall|i: int, j: int|
                0 <= i < retries.len() && 0 <= j < retries.len() && i != j implies retries[i]
                != retries[j] by {
                if i > 0 {
                    assert(retries[i] == before[i - 1]);
                    assert(before.contains(before[i - 1]));
                }
                if j > 0 {
                    assert(retries[j] == before[j - 1]);
                    assert(before.contains(before[j - 1]));
                }
            }
        }
        assert(t.retries_what_failed());
        assert(t.stops_at_genesis());
    } else {
        lemma_failed(
            SyncView {
                active_requests: unregistered(r.active_requests, peer, id),
                ..r.with_batch(id, r.batches[id].failed_downloading(peer))
            },
        );
    }
}

/// An RPC error is handled such that the call can go on.
pub proof fn lemma_error_injected(s: SyncView, id: BatchId, peer: PeerId, request_id: Id)
    requires
        s.is_consistent(),
        s.waiting is Nothing,
        s.work.retries.len() == 0,
    ensures
        SyncView::can_settle(s.error_injected(id, peer, request_id)),
        s.error_injected(id, peer, request_id).1 matches Flow::Stop(Err(error)) ==> error
            == ErrorView::BatchDownloadFailed(id) && s.error_injected(
            id,
            peer,
            request_id,
        ).0.has_just_failed(),
{
    if s.batches.contains_key(id) && s.batches[id].is_expecting(peer, request_id) {
        lemma_download_failed(s, id, peer);
        assert(s == SyncView { waiting: Waiting::Nothing, ..s });
    } else {
        lemma_begun(s, Outcome::Handled);
    }
}

/// A block, or the end of the blocks, is handled such that the call can go on.
pub proof fn lemma_block_received(
    s: SyncView,
    id: BatchId,
    peer: PeerId,
    request_id: Id,
    block: Option<Block>,
)
    requires
        s.is_consistent(),
        s.waiting is Nothing,
        s.work.retries.len() == 0,
    ensures
        SyncView::can_settle(s.block_received(id, peer, request_id, block)),
        s.block_received(id, peer, request_id, block).1 matches Flow::Stop(Err(error)) ==> error
            == ErrorView::BatchDownloadFailed(id) && s.block_received(
            id,
            peer,
            request_id,
            block,
        ).0.has_just_failed(),
{
    let batch = s.batches[id];
    let t = s.block_received(id, peer, request_id, block).0;
    if !(s.batches.contains_key(id) && batch.is_expecting(peer, request_id)) {
        lemma_begun(s, Outcome::Handled);
    } else if block is None && batch.crossed_boundary() is Some {
        lemma_download_failed(s, id, peer);
        assert(s == SyncView { waiting: Waiting::Nothing, ..s });
    } else {
        lemma_downloads_kept(s, t);
        assert(t.stops_at_genesis());
        assert(t.retries_what_failed());
        assert(t.is_consistent());
        lemma_begun(t, Outcome::Handled);
    }
}

/// Advancing the chain keeps the tables consistent, while no batch is being processed.
pub proof fn lemma_advance_chain(s: SyncView, epoch: Epoch)
    requires
        s.is_consistent(),
        s.waiting is Nothing,
        s.state != BackFillState::Failed,
        s.work.retries.len() == 0,
        s.current_processing_batch is None,
    ensures
        s.advance_chain(epoch).0.is_consistent(),
        epoch < s.current_start ==> forall|id: BatchId| #[trigger]
            s.advance_chain(epoch).0.batches.contains_key(id) <==> s.batches.contains_key(id) && id
                <= epoch,
        forall|id: BatchId| #[trigger]
            s.advance_chain(epoch).0.batches.contains_key(id) ==> s.batches.contains_key(id)
                && s.advance_chain(epoch).0.batches[id] == s.batches[id],
{
    if epoch < s.current_start {
        let t = s.advance_chain(epoch).0;
        let above = s.ids_above(epoch);
        lemma_ids_above(s, epoch);
        assert forall|id: BatchId| #[trigger]
            t.batches.contains_key(id) <==> s.batches.contains_key(id) && id <= epoch by {
            assert(above.contains(id) <==> s.batches.contains_key(id) && id > epoch);
        }
        assert(t.batches.dom() =~= s.batches.dom().difference(above.to_set()));
        lemma_downloads_kept(s, t);
        assert(t.stops_at_genesis());
        assert(t.retries_what_failed());
    }
}

/// Changing batches one for one keeps which batches there are.
pub proof fn lemma_with_each_dom(
    batches: Map<BatchId, BatchView>,
    ids: Seq<BatchId>,
    change: spec_fn(BatchView) -> BatchView,
)
    ensures
        with_each(batches, ids, change).dom() == batches.dom(),
        forall|id: BatchId| #[trigger]
            with_each(batches, ids, change).contains_key(id) <==> batches.contains_key(id),
        forall|id: BatchId|
            batches.contains_key(id) ==> #[trigger] with_each(batches, ids, change)[id] == (
            if ids.contains(id) {
                change(batches[id])
            } else {
                batches[id]
            }),
{
    assert(with_each(batches, ids, change).dom() =~= batches.dom());
}

/// An invalid batch is handled such that the call can go on.
///
/// Of the sync it is known only that it would be consistent if it were paused: the invalid
/// batch awaits a download that is not due yet.
pub proof fn lemma_handle_invalid_batch(s: SyncView, id: BatchId)
    requires
        s.in_state(BackFillState::Paused).is_consistent(),
        s.state != BackFillState::Failed,
        s.waiting is Nothing,
        s.work.retries.len() == 0,
        s.work.idle.len() == 0,
        s.current_processing_batch is None,
        s.batches.contains_key(id),
        s.batches[id].state is AwaitingDownload,
        s.state == BackFillState::Syncing ==> forall|k: BatchId| #[trigger]
            s.batches.contains_key(k) && s.batches[k].state is AwaitingDownload ==> k == id,
    ensures
        SyncView::can_settle(s.handle_invalid_batch(id)),
        s.handle_invalid_batch(id).1 matches Flow::Stop(result) ==> {
            &&& result is Err
            &&& is_failure(result->Err_0)
            &&& s.handle_invalid_batch(id).0.has_just_failed()
        },
{
    let p = s.in_state(BackFillState::Paused);
    let above = s.ids_above(id);
    let ok = |k: BatchId| s.can_revalidate(k);
    let change = |batch: BatchView| batch.failed_validation();
    let (t, flow) = s.handle_invalid_batch(id);
    lemma_ids_above(s, id);
    lemma_first_not_none(above, ok);
    lemma_with_each_dom(s.batches, above, change);
    if flow is Stop {
        lemma_failed(s);
    } else {
        assert forall|k: BatchId| above.contains(k) implies s.can_revalidate(k) by {
            let i = choose|i: int| 0 <= i < above.len() && above[i] == k;
            assert(ok(above[i]));
        }
        assert forall|k: BatchId| #[trigger] t.batches.contains_key(k) implies {
            &&& t.batches[k].is_alive()
            &&& t.batches[k].state is AwaitingDownload || t.batches[k] == s.batches[k]
        } by {
            assert(t.batches[k] == with_each(s.batches, above, change)[k]);
            assert(p.batches[k].is_alive());
        }
        lemma_downloads_kept(p, t);
        let retries = t.work.retries;
        assert(retries == above.push(id));
        assert(!above.contains(id));
        assert forall|i: int| 0 <= i < retries.len() implies {
            &&& t.batches.contains_key(#[trigger] retries[i])
            &&& t.batches[retries[i]].state is AwaitingDownload
        } by {
            if i < above.len() {
                assert(above.contains(above[i]));
                assert(t.batches[above[i]] == with_each(s.batches, above, change)[above[i]]);
            } else {
                assert(t.batches[id] == with_each(s.batches, above, change)[id]);
            }
        }
        assert(retries.no_duplicates()) by {
            assert forall|i: int, j: int|
                0 <= i < retries.len() && 0 <= j < retries.len() && i != j implies retries[i]
                != retries[j] by {
                if i < above.len() {
                    assert(above.contains(above[i]));
                }
                if j < above.len() {
                    assert(above.contains(above[j]));
                }
            }
        }
        assert forall|k: BatchId|
            t.state == BackFillState::Syncing && #[trigger] t.batches.contains_key(k)
                && t.batches[k].state is AwaitingDownload implies retries.contains(k) by {
            assert(t.batches[k] == with_each(s.batches, above, change)[k]);
            if above.contains(k) {
                let i = choose|i: int| 0 <= i < above.len() && above[i] == k;
                assert(retries[i] == k);
            } else {
                assert(s.batches.contains_key(k));
                assert(retries[above.len() as int] == id);
            }
        }
        assert(t.retries_what_failed());
        assert(t.stops_at_genesis());
        assert(t.has_live_batches());
        assert(t.processes_one());
        assert(t.is_consistent());
    }
}

/// The result of the batch that is being processed is handled such that the call can go on.
pub proof fn lemma_processed(
    s: SyncView,
    id: BatchId,
    result: BatchProcessResult,
    anchor: Option<AnchorInfo>,
)
    requires
        s.is_consistent(),
        s.waiting is Nothing,
        s.work.retries.len() == 0,
        s.work.idle.len() == 0,
        s.current_processing_batch == Some(id),
    ensures
        ({
            let (t, _, flow) = s.processed(id, result, anchor);
            &&& SyncView::can_settle((t, flow))
            &&& flow matches Flow::Stop(Err(error)) ==> is_failure(error)
                && t.has_just_failed()
            &&& flow matches Flow::Stop(Ok(outcome)) ==> t.state == BackFillState::Completed
        }),
{
    let batch = s.batches[id];
    let idle = SyncView { current_processing_batch: None, ..s };
    assert(s.state != BackFillState::Failed);
    match result {
        BatchProcessResult::Success { was_non_empty } => {
            let r = idle.with_batch(
                id,
                batch.completed_processing(BatchProcessingResult::Success),
            );
            lemma_replace_processed(s, id, r.batches[id]);
            assert(r.is_consistent());
            lemma_advance_chain(r, id);
            let advanced = if was_non_empty {
                r.advance_chain(id).0
            } else {
                r
            };
            assert(advanced.is_consistent());
            let next = SyncView {
                processing_target: if id == advanced.processing_target {
                    id.saturating_sub(BACKFILL_EPOCHS_PER_BATCH)
                } else {
                    advanced.processing_target
                },
                ..advanced
            };
            assert(next.is_consistent());
            if next.check_completed(anchor) {
                let t = next.in_state(BackFillState::Completed);
                assert(t.is_consistent());
                lemma_begun(t, Outcome::Handled);
            } else {
                assert(next.with_progress_due().is_consistent());
            }
        },
        BatchProcessResult::FaultyFailure { imported_blocks, .. } => {
            let r = idle.with_batch(
                id,
                batch.completed_processing(BatchProcessingResult::FaultyFailure),
            );
            if r.batches[id].state is Failed {
                lemma_failed(r);
            } else {
                lemma_replace_processed(s, id, r.batches[id]);
                let p = r.in_state(BackFillState::Paused);
                assert(p.is_consistent());
                lemma_advance_chain(p, id);
                let advanced = if imported_blocks {
                    r.advance_chain(id).0
                } else {
                    r
                };
                assert(p.advance_chain(id).0 == r.advance_chain(id).0.in_state(
                    BackFillState::Paused,
                ));
                assert(advanced.in_state(BackFillState::Paused).is_consistent());
                lemma_handle_invalid_batch(advanced, id);
            }
        },
        BatchProcessResult::NonFaultyFailure => {
            let r = idle.with_batch(
                id,
                batch.completed_processing(BatchProcessingResult::NonFaultyFailure),
            );
            lemma_replace_processed(s, id, r.batches[id]);
            let t = r.retrying(id).0;
            assert(t.work.retries =~= seq![id]);
            assert(t.work.retries[0] == id);
            assert(t.retries_what_failed());
            assert(t.is_consistent());
        },
    }
}

/// Changing the batch that was being processed keeps the tables consistent, if the sync is paused
/// or the batch does not await a download.
pub proof fn lemma_replace_processed(s: SyncView, id: BatchId, batch: BatchView)
    requires
        s.is_consistent(),
        s.waiting is Nothing,
        s.work.retries.len() == 0,
        s.work.idle.len() == 0,
        s.current_processing_batch == Some(id),
        batch.is_alive(),
        batch.state is AwaitingDownload || batch.state is AwaitingValidation,
    ensures
        ({
            let r = SyncView {
                current_processing_batch: None,
                ..s
            }.with_batch(id, batch);
            &&& r.in_state(BackFillState::Paused).is_consistent()
            &&& batch.state is AwaitingValidation ==> r.is_consistent()
            &&& r.has_live_batches()
            &&& r.processes_one()
            &&& r.knows_downloads()
            &&& r.stops_at_genesis()
            &&& r.batches.dom().finite()
            &&& s.state == BackFillState::Syncing ==> forall|k: BatchId| #[trigger]
                r.batches.contains_key(k) && r.batches[k].state is AwaitingDownload ==> k == id
        }),
{
    let r = SyncView { current_processing_batch: None, ..s }.with_batch(id, batch);
    lemma_downloads_kept(s, r);
    assert(r.stops_at_genesis());
    let p = r.in_state(BackFillState::Paused);
    assert(p.retries_what_failed());
    assert(p.is_consistent());
    assert forall|k: BatchId|
        s.state == BackFillState::Syncing && #[trigger] r.batches.contains_key(k)
            && r.batches[k].state is AwaitingDownload implies k == id by {
        assert(s.batches.contains_key(k));
    }
}

/// The result of a batch is handled such that the call can go on.
pub proof fn lemma_batch_processed(
    s: SyncView,
    id: BatchId,
    result: BatchProcessResult,
    anchor: Option<AnchorInfo>,
)
    requires
        s.is_consistent(),
        s.waiting is Nothing,
        s.work.retries.len() == 0,
        s.work.idle.len() == 0,
    ensures
        ({
            let (t, _, flow) = s.batch_processed(id, result, anchor);
            &&& SyncView::can_settle((t, flow))
            &&& flow matches Flow::Stop(Err(error)) ==> is_failure(error)
                && t.has_just_failed()
        }),
{
    if s.current_processing_batch != Some(id) {
        lemma_begun(s, Outcome::Handled);
    } else {
        lemma_processed(s, id, result, anchor);
    }
}

/// That a peer has left is handled such that the call can go on.
pub proof fn lemma_peer_left(s: SyncView, peer: PeerId)
    requires
        s.is_consistent(),
        s.waiting is Nothing,
        s.work.retries.len() == 0,
        s.work.idle.len() == 0,
    ensures
        SyncView::can_settle(s.peer_left(peer)),
        s.peer_left(peer).1 matches Flow::Stop(Err(error)) ==> error is BatchDownloadFailed
            && s.peer_left(peer).0.has_just_failed(),
        forall|id: BatchId| #[trigger]
            s.asked_of(peer).contains(id) <==> s.batches.contains_key(id)
                && s.batches[id].is_downloading_from(peer),
{
    let asked = s.asked_of(peer);
    let ok = |id: BatchId| s.can_redownload(id);
    let pick = |id: BatchId| is_requested(s.active_requests, peer, id);
    let change = |batch: BatchView| batch.failed_downloading(batch.state->Downloading_0);
    let (t, flow) = s.peer_left(peer);
    lemma_ids_of(s.batches);
    lemma_filter_ascending(ids_of(s.batches), pick);
    lemma_first_not_none(asked, ok);
    lemma_with_each_dom(s.batches, asked, change);
    assert forall|id: BatchId| #[trigger] asked.contains(id) <==> s.batches.contains_key(id)
        && s.batches[id].is_downloading_from(peer) by {
        assert(asked.contains(id) <==> ids_of(s.batches).contains(id) && pick(id));
        if s.batches.contains_key(id) && s.batches[id].is_downloading_from(peer) {
            assert(is_requested(s.active_requests, peer, id));
        }
    }
    if s.state == BackFillState::Failed || s.state == BackFillState::NotRequired {
        lemma_begun(s, Outcome::Handled);
    } else if flow is Stop {
        lemma_failed(s);
        lemma_first_not_is_in(asked, ok);
    } else {
        assert forall|k: BatchId| asked.contains(k) implies s.can_redownload(k) by {
            let i = choose|i: int| 0 <= i < asked.len() && asked[i] == k;
            assert(ok(asked[i]));
        }
        assert forall|k: BatchId| #[trigger] t.batches.contains_key(k) implies {
            &&& t.batches[k].is_alive()
            &&& t.batches[k].state is AwaitingDownload || t.batches[k] == s.batches[k]
        } by {
            assert(t.batches[k] == with_each(s.batches, asked, change)[k]);
            assert(s.batches[k].is_alive());
        }
        lemma_downloads_kept(s, t);
        assert(t.work.retries == asked);
        assert forall|i: int| 0 <= i < asked.len() implies {
            &&& t.batches.contains_key(#[trigger] asked[i])
            &&& t.batches[asked[i]].state is AwaitingDownload
        } by {
            assert(asked.contains(asked[i]));
            assert(t.batches[asked[i]] == with_each(s.batches, asked, change)[asked[i]]);
        }
        assert forall|k: BatchId|
            t.state == BackFillState::Syncing && #[trigger] t.batches.contains_key(k)
                && t.batches[k].state is AwaitingDownload implies asked.contains(k) by {
            assert(t.batches[k] == with_each(s.batches, asked, change)[k]);
            assert(s.batches.contains_key(k));
        }
        assert(t.retries_what_failed());
        assert(t.stops_at_genesis());
        assert(t.has_live_batches());
        assert(t.processes_one());
        assert(t.is_consistent());
    }
}

/// The first number that does not satisfy `ok` is one of the sequence, and does not satisfy it.
proof fn lemma_first_not_is_in(ids: Seq<BatchId>, ok: spec_fn(BatchId) -> bool)
    ensures
        first_not(ids, ok) matches Some(id) ==> ids.contains(id) && !ok(id),
    decreases ids.len(),
{
    if ids.len() > 0 {
        let rest = ids.drop_first();
        lemma_first_not_is_in(rest, ok);
        if ok(ids[0]) {
            if let Some(id) = first_not(rest, ok) {
                let i = choose|i: int| 0 <= i < rest.len() && rest[i] == id;
                assert(ids[i + 1] == id);
            }
        } else {
            assert(ids.contains(ids[0]));
        }
    }
}

/// Starting or resuming is done such that the call can go on.
pub proof fn lemma_started(s: SyncView, pool: Seq<PeerId>, anchor: Option<AnchorInfo>)
    requires
        s.is_consistent(),
        s.is_idle(),
    ensures
        SyncView::can_settle(s.started(pool, anchor)),
        s.started(pool, anchor).1 matches Flow::Stop(Err(error)) ==> {
            &&& s.state == BackFillState::Failed
            &&& s.restart_failed_sync
            &&& error is InvalidSyncState
            &&& s.started(pool, anchor).0.state == (if anchor is None {
                BackFillState::NotRequired
            } else {
                BackFillState::Completed
            })
        },
{
    let (t, flow) = s.started(pool, anchor);
    match s.state {
        BackFillState::Paused => {
            if pool.len() > 0 {
                let retries = s.to_resume();
                let pick = |id: BatchId| s.batches[id].state is AwaitingDownload;
                lemma_ids_of(s.batches);
                lemma_filter_ascending(ids_of(s.batches), pick);
                assert forall|i: int| 0 <= i < retries.len() implies {
                    &&& t.batches.contains_key(#[trigger] retries[i])
                    &&& t.batches[retries[i]].state is AwaitingDownload
                } by {
                    assert(retries.contains(retries[i]));
                }
                assert forall|k: BatchId| #[trigger] t.batches.contains_key(k)
                    && t.batches[k].state is AwaitingDownload implies retries.contains(k) by {
                    assert(ids_of(s.batches).contains(k) && pick(k));
                }
                assert(t.retries_what_failed());
                assert(t.is_consistent());
            } else {
                lemma_begun(s, Outcome::Handled);
            }
        },
        BackFillState::Failed => {
            if flow is Proceed {
                assert(t.is_consistent());
            } else {
                let u = t.begun(Outcome::Handled);
                assert(u.work.retries.no_duplicates());
                assert(u.is_consistent());
            }
        },
        _ => {
            lemma_begun(s, Outcome::Handled);
        },
    }
}

/// A new sync is consistent.
pub proof fn lemma_initial(
    anchor: Option<AnchorInfo>,
    genesis_backfill_slot: Slot,
    slots_per_epoch: u64,
)
    requires
        slots_per_epoch > 0,
    ensures
        SyncView::initial(anchor, genesis_backfill_slot, slots_per_epoch).is_consistent(),
        SyncView::initial(anchor, genesis_backfill_slot, slots_per_epoch).is_idle(),
{
    let s = SyncView::initial(anchor, genesis_backfill_slot, slots_per_epoch);
    assert(s.work.retries.no_duplicates());
    assert(s.batches.dom() =~= Set::empty());
}

/// A call goes on such that the tables stay consistent.
pub proof fn lemma_settle(at: (SyncView, Flow), pool: Seq<PeerId>)
    requires
        SyncView::can_settle(at),
    ensures
        SyncView::settle(at, pool).0.is_consistent(),
        SyncView::settle(at, pool).0.awaits(SyncView::settle(at, pool).1),
        at.1 is Proceed ==> SyncView::settle(at, pool).0.is_continuation_of(
            at.0,
            SyncView::settle(at, pool).1,
        ),
{
    if at.1 is Proceed {
        lemma_proceed(at.0, pool);
    }
}

} // verus!
