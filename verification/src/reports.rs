//! Which peers are penalised, for what, and how.
use vstd::prelude::*;

use crate::batch::{Attempt, BatchProcessingResult, BatchStateView, BatchView};
use crate::calls::{law_ascending_order, lemma_picked};
use crate::model::{all_penalties, failure_reports, penalty, successful, SyncView};
use crate::order::ascending;
use crate::types::{
    reason_text, AnchorInfo, BatchId, BatchProcessResult, PeerAction, PeerId, PeerReport,
    ReportReason,
};

verus! {

/// The penalty for the peer that sent this version of a batch, when that one was validated: it is
/// the milder one if the same peer sent both.
pub open spec fn blame(wrong: Attempt, right: Attempt) -> PeerReport {
    PeerReport {
        peer: wrong.peer_id,
        action: if wrong.peer_id == right.peer_id {
            PeerAction::MidToleranceError
        } else {
            PeerAction::LowToleranceError
        },
        reason: if wrong.peer_id == right.peer_id {
            ReportReason::ReprocessedSamePeer
        } else {
            ReportReason::ReprocessedOriginalPeer
        },
    }
}

/// The penalties for those versions of a batch that differ from the one which was validated, one
/// for each, in the order in which they failed.
pub open spec fn blames(versions: Seq<Attempt>, right: Attempt) -> Seq<PeerReport>
    decreases versions.len(),
{
    if versions.len() == 0 {
        Seq::empty()
    } else {
        let rest = blames(versions.drop_last(), right);
        if versions.last().hash == right.hash {
            rest
        } else {
            rest.push(blame(versions.last(), right))
        }
    }
}

/// The penalties for the failed versions of the batches of these ids, batch by batch. Only for a
/// batch that awaits validation is it known which version is right.
pub open spec fn all_blames(batches: Map<BatchId, BatchView>, ids: Seq<BatchId>) -> Seq<PeerReport>
    decreases ids.len(),
{
    if ids.len() == 0 {
        Seq::empty()
    } else {
        let batch = batches[ids.last()];
        all_blames(batches, ids.drop_last()) + if batch.state is AwaitingValidation {
            blames(batch.failed_processing_attempts, batch.state->AwaitingValidation_0)
        } else {
            Seq::empty()
        }
    }
}

impl SyncView {
    /// Whether the result of the batch which is being processed moves the chain forward to it: it
    /// lies below where the chain is validated from, and blocks of it were imported; unless it has
    /// failed for the last time that is allowed.
    pub open spec fn advances_by(self, id: BatchId, result: BatchProcessResult) -> bool {
        &&& self.current_processing_batch == Some(id)
        &&& id < self.current_start
        &&& match result {
            BatchProcessResult::Success { was_non_empty } => was_non_empty,
            BatchProcessResult::FaultyFailure { imported_blocks, .. } => imported_blocks
                && self.batches[id].failed_processing_attempts.len() + 1 < 10,
            BatchProcessResult::NonFaultyFailure => false,
        }
    }

    /// Whether the batch which is being processed has failed for the last time that is allowed.
    pub open spec fn is_exhausted_by(self, id: BatchId, result: BatchProcessResult) -> bool {
        &&& self.current_processing_batch == Some(id)
        &&& result is FaultyFailure
        &&& self.batches[id].failed_processing_attempts.len() + 1 >= 10
    }

    /// Whether the report is the penalty for a failed version of a batch above the given one, which
    /// awaits validation with a version of another hash.
    pub open spec fn is_due_penalty(self, id: BatchId, report: PeerReport) -> bool {
        exists|k: BatchId, i: int|
            {
                &&& self.batches.contains_key(k)
                &&& k > id
                &&& self.batches[k].state is AwaitingValidation
                &&& 0 <= i < self.batches[k].failed_processing_attempts.len()
                &&& (#[trigger] self.batches[k].failed_processing_attempts[i]).hash
                    != self.batches[k].state->AwaitingValidation_0.hash
                &&& report == blame(
                    self.batches[k].failed_processing_attempts[i],
                    self.batches[k].state->AwaitingValidation_0,
                )
            }
    }
}

/// The penalties for one batch, one by one.
proof fn lemma_blames(versions: Seq<Attempt>, right: Attempt)
    ensures
        blames(versions, right) == versions.filter(
            |attempt: Attempt| attempt.hash != right.hash,
        ).map_values(|attempt: Attempt| penalty(attempt, right)),
    decreases versions.len(),
{
    let differs = |attempt: Attempt| attempt.hash != right.hash;
    let of = |attempt: Attempt| penalty(attempt, right);
    reveal(Seq::filter);
    if versions.len() > 0 {
        let rest = versions.drop_last();
        lemma_blames(rest, right);
        assert(blame(versions.last(), right) == of(versions.last()));
        assert(blames(versions, right) =~= versions.filter(differs).map_values(of));
    } else {
        assert(blames(versions, right) =~= versions.filter(differs).map_values(of));
    }
}

/// The penalties for several batches, batch by batch.
proof fn lemma_all_blames(
    a: Map<BatchId, BatchView>,
    b: Map<BatchId, BatchView>,
    ids: Seq<BatchId>,
)
    requires
        forall|i: int| 0 <= i < ids.len() ==> a[#[trigger] ids[i]] == b[ids[i]],
    ensures
        all_penalties(a, ids) == all_blames(b, ids),
    decreases ids.len(),
{
    if ids.len() > 0 {
        let rest = ids.drop_last();
        assert forall|i: int| 0 <= i < rest.len() implies a[#[trigger] rest[i]] == b[rest[i]] by {
            assert(rest[i] == ids[i]);
        }
        lemma_all_blames(a, b, rest);
        let batch = b[ids[ids.len() - 1]];
        assert(a[ids.last()] == batch);
        if let BatchStateView::AwaitingValidation(right) = batch.state {
            lemma_blames(batch.failed_processing_attempts, right);
        }
    }
}

/// Whether a report is among the penalties for one batch.
proof fn lemma_blames_contain(versions: Seq<Attempt>, right: Attempt, report: PeerReport)
    ensures
        blames(versions, right).contains(report) <==> exists|i: int|
            0 <= i < versions.len() && (#[trigger] versions[i]).hash != right.hash && report
                == blame(versions[i], right),
    decreases versions.len(),
{
    let all = blames(versions, right);
    if versions.len() > 0 {
        let rest = versions.drop_last();
        let some = blames(rest, right);
        lemma_blames_contain(rest, right, report);
        if all.contains(report) {
            let k = choose|k: int| 0 <= k < all.len() && all[k] == report;
            if k < some.len() {
                assert(some[k] == report);
                let i = choose|i: int|
                    0 <= i < rest.len() && (#[trigger] rest[i]).hash != right.hash && report
                        == blame(rest[i], right);
                assert(versions[i] == rest[i]);
            } else {
                assert(versions[versions.len() - 1].hash != right.hash);
            }
        }
        if exists|i: int|
            0 <= i < versions.len() && (#[trigger] versions[i]).hash != right.hash && report
                == blame(versions[i], right) {
            let i = choose|i: int|
                0 <= i < versions.len() && (#[trigger] versions[i]).hash != right.hash && report
                    == blame(versions[i], right);
            if i < rest.len() {
                assert(rest[i] == versions[i]);
                let k = choose|k: int| 0 <= k < some.len() && some[k] == report;
                assert(all[k] == report);
            } else {
                assert(all[all.len() - 1] == report);
            }
        }
    }
}

/// Whether a report is among the penalties for several batches.
proof fn lemma_all_blames_contain(
    batches: Map<BatchId, BatchView>,
    ids: Seq<BatchId>,
    report: PeerReport,
)
    ensures
        all_blames(batches, ids).contains(report) <==> exists|j: int|
            0 <= j < ids.len() && (#[trigger] batches[ids[j]]).state is AwaitingValidation
                && blames(
                batches[ids[j]].failed_processing_attempts,
                batches[ids[j]].state->AwaitingValidation_0,
            ).contains(report),
    decreases ids.len(),
{
    let all = all_blames(batches, ids);
    if ids.len() > 0 {
        let rest = ids.drop_last();
        let some = all_blames(batches, rest);
        let batch = batches[ids.last()];
        let last = if batch.state is AwaitingValidation {
            blames(batch.failed_processing_attempts, batch.state->AwaitingValidation_0)
        } else {
            Seq::empty()
        };
        lemma_all_blames_contain(batches, rest, report);
        assert(all == some + last);
        if all.contains(report) {
            let k = choose|k: int| 0 <= k < all.len() && all[k] == report;
            if k < some.len() {
                assert(some[k] == report);
                let j = choose|j: int|
                    0 <= j < rest.len() && (#[trigger] batches[rest[j]]).state
                        is AwaitingValidation && blames(
                        batches[rest[j]].failed_processing_attempts,
                        batches[rest[j]].state->AwaitingValidation_0,
                    ).contains(report);
                assert(batches[ids[j]] == batches[rest[j]]);
            } else {
                assert(last[k - some.len()] == report);
                assert(batches[ids[ids.len() - 1]] == batch);
            }
        }
        if exists|j: int|
            0 <= j < ids.len() && (#[trigger] batches[ids[j]]).state is AwaitingValidation
                && blames(
                batches[ids[j]].failed_processing_attempts,
                batches[ids[j]].state->AwaitingValidation_0,
            ).contains(report) {
            let j = choose|j: int|
                0 <= j < ids.len() && (#[trigger] batches[ids[j]]).state is AwaitingValidation
                    && blames(
                    batches[ids[j]].failed_processing_attempts,
                    batches[ids[j]].state->AwaitingValidation_0,
                ).contains(report);
            if j < rest.len() {
                assert(batches[rest[j]] == batches[ids[j]]);
                let k = choose|k: int| 0 <= k < some.len() && some[k] == report;
                assert(all[k] == report);
            } else {
                let k = choose|k: int| 0 <= k < last.len() && last[k] == report;
                assert(all[some.len() + k] == report);
            }
        }
    }
}

/// Just these reports come with the result of a batch, in this order: when the chain moves forward,
/// those for the failed versions of the batches above, batch by batch from the lowest up; when a
/// batch has failed for the last time that is allowed, one for each participant, from the smallest
/// number up, as severe as the result says; and none else.
pub proof fn law_the_reports_of_a_result(
    s: SyncView,
    id: BatchId,
    result: BatchProcessResult,
    anchor: Option<AnchorInfo>,
    pool: Seq<PeerId>,
)
    requires
        s.inv(),
        s.is_idle(),
    ensures
        ({
            let (_, reports, _) = s.on_batch_process_result(id, result, anchor, pool);
            let peers = ascending(s.participating_peers);
            if s.is_exhausted_by(id, result) {
                &&& reports.len() == peers.len()
                &&& forall|i: int|
                    0 <= i < reports.len() ==> #[trigger] reports[i] == (PeerReport {
                        peer: peers[i],
                        action: result->FaultyFailure_penalty,
                        reason: ReportReason::BatchFailed,
                    })
            } else if s.advances_by(id, result) {
                reports == all_blames(s.batches, ascending(s.above(id)))
            } else {
                reports.len() == 0
            }
        }),
{
    let reports = s.on_batch_process_result(id, result, anchor, pool).1;
    if s.current_processing_batch == Some(id) {
        lemma_reports(s, id, result, anchor, pool);
    }
}

/// The reports of the result of the batch that is being processed.
proof fn lemma_reports(
    s: SyncView,
    id: BatchId,
    result: BatchProcessResult,
    anchor: Option<AnchorInfo>,
    pool: Seq<PeerId>,
)
    requires
        s.inv(),
        s.is_idle(),
        s.current_processing_batch == Some(id),
    ensures
        s.on_batch_process_result(id, result, anchor, pool).1 == (if s.is_exhausted_by(
            id,
            result,
        ) {
            failure_reports(ascending(s.participating_peers), result->FaultyFailure_penalty)
        } else if s.advances_by(id, result) {
            all_blames(s.batches, ascending(s.above(id)))
        } else {
            Seq::empty()
        }),
{
    let reports = s.on_batch_process_result(id, result, anchor, pool).1;
    let r = s.begun(successful());
    if s.advances_by(id, result) {
        let c = SyncView { current_processing_batch: None, ..r }.with_batch(
            id,
            s.batches[id].completed_processing(
                if result is Success {
                    BatchProcessingResult::Success
                } else {
                    BatchProcessingResult::FaultyFailure
                },
            ),
        );
        assert(reports == c.advance_chain(id).1);
        let pick = |k: BatchId| k > id;
        assert(c.batches.dom() =~= s.batches.dom());
        lemma_picked(c, pick);
        assert(c.ids_above(id) == ascending(c.above(id)));
        assert(c.above(id) =~= s.above(id));
        let ids = ascending(s.above(id));
        law_ascending_order(s.above(id));
        assert forall|i: int| 0 <= i < ids.len() implies c.batches[#[trigger] ids[i]]
            == s.batches[ids[i]] by {
            assert(ids.contains(ids[i]));
        }
        lemma_all_blames(c.batches, s.batches, ids);
    } else if !s.is_exhausted_by(id, result) {
        assert(reports =~= Seq::empty());
    }
}

/// A failure that is no peer's fault has nobody penalised. With any other result that does not use
/// up the attempts of the batch, a report is among those that are returned exactly if the chain
/// moves forward to the batch, and it is the penalty for a failed version of a validated batch
/// above it, whose hash differs from that of the validated version.
pub proof fn law_who_is_penalised(
    s: SyncView,
    id: BatchId,
    result: BatchProcessResult,
    anchor: Option<AnchorInfo>,
    pool: Seq<PeerId>,
    report: PeerReport,
)
    requires
        s.inv(),
        s.is_idle(),
    ensures
        ({
            let reports = s.on_batch_process_result(id, result, anchor, pool).1;
            &&& result is NonFaultyFailure ==> reports.len() == 0
            &&& !s.is_exhausted_by(id, result) ==> (reports.contains(report) <==> s.advances_by(
                id,
                result,
            ) && s.is_due_penalty(id, report))
        }),
{
    let reports = s.on_batch_process_result(id, result, anchor, pool).1;
    law_the_reports_of_a_result(s, id, result, anchor, pool);
    if s.advances_by(id, result) {
        let ids = ascending(s.above(id));
        law_ascending_order(s.above(id));
        lemma_all_blames_contain(s.batches, ids, report);
        if reports.contains(report) {
            let j = choose|j: int|
                0 <= j < ids.len() && (#[trigger] s.batches[ids[j]]).state is AwaitingValidation
                    && blames(
                    s.batches[ids[j]].failed_processing_attempts,
                    s.batches[ids[j]].state->AwaitingValidation_0,
                ).contains(report);
            assert(ids.contains(ids[j]));
            let batch = s.batches[ids[j]];
            let right = batch.state->AwaitingValidation_0;
            let versions = batch.failed_processing_attempts;
            lemma_blames_contain(versions, right, report);
            let i = choose|i: int|
                0 <= i < versions.len() && (#[trigger] versions[i]).hash != right.hash && report
                    == blame(versions[i], right);
            assert(s.batches[ids[j]].failed_processing_attempts[i].hash != right.hash);
            assert(s.is_due_penalty(id, report));
        }
        if s.is_due_penalty(id, report) {
            let (k, i) = choose|k: BatchId, i: int|
                {
                    &&& s.batches.contains_key(k)
                    &&& k > id
                    &&& s.batches[k].state is AwaitingValidation
                    &&& 0 <= i < s.batches[k].failed_processing_attempts.len()
                    &&& (#[trigger] s.batches[k].failed_processing_attempts[i]).hash
                        != s.batches[k].state->AwaitingValidation_0.hash
                    &&& report == blame(
                        s.batches[k].failed_processing_attempts[i],
                        s.batches[k].state->AwaitingValidation_0,
                    )
                };
            assert(s.above(id).contains(k));
            assert(ids.contains(k));
            let j = choose|j: int| 0 <= j < ids.len() && ids[j] == k;
            lemma_blames_contain(
                s.batches[k].failed_processing_attempts,
                s.batches[k].state->AwaitingValidation_0,
                report,
            );
            assert(s.batches[ids[j]].state is AwaitingValidation);
        }
    }
}

/// When a batch has failed for the last time that is allowed, every participant is reported, and
/// nobody else, each once, and as severely as the result says.
pub proof fn law_participants_are_penalised_once(
    s: SyncView,
    id: BatchId,
    result: BatchProcessResult,
    anchor: Option<AnchorInfo>,
    pool: Seq<PeerId>,
    report: PeerReport,
)
    requires
        s.inv(),
        s.is_idle(),
        s.is_exhausted_by(id, result),
    ensures
        ({
            let reports = s.on_batch_process_result(id, result, anchor, pool).1;
            &&& reports.contains(report) <==> {
                &&& s.participating_peers.contains(report.peer)
                &&& report.action == result->FaultyFailure_penalty
                &&& report.reason == ReportReason::BatchFailed
            }
            &&& reports.no_duplicates()
        }),
{
    let reports = s.on_batch_process_result(id, result, anchor, pool).1;
    let peers = ascending(s.participating_peers);
    law_the_reports_of_a_result(s, id, result, anchor, pool);
    law_ascending_order(s.participating_peers);
    if reports.contains(report) {
        let i = choose|i: int| 0 <= i < reports.len() && reports[i] == report;
        assert(peers.contains(peers[i]));
    }
    if s.participating_peers.contains(report.peer) && report.action
        == result->FaultyFailure_penalty && report.reason == ReportReason::BatchFailed {
        assert(peers.contains(report.peer));
        let i = choose|i: int| 0 <= i < peers.len() && peers[i] == report.peer;
        assert(reports[i] == report);
    }
    assert forall|i: int, j: int|
        0 <= i < reports.len() && 0 <= j < reports.len() && i != j implies reports[i]
        != reports[j] by {
        assert(reports[i].peer == peers[i]);
        assert(reports[j].peer == peers[j]);
    }
}

/// Each reason for a penalty is reported under its own text.
pub proof fn law_reasons_are_told_apart(a: ReportReason, b: ReportReason)
    ensures
        reason_text(a) == (match a {
            ReportReason::BatchFailed => "backfill_batch_failed"@,
            ReportReason::ReprocessedOriginalPeer => "backfill_reprocessed_original_peer"@,
            ReportReason::ReprocessedSamePeer => "backfill_reprocessed_same_peer"@,
        }),
        reason_text(a) == reason_text(b) ==> a == b,
{
    reveal_strlit("backfill_batch_failed");
    reveal_strlit("backfill_reprocessed_original_peer");
    reveal_strlit("backfill_reprocessed_same_peer");
    assert("backfill_batch_failed"@.len() != "backfill_reprocessed_original_peer"@.len());
    assert("backfill_batch_failed"@.len() != "backfill_reprocessed_same_peer"@.len());
    assert("backfill_reprocessed_same_peer"@.len() != "backfill_reprocessed_original_peer"@.len());
}

} // verus!
