//! What holds of one batch: what its hash tells of its blocks, which blocks it accepts, what it
//! asks for, and what each operation leaves as it was.
use std::collections::hash_map::DefaultHasher;

use vstd::bytes::{lemma_auto_spec_u64_to_from_le_bytes, spec_u64_to_le_bytes};
use vstd::prelude::*;
use vstd::std_specs::hash::DefaultHasherAdditionalSpecFns;

use crate::batch::{
    attempt_hash, cannot_add_block, cannot_complete_download, cannot_complete_processing,
    cannot_download, cannot_fail_download, cannot_fail_validation, cannot_process, capped_product,
    hash_input, Attempt, BatchOperationOutcome, BatchProcessingResult, BatchStateView, BatchView,
    Block,
};
use crate::types::{BatchType, Epoch, Id, PeerId};

verus! {

/// The bytes of all chunks, one chunk behind the other.
pub open spec fn joined(chunks: Seq<Seq<u8>>) -> Seq<u8>
    decreases chunks.len(),
{
    if chunks.len() == 0 {
        Seq::empty()
    } else {
        chunks[0] + joined(chunks.drop_first())
    }
}

/// Whether two versions of a batch hold the same blocks.
pub open spec fn are_same_blocks(a: Seq<Block>, b: Seq<Block>) -> bool {
    &&& a.len() == b.len()
    &&& forall|i: int| 0 <= i < a.len() ==> (#[trigger] a[i]).content@ == b[i].content@
}

/// What is written of the first block stands first.
proof fn lemma_hash_input_first(blocks: Seq<Block>)
    requires
        blocks.len() > 0,
    ensures
        hash_input(blocks) == seq![
            spec_u64_to_le_bytes(blocks[0].content@.len() as u64),
            blocks[0].content@,
        ] + hash_input(blocks.drop_first()),
    decreases blocks.len(),
{
    let rest = blocks.drop_last();
    if rest.len() > 0 {
        lemma_hash_input_first(rest);
        assert(rest.drop_first() =~= blocks.drop_first().drop_last());
        assert(blocks.drop_first().last() == blocks.last());
        assert(rest[0] == blocks[0]);
    } else {
        assert(hash_input(rest) =~= Seq::empty());
        assert(hash_input(blocks.drop_first()) =~= Seq::empty());
        assert(blocks.last() == blocks[0]);
    }
    assert(hash_input(blocks) =~= seq![
        spec_u64_to_le_bytes(blocks[0].content@.len() as u64),
        blocks[0].content@,
    ] + hash_input(blocks.drop_first()));
}

/// The bytes of what is written of the first block stand first.
proof fn lemma_joined_first(blocks: Seq<Block>)
    requires
        blocks.len() > 0,
    ensures
        joined(hash_input(blocks)) == spec_u64_to_le_bytes(blocks[0].content@.len() as u64)
            + blocks[0].content@ + joined(hash_input(blocks.drop_first())),
{
    lemma_hash_input_first(blocks);
    let rest = hash_input(blocks.drop_first());
    let all = hash_input(blocks);
    assert(all.drop_first().drop_first() =~= rest);
    assert(all.drop_first()[0] == blocks[0].content@);
    reveal_with_fuel(joined, 3);
    assert(joined(all) =~= spec_u64_to_le_bytes(blocks[0].content@.len() as u64)
        + blocks[0].content@ + joined(rest));
}

/// Two sequences of which the first parts are as long, and which are the same when joined, have the
/// same parts.
proof fn lemma_same_parts(a: Seq<u8>, b: Seq<u8>, x: Seq<u8>, y: Seq<u8>)
    requires
        a.len() == b.len(),
        a + x == b + y,
    ensures
        a == b,
        x == y,
{
    assert(a =~= (a + x).take(a.len() as int));
    assert(b =~= (b + y).take(b.len() as int));
    assert(x =~= (a + x).skip(a.len() as int));
    assert(y =~= (b + y).skip(b.len() as int));
}

/// A count, written out, can be read back.
proof fn lemma_count_bytes(x: u64, y: u64)
    ensures
        spec_u64_to_le_bytes(x).len() == 8,
        spec_u64_to_le_bytes(x) == spec_u64_to_le_bytes(y) ==> x == y,
{
    lemma_auto_spec_u64_to_from_le_bytes();
}

/// The bytes that as many blocks write are the same only if the blocks are.
proof fn lemma_written_blocks(a: Seq<Block>, b: Seq<Block>)
    requires
        a.len() == b.len(),
        joined(hash_input(a)) == joined(hash_input(b)),
    ensures
        are_same_blocks(a, b),
    decreases a.len(),
{
    if a.len() > 0 {
        let x = a[0].content;
        let y = b[0].content;
        vstd::std_specs::vec::axiom_spec_len(&x);
        vstd::std_specs::vec::axiom_spec_len(&y);
        lemma_joined_first(a);
        lemma_joined_first(b);
        let in_x = spec_u64_to_le_bytes(x@.len() as u64);
        let in_y = spec_u64_to_le_bytes(y@.len() as u64);
        let after_x = joined(hash_input(a.drop_first()));
        let after_y = joined(hash_input(b.drop_first()));
        lemma_count_bytes(x@.len() as u64, y@.len() as u64);
        lemma_count_bytes(y@.len() as u64, x@.len() as u64);
        assert(in_x + x@ + after_x =~= in_x + (x@ + after_x));
        assert(in_y + y@ + after_y =~= in_y + (y@ + after_y));
        lemma_same_parts(in_x, in_y, x@ + after_x, y@ + after_y);
        lemma_same_parts(x@, y@, after_x, after_y);
        lemma_written_blocks(a.drop_first(), b.drop_first());
        assert forall|i: int| 0 <= i < a.len() implies (#[trigger] a[i]).content@
            == b[i].content@ by {
            if i > 0 {
                assert(a.drop_first()[i - 1].content@ == b.drop_first()[i - 1].content@);
            }
        }
    }
}

/// Blocks that are the same write the same.
proof fn lemma_same_blocks(a: Seq<Block>, b: Seq<Block>)
    requires
        are_same_blocks(a, b),
    ensures
        hash_input(a) == hash_input(b),
    decreases a.len(),
{
    if a.len() > 0 {
        let x = a.drop_last();
        let y = b.drop_last();
        assert forall|i: int| 0 <= i < x.len() implies (#[trigger] x[i]).content@
            == y[i].content@ by {
            assert(a[i].content@ == b[i].content@);
        }
        lemma_same_blocks(x, y);
        assert(a[a.len() - 1].content@ == b[b.len() - 1].content@);
    }
}

/// The hash of a batch is that of bytes from which every block of it can be read back: two versions
/// of a batch write the same bytes into the hasher exactly if they hold as many blocks, and each
/// block has the same content.
pub proof fn law_the_hash_covers_every_block(a: Seq<Block>, b: Seq<Block>)
    requires
        a.len() <= u64::MAX,
        b.len() <= u64::MAX,
    ensures
        ({
            let written_a = seq![spec_u64_to_le_bytes(a.len() as u64)] + hash_input(a);
            let written_b = seq![spec_u64_to_le_bytes(b.len() as u64)] + hash_input(b);
            &&& attempt_hash(a) == DefaultHasher::spec_finish(written_a)
            &&& attempt_hash(b) == DefaultHasher::spec_finish(written_b)
            &&& joined(written_a) == joined(written_b) <==> are_same_blocks(a, b)
            &&& written_a == written_b <==> are_same_blocks(a, b)
            &&& are_same_blocks(a, b) ==> attempt_hash(a) == attempt_hash(b)
        }),
{
    let in_a = spec_u64_to_le_bytes(a.len() as u64);
    let in_b = spec_u64_to_le_bytes(b.len() as u64);
    let written_a = seq![in_a] + hash_input(a);
    let written_b = seq![in_b] + hash_input(b);
    assert(written_a.drop_first() =~= hash_input(a));
    assert(written_b.drop_first() =~= hash_input(b));
    if joined(written_a) == joined(written_b) {
        lemma_count_bytes(a.len() as u64, b.len() as u64);
        lemma_count_bytes(b.len() as u64, a.len() as u64);
        lemma_same_parts(in_a, in_b, joined(hash_input(a)), joined(hash_input(b)));
        lemma_written_blocks(a, b);
    }
    if are_same_blocks(a, b) {
        lemma_same_blocks(a, b);
    }
}

/// Whether the slots of the blocks ascend.
pub open spec fn slots_ascend(blocks: Seq<Block>) -> bool {
    forall|i: int, j: int|
        0 <= i < j < blocks.len() ==> (#[trigger] blocks[i]).slot < (#[trigger] blocks[j]).slot
}

/// Whether the first block does not lie before the batch, nor the last one behind it.
pub open spec fn blocks_fit(batch: BatchView, blocks: Seq<Block>) -> bool {
    blocks.len() > 0 ==> {
        &&& batch.start_slot <= blocks[0].slot
        &&& blocks[blocks.len() - 1].slot <= batch.end_slot
    }
}

/// Blocks whose slots ascend are found to lie within their batch exactly if every single one does.
/// If they do not, it is told which boundary of the batch is crossed, and by which slot: that of
/// the first block, or else that of the last.
pub proof fn law_out_of_range_blocks_are_found(batch: BatchView)
    requires
        batch.state is Downloading,
    ensures
        ({
            let blocks = batch.state->Downloading_1;
            &&& batch.crossed_boundary() is None <==> blocks_fit(batch, blocks)
            &&& slots_ascend(blocks) ==> (batch.crossed_boundary() is None <==> forall|i: int|
                0 <= i < blocks.len() ==> batch.start_slot <= (#[trigger] blocks[i]).slot
                    <= batch.end_slot)
            &&& batch.crossed_boundary() matches Some((boundary, slot)) ==> {
                ||| boundary == batch.start_slot && slot == blocks[0].slot && slot < boundary
                ||| {
                    &&& batch.start_slot <= blocks[0].slot
                    &&& boundary == batch.end_slot
                    &&& slot == blocks[blocks.len() - 1].slot
                    &&& slot > boundary
                }
            }
        }),
{
    let blocks = batch.state->Downloading_1;
    if slots_ascend(blocks) && blocks_fit(batch, blocks) {
        assert forall|i: int| 0 <= i < blocks.len() implies batch.start_slot <= (
        #[trigger] blocks[i]).slot <= batch.end_slot by {
            if i > 0 {
                assert(blocks[0].slot < blocks[i].slot);
            }
            if i < blocks.len() - 1 {
                assert(blocks[i].slot < blocks[blocks.len() - 1].slot);
            }
        }
    }
}

/// A batch covers the slots of its epochs, from the first slot of the first to the last slot of the
/// last, as far as there are such numbers, and asks for these: as many slots as there are in an
/// epoch for each epoch.
pub proof fn law_a_batch_asks_for_its_epochs(
    start_epoch: Epoch,
    epochs: u64,
    slots_per_epoch: u64,
    batch_type: BatchType,
)
    ensures
        ({
            let batch = BatchView::fresh(start_epoch, epochs, slots_per_epoch, batch_type);
            let start = start_epoch * slots_per_epoch;
            let end = start + epochs * slots_per_epoch;
            &&& batch.start_slot == if start <= u64::MAX { start } else { u64::MAX as int }
            &&& batch.end_slot == if end <= u64::MAX { end } else { u64::MAX as int }
            &&& batch.request().start_slot == batch.start_slot
            &&& batch.request().start_slot + batch.request().count == batch.end_slot
            &&& end <= u64::MAX ==> batch.request().count == epochs * slots_per_epoch
            &&& batch.batch_type == batch_type
            &&& batch.failed_processing_attempts.len() == 0
            &&& batch.failed_download_attempts.len() == 0
            &&& batch.state is AwaitingDownload
        }),
{
    assert(start_epoch * slots_per_epoch >= 0) by (nonlinear_arith);
    assert(epochs * slots_per_epoch >= 0) by (nonlinear_arith);
}

/// A product is exact as long as it is a number that there is, and else the greatest there is.
pub proof fn law_products_are_capped(a: u64, b: u64)
    ensures
        a * b <= u64::MAX ==> capped_product(a, b) == a * b,
        a * b > u64::MAX ==> capped_product(a, b) == u64::MAX,
{
}

/// No operation on a batch changes what it asks for. Blocks are added one by one, and handed on as
/// they came; failed downloads and failed versions are recorded one by one, behind those before,
/// with the peer that is at fault. A batch fails when it has failed to be downloaded, or to be
/// processed, ten times, and not before.
pub proof fn law_operations_on_a_batch(
    batch: BatchView,
    peer: PeerId,
    request_id: Id,
    block: Block,
    attempt: Attempt,
)
    ensures
        batch.started_downloading(peer, request_id) == (BatchView {
            state: BatchStateView::Downloading(peer, Seq::empty(), request_id),
            ..batch
        }),
        batch.state matches BatchStateView::Downloading(p, blocks, r) ==> {
            &&& batch.with_block(block) == (BatchView {
                state: BatchStateView::Downloading(p, blocks.push(block), r),
                ..batch
            })
            &&& batch.completed_downloading() == (BatchView {
                state: BatchStateView::AwaitingProcessing(p, blocks),
                ..batch
            })
        },
        batch.state matches BatchStateView::AwaitingProcessing(p, blocks)
            ==> batch.started_processing() == (BatchView {
            state: BatchStateView::Processing(
                Attempt { peer_id: p, hash: attempt_hash(blocks) },
            ),
            ..batch
        }),
        batch.state matches BatchStateView::Processing(version) ==> {
            &&& batch.completed_processing(BatchProcessingResult::Success) == (BatchView {
                state: BatchStateView::AwaitingValidation(version),
                ..batch
            })
            &&& batch.completed_processing(BatchProcessingResult::NonFaultyFailure) == (BatchView {
                state: BatchStateView::AwaitingDownload,
                ..batch
            })
            &&& has_lost_version(
                batch,
                batch.completed_processing(BatchProcessingResult::FaultyFailure),
                version,
            )
        },
        batch.state matches BatchStateView::AwaitingValidation(version) ==> has_lost_version(
            batch,
            batch.failed_validation(),
            version,
        ),
        has_lost_version(batch, batch.failed_processing(attempt), attempt),
        has_lost_download(batch, batch.failed_downloading(peer), peer),
{
}

/// Whether `after` is the batch once a download of it from the peer has failed.
pub open spec fn has_lost_download(before: BatchView, after: BatchView, peer: PeerId) -> bool {
    after == (BatchView {
        failed_download_attempts: before.failed_download_attempts.push(peer),
        state: if before.failed_download_attempts.len() + 1 >= 10 {
            BatchStateView::Failed
        } else {
            BatchStateView::AwaitingDownload
        },
        ..before
    })
}

/// Whether `after` is the batch once this version of it has been found invalid.
pub open spec fn has_lost_version(before: BatchView, after: BatchView, version: Attempt) -> bool {
    after == (BatchView {
        failed_processing_attempts: before.failed_processing_attempts.push(version),
        state: if before.failed_processing_attempts.len() + 1 >= 10 {
            BatchStateView::Failed
        } else {
            BatchStateView::AwaitingDownload
        },
        ..before
    })
}

/// What a batch tells of itself: who its state is owed to, whether it waits for a block of a
/// request, whether it takes up room in the buffer, and whether it can still be worked on.
pub proof fn law_what_a_batch_tells(batch: BatchView, peer: PeerId, request_id: Id)
    ensures
        batch.current_peer() == Some(peer) <==> {
            ||| batch.state is Downloading && batch.state->Downloading_0 == peer
            ||| batch.state is AwaitingProcessing && batch.state->AwaitingProcessing_0 == peer
            ||| batch.state is Processing && batch.state->Processing_0.peer_id == peer
            ||| batch.state is AwaitingValidation && batch.state->AwaitingValidation_0.peer_id
                == peer
        },
        batch.current_peer() is None <==> batch.state is AwaitingDownload || batch.state is Failed,
        batch.is_expecting(peer, request_id) <==> {
            &&& batch.state is Downloading
            &&& batch.state->Downloading_0 == peer
            &&& batch.state->Downloading_2 == request_id
        },
        batch.is_in_buffer() <==> batch.state is Downloading || batch.state is AwaitingProcessing,
        batch.outcome() == BatchOperationOutcome::Failed <==> batch.state is Failed,
        batch.has_failed_with(peer) <==> {
            ||| exists|i: int|
                0 <= i < batch.failed_download_attempts.len()
                    && #[trigger] batch.failed_download_attempts[i] == peer
            ||| exists|i: int|
                0 <= i < batch.failed_processing_attempts.len()
                    && (#[trigger] batch.failed_processing_attempts[i]).peer_id == peer
        },
{
}

/// What a batch says of an operation that its state does not allow.
pub proof fn law_wrong_states_are_named()
    ensures
        cannot_download() == "Starting download for batch in wrong state"@,
        cannot_add_block() == "Add block for batch in wrong state"@,
        cannot_complete_download() == "Download completed for batch in wrong state"@,
        cannot_fail_download() == "Download failed for batch in wrong state"@,
        cannot_process() == "Starting processing for batch in wrong state"@,
        cannot_complete_processing() == "Processing completed for batch in wrong state"@,
        cannot_fail_validation() == "Validation failed for batch in wrong state"@,
{
}

} // verus!
