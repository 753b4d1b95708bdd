//! Laws that relate several operations: admitting the same attestation twice
//! changes nothing the second time, and a queue of only-future attestations
//! drains to itself.

use vstd::prelude::*;

use crate::attestation::QueuedAttestation;
use crate::config::ChainConfig;
use crate::proto_array::{ProtoArray, Vote, spec_vote_update, spec_padded_votes};
use crate::protocol::{
    ForkChoice, spec_apply_votes, spec_drained_votes, spec_kept_queue, spec_tick_outcome,
};

verus! {

/// One vote that has just been recorded is not recorded again: the stored
/// target is no longer strictly older.
pub proof fn lemma_vote_update_stable(votes: Seq<Option<Vote>>, v: int, root: u64, epoch: u64)
    requires
        0 <= v < votes.len(),
        votes[v] matches Some(vt) && vt.epoch >= epoch,
    ensures
        spec_vote_update(votes, v, root, epoch) == votes,
{
    assert(spec_padded_votes(votes, (v + 1) as nat) == votes);
}

/// Applying a vote list leaves every listed validator holding a message at
/// least as new as the vote, and never shrinks the table.
pub proof fn lemma_apply_votes_covers(
    votes: Seq<Option<Vote>>,
    indices: Seq<usize>,
    root: u64,
    epoch: u64,
)
    ensures
        spec_apply_votes(votes, indices, root, epoch).len() >= votes.len(),
        forall|j: int|
            0 <= j < indices.len() ==> (#[trigger] indices[j]) < spec_apply_votes(
                votes,
                indices,
                root,
                epoch,
            ).len() && (spec_apply_votes(votes, indices, root, epoch)[indices[j] as int]
                matches Some(vt) && vt.epoch >= epoch),
        forall|i: int|
            0 <= i < votes.len() && ((#[trigger] votes[i]) matches Some(vt) && vt.epoch >= epoch)
                ==> (spec_apply_votes(votes, indices, root, epoch)[i] matches Some(vt2)
                && vt2.epoch >= epoch),
    decreases indices.len(),
{
    if indices.len() > 0 {
        lemma_apply_votes_covers(votes, indices.drop_last(), root, epoch);
        let prev = spec_apply_votes(votes, indices.drop_last(), root, epoch);
        let last = indices.last() as int;
        let padded = spec_padded_votes(prev, (last + 1) as nat);
        assert forall|j: int|
            0 <= j < indices.len() implies (#[trigger] indices[j]) < spec_apply_votes(
            votes,
            indices,
            root,
            epoch,
        ).len() && (spec_apply_votes(votes, indices, root, epoch)[indices[j] as int]
            matches Some(vt) && vt.epoch >= epoch) by {
            if j < indices.len() - 1 {
                assert(indices.drop_last()[j] == indices[j]);
            }
        }
    }
}

/// A vote list none of whose entries would overwrite changes nothing.
pub proof fn lemma_apply_votes_stable(
    votes: Seq<Option<Vote>>,
    indices: Seq<usize>,
    root: u64,
    epoch: u64,
)
    requires
        forall|j: int|
            0 <= j < indices.len() ==> (#[trigger] indices[j]) < votes.len() && (
            votes[indices[j] as int] matches Some(vt) && vt.epoch >= epoch),
    ensures
        spec_apply_votes(votes, indices, root, epoch) == votes,
    decreases indices.len(),
{
    if indices.len() > 0 {
        assert forall|j: int|
            0 <= j < indices.drop_last().len() implies (#[trigger] indices.drop_last()[j])
            < votes.len() && (votes[indices.drop_last()[j] as int] matches Some(vt) && vt.epoch
            >= epoch) by {
            assert(indices.drop_last()[j] == indices[j]);
        }
        lemma_apply_votes_stable(votes, indices.drop_last(), root, epoch);
        assert(indices[indices.len() - 1] == indices.last());
        lemma_vote_update_stable(votes, indices.last() as int, root, epoch);
    }
}

/// Idempotence of voting: applying the same vote list twice yields exactly
/// the table the first application produced.
pub proof fn lemma_apply_votes_idempotent(
    votes: Seq<Option<Vote>>,
    indices: Seq<usize>,
    root: u64,
    epoch: u64,
)
    ensures
        spec_apply_votes(
            spec_apply_votes(votes, indices, root, epoch),
            indices,
            root,
            epoch,
        ) == spec_apply_votes(votes, indices, root, epoch),
{
    let once = spec_apply_votes(votes, indices, root, epoch);
    lemma_apply_votes_covers(votes, indices, root, epoch);
    lemma_apply_votes_stable(once, indices, root, epoch);
}

/// A queue holding only attestations from the future drains to itself and
/// casts no votes.
pub proof fn lemma_drain_noop(
    dag: ProtoArray,
    votes: Seq<Option<Vote>>,
    queue: Seq<QueuedAttestation>,
    slot: u64,
    c: ChainConfig,
)
    requires
        forall|i: int| 0 <= i < queue.len() ==> (#[trigger] queue[i]).slot > slot,
    ensures
        spec_drained_votes(dag, votes, queue, slot, c) == votes,
        spec_kept_queue(queue, slot) == queue,
    decreases queue.len(),
{
    if queue.len() > 0 {
        assert forall|i: int|
            0 <= i < queue.drop_last().len() implies (#[trigger] queue.drop_last()[i]).slot
            > slot by {
            assert(queue.drop_last()[i] == queue[i]);
        }
        lemma_drain_noop(dag, votes, queue.drop_last(), slot, c);
        assert(queue[queue.len() - 1] == queue.last());
        assert(spec_kept_queue(queue, slot) =~= queue);
    }
}

/// Idempotence of attestation admission: once a fork chooser has admitted a
/// due attestation, a second admission of the same attestation at any time
/// not past the clock changes nothing — the clock does not move, the queue
/// stays, and every vote the attestation casts is already cast.
pub proof fn lemma_attestation_admission_idempotent(
    fc: ForkChoice,
    earlier: Seq<Option<Vote>>,
    indices: Seq<usize>,
    root: u64,
    epoch: u64,
    time: u64,
)
    requires
        fc.wf(),
        time <= fc.fc_store.current_slot,
        fc.proto_array.votes@ == spec_apply_votes(earlier, indices, root, epoch),
    ensures
        spec_tick_outcome(fc.fc_store, time) == Ok::<
            (u64, crate::config::Checkpoint, Seq<u64>),
            crate::error::StoreError,
        >(
            (
                fc.fc_store.current_slot,
                fc.fc_store.justified_checkpoint,
                fc.fc_store.justified_balances@,
            ),
        ),
        spec_drained_votes(
            fc.proto_array,
            fc.proto_array.votes@,
            fc.queued_attestations@,
            fc.fc_store.current_slot,
            fc.fc_store.config,
        ) == fc.proto_array.votes@,
        spec_kept_queue(fc.queued_attestations@, fc.fc_store.current_slot)
            == fc.queued_attestations@,
        spec_apply_votes(fc.proto_array.votes@, indices, root, epoch) == fc.proto_array.votes@,
{
    lemma_drain_noop(
        fc.proto_array,
        fc.proto_array.votes@,
        fc.queued_attestations@,
        fc.fc_store.current_slot,
        fc.fc_store.config,
    );
    lemma_apply_votes_idempotent(earlier, indices, root, epoch);
}

} // verus!
