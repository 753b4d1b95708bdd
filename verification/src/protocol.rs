//! The fork-choice facade and its admission protocol: `on_tick` driven time,
//! block admission, attestation admission with queueing, and head queries.

use vstd::prelude::*;

use crate::attestation::{IndexedAttestation, QueuedAttestation, copy_indices};
use crate::beacon::{BeaconBlock, BeaconState, spec_effective_balances};
use crate::config::{
    ChainConfig, Checkpoint, spec_start_slot, spec_inside_safe_slots, start_slot_of_epoch,
    inside_safe_slots, epoch_of_slot, spec_epoch_of,
};
use crate::error::{Error, InvalidAttestation, InvalidBlock, ProtoArrayError, StoreError};
use crate::proto_array::{ProtoArray, ProtoNode, Vote, spec_vote_update, spec_pruned_to};
use crate::store::lemma_get_ancestor_from_nodes;
use crate::store::{ForkChoiceStore, get_ancestor, spec_get_ancestor};

verus! {

/// The fork-choice core: the store, the DAG, the queue of not-yet-due
/// attestations, and the immutable genesis block root.
#[derive(PartialEq, Eq, Debug)]
pub struct ForkChoice {
    pub fc_store: ForkChoiceStore,
    pub proto_array: ProtoArray,
    pub queued_attestations: Vec<QueuedAttestation>,
    pub genesis_block_root: u64,
}

/// Why an attestation is refused, if it is: the voted block and the target
/// block must be known, and the voted block must descend from the target.
pub open spec fn spec_validate_attestation(
    dag: ProtoArray,
    block_root: u64,
    target_root: u64,
    target_epoch: u64,
    c: ChainConfig,
) -> Option<InvalidAttestation>
    recommends
        dag.wf(),
{
    if !dag.spec_contains(block_root) {
        Some(InvalidAttestation::UnknownHeadBlock { beacon_block_root: block_root })
    } else if !dag.spec_contains(target_root) {
        Some(InvalidAttestation::UnknownTargetRoot { target_root })
    } else {
        let a = dag.nodes@[dag.spec_ancestor_at(
            dag.spec_index_of(block_root),
            spec_start_slot(target_epoch, c) as u64,
        )].root;
        if a != target_root {
            Some(InvalidAttestation::HeadConflictsWithTarget { head_ancestor: a, target_root })
        } else {
            None
        }
    }
}

/// The vote table after every listed validator votes `(root, epoch)`,
/// in list order.
pub open spec fn spec_apply_votes(
    votes: Seq<Option<Vote>>,
    indices: Seq<usize>,
    root: u64,
    epoch: u64,
) -> Seq<Option<Vote>>
    decreases indices.len(),
{
    if indices.len() == 0 {
        votes
    } else {
        spec_vote_update(
            spec_apply_votes(votes, indices.drop_last(), root, epoch),
            indices.last() as int,
            root,
            epoch,
        )
    }
}

/// The queue after draining: exactly the attestations still in the future.
pub open spec fn spec_kept_queue(queue: Seq<QueuedAttestation>, slot: u64) -> Seq<
    QueuedAttestation,
>
    decreases queue.len(),
{
    if queue.len() == 0 {
        Seq::empty()
    } else {
        let prev = spec_kept_queue(queue.drop_last(), slot);
        if queue.last().slot > slot {
            prev.push(queue.last())
        } else {
            prev
        }
    }
}

/// The vote table after draining the queue at `slot`: each due attestation is
/// readmitted in order, the valid ones vote, the invalid ones are dropped.
pub open spec fn spec_drained_votes(
    dag: ProtoArray,
    votes: Seq<Option<Vote>>,
    queue: Seq<QueuedAttestation>,
    slot: u64,
    c: ChainConfig,
) -> Seq<Option<Vote>>
    decreases queue.len(),
{
    if queue.len() == 0 {
        votes
    } else {
        let prev = spec_drained_votes(dag, votes, queue.drop_last(), slot, c);
        let q = queue.last();
        if q.slot <= slot && spec_validate_attestation(
            dag,
            q.block_root,
            q.target_root,
            q.target_epoch,
            c,
        ) is None {
            spec_apply_votes(prev, q.attesting_indices@, q.block_root, q.target_epoch)
        } else {
            prev
        }
    }
}

/// Time never runs backwards: the slot the store lands on.
pub open spec fn spec_target_slot(current: u64, time: u64) -> u64 {
    if time > current {
        time
    } else {
        current
    }
}

/// What advancing the store's clock to `time` yields: the landing slot, the
/// justified checkpoint afterwards, and the justified balances afterwards —
/// or the lookup failure that stopped a promotion.
pub open spec fn spec_tick_outcome(s: ForkChoiceStore, time: u64) -> Result<
    (u64, Checkpoint, Seq<u64>),
    StoreError,
> {
    let t = spec_target_slot(s.current_slot, time);
    if s.spec_update_promotes(t) {
        match s.block_store.spec_balances_at(s.best_justified_checkpoint.root, s.config) {
            Ok(b) => Ok((t, s.best_justified_checkpoint, b)),
            Err(e) => Err(e),
        }
    } else {
        Ok((t, s.justified_checkpoint, s.justified_balances@))
    }
}

/// How a store that ticked to `time` relates to what it was.
pub open spec fn spec_store_ticked_to(
    pre: ForkChoiceStore,
    post: ForkChoiceStore,
    time: u64,
) -> bool {
    &&& spec_tick_outcome(pre, time) matches Ok(o) && post.current_slot == o.0
        && post.justified_checkpoint == o.1 && post.justified_balances@ == o.2
    &&& post.config == pre.config
    &&& post.block_store == pre.block_store
    &&& post.finalized_checkpoint == pre.finalized_checkpoint
    &&& post.best_justified_checkpoint == pre.best_justified_checkpoint
}

/// The slot the core sits at after `update_time(time)`.
pub open spec fn spec_mid_slot(pre: ForkChoice, time: u64) -> u64 {
    spec_target_slot(pre.fc_store.current_slot, time)
}

/// The vote table after `update_time(time)` drained the queue.
pub open spec fn spec_mid_votes(pre: ForkChoice, time: u64) -> Seq<Option<Vote>> {
    spec_drained_votes(
        pre.proto_array,
        pre.proto_array.votes@,
        pre.queued_attestations@,
        spec_mid_slot(pre, time),
        pre.fc_store.config,
    )
}

/// The queue after `update_time(time)` drained it.
pub open spec fn spec_mid_queue(pre: ForkChoice, time: u64) -> Seq<QueuedAttestation> {
    spec_kept_queue(pre.queued_attestations@, spec_mid_slot(pre, time))
}

/// How the whole core relates to what it was after `update_time(time)`:
/// the store ticked, the queue drained, the DAG blocks untouched.
pub open spec fn spec_time_updated(pre: ForkChoice, post: ForkChoice, time: u64) -> bool {
    &&& spec_store_ticked_to(pre.fc_store, post.fc_store, time)
    &&& post.proto_array.nodes == pre.proto_array.nodes
    &&& post.proto_array.votes@ == spec_mid_votes(pre, time)
    &&& post.queued_attestations@ == spec_mid_queue(pre, time)
    &&& post.genesis_block_root == pre.genesis_block_root
}

/// Attestation admission reads only the blocks of the DAG, so two DAGs with
/// the same blocks judge alike, whatever their votes.
pub proof fn lemma_validate_from_nodes(
    a: ProtoArray,
    b: ProtoArray,
    block_root: u64,
    target_root: u64,
    target_epoch: u64,
    c: ChainConfig,
)
    requires
        a.nodes == b.nodes,
        a.wf(),
    ensures
        spec_validate_attestation(a, block_root, target_root, target_epoch, c)
            == spec_validate_attestation(b, block_root, target_root, target_epoch, c),
{
    ProtoArray::lemma_lookup_from_nodes(a, b, block_root);
    ProtoArray::lemma_lookup_from_nodes(a, b, target_root);
    if a.spec_contains(block_root) {
        ProtoArray::lemma_ancestor_from_nodes(
            a,
            b,
            a.spec_index_of(block_root),
            spec_start_slot(target_epoch, c) as u64,
        );
    }
}

/// What a waiting attestation keeps of the original one.
pub open spec fn spec_queued_from(
    q: QueuedAttestation,
    a: IndexedAttestation,
    c: ChainConfig,
) -> bool {
    &&& q.slot == spec_start_slot(a.data.target.epoch, c)
    &&& q.attesting_indices@ == a.attesting_indices@
    &&& q.block_root == a.data.beacon_block_root
    &&& q.target_epoch == a.data.target.epoch
    &&& q.target_root == a.data.target.root
}

/// The typed rejection a block receives, if any, judged at slot `mid_slot`:
/// a block from the future, a block at or before the finalized slot, a block
/// with an unknown parent, or a block that does not descend from the
/// finalized checkpoint — in that order of precedence.
pub open spec fn spec_block_rejection(
    dag: ProtoArray,
    finalized: Checkpoint,
    mid_slot: u64,
    block: BeaconBlock,
    state: BeaconState,
    c: ChainConfig,
) -> Option<InvalidBlock>
    recommends
        dag.wf(),
{
    let fslot = spec_start_slot(finalized.epoch, c) as u64;
    if block.slot > mid_slot {
        Some(InvalidBlock::FutureSlot { block_slot: block.slot, current_slot: mid_slot })
    } else if block.slot <= fslot {
        Some(InvalidBlock::FinalizedSlot { block_slot: block.slot, finalized_slot: fslot })
    } else if !dag.spec_contains(block.parent_root) {
        Some(InvalidBlock::UnknownParent { parent_root: block.parent_root })
    } else {
        match spec_get_ancestor(dag, state, block.parent_root, fslot) {
            Ok(a) => if a != finalized.root {
                Some(
                    InvalidBlock::NotFinalizedDescendant {
                        block_ancestor: a,
                        finalized_root: finalized.root,
                    },
                )
            } else {
                None
            },
            Err(_) => None,
        }
    }
}

/// Whether the justified checkpoint moves to the one the state announces:
/// always when the state advances finality; otherwise only for a strictly
/// newer checkpoint that is safe to update — the slot lies in the opening
/// safe span of its epoch AND the new checkpoint descends from the current
/// justified one. The descendancy check can fail on a lookup.
pub open spec fn spec_adopt_justified(
    dag: ProtoArray,
    state: BeaconState,
    mid_justified: Checkpoint,
    mid_slot: u64,
    finality_advance: bool,
    c: ChainConfig,
) -> Result<bool, StoreError>
    recommends
        dag.wf(),
{
    let new_j = state.current_justified_checkpoint;
    if finality_advance {
        Ok(true)
    } else if new_j.epoch > mid_justified.epoch && spec_inside_safe_slots(mid_slot, c) {
        match spec_get_ancestor(
            dag,
            state,
            new_j.root,
            spec_start_slot(mid_justified.epoch, c) as u64,
        ) {
            Ok(a) => Ok(a == mid_justified.root),
            Err(e) => Err(e),
        }
    } else {
        Ok(false)
    }
}

impl ForkChoice {
    /// The store and DAG are well formed, and every queued attestation is
    /// still in the future — it is drained the moment it no longer is.
    pub open spec fn wf(self) -> bool {
        &&& self.fc_store.wf()
        &&& self.proto_array.wf()
        &&& forall|i: int|
            0 <= i < self.queued_attestations@.len() ==> (
            #[trigger] self.queued_attestations@[i]).slot > self.fc_store.current_slot
        &&& forall|i: int|
            0 <= i < self.queued_attestations@.len() ==> (
            #[trigger] self.queued_attestations@[i]).wf()
    }

    /// Decide whether an attestation for `block_root` with the given target
    /// may vote, as `spec_validate_attestation` lays out.
    fn validate_attestation_parts(
        dag: &ProtoArray,
        block_root: u64,
        target_root: u64,
        target_epoch: u64,
        c: &ChainConfig,
    ) -> (r: Option<InvalidAttestation>)
        requires
            dag.wf(),
        ensures
            r == spec_validate_attestation(*dag, block_root, target_root, target_epoch, *c),
    {
        let bi = match dag.find_index(block_root) {
            Some(bi) => bi,
            None => {
                return Some(InvalidAttestation::UnknownHeadBlock { beacon_block_root: block_root });
            },
        };
        if !dag.contains_block(target_root) {
            return Some(InvalidAttestation::UnknownTargetRoot { target_root });
        }
        let ts = start_slot_of_epoch(target_epoch, c);
        let a = dag.ancestor_at(bi, ts);
        let ar = dag.nodes[a].root;
        if ar != target_root {
            Some(InvalidAttestation::HeadConflictsWithTarget { head_ancestor: ar, target_root })
        } else {
            None
        }
    }

    /// Let every validator listed in a due attestation vote.
    fn apply_votes(&mut self, indices: &Vec<usize>, block_root: u64, target_epoch: u64)
        requires
            forall|i: int| 0 <= i < indices@.len() ==> (#[trigger] indices@[i]) < usize::MAX,
        ensures
            final(self).proto_array.nodes == old(self).proto_array.nodes,
            final(self).proto_array.votes@ == spec_apply_votes(
                old(self).proto_array.votes@,
                indices@,
                block_root,
                target_epoch,
            ),
            final(self).fc_store == old(self).fc_store,
            final(self).queued_attestations == old(self).queued_attestations,
            final(self).genesis_block_root == old(self).genesis_block_root,
    {
        let mut j: usize = 0;
        while j < indices.len()
            invariant
                j <= indices@.len(),
                forall|i: int| 0 <= i < indices@.len() ==> (#[trigger] indices@[i]) < usize::MAX,
                self.proto_array.nodes == old(self).proto_array.nodes,
                self.proto_array.votes@ == spec_apply_votes(
                    old(self).proto_array.votes@,
                    indices@.take(j as int),
                    block_root,
                    target_epoch,
                ),
                self.fc_store == old(self).fc_store,
                self.queued_attestations == old(self).queued_attestations,
                self.genesis_block_root == old(self).genesis_block_root,
            decreases indices@.len() - j,
        {
            let idx = indices[j];
            self.proto_array.on_new_vote(idx, block_root, target_epoch);
            proof {
                assert(indices@.take(j + 1).drop_last() =~= indices@.take(j as int));
                assert(indices@.take(j + 1).last() == indices@[j as int]);
            }
            j = j + 1;
        }
        proof {
            assert(indices@.take(indices@.len() as int) =~= indices@);
        }
    }

    /// Readmit every queued attestation whose target slot has arrived, in
    /// arrival order; the valid ones vote, the invalid ones are dropped, the
    /// rest stay queued.
    fn process_attestation_queue(&mut self)
        requires
            old(self).proto_array.wf(),
            old(self).fc_store.config.wf(),
            forall|i: int|
                0 <= i < old(self).queued_attestations@.len() ==> (
                #[trigger] old(self).queued_attestations@[i]).wf(),
        ensures
            final(self).fc_store == old(self).fc_store,
            final(self).genesis_block_root == old(self).genesis_block_root,
            final(self).proto_array.nodes == old(self).proto_array.nodes,
            final(self).proto_array.wf(),
            final(self).proto_array.votes@ == spec_drained_votes(
                old(self).proto_array,
                old(self).proto_array.votes@,
                old(self).queued_attestations@,
                old(self).fc_store.current_slot,
                old(self).fc_store.config,
            ),
            final(self).queued_attestations@ == spec_kept_queue(
                old(self).queued_attestations@,
                old(self).fc_store.current_slot,
            ),
            forall|i: int|
                0 <= i < final(self).queued_attestations@.len() ==> (
                #[trigger] final(self).queued_attestations@[i]).slot > old(
                    self,
                ).fc_store.current_slot,
            forall|i: int|
                0 <= i < final(self).queued_attestations@.len() ==> (
                #[trigger] final(self).queued_attestations@[i]).wf(),
    {
        let ghost dag0 = self.proto_array;
        let ghost votes0 = self.proto_array.votes@;
        let ghost q0 = self.queued_attestations@;
        let slot = self.fc_store.current_slot;
        let cfg = self.fc_store.config;
        let mut pending: Vec<QueuedAttestation> = Vec::new();
        core::mem::swap(&mut pending, &mut self.queued_attestations);
        let ghost total = q0.len();
        while pending.len() > 0
            invariant
                self.proto_array.wf(),
                self.fc_store == old(self).fc_store,
                self.genesis_block_root == old(self).genesis_block_root,
                self.proto_array.nodes == dag0.nodes,
                dag0.wf(),
                cfg == old(self).fc_store.config,
                cfg.wf(),
                slot == old(self).fc_store.current_slot,
                q0.len() == total,
                pending@.len() <= total,
                pending@ == q0.skip(total - pending@.len()),
                forall|i: int| 0 <= i < q0.len() ==> (#[trigger] q0[i]).wf(),
                self.proto_array.votes@ == spec_drained_votes(
                    dag0,
                    votes0,
                    q0.take(total - pending@.len()),
                    slot,
                    cfg,
                ),
                self.queued_attestations@ == spec_kept_queue(
                    q0.take(total - pending@.len()),
                    slot,
                ),
                forall|i: int|
                    0 <= i < self.queued_attestations@.len() ==> (
                    #[trigger] self.queued_attestations@[i]).slot > slot,
                forall|i: int|
                    0 <= i < self.queued_attestations@.len() ==> (
                    #[trigger] self.queued_attestations@[i]).wf(),
            decreases pending@.len(),
        {
            let ghost k = total - pending@.len();
            let q = pending.remove(0);
            proof {
                assert(q == q0[k]);
                assert(pending@ =~= q0.skip(k + 1));
                assert(q0.take(k + 1).drop_last() =~= q0.take(k));
                assert(q0.take(k + 1).last() == q0[k]);
            }
            if q.slot <= slot {
                let verdict = ForkChoice::validate_attestation_parts(
                    &self.proto_array,
                    q.block_root,
                    q.target_root,
                    q.target_epoch,
                    &cfg,
                );
                proof {
                    lemma_validate_from_nodes(
                        dag0,
                        self.proto_array,
                        q.block_root,
                        q.target_root,
                        q.target_epoch,
                        cfg,
                    );
                }
                if verdict.is_none() {
                    self.apply_votes(&q.attesting_indices, q.block_root, q.target_epoch);
                }
            } else {
                self.queued_attestations.push(q);
            }
        }
        proof {
            assert(q0.take(total as int) =~= q0);
        }
    }

    /// Bring the store's clock up to `time` — ticking through every
    /// intervening slot, so a tick that lands on an epoch boundary with a
    /// better justified checkpoint waiting promotes it — and drain the
    /// attestations that have come due. The clock never moves backwards.
    pub fn update_time(&mut self, time: u64) -> (r: Result<(), Error>)
        requires
            old(self).wf(),
        ensures
            match r {
                Ok(()) => spec_time_updated(*old(self), *final(self), time) && final(self).wf()
                    && final(self).fc_store.current_slot >= old(self).fc_store.current_slot,
                Err(e) => *final(self) == *old(self) && (e matches Error::ForkChoiceStoreError(se)
                    && spec_tick_outcome(old(self).fc_store, time) == Err::<
                    (u64, Checkpoint, Seq<u64>),
                    StoreError,
                >(se)),
            },
    {
        let target: u64 = if time > self.fc_store.current_slot {
            time
        } else {
            self.fc_store.current_slot
        };
        match self.fc_store.update_time(target) {
            Ok(()) => {},
            Err(e) => {
                return Err(Error::ForkChoiceStoreError(e));
            },
        }
        self.process_attestation_queue();
        Ok(())
    }

    /// Build the fork chooser from the genesis snapshot: the store starts at
    /// the genesis slot with all three checkpoints at the genesis block, and
    /// the DAG holds that one block.
    pub fn from_genesis(
        config: ChainConfig,
        genesis_block_root: u64,
        genesis_block: &BeaconBlock,
        genesis_state: BeaconState,
    ) -> (r: Result<ForkChoice, Error>)
        requires
            config.wf(),
        ensures
            r matches Ok(fc) && {
                &&& fc.wf()
                &&& fc.genesis_block_root == genesis_block_root
                &&& fc.fc_store.config == config
                &&& fc.fc_store.current_slot == genesis_state.slot
                &&& fc.fc_store.justified_checkpoint.root == genesis_block_root
                &&& fc.fc_store.justified_checkpoint.epoch == spec_epoch_of(
                    genesis_state.slot,
                    config,
                )
                &&& fc.fc_store.best_justified_checkpoint == fc.fc_store.justified_checkpoint
                &&& fc.fc_store.finalized_checkpoint == fc.fc_store.justified_checkpoint
                &&& fc.fc_store.justified_balances@ == spec_effective_balances(
                    genesis_state,
                    config,
                )
                &&& fc.proto_array.nodes@.len() == 1
                &&& fc.proto_array.nodes@[0].root == genesis_block_root
                &&& fc.proto_array.nodes@[0].slot == genesis_block.slot
                &&& fc.proto_array.nodes@[0].parent is None
                &&& fc.proto_array.votes@.len() == 0
                &&& fc.queued_attestations@.len() == 0
            },
    {
        let slot = genesis_block.slot;
        let state_root = genesis_block.state_root;
        let j_epoch = epoch_of_slot(genesis_state.slot, &config);
        let fc_store = ForkChoiceStore::from_genesis(
            config,
            genesis_block_root,
            genesis_block,
            genesis_state,
        );
        let mut proto_array = ProtoArray::new();
        proto_array.on_new_block(genesis_block_root, None, slot, state_root, j_epoch, j_epoch);
        Ok(
            ForkChoice {
                fc_store,
                proto_array,
                queued_attestations: Vec::new(),
                genesis_block_root,
            },
        )
    }

    /// Admit an attestation whose signature was checked upstream. A vote for
    /// a future target slot waits in the queue; a due vote is admitted only
    /// for a known block descending from a known target, and then updates
    /// each listed validator's latest message.
    pub fn process_indexed_attestation(
        &mut self,
        current_slot: u64,
        attestation: &IndexedAttestation,
    ) -> (r: Result<(), Error>)
        requires
            old(self).wf(),
            attestation.wf(),
        ensures
            final(self).wf(),
            final(self).genesis_block_root == old(self).genesis_block_root,
            final(self).fc_store.config == old(self).fc_store.config,
            final(self).fc_store.current_slot >= old(self).fc_store.current_slot,
            final(self).fc_store.finalized_checkpoint == old(self).fc_store.finalized_checkpoint,
            final(self).proto_array.nodes == old(self).proto_array.nodes,
            match r {
                Ok(()) => {
                    &&& spec_store_ticked_to(
                        old(self).fc_store,
                        final(self).fc_store,
                        current_slot,
                    )
                    &&& ({
                        let c = old(self).fc_store.config;
                        let ts = spec_start_slot(attestation.data.target.epoch, c);
                        let mid_slot = spec_mid_slot(*old(self), current_slot);
                        if ts > mid_slot {
                            &&& final(self).proto_array.votes@ == spec_mid_votes(
                                *old(self),
                                current_slot,
                            )
                            &&& final(self).queued_attestations@.len() == spec_mid_queue(
                                *old(self),
                                current_slot,
                            ).len() + 1
                            &&& final(self).queued_attestations@.drop_last() == spec_mid_queue(
                                *old(self),
                                current_slot,
                            )
                            &&& spec_queued_from(
                                final(self).queued_attestations@.last(),
                                *attestation,
                                c,
                            )
                        } else {
                            &&& spec_validate_attestation(
                                old(self).proto_array,
                                attestation.data.beacon_block_root,
                                attestation.data.target.root,
                                attestation.data.target.epoch,
                                c,
                            ) is None
                            &&& final(self).proto_array.votes@ == spec_apply_votes(
                                spec_mid_votes(*old(self), current_slot),
                                attestation.attesting_indices@,
                                attestation.data.beacon_block_root,
                                attestation.data.target.epoch,
                            )
                            &&& final(self).queued_attestations@ == spec_mid_queue(
                                *old(self),
                                current_slot,
                            )
                        }
                    })
                },
                Err(e) => match e {
                    Error::InvalidAttestation(v) => {
                        &&& spec_time_updated(*old(self), *final(self), current_slot)
                        &&& spec_start_slot(
                            attestation.data.target.epoch,
                            old(self).fc_store.config,
                        ) <= spec_mid_slot(*old(self), current_slot)
                        &&& Some(v) == spec_validate_attestation(
                            old(self).proto_array,
                            attestation.data.beacon_block_root,
                            attestation.data.target.root,
                            attestation.data.target.epoch,
                            old(self).fc_store.config,
                        )
                    },
                    Error::ForkChoiceStoreError(se) => *final(self) == *old(self)
                        && spec_tick_outcome(old(self).fc_store, current_slot) == Err::<
                        (u64, Checkpoint, Seq<u64>),
                        StoreError,
                    >(se),
                    _ => false,
                },
            },
    {
        let ghost pre = *self;
        self.update_time(current_slot)?;
        let c = self.fc_store.config;
        let target = attestation.data.target;
        let ts = start_slot_of_epoch(target.epoch, &c);
        if ts > self.fc_store.current_slot {
            let q = QueuedAttestation {
                slot: ts,
                attesting_indices: copy_indices(&attestation.attesting_indices),
                block_root: attestation.data.beacon_block_root,
                target_epoch: target.epoch,
                target_root: target.root,
            };
            self.queued_attestations.push(q);
            proof {
                assert(self.queued_attestations@.drop_last() =~= spec_mid_queue(
                    pre,
                    current_slot,
                ));
            }
            return Ok(());
        }
        let verdict = ForkChoice::validate_attestation_parts(
            &self.proto_array,
            attestation.data.beacon_block_root,
            target.root,
            target.epoch,
            &c,
        );
        proof {
            lemma_validate_from_nodes(
                pre.proto_array,
                self.proto_array,
                attestation.data.beacon_block_root,
                target.root,
                target.epoch,
                c,
            );
        }
        match verdict {
            Some(v) => Err(Error::InvalidAttestation(v)),
            None => {
                self.apply_votes(
                    &attestation.attesting_indices,
                    attestation.data.beacon_block_root,
                    target.epoch,
                );
                Ok(())
            },
        }
    }

    /// Admit a block whose contents were validated upstream. The block must
    /// not come from the future, must sit strictly past the finalized slot,
    /// and must descend from the finalized checkpoint through a known parent;
    /// an admitted block may move the justified and finalized checkpoints and
    /// always joins the DAG. The opening time update drains every due
    /// attestation, and admitting a block makes none newly due — eligibility
    /// depends on the slot alone — so no second drain is needed afterwards.
    pub fn process_block(
        &mut self,
        current_slot: u64,
        state: &BeaconState,
        block: &BeaconBlock,
        block_root: u64,
    ) -> (r: Result<(), Error>)
        requires
            old(self).wf(),
            state.wf(),
        ensures
            final(self).wf(),
            final(self).genesis_block_root == old(self).genesis_block_root,
            final(self).fc_store.config == old(self).fc_store.config,
            final(self).fc_store.current_slot >= old(self).fc_store.current_slot,
            final(self).fc_store.finalized_checkpoint.epoch >= old(
                self,
            ).fc_store.finalized_checkpoint.epoch,
            match r {
                Ok(()) => spec_tick_outcome(old(self).fc_store, current_slot) matches Ok(mid) && {
                    let c = old(self).fc_store.config;
                    let ms = mid.0;
                    let mj = mid.1;
                    let fin0 = old(self).fc_store.finalized_checkpoint;
                    let new_j = state.current_justified_checkpoint;
                    let fa = state.finalized_checkpoint.epoch > fin0.epoch;
                    &&& spec_block_rejection(
                        old(self).proto_array,
                        fin0,
                        ms,
                        *block,
                        *state,
                        c,
                    ) is None
                    &&& spec_adopt_justified(
                        old(self).proto_array,
                        *state,
                        mj,
                        ms,
                        fa,
                        c,
                    ) matches Ok(adopt) && {
                        &&& final(self).fc_store.current_slot == ms
                        &&& final(self).fc_store.justified_checkpoint == (if adopt {
                            new_j
                        } else {
                            mj
                        })
                        &&& (adopt ==> (old(self).fc_store.block_store.spec_balances_at(
                            new_j.root,
                            c,
                        ) matches Ok(b) && final(self).fc_store.justified_balances@ == b))
                        &&& (!adopt ==> final(self).fc_store.justified_balances@ == mid.2)
                        &&& final(self).fc_store.best_justified_checkpoint == (if new_j.epoch
                            > old(self).fc_store.best_justified_checkpoint.epoch {
                            new_j
                        } else {
                            old(self).fc_store.best_justified_checkpoint
                        })
                        &&& final(self).fc_store.finalized_checkpoint == (if fa {
                            state.finalized_checkpoint
                        } else {
                            fin0
                        })
                        &&& final(self).proto_array.votes@ == spec_mid_votes(
                            *old(self),
                            current_slot,
                        )
                        &&& final(self).queued_attestations@ == spec_mid_queue(
                            *old(self),
                            current_slot,
                        )
                        &&& (old(self).proto_array.spec_contains(block_root)
                            ==> final(self).proto_array.nodes == old(self).proto_array.nodes)
                        &&& (!old(self).proto_array.spec_contains(block_root)
                            ==> final(self).proto_array.nodes@ == old(self).proto_array.nodes@.push(
                            ProtoNode {
                                root: block_root,
                                parent: old(self).proto_array.spec_parent_index(
                                    Some(block.parent_root),
                                ),
                                slot: block.slot,
                                state_root: block.state_root,
                                justified_epoch: state.current_justified_checkpoint.epoch,
                                finalized_epoch: state.finalized_checkpoint.epoch,
                            },
                        ))
                        &&& final(self).fc_store.block_store.spec_has_block(block_root)
                        &&& final(self).fc_store.block_store.spec_has_state(block.state_root)
                    }
                },
                Err(e) => match e {
                    Error::InvalidBlock(ib) => spec_time_updated(
                        *old(self),
                        *final(self),
                        current_slot,
                    ) && Some(ib) == spec_block_rejection(
                        old(self).proto_array,
                        old(self).fc_store.finalized_checkpoint,
                        spec_mid_slot(*old(self), current_slot),
                        *block,
                        *state,
                        old(self).fc_store.config,
                    ),
                    Error::ForkChoiceStoreError(se) => (*final(self) == *old(self)
                        && spec_tick_outcome(old(self).fc_store, current_slot) == Err::<
                        (u64, Checkpoint, Seq<u64>),
                        StoreError,
                    >(se)) || (spec_time_updated(*old(self), *final(self), current_slot)
                        && (spec_tick_outcome(old(self).fc_store, current_slot) matches Ok(mid)
                        && spec_block_rejection(
                        old(self).proto_array,
                        old(self).fc_store.finalized_checkpoint,
                        mid.0,
                        *block,
                        *state,
                        old(self).fc_store.config,
                    ) is None && {
                        let fa = state.finalized_checkpoint.epoch > old(
                            self,
                        ).fc_store.finalized_checkpoint.epoch;
                        let d = spec_adopt_justified(
                            old(self).proto_array,
                            *state,
                            mid.1,
                            mid.0,
                            fa,
                            old(self).fc_store.config,
                        );
                        ||| d == Err::<bool, StoreError>(se)
                        ||| (d == Ok::<bool, StoreError>(true) && old(
                            self,
                        ).fc_store.block_store.spec_balances_at(
                            state.current_justified_checkpoint.root,
                            old(self).fc_store.config,
                        ) == Err::<Seq<u64>, StoreError>(se))
                    })),
                    _ => false,
                },
            },
    {
        let ghost pre = *self;
        self.update_time(current_slot)?;
        let c = self.fc_store.config;
        let cs = self.fc_store.current_slot;
        if block.slot > cs {
            return Err(
                Error::InvalidBlock(
                    InvalidBlock::FutureSlot { block_slot: block.slot, current_slot: cs },
                ),
            );
        }
        let fin = self.fc_store.finalized_checkpoint;
        let fslot = start_slot_of_epoch(fin.epoch, &c);
        if block.slot <= fslot {
            return Err(
                Error::InvalidBlock(
                    InvalidBlock::FinalizedSlot { block_slot: block.slot, finalized_slot: fslot },
                ),
            );
        }
        if !self.proto_array.contains_block(block.parent_root) {
            proof {
                ProtoArray::lemma_lookup_from_nodes(
                    pre.proto_array,
                    self.proto_array,
                    block.parent_root,
                );
            }
            return Err(
                Error::InvalidBlock(InvalidBlock::UnknownParent { parent_root: block.parent_root }),
            );
        }
        proof {
            lemma_get_ancestor_from_nodes(
                pre.proto_array,
                self.proto_array,
                *state,
                block.parent_root,
                fslot,
            );
            ProtoArray::lemma_lookup_from_nodes(
                pre.proto_array,
                self.proto_array,
                block.parent_root,
            );
        }
        let ancestor = match get_ancestor(&self.proto_array, state, block.parent_root, fslot) {
            Ok(a) => a,
            Err(e) => {
                return Err(Error::ForkChoiceStoreError(e));
            },
        };
        if ancestor != fin.root {
            return Err(
                Error::InvalidBlock(
                    InvalidBlock::NotFinalizedDescendant {
                        block_ancestor: ancestor,
                        finalized_root: fin.root,
                    },
                ),
            );
        }
        let new_j = state.current_justified_checkpoint;
        let finality_advance = state.finalized_checkpoint.epoch > fin.epoch;
        let adopt: bool = if finality_advance {
            true
        } else if new_j.epoch > self.fc_store.justified_checkpoint.epoch && inside_safe_slots(
            cs,
            &c,
        ) {
            let js = start_slot_of_epoch(self.fc_store.justified_checkpoint.epoch, &c);
            proof {
                lemma_get_ancestor_from_nodes(
                    pre.proto_array,
                    self.proto_array,
                    *state,
                    new_j.root,
                    js,
                );
            }
            match get_ancestor(&self.proto_array, state, new_j.root, js) {
                Ok(a) => a == self.fc_store.justified_checkpoint.root,
                Err(e) => {
                    return Err(Error::ForkChoiceStoreError(e));
                },
            }
        } else {
            false
        };
        if adopt {
            match self.fc_store.set_justified_checkpoint(state) {
                Ok(()) => {},
                Err(e) => {
                    return Err(Error::ForkChoiceStoreError(e));
                },
            }
        }
        if new_j.epoch > self.fc_store.best_justified_checkpoint.epoch {
            self.fc_store.set_best_justified_checkpoint(state);
        }
        if finality_advance {
            self.fc_store.set_finalized_checkpoint(state.finalized_checkpoint);
        }
        self.fc_store.block_store.put_block(block_root, *block);
        let dup = state.duplicate();
        self.fc_store.block_store.put_state(block.state_root, dup);
        proof {
            ProtoArray::lemma_lookup_from_nodes(pre.proto_array, self.proto_array, block_root);
            ProtoArray::lemma_lookup_from_nodes(
                pre.proto_array,
                self.proto_array,
                block.parent_root,
            );
        }
        self.proto_array.on_new_block(
            block_root,
            Some(block.parent_root),
            block.slot,
            block.state_root,
            state.current_justified_checkpoint.epoch,
            state.finalized_checkpoint.epoch,
        );
        Ok(())
    }

    /// Run the fork-choice rule: bring time up to date, drain due
    /// attestations, and walk the DAG from the justified checkpoint along
    /// heaviest children, weighted by the justified balances.
    pub fn find_head(&mut self, current_slot: u64) -> (r: Result<u64, Error>)
        requires
            old(self).wf(),
        ensures
            final(self).wf(),
            final(self).genesis_block_root == old(self).genesis_block_root,
            final(self).fc_store.config == old(self).fc_store.config,
            final(self).fc_store.current_slot >= old(self).fc_store.current_slot,
            final(self).fc_store.finalized_checkpoint == old(self).fc_store.finalized_checkpoint,
            final(self).proto_array.nodes == old(self).proto_array.nodes,
            match r {
                Ok(h) => spec_time_updated(*old(self), *final(self), current_slot)
                    && final(self).proto_array.spec_contains(
                    final(self).fc_store.justified_checkpoint.root,
                ) && ({
                    let dag = final(self).proto_array;
                    let jidx = dag.spec_index_of(final(self).fc_store.justified_checkpoint.root);
                    let head = dag.spec_head_from(
                        final(self).fc_store.justified_balances@,
                        jidx,
                    );
                    &&& h == dag.nodes@[head].root
                    &&& dag.spec_is_desc(jidx, head)
                    &&& dag.spec_best_child(final(self).fc_store.justified_balances@, head)
                        is None
                }),
                Err(e) => match e {
                    Error::BackendError(pe) => spec_time_updated(
                        *old(self),
                        *final(self),
                        current_slot,
                    ) && !final(self).proto_array.spec_contains(
                        final(self).fc_store.justified_checkpoint.root,
                    ) && pe == (ProtoArrayError::JustifiedNodeUnknown {
                        root: final(self).fc_store.justified_checkpoint.root,
                    }),
                    Error::ForkChoiceStoreError(se) => *final(self) == *old(self)
                        && spec_tick_outcome(old(self).fc_store, current_slot) == Err::<
                        (u64, Checkpoint, Seq<u64>),
                        StoreError,
                    >(se),
                    _ => false,
                },
            },
    {
        self.update_time(current_slot)?;
        match self.proto_array.find_head(
            self.fc_store.justified_checkpoint.root,
            &self.fc_store.justified_balances,
        ) {
            Ok(h) => Ok(h),
            Err(pe) => Err(Error::BackendError(pe)),
        }
    }

    /// Whether a block with this root is known to fork choice.
    pub fn contains_block(&self, block_root: u64) -> (r: bool)
        requires
            self.wf(),
        ensures
            r == self.proto_array.spec_contains(block_root),
    {
        self.proto_array.contains_block(block_root)
    }

    /// The slot and state root of a known block.
    pub fn block_slot_and_state_root(&self, block_root: u64) -> (r: Option<(u64, u64)>)
        requires
            self.wf(),
        ensures
            match r {
                Some(p) => self.proto_array.spec_contains(block_root) && p.0
                    == self.proto_array.nodes@[self.proto_array.spec_index_of(block_root)].slot
                    && p.1 == self.proto_array.nodes@[self.proto_array.spec_index_of(
                    block_root,
                )].state_root,
                None => !self.proto_array.spec_contains(block_root),
            },
    {
        match self.proto_array.get_block(block_root) {
            Some(n) => Some((n.slot, n.state_root)),
            None => None,
        }
    }

    /// The latest message of a validator, as `(block_root, target_epoch)`.
    pub fn latest_message(&self, validator_index: usize) -> (r: Option<(u64, u64)>)
        ensures
            r == self.proto_array.spec_latest_message(validator_index as int),
    {
        self.proto_array.latest_message(validator_index)
    }

    /// Drop every block that does not descend from the finalized checkpoint.
    pub fn prune(&mut self) -> (r: Result<(), Error>)
        requires
            old(self).wf(),
        ensures
            final(self).wf(),
            final(self).fc_store == old(self).fc_store,
            final(self).queued_attestations == old(self).queued_attestations,
            final(self).genesis_block_root == old(self).genesis_block_root,
            final(self).proto_array.votes == old(self).proto_array.votes,
            match r {
                Ok(()) => old(self).proto_array.spec_contains(
                    old(self).fc_store.finalized_checkpoint.root,
                ) && spec_pruned_to(
                    old(self).proto_array,
                    final(self).proto_array,
                    old(self).fc_store.finalized_checkpoint.root,
                ),
                Err(e) => final(self).proto_array == old(self).proto_array && !old(
                    self,
                ).proto_array.spec_contains(old(self).fc_store.finalized_checkpoint.root) && e == (
                Error::BackendError(
                    ProtoArrayError::FinalizedNodeUnknown {
                        root: old(self).fc_store.finalized_checkpoint.root,
                    },
                )),
            },
    {
        match self.proto_array.maybe_prune(self.fc_store.finalized_checkpoint.root) {
            Ok(()) => Ok(()),
            Err(pe) => Err(Error::BackendError(pe)),
        }
    }

    /// Read access to the DAG engine.
    pub fn backend(&self) -> (r: &ProtoArray)
        ensures
            r == &self.proto_array,
    {
        &self.proto_array
    }
}

} // verus!
