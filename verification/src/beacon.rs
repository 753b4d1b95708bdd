//! Plain-value models of the chain data the fork-choice logic reads: blocks,
//! states, the validator registry, and the effective-balance derivation.

use vstd::prelude::*;

use crate::config::{ChainConfig, Checkpoint, spec_epoch_of, epoch_of_slot};

verus! {

/// The registry entry of one validator, reduced to what balance derivation reads.
#[derive(Clone, Copy, PartialEq, Eq, Structural, Debug)]
pub struct Validator {
    pub effective_balance: u64,
    pub activation_epoch: u64,
    pub exit_epoch: u64,
}

impl Validator {
    /// A validator is active at `epoch` from activation (inclusive) to exit
    /// (exclusive).
    pub open spec fn spec_is_active_at(self, epoch: u64) -> bool {
        self.activation_epoch <= epoch < self.exit_epoch
    }

    /// Whether the validator is active at `epoch`.
    pub fn is_active_at(&self, epoch: u64) -> (r: bool)
        ensures
            r == self.spec_is_active_at(epoch),
    {
        self.activation_epoch <= epoch && epoch < self.exit_epoch
    }
}

/// The fork-choice-relevant fields of a beacon block.
#[derive(Clone, Copy, PartialEq, Eq, Structural, Debug)]
pub struct BeaconBlock {
    pub slot: u64,
    pub parent_root: u64,
    pub state_root: u64,
}

/// The fork-choice-relevant fields of a beacon state: its slot, the two
/// checkpoints it announces, its recent block-root history, and the registry.
#[derive(PartialEq, Eq, Debug)]
pub struct BeaconState {
    pub slot: u64,
    pub current_justified_checkpoint: Checkpoint,
    pub finalized_checkpoint: Checkpoint,
    /// Circular buffer of recent block roots: the root of the block at slot
    /// `s` lives at index `s % block_roots.len()` while `s` is recent enough.
    pub block_roots: Vec<u64>,
    pub validators: Vec<Validator>,
}

impl BeaconState {
    /// The epoch the state currently sits in.
    pub open spec fn spec_current_epoch(self, c: ChainConfig) -> int {
        spec_epoch_of(self.slot, c)
    }

    /// A state announces checkpoints in order: it never finalizes past what it
    /// justifies. Upstream block validation guarantees this.
    pub open spec fn wf(self) -> bool {
        self.finalized_checkpoint.epoch <= self.current_justified_checkpoint.epoch
    }

    /// The epoch the state currently sits in.
    pub fn current_epoch(&self, c: &ChainConfig) -> (e: u64)
        requires
            c.wf(),
        ensures
            e == self.spec_current_epoch(*c),
    {
        epoch_of_slot(self.slot, c)
    }
}

/// Copy a vector of plain values.
pub fn copy_vec<T: Copy>(v: &Vec<T>) -> (r: Vec<T>)
    ensures
        r@ == v@,
{
    let mut r: Vec<T> = Vec::new();
    let mut i: usize = 0;
    while i < v.len()
        invariant
            i <= v@.len(),
            r@ == v@.take(i as int),
        decreases v@.len() - i,
    {
        r.push(v[i]);
        proof {
            assert(r@ =~= v@.take(i + 1));
        }
        i = i + 1;
    }
    proof {
        assert(r@ =~= v@);
    }
    r
}

impl BeaconState {
    /// An exact copy of the state, field for field.
    pub fn duplicate(&self) -> (r: BeaconState)
        ensures
            r.slot == self.slot,
            r.current_justified_checkpoint == self.current_justified_checkpoint,
            r.finalized_checkpoint == self.finalized_checkpoint,
            r.block_roots@ == self.block_roots@,
            r.validators@ == self.validators@,
    {
        BeaconState {
            slot: self.slot,
            current_justified_checkpoint: self.current_justified_checkpoint,
            finalized_checkpoint: self.finalized_checkpoint,
            block_roots: copy_vec(&self.block_roots),
            validators: copy_vec(&self.validators),
        }
    }
}

/// The balance a validator contributes to fork choice at `epoch`: its
/// effective balance while active, nothing otherwise.
pub open spec fn spec_contribution(v: Validator, epoch: u64) -> u64 {
    if v.spec_is_active_at(epoch) {
        v.effective_balance
    } else {
        0
    }
}

/// The justified-balance vector derived from `state`: one entry per registry
/// slot, in registry order, counting only validators active at the state's
/// current epoch.
pub open spec fn spec_effective_balances(state: BeaconState, c: ChainConfig) -> Seq<u64> {
    Seq::new(
        state.validators@.len(),
        |i: int| spec_contribution(state.validators@[i], (state.slot / c.slots_per_epoch) as u64),
    )
}

/// Derive the justified-balance vector from `state`.
pub fn effective_balances(state: &BeaconState, c: &ChainConfig) -> (r: Vec<u64>)
    requires
        c.wf(),
    ensures
        r@ == spec_effective_balances(*state, *c),
{
    let epoch = state.current_epoch(c);
    let mut r: Vec<u64> = Vec::new();
    let mut i: usize = 0;
    while i < state.validators.len()
        invariant
            i <= state.validators.len(),
            c.wf(),
            epoch == state.spec_current_epoch(*c),
            r@ == spec_effective_balances(*state, *c).take(i as int),
        decreases state.validators.len() - i,
    {
        let v = state.validators[i];
        if v.is_active_at(epoch) {
            r.push(v.effective_balance);
        } else {
            r.push(0);
        }
        proof {
            assert(r@ =~= spec_effective_balances(*state, *c).take(i + 1));
        }
        i = i + 1;
    }
    proof {
        assert(r@ =~= spec_effective_balances(*state, *c));
    }
    r
}

} // verus!
