//! Protocol time units and the injected chain configuration.

use vstd::prelude::*;

verus! {

/// Number of slots in an epoch on mainnet.
pub const MAINNET_SLOTS_PER_EPOCH: u64 = 32;

/// Number of slots at the start of each epoch during which the justified
/// checkpoint may be updated without the descendancy check.
pub const SAFE_SLOTS_TO_UPDATE_JUSTIFIED: u64 = 8;

/// The protocol constants the fork-choice rules depend on.
#[derive(Clone, Copy, PartialEq, Eq, Structural, Debug)]
pub struct ChainConfig {
    pub slots_per_epoch: u64,
    pub safe_slots_to_update_justified: u64,
}

/// A checkpoint commits to the block at the first slot of an epoch.
#[derive(Clone, Copy, PartialEq, Eq, Structural, Debug)]
pub struct Checkpoint {
    pub epoch: u64,
    /// Identifier of the block the checkpoint commits to.
    pub root: u64,
}

impl ChainConfig {
    /// A configuration is usable when epochs are non-empty.
    pub open spec fn wf(self) -> bool {
        self.slots_per_epoch > 0
    }

    /// Mainnet parameters.
    pub fn mainnet() -> (c: ChainConfig)
        ensures
            c.wf(),
            c.slots_per_epoch == MAINNET_SLOTS_PER_EPOCH,
            c.safe_slots_to_update_justified == SAFE_SLOTS_TO_UPDATE_JUSTIFIED,
    {
        ChainConfig {
            slots_per_epoch: MAINNET_SLOTS_PER_EPOCH,
            safe_slots_to_update_justified: SAFE_SLOTS_TO_UPDATE_JUSTIFIED,
        }
    }
}

/// The epoch containing `slot`.
pub open spec fn spec_epoch_of(slot: u64, c: ChainConfig) -> int
    recommends
        c.wf(),
{
    slot as int / c.slots_per_epoch as int
}

/// The first slot of `epoch`, saturating at the largest representable slot.
pub open spec fn spec_start_slot(epoch: u64, c: ChainConfig) -> int {
    if epoch * c.slots_per_epoch <= u64::MAX {
        epoch * c.slots_per_epoch
    } else {
        u64::MAX as int
    }
}

/// How far `slot` is into its epoch.
pub open spec fn spec_slots_since_epoch_start(slot: u64, c: ChainConfig) -> int
    recommends
        c.wf(),
{
    slot as int % c.slots_per_epoch as int
}

/// Whether `slot` lies in the opening span of its epoch during which the
/// justified checkpoint may move without the descendancy check.
pub open spec fn spec_inside_safe_slots(slot: u64, c: ChainConfig) -> bool
    recommends
        c.wf(),
{
    spec_slots_since_epoch_start(slot, c) < c.safe_slots_to_update_justified
}

/// The epoch containing `slot`.
pub fn epoch_of_slot(slot: u64, c: &ChainConfig) -> (e: u64)
    requires
        c.wf(),
    ensures
        e == spec_epoch_of(slot, *c),
{
    slot / c.slots_per_epoch
}

/// The first slot of `epoch`, saturating on overflow.
pub fn start_slot_of_epoch(epoch: u64, c: &ChainConfig) -> (s: u64)
    ensures
        s == spec_start_slot(epoch, *c),
{
    if c.slots_per_epoch == 0 {
        0
    } else if epoch <= u64::MAX / c.slots_per_epoch {
        proof {
            let spe = c.slots_per_epoch;
            assert(epoch * spe <= u64::MAX) by (nonlinear_arith)
                requires
                    spe > 0,
                    epoch <= u64::MAX as int / spe as int,
            ;
        }
        epoch * c.slots_per_epoch
    } else {
        proof {
            let spe = c.slots_per_epoch;
            assert(epoch * spe > u64::MAX) by (nonlinear_arith)
                requires
                    spe > 0,
                    epoch > u64::MAX as int / spe as int,
            ;
        }
        u64::MAX
    }
}

/// How far `slot` is into its epoch.
pub fn compute_slots_since_epoch_start(slot: u64, c: &ChainConfig) -> (r: u64)
    requires
        c.wf(),
    ensures
        r == spec_slots_since_epoch_start(slot, *c),
{
    slot % c.slots_per_epoch
}

/// Whether `slot` is inside the safe-to-update span of its epoch.
pub fn inside_safe_slots(slot: u64, c: &ChainConfig) -> (r: bool)
    requires
        c.wf(),
    ensures
        r == spec_inside_safe_slots(slot, *c),
{
    compute_slots_since_epoch_start(slot, c) < c.safe_slots_to_update_justified
}

} // verus!
