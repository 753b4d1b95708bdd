//! The typed failures the admission protocol and persistence can signal.

use vstd::prelude::*;

verus! {

/// Why a block was refused.
#[derive(Clone, Copy, PartialEq, Eq, Structural, Debug)]
pub enum InvalidBlock {
    /// The block's slot is past the store's current slot; the caller must wait.
    FutureSlot { block_slot: u64, current_slot: u64 },
    /// The block's slot does not come strictly after the finalized slot.
    FinalizedSlot { block_slot: u64, finalized_slot: u64 },
    /// The block does not descend from the finalized checkpoint.
    NotFinalizedDescendant { block_ancestor: u64, finalized_root: u64 },
    /// The block's parent is not known to the DAG.
    UnknownParent { parent_root: u64 },
}

/// Why an attestation was dropped.
#[derive(Clone, Copy, PartialEq, Eq, Structural, Debug)]
pub enum InvalidAttestation {
    /// The block being voted for is not known to the DAG.
    UnknownHeadBlock { beacon_block_root: u64 },
    /// The target checkpoint's block is not known to the DAG.
    UnknownTargetRoot { target_root: u64 },
    /// The block being voted for does not descend from the vote's target.
    HeadConflictsWithTarget { head_ancestor: u64, target_root: u64 },
}

/// A failure of the backing block/state lookup.
#[derive(Clone, Copy, PartialEq, Eq, Structural, Debug)]
pub enum StoreError {
    /// No block is stored under this root.
    MissingBlock { block_root: u64 },
    /// No state is stored under this root.
    MissingState { state_root: u64 },
}

/// An inconsistency reported by the DAG engine.
#[derive(Clone, Copy, PartialEq, Eq, Structural, Debug)]
pub enum ProtoArrayError {
    /// The justified root handed to head computation is not in the DAG.
    JustifiedNodeUnknown { root: u64 },
    /// The finalized root handed to pruning is not in the DAG.
    FinalizedNodeUnknown { root: u64 },
}

/// The failures the fork-choice facade reports to its callers.
#[derive(Clone, Copy, PartialEq, Eq, Structural, Debug)]
pub enum Error {
    InvalidBlock(InvalidBlock),
    InvalidAttestation(InvalidAttestation),
    BackendError(ProtoArrayError),
    ForkChoiceStoreError(StoreError),
    /// The DAG bytes of a snapshot did not decode.
    InvalidProtoArrayBytes,
    /// The store bytes of a snapshot did not decode.
    InvalidForkChoiceStoreBytes,
}

impl core::convert::From<StoreError> for Error {
    /// A backing-store failure surfaces unchanged to the caller.
    fn from(e: StoreError) -> (r: Error) {
        Error::ForkChoiceStoreError(e)
    }
}

impl vstd::std_specs::convert::FromSpecImpl<StoreError> for Error {
    open spec fn obeys_from_spec() -> bool {
        true
    }

    open spec fn from_spec(e: StoreError) -> Error {
        Error::ForkChoiceStoreError(e)
    }
}

} // verus!
