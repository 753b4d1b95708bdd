//! Attestation values as the admission protocol reads them, and the queued
//! form an attestation takes while its target slot is still in the future.

use vstd::prelude::*;

use crate::config::Checkpoint;

verus! {

/// What an attestation asserts: a head block, and the checkpoint it targets.
#[derive(Clone, Copy, PartialEq, Eq, Structural, Debug)]
pub struct AttestationData {
    pub beacon_block_root: u64,
    pub target: Checkpoint,
}

/// An attestation whose signature has already been checked upstream: the
/// validators that attested, and what they attested to.
#[derive(PartialEq, Eq, Debug)]
pub struct IndexedAttestation {
    pub attesting_indices: Vec<usize>,
    pub data: AttestationData,
}

impl IndexedAttestation {
    /// Validator indices must index a vote table, so the largest index value
    /// is unusable.
    pub open spec fn wf(self) -> bool {
        forall|i: int|
            0 <= i < self.attesting_indices@.len() ==> (#[trigger] self.attesting_indices@[i])
                < usize::MAX
    }
}

/// An attestation waiting for its target slot: enough of the original to
/// re-run admission once the store's clock reaches `slot`.
#[derive(PartialEq, Eq, Debug)]
pub struct QueuedAttestation {
    /// The first slot of the target epoch; the attestation leaves the queue
    /// when the current slot reaches it.
    pub slot: u64,
    pub attesting_indices: Vec<usize>,
    pub block_root: u64,
    pub target_epoch: u64,
    pub target_root: u64,
}

impl QueuedAttestation {
    /// See `IndexedAttestation::wf`.
    pub open spec fn wf(self) -> bool {
        forall|i: int|
            0 <= i < self.attesting_indices@.len() ==> (#[trigger] self.attesting_indices@[i])
                < usize::MAX
    }
}

/// Two queued attestations carry the same values.
pub open spec fn spec_q_eq(a: QueuedAttestation, b: QueuedAttestation) -> bool {
    &&& a.slot == b.slot
    &&& a.attesting_indices@ == b.attesting_indices@
    &&& a.block_root == b.block_root
    &&& a.target_epoch == b.target_epoch
    &&& a.target_root == b.target_root
}

/// Two queues carry the same attestations in the same order.
pub open spec fn spec_queue_eq(a: Seq<QueuedAttestation>, b: Seq<QueuedAttestation>) -> bool {
    a.len() == b.len() && forall|i: int| 0 <= i < a.len() ==> spec_q_eq(#[trigger] a[i], b[i])
}

impl QueuedAttestation {
    /// Whether every validator index can index a vote table.
    pub fn check_indices(&self) -> (r: bool)
        ensures
            r == self.wf(),
    {
        let mut i: usize = 0;
        while i < self.attesting_indices.len()
            invariant
                i <= self.attesting_indices@.len(),
                forall|k: int|
                    0 <= k < i ==> (#[trigger] self.attesting_indices@[k]) < usize::MAX,
            decreases self.attesting_indices@.len() - i,
        {
            if self.attesting_indices[i] == usize::MAX {
                return false;
            }
            i = i + 1;
        }
        true
    }

    /// An exact copy, field for field.
    pub fn duplicate(&self) -> (r: QueuedAttestation)
        ensures
            spec_q_eq(r, *self),
    {
        QueuedAttestation {
            slot: self.slot,
            attesting_indices: copy_indices(&self.attesting_indices),
            block_root: self.block_root,
            target_epoch: self.target_epoch,
            target_root: self.target_root,
        }
    }
}

/// Copy a list of validator indices.
pub fn copy_indices(v: &Vec<usize>) -> (r: Vec<usize>)
    ensures
        r@ == v@,
{
    let mut r: Vec<usize> = Vec::new();
    let mut i: usize = 0;
    while i < v.len()
        invariant
            i <= v@.len(),
            r@ == v@.take(i as int),
        decreases v@.len() - i,
    {
        r.push(v[i]);
        proof {
            assert(r@ =~= v@.take(i + 1));
        }
        i = i + 1;
    }
    proof {
        assert(r@ =~= v@);
    }
    r
}

} // verus!
