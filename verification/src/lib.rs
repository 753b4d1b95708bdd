//! A verified fork-choice core for an Ethereum beacon-chain client.
//!
//! Given a stream of validated blocks and attestations, the library keeps the
//! authoritative view of time and of the justified and finalized checkpoints,
//! decides which blocks and attestations are legal to apply, scores the block
//! DAG with the LMD-GHOST rule to find the canonical head, and snapshots the
//! whole state to bytes so that it can be restored with identical semantics.
//!
//! Every public operation preserves the core's well-formedness: the
//! finalized, justified and best-justified checkpoint epochs stay ordered,
//! every queued attestation stays strictly in the future, and the DAG keeps
//! parents before children under unique roots. The operation contracts pin
//! the rest of the invariants: the current slot and the finalized epoch
//! never decrease, the genesis block root never changes, the justified
//! balances always come from the state at the justified checkpoint's block,
//! and pruning leaves exactly the blocks descending from the finalized one.

pub mod attestation;
pub mod beacon;
pub mod codec;
pub mod config;
pub mod error;
pub mod laws;
pub mod proto_array;
pub mod persist;
pub mod protocol;
pub mod store;
