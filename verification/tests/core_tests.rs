use fork_choice::attestation::{AttestationData, IndexedAttestation, QueuedAttestation};
use fork_choice::beacon::{BeaconBlock, BeaconState, Validator};
use fork_choice::codec::{read_u64_list, write_u64_list};
use fork_choice::config::{
    ChainConfig, Checkpoint, MAINNET_SLOTS_PER_EPOCH, SAFE_SLOTS_TO_UPDATE_JUSTIFIED,
    inside_safe_slots, start_slot_of_epoch,
};
use fork_choice::error::{Error, InvalidAttestation, InvalidBlock, ProtoArrayError, StoreError};
use fork_choice::persist::{DBColumn, PersistedForkChoice};
use fork_choice::protocol::ForkChoice;
use fork_choice::store::BlockStore;

const GENESIS_ROOT: u64 = 1;

fn validator(balance: u64) -> Validator {
    Validator { effective_balance: balance, activation_epoch: 0, exit_epoch: u64::MAX }
}

fn state_at(slot: u64, justified: Checkpoint, finalized: Checkpoint) -> BeaconState {
    BeaconState {
        slot,
        current_justified_checkpoint: justified,
        finalized_checkpoint: finalized,
        block_roots: vec![GENESIS_ROOT; 64],
        validators: vec![validator(10), validator(20), validator(30), validator(40)],
    }
}

fn genesis_checkpoint() -> Checkpoint {
    Checkpoint { epoch: 0, root: GENESIS_ROOT }
}

/// A tiny chain: genesis plus two competing children at slot 1.
fn forked() -> ForkChoice {
    let config = ChainConfig::mainnet();
    let g = genesis_checkpoint();
    let genesis_state = state_at(0, g, g);
    let genesis_block = BeaconBlock { slot: 0, parent_root: 0, state_root: 100 };
    let mut fc = ForkChoice::from_genesis(config, GENESIS_ROOT, &genesis_block, genesis_state)
        .unwrap();
    let block_a = BeaconBlock { slot: 1, parent_root: GENESIS_ROOT, state_root: 101 };
    fc.process_block(1, &state_at(1, g, g), &block_a, 2).unwrap();
    let block_b = BeaconBlock { slot: 1, parent_root: GENESIS_ROOT, state_root: 102 };
    fc.process_block(1, &state_at(1, g, g), &block_b, 3).unwrap();
    fc
}

fn vote(indices: Vec<usize>, block_root: u64, target: Checkpoint) -> IndexedAttestation {
    IndexedAttestation {
        attesting_indices: indices,
        data: AttestationData { beacon_block_root: block_root, target },
    }
}

#[test]
fn head_follows_the_weight_of_latest_messages() {
    let mut fc = forked();
    // With no votes the tie breaks toward the larger root.
    assert_eq!(fc.find_head(1).unwrap(), 3);
    // Validators 0 and 1 (10 + 20) vote for block 2; validator 3 (40) for block 3.
    fc.process_indexed_attestation(1, &vote(vec![3], 3, genesis_checkpoint())).unwrap();
    fc.process_indexed_attestation(1, &vote(vec![0, 1], 2, genesis_checkpoint())).unwrap();
    assert_eq!(fc.find_head(1).unwrap(), 3);
    // Validator 2 (30) joins block 2: 60 against 40.
    fc.process_indexed_attestation(1, &vote(vec![2], 2, genesis_checkpoint())).unwrap();
    assert_eq!(fc.find_head(1).unwrap(), 2);
    assert_eq!(fc.latest_message(0), Some((2, 0)));
    assert_eq!(fc.latest_message(3), Some((3, 0)));
    assert_eq!(fc.latest_message(7), None);
}

#[test]
fn older_target_never_overwrites_a_newer_message() {
    let mut fc = forked();
    fc.process_indexed_attestation(1, &vote(vec![0], 2, genesis_checkpoint())).unwrap();
    assert_eq!(fc.latest_message(0), Some((2, 0)));
    // An equal-epoch target is a no-op, so the message stays.
    fc.process_indexed_attestation(1, &vote(vec![0], 3, genesis_checkpoint())).unwrap();
    assert_eq!(fc.latest_message(0), Some((2, 0)));
}

#[test]
fn attestation_applied_twice_is_a_no_op_the_second_time() {
    let mut fc = forked();
    let a = vote(vec![0, 1, 2], 2, genesis_checkpoint());
    fc.process_indexed_attestation(1, &a).unwrap();
    let after_first: Vec<Option<(u64, u64)>> = (0..4).map(|i| fc.latest_message(i)).collect();
    let head_first = fc.find_head(1).unwrap();
    fc.process_indexed_attestation(1, &a).unwrap();
    let after_second: Vec<Option<(u64, u64)>> = (0..4).map(|i| fc.latest_message(i)).collect();
    assert_eq!(after_first, after_second);
    assert_eq!(fc.find_head(1).unwrap(), head_first);
    assert_eq!(fc.queued_attestations.len(), 0);
}

#[test]
fn attestation_with_target_slot_at_current_slot_is_processed_immediately() {
    let mut fc = forked();
    // Target epoch 0 starts at slot 0 <= current slot 1: applied at once.
    fc.process_indexed_attestation(1, &vote(vec![0], 2, genesis_checkpoint())).unwrap();
    assert_eq!(fc.latest_message(0), Some((2, 0)));
    assert_eq!(fc.queued_attestations.len(), 0);
}

#[test]
fn attestation_for_a_future_target_slot_waits_in_the_queue() {
    let mut fc = forked();
    // Target epoch 1 starts at slot 32 > current slot 1: queued.
    let target = Checkpoint { epoch: 1, root: 2 };
    fc.process_indexed_attestation(1, &vote(vec![1], 2, target)).unwrap();
    assert_eq!(fc.latest_message(1), None);
    assert_eq!(fc.queued_attestations.len(), 1);
    // Reaching slot 32 drains it; block 2 descends from itself at slot 32.
    fc.find_head(32).unwrap();
    assert_eq!(fc.latest_message(1), Some((2, 1)));
    assert_eq!(fc.queued_attestations.len(), 0);
}

#[test]
fn attestation_for_an_unknown_block_is_dropped() {
    let mut fc = forked();
    let err = fc.process_indexed_attestation(1, &vote(vec![0], 77, genesis_checkpoint()));
    assert!(matches!(
        err,
        Err(Error::InvalidAttestation(InvalidAttestation::UnknownHeadBlock {
            beacon_block_root: 77,
        }))
    ));
    assert_eq!(fc.latest_message(0), None);
}

#[test]
fn attestation_with_an_unknown_target_root_is_dropped() {
    let mut fc = forked();
    let target = Checkpoint { epoch: 0, root: 88 };
    let err = fc.process_indexed_attestation(1, &vote(vec![0], 2, target));
    assert!(matches!(
        err,
        Err(Error::InvalidAttestation(InvalidAttestation::UnknownTargetRoot { target_root: 88 }))
    ));
}

#[test]
fn attestation_whose_block_conflicts_with_its_target_is_dropped() {
    let mut fc = forked();
    // Block 2 does not descend from block 3, its sibling.
    let target = Checkpoint { epoch: 0, root: 3 };
    let err = fc.process_indexed_attestation(1, &vote(vec![0], 2, target));
    assert!(matches!(
        err,
        Err(Error::InvalidAttestation(InvalidAttestation::HeadConflictsWithTarget {
            head_ancestor: GENESIS_ROOT,
            target_root: 3,
        }))
    ));
}

#[test]
fn block_at_the_current_slot_is_accepted() {
    let mut fc = forked();
    let g = genesis_checkpoint();
    let block = BeaconBlock { slot: 2, parent_root: 2, state_root: 103 };
    fc.process_block(2, &state_at(2, g, g), &block, 4).unwrap();
    assert!(fc.contains_block(4));
    assert_eq!(fc.block_slot_and_state_root(4), Some((2, 103)));
}

#[test]
fn block_exactly_at_the_finalized_slot_is_rejected() {
    let mut fc = forked();
    // Finalize epoch 1, so the finalized slot is 32: a strictly greater
    // block slot is required.
    let g = genesis_checkpoint();
    fc.fc_store.justified_checkpoint = Checkpoint { epoch: 1, root: 2 };
    fc.fc_store.best_justified_checkpoint = Checkpoint { epoch: 1, root: 2 };
    fc.fc_store.finalized_checkpoint = Checkpoint { epoch: 1, root: 2 };
    let block = BeaconBlock { slot: 32, parent_root: 2, state_root: 103 };
    let err = fc.process_block(40, &state_at(32, g, g), &block, 4);
    assert!(matches!(
        err,
        Err(Error::InvalidBlock(InvalidBlock::FinalizedSlot { block_slot: 32, finalized_slot: 32 }))
    ));
    // One slot past the finalized slot is no longer refused on that ground.
    let block = BeaconBlock { slot: 33, parent_root: 2, state_root: 103 };
    let err = fc.process_block(40, &state_at(33, g, g), &block, 4);
    assert!(!matches!(
        err,
        Err(Error::InvalidBlock(InvalidBlock::FinalizedSlot { .. }))
    ));
}

#[test]
fn block_with_an_unknown_parent_is_rejected() {
    let mut fc = forked();
    let g = genesis_checkpoint();
    let block = BeaconBlock { slot: 2, parent_root: 999, state_root: 103 };
    let err = fc.process_block(2, &state_at(2, g, g), &block, 4);
    assert!(matches!(
        err,
        Err(Error::InvalidBlock(InvalidBlock::UnknownParent { parent_root: 999 }))
    ));
    assert!(!fc.contains_block(4));
}

#[test]
fn slot_exactly_at_the_safe_span_boundary_is_outside_it() {
    let c = ChainConfig::mainnet();
    assert!(inside_safe_slots(SAFE_SLOTS_TO_UPDATE_JUSTIFIED - 1, &c));
    assert!(!inside_safe_slots(SAFE_SLOTS_TO_UPDATE_JUSTIFIED, &c));
    assert!(inside_safe_slots(MAINNET_SLOTS_PER_EPOCH + 7, &c));
    assert!(!inside_safe_slots(MAINNET_SLOTS_PER_EPOCH + 8, &c));
    assert_eq!(start_slot_of_epoch(2, &c), 64);
}

#[test]
fn ticking_across_an_epoch_boundary_promotes_the_best_justified_checkpoint() {
    let mut fc = forked();
    // Pretend a better justified checkpoint was observed at block 2.
    fc.fc_store.best_justified_checkpoint = Checkpoint { epoch: 1, root: 2 };
    let head = fc.find_head(MAINNET_SLOTS_PER_EPOCH).unwrap();
    assert_eq!(fc.fc_store.justified_checkpoint, Checkpoint { epoch: 1, root: 2 });
    assert_eq!(fc.fc_store.justified_balances, vec![10, 20, 30, 40]);
    assert_eq!(head, 2);
}

#[test]
fn a_tick_promotes_only_on_landing_at_an_epoch_boundary() {
    let mut fc = forked();
    fc.fc_store.best_justified_checkpoint = Checkpoint { epoch: 1, root: 2 };
    // A single tick is only ever one slot in normal use; handed a mid-epoch
    // slot it does not promote, whatever lies in between.
    fc.fc_store.on_tick(33).unwrap();
    assert_eq!(fc.fc_store.current_slot, 33);
    assert_eq!(fc.fc_store.justified_checkpoint.epoch, 0);
    // Landing exactly on the first slot of an epoch promotes.
    fc.fc_store.on_tick(64).unwrap();
    assert_eq!(fc.fc_store.justified_checkpoint, Checkpoint { epoch: 1, root: 2 });
    assert_eq!(fc.fc_store.justified_balances, vec![10, 20, 30, 40]);
}

#[test]
fn catching_up_past_a_boundary_into_mid_epoch_still_promotes() {
    let mut fc = forked();
    fc.fc_store.best_justified_checkpoint = Checkpoint { epoch: 1, root: 2 };
    // The head query brings the clock from slot 1 to slot 40: the composed
    // per-slot ticks promoted when they passed slot 32.
    fc.find_head(40).unwrap();
    assert_eq!(fc.fc_store.current_slot, 40);
    assert_eq!(fc.fc_store.justified_checkpoint, Checkpoint { epoch: 1, root: 2 });
}

#[test]
fn restoring_a_snapshot_with_a_stale_queued_attestation_is_refused() {
    let fc = forked();
    let mut persisted = fc.to_persisted();
    // A queued attestation already due at the restored clock cannot wait.
    persisted.queued_attestations.push(QueuedAttestation {
        slot: 0,
        attesting_indices: vec![0],
        block_root: 2,
        target_epoch: 0,
        target_root: 1,
    });
    assert!(matches!(
        ForkChoice::from_persisted(&persisted, BlockStore::new()),
        Err(Error::InvalidForkChoiceStoreBytes)
    ));
}

#[test]
fn promotion_with_a_missing_justified_state_reports_a_store_error() {
    let mut fc = forked();
    fc.fc_store.best_justified_checkpoint = Checkpoint { epoch: 1, root: 4040 };
    let err = fc.find_head(MAINNET_SLOTS_PER_EPOCH);
    assert!(matches!(
        err,
        Err(Error::ForkChoiceStoreError(StoreError::MissingBlock { block_root: 4040 }))
    ));
    // The failed tick left the store untouched.
    assert_eq!(fc.fc_store.current_slot, 1);
    assert_eq!(fc.fc_store.justified_checkpoint.epoch, 0);
}

#[test]
fn head_query_with_an_unknown_justified_root_reports_a_backend_error() {
    let mut fc = forked();
    fc.fc_store.justified_checkpoint = Checkpoint { epoch: 0, root: 555 };
    assert!(matches!(
        fc.find_head(1),
        Err(Error::BackendError(ProtoArrayError::JustifiedNodeUnknown { root: 555 }))
    ));
}

#[test]
fn promotion_with_a_missing_justified_balance_state_reports_its_state_root() {
    let mut fc = forked();
    // A block is known under root 50, but the state it names never was.
    let orphan = BeaconBlock { slot: 1, parent_root: GENESIS_ROOT, state_root: 5151 };
    fc.fc_store.block_store.put_block(50, orphan);
    fc.fc_store.best_justified_checkpoint = Checkpoint { epoch: 1, root: 50 };
    let err = fc.find_head(MAINNET_SLOTS_PER_EPOCH);
    assert!(matches!(
        err,
        Err(Error::ForkChoiceStoreError(StoreError::MissingState { state_root: 5151 }))
    ));
}

#[test]
fn current_slot_and_finalized_epoch_never_decrease() {
    let mut fc = forked();
    let g = genesis_checkpoint();
    let mut last_slot = fc.fc_store.current_slot;
    let mut last_finalized = fc.fc_store.finalized_checkpoint.epoch;
    let block = BeaconBlock { slot: 2, parent_root: 2, state_root: 103 };
    fc.process_block(5, &state_at(2, g, g), &block, 4).unwrap();
    assert!(fc.fc_store.current_slot >= last_slot);
    assert!(fc.fc_store.finalized_checkpoint.epoch >= last_finalized);
    last_slot = fc.fc_store.current_slot;
    last_finalized = fc.fc_store.finalized_checkpoint.epoch;
    // Even a rejected block and a lagging clock never move anything back.
    let bad = BeaconBlock { slot: 99, parent_root: 4, state_root: 104 };
    assert!(fc.process_block(3, &state_at(99, g, g), &bad, 9).is_err());
    assert!(fc.fc_store.current_slot >= last_slot);
    assert!(fc.fc_store.finalized_checkpoint.epoch >= last_finalized);
}

#[test]
fn snapshot_and_restore_reproduce_the_fork_chooser() {
    let mut fc = forked();
    fc.process_indexed_attestation(1, &vote(vec![0, 2], 2, genesis_checkpoint())).unwrap();
    // Leave one attestation waiting in the queue.
    let target = Checkpoint { epoch: 2, root: 2 };
    fc.process_indexed_attestation(1, &vote(vec![1], 2, target)).unwrap();
    assert_eq!(fc.queued_attestations.len(), 1);

    let persisted = fc.to_persisted();
    let restored = ForkChoice::from_persisted(&persisted, BlockStore::new()).unwrap();

    assert_eq!(restored.fc_store.config, fc.fc_store.config);
    assert_eq!(restored.fc_store.current_slot, fc.fc_store.current_slot);
    assert_eq!(restored.fc_store.justified_checkpoint, fc.fc_store.justified_checkpoint);
    assert_eq!(
        restored.fc_store.best_justified_checkpoint,
        fc.fc_store.best_justified_checkpoint
    );
    assert_eq!(restored.fc_store.finalized_checkpoint, fc.fc_store.finalized_checkpoint);
    assert_eq!(restored.fc_store.justified_balances, fc.fc_store.justified_balances);
    assert_eq!(restored.proto_array, *fc.backend());
    assert_eq!(restored.queued_attestations, fc.queued_attestations);
    assert_eq!(restored.genesis_block_root, fc.genesis_block_root);

    // A second snapshot is byte-for-byte the first.
    let again = restored.to_persisted();
    assert_eq!(again.fc_store_bytes, persisted.fc_store_bytes);
    assert_eq!(again.proto_array_bytes, persisted.proto_array_bytes);
    assert_eq!(again.queued_attestations, persisted.queued_attestations);
    assert_eq!(again.genesis_block_root, persisted.genesis_block_root);
}

#[test]
fn whole_snapshot_survives_the_store_byte_round_trip() {
    let mut fc = forked();
    let target = Checkpoint { epoch: 2, root: 2 };
    fc.process_indexed_attestation(1, &vote(vec![1, 3], 2, target)).unwrap();
    let persisted = fc.to_persisted();
    let bytes = persisted.as_store_bytes();
    let decoded = PersistedForkChoice::from_store_bytes(&bytes).unwrap();
    assert_eq!(decoded.fc_store_bytes, persisted.fc_store_bytes);
    assert_eq!(decoded.proto_array_bytes, persisted.proto_array_bytes);
    assert_eq!(decoded.queued_attestations, persisted.queued_attestations);
    assert_eq!(decoded.genesis_block_root, persisted.genesis_block_root);
    assert_eq!(decoded.as_store_bytes(), bytes);
    assert!(PersistedForkChoice::from_store_bytes(&vec![0u8; 5]).is_err());
    assert_eq!(PersistedForkChoice::db_column(), DBColumn::ForkChoice);
}

#[test]
fn corrupted_snapshot_bytes_are_refused() {
    let fc = forked();
    let persisted = fc.to_persisted();

    let mut bad_store = PersistedForkChoice {
        fc_store_bytes: vec![1, 2, 3],
        proto_array_bytes: persisted.proto_array_bytes.clone(),
        queued_attestations: Vec::new(),
        genesis_block_root: persisted.genesis_block_root,
    };
    assert!(matches!(
        ForkChoice::from_persisted(&bad_store, BlockStore::new()),
        Err(Error::InvalidForkChoiceStoreBytes)
    ));

    bad_store.fc_store_bytes = persisted.fc_store_bytes.clone();
    bad_store.proto_array_bytes = vec![9, 9];
    assert!(matches!(
        ForkChoice::from_persisted(&bad_store, BlockStore::new()),
        Err(Error::InvalidProtoArrayBytes)
    ));
}

#[test]
fn pruning_drops_everything_outside_the_finalized_subtree() {
    let mut fc = forked();
    let g = genesis_checkpoint();
    // Extend block 2 so the DAG is genesis -> {2 -> 4, 3}.
    let block = BeaconBlock { slot: 2, parent_root: 2, state_root: 103 };
    fc.process_block(2, &state_at(2, g, g), &block, 4).unwrap();
    // Finalize at block 2 and prune: block 3 must go, 2 and 4 must stay.
    fc.fc_store.finalized_checkpoint = Checkpoint { epoch: 0, root: 2 };
    fc.fc_store.justified_checkpoint = Checkpoint { epoch: 0, root: 2 };
    fc.fc_store.best_justified_checkpoint = Checkpoint { epoch: 0, root: 2 };
    fc.prune().unwrap();
    assert!(fc.contains_block(2));
    assert!(fc.contains_block(4));
    assert!(!fc.contains_block(GENESIS_ROOT));
    assert!(!fc.contains_block(3));
    assert_eq!(fc.find_head(2).unwrap(), 4);
}

#[test]
fn pruning_at_an_unknown_finalized_root_reports_a_backend_error() {
    let mut fc = forked();
    fc.fc_store.finalized_checkpoint = Checkpoint { epoch: 0, root: 12345 };
    assert!(matches!(
        fc.prune(),
        Err(Error::BackendError(ProtoArrayError::FinalizedNodeUnknown { root: 12345 }))
    ));
}

#[test]
fn word_lists_survive_a_byte_round_trip() {
    let mut bytes: Vec<u8> = Vec::new();
    let words: Vec<u64> = vec![0, 1, 0xff, 0x1_0000, u64::MAX, 42];
    write_u64_list(&mut bytes, &words);
    assert_eq!(bytes.len(), 8 * 7);
    let (decoded, pos) = read_u64_list(&bytes, 0).unwrap();
    assert_eq!(decoded, words);
    assert_eq!(pos, bytes.len());
    // A truncated buffer promises six words but holds one: refused.
    let truncated: Vec<u8> = bytes[..16].to_vec();
    assert!(read_u64_list(&truncated, 0).is_none());
    assert!(read_u64_list(&bytes, bytes.len() - 4).is_none());
}

#[test]
fn genesis_starts_with_everything_at_the_genesis_block() {
    let config = ChainConfig::mainnet();
    let g = genesis_checkpoint();
    let genesis_state = state_at(0, g, g);
    let genesis_block = BeaconBlock { slot: 0, parent_root: 0, state_root: 100 };
    let fc = ForkChoice::from_genesis(config, GENESIS_ROOT, &genesis_block, genesis_state)
        .unwrap();
    assert_eq!(fc.fc_store.justified_checkpoint, g);
    assert_eq!(fc.fc_store.best_justified_checkpoint, g);
    assert_eq!(fc.fc_store.finalized_checkpoint, g);
    assert_eq!(fc.fc_store.current_slot, 0);
    assert_eq!(fc.fc_store.justified_balances, vec![10, 20, 30, 40]);
    assert!(fc.contains_block(GENESIS_ROOT));
    assert_eq!(fc.block_slot_and_state_root(GENESIS_ROOT), Some((0, 100)));
    assert_eq!(fc.genesis_block_root, GENESIS_ROOT);
}
