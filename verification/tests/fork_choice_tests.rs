use fork_choice::attestation::{AttestationData, IndexedAttestation};
use fork_choice::beacon::{BeaconBlock, BeaconState, Validator};
use fork_choice::config::{
    ChainConfig, Checkpoint, MAINNET_SLOTS_PER_EPOCH, SAFE_SLOTS_TO_UPDATE_JUSTIFIED,
    inside_safe_slots,
};
use fork_choice::error::{Error, InvalidAttestation, InvalidBlock, StoreError};
use fork_choice::protocol::ForkChoice;
use fork_choice::store::BlockStore;

pub const VALIDATOR_COUNT: usize = 16;
const HISTORY: usize = 256;
const GENESIS_ROOT: u64 = 1000;

fn root_for(slot: u64) -> u64 {
    1000 + slot
}

fn state_root_for(slot: u64) -> u64 {
    5000 + slot
}

fn validators() -> Vec<Validator> {
    let mut v = Vec::new();
    for i in 0..VALIDATOR_COUNT {
        let exit_epoch = if i == VALIDATOR_COUNT - 1 { 1 } else { u64::MAX };
        v.push(Validator {
            effective_balance: 32_000_000_000 + i as u64 * 1_000_000_000,
            activation_epoch: 0,
            exit_epoch,
        });
    }
    v
}

/// Drives the fork chooser the way a beacon chain would: one block per slot
/// on the canonical head, with justification advancing on the schedule a
/// fully-attesting validator set produces.
struct ForkChoiceTest {
    fc: ForkChoice,
    clock: u64,
    head_slot: u64,
    /// `roots[s]` is the root of the newest chain block at or before slot `s`.
    roots: Vec<u64>,
}

impl ForkChoiceTest {
    fn new() -> Self {
        let config = ChainConfig::mainnet();
        let genesis_state = BeaconState {
            slot: 0,
            current_justified_checkpoint: Checkpoint { epoch: 0, root: GENESIS_ROOT },
            finalized_checkpoint: Checkpoint { epoch: 0, root: GENESIS_ROOT },
            block_roots: vec![0; HISTORY],
            validators: validators(),
        };
        let genesis_block = BeaconBlock { slot: 0, parent_root: 0, state_root: state_root_for(0) };
        let fc = ForkChoice::from_genesis(config, GENESIS_ROOT, &genesis_block, genesis_state)
            .unwrap();
        Self { fc, clock: 0, head_slot: 0, roots: vec![GENESIS_ROOT] }
    }

    fn checkpoint_for(&self, epoch: u64) -> Checkpoint {
        let slot = (epoch * MAINNET_SLOTS_PER_EPOCH) as usize;
        let root = if slot < self.roots.len() {
            self.roots[slot]
        } else {
            *self.roots.last().unwrap()
        };
        Checkpoint { epoch, root }
    }

    /// The checkpoints a fully-attested chain announces at `slot`: the first
    /// justification arrives two epochs behind the clock, and states deep
    /// enough into their epoch have also seen that checkpoint finalized.
    fn announced(&self, slot: u64) -> (Checkpoint, Checkpoint) {
        let epoch = slot / MAINNET_SLOTS_PER_EPOCH;
        let offset = slot % MAINNET_SLOTS_PER_EPOCH;
        let justified = if epoch < 4 { 0 } else { epoch - 2 };
        let finalized = if epoch >= 4 && offset >= 8 { epoch - 2 } else { 0 };
        (self.checkpoint_for(justified), self.checkpoint_for(finalized))
    }

    fn build_at(&self, slot: u64) -> (BeaconBlock, BeaconState, u64) {
        let parent_root = self.roots[self.head_slot as usize];
        let block = BeaconBlock { slot, parent_root, state_root: state_root_for(slot) };
        let mut block_roots = vec![0u64; HISTORY];
        for t in 0..slot {
            let idx = t.min(self.head_slot) as usize;
            block_roots[(t as usize) % HISTORY] = self.roots[idx];
        }
        let (current_justified_checkpoint, finalized_checkpoint) = self.announced(slot);
        let state = BeaconState {
            slot,
            current_justified_checkpoint,
            finalized_checkpoint,
            block_roots,
            validators: validators(),
        };
        (block, state, root_for(slot))
    }

    fn record(&mut self, slot: u64, root: u64) {
        let filler = self.roots[self.head_slot as usize];
        while (self.roots.len() as u64) < slot {
            self.roots.push(filler);
        }
        self.roots.push(root);
        self.head_slot = slot;
        if self.clock < slot {
            self.clock = slot;
        }
    }

    fn apply_blocks(mut self, count: usize) -> Self {
        for _ in 0..count {
            self.clock += 1;
            let slot = self.clock;
            let (block, state, root) = self.build_at(slot);
            self.fc.process_block(self.clock, &state, &block, root).unwrap();
            self.record(slot, root);
        }
        self
    }

    fn apply_blocks_while<F>(mut self, mut predicate: F) -> Self
    where
        F: FnMut(&BeaconBlock, &BeaconState) -> bool,
    {
        loop {
            let slot = self.clock + 1;
            let (block, state, root) = self.build_at(slot);
            if !predicate(&block, &state) {
                self.clock = slot;
                break;
            }
            self.clock = slot;
            self.fc.process_block(self.clock, &state, &block, root).unwrap();
            self.record(slot, root);
        }
        self
    }

    fn move_inside_safe_to_update(mut self) -> Self {
        while !is_safe_to_update(self.clock) {
            self.clock += 1;
        }
        self
    }

    fn move_outside_safe_to_update(mut self) -> Self {
        while is_safe_to_update(self.clock) {
            self.clock += 1;
        }
        self
    }

    fn move_to_next_unsafe_period(self) -> Self {
        self.move_inside_safe_to_update().move_outside_safe_to_update()
    }

    fn apply_block_directly_to_fork_choice<F>(mut self, mut func: F) -> Self
    where
        F: FnMut(&mut BeaconBlock, &mut BeaconState),
    {
        let slot = self.head_slot + 1;
        if self.clock < slot {
            self.clock = slot;
        }
        let (mut block, mut state, root) = self.build_at(slot);
        func(&mut block, &mut state);
        self.fc.process_block(self.clock, &state, &block, root).unwrap();
        self.record(slot, root);
        self
    }

    fn apply_invalid_block_directly_to_fork_choice<F, G>(
        mut self,
        mut mutation_func: F,
        mut comparison_func: G,
    ) -> Self
    where
        F: FnMut(&mut BeaconBlock, &mut BeaconState),
        G: FnMut(Error),
    {
        let slot = self.head_slot + 1;
        if self.clock < slot {
            self.clock = slot;
        }
        let (mut block, mut state, root) = self.build_at(slot);
        mutation_func(&mut block, &mut state);
        let err = self
            .fc
            .process_block(self.clock, &state, &block, root)
            .err()
            .expect("on_block did not return an error");
        comparison_func(err);
        self
    }

    fn assert_justified_epoch(self, epoch: u64) -> Self {
        assert_eq!(self.fc.fc_store.justified_checkpoint.epoch, epoch, "justified_epoch");
        self
    }

    fn assert_best_justified_epoch(self, epoch: u64) -> Self {
        assert_eq!(
            self.fc.fc_store.best_justified_checkpoint.epoch,
            epoch,
            "best_justified_epoch"
        );
        self
    }

    fn check_justified_balances(&self) {
        let justified_root = self.fc.fc_store.justified_checkpoint.root;
        let block = self
            .fc
            .fc_store
            .block_store
            .get_block(justified_root)
            .expect("justified block should be stored");
        let state = self
            .fc
            .fc_store
            .block_store
            .get_state(block.state_root)
            .expect("justified state should be stored");
        let epoch = state.slot / MAINNET_SLOTS_PER_EPOCH;
        let expected: Vec<u64> = state
            .validators
            .iter()
            .map(|v| {
                if v.activation_epoch <= epoch && epoch < v.exit_epoch {
                    v.effective_balance
                } else {
                    0
                }
            })
            .collect();
        assert_eq!(
            &expected[..],
            &self.fc.fc_store.justified_balances[..],
            "balances should match"
        );
    }

    fn set_block_root(state: &mut BeaconState, slot: u64, root: u64) {
        state.block_roots[(slot as usize) % HISTORY] = root;
    }
}

fn is_safe_to_update(slot: u64) -> bool {
    slot % MAINNET_SLOTS_PER_EPOCH < SAFE_SLOTS_TO_UPDATE_JUSTIFIED
}

/// - The new justified checkpoint descends from the current.
/// - Current slot is within `SAFE_SLOTS_TO_UPDATE_JUSTIFIED`.
#[test]
fn justified_checkpoint_updates_with_descendent_inside_safe_slots() {
    ForkChoiceTest::new()
        .apply_blocks_while(|_, state| state.current_justified_checkpoint.epoch == 0)
        .move_inside_safe_to_update()
        .assert_justified_epoch(0)
        .apply_blocks(1)
        .assert_justified_epoch(2);
}

/// - The new justified checkpoint descends from the current.
/// - Current slot is **not** within `SAFE_SLOTS_TO_UPDATE_JUSTIFIED`.
/// - This is **not** the first justification since genesis.
#[test]
fn justified_checkpoint_updates_with_descendent_outside_safe_slots() {
    ForkChoiceTest::new()
        .apply_blocks_while(|_, state| state.current_justified_checkpoint.epoch <= 2)
        .move_outside_safe_to_update()
        .assert_justified_epoch(2)
        .assert_best_justified_epoch(2)
        .apply_blocks(1)
        .assert_justified_epoch(3);
}

/// - The new justified checkpoint descends from the current.
/// - Current slot is **not** within `SAFE_SLOTS_TO_UPDATE_JUSTIFIED`.
/// - This is the first justification since genesis.
#[test]
fn justified_checkpoint_updates_first_justification_outside_safe_to_update() {
    ForkChoiceTest::new()
        .apply_blocks_while(|_, state| state.current_justified_checkpoint.epoch == 0)
        .move_to_next_unsafe_period()
        .assert_justified_epoch(0)
        .assert_best_justified_epoch(0)
        .apply_blocks(1)
        .assert_justified_epoch(2)
        .assert_best_justified_epoch(2);
}

/// - The new justified checkpoint **does not** descend from the current.
/// - Current slot is within `SAFE_SLOTS_TO_UPDATE_JUSTIFIED`.
/// - Finalized epoch has **not** increased.
///
/// Safe-to-update demands the descendancy as well as the safe slot, so only
/// the best-justified checkpoint moves.
#[test]
fn justified_checkpoint_updates_with_non_descendent_inside_safe_slots_without_finality() {
    ForkChoiceTest::new()
        .apply_blocks_while(|_, state| state.current_justified_checkpoint.epoch == 0)
        .apply_blocks(1)
        .move_inside_safe_to_update()
        .assert_justified_epoch(2)
        .apply_block_directly_to_fork_choice(|block, state| {
            state.finalized_checkpoint.epoch = 0;
            state.current_justified_checkpoint.epoch = 3;
            state.current_justified_checkpoint.root = block.parent_root;
            ForkChoiceTest::set_block_root(state, 2 * MAINNET_SLOTS_PER_EPOCH, 42);
        })
        .assert_justified_epoch(2)
        .assert_best_justified_epoch(3);
}

/// - The new justified checkpoint **does not** descend from the current.
/// - Current slot is **not** within `SAFE_SLOTS_TO_UPDATE_JUSTIFIED`.
/// - Finalized epoch has **not** increased.
#[test]
fn justified_checkpoint_updates_with_non_descendent_outside_safe_slots_without_finality() {
    ForkChoiceTest::new()
        .apply_blocks_while(|_, state| state.current_justified_checkpoint.epoch == 0)
        .apply_blocks(1)
        .move_to_next_unsafe_period()
        .assert_justified_epoch(2)
        .apply_block_directly_to_fork_choice(|block, state| {
            state.finalized_checkpoint.epoch = 0;
            state.current_justified_checkpoint.epoch = 3;
            state.current_justified_checkpoint.root = block.parent_root;
            ForkChoiceTest::set_block_root(state, 2 * MAINNET_SLOTS_PER_EPOCH, 42);
        })
        .assert_justified_epoch(2)
        .assert_best_justified_epoch(3);
}

/// - The new justified checkpoint **does not** descend from the current.
/// - Current slot is **not** within `SAFE_SLOTS_TO_UPDATE_JUSTIFIED`.
/// - Finalized epoch has increased.
#[test]
fn justified_checkpoint_updates_with_non_descendent_outside_safe_slots_with_finality() {
    ForkChoiceTest::new()
        .apply_blocks_while(|_, state| state.current_justified_checkpoint.epoch == 0)
        .apply_blocks(1)
        .move_to_next_unsafe_period()
        .assert_justified_epoch(2)
        .apply_block_directly_to_fork_choice(|block, state| {
            state.finalized_checkpoint.epoch = 1;
            state.current_justified_checkpoint.epoch = 3;
            state.current_justified_checkpoint.root = block.parent_root;
            ForkChoiceTest::set_block_root(state, 2 * MAINNET_SLOTS_PER_EPOCH, 42);
        })
        .assert_justified_epoch(3)
        .assert_best_justified_epoch(3);
}

/// Check that the balances are obtained correctly.
#[test]
fn justified_balances() {
    ForkChoiceTest::new()
        .apply_blocks_while(|_, state| state.current_justified_checkpoint.epoch == 0)
        .apply_blocks(1)
        .assert_justified_epoch(2)
        .check_justified_balances()
}

#[test]
fn invalid_block_future_slot() {
    ForkChoiceTest::new().apply_blocks(2).apply_invalid_block_directly_to_fork_choice(
        |block, _| {
            block.slot = block.slot + 1;
        },
        |err| {
            assert!(matches!(
                err,
                Error::InvalidBlock(InvalidBlock::FutureSlot { .. })
            ));
        },
    );
}

#[test]
fn invalid_block_finalized_slot() {
    ForkChoiceTest::new()
        .apply_blocks_while(|_, state| state.finalized_checkpoint.epoch == 0)
        .apply_blocks(1)
        .apply_invalid_block_directly_to_fork_choice(
            |block, _| {
                block.slot = 2 * MAINNET_SLOTS_PER_EPOCH - 1;
            },
            |err| {
                assert!(matches!(
                    err,
                    Error::InvalidBlock(InvalidBlock::FinalizedSlot { finalized_slot, .. })
                    if finalized_slot == 2 * MAINNET_SLOTS_PER_EPOCH
                ));
            },
        );
}

#[test]
fn invalid_block_finalized_descendant() {
    ForkChoiceTest::new()
        .apply_blocks_while(|_, state| state.finalized_checkpoint.epoch == 0)
        .apply_blocks(1)
        .apply_invalid_block_directly_to_fork_choice(
            |_, state| {
                ForkChoiceTest::set_block_root(state, 2 * MAINNET_SLOTS_PER_EPOCH, 42);
            },
            |err| {
                assert!(matches!(
                    err,
                    Error::InvalidBlock(InvalidBlock::NotFinalizedDescendant { block_ancestor, .. })
                    if block_ancestor == 42
                ));
            },
        );
}
