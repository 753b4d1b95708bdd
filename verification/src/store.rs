//! The fork-choice store: the authoritative view of time and of the
//! justified, best-justified and finalized checkpoints, the cached justified
//! balances, and the backing block/state lookup they are derived from.

use vstd::prelude::*;

use crate::beacon::{BeaconBlock, BeaconState, effective_balances, spec_effective_balances};
use crate::config::{ChainConfig, Checkpoint, spec_slots_since_epoch_start, compute_slots_since_epoch_start, spec_epoch_of, epoch_of_slot};
use crate::error::StoreError;
use crate::proto_array::ProtoArray;

verus! {

/// In-memory lookup of blocks by block root and states by state root.
#[derive(PartialEq, Eq, Debug)]
pub struct BlockStore {
    pub blocks: Vec<(u64, BeaconBlock)>,
    pub states: Vec<(u64, BeaconState)>,
}

impl BlockStore {
    /// Keys are unique, so each root names one block and one state at most.
    pub open spec fn wf(self) -> bool {
        &&& forall|i: int, j: int|
            0 <= i < j < self.blocks@.len() ==> (#[trigger] self.blocks@[i].0) != (
            #[trigger] self.blocks@[j].0)
        &&& forall|i: int, j: int|
            0 <= i < j < self.states@.len() ==> (#[trigger] self.states@[i].0) != (
            #[trigger] self.states@[j].0)
    }

    pub open spec fn spec_has_block(self, root: u64) -> bool {
        exists|i: int| 0 <= i < self.blocks@.len() && (#[trigger] self.blocks@[i].0) == root
    }

    pub open spec fn spec_block_at(self, root: u64) -> BeaconBlock {
        self.blocks@[choose|i: int|
            0 <= i < self.blocks@.len() && (#[trigger] self.blocks@[i].0) == root].1
    }

    pub open spec fn spec_has_state(self, root: u64) -> bool {
        exists|i: int| 0 <= i < self.states@.len() && (#[trigger] self.states@[i].0) == root
    }

    pub open spec fn spec_state_at(self, root: u64) -> BeaconState {
        self.states@[choose|i: int|
            0 <= i < self.states@.len() && (#[trigger] self.states@[i].0) == root].1
    }

    /// The justified-balance vector derivable at a checkpoint root: the block
    /// under that root leads to its post-state, and the state's registry
    /// yields the balances.
    pub open spec fn spec_balances_at(self, root: u64, c: ChainConfig) -> Result<
        Seq<u64>,
        StoreError,
    > {
        if !self.spec_has_block(root) {
            Err(StoreError::MissingBlock { block_root: root })
        } else {
            let b = self.spec_block_at(root);
            if !self.spec_has_state(b.state_root) {
                Err(StoreError::MissingState { state_root: b.state_root })
            } else {
                Ok(spec_effective_balances(self.spec_state_at(b.state_root), c))
            }
        }
    }

    /// An empty store.
    pub fn new() -> (r: BlockStore)
        ensures
            r.wf(),
            r.blocks@.len() == 0,
            r.states@.len() == 0,
    {
        BlockStore { blocks: Vec::new(), states: Vec::new() }
    }

    /// Look a block up by its root.
    pub fn get_block(&self, root: u64) -> (r: Option<BeaconBlock>)
        requires
            self.wf(),
        ensures
            match r {
                Some(b) => self.spec_has_block(root) && b == self.spec_block_at(root),
                None => !self.spec_has_block(root),
            },
    {
        let mut i: usize = 0;
        while i < self.blocks.len()
            invariant
                self.wf(),
                i <= self.blocks@.len(),
                forall|j: int| 0 <= j < i ==> (#[trigger] self.blocks@[j].0) != root,
            decreases self.blocks@.len() - i,
        {
            if self.blocks[i].0 == root {
                proof {
                    let w = choose|w: int|
                        0 <= w < self.blocks@.len() && (#[trigger] self.blocks@[w].0) == root;
                    if w != i {
                        assert(self.blocks@[w].0 != self.blocks@[i as int].0);
                    }
                }
                return Some(self.blocks[i].1);
            }
            i = i + 1;
        }
        None
    }

    /// Look a state up by its root.
    pub fn get_state(&self, root: u64) -> (r: Option<&BeaconState>)
        requires
            self.wf(),
        ensures
            match r {
                Some(s) => self.spec_has_state(root) && *s == self.spec_state_at(root),
                None => !self.spec_has_state(root),
            },
    {
        let mut i: usize = 0;
        while i < self.states.len()
            invariant
                self.wf(),
                i <= self.states@.len(),
                forall|j: int| 0 <= j < i ==> (#[trigger] self.states@[j].0) != root,
            decreases self.states@.len() - i,
        {
            if self.states[i].0 == root {
                proof {
                    let w = choose|w: int|
                        0 <= w < self.states@.len() && (#[trigger] self.states@[w].0) == root;
                    if w != i {
                        assert(self.states@[w].0 != self.states@[i as int].0);
                    }
                }
                return Some(&self.states[i].1);
            }
            i = i + 1;
        }
        None
    }

    /// Record a block under its root; a root already present keeps its first
    /// entry.
    pub fn put_block(&mut self, root: u64, block: BeaconBlock)
        requires
            old(self).wf(),
        ensures
            final(self).wf(),
            final(self).states == old(self).states,
            final(self).spec_has_block(root),
            forall|r: u64|
                #[trigger] final(self).spec_has_block(r) <==> old(self).spec_has_block(r) || r
                    == root,
            forall|r: u64|
                old(self).spec_has_block(r) ==> #[trigger] final(self).spec_block_at(r) == old(
                    self,
                ).spec_block_at(r),
            !old(self).spec_has_block(root) ==> final(self).spec_block_at(root) == block,
    {
        let ghost pre = *self;
        if self.get_block(root).is_none() {
            self.blocks.push((root, block));
            proof {
                assert forall|i: int, j: int|
                    0 <= i < j < self.blocks@.len() implies (#[trigger] self.blocks@[i].0) != (
                #[trigger] self.blocks@[j].0) by {
                    if j < pre.blocks@.len() {
                    } else {
                        assert(pre.blocks@[i].0 != root);
                    }
                }
                assert forall|r: u64| #[trigger]
                    self.spec_has_block(r) implies pre.spec_has_block(r) || r == root by {
                    let w = choose|i: int|
                        0 <= i < self.blocks@.len() && (#[trigger] self.blocks@[i].0) == r;
                    if w < pre.blocks@.len() {
                        assert(pre.blocks@[w].0 == r);
                    }
                }
                assert forall|r: u64|
                    pre.spec_has_block(r) || r == root implies #[trigger] self.spec_has_block(
                    r,
                ) by {
                    if pre.spec_has_block(r) {
                        let w = choose|i: int|
                            0 <= i < pre.blocks@.len() && (#[trigger] pre.blocks@[i].0) == r;
                        assert(self.blocks@[w].0 == r);
                    } else {
                        assert(self.blocks@[pre.blocks@.len() as int].0 == root);
                    }
                }
                assert forall|r: u64|
                    pre.spec_has_block(r) implies #[trigger] self.spec_block_at(r)
                    == pre.spec_block_at(r) by {
                    let w = choose|i: int|
                        0 <= i < pre.blocks@.len() && (#[trigger] pre.blocks@[i].0) == r;
                    assert(self.blocks@[w].0 == r);
                    let w1 = choose|i: int|
                        0 <= i < self.blocks@.len() && (#[trigger] self.blocks@[i].0) == r;
                    if w1 != w {
                        if w1 < pre.blocks@.len() {
                            assert(false);
                        } else {
                            assert(pre.blocks@[w].0 != root);
                        }
                    }
                }
                if !pre.spec_has_block(root) {
                    assert(self.blocks@[pre.blocks@.len() as int].0 == root);
                    let w1 = choose|i: int|
                        0 <= i < self.blocks@.len() && (#[trigger] self.blocks@[i].0) == root;
                    if w1 < pre.blocks@.len() {
                        assert(pre.blocks@[w1].0 == root);
                        assert(false);
                    }
                    assert(self.blocks@[w1].1 == block);
                }
            }
        }
    }

    /// Record a state under its root; a root already present keeps its first
    /// entry.
    pub fn put_state(&mut self, root: u64, state: BeaconState)
        requires
            old(self).wf(),
        ensures
            final(self).wf(),
            final(self).blocks == old(self).blocks,
            final(self).spec_has_state(root),
            forall|r: u64|
                #[trigger] final(self).spec_has_state(r) <==> old(self).spec_has_state(r) || r
                    == root,
            forall|r: u64|
                old(self).spec_has_state(r) ==> #[trigger] final(self).spec_state_at(r) == old(
                    self,
                ).spec_state_at(r),
            !old(self).spec_has_state(root) ==> final(self).spec_state_at(root) == state,
    {
        let ghost pre = *self;
        let mut found: bool = false;
        let mut i: usize = 0;
        while i < self.states.len()
            invariant
                *self == pre,
                pre.wf(),
                i <= self.states@.len(),
                found <==> exists|j: int|
                    0 <= j < i && (#[trigger] self.states@[j].0) == root,
            decreases self.states@.len() - i,
        {
            if self.states[i].0 == root {
                found = true;
            }
            i = i + 1;
        }
        if !found {
            self.states.push((root, state));
            proof {
                assert forall|i2: int, j: int|
                    0 <= i2 < j < self.states@.len() implies (#[trigger] self.states@[i2].0) != (
                #[trigger] self.states@[j].0) by {
                    if j < pre.states@.len() {
                    } else {
                        assert(pre.states@[i2].0 != root);
                    }
                }
                assert forall|r: u64| #[trigger]
                    self.spec_has_state(r) implies pre.spec_has_state(r) || r == root by {
                    let w = choose|i2: int|
                        0 <= i2 < self.states@.len() && (#[trigger] self.states@[i2].0) == r;
                    if w < pre.states@.len() {
                        assert(pre.states@[w].0 == r);
                    }
                }
                assert forall|r: u64|
                    pre.spec_has_state(r) || r == root implies #[trigger] self.spec_has_state(
                    r,
                ) by {
                    if pre.spec_has_state(r) {
                        let w = choose|i2: int|
                            0 <= i2 < pre.states@.len() && (#[trigger] pre.states@[i2].0) == r;
                        assert(self.states@[w].0 == r);
                    } else {
                        assert(self.states@[pre.states@.len() as int].0 == root);
                    }
                }
                assert forall|r: u64|
                    pre.spec_has_state(r) implies #[trigger] self.spec_state_at(r)
                    == pre.spec_state_at(r) by {
                    let w = choose|i2: int|
                        0 <= i2 < pre.states@.len() && (#[trigger] pre.states@[i2].0) == r;
                    assert(self.states@[w].0 == r);
                    let w1 = choose|i2: int|
                        0 <= i2 < self.states@.len() && (#[trigger] self.states@[i2].0) == r;
                    if w1 != w {
                        if w1 < pre.states@.len() {
                            assert(false);
                        } else {
                            assert(pre.states@[w].0 != root);
                        }
                    }
                }
                if !pre.spec_has_state(root) {
                    assert(self.states@[pre.states@.len() as int].0 == root);
                    let w1 = choose|i2: int|
                        0 <= i2 < self.states@.len() && (#[trigger] self.states@[i2].0) == root;
                    if w1 < pre.states@.len() {
                        assert(pre.states@[w1].0 == root);
                        assert(false);
                    }
                    assert(self.states@[w1].1 == state);
                }
            }
        }
    }

    /// Derive the justified-balance vector at a checkpoint root.
    pub fn balances_at(&self, root: u64, c: &ChainConfig) -> (r: Result<Vec<u64>, StoreError>)
        requires
            self.wf(),
            c.wf(),
        ensures
            match r {
                Ok(bal) => self.spec_balances_at(root, *c) matches Ok(b) && bal@ == b,
                Err(e) => self.spec_balances_at(root, *c) == Err::<Seq<u64>, StoreError>(e),
            },
    {
        let block = match self.get_block(root) {
            Some(b) => b,
            None => {
                return Err(StoreError::MissingBlock { block_root: root });
            },
        };
        let state = match self.get_state(block.state_root) {
            Some(s) => s,
            None => {
                return Err(StoreError::MissingState { state_root: block.state_root });
            },
        };
        Ok(effective_balances(state, c))
    }
}

/// The first slot of the epoch after the one containing `slot` — the next
/// point at which ticking can promote the best justified checkpoint.
pub open spec fn spec_next_epoch_boundary(slot: u64, c: ChainConfig) -> int
    recommends
        c.wf(),
{
    (slot as int / c.slots_per_epoch as int + 1) * c.slots_per_epoch as int
}

/// The fork-choice store proper.
#[derive(PartialEq, Eq, Debug)]
pub struct ForkChoiceStore {
    pub config: ChainConfig,
    /// The current slot: the last time handed in, never decreased.
    pub current_slot: u64,
    /// The checkpoint currently scoring the DAG.
    pub justified_checkpoint: Checkpoint,
    /// Balances of the state at the justified checkpoint's block.
    pub justified_balances: Vec<u64>,
    /// The highest-epoch justified checkpoint seen so far.
    pub best_justified_checkpoint: Checkpoint,
    /// The finalized prefix of the chain.
    pub finalized_checkpoint: Checkpoint,
    /// The backing block/state lookup.
    pub block_store: BlockStore,
}

impl ForkChoiceStore {
    /// The checkpoint epochs are ordered, the configuration and the backing
    /// store are usable.
    pub open spec fn wf(self) -> bool {
        &&& self.config.wf()
        &&& self.block_store.wf()
        &&& self.finalized_checkpoint.epoch <= self.justified_checkpoint.epoch
        &&& self.justified_checkpoint.epoch <= self.best_justified_checkpoint.epoch
    }

    /// Whether catching the clock up to `time` crosses an epoch boundary
    /// while a better justified checkpoint is waiting; exactly then
    /// `update_time` promotes it. This is the composed form of ticking each
    /// intervening slot: among those ticks only the first boundary landed on
    /// can promote, since promotion equalizes the two checkpoints.
    pub open spec fn spec_update_promotes(self, time: u64) -> bool {
        &&& time > self.current_slot
        &&& spec_next_epoch_boundary(self.current_slot, self.config) <= time
        &&& self.best_justified_checkpoint.epoch > self.justified_checkpoint.epoch
    }

    /// Whether a single tick to `time` lands on a promotion point: a strictly
    /// newer slot that is the first slot of an epoch, with a better justified
    /// checkpoint waiting.
    pub open spec fn spec_tick_promotes(self, time: u64) -> bool {
        &&& time > self.current_slot
        &&& spec_slots_since_epoch_start(time, self.config) == 0
        &&& self.best_justified_checkpoint.epoch > self.justified_checkpoint.epoch
    }

    /// Build the store from the genesis snapshot. All three checkpoints start
    /// at the genesis block; the balances come from the genesis state.
    pub fn from_genesis(
        config: ChainConfig,
        genesis_block_root: u64,
        genesis_block: &BeaconBlock,
        genesis_state: BeaconState,
    ) -> (r: ForkChoiceStore)
        requires
            config.wf(),
        ensures
            r.wf(),
            r.config == config,
            r.current_slot == genesis_state.slot,
            r.justified_checkpoint.root == genesis_block_root,
            r.justified_checkpoint.epoch == spec_epoch_of(genesis_state.slot, config),
            r.best_justified_checkpoint == r.justified_checkpoint,
            r.finalized_checkpoint == r.justified_checkpoint,
            r.justified_balances@ == spec_effective_balances(genesis_state, config),
            r.block_store.spec_has_block(genesis_block_root),
            r.block_store.spec_block_at(genesis_block_root) == *genesis_block,
            r.block_store.spec_has_state(genesis_block.state_root),
            r.block_store.spec_state_at(genesis_block.state_root) == genesis_state,
    {
        let epoch = epoch_of_slot(genesis_state.slot, &config);
        let cp = Checkpoint { epoch, root: genesis_block_root };
        let balances = effective_balances(&genesis_state, &config);
        let slot = genesis_state.slot;
        let state_root = genesis_block.state_root;
        let mut block_store = BlockStore::new();
        block_store.put_block(genesis_block_root, *genesis_block);
        block_store.put_state(state_root, genesis_state);
        ForkChoiceStore {
            config,
            current_slot: slot,
            justified_checkpoint: cp,
            justified_balances: balances,
            best_justified_checkpoint: cp,
            finalized_checkpoint: cp,
            block_store,
        }
    }

    /// Advance the store's clock by one tick to `time`; the caller ticks
    /// once per slot. Landing exactly on the first slot of a new epoch with
    /// a better justified checkpoint waiting promotes that checkpoint and
    /// refreshes the balances from the state at its block — the one
    /// promotion path that needs no block. A failed balance lookup leaves
    /// the store untouched.
    pub fn on_tick(&mut self, time: u64) -> (r: Result<(), StoreError>)
        requires
            old(self).wf(),
            time >= old(self).current_slot,
        ensures
            final(self).config == old(self).config,
            final(self).block_store == old(self).block_store,
            final(self).finalized_checkpoint == old(self).finalized_checkpoint,
            final(self).best_justified_checkpoint == old(self).best_justified_checkpoint,
            match r {
                Ok(()) => {
                    &&& final(self).wf()
                    &&& final(self).current_slot == time
                    &&& if old(self).spec_tick_promotes(time) {
                        &&& final(self).justified_checkpoint == old(
                            self,
                        ).best_justified_checkpoint
                        &&& old(self).block_store.spec_balances_at(
                            old(self).best_justified_checkpoint.root,
                            old(self).config,
                        ) matches Ok(b) && final(self).justified_balances@ == b
                    } else {
                        &&& final(self).justified_checkpoint == old(self).justified_checkpoint
                        &&& final(self).justified_balances == old(self).justified_balances
                    }
                },
                Err(e) => *final(self) == *old(self) && old(self).spec_tick_promotes(time) && old(
                    self,
                ).block_store.spec_balances_at(
                    old(self).best_justified_checkpoint.root,
                    old(self).config,
                ) == Err::<Seq<u64>, StoreError>(e),
            },
    {
        let promotes: bool = time > self.current_slot && compute_slots_since_epoch_start(
            time,
            &self.config,
        ) == 0 && self.best_justified_checkpoint.epoch > self.justified_checkpoint.epoch;
        if promotes {
            let balances = match self.block_store.balances_at(
                self.best_justified_checkpoint.root,
                &self.config,
            ) {
                Ok(b) => b,
                Err(e) => {
                    return Err(e);
                },
            };
            self.justified_checkpoint = self.best_justified_checkpoint;
            self.justified_balances = balances;
        }
        self.current_slot = time;
        Ok(())
    }

    /// Catch the store's clock up to `time`, applying the composed effect of
    /// `on_tick` for every slot between the last known one and `time`: at
    /// most one of those ticks can promote — the first epoch boundary
    /// crossed, as `lemma_crossed_boundary` and `lemma_single_tick_boundary`
    /// relate — and the promotion refreshes the balances from the state at
    /// the best justified checkpoint's block. A failed balance lookup leaves
    /// the store untouched.
    pub fn update_time(&mut self, time: u64) -> (r: Result<(), StoreError>)
        requires
            old(self).wf(),
            time >= old(self).current_slot,
        ensures
            final(self).config == old(self).config,
            final(self).block_store == old(self).block_store,
            final(self).finalized_checkpoint == old(self).finalized_checkpoint,
            final(self).best_justified_checkpoint == old(self).best_justified_checkpoint,
            match r {
                Ok(()) => {
                    &&& final(self).wf()
                    &&& final(self).current_slot == time
                    &&& if old(self).spec_update_promotes(time) {
                        &&& final(self).justified_checkpoint == old(
                            self,
                        ).best_justified_checkpoint
                        &&& old(self).block_store.spec_balances_at(
                            old(self).best_justified_checkpoint.root,
                            old(self).config,
                        ) matches Ok(b) && final(self).justified_balances@ == b
                    } else {
                        &&& final(self).justified_checkpoint == old(self).justified_checkpoint
                        &&& final(self).justified_balances == old(self).justified_balances
                    }
                },
                Err(e) => *final(self) == *old(self) && old(self).spec_update_promotes(time) && old(
                    self,
                ).block_store.spec_balances_at(
                    old(self).best_justified_checkpoint.root,
                    old(self).config,
                ) == Err::<Seq<u64>, StoreError>(e),
            },
    {
        let promotes: bool = if time > self.current_slot
            && self.best_justified_checkpoint.epoch > self.justified_checkpoint.epoch {
            let q = self.current_slot / self.config.slots_per_epoch;
            if q < u64::MAX / self.config.slots_per_epoch {
                proof {
                    let spe = self.config.slots_per_epoch as int;
                    assert((q + 1) * spe <= u64::MAX) by (nonlinear_arith)
                        requires
                            spe > 0,
                            0 <= q < u64::MAX as int / spe,
                    ;
                }
                (q + 1) * self.config.slots_per_epoch <= time
            } else {
                proof {
                    let spe = self.config.slots_per_epoch as int;
                    assert((q + 1) * spe > u64::MAX) by (nonlinear_arith)
                        requires
                            spe > 0,
                            q >= u64::MAX as int / spe,
                    ;
                }
                false
            }
        } else {
            false
        };
        if promotes {
            let balances = match self.block_store.balances_at(
                self.best_justified_checkpoint.root,
                &self.config,
            ) {
                Ok(b) => b,
                Err(e) => {
                    return Err(e);
                },
            };
            self.justified_checkpoint = self.best_justified_checkpoint;
            self.justified_balances = balances;
        }
        self.current_slot = time;
        Ok(())
    }

    /// For a tick of a single slot, the catch-up trigger and the per-slot
    /// trigger agree: crossing into a new epoch is the same as landing
    /// exactly on the first slot of one.
    pub proof fn lemma_single_tick_boundary(self, time: u64)
        requires
            self.config.wf(),
            time == self.current_slot + 1,
        ensures
            self.spec_update_promotes(time) <==> self.spec_tick_promotes(time),
    {
        let spe = self.config.slots_per_epoch as int;
        let cur = self.current_slot as int;
        assert((((cur / spe) + 1) * spe <= cur + 1) == ((cur + 1) % spe == 0))
            by (nonlinear_arith)
            requires
                spe > 0,
                cur >= 0,
        ;
    }

    /// The catch-up trigger fires exactly when some slot between the last
    /// known one (exclusive) and `time` (inclusive) is the first slot of an
    /// epoch — the slot at which the corresponding per-slot tick promotes.
    pub proof fn lemma_crossed_boundary(self, time: u64)
        requires
            self.config.wf(),
        ensures
            spec_next_epoch_boundary(self.current_slot, self.config) <= time <==> exists|s: u64|
                self.current_slot < s <= time && spec_slots_since_epoch_start(s, self.config)
                    == 0,
    {
        let spe = self.config.slots_per_epoch as int;
        let cur = self.current_slot as int;
        let next = spec_next_epoch_boundary(self.current_slot, self.config);
        if next <= time {
            let w = (((cur / spe) + 1) * spe) as u64;
            assert(cur < (cur / spe + 1) * spe <= cur + spe) by (nonlinear_arith)
                requires
                    spe > 0,
                    cur >= 0,
            ;
            assert(((cur / spe + 1) * spe) % spe == 0) by (nonlinear_arith)
                requires
                    spe > 0,
                    cur >= 0,
            ;
            assert(self.current_slot < w <= time && spec_slots_since_epoch_start(w, self.config)
                == 0);
        }
        if exists|s: u64|
            self.current_slot < s <= time && spec_slots_since_epoch_start(s, self.config) == 0 {
            let s = choose|s: u64|
                self.current_slot < s <= time && spec_slots_since_epoch_start(s, self.config)
                    == 0;
            assert(s as int % spe == 0 && s > cur ==> (cur / spe + 1) * spe <= s)
                by (nonlinear_arith)
                requires
                    spe > 0,
                    cur >= 0,
            ;
        }
    }

    /// Set the finalized checkpoint.
    pub fn set_finalized_checkpoint(&mut self, c: Checkpoint)
        ensures
            *final(self) == (ForkChoiceStore { finalized_checkpoint: c, ..*old(self) }),
    {
        self.finalized_checkpoint = c;
    }

    /// Adopt the justified checkpoint a state announces, refreshing the
    /// balances from the state at that checkpoint's block. A failed lookup
    /// leaves the store untouched.
    pub fn set_justified_checkpoint(&mut self, state: &BeaconState) -> (r: Result<(), StoreError>)
        requires
            old(self).wf(),
        ensures
            match r {
                Ok(()) => {
                    &&& *final(self) == (ForkChoiceStore {
                        justified_checkpoint: state.current_justified_checkpoint,
                        justified_balances: final(self).justified_balances,
                        ..*old(self)
                    })
                    &&& old(self).block_store.spec_balances_at(
                        state.current_justified_checkpoint.root,
                        old(self).config,
                    ) matches Ok(b) && final(self).justified_balances@ == b
                },
                Err(e) => *final(self) == *old(self) && old(self).block_store.spec_balances_at(
                    state.current_justified_checkpoint.root,
                    old(self).config,
                ) == Err::<Seq<u64>, StoreError>(e),
            },
    {
        let balances = match self.block_store.balances_at(
            state.current_justified_checkpoint.root,
            &self.config,
        ) {
            Ok(b) => b,
            Err(e) => {
                return Err(e);
            },
        };
        self.justified_checkpoint = state.current_justified_checkpoint;
        self.justified_balances = balances;
        Ok(())
    }

    /// Adopt the justified checkpoint a state announces as the best one seen.
    pub fn set_best_justified_checkpoint(&mut self, state: &BeaconState)
        ensures
            *final(self) == (ForkChoiceStore {
                best_justified_checkpoint: state.current_justified_checkpoint,
                ..*old(self)
            }),
    {
        self.best_justified_checkpoint = state.current_justified_checkpoint;
    }

    /// The cached justified balances.
    pub fn justified_balances(&self) -> (r: &Vec<u64>)
        ensures
            r == &self.justified_balances,
    {
        &self.justified_balances
    }
}

/// Where the ancestor of `block_root` at `slot` is found: with the block
/// itself when its slot is low enough, in the state's recent block-root
/// history when `slot` falls inside it, and by walking the DAG otherwise.
/// An unknown `block_root` is a lookup failure.
pub open spec fn spec_get_ancestor(
    proto: ProtoArray,
    state: BeaconState,
    block_root: u64,
    slot: u64,
) -> Result<u64, StoreError>
    recommends
        proto.wf(),
{
    if !proto.spec_contains(block_root) {
        Err(StoreError::MissingBlock { block_root })
    } else {
        let i = proto.spec_index_of(block_root);
        if proto.nodes@[i].slot <= slot {
            Ok(block_root)
        } else if slot < state.slot && state.slot <= slot + state.block_roots@.len() {
            Ok(state.block_roots@[slot as int % state.block_roots@.len() as int])
        } else {
            Ok(proto.nodes@[proto.spec_ancestor_at(i, slot)].root)
        }
    }
}

/// Ancestor resolution reads only the blocks of the DAG, never its votes.
pub proof fn lemma_get_ancestor_from_nodes(
    a: ProtoArray,
    b: ProtoArray,
    state: BeaconState,
    block_root: u64,
    slot: u64,
)
    requires
        a.nodes == b.nodes,
        a.wf(),
    ensures
        spec_get_ancestor(a, state, block_root, slot) == spec_get_ancestor(
            b,
            state,
            block_root,
            slot,
        ),
{
    ProtoArray::lemma_lookup_from_nodes(a, b, block_root);
    if a.spec_contains(block_root) {
        ProtoArray::lemma_ancestor_from_nodes(a, b, a.spec_index_of(block_root), slot);
    }
}

/// Resolve the ancestor of `block_root` at `slot`, as `spec_get_ancestor`
/// describes.
pub fn get_ancestor(
    proto: &ProtoArray,
    state: &BeaconState,
    block_root: u64,
    slot: u64,
) -> (r: Result<u64, StoreError>)
    requires
        proto.wf(),
    ensures
        r == spec_get_ancestor(*proto, *state, block_root, slot),
{
    let i = match proto.find_index(block_root) {
        Some(i) => i,
        None => {
            return Err(StoreError::MissingBlock { block_root });
        },
    };
    if proto.nodes[i].slot <= slot {
        Ok(block_root)
    } else if slot < state.slot && state.slot - slot <= state.block_roots.len() as u64 {
        let idx = slot % (state.block_roots.len() as u64);
        Ok(state.block_roots[idx as usize])
    } else {
        let a = proto.ancestor_at(i, slot);
        Ok(proto.nodes[a].root)
    }
}

} // verus!
