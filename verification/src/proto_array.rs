//! The block DAG and its LMD-GHOST scoring: per-block metadata keyed by root,
//! one latest message per validator, weighted head computation, and pruning of
//! everything that does not descend from the finalized block.

use vstd::prelude::*;

use crate::error::ProtoArrayError;

verus! {

/// Per-block metadata held by the DAG. Parents are earlier indices, so the
/// vector is in insertion order and every parent precedes its children.
#[derive(Clone, Copy, PartialEq, Eq, Debug)]
pub struct ProtoNode {
    pub root: u64,
    pub parent: Option<usize>,
    pub slot: u64,
    pub state_root: u64,
    pub justified_epoch: u64,
    pub finalized_epoch: u64,
}

/// The latest message of one validator: the block it voted for and the target
/// epoch of that vote.
#[derive(Clone, Copy, PartialEq, Eq, Structural, Debug)]
pub struct Vote {
    pub root: u64,
    pub epoch: u64,
}

/// The DAG of blocks plus the latest-message table, indexed by validator.
#[derive(PartialEq, Eq, Debug)]
pub struct ProtoArray {
    pub nodes: Vec<ProtoNode>,
    pub votes: Vec<Option<Vote>>,
}

/// The latest-message table extended with empty slots up to length `n`.
pub open spec fn spec_padded_votes(votes: Seq<Option<Vote>>, n: nat) -> Seq<Option<Vote>> {
    if votes.len() >= n {
        votes
    } else {
        votes + Seq::new((n - votes.len()) as nat, |i: int| None::<Vote>)
    }
}

/// A new vote replaces a stored message only when its target is strictly newer.
pub open spec fn spec_should_overwrite(cur: Option<Vote>, epoch: u64) -> bool {
    match cur {
        None => true,
        Some(v) => epoch > v.epoch,
    }
}

/// The latest-message table after validator `v` votes `(root, epoch)`.
pub open spec fn spec_vote_update(
    votes: Seq<Option<Vote>>,
    v: int,
    root: u64,
    epoch: u64,
) -> Seq<Option<Vote>> {
    let padded = spec_padded_votes(votes, (v + 1) as nat);
    if spec_should_overwrite(padded[v], epoch) {
        padded.update(v, Some(Vote { root, epoch }))
    } else {
        padded
    }
}

/// How a pruned DAG relates to the one it came from: it keeps exactly the
/// blocks descending from the finalized block, each intact.
pub open spec fn spec_pruned_to(pre: ProtoArray, post: ProtoArray, finalized_root: u64) -> bool {
    &&& forall|root: u64|
        #[trigger] post.spec_contains(root) <==> (pre.spec_contains(root) && pre.spec_is_desc(
            pre.spec_index_of(finalized_root),
            pre.spec_index_of(root),
        ))
    &&& forall|root: u64|
        #[trigger] post.spec_contains(root) ==> ProtoArray::spec_kept_intact(
            pre,
            post,
            finalized_root,
            root,
        )
}

impl ProtoArray {
    /// Well-formed DAG: every parent precedes its child, and roots are unique.
    pub open spec fn wf(self) -> bool {
        &&& forall|i: int|
            0 <= i < self.nodes@.len() ==> (#[trigger] self.nodes@[i].parent matches Some(p)
                ==> p < i)
        &&& forall|i: int, j: int|
            0 <= i < j < self.nodes@.len() ==> (#[trigger] self.nodes@[i].root) != (
            #[trigger] self.nodes@[j].root)
    }

    /// Whether a block with this root is in the DAG.
    pub open spec fn spec_contains(self, root: u64) -> bool {
        exists|i: int| 0 <= i < self.nodes@.len() && (#[trigger] self.nodes@[i].root) == root
    }

    /// The index of the block with this root (meaningful when it is contained).
    pub open spec fn spec_index_of(self, root: u64) -> int {
        choose|i: int| 0 <= i < self.nodes@.len() && (#[trigger] self.nodes@[i].root) == root
    }

    /// Whether node `d` equals node `anc` or descends from it.
    pub open spec fn spec_is_desc(self, anc: int, d: int) -> bool
        recommends
            self.wf(),
            0 <= anc < self.nodes@.len(),
            0 <= d < self.nodes@.len(),
        decreases d,
    {
        if d == anc {
            true
        } else if d < anc {
            false
        } else {
            match self.nodes@[d].parent {
                Some(p) => if p < d {
                    self.spec_is_desc(anc, p as int)
                } else {
                    false
                },
                None => false,
            }
        }
    }

    /// The deepest ancestor of node `i` whose slot does not exceed `slot`;
    /// node `i` itself when its slot is low enough, the DAG root when every
    /// ancestor sits higher.
    pub open spec fn spec_ancestor_at(self, i: int, slot: u64) -> int
        recommends
            self.wf(),
            0 <= i < self.nodes@.len(),
        decreases i,
    {
        if self.nodes@[i].slot <= slot {
            i
        } else {
            match self.nodes@[i].parent {
                Some(p) => if p < i {
                    self.spec_ancestor_at(p as int, slot)
                } else {
                    i
                },
                None => i,
            }
        }
    }

    /// The index a freshly inserted block's parent pointer would carry.
    pub open spec fn spec_parent_index(self, parent_root: Option<u64>) -> Option<usize> {
        match parent_root {
            None => None,
            Some(pr) => if self.spec_contains(pr) {
                Some(self.spec_index_of(pr) as usize)
            } else {
                None
            },
        }
    }

    /// The stored latest message of a validator, as `(block_root, target_epoch)`.
    pub open spec fn spec_latest_message(self, v: int) -> Option<(u64, u64)> {
        if 0 <= v < self.votes@.len() {
            match self.votes@[v] {
                Some(vote) => Some((vote.root, vote.epoch)),
                None => None,
            }
        } else {
            None
        }
    }

    /// An empty DAG with no votes.
    pub fn new() -> (r: ProtoArray)
        ensures
            r.wf(),
            r.nodes@.len() == 0,
            r.votes@.len() == 0,
    {
        ProtoArray { nodes: Vec::new(), votes: Vec::new() }
    }

    /// Find the index of the block with this root.
    pub fn find_index(&self, root: u64) -> (r: Option<usize>)
        requires
            self.wf(),
        ensures
            match r {
                Some(i) => self.spec_contains(root) && i < self.nodes@.len()
                    && self.nodes@[i as int].root == root && i == self.spec_index_of(root),
                None => !self.spec_contains(root),
            },
    {
        let mut i: usize = 0;
        while i < self.nodes.len()
            invariant
                self.wf(),
                i <= self.nodes@.len(),
                forall|j: int| 0 <= j < i ==> (#[trigger] self.nodes@[j].root) != root,
            decreases self.nodes@.len() - i,
        {
            if self.nodes[i].root == root {
                proof {
                    let w = self.spec_index_of(root);
                    assert(0 <= w < self.nodes@.len() && self.nodes@[w].root == root);
                    if w != i {
                        assert(self.nodes@[w].root != self.nodes@[i as int].root);
                    }
                }
                return Some(i);
            }
            i = i + 1;
        }
        None
    }

    /// Whether a block with this root is in the DAG.
    pub fn contains_block(&self, block_root: u64) -> (r: bool)
        requires
            self.wf(),
        ensures
            r == self.spec_contains(block_root),
    {
        self.find_index(block_root).is_some()
    }

    /// The metadata of the block with this root.
    pub fn get_block(&self, block_root: u64) -> (r: Option<ProtoNode>)
        requires
            self.wf(),
        ensures
            match r {
                Some(n) => self.spec_contains(block_root) && n == self.nodes@[self.spec_index_of(
                    block_root,
                )],
                None => !self.spec_contains(block_root),
            },
    {
        match self.find_index(block_root) {
            Some(i) => Some(self.nodes[i]),
            None => None,
        }
    }

    /// Insert a block. A root already present is left untouched; an unknown
    /// parent root yields a parentless node (only the genesis block does this
    /// in a well-run chain).
    pub fn on_new_block(
        &mut self,
        root: u64,
        parent_root: Option<u64>,
        slot: u64,
        state_root: u64,
        justified_epoch: u64,
        finalized_epoch: u64,
    )
        requires
            old(self).wf(),
        ensures
            final(self).wf(),
            final(self).votes == old(self).votes,
            old(self).spec_contains(root) ==> final(self).nodes == old(self).nodes,
            !old(self).spec_contains(root) ==> final(self).nodes@ == old(self).nodes@.push(
                ProtoNode {
                    root,
                    parent: old(self).spec_parent_index(parent_root),
                    slot,
                    state_root,
                    justified_epoch,
                    finalized_epoch,
                },
            ),
            forall|r: u64|
                #[trigger] final(self).spec_contains(r) <==> old(self).spec_contains(r) || r
                    == root,
    {
        if self.find_index(root).is_some() {
            return ;
        }
        let parent: Option<usize> = match parent_root {
            Some(pr) => self.find_index(pr),
            None => None,
        };
        let node = ProtoNode { root, parent, slot, state_root, justified_epoch, finalized_epoch };
        let ghost pre = *self;
        self.nodes.push(node);
        proof {
            assert forall|i: int|
                0 <= i < self.nodes@.len() implies (#[trigger] self.nodes@[i].parent matches Some(p)
                ==> p < i) by {
                if i < pre.nodes@.len() {
                    assert(self.nodes@[i] == pre.nodes@[i]);
                }
            }
            assert forall|r: u64| #[trigger]
                self.spec_contains(r) implies pre.spec_contains(r) || r == root by {
                let w = choose|i: int|
                    0 <= i < self.nodes@.len() && (#[trigger] self.nodes@[i].root) == r;
                if w < pre.nodes@.len() {
                    assert(pre.nodes@[w].root == r);
                }
            }
            assert forall|r: u64| pre.spec_contains(r) || r == root implies #[trigger]
            self.spec_contains(r) by {
                if pre.spec_contains(r) {
                    let w = pre.spec_index_of(r);
                    assert(self.nodes@[w].root == r);
                } else {
                    assert(self.nodes@[pre.nodes@.len() as int].root == root);
                }
            }
        }
    }

    /// Record a validator's vote, overwriting only a strictly older target.
    pub fn on_new_vote(&mut self, validator_index: usize, block_root: u64, target_epoch: u64)
        requires
            validator_index < usize::MAX,
        ensures
            final(self).nodes == old(self).nodes,
            final(self).votes@ == spec_vote_update(
                old(self).votes@,
                validator_index as int,
                block_root,
                target_epoch,
            ),
    {
        let ghost pre = self.votes@;
        while self.votes.len() <= validator_index
            invariant
                pre.len() <= self.votes@.len() <= vstd::math::max(
                    pre.len() as int,
                    validator_index + 1,
                ),
                self.votes@ == spec_padded_votes(pre, self.votes@.len()),
                self.nodes == old(self).nodes,
                validator_index < usize::MAX,
            decreases validator_index + 1 - self.votes@.len(),
        {
            self.votes.push(None);
            proof {
                assert(self.votes@ =~= spec_padded_votes(pre, self.votes@.len()));
            }
        }
        proof {
            assert(self.votes@ =~= spec_padded_votes(pre, (validator_index + 1) as nat));
        }
        let overwrite: bool = match self.votes[validator_index] {
            None => true,
            Some(v) => target_epoch > v.epoch,
        };
        if overwrite {
            self.votes.set(validator_index, Some(Vote { root: block_root, epoch: target_epoch }));
        }
    }

    /// The stored latest message of a validator, as `(block_root, target_epoch)`.
    pub fn latest_message(&self, validator_index: usize) -> (r: Option<(u64, u64)>)
        ensures
            r == self.spec_latest_message(validator_index as int),
    {
        if validator_index < self.votes.len() {
            match self.votes[validator_index] {
                Some(vote) => Some((vote.root, vote.epoch)),
                None => None,
            }
        } else {
            None
        }
    }

    /// Whether the block at index `d` equals the block at `anc` or descends
    /// from it.
    pub fn is_descendant_idx(&self, anc: usize, d: usize) -> (r: bool)
        requires
            self.wf(),
            anc < self.nodes@.len(),
            d < self.nodes@.len(),
        ensures
            r == self.spec_is_desc(anc as int, d as int),
    {
        let mut cur: usize = d;
        loop
            invariant
                self.wf(),
                cur < self.nodes@.len(),
                anc < self.nodes@.len(),
                self.spec_is_desc(anc as int, d as int) == self.spec_is_desc(
                    anc as int,
                    cur as int,
                ),
            decreases cur,
        {
            if cur == anc {
                return true;
            }
            if cur < anc {
                return false;
            }
            match self.nodes[cur].parent {
                Some(p) => {
                    proof {
                        assert(self.nodes@[cur as int].parent matches Some(q) ==> q < cur);
                    }
                    cur = p;
                },
                None => {
                    return false;
                },
            }
        }
    }

    /// Walk up from index `i` to the deepest ancestor at or below `slot`.
    pub fn ancestor_at(&self, i: usize, slot: u64) -> (r: usize)
        requires
            self.wf(),
            i < self.nodes@.len(),
        ensures
            r < self.nodes@.len(),
            r == self.spec_ancestor_at(i as int, slot),
    {
        let mut cur: usize = i;
        loop
            invariant
                self.wf(),
                cur < self.nodes@.len(),
                self.spec_ancestor_at(i as int, slot) == self.spec_ancestor_at(cur as int, slot),
            decreases cur,
        {
            if self.nodes[cur].slot <= slot {
                return cur;
            }
            match self.nodes[cur].parent {
                Some(p) => {
                    proof {
                        assert(self.nodes@[cur as int].parent matches Some(q) ==> q < cur);
                    }
                    cur = p;
                },
                None => {
                    return cur;
                },
            }
        }
    }
    /// Membership and index lookup read only the blocks, not the votes.
    pub proof fn lemma_lookup_from_nodes(a: ProtoArray, b: ProtoArray, root: u64)
        requires
            a.nodes == b.nodes,
            a.wf(),
        ensures
            a.spec_contains(root) == b.spec_contains(root),
            a.spec_contains(root) ==> a.spec_index_of(root) == b.spec_index_of(root),
    {
        if a.spec_contains(root) {
            let i = a.spec_index_of(root);
            assert(b.nodes@[i].root == root);
            let j = b.spec_index_of(root);
            if i != j {
                if i < j {
                    assert(a.nodes@[i].root != a.nodes@[j].root);
                } else {
                    assert(a.nodes@[j].root != a.nodes@[i].root);
                }
            }
        }
        if b.spec_contains(root) {
            let i = b.spec_index_of(root);
            assert(a.nodes@[i].root == root);
        }
    }

    /// Ancestor walks read only the blocks, not the votes.
    pub proof fn lemma_ancestor_from_nodes(a: ProtoArray, b: ProtoArray, i: int, slot: u64)
        requires
            a.nodes == b.nodes,
            a.wf(),
            0 <= i < a.nodes@.len(),
        ensures
            a.spec_ancestor_at(i, slot) == b.spec_ancestor_at(i, slot),
        decreases i,
    {
        if a.nodes@[i].slot > slot {
            match a.nodes@[i].parent {
                Some(p) => {
                    if p < i {
                        ProtoArray::lemma_ancestor_from_nodes(a, b, p as int, slot);
                    }
                },
                None => {},
            }
        }
    }

    /// The weight validator `v` contributes to the subtree rooted at node `i`:
    /// its balance when its latest message sits inside that subtree.
    pub open spec fn spec_vote_weight(self, balances: Seq<u64>, i: int, v: int) -> int {
        if 0 <= v < self.votes@.len() && v < balances.len() {
            match self.votes@[v] {
                Some(vote) => if self.spec_contains(vote.root) && self.spec_is_desc(
                    i,
                    self.spec_index_of(vote.root),
                ) {
                    balances[v] as int
                } else {
                    0
                },
                None => 0,
            }
        } else {
            0
        }
    }

    /// The subtree weight of node `i`, summed over the first `n` validators.
    pub open spec fn spec_weight_upto(self, balances: Seq<u64>, i: int, n: nat) -> int
        decreases n,
    {
        if n == 0 {
            0
        } else {
            self.spec_weight_upto(balances, i, (n - 1) as nat) + self.spec_vote_weight(
                balances,
                i,
                n - 1,
            )
        }
    }

    /// The LMD-GHOST weight of the subtree rooted at node `i`.
    pub open spec fn spec_weight(self, balances: Seq<u64>, i: int) -> int {
        self.spec_weight_upto(balances, i, self.votes@.len())
    }

    /// Whether node `c` beats node `b` as a head candidate: strictly heavier,
    /// or equally heavy with the larger root as the tie break.
    pub open spec fn spec_better(self, balances: Seq<u64>, c: int, b: int) -> bool {
        let wc = self.spec_weight(balances, c);
        let wb = self.spec_weight(balances, b);
        wc > wb || (wc == wb && self.nodes@[c].root > self.nodes@[b].root)
    }

    /// Whether node `d`'s parent pointer names node `i`.
    pub open spec fn spec_is_child_of(self, d: int, i: int) -> bool {
        self.nodes@[d].parent matches Some(p) && p == i
    }

    /// The best child of node `i` among nodes with index below `j`.
    pub open spec fn spec_best_child_upto(self, balances: Seq<u64>, i: int, j: nat) -> Option<int>
        decreases j,
    {
        if j == 0 {
            None
        } else {
            let prev = self.spec_best_child_upto(balances, i, (j - 1) as nat);
            if self.spec_is_child_of(j - 1, i) {
                match prev {
                    None => Some(j - 1),
                    Some(b) => if self.spec_better(balances, j - 1, b) {
                        Some(j - 1)
                    } else {
                        Some(b)
                    },
                }
            } else {
                prev
            }
        }
    }

    /// The heaviest child of node `i`, or nothing when `i` is a leaf.
    pub open spec fn spec_best_child(self, balances: Seq<u64>, i: int) -> Option<int> {
        self.spec_best_child_upto(balances, i, self.nodes@.len())
    }

    /// A best child is a child, lies past its parent, and no other child
    /// beats it; when there is none, the node has no children at all.
    pub proof fn lemma_best_child_upto(self, balances: Seq<u64>, i: int, j: nat)
        requires
            self.wf(),
            0 <= i < self.nodes@.len(),
            j <= self.nodes@.len(),
        ensures
            match self.spec_best_child_upto(balances, i, j) {
                Some(c) => 0 <= c < j && i < c && self.spec_is_child_of(c, i) && forall|d: int|
                    0 <= d < j && d != c && #[trigger] self.spec_is_child_of(d, i)
                        ==> !self.spec_better(balances, d, c),
                None => forall|d: int| 0 <= d < j ==> !(#[trigger] self.spec_is_child_of(d, i)),
            },
        decreases j,
    {
        if j > 0 {
            self.lemma_best_child_upto(balances, i, (j - 1) as nat);
            let prev = self.spec_best_child_upto(balances, i, (j - 1) as nat);
            if self.spec_is_child_of(j - 1, i) {
                assert(self.nodes@[j - 1].parent matches Some(q) ==> q < j - 1);
                match prev {
                    None => {},
                    Some(b) => {
                        let c = if self.spec_better(balances, j - 1, b) {
                            j - 1
                        } else {
                            b
                        };
                        assert(self.nodes@[b].root != self.nodes@[j - 1].root);
                        assert forall|d: int|
                            0 <= d < j && d != c && #[trigger] self.spec_is_child_of(d, i)
                             implies !self.spec_better(balances, d, c) by {
                            if d < j - 1 && d != b {
                                assert(!self.spec_better(balances, d, b));
                                if d < b {
                                    assert(self.nodes@[d].root != self.nodes@[b].root);
                                } else {
                                    assert(self.nodes@[b].root != self.nodes@[d].root);
                                }
                            }
                        }
                    },
                }
            }
        }
    }

    /// The head reached from node `i` by following best children to a leaf.
    pub open spec fn spec_head_from(self, balances: Seq<u64>, i: int) -> int
        recommends
            self.wf(),
            0 <= i < self.nodes@.len(),
        decreases self.nodes@.len() - i,
    {
        match self.spec_best_child(balances, i) {
            None => i,
            Some(c) => if i < c < self.nodes@.len() {
                self.spec_head_from(balances, c)
            } else {
                i
            },
        }
    }

    /// The head reached from `i` is a descendant of `i` and has no children.
    pub proof fn lemma_head_from(self, balances: Seq<u64>, i: int)
        requires
            self.wf(),
            0 <= i < self.nodes@.len(),
        ensures
            i <= self.spec_head_from(balances, i) < self.nodes@.len(),
            self.spec_is_desc(i, self.spec_head_from(balances, i)),
            self.spec_best_child(balances, self.spec_head_from(balances, i)) is None,
        decreases self.nodes@.len() - i,
    {
        self.lemma_best_child_upto(balances, i, self.nodes@.len());
        match self.spec_best_child(balances, i) {
            None => {
                assert(self.spec_is_desc(i, i));
            },
            Some(c) => {
                assert(self.spec_is_desc(i, i));
                assert(self.spec_is_desc(i, c));
                self.lemma_head_from(balances, c);
                self.lemma_desc_trans(i, c, self.spec_head_from(balances, c));
            },
        }
    }

    /// Descent is transitive.
    pub proof fn lemma_desc_trans(self, a: int, b: int, c: int)
        requires
            self.wf(),
            0 <= a < self.nodes@.len(),
            0 <= b < self.nodes@.len(),
            0 <= c < self.nodes@.len(),
            self.spec_is_desc(a, b),
            self.spec_is_desc(b, c),
        ensures
            self.spec_is_desc(a, c),
        decreases c,
    {
        if c != b {
            match self.nodes@[c].parent {
                Some(p) => {
                    self.lemma_desc_trans(a, b, p as int);
                },
                None => {},
            }
        }
    }

    /// What pruning below `finalized_root` leaves behind: exactly the blocks
    /// descending from the finalized block, each with its data intact, each
    /// non-finalized survivor still pointing at a parent with the same root,
    /// and the finalized block itself parentless.
    pub open spec fn spec_kept_intact(pre: ProtoArray, post: ProtoArray, finalized_root: u64, root: u64) -> bool {
        let n = post.spec_index_of(root);
        let o = pre.spec_index_of(root);
        &&& post.nodes@[n].slot == pre.nodes@[o].slot
        &&& post.nodes@[n].state_root == pre.nodes@[o].state_root
        &&& post.nodes@[n].justified_epoch == pre.nodes@[o].justified_epoch
        &&& post.nodes@[n].finalized_epoch == pre.nodes@[o].finalized_epoch
        &&& (root == finalized_root ==> post.nodes@[n].parent is None)
        &&& (root != finalized_root ==> (post.nodes@[n].parent matches Some(np) && np
            < post.nodes@.len() && (pre.nodes@[o].parent matches Some(op)
            && post.nodes@[np as int].root == pre.nodes@[op as int].root)))
    }

    /// A node with an ancestor at `a` sits at `a` or past it.
    pub proof fn lemma_desc_ge(self, a: int, d: int)
        requires
            self.wf(),
            0 <= a < self.nodes@.len(),
            0 <= d < self.nodes@.len(),
            self.spec_is_desc(a, d),
        ensures
            d >= a,
        decreases d,
    {
    }

    /// Drop every block that does not descend from the finalized block; the
    /// finalized block itself stays and becomes the root of the DAG.
    pub fn maybe_prune(&mut self, finalized_root: u64) -> (r: Result<(), ProtoArrayError>)
        requires
            old(self).wf(),
        ensures
            final(self).wf(),
            final(self).votes == old(self).votes,
            match r {
                Ok(()) => old(self).spec_contains(finalized_root) && spec_pruned_to(
                    *old(self),
                    *final(self),
                    finalized_root,
                ),
                Err(e) => final(self).nodes == old(self).nodes && !old(self).spec_contains(
                    finalized_root,
                ) && e == (ProtoArrayError::FinalizedNodeUnknown { root: finalized_root }),
            },
    {
        let fidx: usize = match self.find_index(finalized_root) {
            Some(i) => i,
            None => {
                return Err(ProtoArrayError::FinalizedNodeUnknown { root: finalized_root });
            },
        };
        let ghost pre = *self;
        let mut new_nodes: Vec<ProtoNode> = Vec::new();
        let mut remap: Vec<Option<usize>> = Vec::new();
        let ghost mut orig: Seq<int> = Seq::empty();
        let mut k: usize = 0;
        while k < self.nodes.len()
            invariant
                *self == pre,
                pre.wf(),
                fidx < pre.nodes@.len(),
                pre.nodes@[fidx as int].root == finalized_root,
                fidx == pre.spec_index_of(finalized_root),
                k <= pre.nodes@.len(),
                remap@.len() == k,
                orig.len() == new_nodes@.len(),
                forall|n: int|
                    0 <= n < new_nodes@.len() ==> ({
                        let o = #[trigger] orig[n];
                        &&& 0 <= o < k
                        &&& (remap@[o] matches Some(m) && m == n)
                        &&& new_nodes@[n].root == pre.nodes@[o].root
                        &&& new_nodes@[n].slot == pre.nodes@[o].slot
                        &&& new_nodes@[n].state_root == pre.nodes@[o].state_root
                        &&& new_nodes@[n].justified_epoch == pre.nodes@[o].justified_epoch
                        &&& new_nodes@[n].finalized_epoch == pre.nodes@[o].finalized_epoch
                        &&& (o == fidx ==> new_nodes@[n].parent is None)
                        &&& (o != fidx ==> (new_nodes@[n].parent matches Some(np) && np < n && (
                        pre.nodes@[o].parent matches Some(op) && remap@[op as int] == Some(np))))
                    }),
                forall|kk: int|
                    0 <= kk < k ==> ((#[trigger] remap@[kk]) matches Some(n) ==> n
                        < new_nodes@.len() && orig[n as int] == kk),
                forall|kk: int|
                    0 <= kk < k ==> ((#[trigger] remap@[kk]) is Some <==> pre.spec_is_desc(
                        fidx as int,
                        kk,
                    )),
            decreases pre.nodes@.len() - k,
        {
            let node = self.nodes[k];
            if k == fidx {
                remap.push(Some(new_nodes.len()));
                proof {
                    orig = orig.push(k as int);
                }
                new_nodes.push(
                    ProtoNode {
                        root: node.root,
                        parent: None,
                        slot: node.slot,
                        state_root: node.state_root,
                        justified_epoch: node.justified_epoch,
                        finalized_epoch: node.finalized_epoch,
                    },
                );
            } else {
                let mapped: Option<usize> = match node.parent {
                    Some(p) => remap[p],
                    None => None,
                };
                match mapped {
                    Some(np) => {
                        proof {
                            let p = node.parent->Some_0;
                            assert(pre.spec_is_desc(fidx as int, p as int));
                            pre.lemma_desc_ge(fidx as int, p as int);
                            assert(pre.spec_is_desc(fidx as int, k as int));
                        }
                        remap.push(Some(new_nodes.len()));
                        proof {
                            orig = orig.push(k as int);
                        }
                        new_nodes.push(
                            ProtoNode {
                                root: node.root,
                                parent: Some(np),
                                slot: node.slot,
                                state_root: node.state_root,
                                justified_epoch: node.justified_epoch,
                                finalized_epoch: node.finalized_epoch,
                            },
                        );
                    },
                    None => {
                        proof {
                            assert(!pre.spec_is_desc(fidx as int, k as int));
                        }
                        remap.push(None);
                    },
                }
            }
            k = k + 1;
        }
        let ghost post_nodes = new_nodes@;
        proof {
            assert forall|i: int, j: int|
                0 <= i < j < post_nodes.len() implies post_nodes[i].root != post_nodes[j].root by {
                assert(remap@[orig[i]] matches Some(m) && m == i);
                assert(remap@[orig[j]] matches Some(m) && m == j);
                assert(orig[i] != orig[j]);
            }
        }
        self.nodes = new_nodes;
        proof {
            assert forall|n: int|
                0 <= n < self.nodes@.len() implies (#[trigger] self.nodes@[n].parent matches Some(
                p,
            ) ==> p < n) by {
                let o = orig[n];
            }
            assert forall|root: u64| #[trigger]
                self.spec_contains(root) implies (pre.spec_contains(root) && pre.spec_is_desc(
                fidx as int,
                pre.spec_index_of(root),
            )) by {
                let n = choose|n: int|
                    0 <= n < self.nodes@.len() && (#[trigger] self.nodes@[n].root) == root;
                let o = orig[n];
                assert(pre.nodes@[o].root == root);
                assert(pre.spec_contains(root));
                let oi = pre.spec_index_of(root);
                assert(pre.nodes@[oi].root == root);
                if oi != o {
                    assert(pre.nodes@[oi].root != pre.nodes@[o].root);
                }
                assert(remap@[o] is Some);
            }
            assert forall|root: u64|
                (pre.spec_contains(root) && pre.spec_is_desc(
                    fidx as int,
                    pre.spec_index_of(root),
                )) implies #[trigger] self.spec_contains(root) by {
                let o = pre.spec_index_of(root);
                assert(remap@[o] is Some);
                let n = remap@[o]->Some_0;
                assert(self.nodes@[n as int].root == root);
            }
            assert forall|root: u64| #[trigger]
                self.spec_contains(root) implies ProtoArray::spec_kept_intact(
                pre,
                *self,
                finalized_root,
                root,
            ) by {
                let n = self.spec_index_of(root);
                assert(0 <= n < self.nodes@.len() && self.nodes@[n].root == root);
                let o = orig[n];
                assert(pre.nodes@[o].root == root);
                let oi = pre.spec_index_of(root);
                if oi != o {
                    assert(pre.nodes@[oi].root != pre.nodes@[o].root);
                }
                if o == fidx {
                    assert(root == finalized_root);
                } else {
                    assert(root != finalized_root);
                    assert(self.nodes@[n].parent matches Some(np) && np < n);
                    let np = self.nodes@[n].parent->Some_0;
                    assert(pre.nodes@[o].parent matches Some(op) && remap@[op as int] == Some(np));
                    let op = pre.nodes@[o].parent->Some_0;
                    assert(orig[np as int] == op as int);
                    assert(self.nodes@[np as int].root == pre.nodes@[op as int].root);
                }
            }
        }
        Ok(())
    }

    /// The subtree weight of node `i` over the first `n` validators, as run.
    fn weight_upto(&self, balances: &Vec<u64>, i: usize, n: usize) -> (w: u128)
        requires
            self.wf(),
            i < self.nodes@.len(),
            n <= self.votes@.len(),
        ensures
            w == self.spec_weight_upto(balances@, i as int, n as nat),
    {
        let mut w: u128 = 0;
        let mut v: usize = 0;
        while v < n
            invariant
                self.wf(),
                i < self.nodes@.len(),
                v <= n <= self.votes@.len(),
                w == self.spec_weight_upto(balances@, i as int, v as nat),
                w <= v as int * u64::MAX as int,
            decreases n - v,
        {
            let contribution: u64 = match self.votes[v] {
                Some(vote) => {
                    if v < balances.len() {
                        match self.find_index(vote.root) {
                            Some(ti) => {
                                if self.is_descendant_idx(i, ti) {
                                    balances[v]
                                } else {
                                    0
                                }
                            },
                            None => 0,
                        }
                    } else {
                        0
                    }
                },
                None => 0,
            };
            proof {
                assert(contribution == self.spec_vote_weight(balances@, i as int, v as int));
                assert(w + contribution <= (v as int + 1) * u64::MAX as int) by (nonlinear_arith)
                    requires
                        w <= v as int * u64::MAX as int,
                        contribution <= u64::MAX as int,
                ;
                assert((v as int + 1) * u64::MAX as int <= u128::MAX as int) by (nonlinear_arith)
                    requires
                        v as int + 1 <= u64::MAX as int,
                ;
            }
            w = w + contribution as u128;
            v = v + 1;
        }
        w
    }

    /// The LMD-GHOST weight of the subtree rooted at node `i`, as run.
    pub fn node_weight(&self, balances: &Vec<u64>, i: usize) -> (w: u128)
        requires
            self.wf(),
            i < self.nodes@.len(),
        ensures
            w == self.spec_weight(balances@, i as int),
    {
        self.weight_upto(balances, i, self.votes.len())
    }

    /// The heaviest child of node `i`, ties broken toward the larger root.
    fn best_child(&self, balances: &Vec<u64>, i: usize) -> (r: Option<usize>)
        requires
            self.wf(),
            i < self.nodes@.len(),
        ensures
            match r {
                Some(c) => self.spec_best_child(balances@, i as int) == Some(c as int),
                None => self.spec_best_child(balances@, i as int) is None,
            },
    {
        let mut best: Option<usize> = None;
        let mut best_w: u128 = 0;
        let mut j: usize = 0;
        while j < self.nodes.len()
            invariant
                self.wf(),
                i < self.nodes@.len(),
                j <= self.nodes@.len(),
                match best {
                    Some(b) => self.spec_best_child_upto(balances@, i as int, j as nat) == Some(
                        b as int,
                    ) && b < self.nodes@.len() && best_w == self.spec_weight(balances@, b as int),
                    None => self.spec_best_child_upto(balances@, i as int, j as nat) is None,
                },
            decreases self.nodes@.len() - j,
        {
            let is_child: bool = match self.nodes[j].parent {
                Some(p) => p == i,
                None => false,
            };
            if is_child {
                let wj = self.node_weight(balances, j);
                match best {
                    None => {
                        best = Some(j);
                        best_w = wj;
                    },
                    Some(b) => {
                        if wj > best_w || (wj == best_w && self.nodes[j].root > self.nodes[b].root)
                        {
                            best = Some(j);
                            best_w = wj;
                        }
                    },
                }
            }
            j = j + 1;
        }
        best
    }

    /// Run the LMD-GHOST rule: the head is found by walking from the node of
    /// `justified_root` along heaviest children down to a leaf.
    pub fn find_head(&self, justified_root: u64, balances: &Vec<u64>) -> (r: Result<
        u64,
        ProtoArrayError,
    >)
        requires
            self.wf(),
        ensures
            match r {
                Ok(h) => self.spec_contains(justified_root) && ({
                    let head = self.spec_head_from(balances@, self.spec_index_of(justified_root));
                    &&& h == self.nodes@[head].root
                    &&& self.spec_is_desc(self.spec_index_of(justified_root), head)
                    &&& self.spec_best_child(balances@, head) is None
                }),
                Err(e) => !self.spec_contains(justified_root) && e
                    == (ProtoArrayError::JustifiedNodeUnknown { root: justified_root }),
            },
    {
        let start: usize = match self.find_index(justified_root) {
            Some(i) => i,
            None => {
                return Err(ProtoArrayError::JustifiedNodeUnknown { root: justified_root });
            },
        };
        proof {
            self.lemma_head_from(balances@, start as int);
        }
        let mut cur: usize = start;
        loop
            invariant
                self.wf(),
                cur < self.nodes@.len(),
                start < self.nodes@.len(),
                self.spec_contains(justified_root),
                start == self.spec_index_of(justified_root),
                self.spec_head_from(balances@, start as int) == self.spec_head_from(
                    balances@,
                    cur as int,
                ),
                self.spec_is_desc(start as int, self.spec_head_from(balances@, start as int)),
                self.spec_best_child(
                    balances@,
                    self.spec_head_from(balances@, start as int),
                ) is None,
            decreases self.nodes@.len() - cur,
        {
            match self.best_child(balances, cur) {
                None => {
                    return Ok(self.nodes[cur].root);
                },
                Some(c) => {
                    proof {
                        self.lemma_best_child_upto(balances@, cur as int, self.nodes@.len());
                    }
                    cur = c;
                },
            }
        }
    }
}

} // verus!
