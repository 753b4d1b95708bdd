//! Snapshot and restore: the store and the DAG each encode to a word list,
//! a snapshot carries those byte vectors beside the queued attestations and
//! the genesis block root, and restoring reproduces the encoded state.

use vstd::prelude::*;

use crate::attestation::{QueuedAttestation, spec_q_eq, spec_queue_eq};
use crate::protocol::ForkChoice;
use crate::codec::{
    spec_u64_list, spec_read_u64_list, write_u64_list, read_u64_list, lemma_read_u64_list_at,
    spec_u64_le, spec_read_u64, write_u64, read_u64, lemma_read_u64_at, spec_bytes_chunk,
    spec_read_bytes_chunk, write_bytes_chunk, read_bytes_chunk, lemma_read_bytes_chunk_at,
};
use crate::config::{ChainConfig, Checkpoint};
use crate::error::Error;
use crate::proto_array::{ProtoArray, ProtoNode, Vote};
use crate::store::{BlockStore, ForkChoiceStore};


verus! {

/// The fixed header of a store encoding, followed by the balances.
pub open spec fn spec_store_words(s: ForkChoiceStore) -> Seq<u64> {
    seq![
        s.config.slots_per_epoch,
        s.config.safe_slots_to_update_justified,
        s.current_slot,
        s.justified_checkpoint.epoch,
        s.justified_checkpoint.root,
        s.best_justified_checkpoint.epoch,
        s.best_justified_checkpoint.root,
        s.finalized_checkpoint.epoch,
        s.finalized_checkpoint.root,
    ] + s.justified_balances@
}

/// The byte form of a store.
pub open spec fn spec_store_bytes(s: ForkChoiceStore) -> Seq<u8> {
    spec_u64_list(spec_store_words(s))
}

/// What decoding store bytes yields: the configuration, the current slot,
/// the three checkpoints and the balances — or nothing, when the bytes are
/// not a whole, ordered store encoding.
pub open spec fn spec_store_fields(b: Seq<u8>) -> Option<
    (ChainConfig, u64, Checkpoint, Checkpoint, Checkpoint, Seq<u64>),
> {
    match spec_read_u64_list(b, 0) {
        None => None,
        Some((ws, p)) => if p == b.len() && ws.len() >= 9 && ws[0] > 0 && ws[7] <= ws[3] && ws[3]
            <= ws[5] {
            Some(
                (
                    ChainConfig { slots_per_epoch: ws[0], safe_slots_to_update_justified: ws[1] },
                    ws[2],
                    Checkpoint { epoch: ws[3], root: ws[4] },
                    Checkpoint { epoch: ws[5], root: ws[6] },
                    Checkpoint { epoch: ws[7], root: ws[8] },
                    ws.skip(9),
                ),
            )
        } else {
            None
        },
    }
}

/// A well-formed store's bytes decode to exactly its fields.
pub proof fn lemma_store_roundtrip(s: ForkChoiceStore)
    requires
        s.wf(),
        s.justified_balances@.len() + 9 <= usize::MAX,
    ensures
        spec_store_fields(spec_store_bytes(s)) == Some(
            (
                s.config,
                s.current_slot,
                s.justified_checkpoint,
                s.best_justified_checkpoint,
                s.finalized_checkpoint,
                s.justified_balances@,
            ),
        ),
{
    let ws = spec_store_words(s);
    lemma_read_u64_list_at(Seq::empty(), ws, Seq::empty());
    assert(Seq::<u8>::empty() + spec_u64_list(ws) + Seq::<u8>::empty() =~= spec_store_bytes(s));
    assert(ws.skip(9) =~= s.justified_balances@);
}

impl ForkChoiceStore {
    /// Encode the store: configuration, current slot, the three checkpoints,
    /// and the justified balances, as one word list.
    pub fn to_bytes(&self) -> (r: Vec<u8>)
        ensures
            r@ == spec_store_bytes(*self),
    {
        let mut words: Vec<u64> = Vec::new();
        words.push(self.config.slots_per_epoch);
        words.push(self.config.safe_slots_to_update_justified);
        words.push(self.current_slot);
        words.push(self.justified_checkpoint.epoch);
        words.push(self.justified_checkpoint.root);
        words.push(self.best_justified_checkpoint.epoch);
        words.push(self.best_justified_checkpoint.root);
        words.push(self.finalized_checkpoint.epoch);
        words.push(self.finalized_checkpoint.root);
        let mut i: usize = 0;
        while i < self.justified_balances.len()
            invariant
                i <= self.justified_balances@.len(),
                words@ == spec_store_words(*self).take(9 + i),
            decreases self.justified_balances@.len() - i,
        {
            words.push(self.justified_balances[i]);
            proof {
                assert(words@ =~= spec_store_words(*self).take(9 + i + 1));
            }
            i = i + 1;
        }
        proof {
            assert(words@ =~= spec_store_words(*self));
        }
        let mut out: Vec<u8> = Vec::new();
        write_u64_list(&mut out, &words);
        proof {
            assert(out@ =~= spec_store_bytes(*self));
        }
        out
    }

    /// Decode a store from its byte form, attaching the given backing store.
    /// Bytes that are not a whole, ordered store encoding are refused.
    pub fn from_bytes(bytes: &Vec<u8>, block_store: BlockStore) -> (r: Result<
        ForkChoiceStore,
        Error,
    >)
        requires
            block_store.wf(),
        ensures
            match r {
                Ok(s) => spec_store_fields(bytes@) matches Some(f) && s.config == f.0
                    && s.current_slot == f.1 && s.justified_checkpoint == f.2
                    && s.best_justified_checkpoint == f.3 && s.finalized_checkpoint == f.4
                    && s.justified_balances@ == f.5 && s.block_store == block_store && s.wf(),
                Err(e) => spec_store_fields(bytes@) is None && e
                    == Error::InvalidForkChoiceStoreBytes,
            },
    {
        let (ws, p) = match read_u64_list(bytes, 0) {
            Some(x) => x,
            None => {
                return Err(Error::InvalidForkChoiceStoreBytes);
            },
        };
        if !(p == bytes.len() && ws.len() >= 9 && ws[0] > 0 && ws[7] <= ws[3] && ws[3] <= ws[5]) {
            return Err(Error::InvalidForkChoiceStoreBytes);
        }
        let mut balances: Vec<u64> = Vec::new();
        let mut i: usize = 9;
        while i < ws.len()
            invariant
                9 <= i <= ws@.len(),
                balances@ == ws@.subrange(9, i as int),
            decreases ws@.len() - i,
        {
            balances.push(ws[i]);
            proof {
                assert(balances@ =~= ws@.subrange(9, i + 1));
            }
            i = i + 1;
        }
        proof {
            assert(balances@ =~= ws@.skip(9));
        }
        Ok(
            ForkChoiceStore {
                config: ChainConfig {
                    slots_per_epoch: ws[0],
                    safe_slots_to_update_justified: ws[1],
                },
                current_slot: ws[2],
                justified_checkpoint: Checkpoint { epoch: ws[3], root: ws[4] },
                justified_balances: balances,
                best_justified_checkpoint: Checkpoint { epoch: ws[5], root: ws[6] },
                finalized_checkpoint: Checkpoint { epoch: ws[7], root: ws[8] },
                block_store,
            },
        )
    }
}

/// The words of one DAG node.
pub open spec fn spec_node_words(n: ProtoNode) -> Seq<u64> {
    seq![
        n.root,
        match n.parent {
            None => 0u64,
            Some(p) => (p + 1) as u64,
        },
        n.slot,
        n.state_root,
        n.justified_epoch,
        n.finalized_epoch,
    ]
}

/// The words of a node list, six per node.
pub open spec fn spec_nodes_words(s: Seq<ProtoNode>) -> Seq<u64>
    decreases s.len(),
{
    if s.len() == 0 {
        Seq::empty()
    } else {
        spec_nodes_words(s.drop_last()) + spec_node_words(s.last())
    }
}

/// The words of one vote-table entry.
pub open spec fn spec_vote_words(v: Option<Vote>) -> Seq<u64> {
    match v {
        None => seq![0u64, 0u64, 0u64],
        Some(vote) => seq![1u64, vote.root, vote.epoch],
    }
}

/// The words of the vote table, three per validator.
pub open spec fn spec_votes_words(s: Seq<Option<Vote>>) -> Seq<u64>
    decreases s.len(),
{
    if s.len() == 0 {
        Seq::empty()
    } else {
        spec_votes_words(s.drop_last()) + spec_vote_words(s.last())
    }
}

/// The word form of the DAG: node count, nodes, vote count, votes.
pub open spec fn spec_proto_words(pa: ProtoArray) -> Seq<u64> {
    seq![pa.nodes@.len() as u64] + spec_nodes_words(pa.nodes@) + seq![pa.votes@.len() as u64]
        + spec_votes_words(pa.votes@)
}

/// The byte form of the DAG.
pub open spec fn spec_proto_bytes(pa: ProtoArray) -> Seq<u8> {
    spec_u64_list(spec_proto_words(pa))
}

/// A node list's words have six words per node, in order.
pub proof fn lemma_nodes_words_index(s: Seq<ProtoNode>)
    ensures
        spec_nodes_words(s).len() == 6 * s.len(),
        forall|k: int|
            0 <= k < s.len() ==> spec_nodes_words(s).subrange(6 * k, 6 * k + 6)
                == spec_node_words(#[trigger] s[k]),
    decreases s.len(),
{
    if s.len() > 0 {
        lemma_nodes_words_index(s.drop_last());
        assert forall|k: int|
            0 <= k < s.len() implies spec_nodes_words(s).subrange(6 * k, 6 * k + 6)
            == spec_node_words(#[trigger] s[k]) by {
            if k < s.len() - 1 {
                assert(s.drop_last()[k] == s[k]);
                assert(spec_nodes_words(s).subrange(6 * k, 6 * k + 6) =~= spec_nodes_words(
                    s.drop_last(),
                ).subrange(6 * k, 6 * k + 6));
            } else {
                assert(spec_nodes_words(s).subrange(6 * k, 6 * k + 6) =~= spec_node_words(
                    s.last(),
                ));
            }
        }
    }
}

/// The node encoded at slot `k` of a DAG word list: a parent is stored as
/// its index plus one, zero standing for no parent.
pub open spec fn spec_node_of_words(ws: Seq<u64>, k: int) -> ProtoNode {
    ProtoNode {
        root: ws[1 + 6 * k],
        parent: if ws[1 + 6 * k + 1] == 0 {
            None
        } else {
            Some((ws[1 + 6 * k + 1] - 1) as usize)
        },
        slot: ws[1 + 6 * k + 2],
        state_root: ws[1 + 6 * k + 3],
        justified_epoch: ws[1 + 6 * k + 4],
        finalized_epoch: ws[1 + 6 * k + 5],
    }
}

/// The vote-table entry encoded at slot `k` after offset `off`.
pub open spec fn spec_vote_of_words(ws: Seq<u64>, off: int, k: int) -> Option<Vote> {
    if ws[off + 3 * k] == 0 {
        None
    } else {
        Some(Vote { root: ws[off + 3 * k + 1], epoch: ws[off + 3 * k + 2] })
    }
}

/// The encoded nodes make a well-formed DAG: each parent word points below
/// its node, and no root repeats.
pub open spec fn spec_nodes_ok(ws: Seq<u64>, n: int) -> bool {
    &&& forall|k: int| 0 <= k < n ==> (#[trigger] ws[1 + 6 * k + 1]) <= k
    &&& forall|i: int, j: int|
        0 <= i < j < n ==> (#[trigger] ws[1 + 6 * i]) != (#[trigger] ws[1 + 6 * j])
}

/// Every encoded vote entry carries a presence tag of zero or one.
pub open spec fn spec_votes_ok(ws: Seq<u64>, off: int, m: int) -> bool {
    forall|k: int| 0 <= k < m ==> (#[trigger] ws[off + 3 * k]) <= 1
}

/// What decoding DAG bytes yields: the nodes and the vote table — or
/// nothing, when the bytes are not a whole, well-formed DAG encoding.
pub open spec fn spec_proto_value(b: Seq<u8>) -> Option<(Seq<ProtoNode>, Seq<Option<Vote>>)> {
    match spec_read_u64_list(b, 0) {
        None => None,
        Some((ws, p)) => if p != b.len() || ws.len() < 1 {
            None
        } else {
            let n = ws[0];
            if n > usize::MAX || ws.len() < 2 + 6 * n {
                None
            } else {
                let voff = 1 + 6 * (n as int);
                let m = ws[voff];
                if m > usize::MAX || ws.len() != voff + 1 + 3 * m {
                    None
                } else if spec_nodes_ok(ws, n as int) && spec_votes_ok(ws, voff + 1, m as int) {
                    Some(
                        (
                            Seq::new(n as nat, |k: int| spec_node_of_words(ws, k)),
                            Seq::new(m as nat, |k: int| spec_vote_of_words(ws, voff + 1, k)),
                        ),
                    )
                } else {
                    None
                }
            }
        },
    }
}

/// The vote table's words have three words per validator, in order.
pub proof fn lemma_votes_words_index(s: Seq<Option<Vote>>)
    ensures
        spec_votes_words(s).len() == 3 * s.len(),
        forall|k: int|
            0 <= k < s.len() ==> spec_votes_words(s).subrange(3 * k, 3 * k + 3)
                == spec_vote_words(#[trigger] s[k]),
    decreases s.len(),
{
    if s.len() > 0 {
        lemma_votes_words_index(s.drop_last());
        assert forall|k: int|
            0 <= k < s.len() implies spec_votes_words(s).subrange(3 * k, 3 * k + 3)
            == spec_vote_words(#[trigger] s[k]) by {
            if k < s.len() - 1 {
                assert(s.drop_last()[k] == s[k]);
                assert(spec_votes_words(s).subrange(3 * k, 3 * k + 3) =~= spec_votes_words(
                    s.drop_last(),
                ).subrange(3 * k, 3 * k + 3));
            } else {
                assert(spec_votes_words(s).subrange(3 * k, 3 * k + 3) =~= spec_vote_words(
                    s.last(),
                ));
            }
        }
    }
}

/// A well-formed DAG's bytes decode to exactly its nodes and votes.
#[verifier::rlimit(80)]
pub proof fn lemma_proto_roundtrip(pa: ProtoArray)
    requires
        pa.wf(),
        2 + 6 * pa.nodes@.len() + 3 * pa.votes@.len() <= usize::MAX,
    ensures
        spec_proto_value(spec_proto_bytes(pa)) == Some((pa.nodes@, pa.votes@)),
{
    let ws = spec_proto_words(pa);
    let n = pa.nodes@.len() as int;
    let m = pa.votes@.len() as int;
    let voff = 1 + 6 * n;
    lemma_nodes_words_index(pa.nodes@);
    lemma_votes_words_index(pa.votes@);
    assert(ws.len() == 2 + 6 * n + 3 * m);
    lemma_read_u64_list_at(Seq::empty(), ws, Seq::empty());
    assert(Seq::<u8>::empty() + spec_u64_list(ws) + Seq::<u8>::empty() =~= spec_proto_bytes(pa));
    assert(ws[0] == n as u64);
    assert(ws[voff] == m as u64);
    assert forall|k: int, j: int| 0 <= k < n && 0 <= j < 6 implies ws[1 + 6 * k + j]
        == spec_node_words(pa.nodes@[k])[j] by {
        assert(spec_nodes_words(pa.nodes@).subrange(6 * k, 6 * k + 6) == spec_node_words(
            pa.nodes@[k],
        ));
        assert(spec_nodes_words(pa.nodes@).subrange(6 * k, 6 * k + 6)[j] == spec_nodes_words(
            pa.nodes@,
        )[6 * k + j]);
        assert(ws[1 + 6 * k + j] == spec_nodes_words(pa.nodes@)[6 * k + j]);
    }
    assert forall|k: int, j: int| 0 <= k < m && 0 <= j < 3 implies ws[voff + 1 + 3 * k + j]
        == spec_vote_words(pa.votes@[k])[j] by {
        assert(spec_votes_words(pa.votes@).subrange(3 * k, 3 * k + 3) == spec_vote_words(
            pa.votes@[k],
        ));
        assert(spec_votes_words(pa.votes@).subrange(3 * k, 3 * k + 3)[j] == spec_votes_words(
            pa.votes@,
        )[3 * k + j]);
        assert(ws[voff + 1 + 3 * k + j] == spec_votes_words(pa.votes@)[3 * k + j]);
    }
    assert forall|k: int| 0 <= k < n implies (#[trigger] ws[1 + 6 * k + 1]) <= k by {
        assert(ws[1 + 6 * k + 1] == spec_node_words(pa.nodes@[k])[1]);
        assert(pa.nodes@[k].parent matches Some(p) ==> p < k);
    }
    assert forall|i: int, j: int| 0 <= i < j < n implies (#[trigger] ws[1 + 6 * i]) != (
    #[trigger] ws[1 + 6 * j]) by {
        assert(ws[1 + 6 * i] == spec_node_words(pa.nodes@[i])[0]);
        assert(ws[1 + 6 * j] == spec_node_words(pa.nodes@[j])[0]);
        assert(pa.nodes@[i].root != pa.nodes@[j].root);
    }
    assert forall|k: int| 0 <= k < m implies (#[trigger] ws[voff + 1 + 3 * k]) <= 1 by {
        assert(ws[voff + 1 + 3 * k] == spec_vote_words(pa.votes@[k])[0]);
    }
    assert forall|k: int| 0 <= k < n implies spec_node_of_words(ws, k) == pa.nodes@[k] by {
        assert(ws[1 + 6 * k] == spec_node_words(pa.nodes@[k])[0]);
        assert(ws[1 + 6 * k + 1] == spec_node_words(pa.nodes@[k])[1]);
        assert(ws[1 + 6 * k + 2] == spec_node_words(pa.nodes@[k])[2]);
        assert(ws[1 + 6 * k + 3] == spec_node_words(pa.nodes@[k])[3]);
        assert(ws[1 + 6 * k + 4] == spec_node_words(pa.nodes@[k])[4]);
        assert(ws[1 + 6 * k + 5] == spec_node_words(pa.nodes@[k])[5]);
        match pa.nodes@[k].parent {
            Some(p) => {
                assert(p < k);
                assert(ws[1 + 6 * k + 1] == (p + 1) as u64);
            },
            None => {},
        }
    }
    assert forall|k: int| 0 <= k < m implies spec_vote_of_words(ws, voff + 1, k)
        == pa.votes@[k] by {
        assert(ws[voff + 1 + 3 * k] == spec_vote_words(pa.votes@[k])[0]);
        assert(ws[voff + 1 + 3 * k + 1] == spec_vote_words(pa.votes@[k])[1]);
        assert(ws[voff + 1 + 3 * k + 2] == spec_vote_words(pa.votes@[k])[2]);
    }
    assert(Seq::new(n as nat, |k: int| spec_node_of_words(ws, k)) =~= pa.nodes@);
    assert(Seq::new(m as nat, |k: int| spec_vote_of_words(ws, voff + 1, k)) =~= pa.votes@);
}

impl ProtoArray {
    /// Encode the DAG: the node count and nodes, then the vote count and
    /// votes, as one word list.
    pub fn as_bytes(&self) -> (r: Vec<u8>)
        requires
            self.wf(),
        ensures
            r@ == spec_proto_bytes(*self),
    {
        let mut words: Vec<u64> = Vec::new();
        words.push(self.nodes.len() as u64);
        let mut i: usize = 0;
        while i < self.nodes.len()
            invariant
                self.wf(),
                i <= self.nodes@.len(),
                words@ == seq![self.nodes@.len() as u64] + spec_nodes_words(
                    self.nodes@.take(i as int),
                ),
            decreases self.nodes@.len() - i,
        {
            let node = self.nodes[i];
            words.push(node.root);
            match node.parent {
                None => words.push(0),
                Some(p) => {
                    proof {
                        assert(self.nodes@[i as int].parent matches Some(q) ==> q < i);
                    }
                    words.push((p + 1) as u64)
                },
            }
            words.push(node.slot);
            words.push(node.state_root);
            words.push(node.justified_epoch);
            words.push(node.finalized_epoch);
            proof {
                assert(self.nodes@.take(i + 1).drop_last() =~= self.nodes@.take(i as int));
                assert(self.nodes@.take(i + 1).last() == self.nodes@[i as int]);
                assert(words@ =~= seq![self.nodes@.len() as u64] + spec_nodes_words(
                    self.nodes@.take(i + 1),
                ));
            }
            i = i + 1;
        }
        proof {
            assert(self.nodes@.take(self.nodes@.len() as int) =~= self.nodes@);
        }
        words.push(self.votes.len() as u64);
        let ghost base = words@;
        let mut j: usize = 0;
        while j < self.votes.len()
            invariant
                j <= self.votes@.len(),
                words@ == base + spec_votes_words(self.votes@.take(j as int)),
            decreases self.votes@.len() - j,
        {
            match self.votes[j] {
                None => {
                    words.push(0);
                    words.push(0);
                    words.push(0);
                },
                Some(v) => {
                    words.push(1);
                    words.push(v.root);
                    words.push(v.epoch);
                },
            }
            proof {
                assert(self.votes@.take(j + 1).drop_last() =~= self.votes@.take(j as int));
                assert(self.votes@.take(j + 1).last() == self.votes@[j as int]);
                assert(words@ =~= base + spec_votes_words(self.votes@.take(j + 1)));
            }
            j = j + 1;
        }
        proof {
            assert(self.votes@.take(self.votes@.len() as int) =~= self.votes@);
            assert(words@ =~= spec_proto_words(*self));
        }
        let mut out: Vec<u8> = Vec::new();
        write_u64_list(&mut out, &words);
        proof {
            assert(out@ =~= spec_proto_bytes(*self));
        }
        out
    }

    /// Decode a DAG from its byte form. Bytes that are not a whole,
    /// well-formed DAG encoding are refused.
    pub fn from_bytes(bytes: &Vec<u8>) -> (r: Result<ProtoArray, Error>)
        ensures
            match r {
                Ok(pa) => spec_proto_value(bytes@) matches Some(v) && pa.nodes@ == v.0 && pa.votes@
                    == v.1 && pa.wf(),
                Err(e) => spec_proto_value(bytes@) is None && e == Error::InvalidProtoArrayBytes,
            },
    {
        let (ws, p) = match read_u64_list(bytes, 0) {
            Some(x) => x,
            None => {
                return Err(Error::InvalidProtoArrayBytes);
            },
        };
        if p != bytes.len() || ws.len() < 1 {
            return Err(Error::InvalidProtoArrayBytes);
        }
        let n64 = ws[0];
        if n64 > usize::MAX as u64 {
            return Err(Error::InvalidProtoArrayBytes);
        }
        let n = n64 as usize;
        if ws.len() < 2 || n > (ws.len() - 2) / 6 {
            proof {
                assert((ws@.len() - 2) / 6 < n ==> ws@.len() < 2 + 6 * n) by (nonlinear_arith);
            }
            return Err(Error::InvalidProtoArrayBytes);
        }
        proof {
            assert(n <= (ws@.len() - 2) / 6 ==> 6 * n <= ws@.len() - 2) by (nonlinear_arith);
        }
        let voff: usize = 1 + 6 * n;
        let m64 = ws[voff];
        if m64 > usize::MAX as u64 {
            return Err(Error::InvalidProtoArrayBytes);
        }
        let m = m64 as usize;
        let rem = ws.len() - voff - 1;
        if rem % 3 != 0 || rem / 3 != m {
            proof {
                assert(rem % 3 != 0 || rem as int / 3 != m ==> rem != 3 * m) by (nonlinear_arith);
                assert(rem == ws@.len() - voff - 1);
            }
            return Err(Error::InvalidProtoArrayBytes);
        }
        proof {
            assert(rem % 3 == 0 && rem as int / 3 == m ==> rem == 3 * m) by (nonlinear_arith);
        }
        let mut nodes: Vec<ProtoNode> = Vec::new();
        let mut k: usize = 0;
        while k < n
            invariant
                k <= n,
                1 + 6 * n < ws@.len(),
                n == ws@[0],
                spec_read_u64_list(bytes@, 0) == Some((ws@, bytes@.len() as int)),
                voff == 1 + 6 * n,
                m == ws@[voff as int],
                ws@.len() == 1 + 6 * n + 1 + 3 * m,
                nodes@.len() == k,
                forall|q: int| 0 <= q < k ==> nodes@[q] == spec_node_of_words(ws@, q),
                forall|q: int| 0 <= q < k ==> (#[trigger] ws@[1 + 6 * q + 1]) <= q,
                forall|i2: int, j2: int|
                    0 <= i2 < j2 < k ==> (#[trigger] ws@[1 + 6 * i2]) != (#[trigger] ws@[1 + 6
                        * j2]),
                forall|q: int|
                    0 <= q < k ==> ((#[trigger] nodes@[q].parent) matches Some(pp) ==> pp < q),
                forall|i2: int, j2: int|
                    0 <= i2 < j2 < k ==> (#[trigger] nodes@[i2].root) != (
                    #[trigger] nodes@[j2].root),
            decreases n - k,
        {
            let base: usize = 1 + 6 * k;
            let root = ws[base];
            let pw = ws[base + 1];
            if pw > k as u64 {
                proof {
                    assert(!spec_nodes_ok(ws@, n as int));
                }
                return Err(Error::InvalidProtoArrayBytes);
            }
            let mut q: usize = 0;
            while q < nodes.len()
                invariant
                    q <= nodes@.len(),
                    nodes@.len() == k < n,
                    1 + 6 * n < ws@.len(),
                    root == ws@[1 + 6 * k],
                    spec_read_u64_list(bytes@, 0) == Some((ws@, bytes@.len() as int)),
                    n == ws@[0],
                    m == ws@[1 + 6 * n],
                    ws@.len() == 1 + 6 * n + 1 + 3 * m,
                    forall|q2: int| 0 <= q2 < k ==> nodes@[q2] == spec_node_of_words(ws@, q2),
                    forall|q2: int| 0 <= q2 < q ==> (#[trigger] nodes@[q2].root) != root,
                decreases nodes@.len() - q,
            {
                if nodes[q].root == root {
                    proof {
                        assert(nodes@[q as int] == spec_node_of_words(ws@, q as int));
                        assert(ws@[1 + 6 * (q as int)] == root);
                        assert(!spec_nodes_ok(ws@, n as int));
                    }
                    return Err(Error::InvalidProtoArrayBytes);
                }
                q = q + 1;
            }
            let parent: Option<usize> = if pw == 0 {
                None
            } else {
                Some((pw - 1) as usize)
            };
            nodes.push(
                ProtoNode {
                    root,
                    parent,
                    slot: ws[base + 2],
                    state_root: ws[base + 3],
                    justified_epoch: ws[base + 4],
                    finalized_epoch: ws[base + 5],
                },
            );
            proof {
                assert(nodes@[k as int] == spec_node_of_words(ws@, k as int));
                assert forall|i2: int, j2: int|
                    0 <= i2 < j2 < k + 1 implies (#[trigger] nodes@[i2].root) != (
                #[trigger] nodes@[j2].root) by {
                    if j2 == k {
                        assert(nodes@[i2].root != root);
                    }
                }
                assert forall|i2: int, j2: int|
                    0 <= i2 < j2 < k + 1 implies (#[trigger] ws@[1 + 6 * i2]) != (#[trigger] ws@[1
                    + 6 * j2]) by {
                    assert(nodes@[i2] == spec_node_of_words(ws@, i2));
                    assert(nodes@[j2] == spec_node_of_words(ws@, j2));
                    assert(nodes@[i2].root != nodes@[j2].root);
                }
            }
            k = k + 1;
        }
        let mut votes: Vec<Option<Vote>> = Vec::new();
        let mut k2: usize = 0;
        while k2 < m
            invariant
                k2 <= m,
                ws@.len() <= usize::MAX,
                1 + 6 * n < ws@.len(),
                ws@.len() == 1 + 6 * n + 1 + 3 * m,
                voff == 1 + 6 * n,
                n == ws@[0],
                m == ws@[voff as int],
                spec_read_u64_list(bytes@, 0) == Some((ws@, bytes@.len() as int)),
                spec_nodes_ok(ws@, n as int),
                votes@.len() == k2,
                forall|q: int|
                    0 <= q < k2 ==> votes@[q] == spec_vote_of_words(ws@, voff + 1, q),
                forall|q: int| 0 <= q < k2 ==> (#[trigger] ws@[voff + 1 + 3 * q]) <= 1,
            decreases m - k2,
        {
            let base: usize = voff + 1 + 3 * k2;
            let tag = ws[base];
            if tag > 1 {
                proof {
                    assert(!spec_votes_ok(ws@, voff + 1, m as int));
                }
                return Err(Error::InvalidProtoArrayBytes);
            }
            if tag == 0 {
                votes.push(None);
            } else {
                votes.push(Some(Vote { root: ws[base + 1], epoch: ws[base + 2] }));
            }
            proof {
                assert(votes@[k2 as int] == spec_vote_of_words(ws@, voff as int + 1, k2 as int));
            }
            k2 = k2 + 1;
        }
        let pa = ProtoArray { nodes, votes };
        proof {
            assert(pa.nodes@ =~= Seq::new(n as nat, |k3: int| spec_node_of_words(ws@, k3)));
            assert(pa.votes@ =~= Seq::new(
                m as nat,
                |k3: int| spec_vote_of_words(ws@, 1 + 6 * (n as int) + 1, k3),
            ));
        }
        Ok(pa)
    }
}

/// A snapshot of the whole fork chooser: the store's bytes, the DAG's bytes,
/// the queued attestations, and the genesis block root.
#[derive(PartialEq, Eq, Debug)]
pub struct PersistedForkChoice {
    pub fc_store_bytes: Vec<u8>,
    pub proto_array_bytes: Vec<u8>,
    pub queued_attestations: Vec<QueuedAttestation>,
    pub genesis_block_root: u64,
}

/// A restored queue is usable when every waiting attestation is still in
/// the future of the restored clock and can index a vote table.
pub open spec fn spec_queue_restorable(q: Seq<QueuedAttestation>, slot: u64) -> bool {
    forall|i: int| 0 <= i < q.len() ==> (#[trigger] q[i]).slot > slot && q[i].wf()
}

impl ForkChoice {
    /// Take a snapshot: the store and the DAG encode to bytes, the queue and
    /// the genesis root are carried as they are.
    pub fn to_persisted(&self) -> (r: PersistedForkChoice)
        requires
            self.wf(),
        ensures
            r.fc_store_bytes@ == spec_store_bytes(self.fc_store),
            r.proto_array_bytes@ == spec_proto_bytes(self.proto_array),
            spec_queue_eq(r.queued_attestations@, self.queued_attestations@),
            spec_queue_restorable(r.queued_attestations@, self.fc_store.current_slot),
            r.genesis_block_root == self.genesis_block_root,
    {
        let mut queue: Vec<QueuedAttestation> = Vec::new();
        let mut i: usize = 0;
        while i < self.queued_attestations.len()
            invariant
                self.wf(),
                i <= self.queued_attestations@.len(),
                queue@.len() == i,
                forall|j: int|
                    0 <= j < i ==> spec_q_eq(
                        #[trigger] queue@[j],
                        self.queued_attestations@[j],
                    ),
                forall|j: int|
                    0 <= j < i ==> (#[trigger] queue@[j]).slot > self.fc_store.current_slot
                        && queue@[j].wf(),
            decreases self.queued_attestations@.len() - i,
        {
            queue.push(self.queued_attestations[i].duplicate());
            i = i + 1;
        }
        PersistedForkChoice {
            fc_store_bytes: self.fc_store.to_bytes(),
            proto_array_bytes: self.proto_array.as_bytes(),
            queued_attestations: queue,
            genesis_block_root: self.genesis_block_root,
        }
    }

    /// Restore a fork chooser from a snapshot taken by `to_persisted`,
    /// attaching the given backing store. Bytes that are not whole encodings
    /// are refused, as is a queue that is inconsistent with the restored
    /// clock, so every restored chooser is well formed; the queue and
    /// genesis root are otherwise carried as they are.
    pub fn from_persisted(persisted: &PersistedForkChoice, block_store: BlockStore) -> (r: Result<
        ForkChoice,
        Error,
    >)
        requires
            block_store.wf(),
        ensures
            match r {
                Ok(fc) => {
                    &&& fc.wf()
                    &&& spec_store_fields(persisted.fc_store_bytes@) matches Some(f)
                        && fc.fc_store.config == f.0 && fc.fc_store.current_slot == f.1
                        && fc.fc_store.justified_checkpoint == f.2
                        && fc.fc_store.best_justified_checkpoint == f.3
                        && fc.fc_store.finalized_checkpoint == f.4
                        && fc.fc_store.justified_balances@ == f.5
                    &&& fc.fc_store.block_store == block_store
                    &&& spec_proto_value(persisted.proto_array_bytes@) matches Some(v)
                        && fc.proto_array.nodes@ == v.0 && fc.proto_array.votes@ == v.1
                    &&& spec_queue_eq(fc.queued_attestations@, persisted.queued_attestations@)
                    &&& spec_queue_restorable(
                        persisted.queued_attestations@,
                        fc.fc_store.current_slot,
                    )
                    &&& fc.genesis_block_root == persisted.genesis_block_root
                },
                Err(e) => {
                    ||| (e == Error::InvalidForkChoiceStoreBytes && spec_store_fields(
                        persisted.fc_store_bytes@,
                    ) is None)
                    ||| (e == Error::InvalidProtoArrayBytes && spec_store_fields(
                        persisted.fc_store_bytes@,
                    ) is Some && spec_proto_value(persisted.proto_array_bytes@) is None)
                    ||| (e == Error::InvalidForkChoiceStoreBytes && (spec_store_fields(
                        persisted.fc_store_bytes@,
                    ) matches Some(f) && spec_proto_value(persisted.proto_array_bytes@) is Some
                        && !spec_queue_restorable(persisted.queued_attestations@, f.1)))
                },
            },
    {
        let fc_store = match ForkChoiceStore::from_bytes(&persisted.fc_store_bytes, block_store) {
            Ok(s) => s,
            Err(e) => {
                return Err(e);
            },
        };
        let proto_array = match ProtoArray::from_bytes(&persisted.proto_array_bytes) {
            Ok(p) => p,
            Err(e) => {
                return Err(e);
            },
        };
        let mut queue: Vec<QueuedAttestation> = Vec::new();
        let mut i: usize = 0;
        while i < persisted.queued_attestations.len()
            invariant
                i <= persisted.queued_attestations@.len(),
                queue@.len() == i,
                spec_store_fields(persisted.fc_store_bytes@) matches Some(f) && f.1
                    == fc_store.current_slot,
                spec_proto_value(persisted.proto_array_bytes@) is Some,
                forall|j: int|
                    0 <= j < i ==> spec_q_eq(
                        #[trigger] queue@[j],
                        persisted.queued_attestations@[j],
                    ),
                forall|j: int|
                    0 <= j < i ==> (#[trigger] persisted.queued_attestations@[j]).slot
                        > fc_store.current_slot && persisted.queued_attestations@[j].wf(),
                forall|j: int|
                    0 <= j < i ==> (#[trigger] queue@[j]).slot > fc_store.current_slot
                        && queue@[j].wf(),
            decreases persisted.queued_attestations@.len() - i,
        {
            let q = &persisted.queued_attestations[i];
            if q.slot <= fc_store.current_slot || !q.check_indices() {
                return Err(Error::InvalidForkChoiceStoreBytes);
            }
            queue.push(q.duplicate());
            i = i + 1;
        }
        Ok(
            ForkChoice {
                fc_store,
                proto_array,
                queued_attestations: queue,
                genesis_block_root: persisted.genesis_block_root,
            },
        )
    }
}

/// What one queued attestation amounts to as plain values: its four fixed
/// fields and its validator indices.
pub open spec fn spec_queued_model(q: QueuedAttestation) -> (u64, u64, u64, u64, Seq<usize>) {
    (q.slot, q.block_root, q.target_epoch, q.target_root, q.attesting_indices@)
}

/// The words of one queued attestation: its four fixed fields, then its
/// validator indices behind their count.
pub open spec fn spec_queued_words(q: QueuedAttestation) -> Seq<u64> {
    seq![q.slot, q.block_root, q.target_epoch, q.target_root, q.attesting_indices@.len() as u64]
        + Seq::new(q.attesting_indices@.len(), |i: int| q.attesting_indices@[i] as u64)
}

/// The words of the queue, one attestation after the other.
pub open spec fn spec_queue_words(s: Seq<QueuedAttestation>) -> Seq<u64>
    decreases s.len(),
{
    if s.len() == 0 {
        Seq::empty()
    } else {
        spec_queued_words(s[0]) + spec_queue_words(s.drop_first())
    }
}

/// Queue words grow one attestation at a time, from either end.
pub proof fn lemma_queue_words_snoc(s: Seq<QueuedAttestation>, q: QueuedAttestation)
    ensures
        spec_queue_words(s.push(q)) == spec_queue_words(s) + spec_queued_words(q),
    decreases s.len(),
{
    if s.len() == 0 {
        assert(s.push(q).drop_first() =~= Seq::<QueuedAttestation>::empty());
        assert(s.push(q)[0] == q);
        assert(spec_queue_words(s.push(q)) == spec_queued_words(q) + spec_queue_words(
            s.push(q).drop_first(),
        ));
        assert(spec_queue_words(Seq::<QueuedAttestation>::empty()) =~= Seq::<u64>::empty());
        assert(spec_queue_words(s) =~= Seq::<u64>::empty());
        assert(spec_queue_words(s.push(q)) =~= spec_queue_words(s) + spec_queued_words(q));
    } else {
        assert(s.push(q).drop_first() =~= s.drop_first().push(q));
        lemma_queue_words_snoc(s.drop_first(), q);
        assert(s.push(q)[0] == s[0]);
        assert(spec_queue_words(s.push(q)) == spec_queued_words(s[0]) + spec_queue_words(
            s.drop_first().push(q),
        ));
        assert(spec_queue_words(s) == spec_queued_words(s[0]) + spec_queue_words(s.drop_first()));
        assert(spec_queued_words(s[0]) + (spec_queue_words(s.drop_first()) + spec_queued_words(q))
            =~= (spec_queued_words(s[0]) + spec_queue_words(s.drop_first())) + spec_queued_words(
            q,
        ));
    }
}

/// What parsing one queued attestation at word position `pos` yields: its
/// plain values and the next position. A count that overruns the words, or
/// an index value too large for a vote table, refuses the attestation.
pub open spec fn spec_parse_queued(ws: Seq<u64>, pos: int) -> Option<
    ((u64, u64, u64, u64, Seq<usize>), int),
> {
    if !(0 <= pos && pos + 5 <= ws.len()) {
        None
    } else {
        let n = ws[pos + 4];
        if n > usize::MAX || pos + 5 + n > ws.len() {
            None
        } else if exists|i: int| 0 <= i < n && (#[trigger] ws[pos + 5 + i]) >= usize::MAX {
            None
        } else {
            Some(
                (
                    (
                        ws[pos],
                        ws[pos + 1],
                        ws[pos + 2],
                        ws[pos + 3],
                        Seq::new(n as nat, |i: int| ws[pos + 5 + i] as usize),
                    ),
                    pos + 5 + n,
                ),
            )
        }
    }
}

/// What parsing `count` queued attestations at word position `pos` yields.
pub open spec fn spec_parse_queue(ws: Seq<u64>, pos: int, count: nat) -> Option<
    (Seq<(u64, u64, u64, u64, Seq<usize>)>, int),
>
    decreases count,
{
    if count == 0 {
        Some((Seq::empty(), pos))
    } else {
        match spec_parse_queued(ws, pos) {
            None => None,
            Some((q, p)) => match spec_parse_queue(ws, p, (count - 1) as nat) {
                None => None,
                Some((s, p2)) => Some((seq![q] + s, p2)),
            },
        }
    }
}

/// Parsing one attestation at the seam of its own words yields its values.
pub proof fn lemma_parse_queued_at(pre: Seq<u64>, q: QueuedAttestation, rest: Seq<u64>)
    requires
        q.wf(),
        q.attesting_indices@.len() <= usize::MAX,
    ensures
        spec_parse_queued(pre + spec_queued_words(q) + rest, pre.len() as int) == Some(
            ((spec_queued_model(q)), pre.len() + spec_queued_words(q).len() as int),
        ),
{
    let ws = pre + spec_queued_words(q) + rest;
    let pos = pre.len() as int;
    let n = q.attesting_indices@.len() as int;
    assert forall|k: int| 0 <= k < 5 + n implies ws[pos + k] == spec_queued_words(q)[k] by {}
    assert(ws[pos + 4] == n as u64);
    assert forall|i: int| 0 <= i < n implies (#[trigger] ws[pos + 5 + i]) < usize::MAX by {
        assert(spec_queued_words(q)[5 + i] == q.attesting_indices@[i] as u64);
    }
    assert(Seq::new(n as nat, |i: int| ws[pos + 5 + i] as usize) =~= q.attesting_indices@);
}

/// Parsing a queue at the seam of its own words yields its values, one
/// attestation after the other.
pub proof fn lemma_parse_queue_at(pre: Seq<u64>, s: Seq<QueuedAttestation>, rest: Seq<u64>)
    requires
        forall|i: int|
            0 <= i < s.len() ==> (#[trigger] s[i]).wf() && s[i].attesting_indices@.len()
                <= usize::MAX,
    ensures
        spec_parse_queue(pre + spec_queue_words(s) + rest, pre.len() as int, s.len()) == Some(
            (
                Seq::new(s.len(), |i: int| spec_queued_model(s[i])),
                pre.len() + spec_queue_words(s).len() as int,
            ),
        ),
    decreases s.len(),
{
    if s.len() == 0 {
        assert(spec_queue_words(s) =~= Seq::<u64>::empty());
        assert(Seq::new(0, |i: int| spec_queued_model(s[i])) =~= Seq::<
            (u64, u64, u64, u64, Seq<usize>),
        >::empty());
    } else {
        let ws = pre + spec_queue_words(s) + rest;
        assert(ws =~= (pre + spec_queued_words(s[0])) + spec_queue_words(s.drop_first()) + rest);
        assert(ws =~= pre + spec_queued_words(s[0]) + (spec_queue_words(s.drop_first()) + rest));
        lemma_parse_queued_at(pre, s[0], spec_queue_words(s.drop_first()) + rest);
        assert forall|i: int| 0 <= i < s.drop_first().len() implies (
        #[trigger] s.drop_first()[i]).wf() && s.drop_first()[i].attesting_indices@.len()
            <= usize::MAX by {
            assert(s.drop_first()[i] == s[i + 1]);
        }
        lemma_parse_queue_at(pre + spec_queued_words(s[0]), s.drop_first(), rest);
        assert(spec_queue_words(s) == spec_queued_words(s[0]) + spec_queue_words(s.drop_first()));
        assert(seq![spec_queued_model(s[0])] + Seq::new(
            s.drop_first().len(),
            |i: int| spec_queued_model(s.drop_first()[i]),
        ) =~= Seq::new(s.len(), |i: int| spec_queued_model(s[i])));
    }
}

/// The byte form of a whole snapshot: the store's bytes, the DAG's bytes,
/// the queue as a word list behind its count, and the genesis block root.
pub open spec fn spec_persisted_bytes(p: PersistedForkChoice) -> Seq<u8> {
    spec_bytes_chunk(p.fc_store_bytes@) + spec_bytes_chunk(p.proto_array_bytes@) + spec_u64_list(
        seq![p.queued_attestations@.len() as u64] + spec_queue_words(p.queued_attestations@),
    ) + spec_u64_le(p.genesis_block_root)
}

/// What decoding whole-snapshot bytes yields: the two byte vectors, the
/// queue as plain values, and the genesis block root — or nothing, when the
/// bytes are not a whole snapshot encoding.
pub open spec fn spec_persisted_value(b: Seq<u8>) -> Option<
    (Seq<u8>, Seq<u8>, Seq<(u64, u64, u64, u64, Seq<usize>)>, u64),
> {
    match spec_read_bytes_chunk(b, 0) {
        None => None,
        Some((sb, p1)) => match spec_read_bytes_chunk(b, p1) {
            None => None,
            Some((pb, p2)) => match spec_read_u64_list(b, p2) {
                None => None,
                Some((ws, p3)) => match spec_read_u64(b, p3) {
                    None => None,
                    Some((g, p4)) => if p4 != b.len() || ws.len() < 1 || ws[0] > usize::MAX {
                        None
                    } else {
                        match spec_parse_queue(ws, 1, ws[0] as nat) {
                            None => None,
                            Some((qs, e)) => if e != ws.len() {
                                None
                            } else {
                                Some((sb, pb, qs, g))
                            },
                        }
                    },
                },
            },
        },
    }
}

/// Round trip of the disk form: the bytes written for a snapshot decode to
/// exactly the snapshot's contents.
#[verifier::rlimit(100)]
pub proof fn lemma_persisted_roundtrip(p: PersistedForkChoice)
    requires
        forall|i: int|
            0 <= i < p.queued_attestations@.len() ==> (#[trigger] p.queued_attestations@[i]).wf()
                && p.queued_attestations@[i].attesting_indices@.len() <= usize::MAX,
        1 + spec_queue_words(p.queued_attestations@).len() <= usize::MAX,
        p.queued_attestations@.len() <= usize::MAX,
        p.fc_store_bytes@.len() <= usize::MAX,
        p.proto_array_bytes@.len() <= usize::MAX,
    ensures
        spec_persisted_value(spec_persisted_bytes(p)) == Some(
            (
                p.fc_store_bytes@,
                p.proto_array_bytes@,
                Seq::new(
                    p.queued_attestations@.len(),
                    |i: int| spec_queued_model(p.queued_attestations@[i]),
                ),
                p.genesis_block_root,
            ),
        ),
{
    let b = spec_persisted_bytes(p);
    let sb = p.fc_store_bytes@;
    let pb = p.proto_array_bytes@;
    let ws = seq![p.queued_attestations@.len() as u64] + spec_queue_words(p.queued_attestations@);
    assert(b =~= Seq::<u8>::empty() + spec_bytes_chunk(sb) + (spec_bytes_chunk(pb)
        + spec_u64_list(ws) + spec_u64_le(p.genesis_block_root)));
    lemma_read_bytes_chunk_at(
        Seq::empty(),
        sb,
        spec_bytes_chunk(pb) + spec_u64_list(ws) + spec_u64_le(p.genesis_block_root),
    );
    let p1 = spec_bytes_chunk(sb).len() as int;
    assert(b =~= spec_bytes_chunk(sb) + spec_bytes_chunk(pb) + (spec_u64_list(ws) + spec_u64_le(
        p.genesis_block_root,
    )));
    lemma_read_bytes_chunk_at(
        spec_bytes_chunk(sb),
        pb,
        spec_u64_list(ws) + spec_u64_le(p.genesis_block_root),
    );
    let p2 = p1 + spec_bytes_chunk(pb).len() as int;
    assert(b =~= (spec_bytes_chunk(sb) + spec_bytes_chunk(pb)) + spec_u64_list(ws) + spec_u64_le(
        p.genesis_block_root,
    ));
    lemma_read_u64_list_at(
        spec_bytes_chunk(sb) + spec_bytes_chunk(pb),
        ws,
        spec_u64_le(p.genesis_block_root),
    );
    let p3 = p2 + spec_u64_list(ws).len() as int;
    assert(b =~= (spec_bytes_chunk(sb) + spec_bytes_chunk(pb) + spec_u64_list(ws)) + spec_u64_le(
        p.genesis_block_root,
    ) + Seq::<u8>::empty());
    lemma_read_u64_at(
        spec_bytes_chunk(sb) + spec_bytes_chunk(pb) + spec_u64_list(ws),
        p.genesis_block_root,
        Seq::empty(),
    );
    assert(ws =~= seq![p.queued_attestations@.len() as u64] + spec_queue_words(
        p.queued_attestations@,
    ) + Seq::<u64>::empty());
    lemma_parse_queue_at(
        seq![p.queued_attestations@.len() as u64],
        p.queued_attestations@,
        Seq::empty(),
    );
}

/// The key-value column a snapshot is stored under: one dedicated column,
/// one entry per chain, overwritten on each snapshot.
#[derive(Clone, Copy, PartialEq, Eq, Structural, Debug)]
pub enum DBColumn {
    ForkChoice,
}

impl PersistedForkChoice {
    /// The column the snapshot lives under.
    pub fn db_column() -> (r: DBColumn)
        ensures
            r == DBColumn::ForkChoice,
    {
        DBColumn::ForkChoice
    }

    /// Encode the whole snapshot for the key-value store. Only a snapshot
    /// whose queued attestations can index a vote table encodes — decoding
    /// refuses any other, so the two stay inverses on their shared domain.
    pub fn as_store_bytes(&self) -> (r: Vec<u8>)
        requires
            forall|i: int|
                0 <= i < self.queued_attestations@.len() ==> (
                #[trigger] self.queued_attestations@[i]).wf(),
        ensures
            r@ == spec_persisted_bytes(*self),
    {
        let mut out: Vec<u8> = Vec::new();
        write_bytes_chunk(&mut out, &self.fc_store_bytes);
        write_bytes_chunk(&mut out, &self.proto_array_bytes);
        let mut words: Vec<u64> = Vec::new();
        words.push(self.queued_attestations.len() as u64);
        let mut i: usize = 0;
        while i < self.queued_attestations.len()
            invariant
                i <= self.queued_attestations@.len(),
                words@ == seq![self.queued_attestations@.len() as u64] + spec_queue_words(
                    self.queued_attestations@.take(i as int),
                ),
            decreases self.queued_attestations@.len() - i,
        {
            let ghost prev = words@;
            let q = &self.queued_attestations[i];
            words.push(q.slot);
            words.push(q.block_root);
            words.push(q.target_epoch);
            words.push(q.target_root);
            words.push(q.attesting_indices.len() as u64);
            let ghost header = seq![
                q.slot,
                q.block_root,
                q.target_epoch,
                q.target_root,
                q.attesting_indices@.len() as u64,
            ];
            proof {
                assert(words@ =~= prev + header);
            }
            let mut j: usize = 0;
            while j < q.attesting_indices.len()
                invariant
                    j <= q.attesting_indices@.len(),
                    words@ == prev + header + Seq::new(
                        j as nat,
                        |k: int| q.attesting_indices@[k] as u64,
                    ),
                decreases q.attesting_indices@.len() - j,
            {
                words.push(q.attesting_indices[j] as u64);
                proof {
                    assert(words@ =~= prev + header + Seq::new(
                        (j + 1) as nat,
                        |k: int| q.attesting_indices@[k] as u64,
                    ));
                }
                j = j + 1;
            }
            proof {
                assert(header + Seq::new(
                    q.attesting_indices@.len(),
                    |k: int| q.attesting_indices@[k] as u64,
                ) =~= spec_queued_words(self.queued_attestations@[i as int]));
                assert(words@ =~= prev + spec_queued_words(self.queued_attestations@[i as int]));
                let t = self.queued_attestations@.take(i + 1);
                assert(t.drop_last() =~= self.queued_attestations@.take(i as int));
                assert(t.last() == self.queued_attestations@[i as int]);
                lemma_queue_words_snoc(
                    self.queued_attestations@.take(i as int),
                    self.queued_attestations@[i as int],
                );
                assert(t =~= self.queued_attestations@.take(i as int).push(
                    self.queued_attestations@[i as int],
                ));
                assert(words@ =~= seq![self.queued_attestations@.len() as u64]
                    + spec_queue_words(t));
            }
            i = i + 1;
        }
        proof {
            assert(self.queued_attestations@.take(self.queued_attestations@.len() as int)
                =~= self.queued_attestations@);
        }
        write_u64_list(&mut out, &words);
        write_u64(&mut out, self.genesis_block_root);
        proof {
            assert(out@ =~= spec_persisted_bytes(*self));
        }
        out
    }

    /// Decode a whole snapshot from the key-value store. Bytes that are not
    /// a whole snapshot encoding are refused.
    pub fn from_store_bytes(bytes: &Vec<u8>) -> (r: Result<PersistedForkChoice, Error>)
        ensures
            match r {
                Ok(p) => spec_persisted_value(bytes@) matches Some(v) && p.fc_store_bytes@ == v.0
                    && p.proto_array_bytes@ == v.1 && p.genesis_block_root == v.3
                    && p.queued_attestations@.len() == v.2.len() && (forall|i: int|
                    0 <= i < v.2.len() ==> spec_queued_model(#[trigger] p.queued_attestations@[i])
                        == v.2[i] && p.queued_attestations@[i].wf()),
                Err(e) => spec_persisted_value(bytes@) is None && e
                    == Error::InvalidForkChoiceStoreBytes,
            },
    {
        let (sb, p1) = match read_bytes_chunk(bytes, 0) {
            Some(x) => x,
            None => {
                return Err(Error::InvalidForkChoiceStoreBytes);
            },
        };
        let (pb, p2) = match read_bytes_chunk(bytes, p1) {
            Some(x) => x,
            None => {
                return Err(Error::InvalidForkChoiceStoreBytes);
            },
        };
        let (ws, p3) = match read_u64_list(bytes, p2) {
            Some(x) => x,
            None => {
                return Err(Error::InvalidForkChoiceStoreBytes);
            },
        };
        let (g, p4) = match read_u64(bytes, p3) {
            Some(x) => x,
            None => {
                return Err(Error::InvalidForkChoiceStoreBytes);
            },
        };
        if p4 != bytes.len() || ws.len() < 1 {
            return Err(Error::InvalidForkChoiceStoreBytes);
        }
        let count64 = ws[0];
        if count64 > usize::MAX as u64 {
            return Err(Error::InvalidForkChoiceStoreBytes);
        }
        let count = count64 as usize;
        let mut queue: Vec<QueuedAttestation> = Vec::new();
        let mut pos: usize = 1;
        let mut i: usize = 0;
        while i < count
            invariant
                i <= count,
                1 <= pos <= ws@.len(),
                ws@.len() <= usize::MAX,
                count as int == count64 as int,
                count64 == ws@[0],
                ws@.len() >= 1,
                spec_read_bytes_chunk(bytes@, 0) == Some((sb@, p1 as int)),
                spec_read_bytes_chunk(bytes@, p1 as int) == Some((pb@, p2 as int)),
                spec_read_u64_list(bytes@, p2 as int) == Some((ws@, p3 as int)),
                spec_read_u64(bytes@, p3 as int) == Some((g, p4 as int)),
                p4 == bytes@.len(),
                queue@.len() == i,
                forall|k: int| 0 <= k < i ==> (#[trigger] queue@[k]).wf(),
                spec_parse_queue(ws@, 1, count as nat) == (match spec_parse_queue(
                    ws@,
                    pos as int,
                    (count - i) as nat,
                ) {
                    Some(t) => Some(
                        (Seq::new(i as nat, |k: int| spec_queued_model(queue@[k])) + t.0, t.1),
                    ),
                    None => None::<(Seq<(u64, u64, u64, u64, Seq<usize>)>, int)>,
                }),
            decreases count - i,
        {
            if ws.len() < 5 || pos > ws.len() - 5 {
                return Err(Error::InvalidForkChoiceStoreBytes);
            }
            let n64 = ws[pos + 4];
            if n64 > usize::MAX as u64 {
                return Err(Error::InvalidForkChoiceStoreBytes);
            }
            let nn = n64 as usize;
            if nn > ws.len() - (pos + 5) {
                return Err(Error::InvalidForkChoiceStoreBytes);
            }
            let mut indices: Vec<usize> = Vec::new();
            let mut j: usize = 0;
            while j < nn
                invariant
                    j <= nn,
                    1 <= pos,
                    pos + 5 + nn <= ws@.len(),
                    ws@.len() <= usize::MAX,
                    indices@.len() == j,
                    forall|k: int|
                        0 <= k < j ==> (#[trigger] ws@[pos + 5 + k]) < usize::MAX && indices@[k]
                            == ws@[pos + 5 + k] as usize,
                    i < count,
                    count as int == count64 as int,
                    count64 == ws@[0],
                    ws@.len() >= 1,
                    ws@[pos + 4] == n64,
                    nn as int == n64 as int,
                    spec_read_bytes_chunk(bytes@, 0) == Some((sb@, p1 as int)),
                    spec_read_bytes_chunk(bytes@, p1 as int) == Some((pb@, p2 as int)),
                    spec_read_u64_list(bytes@, p2 as int) == Some((ws@, p3 as int)),
                    spec_read_u64(bytes@, p3 as int) == Some((g, p4 as int)),
                    p4 == bytes@.len(),
                    spec_parse_queue(ws@, 1, count as nat) == (match spec_parse_queue(
                        ws@,
                        pos as int,
                        (count - i) as nat,
                    ) {
                        Some(t) => Some(
                            (
                                Seq::new(i as nat, |k: int| spec_queued_model(queue@[k])) + t.0,
                                t.1,
                            ),
                        ),
                        None => None::<(Seq<(u64, u64, u64, u64, Seq<usize>)>, int)>,
                    }),
                decreases nn - j,
            {
                let w = ws[pos + 5 + j];
                if w >= usize::MAX as u64 {
                    proof {
                        assert(spec_parse_queued(ws@, pos as int) is None);
                        assert(spec_parse_queue(ws@, pos as int, (count - i) as nat) is None);
                    }
                    return Err(Error::InvalidForkChoiceStoreBytes);
                }
                indices.push(w as usize);
                j = j + 1;
            }
            let q = QueuedAttestation {
                slot: ws[pos],
                attesting_indices: indices,
                block_root: ws[pos + 1],
                target_epoch: ws[pos + 2],
                target_root: ws[pos + 3],
            };
            proof {
                assert forall|k: int|
                    0 <= k < nn implies !((#[trigger] ws@[pos + 5 + k]) >= usize::MAX) by {}
                assert(q.attesting_indices@ =~= Seq::new(
                    nn as nat,
                    |k: int| ws@[pos + 5 + k] as usize,
                ));
                assert(spec_parse_queued(ws@, pos as int) == Some(
                    (spec_queued_model(q), pos + 5 + nn as int),
                ));
            }
            queue.push(q);
            let ghost old_pos = pos;
            pos = pos + 5 + nn;
            proof {
                assert(Seq::new((i + 1) as nat, |k: int| spec_queued_model(queue@[k]))
                    =~= Seq::new(i as nat, |k: int| spec_queued_model(queue@.take(i as int)[k]))
                    + seq![spec_queued_model(q)]);
                assert(Seq::new(i as nat, |k: int| spec_queued_model(queue@.take(i as int)[k]))
                    =~= Seq::new(i as nat, |k: int| spec_queued_model(queue@[k])));
                match spec_parse_queue(ws@, pos as int, (count - i - 1) as nat) {
                    Some(t) => {
                        assert((Seq::new(i as nat, |k: int| spec_queued_model(queue@[k]))
                            + seq![spec_queued_model(q)]) + t.0 =~= Seq::new(
                            i as nat,
                            |k: int| spec_queued_model(queue@[k]),
                        ) + (seq![spec_queued_model(q)] + t.0));
                    },
                    None => {},
                }
            }
            i = i + 1;
        }
        if pos != ws.len() {
            proof {
                assert(spec_parse_queue(ws@, pos as int, 0) == Some(
                    (Seq::<(u64, u64, u64, u64, Seq<usize>)>::empty(), pos as int),
                ));
            }
            return Err(Error::InvalidForkChoiceStoreBytes);
        }
        proof {
            assert(spec_parse_queue(ws@, pos as int, 0) == Some(
                (Seq::<(u64, u64, u64, u64, Seq<usize>)>::empty(), pos as int),
            ));
            assert(Seq::new(count as nat, |k: int| spec_queued_model(queue@[k])) + Seq::<
                (u64, u64, u64, u64, Seq<usize>),
            >::empty() =~= Seq::new(count as nat, |k: int| spec_queued_model(queue@[k])));
        }
        Ok(
            PersistedForkChoice {
                fc_store_bytes: sb,
                proto_array_bytes: pb,
                queued_attestations: queue,
                genesis_block_root: g,
            },
        )
    }
}

/// Round trip: the snapshot of a well-formed fork chooser decodes to exactly
/// the store fields and DAG contents that were saved, so restoring yields an
/// equal object — checkpoint for checkpoint, balance for balance, node for
/// node, vote for vote.
pub proof fn lemma_snapshot_restores(fc: ForkChoice)
    requires
        fc.wf(),
        fc.fc_store.justified_balances@.len() + 9 <= usize::MAX,
        2 + 6 * fc.proto_array.nodes@.len() + 3 * fc.proto_array.votes@.len() <= usize::MAX,
    ensures
        spec_store_fields(spec_store_bytes(fc.fc_store)) == Some(
            (
                fc.fc_store.config,
                fc.fc_store.current_slot,
                fc.fc_store.justified_checkpoint,
                fc.fc_store.best_justified_checkpoint,
                fc.fc_store.finalized_checkpoint,
                fc.fc_store.justified_balances@,
            ),
        ),
        spec_proto_value(spec_proto_bytes(fc.proto_array)) == Some(
            (fc.proto_array.nodes@, fc.proto_array.votes@),
        ),
{
    lemma_store_roundtrip(fc.fc_store);
    lemma_proto_roundtrip(fc.proto_array);
}

} // verus!
