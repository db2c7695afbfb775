//! The commitment accumulator: an append-only depth-32 note commitment tree with
//! a bounded history of checkpointed states, kept in a `BridgeTree`.

use crate::error::WalletError;
use crate::merkle::{
    auth_path, hashes_view, is_node_bytes, is_node_encoding, lemma_witness_round_trip, merkle_root,
    path_root, TREE_DEPTH,
};
use vstd::arithmetic::power2::{lemma2_to64, pow2};
use bridgetree::BridgeTree;
use incrementalmerkletree::Position;
use orchard::tree::MerkleHashOrchard;
use vstd::prelude::*;

verus! {

#[verifier::external_type_specification]
#[verifier::external_body]
pub struct ExMerkleHashOrchard(MerkleHashOrchard);

#[verifier::external_type_specification]
#[verifier::external_body]
#[verifier::reject_recursive_types(H)]
#[verifier::reject_recursive_types(C)]
pub struct ExBridgeTree<H, C, const DEPTH: u8>(BridgeTree<H, C, DEPTH>);

/// Most checkpoints that the tree retains; older ones are dropped.
pub const MAX_CHECKPOINTS: usize = 100;

/// Largest number of leaves a depth-32 tree can hold.
pub const LEAF_CAPACITY: u64 = 0x1_0000_0000;

/// The encodings of the leaves appended to the tree, in order.
pub uninterp spec fn bridge_leaves(tree: BridgeTree<MerkleHashOrchard, u32, 32>) -> Seq<Seq<u8>>;

/// The retained checkpoints, oldest first: each identifier with the number of
/// leaves the tree held when it was taken.
pub uninterp spec fn bridge_checkpoints(tree: BridgeTree<MerkleHashOrchard, u32, 32>) -> Seq<
    (u32, nat),
>;

/// The retention bound the tree was created with.
pub uninterp spec fn bridge_max_checkpoints(tree: BridgeTree<MerkleHashOrchard, u32, 32>) -> nat;

/// The positions marked for witnessing, each with the identifier of the latest
/// checkpoint at the time it was marked (`None` when there was none).
pub uninterp spec fn bridge_marked(tree: BridgeTree<MerkleHashOrchard, u32, 32>) -> Map<
    nat,
    Option<u32>,
>;

/// The identifier of the latest retained checkpoint, if any.
pub open spec fn latest_id(checkpoints: Seq<(u32, nat)>) -> Option<u32> {
    if checkpoints.len() > 0 {
        Some(checkpoints.last().0)
    } else {
        None
    }
}

/// `s` with its oldest element dropped while it is longer than `max`.
pub open spec fn retain_last(s: Seq<(u32, nat)>, max: nat) -> Seq<(u32, nat)> {
    if s.len() > max {
        s.drop_first()
    } else {
        s
    }
}

/// The leaves of the tree as of `depth` checkpoints back (depth 0: now).
pub open spec fn leaves_at(leaves: Seq<Seq<u8>>, checkpoints: Seq<(u32, nat)>, depth: nat) -> Seq<
    Seq<u8>,
> {
    if depth == 0 || depth > checkpoints.len() {
        leaves
    } else {
        leaves.take(checkpoints[checkpoints.len() - depth].1 as int)
    }
}

/// Relies on `BridgeTree::new`: an empty tree retaining at most `max` checkpoints
/// (it panics when `max` is 0).
#[verifier::external_body]
fn bridge_new(max: usize) -> (t: BridgeTree<MerkleHashOrchard, u32, 32>)
    requires
        max >= 1,
    ensures
        bridge_leaves(t) == Seq::<Seq<u8>>::empty(),
        bridge_checkpoints(t) == Seq::<(u32, nat)>::empty(),
        bridge_max_checkpoints(t) == max,
        bridge_marked(t).dom() == Set::<nat>::empty(),
{
    BridgeTree::new(max)
}

/// Relies on `BridgeTree::append`: adds `leaf` after the existing leaves unless the
/// tree already holds 2^32 of them, and says whether it did.
#[verifier::external_body]
fn bridge_append(t: &mut BridgeTree<MerkleHashOrchard, u32, 32>, leaf: &[u8; 32]) -> (r: bool)
    requires
        is_node_encoding(leaf@),
    ensures
        r == (bridge_leaves(*old(t)).len() < LEAF_CAPACITY),
        r ==> bridge_leaves(*final(t)) == bridge_leaves(*old(t)).push(leaf@),
        !r ==> bridge_leaves(*final(t)) == bridge_leaves(*old(t)),
        bridge_checkpoints(*final(t)) == bridge_checkpoints(*old(t)),
        bridge_max_checkpoints(*final(t)) == bridge_max_checkpoints(*old(t)),
        bridge_marked(*final(t)) == bridge_marked(*old(t)),
{
    t.append(MerkleHashOrchard::from_bytes(leaf).unwrap())
}

/// Relies on `BridgeTree::mark`: keeps witness data for the latest leaf and returns
/// its position, or `None` on an empty tree; leaves and checkpoints stay as they are.
/// A position not yet marked is recorded with the latest checkpoint's identifier.
#[verifier::external_body]
fn bridge_mark(t: &mut BridgeTree<MerkleHashOrchard, u32, 32>) -> (r: Option<u64>)
    ensures
        bridge_leaves(*final(t)) == bridge_leaves(*old(t)),
        bridge_checkpoints(*final(t)) == bridge_checkpoints(*old(t)),
        bridge_max_checkpoints(*final(t)) == bridge_max_checkpoints(*old(t)),
        bridge_leaves(*old(t)).len() > 0 ==> r == Some((bridge_leaves(*old(t)).len() - 1) as u64),
        bridge_leaves(*old(t)).len() == 0 ==> r is None,
        bridge_leaves(*old(t)).len() == 0 || bridge_marked(*old(t)).contains_key(
            (bridge_leaves(*old(t)).len() - 1) as nat,
        ) ==> bridge_marked(*final(t)) == bridge_marked(*old(t)),
        bridge_leaves(*old(t)).len() > 0 && !bridge_marked(*old(t)).contains_key(
            (bridge_leaves(*old(t)).len() - 1) as nat,
        ) ==> bridge_marked(*final(t)) == bridge_marked(*old(t)).insert(
            (bridge_leaves(*old(t)).len() - 1) as nat,
            latest_id(bridge_checkpoints(*old(t))),
        ),
{
    t.mark().map(u64::from)
}

/// Relies on `BridgeTree::root`: at depth 0 the root over all leaves; at depth k the
/// root as of the k-th most recent retained checkpoint, `None` when fewer are retained.
#[verifier::external_body]
fn bridge_root(t: &BridgeTree<MerkleHashOrchard, u32, 32>, depth: usize) -> (r: Option<[u8; 32]>)
    ensures
        depth == 0 || depth <= bridge_checkpoints(*t).len() <==> r is Some,
        r matches Some(h) ==> h@ == merkle_root(
            leaves_at(bridge_leaves(*t), bridge_checkpoints(*t), depth as nat),
        ),
{
    t.root(depth).map(|h| h.to_bytes())
}

/// Relies on `BridgeTree::witness`: when it succeeds, the sibling hashes from the
/// leaf at `position` up to the root of the tree as of `depth` checkpoints back.
/// It succeeds for a marked position that the tree state holds, unless the mark
/// was made while one of the `depth` latest checkpoints was the newest.
#[verifier::external_body]
fn bridge_witness(t: &BridgeTree<MerkleHashOrchard, u32, 32>, position: u64, depth: usize) -> (r:
    Option<Vec<[u8; 32]>>)
    ensures
        r matches Some(p) ==> hashes_view(p@) == auth_path(
            leaves_at(bridge_leaves(*t), bridge_checkpoints(*t), depth as nat),
            position as nat,
        ),
        ({
            let cps = bridge_checkpoints(*t);
            let marked = bridge_marked(*t);
            &&& depth == 0 || depth <= cps.len()
            &&& position < leaves_at(bridge_leaves(*t), cps, depth as nat).len()
            &&& marked.contains_key(position as nat)
            &&& forall|i: int|
                cps.len() - depth <= i < cps.len() ==> Some(#[trigger] cps[i].0) != marked[position as nat]
        }) ==> r is Some,
{
    let path = t.witness(Position::from(position), depth).ok()?;
    Some(path.iter().map(|h| h.to_bytes()).collect())
}

/// Relies on `BridgeTree::checkpoint`: when `id` is above every retained identifier,
/// records the current leaf count under it and drops the oldest record beyond the
/// retention bound; otherwise changes nothing. Says whether it recorded.
#[verifier::external_body]
fn bridge_checkpoint(t: &mut BridgeTree<MerkleHashOrchard, u32, 32>, id: u32) -> (r: bool)
    ensures
        r == (bridge_checkpoints(*old(t)).len() == 0 || bridge_checkpoints(*old(t)).last().0 < id),
        r ==> bridge_checkpoints(*final(t)) == retain_last(
            bridge_checkpoints(*old(t)).push((id, bridge_leaves(*old(t)).len())),
            bridge_max_checkpoints(*old(t)),
        ),
        !r ==> bridge_checkpoints(*final(t)) == bridge_checkpoints(*old(t)),
        bridge_leaves(*final(t)) == bridge_leaves(*old(t)),
        bridge_max_checkpoints(*final(t)) == bridge_max_checkpoints(*old(t)),
        bridge_marked(*final(t)) == bridge_marked(*old(t)),
{
    t.checkpoint(id)
}

/// The append-only note commitment tree with its checkpoint history. Besides the
/// tree itself it keeps the leaf count and, for each retained checkpoint, the
/// identifier and leaf count it was taken at.
pub struct CommitmentTree {
    tree: BridgeTree<MerkleHashOrchard, u32, 32>,
    size: u64,
    history: Vec<(u32, u64)>,
}

impl CommitmentTree {
    /// The commitments appended so far, in order; leaf `i` sits at position `i`.
    pub closed spec fn leaves(&self) -> Seq<Seq<u8>> {
        bridge_leaves(self.tree)
    }

    /// The retained checkpoints, oldest first, as (identifier, leaf count).
    pub closed spec fn checkpoints(&self) -> Seq<(u32, nat)> {
        bridge_checkpoints(self.tree)
    }

    pub closed spec fn wf(&self) -> bool {
        &&& bridge_max_checkpoints(self.tree) == MAX_CHECKPOINTS
        &&& self.leaves().len() <= LEAF_CAPACITY
        &&& self.size == self.leaves().len()
        &&& self.checkpoints().len() <= MAX_CHECKPOINTS
        &&& self.history@.len() == self.checkpoints().len()
        &&& forall|i: int|
            0 <= i < self.checkpoints().len() ==> {
                &&& #[trigger] self.checkpoints()[i].1 <= self.leaves().len()
                &&& self.history@[i].0 == self.checkpoints()[i].0
                &&& self.history@[i].1 == self.checkpoints()[i].1
            }
        &&& forall|i: int, j: int|
            0 <= i < j < self.checkpoints().len() ==> #[trigger] self.checkpoints()[i].0
                < #[trigger] self.checkpoints()[j].0 && self.checkpoints()[i].1
                <= self.checkpoints()[j].1
        &&& forall|p: nat| p < self.leaves().len() ==> #[trigger] self.marked().contains_key(p)
        &&& forall|p: nat|
            #[trigger] self.marked().contains_key(p) && self.marked()[p] is Some ==> latest_id(
                self.checkpoints(),
            ) is Some && self.marked()[p].unwrap() <= latest_id(self.checkpoints()).unwrap()
        &&& forall|p: nat, i: int|
            0 <= i < self.checkpoints().len() && #[trigger] self.marked().contains_key(p)
                && self.marked()[p] == Some(#[trigger] self.checkpoints()[i].0) ==> self.checkpoints()[i].1
                <= p
    }

    /// The marked positions, with the checkpoint current when each was marked.
    pub closed spec fn marked(&self) -> Map<nat, Option<u32>> {
        bridge_marked(self.tree)
    }

    /// A well-formed tree holds at most 2^32 leaves and 100 checkpoints, each
    /// taken at a leaf count it has reached.
    pub proof fn lemma_wf_bounds(&self)
        requires
            self.wf(),
        ensures
            self.size() <= LEAF_CAPACITY,
            self.checkpoints().len() <= MAX_CHECKPOINTS,
            forall|i: int|
                0 <= i < self.checkpoints().len() ==> #[trigger] self.checkpoints()[i].1
                    <= self.size(),
    {
    }

    /// Number of leaves in the tree.
    pub open spec fn size(&self) -> nat {
        self.leaves().len()
    }

    /// The leaves of the tree state `depth` checkpoints back.
    pub open spec fn leaves_at_depth(&self, depth: nat) -> Seq<Seq<u8>> {
        leaves_at(self.leaves(), self.checkpoints(), depth)
    }

    /// Whether a tree state is retained `depth` checkpoints back.
    pub open spec fn has_depth(&self, depth: nat) -> bool {
        depth == 0 || depth <= self.checkpoints().len()
    }

    /// An empty tree with no checkpoint.
    pub fn new() -> (r: Self)
        ensures
            r.wf(),
            r.leaves() == Seq::<Seq<u8>>::empty(),
            r.checkpoints() == Seq::<(u32, nat)>::empty(),
    {
        CommitmentTree { tree: bridge_new(MAX_CHECKPOINTS), size: 0, history: Vec::new() }
    }

    /// Number of leaves in the tree.
    pub fn len(&self) -> (r: u64)
        requires
            self.wf(),
        ensures
            r == self.size(),
    {
        self.size
    }

    /// Appends a commitment and returns the position it was given: the number of
    /// leaves before it. Fails with `Validation` on a non-canonical encoding and
    /// with `Capacity` on a full tree, leaving the tree as it was.
    pub fn append(&mut self, cmx: &[u8; 32]) -> (r: Result<u64, WalletError>)
        requires
            old(self).wf(),
        ensures
            final(self).wf(),
            final(self).checkpoints() == old(self).checkpoints(),
            !is_node_encoding(cmx@) ==> r == Err::<u64, WalletError>(WalletError::Validation),
            is_node_encoding(cmx@) && old(self).size() >= LEAF_CAPACITY ==> r == Err::<
                u64,
                WalletError,
            >(WalletError::Capacity),
            is_node_encoding(cmx@) && old(self).size() < LEAF_CAPACITY ==> r == Ok::<
                u64,
                WalletError,
            >(old(self).size() as u64),
            r is Ok ==> final(self).leaves() == old(self).leaves().push(cmx@),
            r is Err ==> final(self).leaves() == old(self).leaves(),
    {
        if !is_node_bytes(cmx) {
            return Err(WalletError::Validation);
        }
        if !bridge_append(&mut self.tree, cmx) {
            return Err(WalletError::Capacity);
        }
        self.size = self.size + 1;
        let m = bridge_mark(&mut self.tree);
        match m {
            Some(p) => Ok(p),
            None => Err(WalletError::StateConsistency),
        }
    }

    /// Leaf count of the tree state `depth` checkpoints back, if it is retained.
    fn size_at_depth(&self, depth: usize) -> (r: Option<u64>)
        requires
            self.wf(),
        ensures
            r is Some <==> self.has_depth(depth as nat),
            r matches Some(n) ==> n == self.leaves_at_depth(depth as nat).len(),
    {
        if depth == 0 {
            Some(self.size)
        } else if depth <= self.history.len() {
            let n = self.history[self.history.len() - depth].1;
            proof {
                let k = self.checkpoints().len() - depth;
                assert(self.checkpoints()[k].1 <= self.leaves().len());
            }
            Some(n)
        } else {
            None
        }
    }

    /// The anchor `depth` checkpoints back (depth 0: the current root). Fails with
    /// `NotFound` on an empty tree at depth 0 and where fewer than `depth`
    /// checkpoints are retained.
    pub fn root(&self, depth: usize) -> (r: Result<[u8; 32], WalletError>)
        requires
            self.wf(),
        ensures
            r is Ok <==> self.has_depth(depth as nat) && !(depth == 0 && self.size() == 0),
            r is Err ==> r == Err::<[u8; 32], WalletError>(WalletError::NotFound),
            r matches Ok(h) ==> h@ == merkle_root(self.leaves_at_depth(depth as nat)),
    {
        if depth == 0 && self.size == 0 {
            return Err(WalletError::NotFound);
        }
        match bridge_root(&self.tree, depth) {
            Some(h) => Ok(h),
            None => Err(WalletError::NotFound),
        }
    }

    /// The authentication path of the leaf at `position` in the tree state `depth`
    /// checkpoints back. Fails with `StateConsistency` where that state is not
    /// retained or does not hold the position, and where the tree has no witness
    /// data for it.
    pub fn witness(&self, position: u64, depth: usize) -> (r: Result<Vec<[u8; 32]>, WalletError>)
        requires
            self.wf(),
        ensures
            !self.has_depth(depth as nat) || position >= self.leaves_at_depth(depth as nat).len()
                ==> r is Err,
            self.has_depth(depth as nat) && position < self.leaves_at_depth(depth as nat).len()
                ==> r is Ok,
            r is Err ==> r == Err::<Vec<[u8; 32]>, WalletError>(WalletError::StateConsistency),
            r matches Ok(p) ==> hashes_view(p@) == auth_path(
                self.leaves_at_depth(depth as nat),
                position as nat,
            ),
    {
        match self.size_at_depth(depth) {
            None => Err(WalletError::StateConsistency),
            Some(n) => {
                if position >= n {
                    return Err(WalletError::StateConsistency);
                }
                proof {
                    let cps = self.checkpoints();
                    let m = self.marked();
                    assert(position < self.size());
                    assert(m.contains_key(position as nat));
                    assert forall|i: int| cps.len() - depth <= i < cps.len() implies Some(
                        #[trigger] cps[i].0,
                    ) != m[position as nat] by {
                        if Some(cps[i].0) == m[position as nat] {
                            assert(cps[i].1 <= position);
                            if i != cps.len() - depth {
                                assert(cps[cps.len() - depth].1 <= cps[i].1);
                            }
                        }
                    }
                }
                match bridge_witness(&self.tree, position, depth) {
                    Some(p) => Ok(p),
                    None => Err(WalletError::StateConsistency),
                }
            }
        }
    }

    /// Takes a checkpoint of the current state under `id`, which must be above every
    /// retained identifier; beyond the retention bound the oldest one is dropped.
    /// Says whether the checkpoint was taken.
    pub fn checkpoint(&mut self, id: u32) -> (r: bool)
        requires
            old(self).wf(),
        ensures
            final(self).wf(),
            final(self).leaves() == old(self).leaves(),
            r == (old(self).checkpoints().len() == 0 || old(self).checkpoints().last().0 < id),
            r ==> final(self).checkpoints() == retain_last(
                old(self).checkpoints().push((id, old(self).size())),
                MAX_CHECKPOINTS as nat,
            ),
            !r ==> final(self).checkpoints() == old(self).checkpoints(),
    {
        let ok = bridge_checkpoint(&mut self.tree, id);
        if ok {
            self.history.push((id, self.size));
            if self.history.len() > MAX_CHECKPOINTS {
                self.history.remove(0);
            }
        }
        ok
    }

    /// Empties the tree and drops every checkpoint.
    pub fn reset(&mut self)
        ensures
            final(self).wf(),
            final(self).leaves() == Seq::<Seq<u8>>::empty(),
            final(self).checkpoints() == Seq::<(u32, nat)>::empty(),
    {
        *self = CommitmentTree::new();
    }
}

/// The anchor of a tree state depends on nothing but the commitments appended,
/// in order: two trees holding the same leaves have the same root.
pub proof fn lemma_root_determined_by_leaves(a: CommitmentTree, b: CommitmentTree)
    requires
        a.leaves() == b.leaves(),
    ensures
        merkle_root(a.leaves()) == merkle_root(b.leaves()),
{
}

/// Hashing the leaf at any position of the tree up the authentication path that
/// `witness(position, 0)` returns reproduces the anchor that `root(0)` returns.
pub proof fn lemma_tree_witness_round_trip(t: CommitmentTree, position: nat, path: Seq<Seq<u8>>)
    requires
        t.wf(),
        position < t.size(),
        path == auth_path(t.leaves_at_depth(0), position),
    ensures
        path_root(t.leaves()[position as int], position, path) == merkle_root(t.leaves_at_depth(0)),
{
    lemma2_to64();
    assert(pow2(TREE_DEPTH as nat) == LEAF_CAPACITY);
    lemma_witness_round_trip(t.leaves(), position);
}

} // verus!
