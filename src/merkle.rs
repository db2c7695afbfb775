//! The note commitment tree as mathematics: node values, roots and
//! authentication paths over an ordered sequence of leaves.

use incrementalmerkletree::{Hashable, Level};
use orchard::tree::MerkleHashOrchard;
use vstd::arithmetic::div_mod::{lemma_basic_div, lemma_div_denominator, lemma_fundamental_div_mod};
use vstd::arithmetic::power2::{lemma2_to64, lemma_pow2_pos, lemma_pow2_unfold, pow2};
use crate::field::{is_canonical_bytes, is_canonical_field};
use vstd::prelude::*;

verus! {

/// Number of levels between a leaf and the root.
pub const TREE_DEPTH: u8 = 32;

/// The Sinsemilla-based node hash `MerkleCRH` applied at `level` to two child encodings.
pub uninterp spec fn merkle_crh_of(level: nat, left: Seq<u8>, right: Seq<u8>) -> [u8; 32];

/// Encoding of the root of a subtree of height `level` that holds no leaf.
pub uninterp spec fn empty_root_of(level: nat) -> [u8; 32];

/// Whether 32 bytes are the encoding of a tree node: a canonical Pallas base
/// field element, which is what `MerkleHashOrchard::from_bytes` accepts.
pub open spec fn is_node_encoding(bytes: Seq<u8>) -> bool {
    is_canonical_field(bytes)
}

/// Whether `bytes` encode a tree node.
pub fn is_node_bytes(bytes: &[u8; 32]) -> (r: bool)
    ensures
        r == is_node_encoding(bytes@),
{
    is_canonical_bytes(bytes)
}

/// Relies on `Hashable::combine` for `MerkleHashOrchard`: the parent of two canonical
/// node encodings at `level`, itself encoded canonically by `to_bytes`. The
/// inputs are read with `MerkleHashOrchard::from_bytes`, which accepts canonical
/// encodings.
#[verifier::external_body]
fn combine_nodes(level: u8, left: &[u8; 32], right: &[u8; 32]) -> (r: [u8; 32])
    requires
        is_node_encoding(left@),
        is_node_encoding(right@),
    ensures
        r == merkle_crh_of(level as nat, left@, right@),
        is_node_encoding(r@),
{
    let l = MerkleHashOrchard::from_bytes(left).unwrap();
    let r = MerkleHashOrchard::from_bytes(right).unwrap();
    MerkleHashOrchard::combine(Level::from(level), &l, &r).to_bytes()
}

/// Relies on `Hashable::empty_root` for `MerkleHashOrchard`: the root of an empty
/// subtree of height `level`.
#[verifier::external_body]
fn empty_subtree_root(level: u8) -> (r: [u8; 32])
    requires
        level <= TREE_DEPTH,
    ensures
        r == empty_root_of(level as nat),
{
    MerkleHashOrchard::empty_root(Level::from(level)).to_bytes()
}

/// The byte strings held by a sequence of 32-byte values.
pub open spec fn hashes_view(v: Seq<[u8; 32]>) -> Seq<Seq<u8>> {
    v.map_values(|h: [u8; 32]| h@)
}

/// The node at height `level` and index `index` of the depth-32 tree whose leaves
/// are `leaves`, followed by empty slots. A subtree that holds no leaf has the
/// empty root of its height; any other inner node hashes its two children.
pub open spec fn subtree_node(leaves: Seq<Seq<u8>>, level: nat, index: nat) -> Seq<u8>
    decreases level,
{
    if index * pow2(level) >= leaves.len() {
        empty_root_of(level)@
    } else if level == 0 {
        leaves[index as int]
    } else {
        merkle_crh_of(
            (level - 1) as nat,
            subtree_node(leaves, (level - 1) as nat, 2 * index),
            subtree_node(leaves, (level - 1) as nat, 2 * index + 1),
        )@
    }
}

/// The root of the tree holding `leaves`, as the 32 bytes of the anchor.
pub open spec fn merkle_root_bytes(leaves: Seq<Seq<u8>>) -> [u8; 32] {
    if leaves.len() == 0 {
        empty_root_of(TREE_DEPTH as nat)
    } else {
        merkle_crh_of(
            (TREE_DEPTH - 1) as nat,
            subtree_node(leaves, (TREE_DEPTH - 1) as nat, 0),
            subtree_node(leaves, (TREE_DEPTH - 1) as nat, 1),
        )
    }
}

/// The root bytes are the root: both name the top node of the tree.
pub proof fn lemma_root_bytes(leaves: Seq<Seq<u8>>)
    ensures
        merkle_root_bytes(leaves)@ == merkle_root(leaves),
        merkle_root(leaves).len() == 32,
{
    assert(0 * pow2(TREE_DEPTH as nat) == 0);
}

/// The root (anchor) of the tree holding `leaves`.
pub open spec fn merkle_root(leaves: Seq<Seq<u8>>) -> Seq<u8> {
    subtree_node(leaves, TREE_DEPTH as nat, 0)
}

/// The other child of the parent of node `i`.
pub open spec fn sibling_index(i: nat) -> nat {
    if i % 2 == 0 {
        i + 1
    } else {
        (i - 1) as nat
    }
}

/// The authentication path of the leaf at `position`: the sibling of each node on
/// the way from that leaf to the root, lowest first.
pub open spec fn auth_path(leaves: Seq<Seq<u8>>, position: nat) -> Seq<Seq<u8>> {
    Seq::new(
        TREE_DEPTH as nat,
        |l: int| subtree_node(leaves, l as nat, sibling_index(position / pow2(l as nat))),
    )
}

/// The value reached at height `level` by hashing `leaf` upwards along `path`,
/// taking the path element as left child where bit `l` of `position` is set.
pub open spec fn path_node(leaf: Seq<u8>, position: nat, path: Seq<Seq<u8>>, level: nat) -> Seq<u8>
    decreases level,
{
    if level == 0 {
        leaf
    } else {
        let l = (level - 1) as nat;
        let below = path_node(leaf, position, path, l);
        if (position / pow2(l)) % 2 == 0 {
            merkle_crh_of(l, below, path[l as int])@
        } else {
            merkle_crh_of(l, path[l as int], below)@
        }
    }
}

/// The root that `path` authenticates `leaf` at `position` against.
pub open spec fn path_root(leaf: Seq<u8>, position: nat, path: Seq<Seq<u8>>) -> Seq<u8> {
    path_node(leaf, position, path, TREE_DEPTH as nat)
}

proof fn lemma_path_node(leaves: Seq<Seq<u8>>, position: nat, level: nat)
    requires
        position < leaves.len(),
        level <= TREE_DEPTH,
    ensures
        path_node(leaves[position as int], position, auth_path(leaves, position), level)
            == subtree_node(leaves, level, position / pow2(level)),
    decreases level,
{
    let path = auth_path(leaves, position);
    if level == 0 {
        lemma2_to64();
        assert(position / 1 == position);
        assert(position * pow2(0) < leaves.len());
    } else {
        let l = (level - 1) as nat;
        lemma_path_node(leaves, position, l);
        lemma_pow2_pos(l);
        lemma_pow2_unfold(level);
        let i = position / pow2(l);
        let j = position / pow2(level);
        lemma_div_denominator(position as int, pow2(l) as int, 2);
        assert(pow2(l) * 2 == pow2(level));
        assert(j == i / 2);
        lemma_fundamental_div_mod(position as int, pow2(level) as int);
        assert(position % pow2(level) >= 0);
        assert(j * pow2(level) <= position) by (nonlinear_arith)
            requires
                position == pow2(level) * j + position % pow2(level),
                position % pow2(level) >= 0,
        ;
        lemma_fundamental_div_mod(i as int, 2);
        assert(path[l as int] == subtree_node(leaves, l, sibling_index(i)));
        if i % 2 == 0 {
            assert(i == 2 * j);
        } else {
            assert(i == 2 * j + 1);
        }
    }
}

/// Hashing the leaf at any occupied position up its authentication path yields
/// the root of the tree.
pub proof fn lemma_witness_round_trip(leaves: Seq<Seq<u8>>, position: nat)
    requires
        position < leaves.len(),
        position < pow2(TREE_DEPTH as nat),
    ensures
        path_root(leaves[position as int], position, auth_path(leaves, position)) == merkle_root(
            leaves,
        ),
{
    lemma_path_node(leaves, position, TREE_DEPTH as nat);
    lemma_pow2_pos(TREE_DEPTH as nat);
    lemma_basic_div(position as int, pow2(TREE_DEPTH as nat) as int);
}

/// The root that an authentication path leads to: hashes `leaf` at `position` up
/// through the 32 elements of `path`. Gives `None` where `path` does not hold 32
/// elements or where the leaf or an element is not a canonical node encoding.
pub fn root_from_path(leaf: &[u8; 32], position: u64, path: &Vec<[u8; 32]>) -> (r: Option<
    [u8; 32],
>)
    ensures
        r is Some <==> (path@.len() == TREE_DEPTH && is_node_encoding(leaf@) && forall|i: int|
            0 <= i < path@.len() ==> is_node_encoding(#[trigger] path@[i]@)),
        r matches Some(h) ==> h@ == path_root(leaf@, position as nat, hashes_view(path@)),
{
    if path.len() != 32 {
        return None;
    }
    if !is_node_bytes(leaf) {
        return None;
    }
    let mut k: usize = 0;
    while k < 32
        invariant
            path@.len() == TREE_DEPTH,
            k <= 32,
            forall|i: int| 0 <= i < k ==> is_node_encoding(#[trigger] path@[i]@),
        decreases 32 - k,
    {
        if !is_node_bytes(&path[k]) {
            return None;
        }
        k = k + 1;
    }
    let ghost pv = hashes_view(path@);
    let mut node: [u8; 32] = *leaf;
    let mut idx: u64 = position;
    let mut level: u8 = 0;
    proof {
        lemma2_to64();
    }
    while level < TREE_DEPTH
        invariant
            path@.len() == TREE_DEPTH,
            pv == hashes_view(path@),
            forall|i: int| 0 <= i < path@.len() ==> is_node_encoding(#[trigger] path@[i]@),
            level <= TREE_DEPTH,
            is_node_encoding(node@),
            node@ == path_node(leaf@, position as nat, pv, level as nat),
            idx == position as nat / pow2(level as nat),
        decreases TREE_DEPTH - level,
    {
        proof {
            lemma_pow2_pos(level as nat);
            lemma_pow2_unfold((level + 1) as nat);
            lemma_div_denominator(position as int, pow2(level as nat) as int, 2);
        }
        let sibling = &path[level as usize];
        if idx % 2 == 0 {
            node = combine_nodes(level, &node, sibling);
        } else {
            node = combine_nodes(level, sibling, &node);
        }
        idx = idx / 2;
        level = level + 1;
    }
    Some(node)
}

/// The anchor of a tree that holds no commitment.
pub fn orchard_test_get_empty_anchor() -> (r: [u8; 32])
    ensures
        r == empty_root_of(TREE_DEPTH as nat),
        r@ == merkle_root(Seq::empty()),
{
    empty_subtree_root(TREE_DEPTH)
}

} // verus!
