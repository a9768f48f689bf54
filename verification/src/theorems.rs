//! What holds of every tree that is built, and of every path that is found in
//! one.

use crate::hash::{
    internal_hash, is_digest, leaf_hash, lemma_hashes_are_digests, lemma_internal_hash_symmetric,
};
use crate::node::NodeModel;
use crate::path::{accepts, replay};
use crate::tree::{build, leaf_level, pad_level, pair_level, reduce, MerkleTree, PADDING_ITEM};
use vstd::prelude::*;

verus! {

/// Whether every node of the level has the digests that the hash function
/// gives.
pub open spec fn level_wf(level: Seq<NodeModel>) -> bool {
    forall|j: int| 0 <= j < level.len() ==> (#[trigger] level[j]).wf()
}

/// Whether `leaf` is a leaf of one of the nodes of the level.
pub open spec fn level_has_leaf(level: Seq<NodeModel>, leaf: NodeModel) -> bool {
    exists|j: int| 0 <= j < level.len() && (#[trigger] level[j]).leaves().contains(leaf)
}

/// The digests of the nodes of a level.
pub open spec fn level_hashes(level: Seq<NodeModel>) -> Seq<Seq<char>> {
    level.map_values(|node: NodeModel| node.hash())
}

/// The items with the two at `2 * k` and `2 * k + 1` exchanged.
pub open spec fn swap_pair(items: Seq<u8>, k: int) -> Seq<u8> {
    items.update(2 * k, items[2 * k + 1]).update(2 * k + 1, items[2 * k])
}

/// A value is in the concatenation of two sequences exactly if it is in one
/// of them.
pub proof fn lemma_concat_contains<A>(a: Seq<A>, b: Seq<A>, x: A)
    ensures
        (a + b).contains(x) <==> (a.contains(x) || b.contains(x)),
{
    if a.contains(x) {
        let i = choose|i: int| 0 <= i < a.len() && a[i] == x;
        assert((a + b)[i] == x);
    }
    if b.contains(x) {
        let i = choose|i: int| 0 <= i < b.len() && b[i] == x;
        assert((a + b)[a.len() + i] == x);
    }
    if (a + b).contains(x) {
        let i = choose|i: int| 0 <= i < (a + b).len() && (a + b)[i] == x;
        if i < a.len() {
            assert(a[i] == x);
        } else {
            assert(b[i - a.len()] == x);
        }
    }
}

/// An internal node made from two well-formed nodes is well-formed.
pub proof fn lemma_internal_wf(first: NodeModel, second: NodeModel)
    requires
        first.wf(),
        second.wf(),
    ensures
        NodeModel::internal(first, second).wf(),
        NodeModel::internal(first, second).hash() == internal_hash(first.hash(), second.hash()),
{
    lemma_internal_hash_symmetric(first.hash(), second.hash());
}

/// The leaves of an internal node are those of the two nodes it was made
/// from.
pub proof fn lemma_internal_leaves(first: NodeModel, second: NodeModel, leaf: NodeModel)
    ensures
        NodeModel::internal(first, second).leaves().contains(leaf) <==> (first.leaves().contains(
            leaf,
        ) || second.leaves().contains(leaf)),
{
    lemma_concat_contains(first.leaves(), second.leaves(), leaf);
    lemma_concat_contains(second.leaves(), first.leaves(), leaf);
}

/// The root over a level of well-formed nodes is well-formed.
pub proof fn lemma_reduce_wf(level: Seq<NodeModel>)
    requires
        level.len() >= 1,
        level_wf(level),
    ensures
        reduce(level).wf(),
    decreases level.len(),
{
    if level.len() > 1 {
        let padded = pad_level(level);
        let next = pair_level(padded);
        assert forall|j: int| 0 <= j < next.len() implies (#[trigger] next[j]).wf() by {
            assert(padded[2 * j].wf());
            assert(padded[2 * j + 1].wf());
            lemma_internal_wf(padded[2 * j], padded[2 * j + 1]);
        }
        lemma_reduce_wf(next);
    }
}

/// Every tree that is built is well-formed.
pub proof fn lemma_build_wf(items: Seq<u8>)
    requires
        items.len() >= 1,
    ensures
        build(items).wf(),
{
    let padded = pad_level(leaf_level(items));
    assert forall|j: int| 0 <= j < padded.len() implies (#[trigger] padded[j]).wf() by {}
    lemma_reduce_wf(padded);
}

/// The digest of a well-formed node has the form of a digest: 64 upper-case
/// hexadecimal digits.
pub proof fn lemma_wf_hash_is_digest(tree: NodeModel)
    requires
        tree.wf(),
    ensures
        is_digest(tree.hash()),
{
    match tree {
        NodeModel::Leaf { data, .. } => {
            lemma_hashes_are_digests(data, Seq::empty(), Seq::empty());
        },
        NodeModel::Internal { left, right, .. } => {
            lemma_hashes_are_digests(0, left.hash(), right.hash());
        },
    }
}

/// A leaf of a node of a level is a leaf of the root over the level.
pub proof fn lemma_reduce_keeps_leaf(level: Seq<NodeModel>, leaf: NodeModel)
    requires
        level.len() >= 1,
        level_has_leaf(level, leaf),
    ensures
        reduce(level).leaves().contains(leaf),
    decreases level.len(),
{
    let j = choose|j: int| 0 <= j < level.len() && (#[trigger] level[j]).leaves().contains(leaf);
    if level.len() > 1 {
        let padded = pad_level(level);
        let next = pair_level(padded);
        let k = j / 2;
        assert(padded[j] == level[j]);
        assert(next[k] == NodeModel::internal(padded[2 * k], padded[2 * k + 1]));
        lemma_internal_leaves(padded[2 * k], padded[2 * k + 1], leaf);
        assert(next[k].leaves().contains(leaf));
        lemma_reduce_keeps_leaf(next, leaf);
    }
}

/// A leaf of the root over a level is a leaf of a node of the level, or the
/// padding leaf.
pub proof fn lemma_reduce_leaf_origin(level: Seq<NodeModel>, leaf: NodeModel)
    requires
        level.len() >= 1,
        reduce(level).leaves().contains(leaf),
    ensures
        level_has_leaf(level, leaf) || leaf == NodeModel::leaf(PADDING_ITEM),
    decreases level.len(),
{
    if level.len() == 1 {
        assert(level[0].leaves().contains(leaf));
    } else {
        let padded = pad_level(level);
        let next = pair_level(padded);
        lemma_reduce_leaf_origin(next, leaf);
        if level_has_leaf(next, leaf) {
            let k = choose|k: int|
                0 <= k < next.len() && (#[trigger] next[k]).leaves().contains(leaf);
            lemma_internal_leaves(padded[2 * k], padded[2 * k + 1], leaf);
            let m = if padded[2 * k].leaves().contains(leaf) {
                2 * k
            } else {
                2 * k + 1
            };
            assert(padded[m].leaves().contains(leaf));
            if m < level.len() {
                assert(level[m] == padded[m]);
            } else {
                assert(padded[m] == NodeModel::leaf(PADDING_ITEM));
                assert(padded[m].leaves()[0] == NodeModel::leaf(PADDING_ITEM));
            }
        }
    }
}

/// Every leaf of a tree is a leaf node.
pub proof fn lemma_leaves_are_leaf_nodes(tree: NodeModel, leaf: NodeModel)
    requires
        tree.leaves().contains(leaf),
    ensures
        leaf is Leaf,
    decreases tree,
{
    match tree {
        NodeModel::Leaf { .. } => {
            assert(tree.leaves()[0] == tree);
        },
        NodeModel::Internal { left, right, .. } => {
            lemma_concat_contains(left.leaves(), right.leaves(), leaf);
            if left.leaves().contains(leaf) {
                lemma_leaves_are_leaf_nodes(*left, leaf);
            } else {
                lemma_leaves_are_leaf_nodes(*right, leaf);
            }
        },
    }
}

/// The items of a tree are the items of its leaves, in the same order.
pub proof fn lemma_items_of_leaves(tree: NodeModel)
    ensures
        tree.items().len() == tree.leaves().len(),
        forall|k: int|
            0 <= k < tree.leaves().len() ==> (#[trigger] tree.leaves()[k]) == (NodeModel::Leaf {
                hash: tree.leaves()[k].hash(),
                data: tree.items()[k],
            }),
    decreases tree,
{
    match tree {
        NodeModel::Leaf { .. } => {},
        NodeModel::Internal { left, right, .. } => {
            lemma_items_of_leaves(*left);
            lemma_items_of_leaves(*right);
        },
    }
}

/// A tree has a path to the digest of each of its leaves.
pub proof fn lemma_leaf_has_path(tree: NodeModel, leaf: NodeModel)
    requires
        tree.leaves().contains(leaf),
    ensures
        tree.path_to(leaf.hash()) is Some,
    decreases tree,
{
    match tree {
        NodeModel::Leaf { .. } => {
            assert(tree.leaves()[0] == tree);
        },
        NodeModel::Internal { left, right, .. } => {
            lemma_concat_contains(left.leaves(), right.leaves(), leaf);
            if left.leaves().contains(leaf) {
                lemma_leaf_has_path(*left, leaf);
            } else {
                lemma_leaf_has_path(*right, leaf);
            }
        },
    }
}

/// A path to a digest is found only where a leaf of the tree has that digest.
pub proof fn lemma_path_has_leaf(tree: NodeModel, target: Seq<char>) -> (leaf: NodeModel)
    requires
        tree.path_to(target) is Some,
    ensures
        tree.leaves().contains(leaf),
        leaf.hash() == target,
    decreases tree,
{
    match tree {
        NodeModel::Leaf { .. } => {
            assert(tree.leaves()[0] == tree);
            tree
        },
        NodeModel::Internal { left, right, .. } => {
            let leaf = if left.path_to(target) is Some {
                lemma_path_has_leaf(*left, target)
            } else {
                lemma_path_has_leaf(*right, target)
            };
            lemma_concat_contains(left.leaves(), right.leaves(), leaf);
            leaf
        },
    }
}

/// A path has one element for the leaf it starts from and one for each level
/// above that leaf.
pub proof fn lemma_path_len(tree: NodeModel, target: Seq<char>)
    ensures
        tree.path_to(target) is Some <==> tree.depth_of(target) is Some,
        tree.path_to(target) is Some ==> tree.path_to(target)->0.len() == 1 + tree.depth_of(
            target,
        )->0,
    decreases tree,
{
    match tree {
        NodeModel::Leaf { .. } => {},
        NodeModel::Internal { left, right, .. } => {
            lemma_path_len(*left, target);
            lemma_path_len(*right, target);
        },
    }
}

/// In a well-formed tree, the path to a digest starts with that digest and
/// leads to the digest of the root.
pub proof fn lemma_path_replays(tree: NodeModel, target: Seq<char>)
    requires
        tree.wf(),
        tree.path_to(target) is Some,
    ensures
        tree.path_to(target)->0.len() >= 1,
        tree.path_to(target)->0[0] == target,
        replay(tree.path_to(target)->0) == tree.hash(),
    decreases tree,
{
    match tree {
        NodeModel::Leaf { .. } => {},
        NodeModel::Internal { left, right, .. } => {
            let path = tree.path_to(target)->0;
            if left.path_to(target) is Some {
                let below = left.path_to(target)->0;
                lemma_path_replays(*left, target);
                assert(path.drop_last() =~= below);
                assert(path.last() == right.hash());
            } else {
                let below = right.path_to(target)->0;
                lemma_path_replays(*right, target);
                assert(path.drop_last() =~= below);
                assert(path.last() == left.hash());
                lemma_internal_hash_symmetric(right.hash(), left.hash());
            }
        },
    }
}

/// In a well-formed tree, every element of a path has the form of a digest.
pub proof fn lemma_path_of_digests(tree: NodeModel, target: Seq<char>)
    requires
        tree.wf(),
        tree.path_to(target) is Some,
    ensures
        forall|j: int|
            0 <= j < tree.path_to(target)->0.len() ==> is_digest(
                #[trigger] tree.path_to(target)->0[j],
            ),
    decreases tree,
{
    let path = tree.path_to(target)->0;
    match tree {
        NodeModel::Leaf { .. } => {
            lemma_wf_hash_is_digest(tree);
        },
        NodeModel::Internal { left, right, .. } => {
            lemma_wf_hash_is_digest(*left);
            lemma_wf_hash_is_digest(*right);
            if left.path_to(target) is Some {
                lemma_path_of_digests(*left, target);
                let below = left.path_to(target)->0;
                assert forall|j: int| 0 <= j < path.len() implies is_digest(#[trigger] path[j]) by {
                    if j < below.len() {
                        assert(path[j] == below[j]);
                    }
                }
            } else {
                lemma_path_of_digests(*right, target);
                let below = right.path_to(target)->0;
                assert forall|j: int| 0 <= j < path.len() implies is_digest(#[trigger] path[j]) by {
                    if j < below.len() {
                        assert(path[j] == below[j]);
                    }
                }
            }
        },
    }
}

/// Inclusion. In the tree over a sequence of items, each item has a leaf with
/// its digest; the tree has a path for the item, and the path is accepted for
/// the root digest of the tree.
pub proof fn theorem_inclusion(items: Seq<u8>, i: int)
    requires
        0 <= i < items.len(),
    ensures
        build(items).leaves().contains(NodeModel::leaf(items[i])),
        build(items).items().contains(items[i]),
        build(items).path_to(leaf_hash(items[i])) is Some,
        accepts(build(items).path_to(leaf_hash(items[i]))->0, build(items).hash()),
{
    let tree = build(items);
    let leaf = NodeModel::leaf(items[i]);
    let level = pad_level(leaf_level(items));
    assert(level[i] == leaf);
    assert(level[i].leaves()[0] == leaf);
    assert(level_has_leaf(level, leaf));
    lemma_reduce_keeps_leaf(level, leaf);
    lemma_build_wf(items);
    lemma_leaf_has_path(tree, leaf);
    lemma_path_replays(tree, leaf_hash(items[i]));
    lemma_items_of_leaves(tree);
    let k = choose|k: int| 0 <= k < tree.leaves().len() && tree.leaves()[k] == leaf;
    assert(tree.items()[k] == items[i]);
}

/// Exclusion. Where neither an item of the sequence nor the padding item has
/// the digest of `target`, the tree over the sequence has no path for
/// `target`. Such a `target` is not among the items and is not the padding
/// item.
pub proof fn theorem_exclusion(items: Seq<u8>, target: u8)
    requires
        items.len() >= 1,
    ensures
        (forall|j: int| 0 <= j < items.len() ==> leaf_hash(#[trigger] items[j]) != leaf_hash(target))
            && leaf_hash(PADDING_ITEM) != leaf_hash(target) ==> build(items).path_to(
            leaf_hash(target),
        ) is None,
{
    let tree = build(items);
    let digest = leaf_hash(target);
    if tree.path_to(digest) is Some {
        let leaf = lemma_path_has_leaf(tree, digest);
        let level = pad_level(leaf_level(items));
        lemma_reduce_leaf_origin(level, leaf);
        if level_has_leaf(level, leaf) {
            let j = choose|j: int|
                0 <= j < level.len() && (#[trigger] level[j]).leaves().contains(leaf);
            assert(level[j].leaves()[0] == level[j]);
            assert(leaf == level[j]);
            if j < items.len() {
                assert(leaf.hash() == leaf_hash(items[j]));
            } else {
                assert(leaf.hash() == leaf_hash(PADDING_ITEM));
            }
        }
    }
}

/// Determinism. Two trees built over the same sequence of items have the same
/// root digest, and are the same tree.
pub proof fn theorem_deterministic(first: MerkleTree, second: MerkleTree, items: Seq<u8>)
    requires
        first@ == build(items),
        second@ == build(items),
    ensures
        first@.hash() == second@.hash(),
        first@ == second@,
{
}

/// The digest of the root over a level depends on the digests of the nodes of
/// the level only.
pub proof fn lemma_reduce_hash_by_hashes(a: Seq<NodeModel>, b: Seq<NodeModel>)
    requires
        a.len() >= 1,
        level_hashes(a) == level_hashes(b),
    ensures
        reduce(a).hash() == reduce(b).hash(),
    decreases a.len(),
{
    assert(a.len() == level_hashes(a).len());
    assert(b.len() == level_hashes(b).len());
    assert forall|j: int| 0 <= j < a.len() implies (#[trigger] a[j]).hash() == b[j].hash() by {
        assert(level_hashes(a)[j] == level_hashes(b)[j]);
    }
    if a.len() > 1 {
        let padded_a = pad_level(a);
        let padded_b = pad_level(b);
        let next_a = pair_level(padded_a);
        let next_b = pair_level(padded_b);
        assert forall|j: int| 0 <= j < padded_a.len() implies (#[trigger] padded_a[j]).hash()
            == padded_b[j].hash() by {
            if j < a.len() {
                assert(a[j].hash() == b[j].hash());
            }
        }
        assert forall|j: int| 0 <= j < next_a.len() implies (#[trigger] next_a[j]).hash()
            == next_b[j].hash() by {
            assert(padded_a[2 * j].hash() == padded_b[2 * j].hash());
            assert(padded_a[2 * j + 1].hash() == padded_b[2 * j + 1].hash());
        }
        assert(level_hashes(next_a) =~= level_hashes(next_b));
        lemma_reduce_hash_by_hashes(next_a, next_b);
    }
}

/// Sibling swap. Exchanging the two items of one pair of neighbours, the
/// items at `2 * k` and `2 * k + 1`, does not change the root digest.
pub proof fn theorem_sibling_swap(items: Seq<u8>, k: int)
    requires
        0 <= k,
        2 * k + 1 < items.len(),
    ensures
        build(swap_pair(items, k)).hash() == build(items).hash(),
{
    let swapped = swap_pair(items, k);
    let level_a = pad_level(leaf_level(items));
    let level_b = pad_level(leaf_level(swapped));
    let next_a = pair_level(level_a);
    let next_b = pair_level(level_b);
    assert(pad_level(level_a) == level_a);
    assert(pad_level(level_b) == level_b);
    assert forall|j: int| 0 <= j < next_a.len() implies (#[trigger] next_a[j]).hash()
        == next_b[j].hash() by {
        if j == k {
            assert(level_b[2 * j] == level_a[2 * j + 1]);
            assert(level_b[2 * j + 1] == level_a[2 * j]);
            lemma_internal_hash_symmetric(level_a[2 * j].hash(), level_a[2 * j + 1].hash());
        } else {
            assert(level_b[2 * j] == level_a[2 * j]);
            assert(level_b[2 * j + 1] == level_a[2 * j + 1]);
        }
    }
    assert(level_hashes(next_a) =~= level_hashes(next_b));
    lemma_reduce_hash_by_hashes(next_a, next_b);
}

} // verus!
