//! Inclusion paths: finding the path from a leaf to the root, and replaying a
//! path against a root digest.

use crate::hash::{hash_leaf, hash_pair, internal_hash, leaf_hash};
use crate::node::{Node, NodeModel};
use crate::theorems::lemma_path_replays;
use crate::tree::MerkleTree;
use vstd::prelude::*;

verus! {

impl NodeModel {
    /// The path from the first leaf, from left to right, whose digest is
    /// `target` up to this node: the leaf's digest, then the digest of the
    /// sibling at each level on the way up. `None` where no leaf has that
    /// digest.
    pub open spec fn path_to(self, target: Seq<char>) -> Option<Seq<Seq<char>>>
        decreases self,
    {
        match self {
            NodeModel::Leaf { hash, .. } => if hash == target {
                Some(seq![hash])
            } else {
                None
            },
            NodeModel::Internal { left, right, .. } => match left.path_to(target) {
                Some(path) => Some(path.push(right.hash())),
                None => match right.path_to(target) {
                    Some(path) => Some(path.push(left.hash())),
                    None => None,
                },
            },
        }
    }

    /// The depth of the leaf that `path_to` finds: the number of internal
    /// nodes above it, up to and including this node.
    pub open spec fn depth_of(self, target: Seq<char>) -> Option<nat>
        decreases self,
    {
        match self {
            NodeModel::Leaf { hash, .. } => if hash == target {
                Some(0)
            } else {
                None
            },
            NodeModel::Internal { left, right, .. } => match left.depth_of(target) {
                Some(depth) => Some(depth + 1),
                None => match right.depth_of(target) {
                    Some(depth) => Some(depth + 1),
                    None => None,
                },
            },
        }
    }
}

/// The digest that a path leads to: its first element, combined in turn with
/// each of the following ones.
pub open spec fn replay(path: Seq<Seq<char>>) -> Seq<char>
    decreases path.len(),
{
    if path.len() == 0 {
        Seq::empty()
    } else if path.len() == 1 {
        path[0]
    } else {
        internal_hash(replay(path.drop_last()), path.last())
    }
}

/// Whether a path is accepted for a root digest: it is not empty and leads to
/// that digest.
pub open spec fn accepts(path: Seq<Seq<char>>, root_hash: Seq<char>) -> bool {
    path.len() > 0 && replay(path) == root_hash
}

/// The digests held by a sequence of strings.
pub open spec fn digests(strings: Seq<String>) -> Seq<Seq<char>> {
    strings.map_values(|s: String| s@)
}

/// Searches the tree below `cur_node` for a leaf with the digest
/// `target_hash`, the left child before the right one.
fn build_proof(cur_node: &Node, target_hash: &String) -> (path: Option<Vec<String>>)
    ensures
        match cur_node@.path_to(target_hash@) {
            Some(expected) => path is Some && digests(path->0@) == expected,
            None => path is None,
        },
    decreases cur_node,
{
    match cur_node {
        Node::InternalNode { hash: _, children } => {
            match build_proof(&children.0, target_hash) {
                Some(mut cur_proof) => {
                    let ghost below = digests(cur_proof@);
                    cur_proof.push(children.1.get_hash().to_owned());
                    assert(digests(cur_proof@) =~= below.push(children.1@.hash()));
                    Some(cur_proof)
                },
                None => match build_proof(&children.1, target_hash) {
                    Some(mut cur_proof) => {
                        let ghost below = digests(cur_proof@);
                        cur_proof.push(children.0.get_hash().to_owned());
                        assert(digests(cur_proof@) =~= below.push(children.0@.hash()));
                        Some(cur_proof)
                    },
                    None => None,
                },
            }
        },
        Node::LeafNode { hash, data: _ } => {
            if *hash == *target_hash {
                let mut cur_proof: Vec<String> = Vec::new();
                cur_proof.push(hash.clone());
                assert(digests(cur_proof@) =~= seq![hash@]);
                Some(cur_proof)
            } else {
                None
            }
        },
    }
}

impl MerkleTree {
    /// The inclusion path for `target`: the digest of the first leaf, from
    /// left to right, that has the digest of `target`, followed by the digests
    /// of the siblings on the way up to the root. `None` where no leaf has
    /// that digest.
    pub fn get_proof(&self, target: &u8) -> (path: Option<Vec<String>>)
        ensures
            match self@.path_to(leaf_hash(*target)) {
                Some(expected) => path is Some && digests(path->0@) == expected,
                None => path is None,
            },
            self@.wf() && path is Some ==> accepts(digests(path->0@), self@.hash()),
    {
        let target_hash = hash_leaf(*target);
        proof {
            if self@.wf() && self@.path_to(target_hash@) is Some {
                lemma_path_replays(self@, target_hash@);
            }
        }
        build_proof(&self.root, &target_hash)
    }
}

/// Replays a path and compares the digest it leads to with `root_hash`. An
/// empty path is not accepted.
pub fn verify(path: &Vec<String>, root_hash: &str) -> (ok: bool)
    ensures
        ok == accepts(digests(path@), root_hash@),
{
    if path.len() == 0 {
        return false;
    }
    let mut acc: String = path[0].clone();
    let mut i: usize = 1;
    assert(digests(path@).take(1) =~= seq![path@[0]@]);
    while i < path.len()
        invariant
            1 <= i <= path.len(),
            acc@ == replay(digests(path@).take(i as int)),
        decreases path.len() - i,
    {
        let ghost prefix = digests(path@).take(i as int + 1);
        assert(prefix.drop_last() =~= digests(path@).take(i as int));
        assert(prefix.last() == path@[i as int]@);
        acc = hash_pair(acc.as_str(), path[i].as_str());
        i = i + 1;
    }
    assert(digests(path@).take(i as int) =~= digests(path@));
    let expected: String = root_hash.to_owned();
    acc == expected
}

} // verus!
