//! Building the tree: leaves from the items, then level by level up to the
//! root.

use crate::hash::is_digest;
use crate::node::{models, ref_models, Node, NodeModel};
use crate::theorems::{lemma_build_wf, lemma_leaves_are_leaf_nodes, lemma_wf_hash_is_digest};
use vstd::prelude::*;

verus! {

/// The item of the leaf that fills a level of odd length.
pub const PADDING_ITEM: u8 = 0;

/// The tree cannot be built from no items.
#[derive(Debug, PartialEq, Eq, Clone, Copy)]
pub struct EmptyInputError;

/// A Merkle tree. It owns its root and is not changed once built.
#[derive(Debug)]
pub struct MerkleTree {
    pub root: Box<Node>,
}

impl Clone for MerkleTree {
    /// A copy of the whole tree.
    fn clone(&self) -> (copy: MerkleTree)
        ensures
            copy@ == self@,
    {
        let root: Node = (*self.root).clone();
        MerkleTree { root: Box::new(root) }
    }
}

impl View for MerkleTree {
    type V = NodeModel;

    open spec fn view(&self) -> NodeModel {
        self.root.model()
    }
}

/// The leaves made from the items, in the order of the items.
pub open spec fn leaf_level(items: Seq<u8>) -> Seq<NodeModel> {
    items.map_values(|item: u8| NodeModel::leaf(item))
}

/// A level made even: one padding leaf is added to a level of odd length.
pub open spec fn pad_level(level: Seq<NodeModel>) -> Seq<NodeModel> {
    if level.len() % 2 == 1 {
        level.push(NodeModel::leaf(PADDING_ITEM))
    } else {
        level
    }
}

/// The level above a level of even length: one internal node for each pair of
/// neighbours, in the order of the pairs.
pub open spec fn pair_level(level: Seq<NodeModel>) -> Seq<NodeModel> {
    Seq::new(level.len() / 2, |i: int| NodeModel::internal(level[2 * i], level[2 * i + 1]))
}

/// The root over a level: a level of one node is its own root; any other
/// level is made even and paired, and the root is that of the level above.
pub open spec fn reduce(level: Seq<NodeModel>) -> NodeModel
    decreases level.len(),
{
    if level.len() <= 1 {
        level[0]
    } else {
        reduce(pair_level(pad_level(level)))
    }
}

/// The tree over the items: the leaf level is made even, then reduced to a
/// root.
pub open spec fn build(items: Seq<u8>) -> NodeModel {
    reduce(pad_level(leaf_level(items)))
}

/// The nodes in the opposite order.
fn reversed(nodes: Vec<Node>) -> (out: Vec<Node>)
    ensures
        out@.len() == nodes@.len(),
        forall|j: int| 0 <= j < out@.len() ==> out@[j] == nodes@[nodes@.len() - 1 - j],
{
    let mut rest = nodes;
    let mut out: Vec<Node> = Vec::new();
    while rest.len() > 0
        invariant
            rest@.len() + out@.len() == nodes@.len(),
            forall|j: int| 0 <= j < rest@.len() ==> rest@[j] == nodes@[j],
            forall|j: int| 0 <= j < out@.len() ==> out@[j] == nodes@[nodes@.len() - 1 - j],
        decreases rest.len(),
    {
        let node = rest.pop().unwrap();
        out.push(node);
    }
    out
}

/// Pairs the neighbours of a level of even length into the level above.
fn pair_up(nodes: Vec<Node>) -> (parents: Vec<Node>)
    requires
        nodes@.len() % 2 == 0,
    ensures
        parents@.len() == nodes@.len() / 2,
        models(parents@) == pair_level(models(nodes@)),
{
    let ghost level = models(nodes@);
    let mut stack = reversed(nodes);
    let mut parents: Vec<Node> = Vec::new();
    while stack.len() >= 2
        invariant
            level.len() % 2 == 0,
            stack@.len() % 2 == 0,
            2 * parents@.len() + stack@.len() == level.len(),
            forall|j: int| 0 <= j < stack@.len() ==> (#[trigger] stack@[j])@ == level[level.len() - 1 - j],
            forall|j: int|
                0 <= j < parents@.len() ==> (#[trigger] parents@[j])@ == NodeModel::internal(
                    level[2 * j],
                    level[2 * j + 1],
                ),
        decreases stack.len(),
    {
        let ghost k = parents@.len() as int;
        let first = stack.pop().unwrap();
        let second = stack.pop().unwrap();
        assert(first@ == level[2 * k]);
        assert(second@ == level[2 * k + 1]);
        let parent = Node::new_internal((Box::new(first), Box::new(second)));
        parents.push(parent);
    }
    assert(models(parents@) =~= pair_level(level));
    parents
}

/// Builds the tree over a level, layer by layer, and returns its root.
fn build_tree(nodes: Vec<Node>) -> (root: Node)
    requires
        nodes@.len() >= 1,
    ensures
        root@ == reduce(models(nodes@)),
    decreases nodes@.len(),
{
    let mut level = nodes;
    if level.len() == 1 {
        let root = level.pop().unwrap();
        return root;
    }
    if level.len() % 2 != 0 {
        level.push(Node::new_leaf(PADDING_ITEM));
    }
    assert(models(level@) =~= pad_level(models(nodes@)));
    let parents = pair_up(level);
    build_tree(parents)
}

/// Collects the leaves below `node`, from left to right.
fn get_leafs_rec<'a>(node: &'a Node) -> (leafs: Vec<&'a Node>)
    ensures
        ref_models(leafs@) == node@.leaves(),
    decreases node,
{
    let mut leafs: Vec<&Node> = Vec::new();
    match node {
        Node::InternalNode { hash: _, children } => {
            let mut left = get_leafs_rec(&children.0);
            let mut right = get_leafs_rec(&children.1);
            let ghost left_models = ref_models(left@);
            let ghost right_models = ref_models(right@);
            leafs.append(&mut left);
            leafs.append(&mut right);
            assert(ref_models(leafs@) =~= left_models + right_models);
        },
        Node::LeafNode { hash: _, data: _ } => {
            leafs.push(node);
            assert(ref_models(leafs@) =~= seq![node@]);
        },
    }
    leafs
}

/// Appends the items of the leaves below `node`, from left to right.
fn collect_items(node: &Node, items: &mut Vec<u8>)
    ensures
        final(items)@ == old(items)@ + node@.items(),
    decreases node,
{
    match node {
        Node::InternalNode { hash: _, children } => {
            collect_items(&children.0, items);
            collect_items(&children.1, items);
            assert(items@ =~= old(items)@ + node@.items());
        },
        Node::LeafNode { hash: _, data } => {
            items.push(*data);
            assert(items@ =~= old(items)@ + node@.items());
        },
    }
}

impl MerkleTree {
    /// The leaves of the tree, from left to right, padding leaves included.
    pub fn get_leafs(&self) -> (leafs: Vec<&Node>)
        ensures
            ref_models(leafs@) == self@.leaves(),
            forall|i: int| 0 <= i < leafs@.len() ==> (#[trigger] leafs@[i])@ is Leaf,
    {
        let leafs = get_leafs_rec(&self.root);
        proof {
            assert forall|i: int| 0 <= i < leafs@.len() implies (#[trigger] leafs@[i])@ is Leaf by {
                assert(ref_models(leafs@)[i] == leafs@[i]@);
                lemma_leaves_are_leaf_nodes(self@, leafs@[i]@);
            }
        }
        leafs
    }

    /// The items of the leaves of the tree, from left to right, padding items
    /// included.
    pub fn leaves(&self) -> (items: Vec<u8>)
        ensures
            items@ == self@.items(),
    {
        let mut items: Vec<u8> = Vec::new();
        collect_items(&self.root, &mut items);
        items
    }

    /// Builds the tree over the items.
    ///
    /// Each item becomes a leaf. A level of odd length, the leaf level
    /// included, gets one padding leaf; neighbours are paired, in order, until
    /// one node is left. No tree is built from no items.
    pub fn new(data: &Vec<u8>) -> (built: Result<MerkleTree, EmptyInputError>)
        ensures
            data@.len() == 0 <==> built is Err,
            built matches Ok(tree) ==> {
                &&& tree@ == build(data@)
                &&& tree@.wf()
            },
    {
        if data.len() == 0 {
            return Err(EmptyInputError);
        }
        let mut leafs: Vec<Node> = Vec::new();
        let mut i: usize = 0;
        while i < data.len()
            invariant
                i <= data.len(),
                models(leafs@) == leaf_level(data@.take(i as int)),
            decreases data.len() - i,
        {
            let ghost before = models(leafs@);
            leafs.push(Node::new_leaf(data[i]));
            assert(models(leafs@) =~= before.push(NodeModel::leaf(data@[i as int])));
            assert(models(leafs@) =~= leaf_level(data@.take(i as int + 1)));
            i = i + 1;
        }
        assert(data@.take(i as int) =~= data@);
        let ghost leaves = models(leafs@);
        if data.len() % 2 != 0 {
            leafs.push(Node::new_leaf(PADDING_ITEM));
        }
        assert(models(leafs@) =~= pad_level(leaves));
        let root = build_tree(leafs);
        proof {
            lemma_build_wf(data@);
        }
        Ok(MerkleTree { root: Box::new(root) })
    }

    /// The digest of the root: the commitment to all the items.
    pub fn root_hash(&self) -> (hash: &str)
        ensures
            hash@ == self@.hash(),
            self@.wf() ==> is_digest(hash@),
    {
        proof {
            if self@.wf() {
                lemma_wf_hash_is_digest(self@);
            }
        }
        self.root.get_hash()
    }
}

} // verus!
