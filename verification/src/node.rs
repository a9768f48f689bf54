//! The nodes of the tree and their mathematical model.

use crate::hash::{digest_greater, hash_leaf, hash_pair, internal_hash, leaf_hash, lex_lt};
use vstd::prelude::*;
use vstd::utf8::encode_utf8;

verus! {

/// A node of the tree: a leaf with the item it was made from, or an internal
/// node with exactly two children. Each node owns its children.
#[derive(Debug)]
pub enum Node {
    LeafNode { hash: String, data: u8 },
    InternalNode { hash: String, children: (Box<Node>, Box<Node>) },
}

/// What a [`Node`] is to the contracts: the same tree, with each digest as a
/// sequence of characters.
pub enum NodeModel {
    Leaf { hash: Seq<char>, data: u8 },
    Internal { hash: Seq<char>, left: Box<NodeModel>, right: Box<NodeModel> },
}

impl NodeModel {
    /// The digest stored in the node.
    pub open spec fn hash(self) -> Seq<char> {
        match self {
            NodeModel::Leaf { hash, .. } => hash,
            NodeModel::Internal { hash, .. } => hash,
        }
    }

    /// The leaf that is made from `item`.
    pub open spec fn leaf(item: u8) -> NodeModel {
        NodeModel::Leaf { hash: leaf_hash(item), data: item }
    }

    /// The internal node that is made from two nodes. Its digest combines
    /// theirs; the child with the smaller digest stands first, and the given
    /// order is kept where neither is smaller.
    pub open spec fn internal(first: NodeModel, second: NodeModel) -> NodeModel {
        let hash = internal_hash(first.hash(), second.hash());
        if lex_lt(encode_utf8(second.hash()), encode_utf8(first.hash())) {
            NodeModel::Internal { hash, left: Box::new(second), right: Box::new(first) }
        } else {
            NodeModel::Internal { hash, left: Box::new(first), right: Box::new(second) }
        }
    }

    /// Every digest in the tree is the one that the hash function gives: a
    /// leaf's for its item, an internal node's for the digests of its two
    /// children.
    pub open spec fn wf(self) -> bool
        decreases self,
    {
        match self {
            NodeModel::Leaf { hash, data } => hash == leaf_hash(data),
            NodeModel::Internal { hash, left, right } => {
                &&& hash == internal_hash(left.hash(), right.hash())
                &&& left.wf()
                &&& right.wf()
            },
        }
    }

    /// The leaves of the tree, from left to right.
    pub open spec fn leaves(self) -> Seq<NodeModel>
        decreases self,
    {
        match self {
            NodeModel::Leaf { .. } => seq![self],
            NodeModel::Internal { left, right, .. } => left.leaves() + right.leaves(),
        }
    }

    /// The items of the leaves of the tree, from left to right.
    pub open spec fn items(self) -> Seq<u8>
        decreases self,
    {
        match self {
            NodeModel::Leaf { data, .. } => seq![data],
            NodeModel::Internal { left, right, .. } => left.items() + right.items(),
        }
    }
}

impl Node {
    /// The model of the node.
    pub open spec fn model(&self) -> NodeModel
        decreases self,
    {
        match self {
            Node::LeafNode { hash, data } => NodeModel::Leaf { hash: hash@, data: *data },
            Node::InternalNode { hash, children } => NodeModel::Internal {
                hash: hash@,
                left: Box::new(children.0.model()),
                right: Box::new(children.1.model()),
            },
        }
    }

    /// Makes an internal node from two nodes. The digest of the new node is
    /// the hash of the two children's digests, the smaller one first, and the
    /// children are stored in that order.
    pub fn new_internal(children: (Box<Node>, Box<Node>)) -> (node: Node)
        ensures
            node@ == NodeModel::internal(children.0@, children.1@),
    {
        let (first, second) = children;
        let hash = hash_pair(first.get_hash(), second.get_hash());
        if digest_greater(first.get_hash(), second.get_hash()) {
            Node::InternalNode { hash, children: (second, first) }
        } else {
            Node::InternalNode { hash, children: (first, second) }
        }
    }

    /// Makes a leaf from an item. Its digest is the hash of the item.
    pub fn new_leaf(data: u8) -> (node: Node)
        ensures
            node@ == NodeModel::leaf(data),
    {
        let hash = hash_leaf(data);
        Node::LeafNode { hash, data }
    }

    /// The digest stored in the node.
    pub fn get_hash(&self) -> (hash: &str)
        ensures
            hash@ == self@.hash(),
    {
        match self {
            Node::InternalNode { hash, .. } => hash.as_str(),
            Node::LeafNode { hash, .. } => hash.as_str(),
        }
    }

    /// The item of a leaf; `None` for an internal node.
    pub fn get_data(&self) -> (data: Option<&u8>)
        ensures
            match self@ {
                NodeModel::Leaf { data: item, .. } => data == Some(&item),
                NodeModel::Internal { .. } => data is None,
            },
    {
        match self {
            Node::InternalNode { .. } => None,
            Node::LeafNode { data, .. } => Some(data),
        }
    }

    /// The digests of the two children of an internal node, in the order in
    /// which the node stores them.
    pub fn get_children_hashes<'b>(children: &'b (Box<Node>, Box<Node>)) -> (hashes: [&'b str; 2])
        ensures
            hashes[0]@ == children.0@.hash(),
            hashes[1]@ == children.1@.hash(),
    {
        [children.0.get_hash(), children.1.get_hash()]
    }
}

impl Clone for Node {
    /// A copy of the whole tree below the node.
    fn clone(&self) -> (copy: Node)
        ensures
            copy@ == self@,
        decreases self,
    {
        match self {
            Node::LeafNode { hash, data } => Node::LeafNode { hash: hash.clone(), data: *data },
            Node::InternalNode { hash, children } => {
                let left: Node = (*children.0).clone();
                let right: Node = (*children.1).clone();
                Node::InternalNode { hash: hash.clone(), children: (Box::new(left), Box::new(right)) }
            },
        }
    }
}

impl View for Node {
    type V = NodeModel;

    open spec fn view(&self) -> NodeModel {
        self.model()
    }
}

/// The models of a sequence of borrowed nodes.
pub open spec fn ref_models(nodes: Seq<&Node>) -> Seq<NodeModel> {
    nodes.map_values(|node: &Node| node@)
}

/// The models of a sequence of nodes.
pub open spec fn models(nodes: Seq<Node>) -> Seq<NodeModel> {
    nodes.map_values(|node: Node| node@)
}

} // verus!
