//! The content-addressed node model: a node is a leaf (a caller-supplied
//! hash), an internal node (the hash of its two children), or the placeholder.
//! Nodes are stored and looked up by their own hash, never by position,
//! because positions depend on the total leaf count.

use vstd::prelude::*;
use crate::hash_value::{
    HashValue,
    internal_hash,
    placeholder,
    hash_internal,
    accumulator_placeholder_hash,
};
use crate::node_index::NodeIndex;

verus! {

/// What a node is, at the specification level.
pub enum NodeData {
    Placeholder,
    Leaf { value: Seq<u8> },
    Internal { hash: Seq<u8>, left: Seq<u8>, right: Seq<u8> },
}

/// A node is well formed when its stored hash obeys the hash rule.
pub open spec fn node_wf(n: NodeData) -> bool {
    match n {
        NodeData::Internal { hash, left, right } => hash == internal_hash(left, right),
        _ => true,
    }
}

/// The key a node is stored under: its own hash.
pub open spec fn node_key(n: NodeData) -> Seq<u8> {
    match n {
        NodeData::Placeholder => placeholder(),
        NodeData::Leaf { value } => value,
        NodeData::Internal { hash, left, right } => hash,
    }
}

/// Walks `level` steps down from the node keyed `root` in a content-addressed
/// node map, picking the child named by the bits of `offset` (most significant
/// of the low `level` bits first) and collecting the other child's hash at
/// each step, root to leaf. Yields the collected hashes and the hash reached
/// at level 0, or nothing when the walk meets a missing or non-internal node.
pub open spec fn descend(
    nodes: Map<Seq<u8>, NodeData>,
    root: Seq<u8>,
    level: nat,
    offset: nat,
) -> Option<(Seq<Seq<u8>>, Seq<u8>)>
    decreases level,
{
    if level == 0 {
        Some((Seq::empty(), root))
    } else if nodes.contains_key(root) {
        match nodes[root] {
            NodeData::Internal { hash, left, right } => {
                let bit = offset / vstd::arithmetic::power2::pow2((level - 1) as nat) % 2;
                let child = if bit == 0 {
                    left
                } else {
                    right
                };
                let sib = if bit == 0 {
                    right
                } else {
                    left
                };
                match descend(
                    nodes,
                    child,
                    (level - 1) as nat,
                    offset % vstd::arithmetic::power2::pow2((level - 1) as nat),
                ) {
                    Some(rest) => Some((seq![sib] + rest.0, rest.1)),
                    None => None,
                }
            },
            _ => None,
        }
    } else {
        None
    }
}

/// An internal node: its own hash, always `internal_hash` of the two child
/// hashes, and the position it was created at.
#[derive(Clone, Copy, Debug)]
pub struct InternalNode {
    index: NodeIndex,
    hash: HashValue,
    left: HashValue,
    right: HashValue,
}

impl View for InternalNode {
    type V = NodeData;

    closed spec fn view(&self) -> NodeData {
        NodeData::Internal { hash: self.hash@, left: self.left@, right: self.right@ }
    }
}

impl InternalNode {
    /// Builds an internal node over two child hashes, hashing them together.
    pub fn new(index: NodeIndex, left: HashValue, right: HashValue) -> (r: InternalNode)
        ensures
            r@ == (NodeData::Internal {
                hash: internal_hash(left@, right@),
                left: left@,
                right: right@,
            }),
    {
        let hash = hash_internal(&left, &right);
        InternalNode { index, hash, left, right }
    }

    pub fn hash(&self) -> (r: HashValue)
        ensures
            r@ == self@->Internal_hash,
    {
        self.hash
    }

    pub fn left(&self) -> (r: HashValue)
        ensures
            r@ == self@->Internal_left,
    {
        self.left
    }

    pub fn right(&self) -> (r: HashValue)
        ensures
            r@ == self@->Internal_right,
    {
        self.right
    }
}

/// A leaf node: the caller-supplied hash, never recomputed, and the position
/// it was appended at.
#[derive(Clone, Copy, Debug)]
pub struct LeafNode {
    index: NodeIndex,
    value: HashValue,
}

impl View for LeafNode {
    type V = NodeData;

    closed spec fn view(&self) -> NodeData {
        NodeData::Leaf { value: self.value@ }
    }
}

impl LeafNode {
    pub fn new(index: NodeIndex, value: HashValue) -> (r: LeafNode)
        ensures
            r@ == (NodeData::Leaf { value: value@ }),
    {
        LeafNode { index, value }
    }

    pub fn value(&self) -> (r: HashValue)
        ensures
            r@ == self@->Leaf_value,
    {
        self.value
    }
}

/// How the view of a node follows its variant: each wrapper's view is its
/// content's view.
pub proof fn lemma_node_view(n: AccumulatorNode)
    ensures
        match n {
            AccumulatorNode::Internal(x) => n@ == x@ && n@ is Internal,
            AccumulatorNode::Leaf(x) => n@ == x@ && n@ is Leaf,
            AccumulatorNode::Empty => n@ == NodeData::Placeholder,
        },
{
}

/// One node of the accumulator.
#[derive(Clone, Copy, Debug)]
pub enum AccumulatorNode {
    Internal(InternalNode),
    Leaf(LeafNode),
    Empty,
}

impl View for AccumulatorNode {
    type V = NodeData;

    closed spec fn view(&self) -> NodeData {
        match *self {
            AccumulatorNode::Internal(n) => n@,
            AccumulatorNode::Leaf(n) => n@,
            AccumulatorNode::Empty => NodeData::Placeholder,
        }
    }
}

impl AccumulatorNode {
    /// Wraps two child hashes into an internal node, hashing them together.
    pub fn new_internal(index: NodeIndex, left: HashValue, right: HashValue) -> (r:
        AccumulatorNode)
        ensures
            r@ == (NodeData::Internal {
                hash: internal_hash(left@, right@),
                left: left@,
                right: right@,
            }),
            node_wf(r@),
            node_key(r@) == internal_hash(left@, right@),
    {
        AccumulatorNode::Internal(InternalNode::new(index, left, right))
    }

    /// Wraps a caller-supplied leaf hash into a leaf node.
    pub fn new_leaf(index: NodeIndex, value: HashValue) -> (r: AccumulatorNode)
        ensures
            r@ == (NodeData::Leaf { value: value@ }),
            node_wf(r@),
            node_key(r@) == value@,
    {
        AccumulatorNode::Leaf(LeafNode::new(index, value))
    }

    /// The node's own hash: the key it is stored under.
    pub fn hash(&self) -> (r: HashValue)
        ensures
            r@ == node_key(self@),
    {
        match self {
            AccumulatorNode::Internal(n) => n.hash(),
            AccumulatorNode::Leaf(n) => n.value(),
            AccumulatorNode::Empty => accumulator_placeholder_hash(),
        }
    }
}

} // verus!
