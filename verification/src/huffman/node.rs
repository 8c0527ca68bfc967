//! The code tree: leaves hold byte values, internal nodes have two children.

use vstd::prelude::*;

verus! {

/// A node of a Huffman tree together with the weight of the subtree below it.
#[derive(Debug, PartialEq, Eq)]
pub struct HuffmanNode {
    pub frequency: usize,
    pub data: NodeData,
}

/// What a node holds: one byte value, or a left (bit 0) and a right (bit 1) child.
#[derive(Debug, PartialEq, Eq)]
pub enum NodeData {
    Leaf(u8),
    Internal { left: Box<HuffmanNode>, right: Box<HuffmanNode> },
}

/// The leaf for `byte` with weight `frequency`.
pub open spec fn leaf(byte: u8, frequency: usize) -> HuffmanNode {
    HuffmanNode { frequency, data: NodeData::Leaf(byte) }
}

/// The internal node above `left` and `right`; its weight is the sum of theirs.
pub open spec fn joined(left: HuffmanNode, right: HuffmanNode) -> HuffmanNode {
    HuffmanNode {
        frequency: (left.frequency + right.frequency) as usize,
        data: NodeData::Internal { left: Box::new(left), right: Box::new(right) },
    }
}

impl HuffmanNode {
    /// Every internal node weighs exactly as much as its two children together.
    pub open spec fn weights_add_up(self) -> bool
        decreases self,
    {
        match self.data {
            NodeData::Leaf(_) => true,
            NodeData::Internal { left, right } => {
                &&& self.frequency == left.frequency + right.frequency
                &&& left.weights_add_up()
                &&& right.weights_add_up()
            },
        }
    }

    /// How many leaves below `self` hold `byte`.
    pub open spec fn leaf_count(self, byte: u8) -> nat
        decreases self,
    {
        match self.data {
            NodeData::Leaf(b) => if b == byte {
                1
            } else {
                0
            },
            NodeData::Internal { left, right } => left.leaf_count(byte) + right.leaf_count(byte),
        }
    }

    /// The number of leaves below `self`.
    pub open spec fn leaves(self) -> nat
        decreases self,
    {
        match self.data {
            NodeData::Leaf(_) => 1,
            NodeData::Internal { left, right } => left.leaves() + right.leaves(),
        }
    }

    /// The length of the longest path from `self` to a leaf.
    pub open spec fn height(self) -> nat
        decreases self,
    {
        match self.data {
            NodeData::Leaf(_) => 0,
            NodeData::Internal { left, right } => 1 + if left.height() >= right.height() {
                left.height()
            } else {
                right.height()
            },
        }
    }

    /// Following `path` from `self` (false = left, true = right) ends exactly on a
    /// leaf that holds `byte`.
    pub open spec fn leads_to(self, path: Seq<bool>, byte: u8) -> bool
        decreases self,
    {
        match self.data {
            NodeData::Leaf(b) => path.len() == 0 && b == byte,
            NodeData::Internal { left, right } => {
                &&& path.len() > 0
                &&& if path[0] {
                    right.leads_to(path.skip(1), byte)
                } else {
                    left.leads_to(path.skip(1), byte)
                }
            },
        }
    }

    /// The same tree with every weight set to zero: its shape and leaf bytes alone.
    pub open spec fn without_frequencies(self) -> HuffmanNode
        decreases self,
    {
        match self.data {
            NodeData::Leaf(b) => leaf(b, 0),
            NodeData::Internal { left, right } => joined(
                left.without_frequencies(),
                right.without_frequencies(),
            ),
        }
    }

    /// Makes the leaf for `byte` with weight `frequency`.
    pub fn new_leaf(byte: u8, frequency: usize) -> (node: Self)
        ensures
            node == leaf(byte, frequency),
            node.weights_add_up(),
    {
        Self { frequency, data: NodeData::Leaf(byte) }
    }

    /// Makes the internal node above `left` and `right`.
    pub fn new_internal(left: Self, right: Self) -> (node: Self)
        requires
            left.frequency + right.frequency <= usize::MAX,
        ensures
            node == joined(left, right),
            node.frequency == left.frequency + right.frequency,
            left.weights_add_up() && right.weights_add_up() ==> node.weights_add_up(),
    {
        let frequency = left.frequency + right.frequency;
        Self { frequency, data: NodeData::Internal { left: Box::new(left), right: Box::new(right) } }
    }
}

impl Clone for HuffmanNode {
    /// A deep copy: the same weights, bytes and structure.
    fn clone(&self) -> (copy: Self)
        ensures
            copy == *self,
        decreases *self, 1nat,
    {
        HuffmanNode { frequency: self.frequency, data: self.data.clone() }
    }
}

impl Clone for NodeData {
    /// A deep copy of the byte or of both subtrees.
    fn clone(&self) -> (copy: Self)
        ensures
            copy == *self,
        decreases *self, 0nat,
    {
        match self {
            NodeData::Leaf(byte) => NodeData::Leaf(*byte),
            NodeData::Internal { left, right } => {
                let l: HuffmanNode = HuffmanNode::clone(left);
                let r: HuffmanNode = HuffmanNode::clone(right);
                NodeData::Internal { left: Box::new(l), right: Box::new(r) }
            },
        }
    }
}

/// A tree is lower than it has leaves, and no path to a leaf is longer than
/// the tree is high.
pub proof fn lemma_height(node: HuffmanNode)
    ensures
        node.height() + 1 <= node.leaves(),
        forall|path: Seq<bool>, byte: u8| #[trigger]
            node.leads_to(path, byte) ==> path.len() <= node.height(),
    decreases node,
{
    match node.data {
        NodeData::Leaf(_) => {},
        NodeData::Internal { left, right } => {
            lemma_height(*left);
            lemma_height(*right);
            assert forall|path: Seq<bool>, byte: u8| #[trigger]
                node.leads_to(path, byte) implies path.len() <= node.height() by {
                if path[0] {
                    assert(right.leads_to(path.skip(1), byte));
                } else {
                    assert(left.leads_to(path.skip(1), byte));
                }
            }
        },
    }
}

} // verus!
