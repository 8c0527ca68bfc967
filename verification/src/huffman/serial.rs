//! The tree header: a pre-order listing of the tree's nodes.
//!
//! A leaf is written as the marker `1` and its byte, an internal node as the
//! marker `0`, its left subtree and its right subtree.

use crate::error::{CompressionError, Result};
use crate::huffman::node::{joined, leaf, HuffmanNode, NodeData};
use vstd::prelude::*;

verus! {

/// The bytes that stand for `node` in a header.
pub open spec fn tree_bytes(node: HuffmanNode) -> Seq<u8>
    decreases node,
{
    match node.data {
        NodeData::Leaf(byte) => seq![1u8, byte],
        NodeData::Internal { left, right } => seq![0u8] + tree_bytes(*left) + tree_bytes(*right),
    }
}

/// Reads one tree from `data`, starting at `pos`.
///
/// The first component is the tree, or `None` where `data` ends before the
/// tree is complete; the second is the position at which reading stopped.
/// Any marker other than `1` opens an internal node. Weights are not part of
/// the header, so every node that is read weighs zero.
///
/// The test on `mid` never fails, as `lemma_parse_tree_advances` shows; it
/// stands there so that the definition is seen to terminate.
pub open spec fn parse_tree(data: Seq<u8>, pos: int) -> (Option<HuffmanNode>, int)
    decreases data.len() - pos,
{
    if pos < 0 || pos >= data.len() {
        (None, pos)
    } else if data[pos] == 1 {
        if pos + 1 >= data.len() {
            (None, pos + 1)
        } else {
            (Some(leaf(data[pos + 1], 0)), pos + 2)
        }
    } else {
        let (left, mid) = parse_tree(data, pos + 1);
        match left {
            None => (None, mid),
            Some(l) => if mid <= pos || mid > data.len() {
                (None, mid)
            } else {
                let (right, end) = parse_tree(data, mid);
                match right {
                    None => (None, end),
                    Some(r) => (Some(joined(l, r)), end),
                }
            },
        }
    }
}

/// Reading never moves backwards, stops inside `data`, and a tree that was
/// read took at least two bytes.
pub proof fn lemma_parse_tree_advances(data: Seq<u8>, pos: int)
    requires
        0 <= pos,
    ensures
        pos <= parse_tree(data, pos).1,
        pos < data.len() ==> parse_tree(data, pos).1 <= data.len(),
        pos >= data.len() ==> parse_tree(data, pos) == (None::<HuffmanNode>, pos),
        parse_tree(data, pos).0 is Some ==> pos + 2 <= parse_tree(data, pos).1,
        parse_tree(data, pos).0 matches Some(t) ==> t.weights_add_up() && t.frequency == 0
            && t.without_frequencies() == t,
    decreases data.len() - pos,
{
    if pos < data.len() && data[pos] != 1 {
        lemma_parse_tree_advances(data, pos + 1);
        let (left, mid) = parse_tree(data, pos + 1);
        if left is Some {
            lemma_parse_tree_advances(data, mid);
        }
    }
}

/// Appends the header bytes of `node` to `output`.
pub fn serialize_tree(node: &HuffmanNode, output: &mut Vec<u8>)
    ensures
        final(output)@ == old(output)@ + tree_bytes(*node),
    decreases *node,
{
    match &node.data {
        NodeData::Leaf(byte) => {
            output.push(1);
            output.push(*byte);
        },
        NodeData::Internal { left, right } => {
            output.push(0);
            serialize_tree(left, output);
            serialize_tree(right, output);
        },
    }
}

/// Reads one tree from `data` at `*pos` and moves `*pos` to where reading
/// stopped. Fails with `CorruptedData` exactly when `data` ends before the
/// tree is complete.
pub fn deserialize_tree(data: &[u8], pos: &mut usize) -> (result: Result<HuffmanNode>)
    ensures
        match parse_tree(data@, *old(pos) as int).0 {
            Some(tree) => result == Ok::<HuffmanNode, CompressionError>(tree),
            None => result == Err::<HuffmanNode, CompressionError>(CompressionError::CorruptedData),
        },
        *final(pos) == parse_tree(data@, *old(pos) as int).1,
    decreases data@.len() - *old(pos),
{
    if *pos >= data.len() {
        return Err(CompressionError::CorruptedData);
    }
    let node_type = data[*pos];
    *pos += 1;

    if node_type == 1 {
        if *pos >= data.len() {
            return Err(CompressionError::CorruptedData);
        }
        let byte = data[*pos];
        *pos += 1;
        Ok(HuffmanNode::new_leaf(byte, 0))
    } else {
        proof {
            lemma_parse_tree_advances(data@, *old(pos) + 1);
        }
        let left = match deserialize_tree(data, pos) {
            Ok(node) => node,
            Err(e) => {
                return Err(e);
            },
        };
        proof {
            lemma_parse_tree_advances(data@, *pos as int);
        }
        let right = match deserialize_tree(data, pos) {
            Ok(node) => node,
            Err(e) => {
                return Err(e);
            },
        };
        Ok(HuffmanNode::new_internal(left, right))
    }
}

/// Where `data` holds the header of `tree` at `pos`, reading there gives back
/// the shape and the leaf bytes of `tree` and stops right behind the header.
pub proof fn lemma_parse_tree_of_header(data: Seq<u8>, pos: int, tree: HuffmanNode)
    requires
        0 <= pos,
        pos + tree_bytes(tree).len() <= data.len(),
        data.subrange(pos, pos + tree_bytes(tree).len()) == tree_bytes(tree),
    ensures
        parse_tree(data, pos) == (
            Some(tree.without_frequencies()),
            pos + tree_bytes(tree).len() as int,
        ),
    decreases tree,
{
    let header = tree_bytes(tree);
    match tree.data {
        NodeData::Leaf(byte) => {
            assert(data[pos] == header[0]);
            assert(data[pos + 1] == header[1]);
        },
        NodeData::Internal { left, right } => {
            let lb = tree_bytes(*left);
            let rb = tree_bytes(*right);
            assert(data[pos] == header[0]);
            assert(data.subrange(pos + 1, pos + 1 + lb.len()) =~= lb) by {
                assert forall|i: int| 0 <= i < lb.len() implies data[pos + 1 + i] == lb[i] by {
                    assert(data[pos + 1 + i] == header[1 + i]);
                }
            }
            lemma_parse_tree_of_header(data, pos + 1, *left);
            let mid = pos + 1 + lb.len();
            assert(data.subrange(mid, mid + rb.len()) =~= rb) by {
                assert forall|i: int| 0 <= i < rb.len() implies data[mid + i] == rb[i] by {
                    assert(data[mid + i] == header[1 + lb.len() + i]);
                }
            }
            lemma_parse_tree_of_header(data, mid, *right);
        },
    }
}

/// Serializing a tree and reading the bytes back preserves its structure and
/// its leaf bytes exactly; only the weights, which the header does not carry,
/// come back as zero.
pub proof fn lemma_tree_serialization_round_trip(tree: HuffmanNode)
    ensures
        parse_tree(tree_bytes(tree), 0) == (
            Some(tree.without_frequencies()),
            tree_bytes(tree).len() as int,
        ),
{
    let header = tree_bytes(tree);
    assert(header.subrange(0, header.len() as int) =~= header);
    lemma_parse_tree_of_header(header, 0, tree);
}

} // verus!
