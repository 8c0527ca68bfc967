//! The code table: for each byte of a tree, the path from the root to its leaf.

use crate::huffman::node::{HuffmanNode, NodeData};
use std::collections::HashMap;
use vstd::prelude::*;

verus! {

broadcast use vstd::std_specs::hash::group_hash_axioms;

/// The codes of the leaves below `node`, where `prefix` is the path that led
/// to `node`: a left branch adds the bit 0 (`false`), a right branch the bit 1
/// (`true`). A tree that is a single leaf gives its byte the one-bit code 0,
/// so that no code is empty. Where a byte stands on several leaves, the
/// rightmost one gives the code.
pub open spec fn code_paths(node: HuffmanNode, prefix: Seq<bool>) -> Map<u8, Seq<bool>>
    decreases node,
{
    match node.data {
        NodeData::Leaf(byte) => map![byte => if prefix.len() == 0 {
            seq![false]
        } else {
            prefix
        }],
        NodeData::Internal { left, right } => code_paths(
            *left,
            prefix.push(false),
        ).union_prefer_right(code_paths(*right, prefix.push(true))),
    }
}

/// A code table as a map from byte values to bit sequences.
pub open spec fn code_table(codes: Map<u8, Vec<bool>>) -> Map<u8, Seq<bool>> {
    codes.map_values(|code: Vec<bool>| code@)
}

/// What `code_paths` holds for `byte`: a code exactly where `byte` stands on a
/// leaf, which begins with `prefix`, goes on along a path to such a leaf, and
/// is not empty.
pub proof fn lemma_code_paths(node: HuffmanNode, prefix: Seq<bool>, byte: u8)
    ensures
        code_paths(node, prefix).dom().contains(byte) <==> node.leaf_count(byte) > 0,
        node.leaf_count(byte) > 0 ==> {
            let code = code_paths(node, prefix)[byte];
            &&& code.len() >= 1
            &&& if node.data is Leaf && prefix.len() == 0 {
                code == seq![false]
            } else {
                &&& code.len() >= prefix.len()
                &&& code.take(prefix.len() as int) == prefix
                &&& node.leads_to(code.skip(prefix.len() as int), byte)
            }
        },
    decreases node,
{
    match node.data {
        NodeData::Leaf(b) => {
            if b == byte && prefix.len() > 0 {
                assert(prefix.take(prefix.len() as int) =~= prefix);
                assert(prefix.skip(prefix.len() as int) =~= Seq::<bool>::empty());
            }
        },
        NodeData::Internal { left, right } => {
            lemma_code_paths(*left, prefix.push(false), byte);
            lemma_code_paths(*right, prefix.push(true), byte);
            if node.leaf_count(byte) > 0 {
                let code = code_paths(node, prefix)[byte];
                let n = prefix.len() as int;
                let path = code.skip(n);
                let bit = right.leaf_count(byte) > 0;
                assert(code.take(n + 1) == prefix.push(bit));
                assert(code.take(n) =~= code.take(n + 1).take(n));
                assert(prefix.push(bit).take(n) =~= prefix);
                assert(path[0] == code.take(n + 1)[n]);
                assert(path.skip(1) =~= code.skip(n + 1));
            }
        },
    }
}

/// A path that ends on a leaf cannot be continued to another leaf.
pub proof fn lemma_paths_are_prefix_free(
    node: HuffmanNode,
    path: Seq<bool>,
    rest: Seq<bool>,
    first: u8,
    second: u8,
)
    requires
        node.leads_to(path, first),
        node.leads_to(path + rest, second),
    ensures
        rest.len() == 0,
        first == second,
    decreases node,
{
    let longer = path + rest;
    match node.data {
        NodeData::Leaf(_) => {},
        NodeData::Internal { left, right } => {
            assert(longer[0] == path[0]);
            assert(longer.skip(1) =~= path.skip(1) + rest);
            if path[0] {
                lemma_paths_are_prefix_free(*right, path.skip(1), rest, first, second);
            } else {
                lemma_paths_are_prefix_free(*left, path.skip(1), rest, first, second);
            }
        },
    }
}

/// The codes of a tree form a prefix code: the code of one byte never begins
/// the code of another.
pub proof fn lemma_codes_are_prefix_free(tree: HuffmanNode, first: u8, second: u8)
    requires
        tree.leaf_count(first) > 0,
        tree.leaf_count(second) > 0,
        first != second,
    ensures
        !code_paths(tree, Seq::empty())[first].is_prefix_of(
            code_paths(tree, Seq::empty())[second],
        ),
{
    let one = code_paths(tree, Seq::empty())[first];
    let other = code_paths(tree, Seq::empty())[second];
    lemma_code_paths(tree, Seq::empty(), first);
    lemma_code_paths(tree, Seq::empty(), second);
    if one.is_prefix_of(other) {
        let rest = other.skip(one.len() as int);
        assert(one + rest =~= other);
        assert(one.skip(0) =~= one);
        assert(other.skip(0) =~= other);
        lemma_paths_are_prefix_free(tree, one, rest, first, second);
    }
}

impl HuffmanNode {
    /// Enters the code of every leaf below `self` into `codes`, where
    /// `prefix` is the path that led to `self`. A code that `codes` already
    /// holds for such a byte is replaced.
    pub fn build_codes(&self, prefix: Vec<bool>, codes: &mut HashMap<u8, Vec<bool>>)
        ensures
            code_table(final(codes)@) == code_table(old(codes)@).union_prefer_right(
                code_paths(*self, prefix@),
            ),
        decreases *self,
    {
        match &self.data {
            NodeData::Leaf(byte) => {
                if prefix.len() == 0 {
                    let mut code: Vec<bool> = Vec::new();
                    code.push(false);
                    proof {
                        assert(code@ =~= seq![false]);
                    }
                    codes.insert(*byte, code);
                } else {
                    codes.insert(*byte, prefix);
                }
                proof {
                    assert(code_table(codes@) =~= code_table(old(codes)@).union_prefer_right(
                        code_paths(*self, prefix@),
                    ));
                }
            },
            NodeData::Internal { left, right } => {
                let mut left_prefix = prefix.clone();
                left_prefix.push(false);
                proof {
                    assert(left_prefix@ =~= prefix@.push(false));
                }
                left.build_codes(left_prefix, codes);

                let mut right_prefix = prefix;
                right_prefix.push(true);
                right.build_codes(right_prefix, codes);
                proof {
                    assert(code_table(codes@) =~= code_table(old(codes)@).union_prefer_right(
                        code_paths(*self, prefix@),
                    ));
                }
            },
        }
    }
}

} // verus!
