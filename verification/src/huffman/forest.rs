//! Building the code tree from a frequency table.
//!
//! The leaves, one for each byte value of the table, form a working list.
//! While the list holds more than one tree, the two lightest trees are taken
//! out and their join is put at its end. Among trees of equal weight the one
//! that stands first in the list is taken.

use crate::huffman::frequency::table_weight;
use crate::huffman::node::{joined, leaf, lemma_height, HuffmanNode, NodeData};
use std::collections::HashMap;
use vstd::prelude::*;

verus! {

broadcast use vstd::std_specs::hash::group_hash_axioms;

/// One leaf for each byte value below `below` that `table` holds, in rising
/// order of the byte values, each weighing its count.
pub open spec fn leaf_forest(table: Map<u8, usize>, below: nat) -> Seq<HuffmanNode>
    decreases below,
{
    if below == 0 {
        Seq::empty()
    } else {
        let byte = (below - 1) as u8;
        let lower = leaf_forest(table, (below - 1) as nat);
        if table.dom().contains(byte) {
            lower.push(leaf(byte, table[byte]))
        } else {
            lower
        }
    }
}

/// The sum of the weights of the trees in `forest`.
pub open spec fn forest_weight(forest: Seq<HuffmanNode>) -> nat
    decreases forest.len(),
{
    if forest.len() == 0 {
        0
    } else {
        forest_weight(forest.drop_last()) + forest.last().frequency as nat
    }
}

/// How many leaves of the trees in `forest` hold `byte`.
pub open spec fn forest_leaf_count(forest: Seq<HuffmanNode>, byte: u8) -> nat
    decreases forest.len(),
{
    if forest.len() == 0 {
        0
    } else {
        forest_leaf_count(forest.drop_last(), byte) + forest.last().leaf_count(byte)
    }
}

/// The number of leaves of the trees in `forest`.
pub open spec fn forest_leaves(forest: Seq<HuffmanNode>) -> nat
    decreases forest.len(),
{
    if forest.len() == 0 {
        0
    } else {
        forest_leaves(forest.drop_last()) + forest.last().leaves()
    }
}

/// In every tree of `forest` each internal node weighs as much as its children.
pub open spec fn forest_weights_add_up(forest: Seq<HuffmanNode>) -> bool {
    forall|i: int| 0 <= i < forest.len() ==> (#[trigger] forest[i]).weights_add_up()
}

/// The index of the first tree of least weight in `forest`.
pub open spec fn lightest(forest: Seq<HuffmanNode>) -> int
    decreases forest.len(),
{
    if forest.len() <= 1 {
        0
    } else {
        let before = lightest(forest.drop_last());
        if forest.last().frequency < forest[before].frequency {
            forest.len() - 1
        } else {
            before
        }
    }
}

/// One merge: the lightest tree becomes the left child, the lightest of the
/// rest the right child, and their join goes to the end of the list.
pub open spec fn merge_step(forest: Seq<HuffmanNode>) -> Seq<HuffmanNode> {
    let i = lightest(forest);
    let rest = forest.remove(i);
    let j = lightest(rest);
    rest.remove(j).push(joined(forest[i], rest[j]))
}

/// The tree that is left when `forest` has been merged down to one tree.
pub open spec fn merge_all(forest: Seq<HuffmanNode>) -> HuffmanNode
    decreases forest.len(),
{
    if forest.len() <= 1 {
        forest[0]
    } else {
        proof {
            lemma_merge_step_len(forest);
        }
        merge_all(merge_step(forest))
    }
}

/// The Huffman tree of a frequency table; `None` for the empty table.
pub open spec fn huffman_tree(table: Map<u8, usize>) -> Option<HuffmanNode> {
    let forest = leaf_forest(table, 256);
    if forest.len() == 0 {
        None
    } else {
        Some(merge_all(forest))
    }
}

/// `lightest` names a tree of the forest, no tree weighs less than it, and
/// every tree before it weighs more.
pub proof fn lemma_lightest_is_least(forest: Seq<HuffmanNode>)
    requires
        forest.len() > 0,
    ensures
        0 <= lightest(forest) < forest.len(),
        forall|j: int|
            0 <= j < forest.len() ==> forest[lightest(forest)].frequency <= (
            #[trigger] forest[j]).frequency,
        forall|j: int|
            0 <= j < lightest(forest) ==> forest[lightest(forest)].frequency < (
            #[trigger] forest[j]).frequency,
    decreases forest.len(),
{
    if forest.len() > 1 {
        let shorter = forest.drop_last();
        lemma_lightest_is_least(shorter);
        assert forall|j: int| 0 <= j < forest.len() implies forest[lightest(forest)].frequency <= (
        #[trigger] forest[j]).frequency by {
            if j < forest.len() - 1 {
                assert(shorter[j] == forest[j]);
            }
        }
        assert forall|j: int| 0 <= j < lightest(forest) implies forest[lightest(
            forest,
        )].frequency < (#[trigger] forest[j]).frequency by {
            assert(shorter[j] == forest[j]);
            assert(shorter[lightest(shorter)] == forest[lightest(shorter)]);
        }
    }
}

/// A merge shortens a forest of two or more trees by one.
pub proof fn lemma_merge_step_len(forest: Seq<HuffmanNode>)
    requires
        forest.len() >= 2,
    ensures
        merge_step(forest).len() == forest.len() - 1,
{
    lemma_lightest_is_least(forest);
    lemma_lightest_is_least(forest.remove(lightest(forest)));
}

/// Taking a tree out of a forest takes out its weight and its leaves.
pub proof fn lemma_forest_remove(forest: Seq<HuffmanNode>, index: int, byte: u8)
    requires
        0 <= index < forest.len(),
    ensures
        forest_weight(forest.remove(index)) == forest_weight(forest) - forest[index].frequency,
        forest_leaf_count(forest.remove(index), byte) == forest_leaf_count(forest, byte)
            - forest[index].leaf_count(byte),
        forest_weights_add_up(forest) ==> forest_weights_add_up(forest.remove(index)),
        forest[index].frequency <= forest_weight(forest),
    decreases forest.len(),
{
    let removed = forest.remove(index);
    if index == forest.len() - 1 {
        assert(removed =~= forest.drop_last());
    } else {
        lemma_forest_remove(forest.drop_last(), index, byte);
        assert(removed.drop_last() =~= forest.drop_last().remove(index));
        assert(removed.last() == forest.last());
    }
    if forest_weights_add_up(forest) {
        assert forall|i: int| 0 <= i < removed.len() implies (
        #[trigger] removed[i]).weights_add_up() by {
            if i < index {
                assert(removed[i] == forest[i]);
            } else {
                assert(removed[i] == forest[i + 1]);
            }
        }
    }
}

/// A merge keeps the total weight of a forest, the leaves that it holds, and
/// the rule that the weights add up.
pub proof fn lemma_merge_step_keeps(forest: Seq<HuffmanNode>, byte: u8)
    requires
        forest.len() >= 2,
        forest_weight(forest) <= usize::MAX,
    ensures
        forest_weight(merge_step(forest)) == forest_weight(forest),
        forest_leaf_count(merge_step(forest), byte) == forest_leaf_count(forest, byte),
        forest_weights_add_up(forest) ==> forest_weights_add_up(merge_step(forest)),
{
    let i = lightest(forest);
    lemma_lightest_is_least(forest);
    let rest = forest.remove(i);
    let j = lightest(rest);
    lemma_lightest_is_least(rest);
    lemma_forest_remove(forest, i, byte);
    lemma_forest_remove(rest, j, byte);
    let node = joined(forest[i], rest[j]);
    let merged = rest.remove(j).push(node);
    assert(merged.drop_last() =~= rest.remove(j));
    assert(merged.last() == node);
    assert(node.leaf_count(byte) == forest[i].leaf_count(byte) + rest[j].leaf_count(byte));
    if forest_weights_add_up(forest) {
        assert(forest[i].weights_add_up());
        assert(rest[j].weights_add_up());
        assert(node.weights_add_up());
        assert forall|k: int| 0 <= k < merged.len() implies (
        #[trigger] merged[k]).weights_add_up() by {
            if k < merged.len() - 1 {
                assert(merged[k] == rest.remove(j)[k]);
            }
        }
    }
}

/// The tree that a forest is merged down to weighs as much as the forest and
/// holds exactly its leaves.
pub proof fn lemma_merge_all_keeps(forest: Seq<HuffmanNode>, byte: u8)
    requires
        forest.len() >= 1,
        forest_weight(forest) <= usize::MAX,
    ensures
        merge_all(forest).frequency == forest_weight(forest),
        merge_all(forest).leaf_count(byte) == forest_leaf_count(forest, byte),
        forest_weights_add_up(forest) ==> merge_all(forest).weights_add_up(),
    decreases forest.len(),
{
    if forest.len() == 1 {
        assert(forest_weight(forest.drop_last()) == 0);
        assert(forest_leaf_count(forest.drop_last(), byte) == 0);
        assert(forest.last() == forest[0]);
    } else {
        lemma_merge_step_len(forest);
        lemma_merge_step_keeps(forest, byte);
        lemma_merge_all_keeps(merge_step(forest), byte);
    }
}

/// The leaves of a table: one for each byte value that it holds.
pub proof fn lemma_leaf_forest(table: Map<u8, usize>, below: nat, byte: u8)
    requires
        below <= 256,
    ensures
        forest_weight(leaf_forest(table, below)) == table_weight(table, below),
        forest_weights_add_up(leaf_forest(table, below)),
        leaf_forest(table, below).len() <= below,
        forest_leaf_count(leaf_forest(table, below), byte) == if byte < below
            && table.dom().contains(byte) {
            1nat
        } else {
            0nat
        },
        byte < below && table.dom().contains(byte) ==> leaf_forest(table, below).len() > 0,
    decreases below,
{
    if below > 0 {
        lemma_leaf_forest(table, (below - 1) as nat, byte);
        let lower = leaf_forest(table, (below - 1) as nat);
        let b = (below - 1) as u8;
        if table.dom().contains(b) {
            let forest = lower.push(leaf(b, table[b]));
            assert(forest.drop_last() =~= lower);
        }
    }
}

proof fn lemma_forest_remove_leaves(forest: Seq<HuffmanNode>, index: int)
    requires
        0 <= index < forest.len(),
    ensures
        forest_leaves(forest.remove(index)) == forest_leaves(forest) - forest[index].leaves(),
    decreases forest.len(),
{
    let removed = forest.remove(index);
    if index == forest.len() - 1 {
        assert(removed =~= forest.drop_last());
    } else {
        lemma_forest_remove_leaves(forest.drop_last(), index);
        assert(removed.drop_last() =~= forest.drop_last().remove(index));
        assert(removed.last() == forest.last());
    }
}

proof fn lemma_merge_all_leaves(forest: Seq<HuffmanNode>)
    requires
        forest.len() >= 1,
    ensures
        merge_all(forest).leaves() == forest_leaves(forest),
    decreases forest.len(),
{
    if forest.len() == 1 {
        assert(forest_leaves(forest.drop_last()) == 0);
        assert(forest.last() == forest[0]);
    } else {
        let i = lightest(forest);
        lemma_lightest_is_least(forest);
        let rest = forest.remove(i);
        let j = lightest(rest);
        lemma_lightest_is_least(rest);
        lemma_forest_remove_leaves(forest, i);
        lemma_forest_remove_leaves(rest, j);
        let merged = merge_step(forest);
        assert(merged.drop_last() =~= rest.remove(j));
        assert(merged.last() == joined(forest[i], rest[j]));
        lemma_merge_step_len(forest);
        lemma_merge_all_leaves(merged);
    }
}

proof fn lemma_leaf_forest_leaves(table: Map<u8, usize>, below: nat)
    ensures
        forest_leaves(leaf_forest(table, below)) <= below,
    decreases below,
{
    if below > 0 {
        lemma_leaf_forest_leaves(table, (below - 1) as nat);
        let lower = leaf_forest(table, (below - 1) as nat);
        let b = (below - 1) as u8;
        if table.dom().contains(b) {
            assert(lower.push(leaf(b, table[b])).drop_last() =~= lower);
        }
    }
}

/// A Huffman tree has at most 256 leaves, one for each byte value, so it is
/// at most 255 high.
pub proof fn lemma_huffman_tree_height(table: Map<u8, usize>)
    ensures
        huffman_tree(table) matches Some(tree) ==> tree.leaves() <= 256 && tree.height() <= 255,
{
    let forest = leaf_forest(table, 256);
    if forest.len() > 0 {
        lemma_leaf_forest_leaves(table, 256);
        lemma_merge_all_leaves(forest);
        lemma_height(merge_all(forest));
    }
}

/// The Huffman tree of a table whose counts fit together in a `usize`: it
/// exists unless the table is empty, weighs as much as the whole table, has
/// weights that add up, and holds exactly one leaf for each byte value of the
/// table.
pub proof fn lemma_huffman_tree(table: Map<u8, usize>, byte: u8)
    requires
        table_weight(table, 256) <= usize::MAX,
    ensures
        huffman_tree(table) is None <==> table.is_empty(),
        huffman_tree(table) matches Some(tree) ==> {
            &&& tree.frequency == table_weight(table, 256)
            &&& tree.weights_add_up()
            &&& tree.leaf_count(byte) == if table.dom().contains(byte) {
                1nat
            } else {
                0nat
            }
        },
{
    lemma_leaf_forest(table, 256, byte);
    let forest = leaf_forest(table, 256);
    if forest.len() > 0 {
        lemma_merge_all_keeps(forest, byte);
    }
    if !table.is_empty() {
        let witness = choose|b: u8| table.dom().contains(b);
        lemma_leaf_forest(table, 256, witness);
    } else {
        assert forall|b: u8| !table.dom().contains(b) by {}
        lemma_leaf_forest_of_empty(table, 256);
    }
}

proof fn lemma_leaf_forest_of_empty(table: Map<u8, usize>, below: nat)
    requires
        forall|b: u8| !table.dom().contains(b),
    ensures
        leaf_forest(table, below).len() == 0,
    decreases below,
{
    if below > 0 {
        lemma_leaf_forest_of_empty(table, (below - 1) as nat);
    }
}

/// The index of the first tree of least weight.
pub fn lightest_index(forest: &Vec<HuffmanNode>) -> (index: usize)
    requires
        forest@.len() > 0,
    ensures
        index == lightest(forest@),
        index < forest@.len(),
{
    let mut best: usize = 0;
    let mut k: usize = 1;
    proof {
        assert(forest@.take(1).len() == 1);
    }
    while k < forest.len()
        invariant
            1 <= k <= forest@.len(),
            best < k,
            best == lightest(forest@.take(k as int)),
        decreases forest@.len() - k,
    {
        proof {
            let longer = forest@.take(k + 1);
            assert(longer.drop_last() =~= forest@.take(k as int));
            assert(longer.last() == forest@[k as int]);
            assert(longer[best as int] == forest@[best as int]);
        }
        if forest[k].frequency < forest[best].frequency {
            best = k;
        }
        k += 1;
    }
    proof {
        assert(forest@.take(forest@.len() as int) =~= forest@);
    }
    best
}

/// Builds the Huffman tree of `freq_table` by merging the two lightest trees
/// until one is left. Returns `None` exactly when the table is empty.
pub fn build_huffman_tree(freq_table: &HashMap<u8, usize>) -> (tree: Option<HuffmanNode>)
    requires
        table_weight(freq_table@, 256) <= usize::MAX,
    ensures
        tree == huffman_tree(freq_table@),
        tree is None <==> freq_table@.is_empty(),
{
    proof {
        lemma_huffman_tree(freq_table@, 0u8);
    }
    if freq_table.is_empty() {
        return None;
    }
    let ghost table = freq_table@;
    let mut forest: Vec<HuffmanNode> = Vec::new();
    let mut value: usize = 0;
    while value < 256
        invariant
            value <= 256,
            table == freq_table@,
            forest@ == leaf_forest(table, value as nat),
        decreases 256 - value,
    {
        let byte = value as u8;
        match freq_table.get(&byte) {
            Some(count) => {
                forest.push(HuffmanNode::new_leaf(byte, *count));
            },
            None => {},
        }
        value += 1;
    }
    proof {
        lemma_leaf_forest(table, 256, 0u8);
    }
    while forest.len() > 1
        invariant
            forest@.len() >= 1,
            forest_weight(forest@) <= usize::MAX,
            merge_all(forest@) == merge_all(leaf_forest(table, 256)),
        decreases forest@.len(),
    {
        let ghost before = forest@;
        proof {
            lemma_merge_step_len(before);
            lemma_merge_step_keeps(before, 0u8);
            lemma_lightest_is_least(before);
            lemma_forest_remove(before, lightest(before), 0u8);
        }
        let i = lightest_index(&forest);
        let left = forest.remove(i);
        proof {
            lemma_lightest_is_least(forest@);
            lemma_forest_remove(forest@, lightest(forest@), 0u8);
        }
        let j = lightest_index(&forest);
        let right = forest.remove(j);
        forest.push(HuffmanNode::new_internal(left, right));
        proof {
            assert(forest@ == merge_step(before));
        }
    }
    forest.pop()
}

} // verus!
