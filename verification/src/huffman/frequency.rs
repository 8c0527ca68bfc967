//! Counting how often each byte value occurs.

use std::collections::HashMap;
use vstd::prelude::*;

verus! {

broadcast use vstd::std_specs::hash::group_hash_axioms;

/// How often `byte` occurs in `data`.
pub open spec fn occurrences(data: Seq<u8>, byte: u8) -> nat
    decreases data.len(),
{
    if data.len() == 0 {
        0
    } else {
        occurrences(data.drop_last(), byte) + if data.last() == byte {
            1nat
        } else {
            0nat
        }
    }
}

/// The frequency table of `data`: every byte value that occurs, with the
/// number of times it occurs.
pub open spec fn frequency_table(data: Seq<u8>) -> Map<u8, usize> {
    Map::new(|byte: u8| occurrences(data, byte) > 0, |byte: u8| occurrences(data, byte) as usize)
}

/// The sum of the counts that `table` holds for the byte values below `below`.
pub open spec fn table_weight(table: Map<u8, usize>, below: nat) -> nat
    decreases below,
{
    if below == 0 {
        0
    } else {
        let byte = (below - 1) as u8;
        table_weight(table, (below - 1) as nat) + if table.dom().contains(byte) {
            table[byte] as nat
        } else {
            0nat
        }
    }
}

/// A byte cannot occur more often than `data` is long.
pub proof fn lemma_occurrences_bounded(data: Seq<u8>, byte: u8)
    ensures
        occurrences(data, byte) <= data.len(),
    decreases data.len(),
{
    if data.len() > 0 {
        lemma_occurrences_bounded(data.drop_last(), byte);
    }
}

/// A byte that stands in `data` occurs at least once.
pub proof fn lemma_occurrences_of_member(data: Seq<u8>, index: int)
    requires
        0 <= index < data.len(),
    ensures
        occurrences(data, data[index]) > 0,
    decreases data.len(),
{
    if index < data.len() - 1 {
        lemma_occurrences_of_member(data.drop_last(), index);
    }
}

/// The number of bytes below a given value.
spec fn values_below(data: Seq<u8>, below: nat) -> nat
    decreases data.len(),
{
    if data.len() == 0 {
        0
    } else {
        values_below(data.drop_last(), below) + if data.last() < below {
            1nat
        } else {
            0nat
        }
    }
}

proof fn lemma_values_below_step(data: Seq<u8>, below: nat)
    requires
        0 < below <= 256,
    ensures
        values_below(data, below) == values_below(data, (below - 1) as nat) + occurrences(
            data,
            (below - 1) as u8,
        ),
        values_below(data, 0) == 0,
        values_below(data, 256) == data.len(),
    decreases data.len(),
{
    if data.len() > 0 {
        lemma_values_below_step(data.drop_last(), below);
    }
}

proof fn lemma_table_weight_below(data: Seq<u8>, below: nat)
    requires
        below <= 256,
        data.len() <= usize::MAX,
    ensures
        table_weight(frequency_table(data), below) == values_below(data, below),
    decreases below,
{
    if below > 0 {
        lemma_table_weight_below(data, (below - 1) as nat);
        lemma_values_below_step(data, below);
        lemma_occurrences_bounded(data, (below - 1) as u8);
    } else {
        lemma_values_below_step(data, 1);
    }
}

/// The counts of a frequency table add up to the length of the data.
pub proof fn lemma_table_weight_is_length(data: Seq<u8>)
    requires
        data.len() <= usize::MAX,
    ensures
        table_weight(frequency_table(data), 256) == data.len(),
{
    lemma_table_weight_below(data, 256);
    lemma_values_below_step(data, 256);
}

/// Counts the occurrences of each byte value in `data`.
pub fn build_frequency_table(data: &[u8]) -> (table: HashMap<u8, usize>)
    ensures
        table@ == frequency_table(data@),
        table_weight(table@, 256) == data@.len() <= usize::MAX,
{
    let len = data.len();
    proof {
        lemma_table_weight_is_length(data@);
    }
    let mut freq: HashMap<u8, usize> = HashMap::new();
    let mut i: usize = 0;
    proof {
        assert(freq@ =~= frequency_table(data@.take(0)));
    }
    while i < len
        invariant
            i <= len == data@.len(),
            freq@ == frequency_table(data@.take(i as int)),
        decreases data@.len() - i,
    {
        let byte = data[i];
        let ghost before = data@.take(i as int);
        let ghost after = data@.take(i + 1);
        proof {
            assert(after.drop_last() =~= before);
            lemma_occurrences_bounded(before, byte);
        }
        let count = match freq.get(&byte) {
            Some(c) => *c + 1,
            None => 1,
        };
        freq.insert(byte, count);
        proof {
            assert(freq@ =~= frequency_table(after));
        }
        i += 1;
    }
    proof {
        assert(data@.take(data@.len() as int) =~= data@);
    }
    freq
}

} // verus!
