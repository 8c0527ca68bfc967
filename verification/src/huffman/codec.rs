//! The Huffman codec: frequency-driven prefix coding behind a tree header.
//!
//! A payload is the serialized tree, the original length and the number of
//! code bits as 32-bit little-endian fields, and the code bits packed into
//! bytes. The empty input is the empty payload.

use crate::error::{CompressionError, Result};
use crate::framing::{
    lemma_u32_le_round_trip, length_field, push_length, read_u32_le, u32_from_le, u32_le_bytes,
};
use crate::huffman::bits::{bits_to_bytes, bytes_to_bits, lemma_unpack_pack, pack_bits, unpack_bits};
use crate::huffman::codes::{code_paths, code_table, lemma_code_paths};
use crate::huffman::forest::{
    build_huffman_tree, huffman_tree, leaf_forest, lemma_huffman_tree, lemma_huffman_tree_height,
    merge_all,
};
use crate::huffman::frequency::{
    build_frequency_table, frequency_table, lemma_occurrences_of_member,
    lemma_table_weight_is_length, occurrences,
};
use crate::huffman::node::{leaf, lemma_height, HuffmanNode, NodeData};
use crate::huffman::serial::{
    deserialize_tree, lemma_parse_tree_advances, lemma_parse_tree_of_header, parse_tree,
    serialize_tree, tree_bytes,
};
use crate::traits::{Compressor, Decompressor};
use std::collections::HashMap;
use vstd::prelude::*;
use vstd::string::StringExecFns;

verus! {

broadcast use vstd::std_specs::hash::group_hash_axioms;

/// The codes of the bytes of `data`, one after the other.
pub open spec fn encode_bits(codes: Map<u8, Seq<bool>>, data: Seq<u8>) -> Seq<bool>
    decreases data.len(),
{
    if data.len() == 0 {
        Seq::empty()
    } else {
        encode_bits(codes, data.drop_last()) + codes[data.last()]
    }
}

/// The bytes that a decoder gives out when it stands on `cur` in the tree
/// `root`, has `bits` before it and still wants `want` bytes.
///
/// On an internal node it takes one bit and goes left on 0, right on 1; where
/// no bit is left it stops. On a leaf it gives out the leaf's byte and goes
/// back to the root; where no bit is left, that byte is the last one.
pub open spec fn decode_walk(root: HuffmanNode, cur: HuffmanNode, bits: Seq<bool>, want: nat) -> Seq<
    u8,
>
    decreases want + bits.len(),
{
    if want == 0 {
        Seq::empty()
    } else {
        match cur.data {
            NodeData::Leaf(byte) => if bits.len() == 0 {
                seq![byte]
            } else {
                seq![byte] + decode_walk(root, root, bits, (want - 1) as nat)
            },
            NodeData::Internal { left, right } => if bits.len() == 0 {
                Seq::empty()
            } else {
                decode_walk(
                    root,
                    if bits[0] {
                        *right
                    } else {
                        *left
                    },
                    bits.skip(1),
                    want,
                )
            },
        }
    }
}

/// The code bits of `data` under the codes of `tree`.
pub open spec fn tree_bits(tree: HuffmanNode, data: Seq<u8>) -> Seq<bool> {
    encode_bits(code_paths(tree, Seq::empty()), data)
}

/// The payload for `data` under the codes of `tree`.
pub open spec fn huffman_frame(tree: HuffmanNode, data: Seq<u8>) -> Seq<u8> {
    let bits = tree_bits(tree, data);
    tree_bytes(tree) + u32_le_bytes(length_field(data.len())) + u32_le_bytes(
        length_field(bits.len()),
    ) + pack_bits(bits)
}

/// The code bits of `data` under the codes of its own Huffman tree.
pub open spec fn huffman_bits(data: Seq<u8>) -> Seq<bool> {
    match huffman_tree(frequency_table(data)) {
        Some(tree) => tree_bits(tree, data),
        None => Seq::empty(),
    }
}

/// The compressed form of `data`.
pub open spec fn huffman_encode(data: Seq<u8>) -> Seq<u8> {
    match huffman_tree(frequency_table(data)) {
        Some(tree) => huffman_frame(tree, data),
        None => Seq::empty(),
    }
}

/// What `input` decompresses to, or `None` where it is corrupted: where the
/// tree header is cut short, the two length fields are not complete, or the
/// code bits do not give exactly as many bytes as the header declares.
pub open spec fn huffman_decode(input: Seq<u8>) -> Option<Seq<u8>> {
    if input.len() == 0 {
        Some(Seq::empty())
    } else {
        let (tree, pos) = parse_tree(input, 0);
        match tree {
            None => None,
            Some(root) => if input.len() - pos < 8 {
                None
            } else {
                let total = u32_from_le(input, pos) as nat;
                let count = u32_from_le(input, pos + 4) as nat;
                let bits = unpack_bits(input.skip(pos + 8), count);
                let output = decode_walk(root, root, bits, total);
                if output.len() == total {
                    Some(output)
                } else {
                    None
                }
            },
        }
    }
}

/// The Huffman tree of non-empty data exists and holds every byte of the data
/// on exactly one leaf, so every byte of the data has a code, and no code is
/// empty.
pub proof fn lemma_tree_covers_data(data: Seq<u8>, index: int)
    requires
        data.len() <= usize::MAX,
        0 <= index < data.len(),
    ensures
        huffman_tree(frequency_table(data)) matches Some(tree) && {
            &&& tree.leaf_count(data[index]) == 1
            &&& tree.weights_add_up()
            &&& tree.frequency == data.len()
            &&& code_paths(tree, Seq::empty()).dom().contains(data[index])
            &&& code_paths(tree, Seq::empty())[data[index]].len() >= 1
        },
{
    let table = frequency_table(data);
    lemma_table_weight_is_length(data);
    lemma_occurrences_of_member(data, index);
    assert(table.dom().contains(data[index]));
    lemma_huffman_tree(table, data[index]);
    let tree = huffman_tree(table).unwrap();
    lemma_code_paths(tree, Seq::empty(), data[index]);
}

/// The code bits of data that begins with `first` begin with the code of `first`.
pub proof fn lemma_encode_bits_front(codes: Map<u8, Seq<bool>>, data: Seq<u8>)
    requires
        data.len() > 0,
    ensures
        encode_bits(codes, data) == codes[data[0]] + encode_bits(codes, data.skip(1)),
    decreases data.len(),
{
    if data.len() == 1 {
        assert(data.drop_last() =~= Seq::<u8>::empty());
        assert(data.skip(1) =~= Seq::<u8>::empty());
        assert(encode_bits(codes, data) =~= codes[data[0]] + encode_bits(codes, data.skip(1)));
    } else {
        lemma_encode_bits_front(codes, data.drop_last());
        assert(data.drop_last().skip(1) =~= data.skip(1).drop_last());
        assert(data.skip(1).last() == data.last());
        assert(encode_bits(codes, data) =~= codes[data[0]] + encode_bits(codes, data.skip(1)));
    }
}

/// Weights play no part in decoding.
pub proof fn lemma_walk_ignores_weights(
    root: HuffmanNode,
    cur: HuffmanNode,
    bits: Seq<bool>,
    want: nat,
)
    ensures
        decode_walk(root.without_frequencies(), cur.without_frequencies(), bits, want)
            == decode_walk(root, cur, bits, want),
    decreases want + bits.len(),
{
    if want > 0 {
        match cur.data {
            NodeData::Leaf(byte) => {
                if bits.len() > 0 {
                    lemma_walk_ignores_weights(root, root, bits, (want - 1) as nat);
                }
            },
            NodeData::Internal { left, right } => {
                if bits.len() > 0 {
                    lemma_walk_ignores_weights(
                        root,
                        if bits[0] {
                            *right
                        } else {
                            *left
                        },
                        bits.skip(1),
                        want,
                    );
                }
            },
        }
    }
}

/// A decoder that stands on `cur` and reads a path from `cur` to a leaf gives
/// out the byte of that leaf and goes on from the root with the bits behind
/// the path.
pub proof fn lemma_walk_along_path(
    root: HuffmanNode,
    cur: HuffmanNode,
    path: Seq<bool>,
    rest: Seq<bool>,
    want: nat,
    byte: u8,
)
    requires
        cur.leads_to(path, byte),
        want > 0,
    ensures
        decode_walk(root, cur, path + rest, want) == if rest.len() == 0 {
            seq![byte]
        } else {
            seq![byte] + decode_walk(root, root, rest, (want - 1) as nat)
        },
    decreases cur,
{
    match cur.data {
        NodeData::Leaf(b) => {
            assert(path + rest =~= rest);
        },
        NodeData::Internal { left, right } => {
            let bits = path + rest;
            assert(bits[0] == path[0]);
            assert(bits.skip(1) =~= path.skip(1) + rest);
            if path[0] {
                lemma_walk_along_path(root, *right, path.skip(1), rest, want, byte);
            } else {
                lemma_walk_along_path(root, *left, path.skip(1), rest, want, byte);
            }
        },
    }
}

/// The code bits are never fewer than the bytes that they stand for.
pub proof fn lemma_tree_bits_len(tree: HuffmanNode, data: Seq<u8>)
    requires
        forall|i: int| 0 <= i < data.len() ==> tree.leaf_count(#[trigger] data[i]) > 0,
    ensures
        tree_bits(tree, data).len() >= data.len(),
    decreases data.len(),
{
    if data.len() > 0 {
        let shorter = data.drop_last();
        assert forall|i: int| 0 <= i < shorter.len() implies tree.leaf_count(
            #[trigger] shorter[i],
        ) > 0 by {
            assert(shorter[i] == data[i]);
        }
        lemma_tree_bits_len(tree, shorter);
        assert(tree.leaf_count(data[data.len() - 1]) > 0);
        lemma_code_paths(tree, Seq::empty(), data.last());
    }
}

/// Decoding the code bits of `data` under a tree that holds every byte of
/// `data` gives `data` back.
pub proof fn lemma_walk_decodes(tree: HuffmanNode, data: Seq<u8>)
    requires
        forall|i: int| 0 <= i < data.len() ==> tree.leaf_count(#[trigger] data[i]) > 0,
    ensures
        decode_walk(tree, tree, tree_bits(tree, data), data.len()) == data,
    decreases data.len(),
{
    let codes = code_paths(tree, Seq::empty());
    let bits = tree_bits(tree, data);
    if data.len() > 0 {
        let first = data[0];
        let rest = data.skip(1);
        let rest_bits = tree_bits(tree, rest);
        assert(tree.leaf_count(first) > 0);
        lemma_code_paths(tree, Seq::empty(), first);
        lemma_encode_bits_front(codes, data);
        assert forall|i: int| 0 <= i < rest.len() implies tree.leaf_count(#[trigger] rest[i])
            > 0 by {
            assert(rest[i] == data[i + 1]);
        }
        lemma_tree_bits_len(tree, rest);
        lemma_walk_decodes(tree, rest);
        match tree.data {
            NodeData::Leaf(byte) => {
                assert(first == byte);
                assert(bits.len() > 0);
                assert(rest.len() == data.len() - 1);
                if rest.len() > 0 {
                    lemma_walk_on_leaf(tree, rest_bits, bits, rest.len());
                }
                assert(decode_walk(tree, tree, bits, rest.len()) == rest);
                assert(decode_walk(tree, tree, bits, data.len()) == seq![first] + decode_walk(
                    tree,
                    tree,
                    bits,
                    (data.len() - 1) as nat,
                ));
            },
            NodeData::Internal { .. } => {
                assert(codes[first].skip(0) =~= codes[first]);
                lemma_walk_along_path(tree, tree, codes[first], rest_bits, data.len(), first);
            },
        }
        assert(seq![first] + rest =~= data);
    }
}

/// Where the tree is a single leaf, the bits that are left do not matter as
/// long as there are some.
proof fn lemma_walk_on_leaf(tree: HuffmanNode, bits: Seq<bool>, other: Seq<bool>, want: nat)
    requires
        tree.data is Leaf,
        bits.len() > 0,
        other.len() > 0,
    ensures
        decode_walk(tree, tree, bits, want) == decode_walk(tree, tree, other, want),
    decreases want,
{
    if want > 0 {
        lemma_walk_on_leaf(tree, bits, other, (want - 1) as nat);
    }
}

/// Decompressing what was compressed gives the data back, for all data whose
/// length and whose number of code bits each fit in a 32-bit field.
pub proof fn lemma_huffman_round_trip(data: Seq<u8>)
    requires
        data.len() <= u32::MAX,
        huffman_bits(data).len() <= u32::MAX,
    ensures
        huffman_decode(huffman_encode(data)) == Some(data),
{
    if data.len() == 0 {
        lemma_table_weight_is_length(data);
        lemma_huffman_tree(frequency_table(data), 0u8);
        assert(frequency_table(data).dom() =~= Set::<u8>::empty());
        assert(huffman_encode(data) =~= Seq::<u8>::empty());
        assert(data =~= Seq::<u8>::empty());
    } else {
        lemma_tree_covers_data(data, 0);
        let tree = huffman_tree(frequency_table(data)).unwrap();
        assert forall|i: int| 0 <= i < data.len() implies tree.leaf_count(#[trigger] data[i])
            > 0 by {
            lemma_tree_covers_data(data, i);
        }
        lemma_frame_decodes(tree, data);
    }
}

/// The longest code that a Huffman tree can give has 255 bits.
pub const MAX_CODE_LENGTH: usize = 255;

/// The code bits under a tree are at most as many as the height of the tree
/// for each byte of the data, and one for each byte where the tree is a leaf.
pub proof fn lemma_tree_bits_bounded(tree: HuffmanNode, data: Seq<u8>, limit: nat)
    requires
        forall|i: int| 0 <= i < data.len() ==> tree.leaf_count(#[trigger] data[i]) > 0,
        tree.height() <= limit,
        1 <= limit,
    ensures
        tree_bits(tree, data).len() <= limit * data.len(),
    decreases data.len(),
{
    if data.len() > 0 {
        let shorter = data.drop_last();
        assert forall|i: int| 0 <= i < shorter.len() implies tree.leaf_count(
            #[trigger] shorter[i],
        ) > 0 by {
            assert(shorter[i] == data[i]);
        }
        lemma_tree_bits_bounded(tree, shorter, limit);
        assert(tree.leaf_count(data[data.len() - 1]) > 0);
        lemma_code_paths(tree, Seq::empty(), data.last());
        lemma_height(tree);
        let code = code_paths(tree, Seq::empty())[data.last()];
        assert(code.skip(0) =~= code);
        assert(code.len() <= limit);
        assert(limit * data.len() == limit * shorter.len() + limit) by (nonlinear_arith)
            requires
                data.len() == shorter.len() + 1,
        ;
    }
}

/// Decompressing what was compressed gives the data back, for all data of at
/// most 16 843 009 bytes: with codes of at most `MAX_CODE_LENGTH` bits, the
/// number of code bits then fits in its 32-bit field.
pub proof fn lemma_huffman_round_trip_bounded(data: Seq<u8>)
    requires
        data.len() <= 16_843_009,
    ensures
        huffman_bits(data).len() <= MAX_CODE_LENGTH * data.len() <= u32::MAX,
        huffman_decode(huffman_encode(data)) == Some(data),
{
    if data.len() > 0 {
        lemma_tree_covers_data(data, 0);
        let tree = huffman_tree(frequency_table(data)).unwrap();
        assert forall|i: int| 0 <= i < data.len() implies tree.leaf_count(#[trigger] data[i])
            > 0 by {
            lemma_tree_covers_data(data, i);
        }
        lemma_huffman_tree_height(frequency_table(data));
        lemma_tree_bits_bounded(tree, data, MAX_CODE_LENGTH as nat);
    } else {
        lemma_table_weight_is_length(data);
        lemma_huffman_tree(frequency_table(data), 0u8);
        assert(frequency_table(data).dom() =~= Set::<u8>::empty());
    }
    lemma_huffman_round_trip(data);
}

/// A payload that was framed under a tree that holds every byte of the data
/// decodes to the data.
pub proof fn lemma_frame_decodes(tree: HuffmanNode, data: Seq<u8>)
    requires
        data.len() <= u32::MAX,
        tree_bits(tree, data).len() <= u32::MAX,
        forall|i: int| 0 <= i < data.len() ==> tree.leaf_count(#[trigger] data[i]) > 0,
    ensures
        huffman_decode(huffman_frame(tree, data)) == Some(data),
{
    let bits = tree_bits(tree, data);
    let header = tree_bytes(tree);
    let first = u32_le_bytes(length_field(data.len()));
    let second = u32_le_bytes(length_field(bits.len()));
    let packed = pack_bits(bits);
    let frame = huffman_frame(tree, data);
    let at = header.len() as int;
    assert(frame.len() == at + 8 + packed.len());
    assert(frame.subrange(0, at) =~= header);
    lemma_parse_tree_of_header(frame, 0, tree);
    lemma_parse_tree_advances(frame, 0);
    assert(frame.subrange(at, at + 4) =~= first);
    assert(frame.subrange(at + 4, at + 8) =~= second);
    lemma_u32_le_round_trip(frame, at, length_field(data.len()));
    lemma_u32_le_round_trip(frame, at + 4, length_field(bits.len()));
    assert(frame.skip(at + 8) =~= packed);
    lemma_unpack_pack(bits);
    lemma_walk_ignores_weights(tree, tree, bits, data.len());
    lemma_walk_decodes(tree, data);
}

proof fn lemma_occurrences_in_one_run(data: Seq<u8>, byte: u8)
    requires
        data.len() >= 1,
        forall|i: int| 0 <= i < data.len() ==> #[trigger] data[i] == data[0],
    ensures
        occurrences(data, byte) == if byte == data[0] {
            data.len()
        } else {
            0
        },
    decreases data.len(),
{
    let shorter = data.drop_last();
    if data.len() > 1 {
        assert(shorter[0] == data[0]);
        assert forall|i: int| 0 <= i < shorter.len() implies #[trigger] shorter[i]
            == shorter[0] by {
            assert(shorter[i] == data[i]);
        }
        lemma_occurrences_in_one_run(shorter, byte);
    } else {
        assert(occurrences(shorter, byte) == 0);
    }
    assert(data.last() == data[0]);
}

proof fn lemma_leaf_forest_of_one(table: Map<u8, usize>, below: nat, byte: u8)
    requires
        below <= 256,
        forall|b: u8| table.dom().contains(b) <==> b == byte,
    ensures
        leaf_forest(table, below) == if byte < below {
            seq![leaf(byte, table[byte])]
        } else {
            Seq::<HuffmanNode>::empty()
        },
    decreases below,
{
    if below > 0 {
        lemma_leaf_forest_of_one(table, (below - 1) as nat, byte);
        if byte == below - 1 {
            assert(Seq::<HuffmanNode>::empty().push(leaf(byte, table[byte])) =~= seq![
                leaf(byte, table[byte]),
            ]);
        }
    }
}

proof fn lemma_bits_of_one_run(codes: Map<u8, Seq<bool>>, data: Seq<u8>)
    requires
        data.len() >= 1,
        forall|i: int| 0 <= i < data.len() ==> #[trigger] data[i] == data[0],
        codes[data[0]].len() == 1,
    ensures
        encode_bits(codes, data).len() == data.len(),
    decreases data.len(),
{
    let shorter = data.drop_last();
    if data.len() > 1 {
        assert(shorter[0] == data[0]);
        assert forall|i: int| 0 <= i < shorter.len() implies #[trigger] shorter[i]
            == shorter[0] by {
            assert(shorter[i] == data[i]);
        }
        lemma_bits_of_one_run(codes, shorter);
    } else {
        assert(encode_bits(codes, shorter).len() == 0);
    }
    assert(data.last() == data[0]);
}

/// Data that repeats one byte: its tree is the single leaf for that byte, the
/// code of the byte is the one bit 0, and the payload takes ten bytes of
/// header and one bit for each byte of the data, so that it is smaller than
/// the data from 13 bytes on.
pub proof fn lemma_huffman_of_one_run(data: Seq<u8>)
    requires
        1 <= data.len() <= usize::MAX,
        forall|i: int| 0 <= i < data.len() ==> #[trigger] data[i] == data[0],
    ensures
        huffman_tree(frequency_table(data)) == Some(leaf(data[0], data.len() as usize)),
        code_paths(leaf(data[0], data.len() as usize), Seq::empty())[data[0]] == seq![false],
        huffman_bits(data).len() == data.len(),
        huffman_encode(data).len() == 10 + (data.len() + 7) / 8,
        data.len() >= 13 ==> huffman_encode(data).len() < data.len(),
{
    let byte = data[0];
    let table = frequency_table(data);
    assert forall|b: u8| table.dom().contains(b) <==> b == byte by {
        lemma_occurrences_in_one_run(data, b);
    }
    lemma_occurrences_in_one_run(data, byte);
    lemma_leaf_forest_of_one(table, 256, byte);
    let tree = leaf(byte, data.len() as usize);
    assert(leaf_forest(table, 256) =~= seq![tree]);
    assert(merge_all(seq![tree]) == tree);
    let codes = code_paths(tree, Seq::empty());
    assert(codes[byte] == seq![false]);
    lemma_bits_of_one_run(codes, data);
    assert(tree_bytes(tree).len() == 2);
}

/// The Huffman codec. It holds no state.
#[derive(Debug, Default, Clone, Copy)]
pub struct Huffman;

impl Huffman {
    /// Makes the codec.
    #[must_use]
    pub fn new() -> (codec: Self)
        ensures
            codec == Huffman,
    {
        Self
    }
}

impl Compressor for Huffman {
    /// Compresses `input`. Never fails.
    fn compress(&self, input: &[u8]) -> (result: Result<Vec<u8>>)
        ensures
            result matches Ok(output) && output@ == huffman_encode(input@),
            input@.len() == 0 ==> (result matches Ok(output) && output@.len() == 0),
    {
        if input.len() == 0 {
            proof {
                lemma_table_weight_is_length(input@);
                lemma_huffman_tree(frequency_table(input@), 0u8);
                assert(frequency_table(input@).dom() =~= Set::<u8>::empty());
            }
            return Ok(Vec::new());
        }
        proof {
            lemma_table_weight_is_length(input@);
            lemma_tree_covers_data(input@, 0);
        }
        let freq_table = build_frequency_table(input);
        let tree = match build_huffman_tree(&freq_table) {
            Some(tree) => tree,
            None => {
                return Err(CompressionError::InvalidInput(String::from_str("cannot build tree")));
            },
        };

        let mut codes: HashMap<u8, Vec<bool>> = HashMap::new();
        tree.build_codes(Vec::new(), &mut codes);
        let ghost table = code_paths(tree, Seq::empty());
        proof {
            assert(code_table(codes@) =~= table);
        }

        let mut bits: Vec<bool> = Vec::new();
        let mut i: usize = 0;
        proof {
            assert(input@.take(0) =~= Seq::<u8>::empty());
        }
        while i < input.len()
            invariant
                i <= input@.len(),
                input@.len() <= usize::MAX,
                code_table(codes@) == table,
                table == code_paths(tree, Seq::empty()),
                huffman_tree(frequency_table(input@)) == Some(tree),
                bits@ == encode_bits(table, input@.take(i as int)),
            decreases input@.len() - i,
        {
            let byte = input[i];
            proof {
                lemma_tree_covers_data(input@, i as int);
                assert(input@.take(i + 1).drop_last() =~= input@.take(i as int));
            }
            let code = match codes.get(&byte) {
                Some(code) => code,
                None => {
                    return Err(CompressionError::CorruptedData);
                },
            };
            let mut k: usize = 0;
            let ghost before = bits@;
            while k < code.len()
                invariant
                    k <= code@.len(),
                    bits@ == before + code@.take(k as int),
                decreases code@.len() - k,
            {
                bits.push(code[k]);
                proof {
                    assert(code@.take(k + 1) =~= code@.take(k as int).push(code@[k as int]));
                }
                k += 1;
            }
            proof {
                assert(code@.take(code@.len() as int) =~= code@);
            }
            i += 1;
        }
        proof {
            assert(input@.take(input@.len() as int) =~= input@);
        }

        let mut output: Vec<u8> = Vec::new();
        serialize_tree(&tree, &mut output);
        push_length(&mut output, input.len());
        push_length(&mut output, bits.len());
        let encoded_bytes = bits_to_bytes(bits.as_slice());
        let mut k: usize = 0;
        let ghost head = output@;
        while k < encoded_bytes.len()
            invariant
                k <= encoded_bytes@.len(),
                output@ == head + encoded_bytes@.take(k as int),
            decreases encoded_bytes@.len() - k,
        {
            output.push(encoded_bytes[k]);
            proof {
                assert(encoded_bytes@.take(k + 1) =~= encoded_bytes@.take(k as int).push(
                    encoded_bytes@[k as int],
                ));
            }
            k += 1;
        }
        proof {
            assert(encoded_bytes@.take(encoded_bytes@.len() as int) =~= encoded_bytes@);
            assert(output@ =~= huffman_frame(tree, input@));
        }
        Ok(output)
    }

    /// The name of the algorithm.
    fn name(&self) -> &'static str
        returns
            "Huffman",
    {
        "Huffman"
    }
}

impl Decompressor for Huffman {
    /// Decompresses `input`. Fails with `CorruptedData` exactly when `input`
    /// is not a complete payload that gives as many bytes as it declares.
    fn decompress(&self, input: &[u8]) -> (result: Result<Vec<u8>>)
        ensures
            match huffman_decode(input@) {
                Some(data) => result matches Ok(output) && output@ == data,
                None => result == Err::<Vec<u8>, CompressionError>(CompressionError::CorruptedData),
            },
            input@.len() == 0 ==> (result matches Ok(output) && output@.len() == 0),
    {
        if input.len() == 0 {
            return Ok(Vec::new());
        }
        let mut pos: usize = 0;
        proof {
            lemma_parse_tree_advances(input@, 0);
        }
        let tree = match deserialize_tree(input, &mut pos) {
            Ok(tree) => tree,
            Err(e) => {
                return Err(e);
            },
        };

        if input.len() - pos < 8 {
            return Err(CompressionError::CorruptedData);
        }
        let original_len = read_u32_le(input, pos) as usize;
        let num_bits = read_u32_le(input, pos + 4) as usize;

        let encoded_bytes = vstd::slice::slice_subrange(input, pos + 8, input.len());
        proof {
            assert(encoded_bytes@ =~= input@.skip(pos + 8));
        }
        let bits = bytes_to_bits(encoded_bytes, num_bits);

        let mut output: Vec<u8> = Vec::new();
        let mut current_node = &tree;
        let mut bit_idx: usize = 0;
        proof {
            assert(bits@.skip(0) =~= bits@);
        }
        while output.len() < original_len && bit_idx < bits.len()
            invariant
                bit_idx <= bits@.len(),
                output@.len() <= original_len,
                output@ + decode_walk(
                    tree,
                    *current_node,
                    bits@.skip(bit_idx as int),
                    (original_len - output@.len()) as nat,
                ) == decode_walk(tree, tree, bits@, original_len as nat),
            decreases (original_len - output@.len()) + (bits@.len() - bit_idx),
        {
            match &current_node.data {
                NodeData::Leaf(byte) => {
                    output.push(*byte);
                    current_node = &tree;
                },
                NodeData::Internal { left, right } => {
                    proof {
                        assert(bits@.skip(bit_idx as int).skip(1) =~= bits@.skip(bit_idx + 1));
                    }
                    current_node = if bits[bit_idx] {
                        right
                    } else {
                        left
                    };
                    bit_idx += 1;
                },
            }
        }

        match &current_node.data {
            NodeData::Leaf(byte) => {
                if output.len() < original_len {
                    output.push(*byte);
                }
            },
            NodeData::Internal { .. } => {},
        }

        if output.len() != original_len {
            return Err(CompressionError::CorruptedData);
        }
        Ok(output)
    }

    /// The name of the algorithm.
    fn name(&self) -> &'static str
        returns
            "Huffman",
    {
        "Huffman"
    }
}

} // verus!
