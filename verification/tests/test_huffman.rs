use compression_lib::huffman::{
    bits_to_bytes, build_frequency_table, build_huffman_tree, bytes_to_bits, deserialize_tree,
    serialize_tree, HuffmanNode, NodeData,
};
use compression_lib::{CompressionError, Compressor, Decompressor, Huffman};
use std::collections::HashMap;

#[test]
fn test_huffman_new() {
    let huffman = Huffman::new();
    assert_eq!(Compressor::name(&huffman), "Huffman");
}

#[test]
fn test_huffman_default() {
    let huffman = Huffman::default();
    assert_eq!(Compressor::name(&huffman), "Huffman");
}

#[test]
fn huffman_test_compress_empty() {
    let huffman = Huffman::new();
    let result = huffman.compress(&[]).unwrap();
    assert!(result.is_empty());
}

#[test]
fn huffman_test_decompress_empty() {
    let huffman = Huffman::new();
    let result = huffman.decompress(&[]).unwrap();
    assert!(result.is_empty());
}

#[test]
fn test_roundtrip_single_byte() {
    let huffman = Huffman::new();
    let input = &[0x42];
    let compressed = huffman.compress(input).unwrap();
    let decompressed = huffman.decompress(&compressed).unwrap();
    assert_eq!(decompressed, input);
}

#[test]
fn huffman_test_roundtrip_simple() {
    let huffman = Huffman::new();
    let input = b"hello";
    let compressed = huffman.compress(input).unwrap();
    let decompressed = huffman.decompress(&compressed).unwrap();
    assert_eq!(decompressed, input.as_slice());
}

#[test]
fn huffman_test_roundtrip_repeated() {
    let huffman = Huffman::new();
    let input = b"aaaaaabbbbcccc";
    let compressed = huffman.compress(input).unwrap();
    let decompressed = huffman.decompress(&compressed).unwrap();
    assert_eq!(decompressed, input.as_slice());
}

#[test]
fn huffman_test_roundtrip_all_same() {
    let huffman = Huffman::new();
    let input = vec![0xAA; 100];
    let compressed = huffman.compress(&input).unwrap();
    let decompressed = huffman.decompress(&compressed).unwrap();
    assert_eq!(decompressed, input);
}

#[test]
fn huffman_test_roundtrip_binary_data() {
    let huffman = Huffman::new();
    let input: Vec<u8> = (0..=255).collect();
    let compressed = huffman.compress(&input).unwrap();
    let decompressed = huffman.decompress(&compressed).unwrap();
    assert_eq!(decompressed, input);
}

#[test]
fn test_roundtrip_long_text() {
    let huffman = Huffman::new();
    let input = b"the quick brown fox jumps over the lazy dog";
    let compressed = huffman.compress(input).unwrap();
    let decompressed = huffman.decompress(&compressed).unwrap();
    assert_eq!(decompressed, input.as_slice());
}

#[test]
fn huffman_test_compression_reduces_size_for_repeated() {
    let huffman = Huffman::new();
    let input = vec![0xAA; 1000];
    let compressed = huffman.compress(&input).unwrap();
    assert!(compressed.len() < input.len());
}

#[test]
fn test_frequency_table() {
    let data = b"aabbc";
    let freq = build_frequency_table(data);
    assert_eq!(freq.get(&b'a'), Some(&2));
    assert_eq!(freq.get(&b'b'), Some(&2));
    assert_eq!(freq.get(&b'c'), Some(&1));
}

#[test]
fn test_frequency_table_empty() {
    let freq = build_frequency_table(&[]);
    assert!(freq.is_empty());
}

#[test]
fn test_build_huffman_tree_empty() {
    let freq = HashMap::new();
    let tree = build_huffman_tree(&freq);
    assert!(tree.is_none());
}

#[test]
fn test_build_huffman_tree_single() {
    let mut freq = HashMap::new();
    freq.insert(b'a', 5);
    let tree = build_huffman_tree(&freq).unwrap();
    assert_eq!(tree.frequency, 5);
}

#[test]
fn test_huffman_node_new_leaf() {
    let node = HuffmanNode::new_leaf(b'x', 10);
    assert_eq!(node.frequency, 10);
    assert!(matches!(node.data, NodeData::Leaf(b'x')));
}

#[test]
fn test_huffman_node_new_internal() {
    let left = HuffmanNode::new_leaf(b'a', 5);
    let right = HuffmanNode::new_leaf(b'b', 3);
    let internal = HuffmanNode::new_internal(left, right);
    assert_eq!(internal.frequency, 8);
}

#[test]
fn test_huffman_node_ordering() {
    let node1 = HuffmanNode::new_leaf(b'a', 10);
    let node2 = HuffmanNode::new_leaf(b'b', 5);
    assert!(node2 > node1);
}

#[test]
fn test_bits_to_bytes() {
    let bits = vec![true, false, true, false, true, false, true, false];
    let bytes = bits_to_bytes(&bits);
    assert_eq!(bytes, vec![0b10101010]);
}

#[test]
fn test_bits_to_bytes_partial() {
    let bits = vec![true, true, true];
    let bytes = bits_to_bytes(&bits);
    assert_eq!(bytes, vec![0b11100000]);
}

#[test]
fn test_bytes_to_bits() {
    let bytes = vec![0b10101010];
    let bits = bytes_to_bits(&bytes, 8);
    assert_eq!(bits, vec![true, false, true, false, true, false, true, false]);
}

#[test]
fn test_bytes_to_bits_partial() {
    let bytes = vec![0b11100000];
    let bits = bytes_to_bits(&bytes, 3);
    assert_eq!(bits, vec![true, true, true]);
}

#[test]
fn test_serialize_deserialize_tree() {
    let left = HuffmanNode::new_leaf(b'a', 5);
    let right = HuffmanNode::new_leaf(b'b', 3);
    let tree = HuffmanNode::new_internal(left, right);

    let mut serialized = Vec::new();
    serialize_tree(&tree, &mut serialized);

    let mut pos = 0;
    let deserialized = deserialize_tree(&serialized, &mut pos).unwrap();

    assert_eq!(tree.frequency, 8);
    match deserialized.data {
        NodeData::Internal { left, right } => {
            assert!(matches!(left.data, NodeData::Leaf(b'a')));
            assert!(matches!(right.data, NodeData::Leaf(b'b')));
        }
        _ => panic!("Expected internal node"),
    }
}

#[test]
fn test_deserialize_tree_corrupted() {
    let result = deserialize_tree(&[], &mut 0);
    assert!(result.is_err());
}

#[test]
fn test_deserialize_tree_truncated_leaf() {
    let data = vec![1];
    let result = deserialize_tree(&data, &mut 0);
    assert!(result.is_err());
}

#[test]
fn test_decompress_corrupted_short() {
    let huffman = Huffman::new();
    let result = huffman.decompress(&[1, 0]);
    assert!(result.is_err());
}

#[test]
fn huffman_test_compressor_name() {
    let huffman = Huffman::new();
    assert_eq!(Compressor::name(&huffman), "Huffman");
}

#[test]
fn huffman_test_decompressor_name() {
    let huffman = Huffman::new();
    assert_eq!(Decompressor::name(&huffman), "Huffman");
}

#[test]
fn test_huffman_clone() {
    let huffman = Huffman::new();
    let cloned = huffman;
    assert_eq!(Compressor::name(&cloned), "Huffman");
}

#[test]
fn test_huffman_debug() {
    let huffman = Huffman::new();
    let debug_str = format!("{huffman:?}");
    assert!(debug_str.contains("Huffman"));
}

#[test]
fn huffman_test_roundtrip_zeros() {
    let huffman = Huffman::new();
    let input = vec![0u8; 50];
    let compressed = huffman.compress(&input).unwrap();
    let decompressed = huffman.decompress(&compressed).unwrap();
    assert_eq!(decompressed, input);
}

#[test]
fn huffman_test_roundtrip_max_values() {
    let huffman = Huffman::new();
    let input = vec![255u8; 50];
    let compressed = huffman.compress(&input).unwrap();
    let decompressed = huffman.decompress(&compressed).unwrap();
    assert_eq!(decompressed, input);
}

#[test]
fn huffman_test_roundtrip_alternating() {
    let huffman = Huffman::new();
    let input: Vec<u8> = (0..100).map(|i| if i % 2 == 0 { 0xAA } else { 0xBB }).collect();
    let compressed = huffman.compress(&input).unwrap();
    let decompressed = huffman.decompress(&compressed).unwrap();
    assert_eq!(decompressed, input);
}

#[test]
fn test_build_codes_single_symbol() {
    let node = HuffmanNode::new_leaf(b'x', 10);
    let mut codes = HashMap::new();
    node.build_codes(Vec::new(), &mut codes);
    assert!(codes.contains_key(&b'x'));
    assert!(!codes.get(&b'x').unwrap().is_empty());
}

#[test]
fn test_node_partial_ord() {
    let node1 = HuffmanNode::new_leaf(b'a', 10);
    let node2 = HuffmanNode::new_leaf(b'b', 5);
    assert!(node1.partial_cmp(&node2).is_some());
}

fn leaf(byte: u8, frequency: usize) -> HuffmanNode {
    HuffmanNode::new_leaf(byte, frequency)
}

fn join(left: HuffmanNode, right: HuffmanNode) -> HuffmanNode {
    HuffmanNode::new_internal(left, right)
}

#[test]
fn huffman_compress_exact_bytes() {
    let huffman = Huffman::new();
    // One symbol: a leaf header, both fields 1, and one zero bit.
    assert_eq!(
        huffman.compress(&[0x42]).unwrap(),
        vec![1, 0x42, 1, 0, 0, 0, 1, 0, 0, 0, 0]
    );
    // Two symbols of equal weight: the first of the two goes left.
    assert_eq!(
        huffman.compress(b"ab").unwrap(),
        vec![0, 1, 97, 1, 98, 2, 0, 0, 0, 2, 0, 0, 0, 0x40]
    );
    // The lighter symbol goes left and gets the bit 0.
    assert_eq!(
        huffman.compress(b"aab").unwrap(),
        vec![0, 1, 98, 1, 97, 3, 0, 0, 0, 3, 0, 0, 0, 0xC0]
    );
}

#[test]
fn huffman_single_symbol_code_is_one_bit() {
    let huffman = Huffman::new();
    let input = vec![0x5A; 100];
    let compressed = huffman.compress(&input).unwrap();
    assert!(compressed.len() < input.len());
    // Header of a leaf, original length 100, 100 code bits, 13 packed bytes.
    assert_eq!(compressed.len(), 2 + 4 + 4 + 13);
    assert_eq!(&compressed[..10], &[1, 0x5A, 100, 0, 0, 0, 100, 0, 0, 0]);
    assert!(compressed[10..].iter().all(|&b| b == 0));
    assert_eq!(huffman.decompress(&compressed).unwrap(), input);

    let mut codes = HashMap::new();
    leaf(0x5A, 100).build_codes(Vec::new(), &mut codes);
    assert_eq!(codes.get(&0x5A), Some(&vec![false]));
    assert_eq!(codes.len(), 1);
}

#[test]
fn huffman_one_run_takes_ten_bytes_and_a_bit_for_each_byte() {
    let huffman = Huffman::new();
    for n in [1usize, 7, 8, 9, 12, 13, 64, 1000] {
        let compressed = huffman.compress(&vec![3u8; n]).unwrap();
        assert_eq!(compressed.len(), 10 + (n + 7) / 8);
    }
}

#[test]
fn huffman_frequency_table_counts_every_byte() {
    let freq = build_frequency_table(b"abracadabra");
    assert_eq!(freq.len(), 5);
    assert_eq!(freq.get(&b'a'), Some(&5));
    assert_eq!(freq.get(&b'b'), Some(&2));
    assert_eq!(freq.get(&b'r'), Some(&2));
    assert_eq!(freq.get(&b'c'), Some(&1));
    assert_eq!(freq.get(&b'd'), Some(&1));
    assert_eq!(freq.get(&b'z'), None);
    let total: usize = freq.values().sum();
    assert_eq!(total, 11);
}

#[test]
fn huffman_tree_merges_the_two_lightest_first() {
    let mut freq = HashMap::new();
    freq.insert(b'a', 5usize);
    freq.insert(b'b', 2);
    freq.insert(b'c', 1);
    let tree = build_huffman_tree(&freq).unwrap();
    // c (1) and b (2) are merged first, then their join (3) with a (5).
    let expected = join(join(leaf(b'c', 1), leaf(b'b', 2)), leaf(b'a', 5));
    assert_eq!(tree, expected);
    assert_eq!(tree.frequency, 8);
}

#[test]
fn huffman_tree_takes_the_first_of_equal_weights() {
    let mut freq = HashMap::new();
    freq.insert(b'a', 1usize);
    freq.insert(b'b', 1);
    freq.insert(b'c', 1);
    freq.insert(b'd', 1);
    let tree = build_huffman_tree(&freq).unwrap();
    let expected = join(join(leaf(b'a', 1), leaf(b'b', 1)), join(leaf(b'c', 1), leaf(b'd', 1)));
    assert_eq!(tree, expected);
}

#[test]
fn huffman_tree_holds_each_byte_once() {
    let input: Vec<u8> = (0..=255u8).chain(0..100u8).chain(0..10u8).collect();
    let freq = build_frequency_table(&input);
    let tree = build_huffman_tree(&freq).unwrap();
    assert_eq!(tree.frequency, input.len());
    let mut header = Vec::new();
    serialize_tree(&tree, &mut header);
    // 256 leaves of two bytes and 255 internal nodes of one byte.
    assert_eq!(header.len(), 2 * 256 + 255);
    let mut codes = HashMap::new();
    tree.build_codes(Vec::new(), &mut codes);
    assert_eq!(codes.len(), 256);
    assert!(codes.values().all(|code| !code.is_empty()));
}

#[test]
fn huffman_codes_follow_the_branches() {
    let tree = join(join(leaf(b'c', 1), leaf(b'b', 2)), leaf(b'a', 5));
    let mut codes = HashMap::new();
    tree.build_codes(Vec::new(), &mut codes);
    assert_eq!(codes.get(&b'c'), Some(&vec![false, false]));
    assert_eq!(codes.get(&b'b'), Some(&vec![false, true]));
    assert_eq!(codes.get(&b'a'), Some(&vec![true]));
    assert_eq!(codes.len(), 3);
}

#[test]
fn huffman_codes_keep_other_entries_and_replace_own() {
    let tree = join(leaf(1, 1), leaf(2, 1));
    let mut codes = HashMap::new();
    codes.insert(9u8, vec![true, true, true]);
    codes.insert(1u8, vec![true, true, false]);
    tree.build_codes(vec![true], &mut codes);
    assert_eq!(codes.get(&9), Some(&vec![true, true, true]));
    assert_eq!(codes.get(&1), Some(&vec![true, false]));
    assert_eq!(codes.get(&2), Some(&vec![true, true]));
    // A byte on two leaves gets the code of the rightmost one.
    let tree = join(leaf(7, 1), join(leaf(8, 1), leaf(7, 1)));
    let mut codes = HashMap::new();
    tree.build_codes(Vec::new(), &mut codes);
    assert_eq!(codes.get(&7), Some(&vec![true, true]));
}

#[test]
fn huffman_tree_header_is_pre_order() {
    let tree = join(join(leaf(b'c', 1), leaf(b'b', 2)), leaf(b'a', 5));
    let mut header = vec![0xEE];
    serialize_tree(&tree, &mut header);
    assert_eq!(header, vec![0xEE, 0, 0, 1, b'c', 1, b'b', 1, b'a']);

    let mut pos = 1;
    let back = deserialize_tree(&header, &mut pos).unwrap();
    assert_eq!(pos, header.len());
    assert_eq!(back, join(join(leaf(b'c', 0), leaf(b'b', 0)), leaf(b'a', 0)));
}

#[test]
fn huffman_deserialize_reports_where_it_stopped() {
    // Any marker but 1 opens an internal node.
    let data = [7, 1, 10, 1, 20, 99];
    let mut pos = 0;
    assert_eq!(deserialize_tree(&data, &mut pos), Ok(join(leaf(10, 0), leaf(20, 0))));
    assert_eq!(pos, 5);

    let data = [0, 1, 10, 1];
    let mut pos = 0;
    assert_eq!(deserialize_tree(&data, &mut pos), Err(CompressionError::CorruptedData));
    assert_eq!(pos, 4);

    let data = [0, 1, 10];
    let mut pos = 0;
    assert_eq!(deserialize_tree(&data, &mut pos), Err(CompressionError::CorruptedData));
    assert_eq!(pos, 3);

    let mut pos = 9;
    assert_eq!(deserialize_tree(&data, &mut pos), Err(CompressionError::CorruptedData));
    assert_eq!(pos, 9);
}

#[test]
fn huffman_node_order_is_by_weight_reversed() {
    let heavy = leaf(b'a', 10);
    let light = leaf(b'b', 5);
    let same = leaf(b'c', 10);
    assert!(light > heavy);
    assert!(heavy < light);
    assert!(heavy <= same);
    assert!(heavy >= same);
    assert_eq!(heavy.partial_cmp(&light), Some(std::cmp::Ordering::Less));
    assert_eq!(light.partial_cmp(&heavy), Some(std::cmp::Ordering::Greater));
    assert_eq!(heavy.partial_cmp(&same), Some(std::cmp::Ordering::Equal));
}

#[test]
fn huffman_node_clone_is_deep() {
    let tree = join(join(leaf(b'c', 1), leaf(b'b', 2)), leaf(b'a', 5));
    let copy = tree.clone();
    assert_eq!(copy, tree);
    assert_eq!(copy.data.clone(), tree.data);
}

#[test]
fn huffman_bits_pack_most_significant_first() {
    assert_eq!(bits_to_bytes(&[]), Vec::<u8>::new());
    assert_eq!(bits_to_bytes(&[true]), vec![0x80]);
    assert_eq!(bits_to_bytes(&[false, false, false, false, false, false, false, true]), vec![1]);
    assert_eq!(
        bits_to_bytes(&[true, true, true, true, true, true, true, true, true]),
        vec![0xFF, 0x80]
    );
    assert_eq!(bytes_to_bits(&[0x80, 0x01], 16), {
        let mut bits = vec![false; 16];
        bits[0] = true;
        bits[15] = true;
        bits
    });
    // Fewer bits than asked for where the bytes run out.
    assert_eq!(bytes_to_bits(&[0xFF], 100), vec![true; 8]);
    assert_eq!(bytes_to_bits(&[0xFF], 0), Vec::<bool>::new());
    assert_eq!(bytes_to_bits(&[], 5), Vec::<bool>::new());
}

#[test]
fn huffman_bits_roundtrip() {
    let mut state: u32 = 7;
    for n in 0..70usize {
        let mut bits = Vec::new();
        for _ in 0..n {
            state = state.wrapping_mul(1103515245).wrapping_add(12345);
            bits.push((state >> 16) & 1 == 1);
        }
        let bytes = bits_to_bytes(&bits);
        assert_eq!(bytes.len(), (n + 7) / 8);
        assert_eq!(bytes_to_bits(&bytes, n), bits);
    }
}

#[test]
fn huffman_decompress_exact_payloads() {
    let huffman = Huffman::new();
    assert_eq!(
        huffman.decompress(&[0, 1, 98, 1, 97, 3, 0, 0, 0, 3, 0, 0, 0, 0xC0]).unwrap(),
        b"aab"
    );
    assert_eq!(
        huffman.decompress(&[1, 0x42, 1, 0, 0, 0, 1, 0, 0, 0, 0]).unwrap(),
        vec![0x42]
    );
    // A single leaf gives its byte as often as declared once there is a bit.
    assert_eq!(
        huffman.decompress(&[1, 0x42, 3, 0, 0, 0, 1, 0, 0, 0, 0]).unwrap(),
        vec![0x42; 3]
    );
}

#[test]
fn huffman_decompress_rejects_corrupted_payloads() {
    let huffman = Huffman::new();
    let bad = Err(CompressionError::CorruptedData);
    // The tree is cut short.
    assert_eq!(huffman.decompress(&[0]), bad);
    assert_eq!(huffman.decompress(&[0, 1, 98, 1]), bad);
    // The length fields are not complete.
    assert_eq!(huffman.decompress(&[1, 0x42, 1, 0, 0, 0, 1, 0, 0]), bad);
    // Fewer code bits than the declared length needs.
    assert_eq!(huffman.decompress(&[0, 1, 98, 1, 97, 3, 0, 0, 0, 2, 0, 0, 0, 0xC0]), bad);
    // The bit count names more bits than the payload holds.
    assert_eq!(huffman.decompress(&[0, 1, 98, 1, 97, 9, 0, 0, 0, 9, 0, 0, 0, 0xC0]), bad);
    // A single leaf and no bit at all: one byte comes out, two are declared.
    assert_eq!(huffman.decompress(&[1, 0x42, 2, 0, 0, 0, 0, 0, 0, 0]), bad);
    // A declared length of zero with a complete header decodes to nothing.
    assert_eq!(huffman.decompress(&[1, 0x42, 0, 0, 0, 0, 0, 0, 0, 0]), Ok(vec![]));
}

#[test]
fn huffman_roundtrip_pseudo_random() {
    let huffman = Huffman::new();
    let mut state: u32 = 2024;
    let mut input = Vec::new();
    for i in 0..5000u32 {
        state = state.wrapping_mul(1103515245).wrapping_add(12345);
        let spread = 1 + (i / 500);
        input.push(((state >> 16) % (spread * 25)) as u8);
    }
    let compressed = huffman.compress(&input).unwrap();
    assert_eq!(huffman.decompress(&compressed).unwrap(), input);
}
