//! Huffman coding with a serialized tree header.

pub mod bits;
pub mod codec;
pub mod codes;
pub mod forest;
pub mod frequency;
pub mod node;
pub mod order;
pub mod serial;

pub use bits::{bits_to_bytes, bytes_to_bits};
pub use codec::Huffman;
pub use forest::build_huffman_tree;
pub use frequency::build_frequency_table;
pub use node::{HuffmanNode, NodeData};
pub use serial::{deserialize_tree, serialize_tree};
