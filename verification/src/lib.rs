//! Lossless byte-stream compression codecs behind one compress/decompress
//! contract: run-length encoding, a windowed Lempel-Ziv matcher and Huffman
//! coding with a self-describing tree header.
//!
//! Every codec is described by a pair of specification functions over
//! `Seq<u8>`; the executable `compress` and `decompress` are proved to compute
//! exactly those functions, and the round-trip laws are proved over them.

pub mod error;
pub mod framing;
pub mod huffman;
pub mod lz77;
pub mod rle;
pub mod traits;

pub use error::{CompressionError, Result};
pub use huffman::Huffman;
pub use lz77::Lz77;
pub use rle::Rle;
pub use traits::{Codec, Compressor, Decompressor};
