//! The capability traits that every codec implements.

use crate::error::Result;
use vstd::prelude::*;

verus! {

/// A compression algorithm.
pub trait Compressor {
    /// Compresses `input` and returns the compressed bytes.
    fn compress(&self, input: &[u8]) -> Result<Vec<u8>>;

    /// The name of this compression algorithm.
    fn name(&self) -> &'static str;
}

/// A decompression algorithm.
pub trait Decompressor {
    /// Decompresses `input` and returns the original bytes.
    fn decompress(&self, input: &[u8]) -> Result<Vec<u8>>;

    /// The name of this decompression algorithm.
    fn name(&self) -> &'static str;
}

/// A type that can both compress and decompress.
pub trait Codec: Compressor + Decompressor {

}

impl<T: Compressor + Decompressor> Codec for T {

}

} // verus!
