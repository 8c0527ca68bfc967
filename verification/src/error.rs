//! The error type shared by all codecs.

use vstd::prelude::*;
use vstd::string::StringExecFns;

verus! {

/// Why a compress or decompress call failed.
#[derive(Debug, PartialEq, Eq)]
pub enum CompressionError {
    /// The input cannot be used for the requested operation.
    InvalidInput(String),
    /// A decode failure that carries a description.
    DecompressionError(String),
    /// The caller's output buffer cannot hold the result.
    BufferTooSmall,
    /// The framing at the start of a buffer is malformed.
    InvalidHeader,
    /// A framing or validation rule of the format is violated.
    CorruptedData,
}

/// The result of a codec operation.
pub type Result<T> = std::result::Result<T, CompressionError>;

impl Clone for CompressionError {
    /// The same kind of error with the same description.
    fn clone(&self) -> (copy: Self)
        ensures
            copy == *self,
    {
        match self {
            CompressionError::InvalidInput(msg) => CompressionError::InvalidInput(msg.clone()),
            CompressionError::DecompressionError(msg) => CompressionError::DecompressionError(
                msg.clone(),
            ),
            CompressionError::BufferTooSmall => CompressionError::BufferTooSmall,
            CompressionError::InvalidHeader => CompressionError::InvalidHeader,
            CompressionError::CorruptedData => CompressionError::CorruptedData,
        }
    }
}

impl CompressionError {
    /// The text of the message that describes `self`.
    pub open spec fn message(self) -> Seq<char> {
        match self {
            CompressionError::InvalidInput(msg) => "Invalid input: "@ + msg@,
            CompressionError::DecompressionError(msg) => "Decompression error: "@ + msg@,
            CompressionError::BufferTooSmall => "Buffer too small for output"@,
            CompressionError::InvalidHeader => "Invalid compression header"@,
            CompressionError::CorruptedData => "Corrupted compressed data"@,
        }
    }

    /// Renders the error as a human-readable message.
    pub fn to_string(&self) -> (text: String)
        ensures
            text@ == self.message(),
    {
        match self {
            CompressionError::InvalidInput(msg) => String::from_str("Invalid input: ").concat(
                msg.as_str(),
            ),
            CompressionError::DecompressionError(msg) => String::from_str(
                "Decompression error: ",
            ).concat(msg.as_str()),
            CompressionError::BufferTooSmall => String::from_str("Buffer too small for output"),
            CompressionError::InvalidHeader => String::from_str("Invalid compression header"),
            CompressionError::CorruptedData => String::from_str("Corrupted compressed data"),
        }
    }
}

} // verus!
