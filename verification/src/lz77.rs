//! A windowed Lempel-Ziv matcher with fixed-size tokens.

pub mod codec;
pub mod matching;
pub mod token;

pub use codec::{Lz77, DEFAULT_LOOKAHEAD_SIZE, DEFAULT_WINDOW_SIZE};
pub use matching::MIN_MATCH_LENGTH;
pub use token::Token;
