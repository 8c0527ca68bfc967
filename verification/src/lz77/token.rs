//! The four-byte token: a literal, or a back-reference followed by a literal.

use vstd::prelude::*;

verus! {

/// One record of the token stream.
///
/// `length == 0` stands for the literal byte `next` alone. Otherwise the
/// token stands for `length` bytes that are copied from `offset` positions
/// behind the end of the output, and `next` follows them.
#[derive(Debug, Clone, Copy, PartialEq, Eq)]
pub struct Token {
    pub offset: u16,
    pub length: u8,
    pub next: u8,
}

/// The four bytes of a token: the offset, least significant byte first, the
/// length and the literal.
pub open spec fn token_bytes(token: Token) -> Seq<u8> {
    seq![(token.offset % 256) as u8, (token.offset / 256) as u8, token.length, token.next]
}

/// The token whose four bytes stand in `data` at `pos`.
pub open spec fn token_at(data: Seq<u8>, pos: int) -> Token {
    Token {
        offset: (data[pos] + 256 * data[pos + 1]) as u16,
        length: data[pos + 2],
        next: data[pos + 3],
    }
}

/// Reading the four bytes of a token gives the token back.
pub proof fn lemma_token_round_trip(data: Seq<u8>, pos: int, token: Token)
    requires
        0 <= pos,
        pos + 4 <= data.len(),
        data.subrange(pos, pos + 4) == token_bytes(token),
    ensures
        token_at(data, pos) == token,
{
    let bytes = token_bytes(token);
    assert(data[pos] == bytes[0]);
    assert(data[pos + 1] == bytes[1]);
    assert(data[pos + 2] == bytes[2]);
    assert(data[pos + 3] == bytes[3]);
}

impl Token {
    /// The token for the literal `byte`.
    pub fn new_literal(byte: u8) -> (token: Self)
        ensures
            token == (Token { offset: 0, length: 0, next: byte }),
    {
        Self { offset: 0, length: 0, next: byte }
    }

    /// The token for a back-reference followed by the literal `next`.
    pub fn new_match(offset: u16, length: u8, next: u8) -> (token: Self)
        ensures
            token == (Token { offset, length, next }),
    {
        Self { offset, length, next }
    }

    /// The four bytes of the token.
    pub fn to_bytes(self) -> (bytes: [u8; 4])
        ensures
            bytes@ == token_bytes(self),
    {
        let low = (self.offset % 256) as u8;
        let high = (self.offset / 256) as u8;
        let bytes = [low, high, self.length, self.next];
        proof {
            assert(bytes@ =~= token_bytes(self));
        }
        bytes
    }

    /// The token that the first four bytes of `bytes` stand for; `None` where
    /// `bytes` holds fewer than four.
    pub fn from_bytes(bytes: &[u8]) -> (token: Option<Self>)
        ensures
            token == if bytes@.len() < 4 {
                None
            } else {
                Some(token_at(bytes@, 0))
            },
    {
        if bytes.len() < 4 {
            return None;
        }
        let offset = bytes[0] as u16 + 256 * (bytes[1] as u16);
        Some(Self { offset, length: bytes[2], next: bytes[3] })
    }
}

} // verus!
