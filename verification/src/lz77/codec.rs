//! The LZ77 codec: a 32-bit little-endian original length, then the tokens.
//!
//! The empty input is the empty payload.

use crate::error::{CompressionError, Result};
use crate::framing::{
    lemma_u32_le_round_trip, length_field, push_length, read_u32_le, u32_from_le, u32_le_bytes,
};
use crate::lz77::matching::{
    is_best_match, lemma_longest_match, lemma_match_length, longest_match, match_length,
    window_reach, MIN_MATCH_LENGTH,
};
use crate::lz77::token::{lemma_token_round_trip, token_at, token_bytes, Token};
use crate::traits::{Compressor, Decompressor};
use vstd::prelude::*;

verus! {

/// The window size of a codec made by `Lz77::new`.
pub const DEFAULT_WINDOW_SIZE: usize = 4096;

/// The lookahead size of a codec made by `Lz77::new`.
pub const DEFAULT_LOOKAHEAD_SIZE: usize = 18;

/// The offset field for an offset: the offset itself, or `u16::MAX` where it
/// does not fit.
pub open spec fn offset_field(offset: nat) -> u16 {
    if offset <= u16::MAX {
        offset as u16
    } else {
        u16::MAX
    }
}

/// The length field for a match length: the length itself, or `u8::MAX` where
/// it does not fit.
pub open spec fn match_length_field(length: nat) -> u8 {
    if length <= u8::MAX {
        length as u8
    } else {
        u8::MAX
    }
}

/// The token that the encoder writes at `position`, and the position at which
/// it goes on.
///
/// Where the best match has at least `MIN_MATCH_LENGTH` bytes, the token names
/// it and the byte behind it (0 where the match ends the data), and the
/// encoder goes on behind that byte. Otherwise the token is the literal at
/// `position`.
pub open spec fn next_token(data: Seq<u8>, position: int, window: nat, lookahead: nat) -> (
    Token,
    int,
) {
    let (offset, length) = longest_match(
        data,
        position,
        lookahead,
        window_reach(window, position as nat),
    );
    if length >= MIN_MATCH_LENGTH {
        let behind = position + length;
        if behind < data.len() {
            (
                Token {
                    offset: offset_field(offset),
                    length: match_length_field(length),
                    next: data[behind],
                },
                behind + 1,
            )
        } else {
            (
                Token {
                    offset: offset_field(offset),
                    length: match_length_field(length),
                    next: 0,
                },
                behind,
            )
        }
    } else {
        (Token { offset: 0, length: 0, next: data[position] }, position + 1)
    }
}

/// The tokens that the encoder writes for `data` from `position` on.
pub open spec fn tokens_from(data: Seq<u8>, position: int, window: nat, lookahead: nat) -> Seq<
    Token,
>
    decreases data.len() - position,
{
    if position < 0 || position >= data.len() {
        Seq::empty()
    } else {
        let (token, next) = next_token(data, position, window, lookahead);
        proof {
            lemma_next_token_advances(data, position, window, lookahead);
        }
        seq![token] + tokens_from(data, next, window, lookahead)
    }
}

/// From `position` on, every match that the encoder finds has an offset that
/// fits in the offset field and a length that fits in the length field, so
/// that no token is written with a field cut down to its greatest value.
pub open spec fn fields_fit(data: Seq<u8>, position: int, window: nat, lookahead: nat) -> bool
    decreases data.len() - position,
{
    if position < 0 || position >= data.len() {
        true
    } else {
        let (offset, length) = longest_match(
            data,
            position,
            lookahead,
            window_reach(window, position as nat),
        );
        proof {
            lemma_next_token_advances(data, position, window, lookahead);
        }
        &&& length >= MIN_MATCH_LENGTH ==> offset <= u16::MAX && length <= u8::MAX
        &&& fields_fit(data, next_token(data, position, window, lookahead).1, window, lookahead)
    }
}

/// The bytes of a token stream.
pub open spec fn tokens_bytes(tokens: Seq<Token>) -> Seq<u8>
    decreases tokens.len(),
{
    if tokens.len() == 0 {
        Seq::empty()
    } else {
        tokens_bytes(tokens.drop_last()) + token_bytes(tokens.last())
    }
}

/// The tokens that `data` holds, four bytes each; bytes behind the last
/// complete token are left out.
pub open spec fn parse_tokens(data: Seq<u8>) -> Seq<Token> {
    Seq::new(data.len() / 4, |k: int| token_at(data, 4 * k))
}

/// The compressed form of `data`.
pub open spec fn lz77_encode(data: Seq<u8>, window: nat, lookahead: nat) -> Seq<u8> {
    if data.len() == 0 {
        Seq::empty()
    } else {
        u32_le_bytes(length_field(data.len())) + tokens_bytes(
            tokens_from(data, 0, window, lookahead),
        )
    }
}

/// `output` with `count` more bytes, each a copy of the byte `offset`
/// positions behind the end at the time it is added. With `count > offset`
/// the copy reads bytes that it wrote itself.
pub open spec fn copy_back(output: Seq<u8>, offset: int, count: nat) -> Seq<u8>
    decreases count,
{
    if count == 0 {
        output
    } else {
        copy_back(output.push(output[output.len() - offset]), offset, (count - 1) as nat)
    }
}

/// How many bytes a match of `length` bytes adds to an output of `have` bytes
/// that may grow to `total` bytes.
pub open spec fn copy_count(length: nat, have: nat, total: nat) -> nat {
    if have >= total {
        0
    } else if length <= total - have {
        length
    } else {
        (total - have) as nat
    }
}

/// The output after one token, or `None` where the token is a match whose
/// offset is zero or reaches back before the start of the output.
///
/// A match is copied as far as the declared length `total` allows; the
/// literal is added unless the output has reached `total`.
pub open spec fn apply_token(output: Seq<u8>, token: Token, total: nat) -> Option<Seq<u8>> {
    if token.length != 0 && (token.offset == 0 || token.offset > output.len()) {
        None
    } else {
        let copied = if token.length != 0 {
            copy_back(
                output,
                token.offset as int,
                copy_count(token.length as nat, output.len(), total),
            )
        } else {
            output
        };
        Some(
            if copied.len() < total {
                copied.push(token.next)
            } else {
                copied
            },
        )
    }
}

/// The output after all of `tokens`, or `None` where one of them cannot be
/// applied.
pub open spec fn replay(tokens: Seq<Token>, output: Seq<u8>, total: nat) -> Option<Seq<u8>>
    decreases tokens.len(),
{
    if tokens.len() == 0 {
        Some(output)
    } else {
        match apply_token(output, tokens[0], total) {
            None => None,
            Some(next) => replay(tokens.skip(1), next, total),
        }
    }
}

/// What `input` decompresses to, or `None` where it is corrupted: where it is
/// shorter than the length field, the tokens do not fill whole groups of four
/// bytes, a back-reference is invalid, or the tokens do not give exactly as
/// many bytes as the length field declares.
pub open spec fn lz77_decode(input: Seq<u8>) -> Option<Seq<u8>> {
    if input.len() == 0 {
        Some(Seq::empty())
    } else if input.len() < 4 || (input.len() - 4) % 4 != 0 {
        None
    } else {
        let total = u32_from_le(input, 0) as nat;
        match replay(parse_tokens(input.skip(4)), Seq::empty(), total) {
            None => None,
            Some(output) => if output.len() == total {
                Some(output)
            } else {
                None
            },
        }
    }
}

/// The encoder always moves forward and never past the end of the data.
pub proof fn lemma_next_token_advances(data: Seq<u8>, position: int, window: nat, lookahead: nat)
    requires
        0 <= position < data.len(),
    ensures
        position < next_token(data, position, window, lookahead).1 <= data.len(),
{
    let reach = window_reach(window, position as nat);
    lemma_longest_match(data, position, lookahead, reach);
    let (offset, length) = longest_match(data, position, lookahead, reach);
    if length != 0 {
        lemma_match_length(data, position - offset, position, lookahead);
    }
}

/// A token stream takes four bytes for each token.
pub proof fn lemma_tokens_bytes_len(tokens: Seq<Token>)
    ensures
        tokens_bytes(tokens).len() == 4 * tokens.len(),
    decreases tokens.len(),
{
    if tokens.len() > 0 {
        lemma_tokens_bytes_len(tokens.drop_last());
    }
}

/// Token `k` of a stream stands at byte `4 * k`.
pub proof fn lemma_tokens_bytes_at(tokens: Seq<Token>, k: int)
    requires
        0 <= k < tokens.len(),
    ensures
        tokens_bytes(tokens).len() == 4 * tokens.len(),
        tokens_bytes(tokens).subrange(4 * k, 4 * k + 4) == token_bytes(tokens[k]),
    decreases tokens.len(),
{
    lemma_tokens_bytes_len(tokens);
    lemma_tokens_bytes_len(tokens.drop_last());
    let bytes = tokens_bytes(tokens);
    if k == tokens.len() - 1 {
        assert(bytes.subrange(4 * k, 4 * k + 4) =~= token_bytes(tokens[k]));
    } else {
        lemma_tokens_bytes_at(tokens.drop_last(), k);
        assert(bytes.subrange(4 * k, 4 * k + 4) =~= tokens_bytes(tokens.drop_last()).subrange(
            4 * k,
            4 * k + 4,
        ));
    }
}

/// Reading a token stream gives the tokens back.
pub proof fn lemma_parse_tokens_round_trip(tokens: Seq<Token>)
    ensures
        parse_tokens(tokens_bytes(tokens)) == tokens,
{
    let bytes = tokens_bytes(tokens);
    lemma_tokens_bytes_len(tokens);
    assert forall|k: int| 0 <= k < tokens.len() implies parse_tokens(bytes)[k] == tokens[k] by {
        lemma_tokens_bytes_at(tokens, k);
        lemma_token_round_trip(bytes, 4 * k, tokens[k]);
    }
    assert(parse_tokens(bytes) =~= tokens);
}

/// Copying a run that equals the bytes ahead writes exactly those bytes.
pub proof fn lemma_copy_back_of_match(data: Seq<u8>, position: int, offset: int, count: nat)
    requires
        1 <= offset <= position,
        position + count <= data.len(),
        forall|k: int| 0 <= k < count ==> data[position - offset + k] == #[trigger] data[position + k],
    ensures
        copy_back(data.take(position), offset, count) == data.take(position + count),
    decreases count,
{
    if count > 0 {
        let output = data.take(position);
        assert(data[position - offset + 0] == data[position + 0]);
        assert(output.push(output[output.len() - offset]) =~= data.take(position + 1));
        assert forall|k: int| 0 <= k < count - 1 implies data[position + 1 - offset + k]
            == #[trigger] data[position + 1 + k] by {
            assert(data[position - offset + (k + 1)] == data[position + (k + 1)]);
        }
        lemma_copy_back_of_match(data, position + 1, offset, (count - 1) as nat);
    }
}

/// With a window of at most `u16::MAX` bytes and a lookahead of at most
/// `u8::MAX` bytes, as with the default ones, every offset and every length
/// fits in its field.
pub proof fn lemma_fields_fit(data: Seq<u8>, position: int, window: nat, lookahead: nat)
    requires
        0 <= position <= data.len(),
        window <= u16::MAX,
        lookahead <= u8::MAX,
    ensures
        fields_fit(data, position, window, lookahead),
    decreases data.len() - position,
{
    if position < data.len() {
        lemma_next_token_advances(data, position, window, lookahead);
        let reach = window_reach(window, position as nat);
        lemma_longest_match(data, position, lookahead, reach);
        let (offset, length) = longest_match(data, position, lookahead, reach);
        if length != 0 {
            lemma_match_length(data, position - offset, position, lookahead);
        }
        lemma_fields_fit(
            data,
            next_token(data, position, window, lookahead).1,
            window,
            lookahead,
        );
    }
}

/// Replaying the tokens that the encoder writes from `position` on, after the
/// first `position` bytes of the data, completes the data: every token that
/// the encoder writes is a valid one, as long as its fields fit.
pub proof fn lemma_replay_completes(data: Seq<u8>, position: int, window: nat, lookahead: nat)
    requires
        0 <= position <= data.len(),
        fields_fit(data, position, window, lookahead),
    ensures
        replay(tokens_from(data, position, window, lookahead), data.take(position), data.len())
            == Some(data),
    decreases data.len() - position,
{
    let total = data.len();
    let output = data.take(position);
    if position >= data.len() {
        assert(output =~= data);
    } else {
        let (token, next) = next_token(data, position, window, lookahead);
        let tokens = tokens_from(data, position, window, lookahead);
        let rest = tokens_from(data, next, window, lookahead);
        assert(tokens[0] == token);
        assert(tokens.skip(1) =~= rest);
        lemma_next_token_advances(data, position, window, lookahead);
        let reach = window_reach(window, position as nat);
        lemma_longest_match(data, position, lookahead, reach);
        let (offset, length) = longest_match(data, position, lookahead, reach);
        if length >= MIN_MATCH_LENGTH {
            lemma_match_length(data, position - offset, position, lookahead);
            lemma_copy_back_of_match(data, position, offset as int, length);
            let copied = data.take(position + length);
            assert(copy_count(length, output.len(), total) == length);
            if position + length < data.len() {
                assert(copied.push(data[position + length]) =~= data.take(next));
            }
            assert(apply_token(output, token, total) == Some(data.take(next)));
        } else {
            assert(output.push(data[position]) =~= data.take(next));
            assert(apply_token(output, token, total) == Some(data.take(next)));
        }
        lemma_replay_completes(data, next, window, lookahead);
    }
}

/// Decompressing what was compressed gives the data back, for all data whose
/// length fits in the length field and whose matches fit in the fields of
/// their tokens.
pub proof fn lemma_lz77_round_trip(data: Seq<u8>, window: nat, lookahead: nat)
    requires
        data.len() <= u32::MAX,
        fields_fit(data, 0, window, lookahead),
    ensures
        lz77_decode(lz77_encode(data, window, lookahead)) == Some(data),
{
    if data.len() == 0 {
        assert(data =~= Seq::<u8>::empty());
    } else {
        let tokens = tokens_from(data, 0, window, lookahead);
        let field = u32_le_bytes(length_field(data.len()));
        let payload = lz77_encode(data, window, lookahead);
        lemma_tokens_bytes_len(tokens);
        assert(payload.subrange(0, 4) =~= field);
        lemma_u32_le_round_trip(payload, 0, length_field(data.len()));
        assert(payload.skip(4) =~= tokens_bytes(tokens));
        lemma_parse_tokens_round_trip(tokens);
        assert(data.take(0) =~= Seq::<u8>::empty());
        lemma_replay_completes(data, 0, window, lookahead);
    }
}

/// Decompressing what was compressed gives the data back under every window
/// of at most `u16::MAX` bytes and every lookahead of at most `u8::MAX` bytes,
/// for all data whose length fits in the length field.
pub proof fn lemma_lz77_round_trip_within_fields(data: Seq<u8>, window: nat, lookahead: nat)
    requires
        data.len() <= u32::MAX,
        window <= u16::MAX,
        lookahead <= u8::MAX,
    ensures
        lz77_decode(lz77_encode(data, window, lookahead)) == Some(data),
{
    lemma_fields_fit(data, 0, window, lookahead);
    lemma_lz77_round_trip(data, window, lookahead);
}

/// Every token stands for at least one byte of the data, so the encoder
/// writes at most one token for each byte that is left.
pub proof fn lemma_tokens_from_len(data: Seq<u8>, position: int, window: nat, lookahead: nat)
    requires
        0 <= position <= data.len(),
    ensures
        tokens_from(data, position, window, lookahead).len() <= data.len() - position,
    decreases data.len() - position,
{
    if position < data.len() {
        lemma_next_token_advances(data, position, window, lookahead);
        lemma_tokens_from_len(
            data,
            next_token(data, position, window, lookahead).1,
            window,
            lookahead,
        );
    }
}

/// A payload is a length field and whole tokens, and it never takes more than
/// four bytes for the field and four for each byte of the data.
pub proof fn lemma_lz77_encode_len(data: Seq<u8>, window: nat, lookahead: nat)
    requires
        data.len() > 0,
    ensures
        lz77_encode(data, window, lookahead).len() == 4 + 4 * tokens_from(
            data,
            0,
            window,
            lookahead,
        ).len(),
        lz77_encode(data, window, lookahead).len() <= 4 + 4 * data.len(),
{
    lemma_tokens_bytes_len(tokens_from(data, 0, window, lookahead));
    lemma_tokens_from_len(data, 0, window, lookahead);
}

/// Replaying two token streams one after the other is replaying the first and
/// then, from its output, the second.
pub proof fn lemma_replay_append(
    first: Seq<Token>,
    second: Seq<Token>,
    output: Seq<u8>,
    total: nat,
)
    ensures
        replay(first + second, output, total) == match replay(first, output, total) {
            None => None,
            Some(middle) => replay(second, middle, total),
        },
    decreases first.len(),
{
    if first.len() == 0 {
        assert(first + second =~= second);
    } else {
        assert((first + second)[0] == first[0]);
        assert((first + second).skip(1) =~= first.skip(1) + second);
        match apply_token(output, first[0], total) {
            None => {},
            Some(next) => {
                lemma_replay_append(first.skip(1), second, next, total);
            },
        }
    }
}

/// A match token whose offset is zero, or greater than the length of the
/// output that the tokens before it gave, makes decoding fail.
pub proof fn lemma_invalid_back_reference_fails(input: Seq<u8>, index: int, output: Seq<u8>)
    requires
        input.len() >= 4,
        0 <= index < parse_tokens(input.skip(4)).len(),
        replay(
            parse_tokens(input.skip(4)).take(index),
            Seq::empty(),
            u32_from_le(input, 0) as nat,
        ) == Some(output),
        parse_tokens(input.skip(4))[index].length != 0,
        parse_tokens(input.skip(4))[index].offset == 0 || parse_tokens(
            input.skip(4),
        )[index].offset > output.len(),
    ensures
        lz77_decode(input) is None,
{
    let tokens = parse_tokens(input.skip(4));
    let total = u32_from_le(input, 0) as nat;
    let before = tokens.take(index);
    let after = tokens.skip(index);
    assert(before + after =~= tokens);
    lemma_replay_append(before, after, Seq::empty(), total);
    assert(after[0] == tokens[index]);
}

/// The LZ77 codec with its search window and its lookahead.
#[derive(Debug)]
pub struct Lz77 {
    window_size: usize,
    lookahead_size: usize,
}

impl Clone for Lz77 {
    /// A codec with the same window and lookahead.
    fn clone(&self) -> (copy: Self)
        ensures
            copy == *self,
    {
        Self { window_size: self.window_size, lookahead_size: self.lookahead_size }
    }
}

impl Default for Lz77 {
    /// The codec with the default window and lookahead.
    fn default() -> (codec: Self)
        ensures
            codec.window_size() == DEFAULT_WINDOW_SIZE,
            codec.lookahead_size() == DEFAULT_LOOKAHEAD_SIZE,
    {
        Self::new()
    }
}

impl Lz77 {
    /// The number of bytes behind the cursor in which matches are looked for.
    pub closed spec fn spec_window_size(&self) -> usize {
        self.window_size
    }

    /// The greatest length of a match.
    pub closed spec fn spec_lookahead_size(&self) -> usize {
        self.lookahead_size
    }

    /// The codec with a window of 4096 bytes and a lookahead of 18 bytes.
    #[must_use]
    pub fn new() -> (codec: Self)
        ensures
            codec.window_size() == DEFAULT_WINDOW_SIZE,
            codec.lookahead_size() == DEFAULT_LOOKAHEAD_SIZE,
    {
        Self { window_size: DEFAULT_WINDOW_SIZE, lookahead_size: DEFAULT_LOOKAHEAD_SIZE }
    }

    /// The codec with the given window and lookahead.
    #[must_use]
    pub fn with_config(window_size: usize, lookahead_size: usize) -> (codec: Self)
        ensures
            codec.window_size() == window_size,
            codec.lookahead_size() == lookahead_size,
    {
        Self { window_size, lookahead_size }
    }

    /// The number of bytes behind the cursor in which matches are looked for.
    #[must_use]
    #[verifier::when_used_as_spec(spec_window_size)]
    pub fn window_size(&self) -> (size: usize)
        ensures
            size == self.spec_window_size(),
    {
        self.window_size
    }

    /// The greatest length of a match.
    #[must_use]
    #[verifier::when_used_as_spec(spec_lookahead_size)]
    pub fn lookahead_size(&self) -> (size: usize)
        ensures
            size == self.spec_lookahead_size(),
    {
        self.lookahead_size
    }

    /// Finds the best match for the bytes at `position` within the window, as
    /// `(offset, length)`; `(0, 0)` where no match has `MIN_MATCH_LENGTH`
    /// bytes. Among the longest matches the nearest one is found.
    pub fn find_longest_match(&self, data: &[u8], position: usize) -> (found: (usize, usize))
        ensures
            (found.0 as nat, found.1 as nat) == longest_match(
                data@,
                position as int,
                self.lookahead_size() as nat,
                window_reach(self.window_size() as nat, position as nat),
            ),
            is_best_match(
                data@,
                position as int,
                self.lookahead_size() as nat,
                window_reach(self.window_size() as nat, position as nat),
                found.0 as nat,
                found.1 as nat,
            ),
    {
        proof {
            lemma_longest_match(
                data@,
                position as int,
                self.lookahead_size as nat,
                window_reach(self.window_size as nat, position as nat),
            );
        }
        let search_start = if position > self.window_size {
            position - self.window_size
        } else {
            0
        };
        let remaining = if position < data.len() {
            data.len() - position
        } else {
            0
        };
        let limit = if self.lookahead_size < remaining {
            self.lookahead_size
        } else {
            remaining
        };
        let ghost lookahead = self.lookahead_size as nat;

        let mut best_offset: usize = 0;
        let mut best_length: usize = 0;
        let mut start = position;
        while start > search_start
            invariant
                search_start <= start <= position,
                data@.len() <= usize::MAX,
                position - search_start == window_reach(self.window_size as nat, position as nat),
                lookahead == self.lookahead_size,
                limit <= lookahead,
                limit <= remaining,
                limit == lookahead || limit == remaining,
                remaining == if position < data@.len() {
                    data@.len() - position
                } else {
                    0
                },
                (best_offset as nat, best_length as nat) == longest_match(
                    data@,
                    position as int,
                    lookahead,
                    (position - start) as nat,
                ),
            decreases start,
        {
            start -= 1;
            let mut length: usize = 0;
            while length < limit && data[start + length] == data[position + length]
                invariant
                    start < position,
                    data@.len() <= usize::MAX,
                    length <= limit,
                    limit <= lookahead,
                    limit <= remaining,
                    limit == lookahead || limit == remaining,
                    remaining == if position < data@.len() {
                        data@.len() - position
                    } else {
                        0
                    },
                    match_length(data@, start as int, position as int, lookahead) == length
                        + match_length(
                        data@,
                        start + length,
                        position + length,
                        (lookahead - length) as nat,
                    ),
                decreases limit - length,
            {
                length += 1;
            }
            proof {
                assert(match_length(
                    data@,
                    start + length,
                    position + length,
                    (lookahead - length) as nat,
                ) == 0);
            }
            if length >= MIN_MATCH_LENGTH && length > best_length {
                best_offset = position - start;
                best_length = length;
            }
        }
        (best_offset, best_length)
    }
}

impl Compressor for Lz77 {
    /// Compresses `input`. Never fails.
    fn compress(&self, input: &[u8]) -> (result: Result<Vec<u8>>)
        ensures
            result matches Ok(output) && output@ == lz77_encode(
                input@,
                self.window_size() as nat,
                self.lookahead_size() as nat,
            ),
            input@.len() == 0 ==> (result matches Ok(output) && output@.len() == 0),
    {
        if input.len() == 0 {
            return Ok(Vec::new());
        }
        let ghost window = self.window_size as nat;
        let ghost lookahead = self.lookahead_size as nat;

        let mut tokens: Vec<Token> = Vec::new();
        let mut position: usize = 0;
        while position < input.len()
            invariant
                position <= input@.len(),
                window == self.window_size,
                lookahead == self.lookahead_size,
                tokens@ + tokens_from(input@, position as int, window, lookahead) == tokens_from(
                    input@,
                    0,
                    window,
                    lookahead,
                ),
            decreases input@.len() - position,
        {
            proof {
                lemma_next_token_advances(input@, position as int, window, lookahead);
            }
            let ghost before = tokens@;
            let ghost planned = next_token(input@, position as int, window, lookahead);
            let (offset, length) = self.find_longest_match(input, position);

            if length >= MIN_MATCH_LENGTH {
                let next_pos = position + length;
                let next_byte = if next_pos < input.len() {
                    input[next_pos]
                } else {
                    0
                };
                let token = Token::new_match(
                    if offset <= u16::MAX as usize {
                        offset as u16
                    } else {
                        u16::MAX
                    },
                    if length <= u8::MAX as usize {
                        length as u8
                    } else {
                        u8::MAX
                    },
                    next_byte,
                );
                tokens.push(token);
                position = if next_pos < input.len() {
                    next_pos + 1
                } else {
                    next_pos
                };
            } else {
                let token = Token::new_literal(input[position]);
                tokens.push(token);
                position += 1;
            }
            proof {
                assert(tokens@ == before.push(planned.0));
                assert(position == planned.1);
                assert(tokens@ + tokens_from(input@, position as int, window, lookahead) =~= before
                    + (seq![planned.0] + tokens_from(input@, planned.1, window, lookahead)));
            }
        }
        proof {
            assert(tokens@ =~= tokens_from(input@, 0, window, lookahead));
        }

        let mut output: Vec<u8> = Vec::new();
        push_length(&mut output, input.len());
        let ghost field = output@;
        let mut k: usize = 0;
        while k < tokens.len()
            invariant
                k <= tokens@.len(),
                output@ == field + tokens_bytes(tokens@.take(k as int)),
            decreases tokens@.len() - k,
        {
            let bytes = tokens[k].to_bytes();
            output.push(bytes[0]);
            output.push(bytes[1]);
            output.push(bytes[2]);
            output.push(bytes[3]);
            proof {
                assert(tokens@.take(k + 1).drop_last() =~= tokens@.take(k as int));
                assert(output@ =~= field + tokens_bytes(tokens@.take(k + 1)));
            }
            k += 1;
        }
        proof {
            assert(tokens@.take(tokens@.len() as int) =~= tokens@);
        }
        Ok(output)
    }

    /// The name of the algorithm.
    fn name(&self) -> &'static str
        returns
            "LZ77",
    {
        "LZ77"
    }
}

impl Decompressor for Lz77 {
    /// Decompresses `input`. Fails with `CorruptedData` exactly when `input`
    /// is not a payload whose tokens are all valid and give as many bytes as
    /// its length field declares.
    fn decompress(&self, input: &[u8]) -> (result: Result<Vec<u8>>)
        ensures
            match lz77_decode(input@) {
                Some(data) => result matches Ok(output) && output@ == data,
                None => result == Err::<Vec<u8>, CompressionError>(CompressionError::CorruptedData),
            },
            input@.len() == 0 ==> (result matches Ok(output) && output@.len() == 0),
    {
        if input.len() == 0 {
            return Ok(Vec::new());
        }
        if input.len() < 4 {
            return Err(CompressionError::CorruptedData);
        }
        let original_len = read_u32_le(input, 0) as usize;
        if (input.len() - 4) % 4 != 0 {
            return Err(CompressionError::CorruptedData);
        }
        let count = (input.len() - 4) / 4;
        let ghost tokens = parse_tokens(input@.skip(4));
        let ghost total = original_len as nat;

        let mut output: Vec<u8> = Vec::new();
        let mut k: usize = 0;
        proof {
            assert(tokens.skip(0) =~= tokens);
        }
        while k < count
            invariant
                k <= count,
                count == tokens.len(),
                input@.len() == 4 + 4 * count,
                input@.len() <= usize::MAX,
                tokens == parse_tokens(input@.skip(4)),
                total == original_len,
                total == u32_from_le(input@, 0),
                replay(tokens.skip(k as int), output@, total) == replay(
                    tokens,
                    Seq::empty(),
                    total,
                ),
            decreases count - k,
        {
            let at = 4 + 4 * k;
            let token = Token {
                offset: input[at] as u16 + 256 * (input[at + 1] as u16),
                length: input[at + 2],
                next: input[at + 3],
            };
            let ghost rest = tokens.skip(k as int);
            let ghost before = output@;
            proof {
                assert(rest[0] == tokens[k as int]);
                assert(token == token_at(input@.skip(4), 4 * k));
                assert(rest.skip(1) =~= tokens.skip(k + 1));
            }
            if token.length != 0 {
                let offset = token.offset as usize;
                let length = token.length as usize;
                if offset == 0 || offset > output.len() {
                    return Err(CompressionError::CorruptedData);
                }
                let start = output.len() - offset;
                let mut i: usize = 0;
                while i < length && output.len() < original_len
                    invariant
                        i <= length,
                        1 <= offset <= before.len(),
                        start == before.len() - offset,
                        output@.len() == before.len() + i,
                        total == original_len,
                        i < length && before.len() + i < total ==> i < copy_count(
                            length as nat,
                            before.len(),
                            total,
                        ),
                        !(i < length && before.len() + i < total) ==> i == copy_count(
                            length as nat,
                            before.len(),
                            total,
                        ),
                        copy_back(
                            output@,
                            offset as int,
                            (copy_count(length as nat, before.len(), total) - i) as nat,
                        ) == copy_back(
                            before,
                            offset as int,
                            copy_count(length as nat, before.len(), total),
                        ),
                    decreases length - i,
                {
                    let byte = output[start + i];
                    output.push(byte);
                    i += 1;
                }
            }
            if output.len() < original_len {
                output.push(token.next);
            }
            proof {
                assert(apply_token(before, token, total) == Some(output@));
            }
            k += 1;
        }

        if output.len() != original_len {
            return Err(CompressionError::CorruptedData);
        }
        Ok(output)
    }

    /// The name of the algorithm.
    fn name(&self) -> &'static str
        returns
            "LZ77",
    {
        "LZ77"
    }
}

} // verus!
