//! Run-length encoding: a stream of `(count, byte)` pairs without a header.
//!
//! The empty input is the empty payload.

use crate::error::{CompressionError, Result};
use crate::traits::{Compressor, Decompressor};
use vstd::prelude::*;

verus! {

/// The longest run that one pair can stand for.
pub const MAX_RUN_LENGTH: u8 = 255;

/// How many bytes from `position` on equal `byte`, counting at most `limit`.
pub open spec fn equal_run(data: Seq<u8>, position: int, byte: u8, limit: nat) -> nat
    decreases limit,
{
    if limit == 0 || position < 0 || position >= data.len() || data[position] != byte {
        0
    } else {
        1 + equal_run(data, position + 1, byte, (limit - 1) as nat)
    }
}

/// The length of the run that the encoder takes at `position`: the bytes that
/// equal the one at `position`, at most `MAX_RUN_LENGTH` of them.
pub open spec fn run_length(data: Seq<u8>, position: int) -> nat {
    equal_run(data, position, data[position], MAX_RUN_LENGTH as nat)
}

/// The pairs for `data` from `position` on.
pub open spec fn rle_encode_from(data: Seq<u8>, position: int) -> Seq<u8>
    decreases data.len() - position,
{
    if position < 0 || position >= data.len() {
        Seq::empty()
    } else {
        let run = run_length(data, position);
        proof {
            lemma_equal_run(data, position, data[position], MAX_RUN_LENGTH as nat);
        }
        seq![run as u8, data[position]] + rle_encode_from(data, position + run)
    }
}

/// The compressed form of `data`.
pub open spec fn rle_encode(data: Seq<u8>) -> Seq<u8> {
    rle_encode_from(data, 0)
}

/// `input` is a stream of whole pairs, none of which has the count zero.
pub open spec fn rle_is_valid(input: Seq<u8>) -> bool {
    &&& input.len() % 2 == 0
    &&& forall|i: int| 0 <= i < input.len() && i % 2 == 0 ==> #[trigger] input[i] != 0
}

/// `count` copies of `byte`.
pub open spec fn repeated(byte: u8, count: nat) -> Seq<u8> {
    Seq::new(count, |i: int| byte)
}

/// The bytes that the pairs of `input` stand for.
pub open spec fn rle_expand(input: Seq<u8>) -> Seq<u8>
    decreases input.len(),
{
    if input.len() < 2 {
        Seq::empty()
    } else {
        let count = input[input.len() - 2];
        let byte = input[input.len() - 1];
        rle_expand(input.take(input.len() - 2)) + repeated(byte, count as nat)
    }
}

/// What `input` decompresses to, or `None` where it is corrupted: where its
/// length is odd or a pair has the count zero.
pub open spec fn rle_decode(input: Seq<u8>) -> Option<Seq<u8>> {
    if rle_is_valid(input) {
        Some(rle_expand(input))
    } else {
        None
    }
}

/// A run stays inside the data and the limit, holds only the one byte, and
/// stops at the limit, at the end, or before another byte.
pub proof fn lemma_equal_run(data: Seq<u8>, position: int, byte: u8, limit: nat)
    requires
        0 <= position,
    ensures
        equal_run(data, position, byte, limit) <= limit,
        position + equal_run(data, position, byte, limit) <= data.len() || equal_run(
            data,
            position,
            byte,
            limit,
        ) == 0,
        position < data.len() && data[position] == byte && limit > 0 ==> equal_run(
            data,
            position,
            byte,
            limit,
        ) >= 1,
        forall|k: int|
            0 <= k < equal_run(data, position, byte, limit) ==> #[trigger] data[position + k]
                == byte,
        ({
            let run = equal_run(data, position, byte, limit);
            run == limit || position + run >= data.len() || data[position + run] != byte
        }),
    decreases limit,
{
    if !(limit == 0 || position >= data.len() || data[position] != byte) {
        lemma_equal_run(data, position + 1, byte, (limit - 1) as nat);
        let rest = equal_run(data, position + 1, byte, (limit - 1) as nat);
        assert forall|k: int| 0 <= k < 1 + rest implies #[trigger] data[position + k] == byte by {
            if k > 0 {
                assert(data[position + 1 + (k - 1)] == byte);
            }
        }
    }
}

/// Expanding a pair followed by more pairs gives the run of the pair followed
/// by what the other pairs expand to.
pub proof fn lemma_rle_expand_front(count: u8, byte: u8, rest: Seq<u8>)
    requires
        rest.len() % 2 == 0,
    ensures
        rle_expand(seq![count, byte] + rest) == repeated(byte, count as nat) + rle_expand(rest),
    decreases rest.len(),
{
    let input = seq![count, byte] + rest;
    if rest.len() == 0 {
        assert(input.take(input.len() - 2) =~= Seq::<u8>::empty());
        assert(rle_expand(input.take(input.len() - 2)) =~= Seq::<u8>::empty());
        assert(rle_expand(rest) =~= Seq::<u8>::empty());
        assert(input[input.len() - 1] == byte);
        assert(input[input.len() - 2] == count);
        assert(rle_expand(input) =~= repeated(byte, count as nat) + rle_expand(rest));
    } else {
        let shorter = rest.take(rest.len() - 2);
        let last = repeated(rest[rest.len() - 1], rest[rest.len() - 2] as nat);
        lemma_rle_expand_front(count, byte, shorter);
        assert(input.take(input.len() - 2) =~= seq![count, byte] + shorter);
        assert(input[input.len() - 1] == rest[rest.len() - 1]);
        assert(input[input.len() - 2] == rest[rest.len() - 2]);
        assert(rle_expand(input) == rle_expand(seq![count, byte] + shorter) + last);
        assert(rle_expand(rest) == rle_expand(shorter) + last);
        assert((repeated(byte, count as nat) + rle_expand(shorter)) + last =~= repeated(
            byte,
            count as nat,
        ) + (rle_expand(shorter) + last));
    }
}

/// The pairs that the encoder writes from `position` on are valid and expand
/// to the data from `position` on.
pub proof fn lemma_rle_encode_from(data: Seq<u8>, position: int)
    requires
        0 <= position <= data.len(),
    ensures
        rle_is_valid(rle_encode_from(data, position)),
        rle_expand(rle_encode_from(data, position)) == data.skip(position),
        rle_encode_from(data, position).len() <= 2 * (data.len() - position),
    decreases data.len() - position,
{
    if position < data.len() {
        let byte = data[position];
        let run = run_length(data, position);
        lemma_equal_run(data, position, byte, MAX_RUN_LENGTH as nat);
        let rest = rle_encode_from(data, position + run);
        lemma_rle_encode_from(data, position + run);
        let pairs = seq![run as u8, byte] + rest;
        assert forall|i: int| 0 <= i < pairs.len() && i % 2 == 0 implies #[trigger] pairs[i]
            != 0 by {
            if i >= 2 {
                assert(pairs[i] == rest[i - 2]);
            }
        }
        lemma_rle_expand_front(run as u8, byte, rest);
        let tail = data.skip(position);
        let joined = repeated(byte, run) + data.skip(position + run);
        assert(joined.len() == tail.len());
        assert forall|k: int| 0 <= k < tail.len() implies joined[k] == tail[k] by {
            if k < run {
                assert(data[position + k] == byte);
            }
        }
        assert(joined =~= tail);
    } else {
        assert(data.skip(position) =~= Seq::<u8>::empty());
    }
}

/// Decompressing what was compressed gives the data back, for all data: the
/// encoder writes whole pairs with counts from 1 to `MAX_RUN_LENGTH`, and
/// they expand to the data.
pub proof fn lemma_rle_round_trip(data: Seq<u8>)
    ensures
        rle_is_valid(rle_encode(data)),
        rle_decode(rle_encode(data)) == Some(data),
{
    lemma_rle_encode_from(data, 0);
    assert(data.skip(0) =~= data);
}

/// Compression never more than doubles the data.
pub proof fn lemma_rle_at_most_doubles(data: Seq<u8>)
    ensures
        rle_encode(data).len() <= 2 * data.len(),
{
    lemma_rle_encode_from(data, 0);
}

proof fn lemma_rle_without_runs_from(data: Seq<u8>, position: int)
    requires
        0 <= position <= data.len(),
        forall|i: int| 0 < i < data.len() ==> data[i - 1] != #[trigger] data[i],
    ensures
        rle_encode_from(data, position).len() == 2 * (data.len() - position),
    decreases data.len() - position,
{
    if position < data.len() {
        assert(run_length(data, position) == 1) by {
            if position + 1 < data.len() {
                assert(data[position + 1 - 1] != data[position + 1]);
            }
            assert(equal_run(data, position + 1, data[position], 254) == 0);
        }
        lemma_rle_without_runs_from(data, position + 1);
    }
}

/// Data in which no byte equals the one before it grows to exactly twice its
/// length: every byte becomes a pair of its own.
pub proof fn lemma_rle_without_runs(data: Seq<u8>)
    requires
        forall|i: int| 0 < i < data.len() ==> data[i - 1] != #[trigger] data[i],
    ensures
        rle_encode(data).len() == 2 * data.len(),
{
    lemma_rle_without_runs_from(data, 0);
}

proof fn lemma_rle_of_one_run_from(data: Seq<u8>, position: int)
    requires
        0 <= position <= data.len(),
        forall|i: int| 0 <= i < data.len() ==> #[trigger] data[i] == data[0],
    ensures
        rle_encode_from(data, position).len() == 2 * ((data.len() - position + 254) / 255),
    decreases data.len() - position,
{
    if position < data.len() {
        lemma_equal_run(data, position, data[position], MAX_RUN_LENGTH as nat);
        let run = run_length(data, position);
        if run < 255 && position + run < data.len() {
            assert(data[position + run] == data[0]);
            assert(data[position] == data[0]);
        }
        lemma_rle_of_one_run_from(data, position + run);
    }
}

/// Data that repeats one byte shrinks to one pair for every `MAX_RUN_LENGTH`
/// bytes and one more for what is left, so that it is smaller than the data
/// from three bytes on.
pub proof fn lemma_rle_of_one_run(data: Seq<u8>)
    requires
        forall|i: int| 0 <= i < data.len() ==> #[trigger] data[i] == data[0],
    ensures
        rle_encode(data).len() == 2 * ((data.len() + 254) / 255),
        data.len() >= 3 ==> rle_encode(data).len() < data.len(),
{
    lemma_rle_of_one_run_from(data, 0);
}

/// The run-length codec. It holds no state.
#[derive(Debug, Default, Clone, Copy)]
pub struct Rle;

impl Rle {
    /// Makes the codec.
    #[must_use]
    pub fn new() -> (codec: Self)
        ensures
            codec == Rle,
    {
        Self
    }
}

impl Compressor for Rle {
    /// Compresses `input`. Never fails.
    fn compress(&self, input: &[u8]) -> (result: Result<Vec<u8>>)
        ensures
            result matches Ok(output) && output@ == rle_encode(input@),
            input@.len() == 0 ==> (result matches Ok(output) && output@.len() == 0),
    {
        if input.len() == 0 {
            return Ok(Vec::new());
        }
        let mut output: Vec<u8> = Vec::new();
        let mut i: usize = 0;
        while i < input.len()
            invariant
                i <= input@.len(),
                input@.len() <= usize::MAX,
                output@ + rle_encode_from(input@, i as int) == rle_encode(input@),
            decreases input@.len() - i,
        {
            let current_byte = input[i];
            let mut run: u8 = 1;
            while i + (run as usize) < input.len() && input[i + (run as usize)] == current_byte
                && run < MAX_RUN_LENGTH
                invariant
                    i < input@.len(),
                    input@.len() <= usize::MAX,
                    current_byte == input@[i as int],
                    1 <= run <= MAX_RUN_LENGTH,
                    i + run <= input@.len(),
                    run_length(input@, i as int) == run + equal_run(
                        input@,
                        i + run,
                        current_byte,
                        (MAX_RUN_LENGTH - run) as nat,
                    ),
                decreases MAX_RUN_LENGTH - run,
            {
                run += 1;
            }
            proof {
                assert(equal_run(
                    input@,
                    i + run,
                    current_byte,
                    (MAX_RUN_LENGTH - run) as nat,
                ) == 0);
                assert(output@.push(run).push(current_byte) + rle_encode_from(input@, i + run)
                    =~= output@ + rle_encode_from(input@, i as int));
            }
            output.push(run);
            output.push(current_byte);
            i += run as usize;
        }
        Ok(output)
    }

    /// The name of the algorithm.
    fn name(&self) -> &'static str
        returns
            "RLE",
    {
        "RLE"
    }
}

impl Decompressor for Rle {
    /// Decompresses `input`. Fails with `CorruptedData` exactly when the
    /// length of `input` is odd or one of its pairs has the count zero.
    fn decompress(&self, input: &[u8]) -> (result: Result<Vec<u8>>)
        ensures
            match rle_decode(input@) {
                Some(data) => result matches Ok(output) && output@ == data,
                None => result == Err::<Vec<u8>, CompressionError>(CompressionError::CorruptedData),
            },
            input@.len() == 0 ==> (result matches Ok(output) && output@.len() == 0),
    {
        if input.len() == 0 {
            return Ok(Vec::new());
        }
        if input.len() % 2 != 0 {
            return Err(CompressionError::CorruptedData);
        }
        let mut output: Vec<u8> = Vec::new();
        let mut at: usize = 0;
        proof {
            assert(input@.take(0) =~= Seq::<u8>::empty());
        }
        while at < input.len()
            invariant
                at <= input@.len(),
                at % 2 == 0,
                input@.len() % 2 == 0,
                input@.len() <= usize::MAX,
                rle_is_valid(input@.take(at as int)),
                output@ == rle_expand(input@.take(at as int)),
            decreases input@.len() - at,
        {
            let count = input[at];
            let byte = input[at + 1];
            if count == 0 {
                return Err(CompressionError::CorruptedData);
            }
            let ghost before = output@;
            let mut i: u8 = 0;
            while i < count
                invariant
                    i <= count,
                    output@ == before + repeated(byte, i as nat),
                decreases count - i,
            {
                output.push(byte);
                i += 1;
                proof {
                    assert(output@ =~= before + repeated(byte, i as nat));
                }
            }
            proof {
                let longer = input@.take(at + 2);
                assert(longer.take(longer.len() - 2) =~= input@.take(at as int));
                assert forall|j: int| 0 <= j < longer.len() && j % 2 == 0 implies #[trigger] longer[j]
                    != 0 by {
                    if j < at {
                        assert(input@.take(at as int)[j] != 0);
                    }
                }
            }
            at += 2;
        }
        proof {
            assert(input@.take(input@.len() as int) =~= input@);
        }
        Ok(output)
    }

    /// The name of the algorithm.
    fn name(&self) -> &'static str
        returns
            "RLE",
    {
        "RLE"
    }
}

} // verus!
