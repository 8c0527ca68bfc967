//! The search for the longest earlier occurrence of the bytes ahead.

use vstd::prelude::*;

verus! {

/// A match shorter than this is not worth a token and is written as literals.
pub const MIN_MATCH_LENGTH: usize = 3;

/// How many bytes from `start` on equal the bytes from `position` on, counting
/// at most `limit` of them and none behind the end of `data`. The two runs may
/// overlap.
pub open spec fn match_length(data: Seq<u8>, start: int, position: int, limit: nat) -> nat
    decreases limit,
{
    if limit == 0 || position >= data.len() || data[start] != data[position] {
        0
    } else {
        1 + match_length(data, start + 1, position + 1, (limit - 1) as nat)
    }
}

/// The best match for the bytes at `position` among the offsets `1..=reach`,
/// as `(offset, length)`: the longest one of at least `MIN_MATCH_LENGTH`
/// bytes, and among equally long ones the one with the smallest offset;
/// `(0, 0)` where there is none.
pub open spec fn longest_match(data: Seq<u8>, position: int, lookahead: nat, reach: nat) -> (
    nat,
    nat,
)
    decreases reach,
{
    if reach == 0 {
        (0, 0)
    } else {
        let (offset, length) = longest_match(data, position, lookahead, (reach - 1) as nat);
        let here = match_length(data, position - reach, position, lookahead);
        if here >= MIN_MATCH_LENGTH && here > length {
            (reach, here)
        } else {
            (offset, length)
        }
    }
}

/// The number of offsets that a window of `window` bytes reaches back from
/// `position`.
pub open spec fn window_reach(window: nat, position: nat) -> nat {
    if window <= position {
        window
    } else {
        position
    }
}

/// A match stays inside the data and the limit, and the bytes that it counts
/// are equal.
pub proof fn lemma_match_length(data: Seq<u8>, start: int, position: int, limit: nat)
    requires
        0 <= start < position,
    ensures
        match_length(data, start, position, limit) <= limit,
        position < data.len() ==> position + match_length(data, start, position, limit)
            <= data.len(),
        position >= data.len() ==> match_length(data, start, position, limit) == 0,
        forall|k: int|
            0 <= k < match_length(data, start, position, limit) ==> data[start + k]
                == #[trigger] data[position + k],
    decreases limit,
{
    if !(limit == 0 || position >= data.len() || data[start] != data[position]) {
        lemma_match_length(data, start + 1, position + 1, (limit - 1) as nat);
        let rest = match_length(data, start + 1, position + 1, (limit - 1) as nat);
        assert forall|k: int| 0 <= k < 1 + rest implies data[start + k] == #[trigger] data[position
            + k] by {
            if k > 0 {
                assert(data[start + 1 + (k - 1)] == data[position + 1 + (k - 1)]);
            }
        }
    }
}

/// `(offset, length)` is the best match for the bytes at `position` among the
/// offsets `1..=reach`: `(0, 0)` where no offset gives a match of
/// `MIN_MATCH_LENGTH` bytes; else an offset within reach with its match
/// length, which no other offset beats and no smaller offset equals.
pub open spec fn is_best_match(
    data: Seq<u8>,
    position: int,
    lookahead: nat,
    reach: nat,
    offset: nat,
    length: nat,
) -> bool {
    if length == 0 {
        &&& offset == 0
        &&& forall|o: int|
            1 <= o <= reach ==> #[trigger] match_length(data, position - o, position, lookahead)
                < MIN_MATCH_LENGTH
    } else {
        &&& 1 <= offset <= reach
        &&& length >= MIN_MATCH_LENGTH
        &&& length == match_length(data, position - offset, position, lookahead)
        &&& forall|o: int|
            1 <= o <= reach ==> #[trigger] match_length(data, position - o, position, lookahead)
                <= length
        &&& forall|o: int|
            1 <= o < offset ==> #[trigger] match_length(data, position - o, position, lookahead)
                < length
    }
}

/// `longest_match` is the best match.
pub proof fn lemma_longest_match(data: Seq<u8>, position: int, lookahead: nat, reach: nat)
    requires
        0 <= reach <= position,
    ensures
        is_best_match(
            data,
            position,
            lookahead,
            reach,
            longest_match(data, position, lookahead, reach).0,
            longest_match(data, position, lookahead, reach).1,
        ),
    decreases reach,
{
    if reach > 0 {
        lemma_longest_match(data, position, lookahead, (reach - 1) as nat);
    }
}

/// There is only one best match.
pub proof fn lemma_best_match_is_unique(
    data: Seq<u8>,
    position: int,
    lookahead: nat,
    reach: nat,
    offset: nat,
    length: nat,
    other_offset: nat,
    other_length: nat,
)
    requires
        is_best_match(data, position, lookahead, reach, offset, length),
        is_best_match(data, position, lookahead, reach, other_offset, other_length),
    ensures
        offset == other_offset,
        length == other_length,
{
    if length != 0 {
        assert(match_length(data, position - offset, position, lookahead) == length);
    }
    if other_length != 0 {
        assert(match_length(data, position - other_offset, position, lookahead) == other_length);
    }
}

} // verus!
