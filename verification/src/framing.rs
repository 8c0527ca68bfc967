//! The 32-bit little-endian length fields that open a compressed payload.

use vstd::prelude::*;

verus! {

/// The value that stands for a length in a 32-bit field: the length itself,
/// or `u32::MAX` where it does not fit.
pub open spec fn length_field(len: nat) -> u32 {
    if len <= u32::MAX {
        len as u32
    } else {
        u32::MAX
    }
}

/// The four bytes of `value`, least significant first.
pub open spec fn u32_le_bytes(value: u32) -> Seq<u8> {
    seq![
        (value % 256) as u8,
        ((value / 256) % 256) as u8,
        ((value / 65536) % 256) as u8,
        (value / 16777216) as u8,
    ]
}

/// The value whose four bytes, least significant first, stand in `data` at `pos`.
pub open spec fn u32_from_le(data: Seq<u8>, pos: int) -> u32 {
    (data[pos] + 256 * data[pos + 1] + 65536 * data[pos + 2] + 16777216 * data[pos + 3]) as u32
}

/// Reading the four bytes of a value gives the value back.
pub proof fn lemma_u32_le_round_trip(data: Seq<u8>, pos: int, value: u32)
    requires
        0 <= pos,
        pos + 4 <= data.len(),
        data.subrange(pos, pos + 4) == u32_le_bytes(value),
    ensures
        u32_from_le(data, pos) == value,
{
    let field = u32_le_bytes(value);
    assert(data[pos] == field[0]);
    assert(data[pos + 1] == field[1]);
    assert(data[pos + 2] == field[2]);
    assert(data[pos + 3] == field[3]);
}

/// Appends `len` to `output` as a 32-bit little-endian field; a length that
/// does not fit is written as `u32::MAX`.
pub fn push_length(output: &mut Vec<u8>, len: usize)
    ensures
        final(output)@ == old(output)@ + u32_le_bytes(length_field(len as nat)),
{
    let value: u32 = if len <= u32::MAX as usize {
        len as u32
    } else {
        u32::MAX
    };
    output.push((value % 256) as u8);
    output.push(((value / 256) % 256) as u8);
    output.push(((value / 65536) % 256) as u8);
    output.push((value / 16777216) as u8);
    proof {
        assert(output@ =~= old(output)@ + u32_le_bytes(length_field(len as nat)));
    }
}

/// Reads the 32-bit little-endian field that stands in `data` at `pos`.
pub fn read_u32_le(data: &[u8], pos: usize) -> (value: u32)
    requires
        pos + 4 <= data@.len(),
    ensures
        value == u32_from_le(data@, pos as int),
{
    let b0 = data[pos] as u32;
    let b1 = data[pos + 1] as u32;
    let b2 = data[pos + 2] as u32;
    let b3 = data[pos + 3] as u32;
    b0 + 256 * b1 + 65536 * b2 + 16777216 * b3
}

} // verus!
