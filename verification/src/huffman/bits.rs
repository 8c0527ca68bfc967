//! Packing a bit stream into bytes, most significant bit first.

use vstd::prelude::*;

verus! {

/// The first `upto` bits of the eight-bit chunk of `bits` that begins at
/// `start`, packed into one byte: bit `j` of the chunk sets the bit of weight
/// `2^(7 - j)`. Positions at or behind the end of `bits` count as zero.
pub open spec fn chunk_byte(bits: Seq<bool>, start: int, upto: int) -> u8
    decreases upto,
{
    if upto <= 0 {
        0u8
    } else {
        let rest = chunk_byte(bits, start, upto - 1);
        let i = start + upto - 1;
        if 0 <= i < bits.len() && bits[i] {
            rest | (1u8 << ((8 - upto) as u8))
        } else {
            rest
        }
    }
}

/// `bits` packed eight to a byte, the last byte padded with zero bits.
pub open spec fn pack_bits(bits: Seq<bool>) -> Seq<u8> {
    Seq::new(((bits.len() + 7) / 8) as nat, |k: int| chunk_byte(bits, 8 * k, 8))
}

/// Bit `index` of `byte`, counted from the most significant one.
pub open spec fn bit_of(byte: u8, index: int) -> bool {
    (byte >> ((7 - index) as u8)) & 1u8 == 1u8
}

/// The first `count` bits held by `bytes`, or all of them where `bytes` holds
/// fewer.
pub open spec fn unpack_bits(bytes: Seq<u8>, count: nat) -> Seq<bool> {
    Seq::new(
        if count <= 8 * bytes.len() {
            count
        } else {
            8 * bytes.len()
        },
        |i: int| bit_of(bytes[i / 8], i % 8),
    )
}

proof fn lemma_masks_select(m0: u8, m1: u8, m2: u8, m3: u8, m4: u8, m5: u8, m6: u8, m7: u8)
    by (bit_vector)
    requires
        m0 == 0 || m0 == 1u8 << 7u8,
        m1 == 0 || m1 == 1u8 << 6u8,
        m2 == 0 || m2 == 1u8 << 5u8,
        m3 == 0 || m3 == 1u8 << 4u8,
        m4 == 0 || m4 == 1u8 << 3u8,
        m5 == 0 || m5 == 1u8 << 2u8,
        m6 == 0 || m6 == 1u8 << 1u8,
        m7 == 0 || m7 == 1u8 << 0u8,
    ensures
        (((m0 | m1 | m2 | m3 | m4 | m5 | m6 | m7) >> 7u8) & 1u8 == 1u8) == (m0 != 0),
        (((m0 | m1 | m2 | m3 | m4 | m5 | m6 | m7) >> 6u8) & 1u8 == 1u8) == (m1 != 0),
        (((m0 | m1 | m2 | m3 | m4 | m5 | m6 | m7) >> 5u8) & 1u8 == 1u8) == (m2 != 0),
        (((m0 | m1 | m2 | m3 | m4 | m5 | m6 | m7) >> 4u8) & 1u8 == 1u8) == (m3 != 0),
        (((m0 | m1 | m2 | m3 | m4 | m5 | m6 | m7) >> 3u8) & 1u8 == 1u8) == (m4 != 0),
        (((m0 | m1 | m2 | m3 | m4 | m5 | m6 | m7) >> 2u8) & 1u8 == 1u8) == (m5 != 0),
        (((m0 | m1 | m2 | m3 | m4 | m5 | m6 | m7) >> 1u8) & 1u8 == 1u8) == (m6 != 0),
        (((m0 | m1 | m2 | m3 | m4 | m5 | m6 | m7) >> 0u8) & 1u8 == 1u8) == (m7 != 0),
        1u8 << 7u8 != 0,
        1u8 << 6u8 != 0,
        1u8 << 5u8 != 0,
        1u8 << 4u8 != 0,
        1u8 << 3u8 != 0,
        1u8 << 2u8 != 0,
        1u8 << 1u8 != 0,
        1u8 << 0u8 != 0,
        0u8 | m0 == m0,
{
}

spec fn mask(bits: Seq<bool>, i: int, shift: u8) -> u8 {
    if 0 <= i < bits.len() && bits[i] {
        1u8 << shift
    } else {
        0u8
    }
}

/// Bit `j` of a packed chunk is the bit of the stream that it was packed from.
pub proof fn lemma_chunk_bit(bits: Seq<bool>, start: int, j: int)
    requires
        0 <= j < 8,
    ensures
        bit_of(chunk_byte(bits, start, 8), j) == (0 <= start + j < bits.len() && bits[start + j]),
{
    let m0 = mask(bits, start, 7);
    let m1 = mask(bits, start + 1, 6);
    let m2 = mask(bits, start + 2, 5);
    let m3 = mask(bits, start + 3, 4);
    let m4 = mask(bits, start + 4, 3);
    let m5 = mask(bits, start + 5, 2);
    let m6 = mask(bits, start + 6, 1);
    let m7 = mask(bits, start + 7, 0);
    lemma_masks_select(m0, m1, m2, m3, m4, m5, m6, m7);
    let c1 = chunk_byte(bits, start, 1);
    let c2 = chunk_byte(bits, start, 2);
    let c3 = chunk_byte(bits, start, 3);
    let c4 = chunk_byte(bits, start, 4);
    let c5 = chunk_byte(bits, start, 5);
    let c6 = chunk_byte(bits, start, 6);
    let c7 = chunk_byte(bits, start, 7);
    lemma_or_zero(0u8);
    lemma_or_zero(c1);
    lemma_or_zero(c2);
    lemma_or_zero(c3);
    lemma_or_zero(c4);
    lemma_or_zero(c5);
    lemma_or_zero(c6);
    lemma_or_zero(c7);
    assert(chunk_byte(bits, start, 0) == 0u8);
    assert(c1 == 0u8 | m0);
    assert(c2 == c1 | m1);
    assert(c3 == c2 | m2);
    assert(c4 == c3 | m3);
    assert(c5 == c4 | m4);
    assert(c6 == c5 | m5);
    assert(c7 == c6 | m6);
    assert(chunk_byte(bits, start, 8) == c7 | m7);
}

proof fn lemma_or_zero(x: u8)
    by (bit_vector)
    ensures
        x | 0u8 == x,
{
}

/// Unpacking what was packed gives the bit stream back.
pub proof fn lemma_unpack_pack(bits: Seq<bool>)
    ensures
        pack_bits(bits).len() == (bits.len() + 7) / 8,
        unpack_bits(pack_bits(bits), bits.len()) == bits,
{
    let packed = pack_bits(bits);
    let back = unpack_bits(packed, bits.len());
    assert(back.len() == bits.len());
    assert forall|i: int| 0 <= i < bits.len() implies back[i] == bits[i] by {
        lemma_chunk_bit(bits, 8 * (i / 8), i % 8);
    }
    assert(back =~= bits);
}

/// Packs `bits` into bytes, most significant bit first, padding the last byte
/// with zero bits.
pub fn bits_to_bytes(bits: &[bool]) -> (bytes: Vec<u8>)
    ensures
        bytes@ == pack_bits(bits@),
{
    let n = bits.len();
    let chunks = if n % 8 == 0 {
        n / 8
    } else {
        n / 8 + 1
    };
    let mut bytes: Vec<u8> = Vec::new();
    let mut k: usize = 0;
    while k < chunks
        invariant
            n == bits@.len(),
            chunks == (n + 7) / 8,
            k <= chunks,
            bytes@.len() == k,
            forall|c: int| 0 <= c < k ==> bytes@[c] == chunk_byte(bits@, 8 * c, 8),
        decreases chunks - k,
    {
        let start = 8 * k;
        let mut byte = 0u8;
        let mut i: usize = 0;
        while i < 8 && i < n - start
            invariant
                n == bits@.len(),
                start <= n,
                i <= 8,
                byte == chunk_byte(bits@, start as int, i as int),
            decreases 8 - i,
        {
            if bits[start + i] {
                byte |= 1u8 << (7 - i);
            }
            i += 1;
        }
        proof {
            lemma_chunk_byte_past_end(bits@, start as int, i as int, 8);
        }
        bytes.push(byte);
        k += 1;
    }
    proof {
        assert(bytes@ =~= pack_bits(bits@));
    }
    bytes
}

/// Positions behind the end of the stream add nothing to a chunk.
proof fn lemma_chunk_byte_past_end(bits: Seq<bool>, start: int, from: int, upto: int)
    requires
        0 <= from <= upto,
        start + from >= bits.len() || from == upto,
    ensures
        chunk_byte(bits, start, upto) == chunk_byte(bits, start, from),
    decreases upto - from,
{
    if from < upto {
        lemma_chunk_byte_past_end(bits, start, from, upto - 1);
    }
}

/// Unpacks the first `num_bits` bits of `bytes`, most significant bit first;
/// where `bytes` holds fewer bits, all of them.
pub fn bytes_to_bits(bytes: &[u8], num_bits: usize) -> (bits: Vec<bool>)
    ensures
        bits@ == unpack_bits(bytes@, num_bits as nat),
{
    let mut bits: Vec<bool> = Vec::new();
    let mut k: usize = 0;
    while k < bytes.len() && bits.len() < num_bits
        invariant
            k <= bytes@.len(),
            bits@.len() <= num_bits,
            bits@.len() == 8 * k || (bits@.len() == num_bits && num_bits <= 8 * k),
            forall|p: int| 0 <= p < bits@.len() ==> bits@[p] == bit_of(bytes@[p / 8], p % 8),
        decreases bytes@.len() - k,
    {
        let byte = bytes[k];
        let mut i: usize = 0;
        while i < 8 && bits.len() < num_bits
            invariant
                k < bytes@.len(),
                byte == bytes@[k as int],
                i <= 8,
                bits@.len() <= num_bits,
                bits@.len() == 8 * k + i,
                forall|p: int| 0 <= p < bits@.len() ==> bits@[p] == bit_of(bytes@[p / 8], p % 8),
            decreases 8 - i,
        {
            bits.push((byte >> (7 - i)) & 1 == 1);
            i += 1;
        }
        k += 1;
    }
    proof {
        assert(bits@ =~= unpack_bits(bytes@, num_bits as nat));
    }
    bits
}

} // verus!
