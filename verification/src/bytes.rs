use vstd::prelude::*;

verus! {

/// Byte `j` (0 is the least significant) of a 64-bit word.
pub open spec fn le_byte(w: u64, j: int) -> u8 {
    ((w >> ((8 * j) as u64)) & 0xff) as u8
}

/// The eight bytes of a word, least significant first.
pub open spec fn u64_to_le(w: u64) -> Seq<u8> {
    Seq::new(8, |j: int| le_byte(w, j))
}

/// The word whose little-endian layout is the first eight bytes of `b`.
pub open spec fn u64_from_le(b: Seq<u8>) -> u64
    recommends
        b.len() >= 8,
{
    (b[0] as u64) | (b[1] as u64) << 8 | (b[2] as u64) << 16 | (b[3] as u64) << 24 | (b[4] as u64)
        << 32 | (b[5] as u64) << 40 | (b[6] as u64) << 48 | (b[7] as u64) << 56
}

/// Byte `j` (0 is the least significant) of a 128-bit word.
pub open spec fn le_byte_128(w: u128, j: int) -> u8 {
    ((w >> ((8 * j) as u128)) & 0xff) as u8
}

/// The sixteen bytes of a 128-bit word, least significant first.
pub open spec fn u128_to_le(w: u128) -> Seq<u8> {
    Seq::new(16, |j: int| le_byte_128(w, j))
}

/// Reading back the little-endian layout of a word gives the word.
pub proof fn lemma_u64_le_round_trip(w: u64)
    ensures
        u64_to_le(w).len() == 8,
        u64_from_le(u64_to_le(w)) == w,
{
    let b = u64_to_le(w);
    assert(b[0] == le_byte(w, 0));
    assert(b[1] == le_byte(w, 1));
    assert(b[2] == le_byte(w, 2));
    assert(b[3] == le_byte(w, 3));
    assert(b[4] == le_byte(w, 4));
    assert(b[5] == le_byte(w, 5));
    assert(b[6] == le_byte(w, 6));
    assert(b[7] == le_byte(w, 7));
    assert((((w >> 0u64) & 0xff) as u8 as u64) | (((w >> 8u64) & 0xff) as u8 as u64) << 8 | (((w
        >> 16u64) & 0xff) as u8 as u64) << 16 | (((w >> 24u64) & 0xff) as u8 as u64) << 24 | (((w
        >> 32u64) & 0xff) as u8 as u64) << 32 | (((w >> 40u64) & 0xff) as u8 as u64) << 40 | (((w
        >> 48u64) & 0xff) as u8 as u64) << 48 | (((w >> 56u64) & 0xff) as u8 as u64) << 56 == w)
        by (bit_vector);
}

/// Laying out the word read from eight bytes gives the eight bytes.
pub proof fn lemma_u64_le_of_bytes(b: Seq<u8>)
    requires
        b.len() == 8,
    ensures
        u64_to_le(u64_from_le(b)) == b,
{
    let w = u64_from_le(b);
    let (b0, b1, b2, b3, b4, b5, b6, b7) = (b[0], b[1], b[2], b[3], b[4], b[5], b[6], b[7]);
    assert({
        let w = (b0 as u64) | (b1 as u64) << 8 | (b2 as u64) << 16 | (b3 as u64) << 24 | (b4 as u64)
            << 32 | (b5 as u64) << 40 | (b6 as u64) << 48 | (b7 as u64) << 56;
        &&& ((w >> 0u64) & 0xff) as u8 == b0
        &&& ((w >> 8u64) & 0xff) as u8 == b1
        &&& ((w >> 16u64) & 0xff) as u8 == b2
        &&& ((w >> 24u64) & 0xff) as u8 == b3
        &&& ((w >> 32u64) & 0xff) as u8 == b4
        &&& ((w >> 40u64) & 0xff) as u8 == b5
        &&& ((w >> 48u64) & 0xff) as u8 == b6
        &&& ((w >> 56u64) & 0xff) as u8 == b7
    }) by (bit_vector);
    assert(u64_to_le(w) =~= b);
}

/// A byte of the XOR of two words is the XOR of their bytes.
pub proof fn lemma_le_byte_xor(a: u64, b: u64, j: int)
    requires
        0 <= j < 8,
    ensures
        le_byte(a ^ b, j) == le_byte(a, j) ^ le_byte(b, j),
{
    let s = (8 * j) as u64;
    assert((((a ^ b) >> s) & 0xff) as u8 == ((((a >> s) & 0xff) as u8) ^ (((b >> s) & 0xff) as u8)))
        by (bit_vector);
}

/// Byte `j` of `w`, counted from the least significant.
pub fn byte_of(w: u64, j: usize) -> (b: u8)
    requires
        j < 8,
    ensures
        b == le_byte(w, j as int),
{
    let shift: u64 = 8 * (j as u64);
    let low: u64 = (w >> shift) & 0xff;
    assert(low < 256) by (bit_vector)
        requires
            low == (w >> shift) & 0xff,
    ;
    low as u8
}

/// Appends the little-endian layout of `w` to `out`.
pub fn put_u64_le(out: &mut Vec<u8>, w: u64)
    ensures
        final(out)@ == old(out)@ + u64_to_le(w),
{
    let ghost before = out@;
    let mut j: usize = 0;
    while j < 8
        invariant
            j <= 8,
            out@.len() == before.len() + j,
            forall|i: int| 0 <= i < before.len() ==> out@[i] == before[i],
            forall|i: int| 0 <= i < j ==> out@[before.len() + i] == le_byte(w, i),
        decreases 8 - j,
    {
        out.push(byte_of(w, j));
        j += 1;
    }
    assert(out@ =~= before + u64_to_le(w));
}

/// The word laid out little-endian in the eight bytes of `data` from `pos` on.
pub fn get_u64_le(data: &[u8], pos: usize) -> (w: u64)
    requires
        pos + 8 <= data@.len(),
    ensures
        w == u64_from_le(data@.subrange(pos as int, pos + 8)),
{
    let b0: u64 = data[pos] as u64;
    let b1: u64 = data[pos + 1] as u64;
    let b2: u64 = data[pos + 2] as u64;
    let b3: u64 = data[pos + 3] as u64;
    let b4: u64 = data[pos + 4] as u64;
    let b5: u64 = data[pos + 5] as u64;
    let b6: u64 = data[pos + 6] as u64;
    let b7: u64 = data[pos + 7] as u64;
    b0 | b1 << 8 | b2 << 16 | b3 << 24 | b4 << 32 | b5 << 40 | b6 << 48 | b7 << 56
}

/// The little-endian layout of a 128-bit word, as an owned buffer.
pub fn u128_le_bytes(w: u128) -> (out: Vec<u8>)
    ensures
        out@ == u128_to_le(w),
{
    let mut out: Vec<u8> = Vec::new();
    let mut j: usize = 0;
    while j < 16
        invariant
            j <= 16,
            out@.len() == j,
            forall|i: int| 0 <= i < j ==> out@[i] == le_byte_128(w, i),
        decreases 16 - j,
    {
        let shift: u128 = 8 * (j as u128);
        let low: u128 = (w >> shift) & 0xff;
        assert(low < 256) by (bit_vector)
            requires
                low == (w >> shift) & 0xff,
        ;
        out.push(low as u8);
        j += 1;
    }
    assert(out@ =~= u128_to_le(w));
    out
}

} // verus!
