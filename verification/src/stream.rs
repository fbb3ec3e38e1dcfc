use crate::tent::{
    keystream_state, lemma_advance_add, lemma_word_shift, lemma_xor_bytes_prefix, tent_chaos,
};
use vstd::prelude::*;

verus! {

/// Number of keystream words that a chunk of `n` bytes uses up: a last,
/// partial word counts as a whole one.
pub open spec fn words_for(n: nat) -> nat {
    (n + 7) / 8
}

/// XORs the keystream into `chunk`. The transform runs over the chunk
/// padded to a multiple of 8 bytes; the padding is dropped afterwards.
pub fn transform_chunk(tent: &mut tent_chaos, chunk: &mut Vec<u8>)
    ensures
        final(chunk)@ == old(tent)@.xor_bytes(old(chunk)@),
        final(tent)@ == old(tent)@.advance(words_for(old(chunk)@.len())),
{
    let ghost start = tent@;
    let ghost data = chunk@;
    let n: usize = chunk.len();
    while chunk.len() % 8 != 0
        invariant
            n <= chunk@.len() <= 8 * words_for(n as nat),
            chunk@.subrange(0, n as int) == data,
            data.len() == n,
            tent@ == start,
        decreases 8 * words_for(n as nat) - chunk@.len(),
    {
        let ghost before = chunk@;
        chunk.push(0xFF);
        assert(chunk@.subrange(0, n as int) =~= before.subrange(0, n as int));
    }
    let ghost padded = chunk@;
    let done = tent.encrypt(chunk.as_mut_slice());
    assert(done is Ok);
    chunk.truncate(n);
    proof {
        lemma_xor_bytes_prefix(start, padded, n as int);
        assert(padded.len() / 8 == words_for(n as nat));
    }
}

/// The keystream byte that meets byte `i` of a stream cut into chunks of
/// `chunk` bytes: every chunk starts on a fresh keystream word, so chunk
/// `i / chunk` starts `words_for(chunk)` words after the chunk before it.
pub open spec fn chunk_key_byte(state: keystream_state, chunk: nat, i: nat) -> u8
    recommends
        chunk > 0,
{
    state.advance((i / chunk) * words_for(chunk)).key_byte(i % chunk)
}

/// A stream transformed chunk by chunk: every chunk has `chunk` bytes but
/// the last, which has what is left.
pub open spec fn xor_chunked(state: keystream_state, data: Seq<u8>, chunk: nat) -> Seq<u8>
    recommends
        chunk > 0,
{
    Seq::new(data.len(), |i: int| data[i] ^ chunk_key_byte(state, chunk, i as nat))
}

/// One step of a chunked transform. `out_chunk` is what transforming the
/// chunk with index `q`, of `n` bytes, gives from the state in which that
/// chunk starts; it is the next piece of the transformed stream. After a
/// full chunk the generator stands where the next chunk starts.
pub proof fn lemma_chunk_step(
    start: keystream_state,
    data: Seq<u8>,
    chunk: nat,
    q: nat,
    n: nat,
    out_chunk: Seq<u8>,
)
    requires
        chunk > 0,
        n <= chunk,
        q * chunk + n <= data.len(),
        out_chunk == start.advance(q * words_for(chunk)).xor_bytes(
            data.subrange((q * chunk) as int, (q * chunk + n) as int),
        ),
    ensures
        xor_chunked(start, data, chunk).subrange(0, (q * chunk + n) as int) == xor_chunked(
            start,
            data,
            chunk,
        ).subrange(0, (q * chunk) as int) + out_chunk,
        n == chunk ==> q * chunk + n == (q + 1) * chunk,
        n == chunk ==> start.advance(q * words_for(chunk)).advance(words_for(n)) == start.advance(
            (q + 1) * words_for(chunk),
        ),
{
    let whole = xor_chunked(start, data, chunk);
    let pos = q * chunk;
    assert forall|r: int| 0 <= r < n implies out_chunk[r] == whole[pos + r] by {
        vstd::arithmetic::div_mod::lemma_fundamental_div_mod_converse(
            pos + r,
            chunk as int,
            q as int,
            r,
        );
    }
    assert(whole.subrange(0, (pos + n) as int) =~= whole.subrange(0, pos as int) + out_chunk);
    if n == chunk {
        let per_chunk = words_for(chunk);
        lemma_advance_add(start, q * per_chunk, per_chunk);
        vstd::arithmetic::mul::lemma_mul_is_distributive_add_other_way(
            per_chunk as int,
            q as int,
            1,
        );
        vstd::arithmetic::mul::lemma_mul_is_distributive_add_other_way(chunk as int, q as int, 1);
    }
}

/// A chunked transform applied twice with the same chunk size restores the
/// stream.
pub proof fn lemma_xor_chunked_involution(state: keystream_state, data: Seq<u8>, chunk: nat)
    ensures
        xor_chunked(state, xor_chunked(state, data, chunk), chunk) == data,
{
    let twice = xor_chunked(state, xor_chunked(state, data, chunk), chunk);
    assert forall|i: int| 0 <= i < data.len() implies twice[i] == data[i] by {
        let x = data[i];
        let k = chunk_key_byte(state, chunk, i as nat);
        assert((x ^ k) ^ k == x) by (bit_vector);
    }
    assert(twice =~= data);
}

/// With a chunk size that is a multiple of 8, or that the whole stream
/// fits in, the chunked transform is the transform of the stream in one
/// piece: the chunk size leaves no trace.
pub proof fn lemma_xor_chunked_is_continuous(state: keystream_state, data: Seq<u8>, chunk: nat)
    requires
        chunk > 0,
        chunk % 8 == 0 || data.len() <= chunk,
    ensures
        xor_chunked(state, data, chunk) == state.xor_bytes(data),
{
    let chunked = xor_chunked(state, data, chunk);
    let whole = state.xor_bytes(data);
    assert forall|i: int| 0 <= i < data.len() implies chunked[i] == whole[i] by {
        let q = (i as nat) / chunk;
        let r = (i as nat) % chunk;
        vstd::arithmetic::div_mod::lemma_fundamental_div_mod(i, chunk as int);
        if chunk % 8 == 0 {
            let w = chunk / 8;
            assert(words_for(chunk) == w);
            assert(chunk == 8 * w);
            assert(q * chunk == 8 * (q * w)) by (nonlinear_arith)
                requires
                    chunk == 8 * w,
            ;
            assert(i == chunk * q + r);
            assert(chunk * q == q * chunk) by (nonlinear_arith);
            assert(i == 8 * (q * w + r / 8) + r % 8);
            vstd::arithmetic::div_mod::lemma_fundamental_div_mod_converse(
                i,
                8,
                (q * w + r / 8) as int,
                (r % 8) as int,
            );
            lemma_word_shift(state, q * w, r / 8);
        } else {
            vstd::arithmetic::div_mod::lemma_fundamental_div_mod_converse(i, chunk as int, 0, i);
            assert(state.advance(0) == state);
        }
    }
    assert(chunked =~= whole);
}

} // verus!
