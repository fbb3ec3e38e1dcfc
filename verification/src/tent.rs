use crate::bytes::{
    byte_of, le_byte, lemma_le_byte_xor, lemma_u64_le_of_bytes, lemma_u64_le_round_trip, u64_from_le,
    u64_to_le,
};
use crate::error::encryp_error;
use vstd::prelude::*;

verus! {

/// The generator as a mathematical value: the current point of the map and
/// the number of words emitted since construction.
pub struct keystream_state {
    pub value: u64,
    pub step_count: u64,
}

/// Reduction of an integer onto the unsigned 64-bit range.
pub open spec fn wrap64(x: int) -> u64 {
    (x % 0x1_0000_0000_0000_0000) as u64
}

/// The tent map on the unsigned 64-bit range: the lower half is doubled with
/// the low bit set, the upper half is reflected and then doubled.
pub open spec fn tent_fold(g: u64) -> u64 {
    if g < 0x8000_0000_0000_0000 {
        (2 * g + 1) as u64
    } else {
        (2 * (u64::MAX - g)) as u64
    }
}

impl keystream_state {
    /// The state one word later: the value is perturbed by four times the
    /// step count, folded by the tent map, and the count goes up by one.
    pub open spec fn next(self) -> keystream_state {
        keystream_state {
            value: tent_fold(wrap64(self.value + 4 * self.step_count)),
            step_count: wrap64(self.step_count + 1),
        }
    }

    /// The state `n` words later.
    pub open spec fn advance(self, n: nat) -> keystream_state
        decreases n,
    {
        if n == 0 {
            self
        } else {
            self.advance((n - 1) as nat).next()
        }
    }

    /// The word with index `i` among those emitted from this state on.
    pub open spec fn word(self, i: nat) -> u64 {
        self.advance(i + 1).value
    }

    /// The first `n` words emitted from this state on.
    pub open spec fn words(self, n: nat) -> Seq<u64> {
        Seq::new(n, |i: int| self.word(i as nat))
    }

    /// Byte `i` of the keystream: the emitted words laid out little-endian.
    pub open spec fn key_byte(self, i: nat) -> u8 {
        le_byte(self.word(i / 8), (i % 8) as int)
    }

    /// `data` with every byte XORed with the keystream byte of its index.
    pub open spec fn xor_bytes(self, data: Seq<u8>) -> Seq<u8> {
        Seq::new(data.len(), |i: int| data[i] ^ self.key_byte(i as nat))
    }
}

/// Advancing by `a` words and then by `b` words is advancing by `a + b`.
pub proof fn lemma_advance_add(s: keystream_state, a: nat, b: nat)
    ensures
        s.advance(a).advance(b) == s.advance(a + b),
    decreases b,
{
    if b > 0 {
        lemma_advance_add(s, a, (b - 1) as nat);
    }
}

/// Word `i` counted from `a` words later is word `a + i` counted from here.
pub proof fn lemma_word_shift(s: keystream_state, a: nat, i: nat)
    ensures
        s.advance(a).word(i) == s.word(a + i),
{
    lemma_advance_add(s, a, i + 1);
}

/// A stateful producer of a chaotic sequence of 64-bit words.
pub struct tent_chaos {
    value: u64,
    iterate_times: u64,
}

impl View for tent_chaos {
    type V = keystream_state;

    closed spec fn view(&self) -> keystream_state {
        keystream_state { value: self.value, step_count: self.iterate_times }
    }
}

/// The two branches of the tent map, computed with shifts.
proof fn lemma_fold_bits(g: u64)
    ensures
        g < 0x8000_0000_0000_0000 ==> ((g << 1) | 1) == 2 * g + 1,
        g >= 0x8000_0000_0000_0000 ==> ((u64::MAX - g) as u64) << 1 == 2 * (u64::MAX - g),
{
    assert(g < 0x8000_0000_0000_0000 ==> ((g << 1) | 1) == 2 * g + 1) by (bit_vector);
    assert(g >= 0x8000_0000_0000_0000 ==> ((0xffff_ffff_ffff_ffffu64 - g) as u64) << 1 == 2 * (
        0xffff_ffff_ffff_ffffu64 - g)) by (bit_vector);
}

impl tent_chaos {
    /// A generator that starts at `value` and has emitted nothing.
    pub fn new(value: u64) -> (ret: tent_chaos)
        ensures
            ret@ == (keystream_state { value, step_count: 0 }),
    {
        tent_chaos { value, iterate_times: 0 }
    }

    /// Advances by one word and returns it.
    pub fn iterate(&mut self) -> (ret: u64)
        ensures
            final(self)@ == old(self)@.next(),
            ret == final(self)@.value,
    {
        let k: u64 = self.iterate_times.wrapping_mul(4);
        let g: u64 = self.value.wrapping_add(k);
        proof {
            lemma_fold_bits(g);
        }
        if g < 0x8000_0000_0000_0000 {
            self.value = (g << 1) | 1;
        } else {
            self.value = (u64::MAX - g) << 1;
        }
        self.iterate_times = self.iterate_times.wrapping_add(1);
        self.value
    }

    /// Fills `vec` with the next `times` words, provided it has exactly
    /// `times` slots; otherwise nothing changes.
    pub fn iterate_vec(&mut self, times: u64, vec: &mut [u64]) -> (ret: Result<(), encryp_error>)
        ensures
            ret is Ok <==> old(vec)@.len() == times,
            ret is Err ==> ret == Err::<(), encryp_error>(encryp_error::LengthMismatch),
            ret is Ok ==> final(vec)@ == old(self)@.words(times as nat),
            ret is Ok ==> final(self)@ == old(self)@.advance(times as nat),
            ret is Err ==> final(vec)@ == old(vec)@ && final(self)@ == old(self)@,
    {
        let len: usize = vec.len();
        if len as u64 != times {
            return Err(encryp_error::LengthMismatch);
        }
        let ghost start = self@;
        let mut it: usize = 0;
        while it < len
            invariant
                it <= len,
                len == vec@.len(),
                self@ == start.advance(it as nat),
                forall|i: int| 0 <= i < it ==> vec@[i] == start.word(i as nat),
            decreases len - it,
        {
            let w: u64 = self.iterate();
            assert(w == start.word(it as nat));
            vec[it] = w;
            it += 1;
        }
        assert(vec@ =~= start.words(times as nat));
        Ok(())
    }

    /// XORs the keystream into `vec` in place, one word for every eight
    /// bytes, provided the length is a multiple of 8; otherwise nothing
    /// changes. Applying the same stretch of keystream twice restores the
    /// bytes, so this is the transform of both directions.
    pub fn encrypt(&mut self, vec: &mut [u8]) -> (ret: Result<(), encryp_error>)
        ensures
            ret is Ok <==> old(vec)@.len() % 8 == 0,
            ret is Err ==> ret == Err::<(), encryp_error>(encryp_error::AlignmentError),
            ret is Ok ==> final(vec)@ == old(self)@.xor_bytes(old(vec)@),
            ret is Ok ==> final(self)@ == old(self)@.advance((old(vec)@.len() / 8) as nat),
            ret is Err ==> final(vec)@ == old(vec)@ && final(self)@ == old(self)@,
    {
        let len: usize = vec.len();
        if len % 8 != 0 {
            return Err(encryp_error::AlignmentError);
        }
        let words: usize = len / 8;
        let ghost start = self@;
        let ghost data = vec@;
        let mut it: usize = 0;
        while it < words
            invariant
                it <= words,
                len == 8 * words,
                len == vec@.len(),
                data.len() == len,
                self@ == start.advance(it as nat),
                forall|i: int| 0 <= i < 8 * it ==> vec@[i] == data[i] ^ start.key_byte(i as nat),
                forall|i: int| 8 * it <= i < len ==> vec@[i] == data[i],
            decreases words - it,
        {
            let w: u64 = self.iterate();
            assert(w == start.word(it as nat));
            let base: usize = it * 8;
            let mut j: usize = 0;
            while j < 8
                invariant
                    j <= 8,
                    it < words,
                    base == 8 * it,
                    len == 8 * words,
                    len == vec@.len(),
                    data.len() == len,
                    w == start.word(it as nat),
                    forall|i: int| 0 <= i < base + j ==> vec@[i] == data[i] ^ start.key_byte(i as nat),
                    forall|i: int| base + j <= i < len ==> vec@[i] == data[i],
                decreases 8 - j,
            {
                let b: u8 = byte_of(w, j);
                let ghost pos = (base + j) as nat;
                assert(pos / 8 == it && pos % 8 == j);
                vec[base + j] = vec[base + j] ^ b;
                j += 1;
            }
            it += 1;
        }
        assert(vec@ =~= start.xor_bytes(data));
        Ok(())
    }

    /// Advances by `times` words and discards them.
    pub fn iterate_no_ret(&mut self, times: u64)
        ensures
            final(self)@ == old(self)@.advance(times as nat),
    {
        let ghost start = self@;
        let mut i: u64 = 0;
        while i < times
            invariant
                i <= times,
                self@ == start.advance(i as nat),
            decreases times - i,
        {
            self.iterate();
            i += 1;
        }
    }
}

/// The keystream byte of an index depends on the index alone, so the
/// transform of a prefix is the prefix of the transform.
pub proof fn lemma_xor_bytes_prefix(s: keystream_state, data: Seq<u8>, n: int)
    requires
        0 <= n <= data.len(),
    ensures
        s.xor_bytes(data.subrange(0, n)) == s.xor_bytes(data).subrange(0, n),
{
    assert(s.xor_bytes(data.subrange(0, n)) =~= s.xor_bytes(data).subrange(0, n));
}

/// A stream cut at a multiple of 8 bytes may be transformed piece by
/// piece: the second piece goes on where the first one ended.
pub proof fn lemma_xor_bytes_concat(s: keystream_state, a: Seq<u8>, b: Seq<u8>)
    requires
        a.len() % 8 == 0,
    ensures
        s.xor_bytes(a + b) == s.xor_bytes(a) + s.advance(a.len() / 8).xor_bytes(b),
{
    let words = a.len() / 8;
    let whole = s.xor_bytes(a + b);
    let parts = s.xor_bytes(a) + s.advance(words).xor_bytes(b);
    assert forall|i: int| 0 <= i < whole.len() implies whole[i] == parts[i] by {
        if i >= a.len() {
            let j = (i - a.len()) as nat;
            assert(i / 8 == words + j / 8 && i % 8 == j % 8);
            lemma_word_shift(s, words, j / 8);
        }
    }
    assert(whole =~= parts);
}

/// Read as little-endian words, a transformed buffer holds the words of
/// the buffer, each XORed with the emitted word of its index.
pub proof fn lemma_xor_bytes_by_words(s: keystream_state, data: Seq<u8>, i: int)
    requires
        0 <= i,
        8 * i + 8 <= data.len(),
    ensures
        u64_from_le(s.xor_bytes(data).subrange(8 * i, 8 * i + 8)) == u64_from_le(
            data.subrange(8 * i, 8 * i + 8),
        ) ^ s.word(i as nat),
{
    let before = data.subrange(8 * i, 8 * i + 8);
    let after = s.xor_bytes(data).subrange(8 * i, 8 * i + 8);
    let word = u64_from_le(before);
    let key = s.word(i as nat);
    lemma_u64_le_of_bytes(before);
    assert forall|j: int| 0 <= j < 8 implies after[j] == u64_to_le(word ^ key)[j] by {
        assert((8 * i + j) / 8 == i && (8 * i + j) % 8 == j);
        assert(before[j] == u64_to_le(word)[j]);
        lemma_le_byte_xor(word, key, j);
    }
    assert(after =~= u64_to_le(word ^ key));
    lemma_u64_le_round_trip(word ^ key);
}

/// Applying the same stretch of keystream twice restores the bytes.
pub proof fn lemma_xor_bytes_involution(s: keystream_state, data: Seq<u8>)
    ensures
        s.xor_bytes(s.xor_bytes(data)) == data,
{
    let twice = s.xor_bytes(s.xor_bytes(data));
    assert forall|i: int| 0 <= i < data.len() implies twice[i] == data[i] by {
        let x = data[i];
        let k = s.key_byte(i as nat);
        assert((x ^ k) ^ k == x) by (bit_vector);
    }
    assert(twice =~= data);
}

/// Number of words that a sequence of calls asks for in all.
pub open spec fn total_words(sizes: Seq<nat>) -> nat
    decreases sizes.len(),
{
    if sizes.len() == 0 {
        0
    } else {
        total_words(sizes.drop_last()) + sizes.last()
    }
}

/// The state after a sequence of calls, of which call `i` asks for
/// `sizes[i]` words.
pub open spec fn state_after_calls(start: keystream_state, sizes: Seq<nat>) -> keystream_state
    decreases sizes.len(),
{
    if sizes.len() == 0 {
        start
    } else {
        state_after_calls(start, sizes.drop_last()).advance(sizes.last())
    }
}

/// The words that a sequence of calls emits, in order.
pub open spec fn words_of_calls(start: keystream_state, sizes: Seq<nat>) -> Seq<u64>
    decreases sizes.len(),
{
    if sizes.len() == 0 {
        Seq::empty()
    } else {
        words_of_calls(start, sizes.drop_last()) + state_after_calls(
            start,
            sizes.drop_last(),
        ).words(sizes.last())
    }
}

/// However a word count is split over calls, the calls leave the state
/// that one call for all the words leaves, and emit the same words.
pub proof fn lemma_calls_are_one_call(start: keystream_state, sizes: Seq<nat>)
    ensures
        state_after_calls(start, sizes) == start.advance(total_words(sizes)),
        words_of_calls(start, sizes) == start.words(total_words(sizes)),
    decreases sizes.len(),
{
    if sizes.len() > 0 {
        let before = sizes.drop_last();
        let n = total_words(before);
        lemma_calls_are_one_call(start, before);
        lemma_advance_add(start, n, sizes.last());
        let split = start.words(n) + start.advance(n).words(sizes.last());
        let whole = start.words(n + sizes.last());
        assert forall|i: int| 0 <= i < whole.len() implies split[i] == whole[i] by {
            if i >= n {
                lemma_word_shift(start, n, (i - n) as nat);
            }
        }
        assert(split =~= whole);
    } else {
        assert(start.words(0) =~= Seq::<u64>::empty());
    }
}

/// Two generators made from the same seed, asked for the same number of
/// words in all, end in the same state and emit the same words, however
/// each count is split over calls.
pub proof fn lemma_keystream_determinism(seed: u64, first: Seq<nat>, second: Seq<nat>)
    requires
        total_words(first) == total_words(second),
    ensures
        state_after_calls(keystream_state { value: seed, step_count: 0 }, first)
            == state_after_calls(keystream_state { value: seed, step_count: 0 }, second),
        words_of_calls(keystream_state { value: seed, step_count: 0 }, first) == words_of_calls(
            keystream_state { value: seed, step_count: 0 },
            second,
        ),
{
    let start = keystream_state { value: seed, step_count: 0 };
    lemma_calls_are_one_call(start, first);
    lemma_calls_are_one_call(start, second);
}

} // verus!
