use crate::container::{
    block_bytes, block_head_bytes, data_block_type, file_head, write_data_block,
    write_data_block_head, write_file_head, TAG_CIPHERTEXT, TAG_HASH_PASSWORD, TAG_SALT_A,
    TAG_SALT_B, TAG_SHA3_512_ORIGINAL_FILE,
};
use crate::digest::{absorbed, hasher_finalize, hasher_new, hasher_update, sha3_512_of, sha3_hasher};
use crate::keys::{compute_initial_x, salted_digest, salted_digest_of, seed_state};
use crate::options::encryp_option;
use crate::stream::{lemma_chunk_step, transform_chunk, words_for, xor_chunked};
use crate::tent::{keystream_state, tent_chaos};
use vstd::prelude::*;

verus! {

/// What a container holds before its ciphertext: the magic header, the two
/// salts, the password hash, and the head of the ciphertext record, which
/// announces `source_len` bytes.
pub open spec fn container_opening(
    password: Seq<char>,
    salt_a: Seq<u8>,
    salt_b: Seq<u8>,
    source_len: u64,
) -> Seq<u8> {
    file_head() + block_bytes(TAG_SALT_A, salt_a) + block_bytes(TAG_SALT_B, salt_b) + block_bytes(
        TAG_HASH_PASSWORD,
        salted_digest_of(password, salt_a),
    ) + block_head_bytes(TAG_CIPHERTEXT, source_len)
}

/// The container of a plaintext: the magic header, the two salts, the
/// password hash, the ciphertext and the digest of the plaintext, each in
/// a record of its own, in this order.
pub open spec fn container_bytes(
    plain: Seq<u8>,
    password: Seq<char>,
    salt_a: Seq<u8>,
    salt_b: Seq<u8>,
    chunk: nat,
) -> Seq<u8> {
    file_head() + block_bytes(TAG_SALT_A, salt_a) + block_bytes(TAG_SALT_B, salt_b) + block_bytes(
        TAG_HASH_PASSWORD,
        salted_digest_of(password, salt_a),
    ) + block_bytes(TAG_CIPHERTEXT, xor_chunked(seed_state(password, salt_b), plain, chunk))
        + block_bytes(TAG_SHA3_512_ORIGINAL_FILE, sha3_512_of(plain))
}

/// An encryption under way. It is started with what precedes the
/// ciphertext, fed the plaintext chunk by chunk, and finished with the
/// record that holds the digest of the plaintext.
pub struct encryptor {
    tent: tent_chaos,
    digest: sha3_hasher,
    buffer_size: usize,
}

impl encryptor {
    /// The state of the keystream generator.
    pub closed spec fn state(&self) -> keystream_state {
        self.tent@
    }

    /// The plaintext taken in so far.
    pub closed spec fn taken(&self) -> Seq<u8> {
        absorbed(self.digest)
    }

    /// The chunk size that the encryption was started with.
    pub closed spec fn chunk_size(&self) -> usize {
        self.buffer_size
    }

    /// Starts an encryption of `source_len` bytes and appends to `out`
    /// what precedes the ciphertext.
    pub fn start(opt: &encryp_option, source_len: u64, out: &mut Vec<u8>) -> (ret: encryptor)
        requires
            opt.buffer_size >= 8,
        ensures
            final(out)@ == old(out)@ + container_opening(
                opt.password@,
                opt.salt_a@,
                opt.salt_b@,
                source_len,
            ),
            ret.state() == seed_state(opt.password@, opt.salt_b@),
            ret.taken() == Seq::<u8>::empty(),
            ret.chunk_size() == opt.buffer_size,
    {
        let ghost before = out@;
        write_file_head(out);
        write_data_block(out, data_block_type::salt_a, opt.salt_a.as_slice());
        write_data_block(out, data_block_type::salt_b, opt.salt_b.as_slice());
        let hash_psw = salted_digest(&opt.password, &opt.salt_a);
        write_data_block(out, data_block_type::hash_password, hash_psw.as_slice());
        write_data_block_head(out, data_block_type::ciphertext, source_len);
        assert(out@ =~= before + container_opening(
            opt.password@,
            opt.salt_a@,
            opt.salt_b@,
            source_len,
        ));
        let x_beg: u64 = compute_initial_x(opt);
        encryptor { tent: tent_chaos::new(x_beg), digest: hasher_new(), buffer_size: opt.buffer_size }
    }

    /// Takes one chunk of plaintext and turns it into ciphertext in place.
    /// The keystream is applied to the chunk padded to a multiple of 8
    /// bytes, so the next chunk starts on a fresh keystream word. The
    /// result says whether more is to come: a chunk shorter than the chunk
    /// size is the last one.
    pub fn feed(&mut self, chunk: &mut Vec<u8>) -> (more: bool)
        ensures
            final(chunk)@ == old(self).state().xor_bytes(old(chunk)@),
            final(self).state() == old(self).state().advance(words_for(old(chunk)@.len())),
            final(self).taken() == old(self).taken() + old(chunk)@,
            final(self).chunk_size() == old(self).chunk_size(),
            more == (old(chunk)@.len() >= old(self).chunk_size()),
    {
        let more = chunk.len() >= self.buffer_size;
        hasher_update(&mut self.digest, chunk.as_slice());
        transform_chunk(&mut self.tent, chunk);
        more
    }

    /// Ends the encryption: appends to `out` the record that holds the
    /// digest of all the plaintext taken in.
    pub fn finish(self, out: &mut Vec<u8>)
        ensures
            final(out)@ == old(out)@ + block_bytes(
                TAG_SHA3_512_ORIGINAL_FILE,
                sha3_512_of(self.taken()),
            ),
    {
        let digest = hasher_finalize(self.digest);
        write_data_block(out, data_block_type::sha3_512_original_file, digest.as_slice());
    }
}

/// Encrypts `plain` into a container, with the password, the salts and the
/// chunk size of `opt`.
pub fn encrypt_bytes(plain: &[u8], opt: &encryp_option) -> (out: Vec<u8>)
    requires
        opt.buffer_size >= 8,
    ensures
        out@ == container_bytes(
            plain@,
            opt.password@,
            opt.salt_a@,
            opt.salt_b@,
            opt.buffer_size as nat,
        ),
{
    let len: usize = plain.len();
    let buffer_size: usize = opt.buffer_size;
    let mut out: Vec<u8> = Vec::new();
    let mut session = encryptor::start(opt, len as u64, &mut out);
    let ghost opening = out@;
    let ghost start = seed_state(opt.password@, opt.salt_b@);
    let ghost whole = xor_chunked(start, plain@, buffer_size as nat);
    let ghost per_chunk = words_for(buffer_size as nat);
    let ghost mut chunks: nat = 0;
    let mut pos: usize = 0;
    assert(whole.subrange(0, 0) =~= Seq::<u8>::empty());
    assert(plain@.subrange(0, 0) =~= Seq::<u8>::empty());
    while pos < len
        invariant
            pos <= len,
            len == plain@.len(),
            buffer_size >= 8,
            session.chunk_size() == buffer_size,
            whole == xor_chunked(start, plain@, buffer_size as nat),
            per_chunk == words_for(buffer_size as nat),
            out@ == opening + whole.subrange(0, pos as int),
            pos < len ==> pos == chunks * buffer_size && session.state() == start.advance(
                chunks * per_chunk,
            ),
            session.taken() == plain@.subrange(0, pos as int),
        decreases len - pos,
    {
        let n: usize = if len - pos < buffer_size {
            len - pos
        } else {
            buffer_size
        };
        let mut chunk: Vec<u8> = vstd::slice::slice_to_vec(
            vstd::slice::slice_subrange(plain, pos, pos + n),
        );
        assert(plain@.subrange(0, pos + n) =~= plain@.subrange(0, pos as int) + chunk@);
        session.feed(&mut chunk);
        proof {
            lemma_chunk_step(start, plain@, buffer_size as nat, chunks, n as nat, chunk@);
            chunks = chunks + 1;
        }
        let ghost grown = out@ + chunk@;
        out.append(&mut chunk);
        assert(grown =~= opening + whole.subrange(0, pos + n));
        pos = pos + n;
    }
    assert(whole.subrange(0, len as int) =~= whole);
    assert(plain@.subrange(0, len as int) =~= plain@);
    session.finish(&mut out);
    assert(out@ =~= container_bytes(
        plain@,
        opt.password@,
        opt.salt_a@,
        opt.salt_b@,
        opt.buffer_size as nat,
    ));
    out
}

} // verus!
