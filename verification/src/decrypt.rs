use crate::container::{
    block_entry, ciphertext_info, ciphertext_of, encrypted_file, get_ciphertext_info, get_hashes,
    get_salt, inline_of, lemma_parse_well_formed, parse_container, TAG_HASH_PASSWORD,
    TAG_SALT_A, TAG_SALT_B, TAG_SHA3_512_ORIGINAL_FILE,
};
use crate::digest::{absorbed, hasher_finalize, hasher_new, hasher_update, sha3_512_of, sha3_hasher};
use crate::error::encryp_error;
use crate::keys::{compute_initial_x, exmaine_password, salted_digest_of, same_bytes, seed_state};
use crate::options::encryp_option;
use crate::reader::parse_encrypted_file;
use crate::stream::{lemma_chunk_step, transform_chunk, words_for, xor_chunked};
use crate::tent::{keystream_state, tent_chaos};
use vstd::prelude::*;

verus! {

/// The first check that an index and a password fail before anything is
/// decrypted, if they fail one. The checks come in this order: the two
/// salts; the password hash and the plaintext digest; the ciphertext; the
/// password.
pub open spec fn opening_error(index: Map<u64, block_entry>, password: Seq<char>) -> Option<
    encryp_error,
> {
    if inline_of(index, TAG_SALT_A) is None || inline_of(index, TAG_SALT_B) is None {
        Some(encryp_error::MissingField)
    } else if inline_of(index, TAG_HASH_PASSWORD) is None || inline_of(
        index,
        TAG_SHA3_512_ORIGINAL_FILE,
    ) is None {
        Some(encryp_error::MissingField)
    } else if ciphertext_of(index) is None {
        Some(encryp_error::MissingCiphertext)
    } else if salted_digest_of(password, inline_of(index, TAG_SALT_A)->0) != inline_of(
        index,
        TAG_HASH_PASSWORD,
    )->0 {
        Some(encryp_error::WrongPassword)
    } else {
        None
    }
}

/// What decrypting a container with a password gives: the plaintext, or
/// the first check that fails. The framing is checked first, then what
/// `opening_error` checks, and last the digest of what was decrypted.
pub open spec fn decrypt_container(data: Seq<u8>, password: Seq<char>, chunk: nat) -> Result<
    Seq<u8>,
    encryp_error,
> {
    match parse_container(data) {
        Err(e) => Err(e),
        Ok(index) => match opening_error(index, password) {
            Some(e) => Err(e),
            None => {
                let info = ciphertext_of(index)->0;
                let cipher = data.subrange(info.offset as int, info.offset + info.length);
                let plain = xor_chunked(
                    seed_state(password, inline_of(index, TAG_SALT_B)->0),
                    cipher,
                    chunk,
                );
                if sha3_512_of(plain) != inline_of(index, TAG_SHA3_512_ORIGINAL_FILE)->0 {
                    Err(encryp_error::IntegrityFailure)
                } else {
                    Ok(plain)
                }
            },
        },
    }
}

/// Number of bytes of a chunk of `read` bytes that belong to a ciphertext
/// of which `left` bytes are still to come.
pub open spec fn usable_len(read: nat, left: u64) -> nat {
    if read > left {
        left as nat
    } else {
        read
    }
}

/// A decryption under way. It is started from the index of a container
/// and a password, fed the ciphertext chunk by chunk, and finished with
/// the check of the digest of what came out.
pub struct decryptor {
    tent: tent_chaos,
    digest: sha3_hasher,
    stored: Vec<u8>,
    info: ciphertext_info,
    left: u64,
    buffer_size: usize,
}

impl decryptor {
    /// The state of the keystream generator.
    pub closed spec fn state(&self) -> keystream_state {
        self.tent@
    }

    /// The plaintext that has come out so far.
    pub closed spec fn produced(&self) -> Seq<u8> {
        absorbed(self.digest)
    }

    /// The digest that the container holds for its plaintext.
    pub closed spec fn stored_digest(&self) -> Seq<u8> {
        self.stored@
    }

    /// Where the ciphertext lies in the container.
    pub closed spec fn range(&self) -> ciphertext_info {
        self.info
    }

    /// Number of ciphertext bytes still to come.
    pub closed spec fn left(&self) -> u64 {
        self.left
    }

    /// The chunk size that the decryption was started with.
    pub closed spec fn chunk_size(&self) -> usize {
        self.buffer_size
    }

    /// Starts a decryption from the index of a container, with the
    /// password and the chunk size of `opt`. The salts of `opt` play no
    /// part: those of the container are used. Nothing is decrypted before
    /// the password has passed its check.
    pub fn start(efile: &encrypted_file, opt: &encryp_option) -> (ret: Result<
        decryptor,
        encryp_error,
    >)
        requires
            opt.buffer_size >= 8,
        ensures
            match ret {
                Err(e) => opening_error(efile@, opt.password@) == Some(e),
                Ok(session) => {
                    &&& opening_error(efile@, opt.password@) is None
                    &&& session.state() == seed_state(
                        opt.password@,
                        inline_of(efile@, TAG_SALT_B)->0,
                    )
                    &&& session.produced() == Seq::<u8>::empty()
                    &&& session.stored_digest() == inline_of(efile@, TAG_SHA3_512_ORIGINAL_FILE)->0
                    &&& session.range() == ciphertext_of(efile@)->0
                    &&& session.left() == session.range().length
                    &&& session.chunk_size() == opt.buffer_size
                },
            },
    {
        let mut own = encryp_option {
            keep: opt.keep,
            cover_existing_file: opt.cover_existing_file,
            buffer_size: opt.buffer_size,
            password: opt.password.clone(),
            salt_a: Vec::new(),
            salt_b: Vec::new(),
        };
        match get_salt(&mut own, efile) {
            Ok(()) => {},
            Err(e) => {
                return Err(e);
            },
        }
        let hashes = match get_hashes(efile) {
            Ok(hashes) => hashes,
            Err(e) => {
                return Err(e);
            },
        };
        let info = match get_ciphertext_info(efile) {
            Ok(info) => info,
            Err(e) => {
                return Err(e);
            },
        };
        if !exmaine_password(&own, &hashes.0) {
            return Err(encryp_error::WrongPassword);
        }
        let x_beg: u64 = compute_initial_x(&own);
        Ok(
            decryptor {
                tent: tent_chaos::new(x_beg),
                digest: hasher_new(),
                stored: hashes.1,
                info,
                left: info.length,
                buffer_size: opt.buffer_size,
            },
        )
    }

    /// Where the ciphertext lies in the container: whoever feeds the
    /// decryption reads from there.
    pub fn ciphertext(&self) -> (info: ciphertext_info)
        ensures
            info == self.range(),
    {
        self.info
    }

    /// Takes what was read of the ciphertext and turns it into plaintext
    /// in place. What was read beyond the end of the ciphertext is
    /// dropped first. The keystream is applied to the rest padded to a
    /// multiple of 8 bytes, so the next chunk starts on a fresh keystream
    /// word. The result says whether ciphertext is still to come.
    pub fn feed(&mut self, chunk: &mut Vec<u8>) -> (more: bool)
        ensures
            final(chunk)@ == old(self).state().xor_bytes(
                old(chunk)@.subrange(0, usable_len(old(chunk)@.len(), old(self).left()) as int),
            ),
            final(self).state() == old(self).state().advance(
                words_for(usable_len(old(chunk)@.len(), old(self).left())),
            ),
            final(self).produced() == old(self).produced() + final(chunk)@,
            final(self).left() == old(self).left() - usable_len(
                old(chunk)@.len(),
                old(self).left(),
            ),
            final(self).stored_digest() == old(self).stored_digest(),
            final(self).range() == old(self).range(),
            final(self).chunk_size() == old(self).chunk_size(),
            more == (final(self).left() > 0),
    {
        if chunk.len() as u64 > self.left {
            chunk.truncate(self.left as usize);
        }
        self.left = self.left - chunk.len() as u64;
        transform_chunk(&mut self.tent, chunk);
        hasher_update(&mut self.digest, chunk.as_slice());
        self.left > 0
    }

    /// Ends the decryption: the digest of all that came out must be the
    /// one that the container holds.
    pub fn finish(self) -> (ret: Result<(), encryp_error>)
        ensures
            ret is Ok <==> sha3_512_of(self.produced()) == self.stored_digest(),
            ret is Err ==> ret == Err::<(), encryp_error>(encryp_error::IntegrityFailure),
    {
        let digest = hasher_finalize(self.digest);
        if same_bytes(&digest, &self.stored) {
            Ok(())
        } else {
            Err(encryp_error::IntegrityFailure)
        }
    }
}

/// Decrypts a container with the password and the chunk size of `opt`. The
/// salts of `opt` play no part: those of the container are used.
pub fn decrypt_bytes(data: &[u8], opt: &encryp_option) -> (ret: Result<Vec<u8>, encryp_error>)
    requires
        opt.buffer_size >= 8,
    ensures
        match ret {
            Ok(plain) => decrypt_container(data@, opt.password@, opt.buffer_size as nat) == Ok::<
                Seq<u8>,
                encryp_error,
            >(plain@),
            Err(e) => decrypt_container(data@, opt.password@, opt.buffer_size as nat) == Err::<
                Seq<u8>,
                encryp_error,
            >(e),
        },
{
    let total: usize = data.len();
    let buffer_size: usize = opt.buffer_size;
    let efile = match parse_encrypted_file(data) {
        Ok(efile) => efile,
        Err(e) => {
            return Err(e);
        },
    };
    let mut session = match decryptor::start(&efile, opt) {
        Ok(session) => session,
        Err(e) => {
            return Err(e);
        },
    };
    proof {
        lemma_parse_well_formed(data@);
    }
    let info = session.ciphertext();
    let first: usize = info.offset as usize;
    let len: usize = info.length as usize;
    let ghost cipher = data@.subrange(first as int, first + len);
    let ghost start = session.state();
    let ghost whole = xor_chunked(start, cipher, buffer_size as nat);
    let ghost per_chunk = words_for(buffer_size as nat);
    let ghost mut chunks: nat = 0;
    let mut plain: Vec<u8> = Vec::new();
    let mut pos: usize = 0;
    assert(whole.subrange(0, 0) =~= Seq::<u8>::empty());
    while pos < len
        invariant
            pos <= len,
            first + len <= total,
            total == data@.len(),
            buffer_size >= 8,
            cipher == data@.subrange(first as int, first + len),
            session.chunk_size() == buffer_size,
            session.left() == len - pos,
            session.stored_digest() == inline_of(efile@, TAG_SHA3_512_ORIGINAL_FILE)->0,
            whole == xor_chunked(start, cipher, buffer_size as nat),
            per_chunk == words_for(buffer_size as nat),
            plain@ == whole.subrange(0, pos as int),
            pos < len ==> pos == chunks * buffer_size && session.state() == start.advance(
                chunks * per_chunk,
            ),
            session.produced() == plain@,
        decreases len - pos,
    {
        let from: usize = first + pos;
        let read: usize = if total - from < buffer_size {
            total - from
        } else {
            buffer_size
        };
        let n: usize = if len - pos < read {
            len - pos
        } else {
            read
        };
        let mut chunk: Vec<u8> = vstd::slice::slice_to_vec(
            vstd::slice::slice_subrange(data, from, from + read),
        );
        assert(chunk@.subrange(0, n as int) =~= cipher.subrange(pos as int, pos + n));
        session.feed(&mut chunk);
        proof {
            lemma_chunk_step(start, cipher, buffer_size as nat, chunks, n as nat, chunk@);
            chunks = chunks + 1;
        }
        let ghost grown = plain@ + chunk@;
        plain.append(&mut chunk);
        assert(grown =~= whole.subrange(0, pos + n));
        pos = pos + n;
    }
    assert(whole.subrange(0, len as int) =~= whole);
    match session.finish() {
        Ok(()) => Ok(plain),
        Err(e) => Err(e),
    }
}

} // verus!
