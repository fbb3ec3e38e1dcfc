use vstd::prelude::*;

verus! {

/// The SHA3-512 digest of a byte string: what `sha3::Sha3_512` computes of
/// it. The algorithm itself is not restated here.
pub uninterp spec fn sha3_512_of(data: Seq<u8>) -> Seq<u8>;

/// The bytes that a running digest has been fed so far, in order.
pub uninterp spec fn absorbed(h: sha3_hasher) -> Seq<u8>;

/// A running SHA3-512 computation, holding a `sha3::Sha3_512`. Nothing of
/// its inside is visible to proofs but the bytes it has been fed.
#[verifier::external_body]
pub struct sha3_hasher {
    inner: sha3::Sha3_512,
}

/// Number of bytes in a SHA3-512 digest.
pub const DIGEST_LEN: usize = 64;

/// Wraps `sha3::Digest::new` for `Sha3_512`: a fresh computation has been
/// fed nothing.
#[verifier::external_body]
pub(crate) fn hasher_new() -> (h: sha3_hasher)
    ensures
        absorbed(h) == Seq::<u8>::empty(),
{
    sha3_hasher { inner: <sha3::Sha3_512 as sha3::Digest>::new() }
}

/// Wraps `sha3::Digest::update`: the computation has been fed `data` after
/// what it had been fed before.
#[verifier::external_body]
pub(crate) fn hasher_update(h: &mut sha3_hasher, data: &[u8])
    ensures
        absorbed(*final(h)) == absorbed(*old(h)) + data@,
{
    sha3::Digest::update(&mut h.inner, data)
}

/// Wraps `sha3::Digest::finalize`: the result is the SHA3-512 digest of all
/// that was fed, and has 64 bytes.
#[verifier::external_body]
pub(crate) fn hasher_finalize(h: sha3_hasher) -> (out: Vec<u8>)
    ensures
        out@ == sha3_512_of(absorbed(h)),
        out@.len() == DIGEST_LEN,
{
    sha3::Digest::finalize(h.inner).to_vec()
}

} // verus!
