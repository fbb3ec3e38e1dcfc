use crate::digest::{absorbed, hasher_finalize, hasher_new, hasher_update, sha3_512_of, DIGEST_LEN};
use vstd::prelude::*;

verus! {

/// Number of bytes that `checksum` hands to the digest at a time.
pub const CHECKSUM_BUFFER_LEN: usize = 65536;

/// The SHA3-512 digest of `data`, taken in pieces of 64 KiB.
pub fn checksum(data: &[u8]) -> (out: Vec<u8>)
    ensures
        out@ == sha3_512_of(data@),
        out@.len() == DIGEST_LEN,
{
    let len: usize = data.len();
    let mut hasher = hasher_new();
    let mut pos: usize = 0;
    assert(data@.subrange(0, 0) =~= Seq::<u8>::empty());
    while pos < len
        invariant
            pos <= len,
            len == data@.len(),
            absorbed(hasher) == data@.subrange(0, pos as int),
        decreases len - pos,
    {
        let n: usize = if len - pos < CHECKSUM_BUFFER_LEN {
            len - pos
        } else {
            CHECKSUM_BUFFER_LEN
        };
        let piece = vstd::slice::slice_subrange(data, pos, pos + n);
        assert(data@.subrange(0, pos + n) =~= data@.subrange(0, pos as int) + piece@);
        hasher_update(&mut hasher, piece);
        pos = pos + n;
    }
    assert(data@.subrange(0, len as int) =~= data@);
    hasher_finalize(hasher)
}

} // verus!
