use crate::bytes::{get_u64_le, u64_from_le};
use crate::digest::{absorbed, hasher_finalize, hasher_new, hasher_update, sha3_512_of, DIGEST_LEN};
use crate::options::encryp_option;
use crate::tent::keystream_state;
use vstd::prelude::*;

verus! {

/// The bytes of a password: its UTF-8 encoding.
pub open spec fn password_bytes(password: Seq<char>) -> Seq<u8> {
    vstd::utf8::encode_utf8(password)
}

/// The digest of a password followed by a salt.
pub open spec fn salted_digest_of(password: Seq<char>, salt: Seq<u8>) -> Seq<u8> {
    sha3_512_of(password_bytes(password) + salt)
}

/// The XOR of the first `n` little-endian 64-bit words of a digest.
pub open spec fn fold_words(digest: Seq<u8>, n: nat) -> u64
    recommends
        8 * n <= digest.len(),
    decreases n,
{
    if n == 0 {
        0
    } else {
        fold_words(digest, (n - 1) as nat) ^ u64_from_le(digest.subrange(8 * (n - 1), 8 * n as int))
    }
}

/// A digest folded to 64 bits: the XOR of its eight little-endian words.
pub open spec fn fold_seed(digest: Seq<u8>) -> u64
    recommends
        digest.len() == DIGEST_LEN,
{
    fold_words(digest, 8)
}

/// The state in which the keystream of a password and a second salt starts.
pub open spec fn seed_state(password: Seq<char>, salt_b: Seq<u8>) -> keystream_state {
    keystream_state { value: fold_seed(salted_digest_of(password, salt_b)), step_count: 0 }
}

/// The SHA3-512 digest of the password followed by `salt`.
pub fn salted_digest(password: &String, salt: &Vec<u8>) -> (out: Vec<u8>)
    ensures
        out@ == salted_digest_of(password@, salt@),
        out@.len() == DIGEST_LEN,
{
    let mut hasher = hasher_new();
    hasher_update(&mut hasher, password.as_str().as_bytes());
    hasher_update(&mut hasher, salt.as_slice());
    assert(absorbed(hasher) =~= password_bytes(password@) + salt@);
    hasher_finalize(hasher)
}

/// Folds a digest to 64 bits: the XOR of its eight little-endian words.
pub fn fold_digest(digest: &[u8]) -> (x: u64)
    requires
        digest@.len() == DIGEST_LEN,
    ensures
        x == fold_seed(digest@),
{
    let mut x: u64 = 0;
    let mut i: usize = 0;
    while i < 8
        invariant
            i <= 8,
            digest@.len() == DIGEST_LEN,
            x == fold_words(digest@, i as nat),
        decreases 8 - i,
    {
        x = x ^ get_u64_le(digest, i * 8);
        i += 1;
    }
    x
}

/// The seed of the keystream: the digest of the password and the second
/// salt, folded to 64 bits.
pub fn compute_initial_x(opt: &encryp_option) -> (x_beg: u64)
    ensures
        x_beg == seed_state(opt.password@, opt.salt_b@).value,
{
    let digest = salted_digest(&opt.password, &opt.salt_b);
    fold_digest(digest.as_slice())
}

/// Whether the password of `opt`, salted with its first salt, reproduces
/// `password_hash` byte for byte.
pub fn exmaine_password(opt: &encryp_option, password_hash: &Vec<u8>) -> (ret: bool)
    ensures
        ret == (salted_digest_of(opt.password@, opt.salt_a@) == password_hash@),
{
    let digest = salted_digest(&opt.password, &opt.salt_a);
    same_bytes(&digest, password_hash)
}

/// Whether two buffers hold the same bytes.
pub fn same_bytes(a: &Vec<u8>, b: &Vec<u8>) -> (ret: bool)
    ensures
        ret == (a@ == b@),
{
    if a.len() != b.len() {
        return false;
    }
    let mut idx: usize = 0;
    while idx < a.len()
        invariant
            idx <= a@.len(),
            a@.len() == b@.len(),
            forall|i: int| 0 <= i < idx ==> a@[i] == b@[i],
        decreases a@.len() - idx,
    {
        if a[idx] != b[idx] {
            return false;
        }
        idx += 1;
    }
    assert(a@ =~= b@);
    true
}

} // verus!
