use crate::bytes::{u128_le_bytes, u128_to_le};
use crate::error::encryp_error;
use vstd::prelude::*;

verus! {

/// Number of bytes in a freshly drawn salt.
pub const SALT_LEN: usize = 16;

/// What one encryption or decryption is run with. The salts are drawn when
/// the options are created and travel in the container; a decryption
/// replaces them with those of the container before it uses them.
#[derive(Debug, Clone)]
pub struct encryp_option {
    pub keep: bool,
    pub cover_existing_file: bool,
    pub buffer_size: usize,
    pub password: String,
    pub salt_a: Vec<u8>,
    pub salt_b: Vec<u8>,
}

/// Wraps `rand::Rng::gen` on `rand::thread_rng()`: 128 bits from the
/// thread's generator. Nothing is promised of them.
#[verifier::external_body]
fn random_u128() -> (r: u128) {
    rand::Rng::gen(&mut rand::thread_rng())
}

impl encryp_option {
    /// Options whose two salts are the little-endian layouts of `salt_a`
    /// and `salt_b`.
    pub fn with_salts(
        keep: bool,
        cover_existing_file: bool,
        password: &String,
        buffer_size: usize,
        salt_a: u128,
        salt_b: u128,
    ) -> (ret: encryp_option)
        ensures
            ret.keep == keep,
            ret.cover_existing_file == cover_existing_file,
            ret.buffer_size == buffer_size,
            ret.password@ == password@,
            ret.salt_a@ == u128_to_le(salt_a),
            ret.salt_b@ == u128_to_le(salt_b),
    {
        encryp_option {
            keep,
            cover_existing_file,
            buffer_size,
            password: password.clone(),
            salt_a: u128_le_bytes(salt_a),
            salt_b: u128_le_bytes(salt_b),
        }
    }

    /// Options with two freshly drawn salts of 16 bytes each.
    pub fn create(keep: bool, cover_existing_file: bool, password: &String, buffer_size: usize) -> (ret:
        encryp_option)
        ensures
            ret.keep == keep,
            ret.cover_existing_file == cover_existing_file,
            ret.buffer_size == buffer_size,
            ret.password@ == password@,
            ret.salt_a@.len() == SALT_LEN,
            ret.salt_b@.len() == SALT_LEN,
    {
        let salt_a: u128 = random_u128();
        let salt_b: u128 = random_u128();
        encryp_option::with_salts(keep, cover_existing_file, password, buffer_size, salt_a, salt_b)
    }

    /// Whether a source and a destination may be opened. The two names
    /// must differ, and a destination that exists must be allowed to be
    /// overwritten; the names are looked at first.
    pub fn check_paths(&self, src_name: &String, dst_name: &String, dst_exists: bool) -> (ret: Result<
        (),
        encryp_error,
    >)
        ensures
            ret == if src_name@ == dst_name@ {
                Err::<(), encryp_error>(encryp_error::InvalidArguments)
            } else if dst_exists && !self.cover_existing_file {
                Err::<(), encryp_error>(encryp_error::DestinationExists)
            } else {
                Ok::<(), encryp_error>(())
            },
    {
        if *src_name == *dst_name {
            return Err(encryp_error::InvalidArguments);
        }
        if dst_exists && !self.cover_existing_file {
            return Err(encryp_error::DestinationExists);
        }
        Ok(())
    }
}

/// What the attempts to open the source and to create or truncate the
/// destination amount to. The source is looked at first; a destination is
/// only asked for once the source is open.
pub fn check_opened(source_opened: bool, destination_created: bool) -> (ret: Result<
    (),
    encryp_error,
>)
    ensures
        ret == if !source_opened {
            Err::<(), encryp_error>(encryp_error::SourceUnavailable)
        } else if !destination_created {
            Err::<(), encryp_error>(encryp_error::DestinationUnavailable)
        } else {
            Ok::<(), encryp_error>(())
        },
{
    if !source_opened {
        return Err(encryp_error::SourceUnavailable);
    }
    if !destination_created {
        return Err(encryp_error::DestinationUnavailable);
    }
    Ok(())
}

} // verus!
