//! Password-based encryption of byte streams into self-describing
//! containers, and back.
//!
//! A container is a magic header followed by tagged, length-prefixed
//! records: two salts, a password hash, the ciphertext and a digest of the
//! plaintext. The cipher is a keystream of 64-bit words from a perturbed
//! tent map, XORed into the data. Every function states what it computes
//! over mathematical models of the keystream and of the wire format, and
//! the laws that tie encryption and decryption together are proved from
//! those statements.
#![allow(non_camel_case_types)]

pub mod bytes;
pub mod checksum;
pub mod container;
pub mod decrypt;
pub mod digest;
pub mod encrypt;
pub mod error;
pub mod keys;
pub mod laws;
pub mod options;
pub mod reader;
pub mod records;
pub mod stream;
pub mod tent;

pub use checksum::checksum;
pub use container::{
    ciphertext_info, data_block_content, data_block_data, data_block_type, encrypted_file,
    get_ciphertext_info, get_hashes, get_salt, write_data_block, write_data_block_head,
    write_file_head,
};
pub use decrypt::{decrypt_bytes, decryptor};
pub use encrypt::{encrypt_bytes, encryptor};
pub use error::encryp_error;
pub use keys::{compute_initial_x, exmaine_password, fold_digest, salted_digest, same_bytes};
pub use options::{check_opened, encryp_option};
pub use reader::{container_reader, parse_encrypted_file, read_step};
pub use stream::transform_chunk;
pub use tent::{keystream_state, tent_chaos};
