//! Building blocks of the RAR5 container.

pub mod headers;
pub mod laws;
pub mod vint;

use vstd::prelude::*;

verus! {

/// Version number of AES-256 encryption records.
pub const ENCR_VERSION_AES256: u8 = 0;

/// Encryption record flag: a password check value follows.
pub const ENCR_FLAG_CHECKSUM: u8 = 1;

/// Encryption record flag: checksums are MACed with the hash key.
pub const ENCR_FLAG_HASH_MAC: u8 = 2;

/// Bytes of a salt.
pub const ENCR_SALT_SIZE: usize = 16;

/// Bytes of an initialization vector.
pub const ENCR_IV_SIZE: usize = 16;

/// Bytes of a key.
pub const ENCR_KEY_SIZE: usize = 32;

/// Type of a file encryption record in an extra area.
pub const EXTRA_FILE_ENCRYPTION: u64 = 1;

/// Type of the archive encryption header block.
pub const BLOCK_TYPE_ENCRYPT_HEADER: u64 = 4;

} // verus!
