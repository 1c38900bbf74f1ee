//! RAR 1.5 to 4.x container family: fixed-width headers with a 16-bit
//! checksum over the header body.

pub mod batch;
pub mod comment;
pub mod create;
pub mod emit;
pub mod encode;
pub mod envelope;
pub mod ext_time;
pub mod extract;
pub mod headers;
pub mod laws;
pub mod member;
pub mod name_laws;
pub mod names;
pub mod open;
pub mod read;
pub mod reading_laws;
pub mod roundtrip;
pub mod scan;
pub mod stream;
pub mod writer;
pub mod writing_laws;

use vstd::prelude::*;

verus! {

/// Block types.
pub const MARK_HEAD: u8 = 0x72;

pub const MAIN_HEAD: u8 = 0x73;

pub const FILE_HEAD: u8 = 0x74;

/// A per-member comment block, standalone after the member data or nested in
/// its header.
pub const COMM_HEAD: u8 = 0x75;

/// A sub-block, such as the archive comment.
pub const NEWSUB_HEAD: u8 = 0x7a;

pub const ENDARC_HEAD: u8 = 0x7b;

/// Block flag: a data area follows the header.
pub const LONG_BLOCK: u16 = 0x8000;

/// File header flags.
pub const FHD_SPLIT_BEFORE: u16 = 0x0001;

pub const FHD_SPLIT_AFTER: u16 = 0x0002;

pub const FHD_PASSWORD: u16 = 0x0004;

pub const FHD_COMMENT: u16 = 0x0008;

pub const FHD_SOLID: u16 = 0x0010;

pub const FHD_LARGE: u16 = 0x0100;

pub const FHD_UNICODE: u16 = 0x0200;

pub const FHD_SALT: u16 = 0x0400;

pub const FHD_EXTTIME: u16 = 0x1000;

/// Main header flags.
pub const MHD_VOLUME: u16 = 0x0001;

pub const MHD_LOCK: u16 = 0x0004;

pub const MHD_SOLID: u16 = 0x0008;

pub const MHD_NEWNUMBERING: u16 = 0x0010;

pub const MHD_RECOVERY: u16 = 0x0040;

/// Every block after the main header is encrypted.
pub const MHD_PASSWORD: u16 = 0x0080;

pub const MHD_FIRSTVOLUME: u16 = 0x0100;

/// The method byte of uncompressed members.
pub const RAR4_METHOD_STORE: u8 = 0x30;

/// Bytes of a file header before its name.
pub const FILE_HEADER_FIXED: usize = 32;

/// Whether a member's payload is stored uncompressed.
pub fn is_stored(comp_method: u8) -> (r: bool)
    ensures
        r == (comp_method == 0),
{
    comp_method == 0
}

} // verus!
