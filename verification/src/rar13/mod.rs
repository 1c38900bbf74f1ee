//! RAR 1.3/1.4 container: fixed little-endian headers without a checksum, and
//! rolling 16-bit member checksums.

pub mod create;
pub mod emit;
pub mod extract;
pub mod laws;
pub mod read;
pub mod roundtrip;
pub mod write;


use vstd::prelude::*;

verus! {

/// Main header flags; the first is always set.
pub const MHD_ALWAYS_SET: u8 = 0x80;

pub const MHD_VOLUME: u8 = 0x01;

pub const MHD_COMMENT: u8 = 0x02;

pub const MHD_SOLID: u8 = 0x08;

pub const MHD_PACK_COMMENT: u8 = 0x10;

/// File header flags.
pub const LHD_SPLIT_BEFORE: u8 = 0x01;

pub const LHD_SPLIT_AFTER: u8 = 0x02;

pub const LHD_PASSWORD: u8 = 0x04;

pub const LHD_COMMENT: u8 = 0x08;

pub const LHD_SOLID: u8 = 0x10;

/// Methods.
pub const METHOD_STORE: u8 = 0;

pub const METHOD_BEST: u8 = 5;

/// The version that file headers carry.
pub const DEFAULT_UNP_VER: u8 = 2;

/// Bytes of a main header before its extension.
pub const MAIN_HEAD_SIZE: usize = 7;

/// Bytes of a file header before its name.
pub const FILE_HEAD_BASE_SIZE: usize = 21;

} // verus!
