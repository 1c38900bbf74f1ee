//! Block framing: checksum, size, header data.

use crate::bytes::{le_bytes, push_le};
use crate::crc32::{crc32, spec_crc32};
use crate::rar5::vint;
use crate::rar5::vint::vint_bytes;
use vstd::prelude::*;

verus! {

/// A header block as read: its header data starts with the block type.
#[derive(Clone, Debug)]
pub struct RawBlock {
    pub header_crc: u32,
    pub header_data: Vec<u8>,
    pub data_size: u64,
    pub data_offset: u64,
    pub block_type: u64,
    pub flags: u64,
}

/// What the checksum of a block covers: the size of its header data, and the
/// header data.
pub open spec fn sized(body: Seq<u8>) -> Seq<u8> {
    vint_bytes(body.len()) + body
}

/// A block on disk: the checksum of the rest, the size and the header data.
pub open spec fn framed(body: Seq<u8>) -> Seq<u8> {
    le_bytes(spec_crc32(sized(body)) as nat, 4) + sized(body)
}

/// Frame header data as a block.
pub fn frame_block(body: &[u8]) -> (out: Vec<u8>)
    ensures
        out@ == framed(body@),
{
    let mut covered = vint::encode(body.len() as u64);
    covered.extend_from_slice(body);
    assert(covered@ =~= sized(body@));
    let mut out = Vec::new();
    push_le(&mut out, crc32(covered.as_slice()) as u64, 4);
    out.extend_from_slice(covered.as_slice());
    assert(out@ =~= framed(body@));
    out
}

} // verus!
