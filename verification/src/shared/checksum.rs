//! Sixteen-bit checksums.

use crate::crc32::{crc32, spec_crc32};
use vstd::prelude::*;

verus! {

/// The low half of the CRC-32.
pub open spec fn crc16_of(s: Seq<u8>) -> u16 {
    (spec_crc32(s) & 0xffff) as u16
}

/// The low half of the CRC-32, as block headers store it.
pub fn header_crc16(data: &[u8]) -> (r: u16)
    ensures
        r == crc16_of(data@),
{
    let crc = crc32(data);
    assert((crc & 0xffff) <= 0xffff) by (bit_vector);
    (crc & 0xffff) as u16
}

/// The 16-bit value with its bits moved up by one, the highest becoming the
/// lowest.
pub open spec fn rotated16(v: int) -> int {
    (2 * v) % 0x1_0000 + v / 0x8000
}

/// The rolling checksum after one more byte.
pub open spec fn rolled(sum: u16, byte: u8) -> u16 {
    rotated16((sum + byte) % 0x1_0000) as u16
}

/// The rolling checksum of RAR 1.3 members, carried on from `sum`.
pub open spec fn rolling_from(sum: u16, data: Seq<u8>) -> u16
    decreases data.len(),
{
    if data.len() == 0 {
        sum
    } else {
        rolled(rolling_from(sum, data.drop_last()), data.last())
    }
}

/// Rolling over `a` and then over `b` is rolling over both.
pub proof fn lemma_rolling_concat(sum: u16, a: Seq<u8>, b: Seq<u8>)
    ensures
        rolling_from(sum, a + b) == rolling_from(rolling_from(sum, a), b),
    decreases b.len(),
{
    if b.len() == 0 {
        assert(a + b =~= a);
    } else {
        assert((a + b).drop_last() =~= a + b.drop_last());
        lemma_rolling_concat(sum, a, b.drop_last());
    }
}

/// Carry the rolling checksum on over `data`.
pub fn rolling_checksum(sum: u16, data: &[u8]) -> (r: u16)
    ensures
        r == rolling_from(sum, data@),
{
    let mut acc: u16 = sum;
    let mut i: usize = 0;
    while i < data.len()
        invariant
            i <= data@.len(),
            acc == rolling_from(sum, data@.take(i as int)),
        decreases data@.len() - i,
    {
        proof {
            assert(data@.take(i + 1).drop_last() =~= data@.take(i as int));
        }
        let total: u32 = (acc as u32 + data[i] as u32) % 0x1_0000;
        acc = ((2 * total) % 0x1_0000 + total / 0x8000) as u16;
        i += 1;
    }
    assert(data@.take(i as int) =~= data@);
    acc
}

/// The rolling checksum of a whole RAR 1.3 member.
pub fn file_checksum(data: &[u8]) -> (r: u16)
    ensures
        r == rolling_from(0, data@),
{
    rolling_checksum(0, data)
}

} // verus!
