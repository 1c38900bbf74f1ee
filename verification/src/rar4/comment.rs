//! Comments: the archive comment block and the comments of members.

use crate::bytes::{le_bytes, le_value, lemma_le_bytes_len, push_le, read_u16, read_u32};
use crate::crc32::{crc32, spec_crc32};
use crate::error::{is_format, RarError, RarResult};
use crate::model::{DataChunk, FileHeader};
use crate::rar4::read::{
    contents, decode_member_bytes, member_step, MemberDecodeOptions, MemberStep,
};
use crate::rar4::{COMM_HEAD, LONG_BLOCK, NEWSUB_HEAD, RAR4_METHOD_STORE};
use crate::shared::checksum::{crc16_of, header_crc16};
use crate::unicode::{
    chars_of, decode_utf16, encode_utf16, is_utf8, lemma_utf16_roundtrip, lossy_text, lossy_utf8_of,
    utf16_text, utf16_units,
};
use vstd::prelude::*;
use vstd::slice::{slice_subrange, slice_to_vec};
use vstd::string::*;
use vstd::utf8::{decode_utf8, encode_utf8, valid_utf8};

verus! {

/// Header bytes of the archive comment block; the payload follows as data.
pub const CMT_HEAD_SIZE: usize = 35;

/// The units of little-endian byte pairs; an odd byte at the end is dropped.
pub open spec fn units_of_bytes(s: Seq<u8>) -> Seq<u16> {
    Seq::new(s.len() / 2, |i: int| (s[2 * i] + 256 * s[2 * i + 1]) as u16)
}

/// The little-endian byte pairs of units.
pub open spec fn bytes_of_units(u: Seq<u16>) -> Seq<u8> {
    Seq::new(
        2 * u.len(),
        |i: int|
            if i % 2 == 0 {
                (u[i / 2] % 256) as u8
            } else {
                (u[i / 2] / 256) as u8
            },
    )
}

/// Byte pairs of units are the units.
pub proof fn lemma_units_roundtrip(u: Seq<u16>)
    ensures
        units_of_bytes(bytes_of_units(u)) == u,
{
    let s = bytes_of_units(u);
    assert forall|i: int| 0 <= i < u.len() implies units_of_bytes(s)[i] == u[i] by {
        assert((2 * i) / 2 == i);
        assert((2 * i + 1) / 2 == i);
        assert((2 * i) % 2 == 0);
        assert((2 * i + 1) % 2 == 1);
    }
    assert(units_of_bytes(s) =~= u);
}

/// Some unit is half of a pair.
pub open spec fn has_surrogate(u: Seq<u16>) -> bool {
    exists|i: int| 0 <= i < u.len() && 0xd800 <= #[trigger] u[i] < 0xe000
}

/// All bytes are ASCII.
pub open spec fn all_ascii(s: Seq<u8>) -> bool {
    forall|i: int| 0 <= i < s.len() ==> #[trigger] s[i] < 128
}

/// A comment's payload, and whether it is UTF-16: ASCII text is kept, other
/// text becomes UTF-16.
pub open spec fn comment_payload(bytes: Seq<u8>) -> (Seq<u8>, bool) {
    if all_ascii(bytes) {
        (bytes, false)
    } else {
        (bytes_of_units(utf16_units(lossy_utf8_of(bytes))), true)
    }
}

/// The text bytes of a payload without a marker: UTF-8 as it is, and UTF-16
/// where the bytes cannot be UTF-8 and can be that.
pub open spec fn guessed_text(payload: Seq<u8>) -> Seq<u8> {
    if valid_utf8(payload) || payload.len() % 2 != 0 || has_surrogate(units_of_bytes(payload)) {
        payload
    } else {
        encode_utf8(utf16_text(units_of_bytes(payload)))
    }
}

/// The text bytes of a payload, marked as UTF-16 or not.
pub open spec fn comment_text(payload: Seq<u8>, unicode: bool) -> Seq<u8> {
    if unicode {
        encode_utf8(utf16_text(units_of_bytes(payload)))
    } else {
        guessed_text(payload)
    }
}

proof fn lemma_ascii_is_utf8(s: Seq<u8>)
    requires
        all_ascii(s),
    ensures
        valid_utf8(s),
    decreases s.len(),
{
    reveal_with_fuel(valid_utf8, 2);
    if s.len() > 0 {
        let b = s[0];
        assert(b < 128 ==> b & 0x80 == 0) by (bit_vector);
        assert(vstd::utf8::is_leading_byte_width_1(b));
        let rest = vstd::utf8::pop_first_scalar(s);
        assert(rest =~= s.skip(1));
        lemma_ascii_is_utf8(rest);
    }
}

/// A comment of UTF-8 text comes back from its payload.
proof fn lemma_comment_roundtrip(bytes: Seq<u8>)
    requires
        valid_utf8(bytes),
        lossy_utf8_of(bytes) == decode_utf8(bytes),
    ensures
        comment_text(comment_payload(bytes).0, comment_payload(bytes).1) == bytes,
{
    if all_ascii(bytes) {
    } else {
        let text = decode_utf8(bytes);
        lemma_units_roundtrip(utf16_units(text));
        lemma_utf16_roundtrip(text);
        vstd::utf8::decode_utf8_encode_utf8(bytes);
    }
}

fn units_from(payload: &[u8]) -> (r: Vec<u16>)
    ensures
        r@ == units_of_bytes(payload@),
{
    let total = payload.len();
    let n = total / 2;
    let mut out: Vec<u16> = Vec::new();
    let mut i: usize = 0;
    while i < n
        invariant
            i <= n,
            total == payload@.len(),
            n == total / 2,
            out@ == units_of_bytes(payload@).take(i as int),
        decreases n - i,
    {
        out.push(payload[2 * i] as u16 + 256 * (payload[2 * i + 1] as u16));
        i += 1;
        assert(out@ =~= units_of_bytes(payload@).take(i as int));
    }
    assert(units_of_bytes(payload@).take(n as int) =~= units_of_bytes(payload@));
    out
}

fn text_bytes(units: &[u16]) -> (r: Vec<u8>)
    ensures
        r@ == encode_utf8(utf16_text(units@)),
{
    let text = decode_utf16(units);
    slice_to_vec(text.as_str().as_bytes())
}

/// Encode comment text for storage.
pub fn encode_comment_text(bytes: &[u8]) -> (r: (Vec<u8>, bool))
    ensures
        r.0@ == comment_payload(bytes@).0,
        r.1 == comment_payload(bytes@).1,
        valid_utf8(bytes@) ==> comment_text(r.0@, r.1) == bytes@,
{
    let mut ascii = true;
    let mut i: usize = 0;
    while i < bytes.len()
        invariant
            i <= bytes@.len(),
            ascii == all_ascii(bytes@.take(i as int)),
        decreases bytes@.len() - i,
    {
        let b = bytes[i];
        proof {
            let p = bytes@.take(i + 1);
            assert(p[i as int] == b);
            assert(forall|j: int| 0 <= j < i ==> p[j] == bytes@.take(i as int)[j]);
        }
        if b >= 128 {
            ascii = false;
        }
        i += 1;
    }
    assert(bytes@.take(i as int) =~= bytes@);
    if ascii {
        proof {
            lemma_ascii_is_utf8(bytes@);
        }
        return (slice_to_vec(bytes), false);
    }
    let text = lossy_text(bytes);
    let chars = chars_of(text.as_str());
    let units = encode_utf16(chars.as_slice());
    let mut out: Vec<u8> = Vec::new();
    let mut k: usize = 0;
    let ghost want = bytes_of_units(units@);
    while k < units.len()
        invariant
            k <= units@.len(),
            want == bytes_of_units(units@),
            out@ == want.take(2 * k as int),
        decreases units@.len() - k,
    {
        out.push((units[k] % 256) as u8);
        out.push((units[k] / 256) as u8);
        proof {
            assert((2 * k) / 2 == k && (2 * k + 1) / 2 == k);
            assert((2 * k) % 2 == 0 && (2 * k + 1) % 2 == 1);
            assert(out@ =~= want.take(2 * (k + 1) as int));
        }
        k += 1;
    }
    proof {
        assert(want.take(2 * k as int) =~= want);
        if valid_utf8(bytes@) {
            lemma_comment_roundtrip(bytes@);
        }
    }
    (out, true)
}

fn guess_text(payload: &[u8]) -> (r: Vec<u8>)
    ensures
        r@ == guessed_text(payload@),
{
    if is_utf8(payload) || payload.len() % 2 != 0 {
        return slice_to_vec(payload);
    }
    let units = units_from(payload);
    let mut i: usize = 0;
    while i < units.len()
        invariant
            i <= units@.len(),
            units@ == units_of_bytes(payload@),
            !valid_utf8(payload@),
            payload@.len() % 2 == 0,
            forall|j: int| 0 <= j < i ==> !(0xd800 <= #[trigger] units@[j] < 0xe000),
        decreases units@.len() - i,
    {
        if units[i] >= 0xd800 && units[i] < 0xe000 {
            assert(0xd800 <= units@[i as int] < 0xe000);
            return slice_to_vec(payload);
        }
        i += 1;
    }
    text_bytes(units.as_slice())
}

/// Decode an archive comment's payload to text bytes.
pub fn decode_comment_payload(payload: &[u8], unicode: bool) -> (r: Vec<u8>)
    ensures
        r@ == comment_text(payload@, unicode),
{
    if unicode {
        let units = units_from(payload);
        return text_bytes(units.as_slice());
    }
    guess_text(payload)
}

/// Decode a member comment's payload to text bytes.
pub fn decode_comment_text(payload: &[u8]) -> (r: Vec<u8>)
    ensures
        r@ == guessed_text(payload@),
{
    guess_text(payload)
}

/// The header of the archive comment block, without its checksum.
pub open spec fn comment_head(payload: Seq<u8>, unicode: bool) -> Seq<u8> {
    seq![NEWSUB_HEAD] + le_bytes(LONG_BLOCK as nat, 2) + le_bytes(35, 2) + le_bytes(
        payload.len(),
        4,
    ) + le_bytes(payload.len(), 4) + seq![2u8] + le_bytes(spec_crc32(payload) as nat, 4) + le_bytes(
        0,
        4,
    ) + seq![29u8, RAR4_METHOD_STORE] + le_bytes(3, 2) + le_bytes(
        if unicode {
            1
        } else {
            0
        },
        4,
    ) + seq![0x43u8, 0x4du8, 0x54u8]
}

/// The archive comment block.
pub open spec fn comment_block(payload: Seq<u8>, unicode: bool) -> Seq<u8> {
    let head = comment_head(payload, unicode);
    le_bytes(crc16_of(head) as nat, 2) + head + payload
}

/// Whether a header of the sub-block kind names the archive comment.
pub open spec fn names_comment(header: Seq<u8>) -> bool {
    let n = le_value(header.subrange(26, 28));
    n == 3 && header.len() >= 35 && header.subrange(32, 35) == seq![0x43u8, 0x4du8, 0x54u8]
}

proof fn lemma_head_len(payload: Seq<u8>, unicode: bool)
    ensures
        comment_head(payload, unicode).len() == 33,
        le_bytes(crc16_of(comment_head(payload, unicode)) as nat, 2).len() == 2,
{
    lemma_le_bytes_len(LONG_BLOCK as nat, 2);
    lemma_le_bytes_len(35, 2);
    lemma_le_bytes_len(3, 2);
    lemma_le_bytes_len(payload.len(), 4);
    lemma_le_bytes_len(spec_crc32(payload) as nat, 4);
    lemma_le_bytes_len(0, 4);
    lemma_le_bytes_len(1, 4);
    lemma_le_bytes_len(crc16_of(comment_head(payload, unicode)) as nat, 2);
}

/// The archive comment block is 35 header bytes that name it, and the
/// payload.
pub proof fn lemma_comment_block(payload: Seq<u8>, unicode: bool)
    ensures
        comment_block(payload, unicode).len() == 35 + payload.len(),
        comment_block(payload, unicode).skip(35) == payload,
        names_comment(comment_block(payload, unicode)),
        comment_block(payload, unicode)[2] == NEWSUB_HEAD,
{
    let head = comment_head(payload, unicode);
    let block = comment_block(payload, unicode);
    lemma_head_len(payload, unicode);
    assert(block.skip(35) =~= payload);
    lemma_le_bytes_len(LONG_BLOCK as nat, 2);
    lemma_le_bytes_len(35, 2);
    lemma_le_bytes_len(3, 2);
    lemma_le_bytes_len(payload.len(), 4);
    lemma_le_bytes_len(spec_crc32(payload) as nat, 4);
    lemma_le_bytes_len(0, 4);
    lemma_le_bytes_len(1, 4);
    assert(block.subrange(26, 28) =~= le_bytes(3, 2));
    crate::bytes::lemma_byte_ranges();
    crate::bytes::lemma_le_roundtrip(3, 2);
    assert(block.subrange(32, 35) =~= seq![0x43u8, 0x4du8, 0x54u8]);
}

/// Build the archive comment block around an uncompressed payload.
pub fn build_comment_block(payload: &[u8], unicode: bool) -> (r: Vec<u8>)
    ensures
        r@ == comment_block(payload@, unicode),
{
    let mut head: Vec<u8> = Vec::new();
    head.push(NEWSUB_HEAD);
    push_le(&mut head, LONG_BLOCK as u64, 2);
    push_le(&mut head, 35, 2);
    push_le(&mut head, payload.len() as u64, 4);
    push_le(&mut head, payload.len() as u64, 4);
    head.push(2);
    push_le(&mut head, crc32(payload) as u64, 4);
    push_le(&mut head, 0, 4);
    head.push(29);
    head.push(RAR4_METHOD_STORE);
    push_le(&mut head, 3, 2);
    push_le(
        &mut head,
        if unicode {
            1
        } else {
            0
        },
        4,
    );
    head.push(0x43);
    head.push(0x4d);
    head.push(0x54);
    assert(head@ =~= comment_head(payload@, unicode));
    let mut out: Vec<u8> = Vec::new();
    push_le(&mut out, header_crc16(head.as_slice()) as u64, 2);
    out.extend_from_slice(head.as_slice());
    out.extend_from_slice(payload);
    assert(out@ =~= comment_block(payload@, unicode));
    out
}

/// Whether a header of the sub-block kind names the archive comment.
pub fn comment_block_name_is_cmt(header: &[u8]) -> (r: bool)
    requires
        header@.len() >= 28,
    ensures
        r == names_comment(header@),
{
    let n = read_u16(header, 26);
    if n != 3 || header.len() < 35 {
        return false;
    }
    let r = header[32] == 0x43 && header[33] == 0x4d && header[34] == 0x54;
    proof {
        let s = header@.subrange(32, 35);
        let want = seq![0x43u8, 0x4du8, 0x54u8];
        if r {
            assert(s =~= want);
        } else {
            assert(s[0] == header@[32] && s[1] == header@[33] && s[2] == header@[34]);
            assert(want[0] == 0x43 && want[1] == 0x4d && want[2] == 0x54);
        }
    }
    r
}

/// The member comment block at `start` of `header`: where it starts and where
/// its payload starts and ends.
pub open spec fn comment_at(header: Seq<u8>, start: int) -> Option<(int, int, int)> {
    if start > header.len() || header.len() - start < 7 || header[start + 2] != COMM_HEAD {
        None
    } else {
        let flags = le_value(header.subrange(start + 3, start + 5)) as u16;
        let size = le_value(header.subrange(start + 5, start + 7));
        if flags & LONG_BLOCK != 0 {
            if header.len() - start < 11 {
                None
            } else {
                let more = le_value(header.subrange(start + 7, start + 11));
                if start + 17 + more <= header.len() {
                    Some((start, start + 17, start + 17 + more))
                } else {
                    None
                }
            }
        } else if 13 <= size && start + size <= header.len() {
            Some((start, start + 13, start + size))
        } else {
            None
        }
    }
}

/// The comment at `start` of `header` and the bytes it takes.
pub open spec fn file_comment_at(header: Seq<u8>, start: int) -> Option<(Seq<u8>, int)> {
    match comment_at(header, start) {
        Some((i, from, to)) => Some((guessed_text(header.subrange(from, to)), to - i)),
        None => None,
    }
}

/// Find the member comment block at `start`.
pub fn comment_block_at(header: &[u8], start: usize) -> (r: Option<(usize, usize, usize)>)
    ensures
        match (r, comment_at(header@, start as int)) {
            (Some((a, b, c)), Some((x, y, z))) => a == x && b == y && c == z && a <= b <= c
                <= header@.len(),
            (None, None) => true,
            _ => false,
        },
{
    let total = header.len();
    if start > total || total - start < 7 || header[start + 2] != COMM_HEAD {
        return None;
    }
    let flags = read_u16(header, start + 3);
    let size = read_u16(header, start + 5) as usize;
    if flags & LONG_BLOCK != 0 {
        if total - start < 11 {
            return None;
        }
        let more = read_u32(header, start + 7);
        if total - start < 17 || more as u64 > (total - start - 17) as u64 {
            return None;
        }
        return Some((start, start + 17, start + 17 + more as usize));
    }
    if size >= 13 && size <= total - start {
        Some((start, start + 13, start + size))
    } else {
        None
    }
}

/// The first place in `tail`, from `from` on, with a member comment block.
pub open spec fn first_comment(tail: Seq<u8>, from: int) -> Option<(int, int, int)>
    decreases tail.len() - from,
{
    if from + 7 > tail.len() {
        None
    } else {
        match comment_at(tail, from) {
            Some(found) => Some(found),
            None => first_comment(tail, from + 1),
        }
    }
}

/// Search a header's trailing bytes for a member comment block.
pub fn find_comment_block_start(tail: &[u8]) -> (r: Option<(usize, usize, usize)>)
    ensures
        match (r, first_comment(tail@, 0)) {
            (Some((a, b, c)), Some((x, y, z))) => a == x && b == y && c == z,
            (None, None) => true,
            _ => false,
        },
{
    let total = tail.len();
    let mut i: usize = 0;
    while i < total && total - i >= 7
        invariant
            i <= total,
            total == tail@.len(),
            first_comment(tail@, 0) == first_comment(tail@, i as int),
        decreases total - i,
    {
        if let Some(found) = comment_block_at(tail, i) {
            return Some(found);
        }
        i += 1;
    }
    None
}

/// Find and decode the member comment at `start`, with the bytes that its
/// block takes; no comment takes none.
pub fn parse_file_comment(header: &[u8], start: usize) -> (r: (Option<Vec<u8>>, usize))
    ensures
        match (r.0, file_comment_at(header@, start as int)) {
            (Some(c), Some((text, n))) => c@ == text && r.1 == n,
            (None, None) => r.1 == 0,
            _ => false,
        },
{
    match comment_block_at(header, start) {
        Some((i, from, to)) => {
            let raw = slice_subrange(header, from, to);
            (Some(decode_comment_text(raw)), to - i)
        },
        None => (None, 0),
    }
}

/// The header of a member comment block, without its checksum.
pub open spec fn file_comment_head(comment: Seq<u8>) -> Seq<u8> {
    seq![COMM_HEAD] + le_bytes(0, 2) + le_bytes(13 + comment.len(), 2) + le_bytes(comment.len(), 2)
        + seq![29u8, RAR4_METHOD_STORE] + le_bytes(crc16_of(comment) as nat, 2)
}

/// A member comment block. Its checksum covers the header alone.
pub open spec fn file_comment_block(comment: Seq<u8>) -> Seq<u8> {
    let head = file_comment_head(comment);
    le_bytes(crc16_of(head) as nat, 2) + head + comment
}

/// A member comment written is the comment read, at most 65522 bytes of it.
pub proof fn lemma_file_comment_roundtrip(comment: Seq<u8>, before: Seq<u8>, after: Seq<u8>)
    requires
        comment.len() <= 0xffff - 13,
    ensures
        file_comment_at(before + file_comment_block(comment) + after, before.len() as int) == Some(
            (guessed_text(comment), 13 + comment.len() as int),
        ),
{
    let head = file_comment_head(comment);
    let block = file_comment_block(comment);
    let h = before + block + after;
    let start = before.len() as int;
    lemma_le_bytes_len(0, 2);
    lemma_le_bytes_len(13 + comment.len(), 2);
    lemma_le_bytes_len(comment.len(), 2);
    lemma_le_bytes_len(crc16_of(comment) as nat, 2);
    lemma_le_bytes_len(crc16_of(head) as nat, 2);
    crate::bytes::lemma_byte_ranges();
    crate::bytes::lemma_le_roundtrip(0, 2);
    crate::bytes::lemma_le_roundtrip(13 + comment.len(), 2);
    assert(block.len() == 13 + comment.len());
    assert(h[start + 2] == COMM_HEAD);
    assert(h.subrange(start + 3, start + 5) =~= le_bytes(0, 2));
    assert(h.subrange(start + 5, start + 7) =~= le_bytes(13 + comment.len(), 2));
    assert(0u16 & LONG_BLOCK == 0) by (bit_vector);
    assert(h.subrange(start + 13, start + 13 + comment.len()) =~= comment);
}

/// Build a member comment block around raw text bytes.
pub fn build_file_comment_block(comment: &[u8]) -> (r: Vec<u8>)
    requires
        comment@.len() <= usize::MAX - 13,
    ensures
        r@ == file_comment_block(comment@),
{
    let mut head: Vec<u8> = Vec::new();
    head.push(COMM_HEAD);
    push_le(&mut head, 0, 2);
    push_le(&mut head, (13 + comment.len()) as u64, 2);
    push_le(&mut head, comment.len() as u64, 2);
    head.push(29);
    head.push(RAR4_METHOD_STORE);
    push_le(&mut head, header_crc16(comment) as u64, 2);
    assert(head@ =~= file_comment_head(comment@));
    let mut out: Vec<u8> = Vec::new();
    push_le(&mut out, header_crc16(head.as_slice()) as u64, 2);
    out.extend_from_slice(head.as_slice());
    out.extend_from_slice(comment);
    assert(out@ =~= file_comment_block(comment@));
    out
}

/// The member that stands for a packed comment.
pub open spec fn is_comment_member(
    hdr: FileHeader,
    chunk: DataChunk,
    data_start: u64,
    packed_size: u64,
    method: u8,
    unpacked_size: u64,
) -> bool {
    &&& hdr.unpacked_size == unpacked_size && hdr.packed_size == packed_size
    &&& hdr.comp_method == method - RAR4_METHOD_STORE
    &&& hdr.data_offset == data_start && hdr.format_version == 4 && hdr.unp_ver == 29
    &&& hdr.name@.len() == 0 && hdr.flags == 0 && hdr.crc32_val is None && hdr.salt is None
    &&& !hdr.is_directory && !hdr.comp_solid
    &&& chunk.volume_index == 0 && chunk.data_offset == data_start
    &&& chunk.packed_size == packed_size && chunk.crc32_val is None && chunk.is_final
    &&& chunk.extra_data@.len() == 0
}

/// Most packed bytes of a comment.
pub const MAX_COMMENT_PACKED: u64 = 0x400_0000;

/// Decode a packed archive comment, up to the first outside work: it is a
/// member of the newest codec, in one chunk. Only methods 0x31 to 0x35 pack.
pub fn decode_comment_stream(
    volumes: &[Vec<u8>],
    data_start: u64,
    packed_size: u64,
    method: u8,
    unpacked_size: u64,
) -> (r: RarResult<MemberStep>)
    ensures
        if !(0x31 <= method <= 0x35) {
            r is Err && is_format(
                r->Err_0,
                "RAR4: unsupported comment compression method"@,
            )
        } else {
            exists|hdr: FileHeader, chunks: Seq<DataChunk>|
                chunks.len() == 1 && is_comment_member(
                    hdr,
                    chunks[0],
                    data_start,
                    packed_size,
                    method,
                    unpacked_size,
                ) && #[trigger] member_step(
                    contents(volumes@),
                    chunks,
                    hdr,
                    None,
                    None,
                    MAX_COMMENT_PACKED,
                    false,
                    r,
                )
        },
{
    if method < 0x31 || method > 0x35 {
        return Err(RarError::format("RAR4: unsupported comment compression method"));
    }
    let mut hdr: FileHeader = Default::default();
    hdr.unpacked_size = unpacked_size;
    hdr.packed_size = packed_size;
    hdr.comp_method = method - RAR4_METHOD_STORE;
    hdr.data_offset = data_start;
    hdr.format_version = 4;
    hdr.unp_ver = 29;
    let chunk = DataChunk {
        volume_index: 0,
        data_offset: data_start,
        packed_size,
        crc32_val: None,
        is_final: true,
        extra_data: Vec::new(),
    };
    let mut chunks: Vec<DataChunk> = Vec::new();
    chunks.push(chunk);
    decode_member_bytes(
        volumes,
        chunks.as_slice(),
        &hdr,
        MemberDecodeOptions {
            password: None,
            decoder: None,
            max_alloc_packed_bytes: MAX_COMMENT_PACKED,
            max_stream_packed_bytes: MAX_COMMENT_PACKED,
        },
    )
}

} // verus!
