//! What the blocks of a RAR 1.5 to 4.x archive hold, byte by byte, and that
//! what is written is what is read.

use crate::bytes::{
    le_bytes, lemma_byte_ranges, lemma_four_bytes, lemma_le_bytes_len, lemma_le_roundtrip,
    lemma_two_bytes,
};
use crate::crc32::spec_crc32;
use crate::crypto::cbc::{cbc_decrypted, prefixes_decrypt};
use crate::error::RarResult;
use crate::model::FileHeader;
use crate::rar4::comment::{
    bytes_of_units, comment_block, comment_head, comment_payload, comment_text,
    file_comment_block, file_comment_head, guessed_text, units_of_bytes,
};
use crate::rar4::emit::{Rar4SplitParams, SplitPiece, VolumeReserve};
use crate::rar4::envelope::{
    announced_size, covered_end, encrypted_read, envelope_fault, is_block, padded_header,
    plain_header, plain_read, EnvelopePolicy, HeaderKey, Rar4Block,
};
use crate::rar4::headers::{
    checked_block, crc_end, describes, endarc_body, endarc_single_body, field, header_fault,
    lemma_file_header_roundtrip, lemma_file_header_sound, main_body, readable, FileHeaderParams,
};
use crate::rar4::member::{
    is_emission, pieces_of, split_job, MemberEmission, MemberFields, Rar4Member, Rar4Output,
};
use crate::rar4::names::name_of;
use crate::shared::checksum::crc16_of;
use crate::unicode::{lossy_utf8_of, utf16_text, utf16_units};
use vstd::prelude::*;
use vstd::utf8::{encode_utf8, valid_utf8};

verus! {

/// The number in two bytes of `h`, lowest first.
pub open spec fn word(h: Seq<u8>, at: int) -> int {
    h[at] + 256 * h[at + 1]
}

/// The number in four bytes of `h`, lowest first.
pub open spec fn dword(h: Seq<u8>, at: int) -> int {
    h[at] + 256 * h[at + 1] + 65536 * h[at + 2] + 16777216 * h[at + 3]
}

/// A block starts with the low half of the CRC-32 of the header's other bytes.
pub open spec fn checksum_holds(h: Seq<u8>, end: int) -> bool {
    word(h, 0) == spec_crc32(h.subrange(2, end)) as int % 0x1_0000
}

proof fn lemma_low_half(v: u32)
    ensures
        (v & 0xffff) as u16 == v % 0x1_0000,
{
    assert((v & 0xffff) == v % 0x1_0000) by (bit_vector);
}

/// A body with its checksum: the checksum holds, and the body follows.
proof fn lemma_checked(body: Seq<u8>)
    ensures
        checked_block(body).len() == body.len() + 2,
        checked_block(body).skip(2) == body,
        checked_block(body).subrange(2, body.len() as int + 2) == body,
        checksum_holds(checked_block(body), body.len() as int + 2),
        word(checked_block(body), 0) == crc16_of(body),
{
    let h = checked_block(body);
    let c = crc16_of(body) as nat;
    lemma_byte_ranges();
    lemma_le_bytes_len(c, 2);
    lemma_le_roundtrip(c, 2);
    assert(h.skip(2) =~= body);
    assert(h.subrange(2, body.len() as int + 2) =~= body);
    assert(h.subrange(0, 2) =~= le_bytes(c, 2));
    lemma_two_bytes(h, 0);
    lemma_low_half(spec_crc32(body));
}

/// Where the bytes of numbers stand in a block.
proof fn lemma_number_at(h: Seq<u8>, at: int, v: nat, n: nat)
    requires
        n == 2 || n == 4,
        n == 2 ==> v < 0x1_0000,
        n == 4 ==> v < 0x1_0000_0000,
        0 <= at,
        at + n <= h.len(),
        h.subrange(at, at + n) == le_bytes(v, n),
    ensures
        n == 2 ==> word(h, at) == v,
        n == 4 ==> dword(h, at) == v,
        field(h, at, n as int) == v,
{
    lemma_byte_ranges();
    lemma_le_roundtrip(v, n);
    if n == 2 {
        lemma_two_bytes(h, at);
    } else {
        lemma_four_bytes(h, at);
    }
}

// ── Main header and end of archive ─────────────────────────────────────────

/// A main header is thirteen bytes of type 0x73 with the flags given.
pub proof fn lemma_main_header_law(flags: u16)
    ensures
        ({
            let h = checked_block(main_body(flags));
            &&& h.len() == 13
            &&& checksum_holds(h, 13)
            &&& h[2] == 0x73
            &&& word(h, 3) == flags
            &&& word(h, 5) == 13
            &&& forall|i: int| 7 <= i < 13 ==> h[i] == 0
        }),
{
    let body = main_body(flags);
    let h = checked_block(body);
    lemma_le_bytes_len(flags as nat, 2);
    lemma_le_bytes_len(13, 2);
    lemma_checked(body);
    assert(h.subrange(3, 5) =~= le_bytes(flags as nat, 2));
    assert(h.subrange(5, 7) =~= le_bytes(13, 2));
    lemma_number_at(h, 3, flags as nat, 2);
    lemma_number_at(h, 5, 13, 2);
}

/// The end of an archive of one volume is seven bytes of type 0x7B.
pub proof fn lemma_end_law()
    ensures
        ({
            let h = checked_block(endarc_single_body());
            &&& h.len() == 7
            &&& checksum_holds(h, 7)
            &&& h[2] == 0x7b
            &&& word(h, 3) == 0x4000
            &&& word(h, 5) == 7
        }),
{
    let body = endarc_single_body();
    let h = checked_block(body);
    lemma_le_bytes_len(0x4000, 2);
    lemma_le_bytes_len(7, 2);
    lemma_checked(body);
    assert(h.subrange(3, 5) =~= le_bytes(0x4000, 2));
    assert(h.subrange(5, 7) =~= le_bytes(7, 2));
    lemma_number_at(h, 3, 0x4000, 2);
    lemma_number_at(h, 5, 7, 2);
}

/// The end of a volume says whether another follows, in its lowest flag, what
/// the checksum of the volume before it is, and the volume's number.
pub proof fn lemma_volume_end_law(next_volume: bool, prefix_crc32: u32, volume_index: u16)
    ensures
        ({
            let h = checked_block(endarc_body(next_volume, prefix_crc32, volume_index));
            &&& h.len() == 20
            &&& checksum_holds(h, 20)
            &&& h[2] == 0x7b
            &&& word(h, 3) == 0x400e + if next_volume {
                1int
            } else {
                0
            }
            &&& word(h, 5) == 20
            &&& dword(h, 7) == prefix_crc32
            &&& word(h, 11) == volume_index
            &&& forall|i: int| 13 <= i < 20 ==> h[i] == 0
        }),
{
    let body = endarc_body(next_volume, prefix_crc32, volume_index);
    let h = checked_block(body);
    let flags = if next_volume {
        0x400fnat
    } else {
        0x400e
    };
    lemma_le_bytes_len(flags, 2);
    lemma_le_bytes_len(20, 2);
    lemma_le_bytes_len(prefix_crc32 as nat, 4);
    lemma_le_bytes_len(volume_index as nat, 2);
    lemma_checked(body);
    assert(h.subrange(3, 5) =~= le_bytes(flags, 2));
    assert(h.subrange(5, 7) =~= le_bytes(20, 2));
    assert(h.subrange(7, 11) =~= le_bytes(prefix_crc32 as nat, 4));
    assert(h.subrange(11, 13) =~= le_bytes(volume_index as nat, 2));
    lemma_number_at(h, 3, flags, 2);
    lemma_number_at(h, 5, 20, 2);
    lemma_number_at(h, 7, prefix_crc32 as nat, 4);
    lemma_number_at(h, 11, volume_index as nat, 2);
}

// ── File headers ───────────────────────────────────────────────────────────

/// The places of a file header's fields.
#[verifier::rlimit(40)]
#[verifier::spinoff_prover]
pub proof fn lemma_file_header_law(p: FileHeaderParams<'_>)
    requires
        p.head_size() <= 0xffff,
    ensures
        ({
            let h = checked_block(p.body());
            let n = 32 + p.name@.len() as int;
            let salt = match p.salt {
                Some(s) => s@,
                None => Seq::empty(),
            };
            let ext = match p.ext_time {
                Some(e) => e@,
                None => Seq::empty(),
            };
            &&& h.len() == n + salt.len() + ext.len()
            &&& checksum_holds(h, h.len() as int)
            &&& h[2] == 0x74
            &&& word(h, 3) == (p.flags | ((p.window_bits as u16) << 5) | 0x8000)
            &&& word(h, 5) == h.len()
            &&& dword(h, 7) == p.packed_size
            &&& dword(h, 11) == p.unpacked_size
            &&& h[15] == p.host_os
            &&& dword(h, 16) == p.file_crc
            &&& dword(h, 20) == p.file_time
            &&& h[24] == p.unp_ver
            &&& h[25] == p.method
            &&& word(h, 26) == p.name@.len()
            &&& dword(h, 28) == p.attr
            &&& h.subrange(32, n) == p.name@
            &&& h.subrange(n, n + salt.len()) == salt
            &&& h.skip(n + salt.len()) == ext
        }),
{
    let body = p.body();
    let h = checked_block(body);
    let g = p.head_flags();
    let n = 32 + p.name@.len() as int;
    lemma_checked(body);
    lemma_le_bytes_len(g as nat, 2);
    lemma_le_bytes_len(p.head_size(), 2);
    lemma_le_bytes_len(p.packed_size as nat, 4);
    lemma_le_bytes_len(p.unpacked_size as nat, 4);
    lemma_le_bytes_len(p.file_crc as nat, 4);
    lemma_le_bytes_len(p.file_time as nat, 4);
    lemma_le_bytes_len(p.name@.len(), 2);
    lemma_le_bytes_len(p.attr as nat, 4);
    assert(p.fixed_fields().len() == 30);
    assert(h.subrange(3, 5) =~= le_bytes(g as nat, 2));
    assert(h.subrange(5, 7) =~= le_bytes(p.head_size(), 2));
    assert(h.subrange(7, 11) =~= le_bytes(p.packed_size as nat, 4));
    assert(h.subrange(11, 15) =~= le_bytes(p.unpacked_size as nat, 4));
    assert(h.subrange(16, 20) =~= le_bytes(p.file_crc as nat, 4));
    assert(h.subrange(20, 24) =~= le_bytes(p.file_time as nat, 4));
    assert(h.subrange(26, 28) =~= le_bytes(p.name@.len(), 2));
    assert(h.subrange(28, 32) =~= le_bytes(p.attr as nat, 4));
    lemma_number_at(h, 3, g as nat, 2);
    lemma_number_at(h, 5, p.head_size(), 2);
    lemma_number_at(h, 7, p.packed_size as nat, 4);
    lemma_number_at(h, 11, p.unpacked_size as nat, 4);
    lemma_number_at(h, 16, p.file_crc as nat, 4);
    lemma_number_at(h, 20, p.file_time as nat, 4);
    lemma_number_at(h, 26, p.name@.len(), 2);
    lemma_number_at(h, 28, p.attr as nat, 4);
    assert(h.subrange(32, n) =~= p.name@);
    assert(h.subrange(n, n + p.salt_bytes().len()) =~= p.salt_bytes());
    assert(h.skip(n + p.salt_bytes().len()) =~= p.ext_bytes());
}

pub proof fn lemma_segment_bits(
    name: u16,
    before: u16,
    after: u16,
    password: u16,
    salt: u16,
    ext: u16,
    solid: u16,
    nested: u16,
    window: u16,
)
    requires
        name == 0 || name == 0x200,
        before == 0 || before == 1,
        after == 0 || after == 2,
        password == 0 || password == 4,
        salt == 0 || salt == 0x400,
        ext == 0 || ext == 0x1000,
        solid == 0 || solid == 0x10,
        nested == 0 || nested == 8,
        window < 8,
    ensures
        ({
            let f = name | before | after | password | salt | ext | solid | nested;
            let g = f | (window << 5) | 0x8000;
            &&& f & 0xe0 == 0
            &&& f & 0x100 == 0
            &&& f & 8 == nested
            &&& f & 0x400 == salt
            &&& f & 0x1000 == ext
            &&& f & 0x10 == solid
            &&& g & 1 == before
            &&& g & 2 == after
            &&& g & 4 == password
            &&& g & 8 == nested
            &&& g & 0x10 == solid
            &&& g & 0x100 == 0
            &&& g & 0x200 == name
            &&& g & 0x400 == salt
            &&& g & 0x1000 == ext
            &&& g & 0x8000 == 0x8000
            &&& (g / 32) % 8 == window
        }),
{
    assert((name == 0 || name == 0x200) && (before == 0 || before == 1) && (after == 0 || after
        == 2) && (password == 0 || password == 4) && (salt == 0 || salt == 0x400) && (ext == 0
        || ext == 0x1000) && (solid == 0 || solid == 0x10) && (nested == 0 || nested == 8)
        && window < 8 ==> {
        let f = name | before | after | password | salt | ext | solid | nested;
        let g = f | (window << 5) | 0x8000;
        &&& f & 0xe0 == 0
        &&& f & 0x100 == 0
        &&& f & 8 == nested
        &&& f & 0x400 == salt
        &&& f & 0x1000 == ext
        &&& f & 0x10 == solid
        &&& g & 1 == before
        &&& g & 2 == after
        &&& g & 4 == password
        &&& g & 8 == nested
        &&& g & 0x10 == solid
        &&& g & 0x100 == 0
        &&& g & 0x200 == name
        &&& g & 0x400 == salt
        &&& g & 0x1000 == ext
        &&& g & 0x8000 == 0x8000
        &&& (g / 32) % 8 == window
    }) by (bit_vector);
}

/// Segments whose headers have room for what they say, without a comment in
/// them.
pub open spec fn plain_segment(params: Rar4SplitParams<'_>) -> bool {
    &&& params.name_flags == 0 || params.name_flags == 0x200
    &&& params.window_bits < 8
    &&& params.plain_len() <= 0xffff
    &&& !params.comment_is_nested()
}

/// The flags of a segment say what the member is: whether it has a password, a
/// salt, fine times, a name in two encodings, whether it continues a solid run,
/// and what the segment is of it.
#[verifier::rlimit(40)]
#[verifier::spinoff_prover]
pub proof fn lemma_segment_flags_law(
    params: Rar4SplitParams<'_>,
    head_crc: u32,
    packed_size: u32,
    split_before: bool,
    split_after: bool,
)
    requires
        plain_segment(params),
    ensures
        ({
            let h = params.header(head_crc, packed_size, split_before, split_after);
            let g = word(h, 3) as u16;
            &&& g & 0x0001 != 0 <==> split_before
            &&& g & 0x0002 != 0 <==> split_after
            &&& g & 0x0004 != 0 <==> params.password
            &&& g & 0x0008 == 0
            &&& g & 0x0010 != 0 <==> params.solid_continuation
            &&& (g / 32) % 8 == params.window_bits
            &&& g & 0x0100 == 0
            &&& g & 0x0200 != 0 <==> params.name_flags != 0
            &&& g & 0x0400 != 0 <==> params.salt is Some
            &&& g & 0x1000 != 0 <==> params.ext_time is Some
            &&& g & 0x8000 != 0
        }),
{
    let p = params.plain_params(head_crc, packed_size, split_before, split_after);
    lemma_file_header_law(p);
    lemma_segment_bits(
        params.name_flags,
        if split_before { 1 } else { 0 },
        if split_after { 2 } else { 0 },
        if params.password { 4 } else { 0 },
        if params.salt is Some { 0x400 } else { 0 },
        if params.ext_time is Some { 0x1000 } else { 0 },
        if params.solid_continuation { 0x10 } else { 0 },
        0,
        params.window_bits as u16,
    );
}

/// What a reader makes of a segment's header is what the member is: its block
/// is sound and announces the segment's data, and its fields are the member's,
/// among them whether there is a password.
#[verifier::rlimit(60)]
#[verifier::spinoff_prover]
pub proof fn lemma_segment_reads_back(
    params: Rar4SplitParams<'_>,
    head_crc: u32,
    packed_size: u32,
    split_before: bool,
    split_after: bool,
    b: Rar4Block,
    fh: FileHeader,
)
    requires
        plain_segment(params),
        ({
            let h = params.header(head_crc, packed_size, split_before, split_after);
            &&& is_block(b, b.offset as int, h, h.len() as int)
            &&& header_fault(b.header@, b.flags) is None ==> describes(
                b.header@,
                b.flags,
                b.head_crc,
                b.header_end,
                fh,
            )
        }),
    ensures
        ({
            let h = params.header(head_crc, packed_size, split_before, split_after);
            &&& envelope_fault(h, true) is None
            &&& header_fault(h, b.flags) is None
        }),
        b.head_type == 0x74,
        b.add_size == packed_size,
        (fh.flags as u16) & 0x0004 != 0 <==> params.password,
        (fh.flags as u16) & 0x0001 != 0 <==> split_before,
        (fh.flags as u16) & 0x0002 != 0 <==> split_after,
        fh.comp_solid == params.solid_continuation,
        fh.packed_size == packed_size,
        fh.unpacked_size == params.unpacked_size,
        fh.crc32_val == Some(head_crc),
        fh.host_os == 2,
        fh.unp_ver == params.unp_ver,
        fh.comp_method == (params.method - 0x30) % 256,
        fh.attributes == params.attr,
        fh.comp_dict_size == params.window_bits,
        fh.name@ == name_of(params.encoded_name@, b.flags),
        match (fh.salt, params.salt) {
            (Some(x), Some(y)) => x@ == y@,
            (None, None) => true,
            _ => false,
        },
        fh.extra_data@ == match params.ext_time {
            Some(e) => e@,
            None => Seq::empty(),
        },
{
    let p = params.plain_params(head_crc, packed_size, split_before, split_after);
    let h = params.header(head_crc, packed_size, split_before, split_after);
    lemma_file_header_law(p);
    lemma_segment_flags_law(params, head_crc, packed_size, split_before, split_after);
    lemma_segment_bits(
        params.name_flags,
        if split_before { 1 } else { 0 },
        if split_after { 2 } else { 0 },
        if params.password { 4 } else { 0 },
        if params.salt is Some { 0x400 } else { 0 },
        if params.ext_time is Some { 0x1000 } else { 0 },
        if params.solid_continuation { 0x10 } else { 0 },
        0,
        params.window_bits as u16,
    );
    assert(readable(p));
    lemma_two_bytes(h, 3);
    assert(b.flags == p.head_flags());
    lemma_file_header_sound(p);
    lemma_file_header_roundtrip(p, fh, b.head_crc, b.header_end);
}

// ── Members ────────────────────────────────────────────────────────────────

/// The segments of a member, as they are written: the first is not continued
/// from another volume and the last not in another, all between are both; all
/// say alike whether there is a password and a salt; each announces its part of
/// the data, and the parts follow each other from the start to the end. The
/// last carries the member's checksum, the others that of their own part.
#[verifier::rlimit(60)]
#[verifier::spinoff_prover]
pub proof fn lemma_emission_law<R: VolumeReserve>(
    e: MemberEmission,
    reserve: R,
    m: Rar4Member,
    packed_size: u64,
    crcs: Seq<u32>,
    out: Rar4Output,
    f: MemberFields,
    params: Rar4SplitParams<'_>,
    i: int,
)
    requires
        is_emission(e, reserve, m, packed_size, crcs, out, f, params),
        plain_segment(params),
        packed_size <= u32::MAX,
        0 <= i < e.segments@.len(),
    ensures
        ({
            let s = e.segments@;
            let h = s[i].header@;
            let g = word(h, 3) as u16;
            let last = i == s.len() - 1;
            &&& h[2] == 0x74
            &&& g & 0x0001 != 0 <==> i > 0
            &&& g & 0x0002 != 0 <==> !last
            &&& g & 0x0004 != 0 <==> m.password
            &&& g & 0x0010 != 0 <==> m.solid_continuation
            &&& g & 0x0400 != 0 <==> m.salt is Some
            &&& dword(h, 7) == s[i].piece.len
            &&& dword(h, 11) == m.unpacked_size
            &&& dword(h, 16) == if last {
                m.file_crc
            } else {
                crcs[i]
            }
            &&& h[25] == m.method
            &&& dword(h, 28) == m.attr
            &&& s[i].piece.offset == if i == 0 {
                0
            } else {
                s[i - 1].piece.offset + s[i - 1].piece.len
            }
            &&& last ==> s[i].piece.offset + s[i].piece.len == packed_size
            &&& e.entry.chunks@[i].packed_size == s[i].piece.len
            &&& e.entry.chunks@[i].is_final == last
            &&& e.entry.header.flags == if m.password {
                4int
            } else {
                0
            }
        }),
{
    let s = e.segments@;
    let pieces = pieces_of(s);
    let p = s[i].piece;
    match out.volume_size {
        None => {
            assert(pieces[i] == p);
        },
        Some(size) => {
            let job = split_job(out, params, size, packed_size);
            crate::rar4::emit::lemma_plan_covers(job, reserve, out.used as int, 0, pieces);
            assert(pieces[i] == s[i].piece);
            assert(pieces[0] == s[0].piece);
            assert(pieces.last() == s.last().piece);
            if i > 0 {
                assert(pieces[i - 1] == s[i - 1].piece);
                assert(pieces[i - 1].offset + pieces[i - 1].len == pieces[i - 1 + 1].offset);
            }
            if i < s.len() - 1 {
                assert(pieces[i].offset + pieces[i].len == pieces[i + 1].offset);
            }
            lemma_first_piece(job, reserve, out.used as int, pieces);
        },
    }
    assert(crate::rar4::member::is_segment(s[i], params, m, crcs[i]));
    assert(crate::rar4::member::is_chunk(
        e.entry.chunks@[i],
        s,
        m,
        crcs[i],
        out,
        crate::rar4::headers::on_disk_len(params.header_len(), out.header_encryption),
        i,
    ));
    let c = if p.split_after {
        crcs[i]
    } else {
        m.file_crc
    };
    lemma_piece_inside(e, reserve, m, packed_size, crcs, out, f, params, i);
    let q = params.plain_params(c, p.len as u32, p.split_before, p.split_after);
    lemma_file_header_law(q);
    lemma_segment_flags_law(params, c, p.len as u32, p.split_before, p.split_after);
}

/// The catalog has each part's data right behind its header: a salt and whole
/// blocks where headers are encrypted. Parts follow each other in a volume, or
/// start the next one.
pub proof fn lemma_chunk_places_law<R: VolumeReserve>(
    e: MemberEmission,
    reserve: R,
    m: Rar4Member,
    packed_size: u64,
    crcs: Seq<u32>,
    out: Rar4Output,
    f: MemberFields,
    params: Rar4SplitParams<'_>,
    i: int,
)
    requires
        is_emission(e, reserve, m, packed_size, crcs, out, f, params),
        0 <= i < e.segments@.len(),
    ensures
        ({
            let disk = if out.header_encryption {
                8 + (params.header_len() + 15) / 16 * 16
            } else {
                params.header_len()
            };
            let chunks = e.entry.chunks@;
            let p = e.segments@[i].piece;
            let start = if p.new_volume {
                out.fresh as int
            } else if i == 0 {
                out.position as int
            } else {
                chunks[i - 1].data_offset + chunks[i - 1].packed_size
            };
            let volume = if i == 0 {
                out.volume_index as int
            } else {
                chunks[i - 1].volume_index as int
            };
            &&& chunks.len() == e.segments@.len()
            &&& chunks[i].data_offset == start + disk
            &&& chunks[i].packed_size == p.len
            &&& chunks[i].volume_index == volume + if p.new_volume {
                1int
            } else {
                0
            }
        }),
{
    let s = e.segments@;
    let disk = crate::rar4::headers::on_disk_len(params.header_len(), out.header_encryption);
    assert(crate::rar4::member::is_chunk(e.entry.chunks@[i], s, m, crcs[i], out, disk, i));
    if i > 0 {
        assert(crate::rar4::member::is_chunk(
            e.entry.chunks@[i - 1],
            s,
            m,
            crcs[i - 1],
            out,
            disk,
            i - 1,
        ));
    }
    reveal_with_fuel(crate::rar4::member::volumes_started, 3);
}

proof fn lemma_first_piece<R: VolumeReserve>(
    job: crate::rar4::emit::SplitJob,
    reserve: R,
    used: int,
    pieces: Seq<SplitPiece>,
)
    requires
        job.is_plan(reserve, used, 0, pieces),
        pieces.len() > 0,
    ensures
        !pieces[0].split_before,
        pieces[0].offset == 0,
{
}

proof fn lemma_plan_inside<R: VolumeReserve>(
    job: crate::rar4::emit::SplitJob,
    reserve: R,
    used: int,
    sent: int,
    pieces: Seq<SplitPiece>,
    i: int,
)
    requires
        0 <= sent <= job.packed_size,
        job.is_plan(reserve, used, sent, pieces),
        0 <= i < pieces.len(),
    ensures
        pieces[i].len <= job.packed_size,
    decreases pieces.len(),
{
    let p = pieces[0];
    let rest = pieces.drop_first();
    if i > 0 {
        assert(rest[i - 1] == pieces[i]);
        lemma_plan_inside(
            job,
            reserve,
            job.behind(used, p) + job.head_len + p.len,
            sent + p.len,
            rest,
            i - 1,
        );
    }
}

proof fn lemma_piece_inside<R: VolumeReserve>(
    e: MemberEmission,
    reserve: R,
    m: Rar4Member,
    packed_size: u64,
    crcs: Seq<u32>,
    out: Rar4Output,
    f: MemberFields,
    params: Rar4SplitParams<'_>,
    i: int,
)
    requires
        is_emission(e, reserve, m, packed_size, crcs, out, f, params),
        0 <= i < e.segments@.len(),
    ensures
        e.segments@[i].piece.len <= packed_size,
{
    let pieces = pieces_of(e.segments@);
    assert(pieces[i] == e.segments@[i].piece);
    match out.volume_size {
        None => {},
        Some(size) => {
            let job = split_job(out, params, size, packed_size);
            lemma_plan_inside(job, reserve, out.used as int, 0, pieces, i);
        },
    }
}

// ── Comments ───────────────────────────────────────────────────────────────

/// The archive comment block, byte by byte: a sub-block of type 0x7A named
/// "CMT", with the comment behind its 35 header bytes, stored, and its size,
/// twice, and CRC-32 in it.
#[verifier::rlimit(40)]
#[verifier::spinoff_prover]
pub proof fn lemma_comment_block_law(payload: Seq<u8>, unicode: bool)
    requires
        payload.len() <= u32::MAX,
    ensures
        ({
            let b = comment_block(payload, unicode);
            &&& b.len() == 35 + payload.len()
            &&& checksum_holds(b, 35)
            &&& b[2] == 0x7a
            &&& word(b, 3) == 0x8000
            &&& word(b, 5) == 35
            &&& dword(b, 7) == payload.len()
            &&& dword(b, 11) == payload.len()
            &&& b[15] == 2
            &&& dword(b, 16) == spec_crc32(payload)
            &&& dword(b, 20) == 0
            &&& b[24] == 29
            &&& b[25] == 0x30
            &&& word(b, 26) == 3
            &&& dword(b, 28) == if unicode {
                1int
            } else {
                0
            }
            &&& b[32] == 0x43 && b[33] == 0x4d && b[34] == 0x54
            &&& b.skip(35) == payload
        }),
{
    let head = comment_head(payload, unicode);
    let b = comment_block(payload, unicode);
    let mark = if unicode {
        1nat
    } else {
        0
    };
    let n = payload.len();
    let c = spec_crc32(payload) as nat;
    let k = crc16_of(head) as nat;
    lemma_le_bytes_len(0x8000, 2);
    lemma_le_bytes_len(35, 2);
    lemma_le_bytes_len(3, 2);
    lemma_le_bytes_len(n, 4);
    lemma_le_bytes_len(c, 4);
    lemma_le_bytes_len(0, 4);
    lemma_le_bytes_len(mark, 4);
    lemma_le_bytes_len(k, 2);
    assert(head.len() == 33);
    assert(b.subrange(0, 2) =~= le_bytes(k, 2));
    assert(b.subrange(2, 35) =~= head);
    assert(b.subrange(3, 5) =~= le_bytes(0x8000, 2));
    assert(b.subrange(5, 7) =~= le_bytes(35, 2));
    assert(b.subrange(7, 11) =~= le_bytes(n, 4));
    assert(b.subrange(11, 15) =~= le_bytes(n, 4));
    assert(b.subrange(16, 20) =~= le_bytes(c, 4));
    assert(b.subrange(20, 24) =~= le_bytes(0, 4));
    assert(b.subrange(26, 28) =~= le_bytes(3, 2));
    assert(b.subrange(28, 32) =~= le_bytes(mark, 4));
    lemma_number_at(b, 0, k, 2);
    lemma_number_at(b, 3, 0x8000, 2);
    lemma_number_at(b, 5, 35, 2);
    lemma_number_at(b, 7, n, 4);
    lemma_number_at(b, 11, n, 4);
    lemma_number_at(b, 16, c, 4);
    lemma_number_at(b, 20, 0, 4);
    lemma_number_at(b, 26, 3, 2);
    lemma_number_at(b, 28, mark, 4);
    lemma_low_half(spec_crc32(head));
    assert(b.skip(35) =~= payload);
}

/// The archive comment block is read as a block: its header is the 35 bytes
/// before the comment, sound, and announces the comment's length, so that the
/// next block is looked for where the comment ends.
pub proof fn lemma_comment_block_reads_back(
    payload: Seq<u8>,
    unicode: bool,
    before: Seq<u8>,
    after: Seq<u8>,
    b: Rar4Block,
)
    requires
        payload.len() <= u32::MAX,
        ({
            let start = before.len() as int;
            let v = before + comment_block(payload, unicode) + after;
            match plain_header(v, start) {
                Ok(Some(h)) => envelope_fault(h, true) is None ==> is_block(
                    b,
                    start,
                    h,
                    h.len() as int,
                ),
                _ => true,
            }
        }),
    ensures
        ({
            let start = before.len() as int;
            let block = comment_block(payload, unicode);
            let v = before + block + after;
            &&& plain_header(v, start) == Ok::<Option<Seq<u8>>, Seq<char>>(
                Some(block.subrange(0, 35)),
            )
            &&& envelope_fault(block.subrange(0, 35), true) is None
            &&& b.head_type == 0x7a
            &&& b.header_end == start + 35
            &&& b.add_size == payload.len()
            &&& b.offset + b.total_size == start + block.len()
            &&& v.subrange(b.header_end as int, b.header_end + b.add_size) == payload
        }),
{
    let start = before.len() as int;
    let block = comment_block(payload, unicode);
    let v = before + block + after;
    let h = block.subrange(0, 35);
    lemma_comment_block_law(payload, unicode);
    assert(v.subrange(start, start + 35) =~= h);
    assert(v.subrange(start + 5, start + 7) =~= block.subrange(5, 7));
    lemma_two_bytes(block, 5);
    lemma_two_bytes(h, 0);
    lemma_two_bytes(h, 3);
    lemma_two_bytes(h, 5);
    lemma_four_bytes(h, 7);
    assert(h.subrange(2, 35) =~= block.subrange(2, 35));
    lemma_low_half(spec_crc32(h.subrange(2, 35)));
    assert(0x8000u16 & 0x8000u16 != 0) by (bit_vector);
    assert(field(h, 3, 2) == 0x8000);
    assert(v.subrange(start + 35, start + 35 + payload.len()) =~= payload);
}

/// A member comment block, byte by byte: type 0x75, its own size, the comment's
/// size, stored, and the low half of the comment's CRC-32; its own checksum
/// covers the thirteen bytes of header.
#[verifier::rlimit(40)]
#[verifier::spinoff_prover]
pub proof fn lemma_file_comment_block_law(comment: Seq<u8>)
    requires
        comment.len() <= 0xffff - 13,
    ensures
        ({
            let b = file_comment_block(comment);
            &&& b.len() == 13 + comment.len()
            &&& checksum_holds(b, 13)
            &&& b[2] == 0x75
            &&& word(b, 3) == 0
            &&& word(b, 5) == 13 + comment.len()
            &&& word(b, 7) == comment.len()
            &&& b[9] == 29
            &&& b[10] == 0x30
            &&& word(b, 11) == spec_crc32(comment) as int % 0x1_0000
            &&& b.skip(13) == comment
        }),
{
    let head = file_comment_head(comment);
    let b = file_comment_block(comment);
    let n = comment.len();
    let c = crc16_of(comment) as nat;
    let k = crc16_of(head) as nat;
    lemma_le_bytes_len(0, 2);
    lemma_le_bytes_len(13 + n, 2);
    lemma_le_bytes_len(n, 2);
    lemma_le_bytes_len(c, 2);
    lemma_le_bytes_len(k, 2);
    assert(head.len() == 11);
    assert(b.subrange(0, 2) =~= le_bytes(k, 2));
    assert(b.subrange(2, 13) =~= head);
    assert(b.subrange(3, 5) =~= le_bytes(0, 2));
    assert(b.subrange(5, 7) =~= le_bytes(13 + n, 2));
    assert(b.subrange(7, 9) =~= le_bytes(n, 2));
    assert(b.subrange(11, 13) =~= le_bytes(c, 2));
    lemma_number_at(b, 0, k, 2);
    lemma_number_at(b, 3, 0, 2);
    lemma_number_at(b, 5, 13 + n, 2);
    lemma_number_at(b, 7, n, 2);
    lemma_number_at(b, 11, c, 2);
    lemma_low_half(spec_crc32(head));
    lemma_low_half(spec_crc32(comment));
    assert(b.skip(13) =~= comment);
}

// ── Blocks in a volume ─────────────────────────────────────────────────────

/// A sound header at a place of a volume is read as its block: the data area
/// starts behind it and is as long as it announces.
pub proof fn lemma_plain_block_law(
    data: Seq<u8>,
    start: int,
    h: Seq<u8>,
    policy: EnvelopePolicy,
    r: RarResult<Option<Rar4Block>>,
)
    requires
        0 <= start,
        7 <= h.len() == word(h, 5),
        start + h.len() <= data.len(),
        data.subrange(start, start + h.len()) == h,
        envelope_fault(h, policy.verify_crc) is None,
        plain_read(data, start, policy, r),
    ensures
        r is Ok && r->Ok_0 is Some,
        ({
            let b = r->Ok_0->Some_0;
            let more = if word(h, 3) >= 0x8000 {
                dword(h, 7)
            } else {
                0
            };
            &&& b.offset == start
            &&& b.head_crc == word(h, 0)
            &&& b.head_type == h[2]
            &&& b.flags == word(h, 3)
            &&& b.header@ == h
            &&& b.header_end == start + h.len()
            &&& h.len() >= 11 ==> b.add_size == more
            &&& h.len() >= 11 ==> b.offset + b.total_size == start + h.len() + more
            &&& b.raw_header is Some <==> policy.retain_raw
            &&& policy.retain_raw ==> b.raw_header->Some_0@ == h
        }),
{
    assert(data.subrange(start + 5, start + 7) =~= h.subrange(5, 7));
    lemma_two_bytes(h, 0);
    lemma_two_bytes(h, 3);
    lemma_two_bytes(h, 5);
    let flags = word(h, 3) as u16;
    assert(flags < 0x8000 ==> flags & 0x8000 == 0) by (bit_vector);
    assert(flags >= 0x8000 ==> flags & 0x8000 != 0) by (bit_vector);
    if h.len() >= 11 {
        lemma_four_bytes(h, 7);
    }
}

/// Padding of a header for encryption: zeros up to whole blocks.
pub proof fn lemma_header_padding_law(header: Seq<u8>)
    ensures
        padded_header(header).len() % 16 == 0,
        header.len() <= padded_header(header).len() < header.len() + 16,
        padded_header(header).take(header.len() as int) == header,
        forall|i: int|
            header.len() <= i < padded_header(header).len() ==> padded_header(header)[i] == 0,
{
    assert(padded_header(header).take(header.len() as int) =~= header);
}

/// An encrypted header at a place of a volume, a salt and whole cipher blocks,
/// is read as its block under the key that it was encrypted with: the data area
/// starts behind the last cipher block.
#[verifier::rlimit(40)]
#[verifier::spinoff_prover]
pub proof fn lemma_encrypted_block_law(
    before: Seq<u8>,
    salt: Seq<u8>,
    cipher: Seq<u8>,
    after: Seq<u8>,
    header: Seq<u8>,
    key: HeaderKey,
    policy: EnvelopePolicy,
    r: RarResult<Option<Rar4Block>>,
)
    requires
        salt.len() == 8,
        7 <= header.len() == word(header, 5),
        cipher.len() == padded_header(header).len(),
        prefixes_decrypt(key.key@, key.iv@, cipher, padded_header(header)),
        envelope_fault(header, policy.verify_crc) is None,
        encrypted_read(
            before + salt + cipher + after,
            before.len() as int,
            key,
            policy,
            r,
        ),
    ensures
        r is Ok && r->Ok_0 is Some,
        ({
            let b = r->Ok_0->Some_0;
            &&& b.offset == before.len()
            &&& b.header@ == header
            &&& b.head_type == header[2]
            &&& b.flags == word(header, 3)
            &&& b.header_end == before.len() + 8 + cipher.len()
            &&& b.total_size == 8 + cipher.len() + b.add_size
            &&& policy.retain_raw ==> b.raw_header->Some_0@ == salt + cipher
        }),
{
    let data = before + salt + cipher + after;
    let start = before.len() as int;
    let plain = padded_header(header);
    lemma_header_padding_law(header);
    lemma_two_bytes(header, 0);
    lemma_two_bytes(header, 3);
    lemma_two_bytes(header, 5);
    assert(data.subrange(start + 8, start + 24) =~= cipher.take(16));
    assert(cbc_decrypted(key.key@, key.iv@, cipher.take(16)) == plain.take(16));
    assert(plain.take(16).subrange(5, 7) =~= header.subrange(5, 7)) by {
        assert forall|i: int| 5 <= i < 7 implies plain[i] == header[i] by {
            assert(plain.take(header.len() as int)[i] == header[i]);
        }
    }
    let disk = 8 + cipher.len() as int;
    assert(data.subrange(start + 8, start + disk) =~= cipher.take(cipher.len() as int));
    assert(plain.take(plain.len() as int) =~= plain);
    assert(data.subrange(start, start + disk) =~= salt + cipher);
}

// ── What is checked of a header ────────────────────────────────────────────

/// A header is taken where it is whole and its checksum holds: that of all its
/// bytes; of a main header with a comment, and of a comment block, of the first
/// thirteen; of a file header with a comment, of what stands before that.
/// Marker and signature blocks have no checksum, and 0xFFFF says that there is
/// none.
pub proof fn lemma_header_check_law(h: Seq<u8>)
    requires
        h.len() >= 7,
        word(h, 5) >= 7,
        word(h, 5) <= h.len(),
        word(h, 3) < 0x8000 || h.len() >= 11,
    ensures
        ({
            let t = h[2];
            let flags = word(h, 3) as u16;
            let short = if h.len() < 13 {
                h.len() as int
            } else {
                13
            };
            let end = if t == 0x75 || t == 0x73 && flags & 0x0002 != 0 {
                short
            } else if t == 0x74 && flags & 0x0008 != 0 {
                crc_end(h)
            } else {
                h.len() as int
            };
            let free = t == 0x72 || t == 0x76 || t == 0x79 || word(h, 0) == 0xffff;
            &&& envelope_fault(h, true) is None <==> free || checksum_holds(h, end)
            &&& envelope_fault(h, false) is None
            &&& announced_size(h) == if flags & 0x8000 != 0 {
                dword(h, 7)
            } else {
                0
            }
        }),
{
    lemma_two_bytes(h, 0);
    lemma_two_bytes(h, 3);
    lemma_two_bytes(h, 5);
    let flags = word(h, 3) as u16;
    assert(flags < 0x8000 ==> flags & 0x8000 == 0) by (bit_vector);
    assert(flags >= 0x8000 ==> flags & 0x8000 != 0) by (bit_vector);
    if h.len() >= 11 {
        lemma_four_bytes(h, 7);
    }
    let end = covered_end(h, h[2], flags);
    lemma_low_half(spec_crc32(h.subrange(2, end)));
}

/// The text of a comment without a marker: bytes that are UTF-8 are kept; others
/// are UTF-16, lowest byte first, where they can be, and kept where they cannot.
pub proof fn lemma_guessed_text_law(payload: Seq<u8>, units: Seq<u16>)
    requires
        units.len() == payload.len() / 2,
        forall|i: int|
            0 <= i < units.len() ==> #[trigger] units[i] == payload[2 * i] + 256 * payload[2 * i
                + 1],
    ensures
        valid_utf8(payload) ==> guessed_text(payload) == payload,
        payload.len() % 2 == 1 ==> guessed_text(payload) == payload,
        (exists|i: int| 0 <= i < units.len() && 0xd800 <= #[trigger] units[i] < 0xe000)
            ==> guessed_text(payload) == payload,
        !valid_utf8(payload) && payload.len() % 2 == 0 && (forall|i: int|
            0 <= i < units.len() ==> !(0xd800 <= #[trigger] units[i] < 0xe000)) ==> guessed_text(
            payload,
        ) == encode_utf8(utf16_text(units)),
{
    assert(units_of_bytes(payload) =~= units);
}

/// A comment is kept where it is ASCII, and else stored as UTF-16, lowest byte
/// first, and marked so.
pub proof fn lemma_comment_payload_law(text: Seq<char>)
    requires
        lossy_utf8_of(encode_utf8(text)) == text,
    ensures
        ({
            let bytes = encode_utf8(text);
            let (payload, unicode) = comment_payload(bytes);
            &&& !unicode <==> forall|i: int| 0 <= i < bytes.len() ==> #[trigger] bytes[i] < 128
            &&& !unicode ==> payload == bytes
            &&& unicode ==> payload.len() == 2 * utf16_units(text).len() && forall|i: int|
                0 <= i < utf16_units(text).len() ==> payload[2 * i] + 256 * payload[2 * i + 1]
                    == #[trigger] utf16_units(text)[i]
            &&& unicode ==> comment_text(payload, true) == bytes
        }),
{
    let bytes = encode_utf8(text);
    let u = utf16_units(text);
    let payload = bytes_of_units(u);
    assert forall|i: int| 0 <= i < u.len() implies payload[2 * i] + 256 * payload[2 * i + 1]
        == #[trigger] u[i] by {
        assert((2 * i) / 2 == i && (2 * i + 1) / 2 == i);
        assert((2 * i) % 2 == 0 && (2 * i + 1) % 2 == 1);
    }
    crate::rar4::comment::lemma_units_roundtrip(u);
    crate::unicode::lemma_utf16_roundtrip(text);
}

} // verus!
