//! What RAR 1.3/1.4 headers hold, byte by byte, and how members are laid out.

use crate::bytes::{
    le_bytes, lemma_byte_ranges, lemma_four_bytes, lemma_le_bytes_len, lemma_le_roundtrip,
    lemma_two_bytes,
};
use crate::crypto::clamped;
use crate::crypto::rar13::{password_key, rar13_encrypted};
use crate::engine::entry::ArchiveEntry;
use crate::rar13::emit::{
    disk_data, fragments_of, is_part, is_part_chunk, is_rar13_emission, is_rar13_header, split_job,
    Rar13Emission, Rar13Job, Rar13Output, Rar13Settings,
};
use crate::rar13::read::{is_member, member_fault};
use crate::rar13::write::{
    comment_extension, fragment_flags, is_fragment_header, main_header, rar13_payload_of,
    spec_member_flags, Fragment, MemberHeader,
};
use crate::rar4::laws::{dword, word};
use crate::shared::checksum::rolling_from;
use crate::shared::legacy_time::spec_dos_time_to_unix;
use vstd::prelude::*;
use vstd::utf8::encode_utf8;

verus! {

proof fn lemma_number_here(h: Seq<u8>, at: int, v: nat, n: nat)
    requires
        n == 2 || n == 4,
        n == 2 ==> v < 0x1_0000,
        n == 4 ==> v < 0x1_0000_0000,
        0 <= at,
        at + n <= h.len(),
        h.subrange(at, at + n) == le_bytes(v, n),
    ensures
        n == 2 ==> word(h, at) == v,
        n == 4 ==> dword(h, at) == v,
{
    lemma_byte_ranges();
    lemma_le_roundtrip(v, n);
    if n == 2 {
        lemma_two_bytes(h, at);
    } else {
        lemma_four_bytes(h, at);
    }
}

/// The places of a file header's fields.
pub proof fn lemma_member_header_law(m: MemberHeader<'_>)
    requires
        m.refusal() is None,
        m.packed_size <= u32::MAX,
        m.unpacked_size <= u32::MAX,
    ensures
        ({
            let h = m.bytes();
            let name = encode_utf8(m.name@);
            let n = 21 + name.len() as int;
            &&& h.len() == n + m.extra@.len()
            &&& dword(h, 0) == m.packed_size
            &&& dword(h, 4) == m.unpacked_size
            &&& word(h, 8) == m.file_crc
            &&& word(h, 10) == h.len()
            &&& dword(h, 12) == m.file_time
            &&& h[16] == m.file_attr
            &&& h[17] == m.flags
            &&& h[18] == 2
            &&& h[19] == name.len()
            &&& h[20] == m.method
            &&& h.subrange(21, n) == name
            &&& h.skip(n) == m.extra@
        }),
{
    let h = m.bytes();
    let n = 21 + m.name_bytes().len() as int;
    lemma_le_bytes_len(m.packed_size as nat, 4);
    lemma_le_bytes_len(m.unpacked_size as nat, 4);
    lemma_le_bytes_len(m.file_crc as nat, 2);
    lemma_le_bytes_len(m.head_size(), 2);
    lemma_le_bytes_len(m.file_time as nat, 4);
    assert(h.subrange(0, 4) =~= le_bytes(m.packed_size as nat, 4));
    assert(h.subrange(4, 8) =~= le_bytes(m.unpacked_size as nat, 4));
    assert(h.subrange(8, 10) =~= le_bytes(m.file_crc as nat, 2));
    assert(h.subrange(10, 12) =~= le_bytes(m.head_size(), 2));
    assert(h.subrange(12, 16) =~= le_bytes(m.file_time as nat, 4));
    lemma_number_here(h, 0, m.packed_size as nat, 4);
    lemma_number_here(h, 4, m.unpacked_size as nat, 4);
    lemma_number_here(h, 8, m.file_crc as nat, 2);
    lemma_number_here(h, 10, m.head_size(), 2);
    lemma_number_here(h, 12, m.file_time as nat, 4);
    assert(h.subrange(21, n) =~= m.name_bytes());
    assert(h.skip(n) =~= m.extra@);
}

/// A main header starts with `RE~^` and its length; its flags say whether the
/// archive is a volume, solid, and has a (packed) comment.
pub proof fn lemma_main_header_law(solid: bool, extra: Option<Seq<u8>>, volume: bool)
    requires
        main_header(solid, extra, volume).len() <= 0xffff,
    ensures
        ({
            let h = main_header(solid, extra, volume);
            let f = h[6];
            let x = match extra {
                Some(x) => x,
                None => Seq::empty(),
            };
            &&& h.len() == 7 + x.len()
            &&& h[0] == 0x52 && h[1] == 0x45 && h[2] == 0x7e && h[3] == 0x5e
            &&& word(h, 4) == h.len()
            &&& f & 0x80 != 0
            &&& f & 0x01 != 0 <==> volume
            &&& f & 0x02 != 0 <==> extra is Some
            &&& f & 0x10 != 0 <==> extra is Some
            &&& f & 0x08 != 0 <==> solid
            &&& h.skip(7) == x
        }),
{
    let h = main_header(solid, extra, volume);
    let x = match extra {
        Some(x) => x,
        None => Seq::empty(),
    };
    lemma_le_bytes_len(7 + x.len(), 2);
    assert(h.subrange(4, 6) =~= le_bytes(7 + x.len(), 2));
    lemma_number_here(h, 4, 7 + x.len(), 2);
    assert(h.skip(7) =~= x);
    let v = if volume { 1u8 } else { 0 };
    let c = if extra is Some { 2u8 } else { 0 };
    let p = if extra is Some { 0x10u8 } else { 0 };
    let s = if solid { 8u8 } else { 0 };
    assert((v == 0 || v == 1) && (c == 0 || c == 2) && (p == 0 || p == 0x10) && (s == 0 || s == 8)
        ==> {
        let f = 0x80u8 | v | c | p | s;
        &&& f & 0x80 != 0
        &&& f & 0x01 == v
        &&& f & 0x02 == c
        &&& f & 0x10 == p
        &&& f & 0x08 == s
    }) by (bit_vector);
}

proof fn lemma_flag_bits(solid: u8, comment: u8, password: u8)
    requires
        solid == 0 || solid == 0x10,
        comment == 0 || comment == 8,
        password == 0 || password == 4,
    ensures
        ({
            let f = solid | comment | password;
            &&& f & 1 == 0 && f & 2 == 0
            &&& f & 4 == password
            &&& f & 8 == comment
            &&& f & 0x10 == solid
        }),
{
    assert((solid == 0 || solid == 0x10) && (comment == 0 || comment == 8) && (password == 0
        || password == 4) ==> {
        let f = solid | comment | password;
        &&& f & 1 == 0 && f & 2 == 0
        &&& f & 4 == password
        &&& f & 8 == comment
        &&& f & 0x10 == solid
    }) by (bit_vector);
}

/// A member's flags say whether it has a password and a comment, and whether it
/// is packed in a solid archive.
pub proof fn lemma_member_flags_law(solid: bool, method: u8, comment: bool, password: bool)
    ensures
        ({
            let f = spec_member_flags(solid, method, comment, password);
            &&& f & 0x04 != 0 <==> password
            &&& f & 0x08 != 0 <==> comment
            &&& f & 0x10 != 0 <==> solid && method == 5
            &&& f & 0x01 == 0
            &&& f & 0x02 == 0
        }),
{
    lemma_flag_bits(
        if solid && method == 5 { 0x10 } else { 0 },
        if comment { 8 } else { 0 },
        if password { 4 } else { 0 },
    );
}

/// A fragment's flags add what it is of the member; only the first carries the
/// comment.
pub proof fn lemma_fragment_flags_law(flags: u8, f: Fragment)
    requires
        flags & 0x01 == 0,
        flags & 0x02 == 0,
    ensures
        ({
            let g = fragment_flags(flags, f);
            &&& g & 0x01 != 0 <==> f.split_before
            &&& g & 0x02 != 0 <==> f.split_after
            &&& g & 0x04 == flags & 0x04
            &&& g & 0x10 == flags & 0x10
            &&& g & 0x08 == if f.split_before {
                0
            } else {
                flags & 0x08
            }
        }),
{
    let b = if f.split_before { 1u8 } else { 0 };
    let a = if f.split_after { 2u8 } else { 0 };
    assert((flags & 1 == 0) && (flags & 2 == 0) && (b == 0 || b == 1) && (a == 0 || a == 2) ==> {
        let g = flags | b | a;
        let k = (flags & !8u8) | b | a;
        &&& g & 1 == b && g & 2 == a && g & 4 == flags & 4 && g & 0x10 == flags & 0x10 && g & 8
            == flags & 8
        &&& k & 1 == b && k & 2 == a && k & 4 == flags & 4 && k & 0x10 == flags & 0x10 && k & 8
            == 0
    }) by (bit_vector);
}

/// A member is stored at level zero, where it is empty, and where packing it
/// does not make it smaller, but in a solid archive; else it is packed. Stored
/// it is the data itself.
pub proof fn lemma_payload_law(data: Seq<u8>, level: u8, solid: bool, encoded: Option<Seq<u8>>)
    ensures
        ({
            let (payload, method) = rar13_payload_of(data, level, solid, encoded);
            &&& method == 0 || method == 5
            &&& method == 0 ==> payload == data
            &&& method == 5 ==> encoded == Some(payload) && (solid || payload.len() < data.len())
            &&& level == 0 ==> method == 0
            &&& data.len() == 0 ==> method == 0
            &&& level > 0 && data.len() > 0 && encoded is Some && encoded->Some_0.len()
                < data.len() ==> method == 5
        }),
{
}

/// What goes to disk: nothing for a directory, the payload, or what the
/// password's cipher makes of it.
pub proof fn lemma_disk_data_law(
    job: Rar13Job,
    settings: Rar13Settings<'_>,
    encoded: Option<Seq<u8>>,
)
    ensures
        ({
            let d = disk_data(job, settings, encoded);
            let payload = rar13_payload_of(job.data@, job.level, settings.solid, encoded).0;
            let directory = job.name@.len() > 0 && job.name@.last() == '/';
            &&& directory ==> d.len() == 0
            &&& !directory && settings.password is None ==> d == payload
            &&& !directory && settings.password is Some ==> d == rar13_encrypted(
                password_key(clamped(encode_utf8(settings.password->Some_0@))),
                payload,
            )
        }),
{
}

/// The header of a member says what the member is.
pub proof fn lemma_job_header_law(
    m: MemberHeader<'_>,
    job: Rar13Job,
    settings: Rar13Settings<'_>,
    encoded: Option<Seq<u8>>,
)
    requires
        is_rar13_header(m, job, settings, encoded),
        !(job.name@.len() > 0 && job.name@.last() == '/'),
    ensures
        m.name@ == job.name@,
        m.unpacked_size == job.data@.len(),
        m.packed_size == rar13_payload_of(job.data@, job.level, settings.solid, encoded).0.len(),
        m.file_crc == rolling_from(0, job.data@),
        m.file_attr == 0x20,
        m.flags & 0x04 != 0 <==> settings.password is Some,
        m.flags & 0x08 != 0 <==> job.comment is Some,
        m.method == rar13_payload_of(job.data@, job.level, settings.solid, encoded).1,
        match job.comment {
            Some(c) => c@.len() <= 0xffff ==> m.extra@.len() == 2 + c@.len() && word(m.extra@, 0)
                == c@.len() && m.extra@.skip(2) == c@,
            None => m.extra@.len() == 0,
        },
{
    let method = rar13_payload_of(job.data@, job.level, settings.solid, encoded).1;
    lemma_member_flags_law(
        settings.solid,
        method,
        job.comment is Some,
        settings.password is Some,
    );
    if let Some(c) = job.comment {
        lemma_le_bytes_len(c@.len(), 2);
        assert(m.extra@.skip(2) =~= c@);
        if c@.len() <= 0xffff {
            assert(m.extra@.subrange(0, 2) =~= le_bytes(c@.len(), 2));
            lemma_number_here(m.extra@, 0, c@.len(), 2);
        }
    }
}

/// The fragments of a member as they are written: the first is continued from
/// none and the last in none, all between are both; each header announces its
/// part of the data, the parts follow each other from the start to the end, and
/// each stands behind its header.
#[verifier::rlimit(60)]
#[verifier::spinoff_prover]
pub proof fn lemma_emission_law(
    e: Rar13Emission,
    m: MemberHeader<'_>,
    packed: Seq<u8>,
    out: Rar13Output,
    i: int,
)
    requires
        is_rar13_emission(e, m, packed, out),
        m.refusal() is None,
        m.unpacked_size <= u32::MAX,
        packed.len() <= u32::MAX,
        m.flags & 0x01 == 0,
        m.flags & 0x02 == 0,
        0 <= i < e.parts@.len(),
        out.volume_size is None || packed.len() > 0,
    ensures
        ({
            let parts = e.parts@;
            let h = parts[i].header@;
            let f = parts[i].fragment;
            let last = i == parts.len() - 1;
            let c = e.entry.chunks@[i];
            &&& h[17] & 0x01 != 0 <==> i > 0
            &&& h[17] & 0x02 != 0 <==> !last
            &&& h[17] & 0x04 == m.flags & 0x04
            &&& h[17] & 0x10 == m.flags & 0x10
            &&& dword(h, 0) == f.len
            &&& dword(h, 4) == m.unpacked_size
            &&& last ==> word(h, 8) == m.file_crc
            &&& !last ==> word(h, 8) == rolling_from(0, packed.take(f.offset + f.len))
            &&& dword(h, 12) == m.file_time
            &&& h[20] == m.method
            &&& f.offset == if i == 0 {
                0
            } else {
                parts[i - 1].fragment.offset + parts[i - 1].fragment.len
            }
            &&& last ==> f.offset + f.len == packed.len()
            &&& c.packed_size == f.len
            &&& c.is_final == last
            &&& i == 0 && !f.new_volume ==> c.data_offset == out.position + h.len()
                && c.volume_index == out.volume_index
            &&& f.new_volume ==> c.data_offset == out.fresh + h.len()
        }),
{
    let parts = e.parts@;
    let all = fragments_of(m, packed.len() as u64, out)->Some_0;
    let f = parts[i].fragment;
    assert(is_part(parts[i], m, packed, all[i]));
    assert(is_part(parts[0], m, packed, all[0]));
    assert(is_part_chunk(parts, e.entry.chunks@, out, i));
    if i > 0 {
        assert(is_part(parts[i - 1], m, packed, all[i - 1]));
    }
    match out.volume_size {
        None => {},
        Some(n) => {
            let job = split_job(m, packed.len() as u64, n, out.fresh);
            lemma_utf8_name(m);
            crate::rar13::write::lemma_fragments(job, out.used as int, 0);
            assert(all == job.fragments(out.used as int, 0)->Some_0);
            lemma_first_fragment(job, out.used as int);
            if i > 0 {
                assert(all[i - 1].offset + all[i - 1].len == all[i - 1 + 1].offset);
            }
            if i < all.len() - 1 {
                assert(all[i].offset + all[i].len == all[i + 1].offset);
            }
            lemma_fragment_inside(job, out.used as int, 0, i);
        },
    }
    let h = choose|h: MemberHeader<'_>| #[trigger]
        is_fragment_header(h, m, rolling_from(0, packed.take(f.offset + f.len)), f)
            && parts[i].header@ == h.bytes();
    lemma_fragment_flags_law(m.flags, f);
    assert(h.refusal() is None);
    lemma_member_header_law(h);
}

proof fn lemma_utf8_name(m: MemberHeader<'_>)
    requires
        m.refusal() is None,
    ensures
        m.head_size() <= 0xffff,
        21 + m.name_bytes().len() <= 0xffff,
{
}

proof fn lemma_first_fragment(job: crate::rar13::write::Split13, used: int)
    requires
        job.valid(),
        0 <= used,
        job.total > 0,
        job.fragments(used, 0) is Some,
    ensures
        job.fragments(used, 0)->Some_0.len() > 0,
        !job.fragments(used, 0)->Some_0[0].split_before,
        job.fragments(used, 0)->Some_0[0].offset == 0,
{
}

proof fn lemma_fragment_inside(job: crate::rar13::write::Split13, used: int, sent: int, i: int)
    requires
        job.valid(),
        0 <= used,
        0 <= sent < job.total,
        job.fragments(used, sent) is Some,
        0 <= i < job.fragments(used, sent)->Some_0.len(),
    ensures
        job.fragments(used, sent)->Some_0[i].len <= job.total,
    decreases job.total - sent,
{
    let roll = !job.has_room(used, sent);
    let behind = if roll {
        job.fresh as int
    } else {
        used
    };
    let f = job.fragment(roll, behind, sent);
    let next = behind + job.header_len(sent) + f.len;
    let rest = job.fragments(next, sent + f.len);
    assert(f.len >= 1);
    assert(rest is Some);
    if i > 0 {
        assert(job.fragments(used, sent)->Some_0[i] == rest->Some_0[i - 1]);
        if sent + f.len < job.total {
            lemma_fragment_inside(job, next, sent + f.len, i - 1);
        }
    }
}

/// The extension of an archive comment: its packed length and two, its length,
/// and what the fixed key's cipher makes of the packed bytes.
pub proof fn lemma_comment_extension_law(comment_len: nat, encoded: Seq<u8>)
    requires
        comment_len <= 0xffff,
        encoded.len() <= 0xfffd,
    ensures
        ({
            let x = comment_extension(comment_len, encoded);
            &&& x.len() == 4 + encoded.len()
            &&& word(x, 0) == encoded.len() + 2
            &&& word(x, 2) == comment_len
            &&& x.skip(4) == rar13_encrypted(seq![0u8, 7u8, 77u8], encoded)
        }),
{
    let x = comment_extension(comment_len, encoded);
    lemma_le_bytes_len(encoded.len() + 2, 2);
    lemma_le_bytes_len(comment_len, 2);
    assert(x.subrange(0, 2) =~= le_bytes(encoded.len() + 2, 2));
    assert(x.subrange(2, 4) =~= le_bytes(comment_len, 2));
    lemma_number_here(x, 0, encoded.len() + 2, 2);
    lemma_number_here(x, 2, comment_len, 2);
    assert(x.skip(4) =~= rar13_encrypted(seq![0u8, 7u8, 77u8], encoded));
}

/// What a reader makes of a file header's bytes.
pub proof fn lemma_read_member_law(e: ArchiveEntry, data: Seq<u8>, at: int)
    requires
        0 <= at,
        at + 21 <= data.len(),
        member_fault(data, at) is None,
        is_member(e, data, at),
    ensures
        e.header.packed_size == dword(data, at),
        e.header.unpacked_size == dword(data, at + 4),
        e.header.crc32_val == Some(word(data, at + 8) as u32),
        e.header.mtime == spec_dos_time_to_unix(dword(data, at + 12)),
        e.header.attributes == data[at + 16],
        e.header.is_directory == (data[at + 16] & 0x10 != 0),
        e.header.flags == data[at + 17],
        e.header.comp_solid == (data[at + 17] & 0x10 != 0),
        e.header.comp_method == data[at + 20],
        e.header.format_version == 3,
        e.header.unp_ver == 15,
        e.chunks@.len() == 1,
        e.chunks@[0].data_offset == at + word(data, at + 10),
        e.chunks@[0].packed_size == dword(data, at),
        e.chunks@[0].is_final == (data[at + 17] & 0x02 == 0),
{
    reveal(is_member);
    lemma_four_bytes(data, at);
    lemma_four_bytes(data, at + 4);
    lemma_two_bytes(data, at + 8);
    lemma_two_bytes(data, at + 10);
    lemma_four_bytes(data, at + 12);
}

/// A fragment that is continued fills its volume to the last byte, and a new
/// volume is started where the current one has no room for a byte of data.
pub proof fn lemma_volume_is_filled(job: crate::rar13::write::Split13, used: int, sent: int)
    requires
        job.valid(),
        0 <= used,
        0 <= sent < job.total,
        job.fragments(used, sent) is Some,
    ensures
        ({
            let f = job.fragments(used, sent)->Some_0[0];
            let header = if sent > 0 {
                job.continuation_len
            } else {
                job.first_len
            };
            let behind = if f.new_volume {
                job.fresh as int
            } else {
                used
            };
            &&& f.split_after ==> behind + header + f.len == job.volume_size
            &&& !f.split_after ==> behind + header + f.len <= job.volume_size && sent + f.len
                == job.total
            &&& f.new_volume <==> used + header + 1 > job.volume_size
            &&& f.split_before <==> sent > 0
        }),
{
}

} // verus!
