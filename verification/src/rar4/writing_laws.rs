//! The rules by which members are written: versions, times, windows, solid
//! runs, payloads and comments in headers.

use crate::bytes::{le_bytes, lemma_le_bytes_len, lemma_two_bytes};
use crate::rar4::comment::{file_comment_at, file_comment_block, guessed_text};
use crate::rar4::emit::{NoRecovery, Rar4SplitParams, SplitJob, SplitPiece};
use crate::rar4::encode::{
    aligned16, filter_candidates, packed_member, spec_rar15_options, spec_rar20_options,
    zero_aligned, FilterExtent, FilterMode, FilterOptions, FilterScan, Rar29FilterKind,
};
use crate::rar4::ext_time::{area_for, lemma_area_roundtrip, refinement};
use crate::rar4::headers::{checked_block, crc_end, on_disk_len, FileHeaderParams};
use crate::rar4::laws::{checksum_holds, dword, lemma_file_header_law, word};
use crate::rar4::member::{
    are_fields, continues_run, ends_run, is_entry, is_window_for, run_after, spec_member_unp_ver,
    stream_level, wave_end, window_size, MemberFields, Rar4Member, Rar4Output, SolidRun,
};
use crate::rar4::names::{name_bytes, name_of};
use crate::rar4::stream::{forward_slashed, is_streamed, StreamedPayload, StreamedSource};
use crate::rar4::writer::is_dir_params;
use crate::model::FileHeader;
use crate::shared::checksum::crc16_of;
use crate::shared::legacy_time::{
    lemma_dos_time_roundtrip, spec_dos_time_to_unix, spec_unix_to_dos_time,
};
use crate::version::{spec_codec, spec_version, ArchiveVersion, LegacyCodec};
use vstd::arithmetic::power2::*;
use vstd::prelude::*;

verus! {

// ── Versions ───────────────────────────────────────────────────────────────

/// The versions there are, and the codec of each.
pub proof fn lemma_versions_law(unp_ver: u8)
    ensures
        spec_codec(unp_ver) == Some(LegacyCodec::Rar15) <==> unp_ver == 15,
        spec_codec(unp_ver) == Some(LegacyCodec::Rar20) <==> unp_ver == 20 || unp_ver == 26,
        spec_codec(unp_ver) == Some(LegacyCodec::Rar29) <==> unp_ver == 29 || unp_ver == 36,
        spec_version(unp_ver) is Some <==> spec_codec(unp_ver) is Some,
        spec_version(unp_ver) == Some(ArchiveVersion::V15) <==> unp_ver == 15,
        spec_version(unp_ver) == Some(ArchiveVersion::V20) <==> unp_ver == 20,
        spec_version(unp_ver) == Some(ArchiveVersion::V26) <==> unp_ver == 26,
        spec_version(unp_ver) == Some(ArchiveVersion::V29) <==> unp_ver == 29,
        spec_version(unp_ver) == Some(ArchiveVersion::V36) <==> unp_ver == 36,
{
}

/// A member has its archive's version, but where it is stored without a
/// password in a RAR 3.x or 4.x archive: then 20.
pub proof fn lemma_member_version_law(archive: u8, level: u8, encrypted: bool)
    ensures
        level > 0 || encrypted || archive < 29 ==> spec_member_unp_ver(archive, level, encrypted)
            == archive,
        level == 0 && !encrypted && archive >= 29 ==> spec_member_unp_ver(archive, level, encrypted)
            == 20,
{
}

// ── Times ──────────────────────────────────────────────────────────────────

/// A time written with its extended area is read back to the second, and to
/// 100 nanoseconds where there are any.
pub proof fn lemma_time_with_area_law(civil: u32, ns: u32)
    requires
        civil >= 315_532_800,
        ns < 1_000_000_000,
    ensures
        ({
            let whole = spec_dos_time_to_unix(spec_unix_to_dos_time(civil as int));
            match area_for(civil as int, ns as int) {
                Some(ext) => {
                    &&& whole + (if refinement(ext).0 {
                        1int
                    } else {
                        0
                    }) == civil
                    &&& refinement(ext).1 == Some(ns as int / 100 * 100)
                },
                None => whole == civil && ns < 100,
            }
        }),
{
    lemma_dos_time_roundtrip(civil);
    if area_for(civil as int, ns as int) is Some {
        lemma_area_roundtrip(civil as int, ns as int);
    }
}

/// The area of a modification time: its nibble is the highest of the word, with
/// the bits for present and odd, and the number of bytes; the ticks follow,
/// lowest byte first.
pub proof fn lemma_area_law(civil: int, ns: int)
    requires
        0 <= civil,
        0 <= ns < 1_000_000_000,
    ensures
        ({
            let ticks = ns / 100;
            let odd = civil % 2 == 1;
            match area_for(civil, ns) {
                None => ticks == 0 && !odd,
                Some(ext) => {
                    &&& ticks > 0 || odd
                    &&& ext[0] == 0
                    &&& ext[1] == 0x80 + (if odd {
                        0x40int
                    } else {
                        0
                    }) + (if ticks > 0 {
                        0x30int
                    } else {
                        0
                    })
                    &&& ext.len() == if ticks > 0 {
                        5int
                    } else {
                        2
                    }
                    &&& ticks > 0 ==> ext[2] + 256 * ext[3] + 65536 * ext[4] == ticks
                },
            }
        }),
{
    let ticks = ns / 100;
    assert(0 <= ticks < 10_000_000);
}

// ── Names ──────────────────────────────────────────────────────────────────

/// In an archive a name has forward slashes for backward ones, and is the same
/// in all else.
pub proof fn lemma_slashes_law(name: Seq<char>, i: int)
    requires
        0 <= i < name.len(),
    ensures
        forward_slashed(name).len() == name.len(),
        name[i] == '\\' ==> forward_slashed(name)[i] == '/',
        name[i] != '\\' ==> forward_slashed(name)[i] == name[i],
{
}

// ── Windows ────────────────────────────────────────────────────────────────

/// A window-bits value stands for 64 KiB doubled as often as it says, up to
/// four MiB.
pub proof fn lemma_window_law(bits: u8)
    requires
        bits <= 6,
    ensures
        window_size(bits) == 0x1_0000 * pow2(bits as nat),
{
    lemma2_to64();
}

/// The window of a member holds it, where one does, and none that is smaller
/// and allowed would.
pub proof fn lemma_window_choice_law(bits: u8, size: u64, least: u8)
    requires
        is_window_for(bits, size, least),
        least <= 6,
    ensures
        least <= bits <= 6,
        size <= 0x40_0000 ==> size <= 0x1_0000 * pow2(bits as nat),
        bits > least ==> size > 0x1_0000 * pow2((bits - 1) as nat),
{
    lemma2_to64();
}

// ── Solid runs ─────────────────────────────────────────────────────────────

/// The first compressed member starts a run, and the next continues it, if the
/// version says so in headers. A stored member continues none.
pub proof fn lemma_run_law(run: SolidRun, a: u8, b: u8, size: u64)
    requires
        a != 0x30,
        size > 0,
    ensures
        run_after(run, a, size).has_member,
        run_after(run, a, size).mode == run.mode,
        run_after(run, a, size).unp_ver == run.unp_ver,
        b != 0x30 ==> (continues_run(run_after(run, a, size), b) <==> run.mode && (run.unp_ver == 20
            || run.unp_ver == 26 || run.unp_ver == 29 || run.unp_ver == 36)),
        !run.has_member ==> !continues_run(run, a),
        !run.mode ==> !continues_run(run, a),
        !continues_run(run, 0x30),
        ends_run(run, 0x30) <==> run.unp_ver == 29 || run.unp_ver == 36,
        !ends_run(run, a),
        ends_run(run, 0x30) ==> !run_after(run, 0x30, size).has_member,
        !ends_run(run, 0x30) ==> run_after(run, 0x30, size) == run,
{
}

/// An empty member that is not stored leaves the run as it is.
pub proof fn lemma_empty_member_law(run: SolidRun, a: u8)
    requires
        a != 0x30,
    ensures
        run_after(run, a, 0) == run,
{
}

// ── Payloads ───────────────────────────────────────────────────────────────

/// What is written is the shorter of the data and what the encoder made of it,
/// the data where they are as long; the method says which.
pub proof fn lemma_payload_choice_law(data: Seq<u8>, packed: Seq<u8>, level: u8)
    requires
        1 <= level <= 5,
    ensures
        ({
            let (payload, method) = packed_member(data, packed, level);
            &&& packed.len() < data.len() ==> payload == packed && method == 0x30 + level
            &&& packed.len() >= data.len() ==> payload == data && method == 0x30
        }),
{
}

/// Padding for a block cipher adds zeros up to the next whole block.
pub proof fn lemma_alignment_law(data: Seq<u8>)
    ensures
        aligned16(data.len() as int) % 16 == 0,
        data.len() <= aligned16(data.len() as int) < data.len() + 16,
        zero_aligned(data).len() == aligned16(data.len() as int),
        zero_aligned(data).take(data.len() as int) == data,
        forall|i: int| data.len() <= i < zero_aligned(data).len() ==> zero_aligned(data)[i] == 0,
{
    assert(zero_aligned(data).take(data.len() as int) =~= data);
}

/// The payload of a streamed member: the encoder's where it is shorter, else
/// the file; with a password it has a cipher, of which all but RAR 1.5's pad it
/// to whole blocks, and RAR 3.x's takes a salt.
pub proof fn lemma_streamed_law(
    p: StreamedPayload,
    src: StreamedSource,
    unp_ver: u8,
    password: bool,
)
    requires
        is_streamed(p, src, unp_ver, password),
        src.level <= 5,
    ensures
        p.from_spill <==> src.level > 0 && src.compressed < src.file_size,
        p.from_spill ==> p.plain_len == src.compressed && p.method == 0x30 + src.level,
        !p.from_spill ==> p.plain_len == src.file_size && p.method == 0x30,
        p.cipher is Some <==> password,
        !password ==> p.packed_size == p.plain_len,
        password && unp_ver == 15 ==> p.packed_size == p.plain_len,
        password && unp_ver != 15 ==> p.packed_size % 16 == 0 && p.plain_len <= p.packed_size
            < p.plain_len + 16,
        password ==> (p.cipher->Some_0.salted <==> unp_ver == 29 || unp_ver == 36),
{
}

/// Files below 64 MiB are buffered, and so are those of an append to a solid
/// chain and of versions without a cipher where there is a password. Others are
/// streamed, with their level where the version's encoder can, else stored.
pub proof fn lemma_stream_level_law(
    file_size: u64,
    solid_append: bool,
    unp_ver: u8,
    password: bool,
    solid: bool,
    level: u8,
    hopeless: bool,
)
    ensures
        ({
            let r = stream_level(file_size, solid_append, unp_ver, password, solid, level, hopeless);
            let known = unp_ver == 15 || unp_ver == 20 || unp_ver == 26 || unp_ver == 29 || unp_ver
                == 36;
            &&& r is None <==> file_size < 0x400_0000 || solid_append || password && !known
            &&& r is Some && (unp_ver == 29 || unp_ver == 36) ==> r == Some(level)
            &&& r is Some && (unp_ver == 20 || unp_ver == 26) ==> r == Some(
                if solid || hopeless {
                    0
                } else {
                    level
                },
            )
            &&& r is Some && unp_ver == 15 ==> r == Some(
                if hopeless {
                    0
                } else {
                    level
                },
            )
            &&& r is Some && !known ==> r == Some(0u8)
        }),
{
}

/// A header on disk is as it is, or a salt of eight bytes and whole blocks that
/// hold it.
pub proof fn lemma_on_disk_law(plain: int)
    requires
        0 <= plain,
    ensures
        on_disk_len(plain, false) == plain,
        (on_disk_len(plain, true) - 8) % 16 == 0,
        plain <= on_disk_len(plain, true) - 8 < plain + 16,
{
}

// ── Catalog entries ────────────────────────────────────────────────────────

/// The catalog entry of a member written says what the member is.
pub proof fn lemma_entry_law(
    h: FileHeader,
    m: Rar4Member,
    f: MemberFields,
    out: Rar4Output,
    packed_size: u64,
    data_offset: u64,
)
    requires
        is_entry(h, m, f, packed_size, data_offset),
        are_fields(f, m, out),
    ensures
        h.name@ == m.name@,
        h.unpacked_size == m.unpacked_size,
        h.packed_size == packed_size,
        h.crc32_val == Some(m.file_crc),
        h.mtime == m.mtime,
        h.mtime_ns == Some(m.mtime_ns),
        m.method >= 0x30 ==> h.comp_method == m.method - 0x30,
        h.attributes == m.attr,
        h.flags & 4 != 0 <==> m.password,
        h.salt == m.salt,
        h.format_version == 4,
        h.host_os == 2,
        h.is_directory <==> m.name@.len() > 0 && m.name@.last() == '/',
        h.data_offset == data_offset,
        m.level > 0 || m.password || out.unp_ver < 29 ==> h.unp_ver == out.unp_ver,
        m.level == 0 && !m.password && out.unp_ver >= 29 ==> h.unp_ver == 20,
{
    assert(4u64 & 4 != 0 && 0u64 & 4 == 0) by (bit_vector);
}

/// The fields of a member written read back: its name, its time, and a window
/// that holds it.
pub proof fn lemma_fields_law(f: MemberFields, m: Rar4Member, out: Rar4Output)
    requires
        are_fields(f, m, out),
        forall|i: int| 0 <= i < m.name@.len() ==> m.name@[i] != '\0',
        m.civil >= 315_532_800,
        m.mtime_ns < 1_000_000_000,
    ensures
        name_of(f.encoded_name@, f.name_flags) == m.name@,
        spec_dos_time_to_unix(f.dos_time as int) == m.civil - m.civil % 2,
        f.ext_time is Some ==> f.unp_ver == 29 || f.unp_ver == 36,
        (f.unp_ver == 29 || f.unp_ver == 36) && (m.civil % 2 == 1 || m.mtime_ns >= 100)
            ==> f.ext_time is Some,
        f.ext_time is Some ==> refinement(f.ext_time->Some_0@) == (
            m.civil % 2 == 1,
            Some(m.mtime_ns as int / 100 * 100),
        ),
        out.dict_bits is Some ==> f.window_bits == out.dict_bits->Some_0,
        out.dict_bits is None && out.solid_mode ==> f.window_bits == 6,
        out.dict_bits is None && m.unpacked_size <= 0x40_0000 ==> m.unpacked_size <= 0x1_0000
            * pow2(f.window_bits as nat),
{
    crate::rar4::names::lemma_name_roundtrip(m.name@);
    lemma_dos_time_roundtrip(m.civil);
    lemma2_to64();
    if f.ext_time is Some {
        lemma_area_roundtrip(m.civil as int, m.mtime_ns as int);
    }
}

/// A directory's header: no data, version 20, stored, all window bits set, its
/// attributes and its time.
pub proof fn lemma_directory_header_law(
    p: FileHeaderParams<'_>,
    name: Seq<char>,
    attr: u32,
    civil: u32,
    mtime_ns: u32,
    unp_ver: u8,
)
    requires
        is_dir_params(p, name, attr, civil, mtime_ns, unp_ver),
        p.head_size() <= 0xffff,
        name_bytes(name).1 == 0 || name_bytes(name).1 == 0x200,
    ensures
        ({
            let h = checked_block(p.body());
            let g = word(h, 3) as u16;
            &&& h[2] == 0x74
            &&& g & 0x8000 != 0
            &&& g & 0xe0 == 0xe0
            &&& g & 0x07 == 0
            &&& dword(h, 7) == 0
            &&& dword(h, 11) == 0
            &&& h[15] == 2
            &&& dword(h, 16) == 0
            &&& dword(h, 20) == spec_unix_to_dos_time(civil as int)
            &&& h[24] == 20
            &&& h[25] == 0x30
            &&& dword(h, 28) == attr
            &&& h.subrange(32, 32int + name_bytes(name).0.len()) == name_bytes(name).0
        }),
{
    lemma_file_header_law(p);
    let f = p.flags;
    assert((f == 0 || f == 0x200 || f == 0x1000 || f == 0x1200) ==> {
        let g = f | (7u16 << 5) | 0x8000;
        &&& g & 0x8000 != 0
        &&& g & 0xe0 == 0xe0
        &&& g & 0x07 == 0
    }) by (bit_vector);
    assert(0x200u16 | 0x1000u16 == 0x1200u16 && 0u16 | 0x1000u16 == 0x1000u16) by (bit_vector);
}

// ── Comments in headers ────────────────────────────────────────────────────

/// A comment nested in the header of an older member: the header's size covers
/// it, its checksum does not, the flag for it is set, and the comment is read
/// back from behind the other fields, which stay where they are.
#[verifier::rlimit(60)]
#[verifier::spinoff_prover]
pub proof fn lemma_nested_comment_law(
    params: Rar4SplitParams<'_>,
    head_crc: u32,
    packed_size: u32,
    split_before: bool,
    split_after: bool,
)
    requires
        params.comment_is_nested(),
        params.ext_time is None,
        params.name_flags == 0 || params.name_flags == 0x200,
        params.window_bits < 8,
        params.header_len() <= 0xffff,
    ensures
        ({
            let h = params.header(head_crc, packed_size, split_before, split_after);
            let n = params.plain_len();
            let c = params.comment->Some_0@;
            let g = word(h, 3) as u16;
            &&& h.len() == n + 13 + c.len()
            &&& h[2] == 0x74
            &&& word(h, 5) == h.len()
            &&& checksum_holds(h, n)
            &&& g & 0x0001 != 0 <==> split_before
            &&& g & 0x0002 != 0 <==> split_after
            &&& g & 0x0004 != 0 <==> params.password
            &&& g & 0x0008 != 0
            &&& g & 0x0400 != 0 <==> params.salt is Some
            &&& dword(h, 7) == packed_size
            &&& dword(h, 16) == head_crc
            &&& h.skip(n) == file_comment_block(c)
            &&& crc_end(h) == n
            &&& file_comment_at(h, n) == Some((guessed_text(c), 13 + c.len() as int))
        }),
{
    let p = params.plain_params(head_crc, packed_size, split_before, split_after);
    let plain = checked_block(p.body());
    let c = params.comment->Some_0@;
    let block = file_comment_block(c);
    let h = params.header(head_crc, packed_size, split_before, split_after);
    let n = params.plain_len();
    crate::rar4::emit::lemma_comment_block_len(c);
    lemma_file_header_law(p);
    assert(plain.len() == n);
    let total = plain.len() + block.len();
    let mid = plain.take(5) + le_bytes(total, 2) + plain.skip(7) + block;
    lemma_le_bytes_len(total, 2);
    assert(mid.len() == total);
    crate::bytes::lemma_byte_ranges();
    crate::bytes::lemma_le_roundtrip(total, 2);
    assert(mid.subrange(5, 7) =~= le_bytes(total, 2));
    assert(mid.subrange(3, 5) =~= plain.subrange(3, 5));
    assert(mid.subrange(26, 28) =~= plain.subrange(26, 28));
    lemma_two_bytes(plain, 3);
    lemma_two_bytes(plain, 26);
    crate::rar4::laws::lemma_segment_bits(
        params.name_flags,
        if split_before { 1 } else { 0 },
        if split_after { 2 } else { 0 },
        if params.password { 4 } else { 0 },
        if params.salt is Some { 0x400 } else { 0 },
        0,
        if params.solid_continuation { 0x10 } else { 0 },
        8,
        params.window_bits as u16,
    );
    assert(crc_end(mid) == n);
    let k = crc16_of(mid.subrange(2, n)) as nat;
    lemma_le_bytes_len(k, 2);
    crate::bytes::lemma_le_roundtrip(k, 2);
    assert(h == le_bytes(k, 2) + mid.skip(2));
    assert(h.len() == total);
    assert(h.subrange(0, 2) =~= le_bytes(k, 2));
    assert(h.subrange(3, 5) =~= plain.subrange(3, 5));
    assert(h.subrange(5, 7) =~= le_bytes(total, 2));
    assert(h.subrange(26, 28) =~= plain.subrange(26, 28));
    lemma_two_bytes(h, 0);
    lemma_two_bytes(h, 3);
    lemma_two_bytes(h, 5);
    lemma_two_bytes(h, 26);
    assert(h.subrange(2, n) =~= mid.subrange(2, n));
    let v = crate::crc32::spec_crc32(mid.subrange(2, n));
    assert((v & 0xffff) == v % 0x1_0000) by (bit_vector);
    assert(forall|i: int| 7 <= i < n ==> h[i] == plain[i]);
    assert(h.skip(n) =~= block);
    let none = Seq::<u8>::empty();
    crate::rar4::comment::lemma_file_comment_roundtrip(c, h.take(n), none);
    assert(h.take(n) + block + none =~= h);
}

// ── Filters and levels of the older codecs ─────────────────────────────────

/// Filters are tried on members that are not empty: x86 first, then delta, then
/// audio. A forced one takes the whole member, whatever was found; one that is
/// off is not tried.
pub proof fn lemma_filter_candidates_law(policy: FilterOptions, scan: FilterScan)
    ensures
        filter_candidates(true, policy, scan).len() == 0,
        policy.x86 == FilterMode::Off && policy.delta == FilterMode::Off && scan.audio_channels
            is None ==> filter_candidates(false, policy, scan).len() == 0,
        policy.x86 == FilterMode::Forced ==> filter_candidates(false, policy, scan)[0] == (
            Rar29FilterKind::E8E9,
            FilterExtent::Whole,
        ),
        policy.x86 == FilterMode::Auto && scan.e8e9 ==> filter_candidates(false, policy, scan)[0]
            == (Rar29FilterKind::E8E9, FilterExtent::Scanned),
        policy.x86 == FilterMode::Auto && scan.e8 ==> filter_candidates(
            false,
            policy,
            scan,
        ).contains((Rar29FilterKind::E8, FilterExtent::Scanned)),
        policy.x86 == FilterMode::Auto && !scan.e8 ==> !filter_candidates(
            false,
            policy,
            scan,
        ).contains((Rar29FilterKind::E8, FilterExtent::Scanned)),
        policy.x86 == FilterMode::Off && policy.delta == FilterMode::Forced ==> filter_candidates(
            false,
            policy,
            scan,
        )[0] == (
            Rar29FilterKind::Delta {
                channels: match policy.delta_channels {
                    Some(c) => c as usize,
                    None => match scan.delta_channels {
                        Some(c) => c as usize,
                        None => 1,
                    },
                },
            },
            FilterExtent::Whole,
        ),
        policy.x86 == FilterMode::Off && policy.delta == FilterMode::Auto && scan.delta_channels
            is Some ==> filter_candidates(false, policy, scan)[0] == (
            Rar29FilterKind::Delta { channels: scan.delta_channels->Some_0 as usize },
            FilterExtent::Whole,
        ),
        scan.audio_channels is Some ==> filter_candidates(false, policy, scan).last() == (
            Rar29FilterKind::Audio { channels: scan.audio_channels->Some_0 },
            FilterExtent::Whole,
        ),
{
    let r = filter_candidates(false, policy, scan);
    let e8 = (Rar29FilterKind::E8, FilterExtent::Scanned);
    if policy.x86 == FilterMode::Auto && scan.e8 {
        let i = if scan.e8e9 {
            1int
        } else {
            0
        };
        assert(r[i] == e8);
    }
}

/// Higher levels of RAR 2.x look at more candidates, from 16 to 1024.
pub proof fn lemma_rar20_levels_law(level: u8)
    requires
        1 <= level <= 5,
    ensures
        ({
            let o = spec_rar20_options(level);
            &&& level == 1 ==> o.candidates == 16
            &&& level == 2 || level == 3 ==> o.candidates == 4 * spec_rar20_options(
                (level - 1) as u8,
            ).candidates
            &&& level >= 4 ==> o.candidates == 2 * spec_rar20_options((level - 1) as u8).candidates
            &&& o.lazy_matching
            &&& o.lazy_lookahead == 2
            &&& o.optimal_parse <==> level >= 4
            &&& o.try_audio <==> level >= 2
        }),
{
}

/// Higher levels of RAR 1.5 reach farther back, the highest without a limit.
pub proof fn lemma_rar15_levels_law(level: u8)
    requires
        1 <= level <= 5,
    ensures
        ({
            let o = spec_rar15_options(level);
            &&& level <= 3 ==> o.max_long_match_distance == Some((2048usize * pow2(
                level as nat,
            )) as usize)
            &&& level == 4 ==> o.max_long_match_distance == Some(0x6000usize)
            &&& level == 5 ==> o.max_long_match_distance is None
            &&& !o.lazy_matching
            &&& o.old_distance_tokens <==> level >= 3
            &&& o.stmode_literal_runs <==> level >= 3
        }),
{
    lemma2_to64();
}

// ── Waves and volumes ──────────────────────────────────────────────────────

/// Bytes of the files from `from` to `to`.
pub open spec fn bytes_between(sizes: Seq<Option<u64>>, from: int, to: int) -> int
    decreases to - from,
{
    if from >= to {
        0
    } else {
        bytes_between(sizes, from, to - 1) + match sizes[to - 1] {
            Some(n) => n as int,
            None => 0,
        }
    }
}

proof fn lemma_wave_from(
    sizes: Seq<Option<u64>>,
    from: int,
    at: int,
    bytes: int,
)
    requires
        0 <= from <= at <= sizes.len(),
        bytes == bytes_between(sizes, from, at),
        at - from > 1 ==> bytes <= 0x1000_0000,
        at - from <= 1 ==> bytes <= 0x400_0000,
        0 <= bytes,
        forall|i: int|
            from <= i < at ==> (#[trigger] sizes[i]) is Some && sizes[i]->Some_0 <= 0x400_0000,
    ensures
        ({
            let to = wave_end(sizes, at, bytes, at > from);
            &&& at <= to <= sizes.len()
            &&& forall|i: int|
                from <= i < to ==> (#[trigger] sizes[i]) is Some && sizes[i]->Some_0 <= 0x400_0000
            &&& bytes_between(sizes, from, to) <= 0x1000_0000
            &&& to < sizes.len() ==> match sizes[to] {
                None => true,
                Some(n) => n > 0x400_0000 || bytes_between(sizes, from, to) + n > 0x1000_0000 && to
                    > from,
            }
        }),
    decreases sizes.len() - at,
{
    if at < sizes.len() {
        if let Some(n) = sizes[at] {
            if !(n > 0x400_0000 || bytes + n > 0x1000_0000 && at > from) {
                assert(bytes_between(sizes, from, at + 1) == bytes + n);
                lemma_wave_from(sizes, from, at + 1, bytes + n);
            }
        }
    }
}

/// A wave takes files of at most 64 MiB each and 256 MiB together, and as many
/// as it can: what follows it is no file, too large, or would not fit.
pub proof fn lemma_wave_law(sizes: Seq<Option<u64>>, from: int)
    requires
        0 <= from <= sizes.len(),
    ensures
        ({
            let to = wave_end(sizes, from, 0, false);
            &&& from <= to <= sizes.len()
            &&& forall|i: int|
                from <= i < to ==> (#[trigger] sizes[i]) is Some && sizes[i]->Some_0 <= 0x400_0000
            &&& bytes_between(sizes, from, to) <= 0x1000_0000
            &&& to < sizes.len() ==> match sizes[to] {
                None => true,
                Some(n) => n > 0x400_0000 || bytes_between(sizes, from, to) + n > 0x1000_0000 && to
                    > from,
            }
        }),
{
    lemma_wave_from(sizes, from, from, 0);
}

/// Without a recovery record a segment that is continued fills its volume to
/// the last byte: header, data and the end block.
pub proof fn lemma_volume_is_filled(
    job: SplitJob,
    reserve: NoRecovery,
    used: int,
    sent: int,
    pieces: Seq<SplitPiece>,
)
    requires
        job.valid(),
        job.is_plan(reserve, used, sent, pieces),
        0 <= sent < job.packed_size,
        0 <= used,
        pieces[0].split_after,
    ensures
        ({
            let behind = if pieces[0].new_volume {
                job.fresh as int
            } else {
                used
            };
            behind + job.rules.segment_reserve + pieces[0].len + job.rules.eoa
                == job.rules.volume_size
        }),
{
    let behind = job.behind(used, pieces[0]);
    let r = pieces[0].len as int;
    let room = job.rules.room(behind);
    assert(job.rules.is_budget(reserve, behind, r));
    if r < room {
        assert(job.rules.fits(reserve, behind, r + 1));
    }
}

/// A new volume is started where the current one has no room for a byte.
pub proof fn lemma_new_volume_is_needed(
    job: SplitJob,
    reserve: NoRecovery,
    used: int,
    sent: int,
    pieces: Seq<SplitPiece>,
)
    requires
        job.valid(),
        job.is_plan(reserve, used, sent, pieces),
        0 <= sent < job.packed_size,
        0 <= used,
        pieces[0].new_volume,
    ensures
        used + job.rules.segment_reserve + 1 + job.rules.eoa > job.rules.volume_size,
{
    assert(job.rules.is_budget(reserve, used, 0));
    if 0 < job.rules.room(used) {
        assert(job.rules.fits(reserve, used, 1));
    }
}

} // verus!
