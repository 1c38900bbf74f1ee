//! Writing members: versions and window sizes, solid runs, the route of a
//! file, the segments of a member and its catalog entry.

use crate::crc32::{crc32, spec_crc32};
use crate::engine::entry::ArchiveEntry;
use crate::engine::{
    PARALLEL_COMPRESS_MAX_MEMBER, PARALLEL_COMPRESS_WAVE_BUDGET, STREAM_COMPRESS_THRESHOLD,
};
use crate::error::{is_format, is_invalid_option, RarError, RarResult};
use crate::model::{DataChunk, FileHeader};
use crate::rar4::comment::file_comment_block;
use crate::rar4::emit::{
    build_rar4_segment, emit_rar4_split, fits_behind, lemma_plan_covers, rar4_segment_header_reserve,
    Rar4Segment, Rar4SplitParams, SplitJob, SplitPiece, VolumeReserve, VolumeRules,
};
use crate::rar4::ext_time::{area_for, build_member_ext_time};
use crate::rar4::headers::{endarc_volume_reserve, on_disk_len};
use crate::rar4::names::{encode_file_name, name_bytes};
use crate::rar4::RAR4_METHOD_STORE;
use crate::shared::legacy_time::{spec_unix_to_dos_time, unix_to_dos_time};
use crate::text::{decimal, with_number};
use crate::version::{spec_codec, LegacyCodec};
use vstd::prelude::*;
use vstd::slice::{slice_subrange, slice_to_vec};
use vstd::string::*;

verus! {

/// The version of a member: at level 0 a plain member of a RAR 3.x archive is
/// a RAR 2.x one; an encrypted one keeps the version whose cipher it uses.
pub open spec fn spec_member_unp_ver(archive: u8, level: u8, encrypted: bool) -> u8 {
    if level == 0 && !encrypted && archive >= 29 {
        20
    } else {
        archive
    }
}

/// The version of a member.
pub fn member_unp_ver(archive_unp_ver: u8, requested_level: u8, encrypted: bool) -> (r: u8)
    ensures
        r == spec_member_unp_ver(archive_unp_ver, requested_level, encrypted),
{
    if requested_level == 0 && !encrypted && archive_unp_ver >= 29 {
        20
    } else {
        archive_unp_ver
    }
}

/// The window size of a window-bits value.
pub open spec fn window_size(bits: u8) -> int {
    if bits == 0 {
        0x1_0000
    } else if bits == 1 {
        0x2_0000
    } else if bits == 2 {
        0x4_0000
    } else if bits == 3 {
        0x8_0000
    } else if bits == 4 {
        0x10_0000
    } else if bits == 5 {
        0x20_0000
    } else {
        0x40_0000
    }
}

/// `bits` is the least value, from `least` on, whose window holds `size`
/// bytes, and 6 where none does.
pub open spec fn is_window_for(bits: u8, size: u64, least: u8) -> bool {
    &&& least <= bits <= 6
    &&& bits < 6 ==> size <= window_size(bits)
    &&& bits > least ==> size > window_size((bits - 1) as u8)
}

/// The window-bits value that an archive declares for its largest member, or
/// a solid run's whole size: at least 128 KiB, and 1 MiB if solid.
pub fn dict_bits(size: u64, solid: bool) -> (r: u8)
    ensures
        is_window_for(
            r,
            size,
            if solid {
                4
            } else {
                1
            },
        ),
{
    let least: u8 = if solid {
        4
    } else {
        1
    };
    let mut bits: u8 = least;
    let mut window: u64 = if solid {
        0x10_0000
    } else {
        0x2_0000
    };
    while bits < 6 && size > window
        invariant
            least == 1 || least == 4,
            least <= bits <= 6,
            window == window_size(bits),
            bits > least ==> size > window_size((bits - 1) as u8),
        decreases 6 - bits,
    {
        bits += 1;
        window = window * 2;
    }
    bits
}

/// The window-bits value that an archive declares, by member version: RAR 2.x
/// and older always declare 1 MiB.
pub fn archive_dict_bits(unp_ver: u8, size: u64, solid: bool) -> (r: u8)
    ensures
        unp_ver < 29 ==> r == 4,
        unp_ver >= 29 ==> is_window_for(
            r,
            size,
            if solid {
                4
            } else {
                1
            },
        ),
{
    if unp_ver < 29 {
        4
    } else {
        dict_bits(size, solid)
    }
}

/// The flag bits of a dictionary size.
pub fn dictionary_flags(size: usize) -> (r: RarResult<u16>)
    ensures
        match r {
            Ok(flags) => flags % 32 == 0 && flags / 32 <= 6 && size == window_size(
                (flags / 32) as u8,
            ),
            Err(e) => (forall|bits: u8| bits <= 6 ==> size != #[trigger] window_size(bits))
                && is_format(
                e,
                "unsupported RAR4 dictionary size: "@ + decimal(size as nat) + " bytes"@,
            ),
        },
{
    if size == 0x1_0000 {
        Ok(0)
    } else if size == 0x2_0000 {
        Ok(32)
    } else if size == 0x4_0000 {
        Ok(64)
    } else if size == 0x8_0000 {
        Ok(96)
    } else if size == 0x10_0000 {
        Ok(128)
    } else if size == 0x20_0000 {
        Ok(160)
    } else if size == 0x40_0000 {
        Ok(192)
    } else {
        Err(
            RarError::Format(
                with_number("unsupported RAR4 dictionary size: ", size as u64, " bytes"),
            ),
        )
    }
}

/// Where a writer's solid run stands.
#[derive(Clone, Copy, PartialEq, Eq, Structural, Debug)]
pub struct SolidRun {
    /// The archive is solid.
    pub mode: bool,
    /// The archive's member version.
    pub unp_ver: u8,
    /// The run has a member already.
    pub has_member: bool,
}

/// Whether a member continues the run: it is compressed, the run has a member
/// already, and its version flags continuations (RAR 1.5 never does).
pub open spec fn continues_run(run: SolidRun, method: u8) -> bool {
    &&& run.mode
    &&& method != RAR4_METHOD_STORE
    &&& run.has_member
    &&& spec_codec(run.unp_ver) == Some(LegacyCodec::Rar20) || spec_codec(run.unp_ver) == Some(
        LegacyCodec::Rar29,
    )
}

/// A stored member ends a RAR 3.x run, whose encoder is dropped; older readers
/// keep their window across stored members.
pub open spec fn ends_run(run: SolidRun, method: u8) -> bool {
    method == RAR4_METHOD_STORE && spec_codec(run.unp_ver) == Some(LegacyCodec::Rar29)
}

/// The run after a member.
pub open spec fn run_after(run: SolidRun, method: u8, unpacked_size: u64) -> SolidRun {
    if ends_run(run, method) {
        SolidRun { has_member: false, ..run }
    } else if method != RAR4_METHOD_STORE && unpacked_size != 0 {
        SolidRun { has_member: true, ..run }
    } else {
        run
    }
}

/// What a member does to a solid run.
#[derive(Clone, Copy, PartialEq, Eq, Structural, Debug)]
pub struct RunStep {
    /// The member continues the run.
    pub continuation: bool,
    /// The run's encoder is dropped.
    pub drop_encoder: bool,
    /// The run after the member.
    pub run: SolidRun,
}

/// Track a member of a solid run.
pub fn track_rar4_solid_member(run: SolidRun, method: u8, unpacked_size: u64) -> (r: RunStep)
    ensures
        r.continuation == continues_run(run, method),
        r.drop_encoder == ends_run(run, method),
        r.run == run_after(run, method, unpacked_size),
{
    let codec = LegacyCodec::from_unp_ver(run.unp_ver);
    let newest = match codec {
        Some(LegacyCodec::Rar29) => true,
        _ => false,
    };
    let flags = match codec {
        Some(LegacyCodec::Rar20) => true,
        Some(LegacyCodec::Rar29) => true,
        _ => false,
    };
    let stored = method == RAR4_METHOD_STORE;
    let continuation = run.mode && !stored && run.has_member && flags;
    let mut after = run;
    if stored {
        if newest {
            after.has_member = false;
        }
    } else if unpacked_size != 0 {
        after.has_member = true;
    }
    RunStep { continuation, drop_encoder: stored && newest, run: after }
}

/// A stored member ends a run of the newest version: what follows it is no
/// continuation until another member is compressed.
pub proof fn lemma_stored_breaks_run(run: SolidRun, size: u64, method: u8)
    requires
        spec_codec(run.unp_ver) == Some(LegacyCodec::Rar29),
    ensures
        !continues_run(run_after(run, RAR4_METHOD_STORE, size), method),
{
}

/// A stored member of an older version leaves the run as it is.
pub proof fn lemma_stored_keeps_old_run(run: SolidRun, size: u64)
    requires
        spec_codec(run.unp_ver) != Some(LegacyCodec::Rar29),
    ensures
        run_after(run, RAR4_METHOD_STORE, size) == run,
{
}

/// The level that a large file is streamed with; none for a file that is
/// buffered. A version without a streaming encoder streams stored, and so
/// does a file whose sample will not compress.
pub open spec fn stream_level(
    file_size: u64,
    solid_append: bool,
    unp_ver: u8,
    password: bool,
    solid: bool,
    level: u8,
    sample_incompressible: bool,
) -> Option<u8> {
    let codec = spec_codec(unp_ver);
    if file_size < STREAM_COMPRESS_THRESHOLD || solid_append || (password && codec is None) {
        None
    } else {
        let compressible = match codec {
            Some(LegacyCodec::Rar29) => true,
            Some(LegacyCodec::Rar20) => !solid && !sample_incompressible,
            Some(LegacyCodec::Rar15) => !sample_incompressible,
            None => false,
        };
        Some(
            if compressible {
                level
            } else {
                0
            },
        )
    }
}

/// The level that a large file is streamed with; none for a file that is
/// buffered.
pub fn rar4_stream_level(
    file_size: u64,
    solid_append: bool,
    unp_ver: u8,
    password: bool,
    solid: bool,
    level: u8,
    sample_incompressible: bool,
) -> (r: Option<u8>)
    ensures
        r == stream_level(
            file_size,
            solid_append,
            unp_ver,
            password,
            solid,
            level,
            sample_incompressible,
        ),
{
    let codec = LegacyCodec::from_unp_ver(unp_ver);
    if file_size < STREAM_COMPRESS_THRESHOLD || solid_append || (password && codec.is_none()) {
        return None;
    }
    let compressible = match codec {
        Some(LegacyCodec::Rar29) => true,
        Some(LegacyCodec::Rar20) => !solid && !sample_incompressible,
        Some(LegacyCodec::Rar15) => !sample_incompressible,
        None => false,
    };
    if compressible {
        Some(level)
    } else {
        Some(0)
    }
}

/// The payload length and method of a streamed member: what the encoder wrote
/// if it is shorter than the file, else the file stored.
pub fn streamed_payload(file_size: u64, compressed: u64, level: u8) -> (r: (u64, u8))
    requires
        level <= 5,
    ensures
        level > 0 && compressed < file_size ==> r == (compressed, (0x30 + level) as u8),
        level == 0 || compressed >= file_size ==> r == (file_size, RAR4_METHOD_STORE),
{
    if level > 0 && compressed < file_size {
        (compressed, RAR4_METHOD_STORE + level)
    } else {
        (file_size, RAR4_METHOD_STORE)
    }
}

/// The members of one parallel wave, from `at` on: files no larger than a
/// wave's member, as many as its budget holds, and the first in any case.
pub open spec fn wave_end(sizes: Seq<Option<u64>>, at: int, bytes: int, any: bool) -> int
    decreases sizes.len() - at,
{
    if at >= sizes.len() {
        at
    } else {
        match sizes[at] {
            Some(n) => if n > PARALLEL_COMPRESS_MAX_MEMBER || (bytes + n
                > PARALLEL_COMPRESS_WAVE_BUDGET && any) {
                at
            } else {
                wave_end(sizes, at + 1, bytes + n, true)
            },
            None => at,
        }
    }
}

/// The end of the parallel wave that starts at `from`; `sizes` are those of
/// files, and nothing for other entries.
pub fn next_wave(sizes: &[Option<u64>], from: usize) -> (r: usize)
    requires
        from <= sizes@.len(),
    ensures
        r == wave_end(sizes@, from as int, 0, false),
        from <= r <= sizes@.len(),
{
    let mut at = from;
    let mut bytes: u64 = 0;
    while at < sizes.len()
        invariant
            from <= at <= sizes@.len(),
            bytes <= PARALLEL_COMPRESS_WAVE_BUDGET + PARALLEL_COMPRESS_MAX_MEMBER,
            at == from ==> bytes == 0,
            wave_end(sizes@, from as int, 0, false) == wave_end(
                sizes@,
                at as int,
                bytes as int,
                at > from,
            ),
        decreases sizes@.len() - at,
    {
        match sizes[at] {
            Some(n) => {
                if n > PARALLEL_COMPRESS_MAX_MEMBER || (bytes + n > PARALLEL_COMPRESS_WAVE_BUDGET
                    && at > from) {
                    return at;
                }
                bytes = bytes + n;
            },
            None => {
                return at;
            },
        }
        at += 1;
    }
    at
}

/// A member of a wave that is not empty fits the budget with those before it.
pub proof fn lemma_wave_within_budget(sizes: Seq<Option<u64>>, at: int, bytes: int, any: bool)
    requires
        0 <= at <= sizes.len(),
        0 <= bytes,
        any ==> bytes <= PARALLEL_COMPRESS_WAVE_BUDGET,
        !any ==> bytes == 0,
    ensures
        at <= wave_end(sizes, at, bytes, any) <= sizes.len(),
        forall|i: int|
            at <= i < wave_end(sizes, at, bytes, any) ==> (#[trigger] sizes[i]) is Some
                && sizes[i]->Some_0 <= PARALLEL_COMPRESS_MAX_MEMBER,
    decreases sizes.len() - at,
{
    if at < sizes.len() {
        if let Some(n) = sizes[at] {
            if n <= PARALLEL_COMPRESS_MAX_MEMBER && !(bytes + n > PARALLEL_COMPRESS_WAVE_BUDGET
                && any) {
                lemma_wave_within_budget(sizes, at + 1, bytes + n, true);
            }
        }
    }
}

/// A member that is ready to be written.
pub struct Rar4Member {
    pub name: String,
    pub unpacked_size: u64,
    pub file_crc: u32,
    /// Modification time since the epoch.
    pub mtime: u32,
    /// The same on the local clock, in civil seconds.
    pub civil: u32,
    pub mtime_ns: u32,
    pub method: u8,
    /// The level asked for.
    pub level: u8,
    pub password: bool,
    pub salt: Option<[u8; 8]>,
    pub comment: Option<Vec<u8>>,
    pub attr: u32,
    pub solid_continuation: bool,
}

/// Where a writer stands.
#[derive(Clone, Copy)]
pub struct Rar4Output {
    /// The archive's member version.
    pub unp_ver: u8,
    pub solid_mode: bool,
    /// The window bits that the archive declares, where they are known.
    pub dict_bits: Option<u8>,
    pub header_encryption: bool,
    /// Most bytes of a volume, in a set.
    pub volume_size: Option<u64>,
    /// Number of the current volume, from zero.
    pub volume_index: usize,
    /// Position in the current volume.
    pub position: u64,
    /// Bytes of the current volume.
    pub used: u64,
    /// Position, and bytes, of a volume just started.
    pub fresh: u64,
}

/// What the segments of a member have in common, made from the member.
pub struct MemberFields {
    pub encoded_name: Vec<u8>,
    pub name_flags: u16,
    pub dos_time: u32,
    pub ext_time: Option<Vec<u8>>,
    pub unp_ver: u8,
    pub window_bits: u8,
}

/// The window bits of a member: the archive's, where they are known; else the
/// largest in a solid archive, and what the member needs in another.
pub open spec fn is_member_window(bits: u8, out: Rar4Output, unpacked_size: u64) -> bool {
    match out.dict_bits {
        Some(b) => bits == b,
        None => if out.solid_mode {
            bits == 6
        } else {
            is_window_for(bits, unpacked_size, 1)
        },
    }
}

/// The fields are those of the member.
pub open spec fn are_fields(f: MemberFields, m: Rar4Member, out: Rar4Output) -> bool {
    &&& (f.encoded_name@, f.name_flags) == name_bytes(m.name@)
    &&& f.dos_time == spec_unix_to_dos_time(m.civil as int)
    &&& f.unp_ver == spec_member_unp_ver(out.unp_ver, m.level, m.password)
    &&& match (
        f.ext_time,
        if spec_codec(f.unp_ver) == Some(LegacyCodec::Rar29) {
            area_for(m.civil as int, m.mtime_ns as int)
        } else {
            None
        },
    ) {
        (Some(a), Some(b)) => a@ == b,
        (None, None) => true,
        _ => false,
    }
    &&& is_member_window(f.window_bits, out, m.unpacked_size)
}

/// Make what a member's segments have in common.
pub fn member_fields(m: &Rar4Member, out: &Rar4Output) -> (r: MemberFields)
    ensures
        are_fields(r, *m, *out),
        r.ext_time matches Some(e) ==> e@.len() <= 5,
{
    let (encoded_name, name_flags) = encode_file_name(m.name.as_str());
    let unp_ver = member_unp_ver(out.unp_ver, m.level, m.password);
    let ext_time = build_member_ext_time(unp_ver, m.civil, Some(m.mtime_ns));
    let dos_time = unix_to_dos_time(m.civil);
    let window_bits = match out.dict_bits {
        Some(b) => b,
        None => if out.solid_mode {
            6
        } else {
            dict_bits(m.unpacked_size, false)
        },
    };
    MemberFields { encoded_name, name_flags, dos_time, ext_time, unp_ver, window_bits }
}

/// One segment as it is written: start a volume if asked to, then the header,
/// the data from `offset` on, and the trailer.
pub struct EmittedSegment {
    pub piece: SplitPiece,
    pub header: Vec<u8>,
    pub trailer: Option<Vec<u8>>,
}

/// What writing a member comes to.
pub struct MemberEmission {
    pub segments: Vec<EmittedSegment>,
    pub entry: ArchiveEntry,
}

/// The checksum in a segment's header: that of its own data, and of the whole
/// member in the last.
pub open spec fn segment_crc(m: Rar4Member, own: u32, p: SplitPiece) -> u32 {
    if p.split_after {
        own
    } else {
        m.file_crc
    }
}

/// The checksums of the segments' own data.
pub open spec fn piece_crcs(packed: Seq<u8>, pieces: Seq<SplitPiece>) -> Seq<u32> {
    Seq::new(
        pieces.len(),
        |i: int|
            spec_crc32(
                packed.subrange(pieces[i].offset as int, pieces[i].offset + pieces[i].len),
            ),
    )
}

/// The pieces of segments.
pub open spec fn pieces_of(segments: Seq<EmittedSegment>) -> Seq<SplitPiece> {
    Seq::new(segments.len(), |i: int| segments[i].piece)
}

/// The segment parameters of a member.
pub open spec fn are_params(
    params: Rar4SplitParams<'_>,
    f: MemberFields,
    m: Rar4Member,
) -> bool {
    &&& params.encoded_name@ == f.encoded_name@
    &&& params.name_flags == f.name_flags
    &&& params.file_crc == m.file_crc
    &&& params.dos_time == f.dos_time
    &&& params.method == m.method
    &&& params.unpacked_size == m.unpacked_size
    &&& params.password == m.password
    &&& params.salt == m.salt
    &&& match (params.ext_time, f.ext_time) {
        (Some(a), Some(b)) => a@ == b@,
        (None, None) => true,
        _ => false,
    }
    &&& params.solid_continuation == m.solid_continuation
    &&& params.attr == m.attr
    &&& match (params.comment, m.comment) {
        (Some(a), Some(b)) => a@ == b@,
        (None, None) => true,
        _ => false,
    }
    &&& params.unp_ver == f.unp_ver
    &&& params.window_bits == f.window_bits
}

/// A segment is the one of a piece.
pub open spec fn is_segment(
    s: EmittedSegment,
    params: Rar4SplitParams<'_>,
    m: Rar4Member,
    own_crc: u32,
) -> bool {
    let p = s.piece;
    &&& s.header@ == params.header(
        segment_crc(m, own_crc, p),
        p.len as u32,
        p.split_before,
        p.split_after,
    )
    &&& match s.trailer {
        Some(t) => params.comment_stands_alone() && !p.split_after && t@ == file_comment_block(
            params.comment->Some_0@,
        ),
        None => !params.comment_stands_alone() || p.split_after,
    }
}

/// The volumes started by the first `n` segments.
pub open spec fn volumes_started(segments: Seq<EmittedSegment>, n: int) -> int
    decreases n,
{
    if n <= 0 {
        0
    } else {
        volumes_started(segments, n - 1) + if segments[n - 1].piece.new_volume {
            1int
        } else {
            0int
        }
    }
}

/// Where segment `n`'s volume stands before it.
pub open spec fn position_before(
    segments: Seq<EmittedSegment>,
    out: Rar4Output,
    head_len: int,
    n: int,
) -> int
    decreases n,
{
    if segments[n].piece.new_volume {
        out.fresh as int
    } else if n <= 0 {
        out.position as int
    } else {
        position_before(segments, out, head_len, n - 1) + head_len + segments[n - 1].piece.len
    }
}

/// The chunk of a segment.
pub open spec fn is_chunk(
    c: DataChunk,
    segments: Seq<EmittedSegment>,
    m: Rar4Member,
    own_crc: u32,
    out: Rar4Output,
    head_len: int,
    n: int,
) -> bool {
    let p = segments[n].piece;
    &&& c.volume_index == out.volume_index + volumes_started(segments, n + 1)
    &&& c.data_offset == position_before(segments, out, head_len, n) + head_len
    &&& c.packed_size == p.len
    &&& c.crc32_val == Some(segment_crc(m, own_crc, p))
    &&& c.is_final == !p.split_after
    &&& c.extra_data@.len() == 0
}

/// The catalog entry of a member.
pub open spec fn is_entry(
    h: FileHeader,
    m: Rar4Member,
    f: MemberFields,
    packed_size: u64,
    data_offset: u64,
) -> bool {
    &&& h.name@ == m.name@
    &&& h.unpacked_size == m.unpacked_size && h.packed_size == packed_size
    &&& h.crc32_val == Some(m.file_crc)
    &&& h.mtime == m.mtime && h.mtime_ns == Some(m.mtime_ns)
    &&& h.comp_method == (m.method - 0x30) % 256
    &&& h.host_os == 2 && h.format_version == 4 && h.unp_ver == f.unp_ver
    &&& h.data_offset == data_offset
    &&& h.is_directory == ends_in_slash(m.name@)
    &&& h.attributes == m.attr
    &&& h.flags == if m.password {
        4u64
    } else {
        0u64
    }
    &&& h.salt == m.salt
    &&& h.extra_data@ == match f.ext_time {
        Some(e) => e@,
        None => Seq::empty(),
    }
    &&& match (h.comment, m.comment) {
        (Some(a), Some(b)) => a@ == b@,
        (None, None) => true,
        _ => false,
    }
    &&& h.hash_type == 0 && h.hash_value is None && h.comp_version == 0 && !h.comp_solid
    &&& h.comp_dict_size == 0 && h.file_flags == 0 && h.dict_size_bytes is None
    &&& h.ctime is None && h.atime is None && h.owner is None && h.group is None
    &&& h.version is None && h.legacy_head_crc is None
}

/// A name of a directory.
pub open spec fn ends_in_slash(name: Seq<char>) -> bool {
    name.len() > 0 && name.last() == '/'
}

pub(crate) fn is_directory_name(name: &str) -> (r: bool)
    ensures
        r == ends_in_slash(name@),
{
    let n = name.unicode_len();
    n > 0 && name.get_char(n - 1) == '/'
}

fn catalog_header(
    m: &Rar4Member,
    f: &MemberFields,
    packed_size: u64,
    data_offset: u64,
) -> (h: FileHeader)
    ensures
        is_entry(h, *m, *f, packed_size, data_offset),
{
    let mut h: FileHeader = Default::default();
    h.name = m.name.clone();
    h.unpacked_size = m.unpacked_size;
    h.packed_size = packed_size;
    h.crc32_val = Some(m.file_crc);
    h.mtime = m.mtime;
    h.mtime_ns = Some(m.mtime_ns);
    h.comp_method = m.method.wrapping_sub(0x30);
    h.host_os = 2;
    h.format_version = 4;
    h.unp_ver = f.unp_ver;
    h.data_offset = data_offset;
    h.is_directory = is_directory_name(m.name.as_str());
    h.attributes = m.attr as u64;
    h.flags = if m.password {
        4
    } else {
        0
    };
    h.salt = m.salt;
    if let Some(e) = &f.ext_time {
        h.extra_data = slice_to_vec(e.as_slice());
    }
    if let Some(c) = &m.comment {
        h.comment = Some(slice_to_vec(c.as_slice()));
    }
    proof {
        assert(h.extra_data@ =~= match f.ext_time {
            Some(e) => e@,
            None => Seq::empty(),
        });
    }
    h
}

/// The pieces of a member: one in an archive of one volume, else what the
/// volumes take.
pub open spec fn are_pieces<R: VolumeReserve>(
    pieces: Seq<SplitPiece>,
    reserve: R,
    out: Rar4Output,
    params: Rar4SplitParams<'_>,
    packed_size: u64,
) -> bool {
    match out.volume_size {
        None => pieces == seq![
            SplitPiece {
                new_volume: false,
                offset: 0,
                len: packed_size,
                split_before: false,
                split_after: false,
            },
        ],
        Some(size) => split_job(out, params, size, packed_size).is_plan(
            reserve,
            out.used as int,
            0,
            pieces,
        ),
    }
}

/// The split of a member.
pub open spec fn split_job(
    out: Rar4Output,
    params: Rar4SplitParams<'_>,
    volume_size: u64,
    packed_size: u64,
) -> SplitJob {
    SplitJob {
        rules: VolumeRules {
            volume_size,
            segment_reserve: on_disk_len(params.plain_len(), out.header_encryption) as u64,
            eoa: on_disk_len(20, out.header_encryption) as u64,
        },
        head_len: on_disk_len(params.header_len(), out.header_encryption) as u64,
        packed_size,
        used: out.used,
        fresh: out.fresh,
    }
}

/// Numbers and lengths whose sums fit.
pub open spec fn writable(m: Rar4Member, packed_size: int, out: Rar4Output) -> bool {
    &&& m.unpacked_size <= u32::MAX
    &&& packed_size <= u32::MAX
    &&& name_bytes(m.name@).0.len() <= 0xfff_ffff
    &&& m.comment matches Some(c) ==> c@.len() <= 0xfff_ffff
    &&& fits_behind(out.position as int)
    &&& fits_behind(out.used as int)
    &&& fits_behind(out.fresh as int)
}

/// `e` is the emission of a member whose segments' own data have the checksums
/// `crcs`, with parameters made from it.
pub open spec fn is_emission<R: VolumeReserve>(
    e: MemberEmission,
    reserve: R,
    m: Rar4Member,
    packed_size: u64,
    crcs: Seq<u32>,
    out: Rar4Output,
    f: MemberFields,
    params: Rar4SplitParams<'_>,
) -> bool {
    let segments = e.segments@;
    let head_len = on_disk_len(params.header_len(), out.header_encryption);
    &&& are_fields(f, m, out)
    &&& are_params(params, f, m)
    &&& are_pieces(pieces_of(segments), reserve, out, params, packed_size)
    &&& crcs.len() == segments.len()
    &&& forall|i: int|
        0 <= i < segments.len() ==> is_segment(#[trigger] segments[i], params, m, crcs[i])
    &&& e.entry.chunks@.len() == segments.len()
    &&& forall|i: int|
        0 <= i < segments.len() ==> is_chunk(
            #[trigger] e.entry.chunks@[i],
            segments,
            m,
            crcs[i],
            out,
            head_len,
            i,
        )
    &&& is_entry(
        e.entry.header,
        m,
        f,
        packed_size,
        if out.volume_size is None {
            e.entry.chunks@[0].data_offset
        } else {
            0
        },
    )
}

fn single_piece(packed_size: u64) -> (r: Vec<SplitPiece>)
    ensures
        r@ == seq![
            SplitPiece {
                new_volume: false,
                offset: 0,
                len: packed_size,
                split_before: false,
                split_after: false,
            },
        ],
{
    let mut v: Vec<SplitPiece> = Vec::new();
    v.push(
        SplitPiece {
            new_volume: false,
            offset: 0,
            len: packed_size,
            split_before: false,
            split_after: false,
        },
    );
    assert(v@ =~= seq![
        SplitPiece {
            new_volume: false,
            offset: 0,
            len: packed_size,
            split_before: false,
            split_after: false,
        },
    ]);
    v
}

/// The pieces are in order.
pub open spec fn pieces_ordered(pieces: Seq<SplitPiece>) -> bool {
    forall|i: int|
        0 <= i < pieces.len() - 1 ==> (#[trigger] pieces[i]).offset + pieces[i].len <= pieces[i
            + 1].offset
}

/// Every piece lies inside the data.
pub open spec fn pieces_inside(pieces: Seq<SplitPiece>, total: int) -> bool {
    forall|i: int| 0 <= i < pieces.len() ==> (#[trigger] pieces[i]).offset + pieces[i].len <= total
}

proof fn lemma_pieces_inside<R: VolumeReserve>(
    job: SplitJob,
    reserve: R,
    used: int,
    sent: int,
    pieces: Seq<SplitPiece>,
)
    requires
        0 <= sent <= job.packed_size,
        job.is_plan(reserve, used, sent, pieces),
    ensures
        pieces_inside(pieces, job.packed_size as int),
        pieces.len() <= job.packed_size - sent,
    decreases pieces.len(),
{
    if pieces.len() > 0 {
        let p = pieces[0];
        let rest = pieces.drop_first();
        lemma_pieces_inside(
            job,
            reserve,
            job.behind(used, p) + job.head_len + p.len,
            sent + p.len,
            rest,
        );
        assert forall|i: int| 0 <= i < pieces.len() implies (#[trigger] pieces[i]).offset
            + pieces[i].len <= job.packed_size by {
            if i > 0 {
                assert(rest[i - 1] == pieces[i]);
            }
        }
    }
}

/// The pieces of a member.
fn member_pieces<R: VolumeReserve>(
    reserve: &R,
    out: &Rar4Output,
    params: &Rar4SplitParams<'_>,
    packed_size: u64,
    header_len: u64,
) -> (r: RarResult<Vec<SplitPiece>>)
    requires
        params.fits_memory(),
        header_len == on_disk_len(params.header_len(), out.header_encryption),
        packed_size <= u32::MAX,
        fits_behind(out.used as int),
        fits_behind(out.fresh as int),
    ensures
        match r {
            Ok(pieces) => are_pieces(pieces@, *reserve, *out, *params, packed_size)
                && pieces_inside(pieces@, packed_size as int) && pieces_ordered(pieces@)
                && pieces@.len() <= packed_size + 1,
            Err(e) => {
                &&& out.volume_size is Some
                &&& split_job(*out, *params, out.volume_size->Some_0, packed_size).is_stuck(
                    *reserve,
                )
                &&& is_invalid_option(
                    e,
                    "volume size "@ + decimal(out.volume_size->Some_0 as nat)
                        + " is too small for a RAR4 member header"@,
                )
            },
        },
{
    match out.volume_size {
        None => {
            let pieces = single_piece(packed_size);
            Ok(pieces)
        },
        Some(volume_size) => {
            let ext_len: usize = match params.ext_time {
                Some(e) => e.len(),
                None => 0,
            };
            let segment_reserve = rar4_segment_header_reserve(
                params.encoded_name.len(),
                params.salt.is_some(),
                ext_len,
                out.header_encryption,
            );
            let eoa = endarc_volume_reserve(out.header_encryption);
            let job = SplitJob {
                rules: VolumeRules { volume_size, segment_reserve, eoa },
                head_len: header_len,
                packed_size,
                used: out.used,
                fresh: out.fresh,
            };
            assert(job == split_job(*out, *params, volume_size, packed_size));
            match emit_rar4_split(reserve, job) {
                Ok(pieces) => {
                    proof {
                        lemma_pieces_inside(job, *reserve, out.used as int, 0, pieces@);
                        lemma_plan_covers(job, *reserve, out.used as int, 0, pieces@);
                    }
                    Ok(pieces)
                },
                Err(e) => Err(e),
            }
        },
    }
}

fn split_params<'a>(m: &'a Rar4Member, fields: &'a MemberFields) -> (r: Rar4SplitParams<'a>)
    requires
        m.unpacked_size <= u32::MAX,
    ensures
        are_params(r, *fields, *m),
{
    Rar4SplitParams {
        encoded_name: fields.encoded_name.as_slice(),
        name_flags: fields.name_flags,
        file_crc: m.file_crc,
        dos_time: fields.dos_time,
        method: m.method,
        unpacked_size: m.unpacked_size as u32,
        password: m.password,
        salt: m.salt,
        ext_time: match &fields.ext_time {
            Some(e) => Some(e.as_slice()),
            None => None,
        },
        solid_continuation: m.solid_continuation,
        attr: m.attr,
        comment: match &m.comment {
            Some(c) => Some(c.as_slice()),
            None => None,
        },
        unp_ver: fields.unp_ver,
        window_bits: fields.window_bits,
    }
}

/// Bytes that a segment's header takes on disk.
fn header_on_disk(params: &Rar4SplitParams<'_>, header_encryption: bool) -> (r: u64)
    requires
        params.fits_memory(),
    ensures
        r == on_disk_len(params.header_len(), header_encryption),
        r <= 0x4000_0100,
{
    let plain = match build_rar4_segment(params, 0, 0, false, false) {
        Ok(s) => s.header.len() as u64,
        Err(_) => 0,
    };
    if header_encryption {
        8 + (plain + 15) / 16 * 16
    } else {
        plain
    }
}

/// How a member is laid out: what its segments have in common, and its pieces.
pub struct MemberLayout {
    pub fields: MemberFields,
    pub pieces: Vec<SplitPiece>,
}

impl MemberLayout {
    /// The layout is that of the member, with `packed_size` bytes on disk.
    pub open spec fn is_for<R: VolumeReserve>(
        self,
        reserve: R,
        m: Rar4Member,
        packed_size: u64,
        out: Rar4Output,
    ) -> bool {
        &&& are_fields(self.fields, m, out)
        &&& self.fields.ext_time matches Some(e) ==> e@.len() <= 5
        &&& pieces_inside(self.pieces@, packed_size as int)
        &&& pieces_ordered(self.pieces@)
        &&& self.pieces@.len() <= packed_size + 1
        &&& exists|params: Rar4SplitParams<'_>|
            #[trigger] are_params(params, self.fields, m) && are_pieces(
                self.pieces@,
                reserve,
                out,
                params,
                packed_size,
            )
    }
}

/// Lay out a member of `packed_size` bytes on disk. A volume size that leaves
/// a fresh volume no room is refused.
pub fn plan_rar4_member<R: VolumeReserve>(
    reserve: &R,
    m: &Rar4Member,
    packed_size: u64,
    out: &Rar4Output,
) -> (r: RarResult<MemberLayout>)
    requires
        writable(*m, packed_size as int, *out),
    ensures
        match r {
            Ok(layout) => layout.is_for(*reserve, *m, packed_size, *out),
            Err(e) => is_refused(e, *reserve, *m, packed_size, *out),
        },
{
    let fields = member_fields(m, out);
    let params = split_params(m, &fields);
    let head_len = header_on_disk(&params, out.header_encryption);
    let pieces = match member_pieces(reserve, out, &params, packed_size, head_len) {
        Ok(p) => p,
        Err(e) => {
            return Err(e);
        },
    };
    assert(are_params(params, fields, *m));
    Ok(MemberLayout { fields, pieces })
}

/// A volume size that leaves a fresh volume no room for the member's header
/// is refused.
pub open spec fn is_refused<R: VolumeReserve>(
    e: RarError,
    reserve: R,
    m: Rar4Member,
    packed_size: u64,
    out: Rar4Output,
) -> bool {
    &&& out.volume_size is Some
    &&& is_invalid_option(
        e,
        "volume size "@ + decimal(out.volume_size->Some_0 as nat)
            + " is too small for a RAR4 member header"@,
    )
    &&& exists|f: MemberFields, params: Rar4SplitParams<'_>|
        are_fields(f, m, out) && #[trigger] are_params(params, f, m) && split_job(
            out,
            params,
            out.volume_size->Some_0,
            packed_size,
        ).is_stuck(reserve)
}

/// Write a member as it is laid out: its segments, and its catalog entry.
/// `crcs` are the checksums of the pieces' own data.
#[verifier::rlimit(60)]
#[verifier::spinoff_prover]
pub fn finish_rar4_member<R: VolumeReserve>(
    reserve: &R,
    m: &Rar4Member,
    packed_size: u64,
    layout: MemberLayout,
    crcs: &[u32],
    out: &Rar4Output,
) -> (e: MemberEmission)
    requires
        writable(*m, packed_size as int, *out),
        layout.is_for(*reserve, *m, packed_size, *out),
        crcs@.len() == layout.pieces@.len(),
        out.volume_index + layout.pieces@.len() <= usize::MAX,
    ensures
        exists|f: MemberFields, params: Rar4SplitParams<'_>|
            #[trigger] is_emission(e, *reserve, *m, packed_size, crcs@, *out, f, params),
        pieces_of(e.segments@) == layout.pieces@,
{
    let fields = layout.fields;
    let pieces = layout.pieces;
    let params = split_params(m, &fields);
    let head_len = header_on_disk(&params, out.header_encryption);
    proof {
        let other = choose|other: Rar4SplitParams<'_>|
            #[trigger] are_params(other, fields, *m) && are_pieces(
                pieces@,
                *reserve,
                *out,
                other,
                packed_size,
            );
        assert(other.plain_len() == params.plain_len());
        assert(other.header_len() == params.header_len());
        assert(are_pieces(pieces@, *reserve, *out, params, packed_size));
    }
    let mut segments: Vec<EmittedSegment> = Vec::new();
    let mut chunks: Vec<DataChunk> = Vec::new();
    let mut volume = out.volume_index;
    let mut position = out.position;
    let mut i: usize = 0;
    while i < pieces.len()
        invariant
            writable(*m, packed_size as int, *out),
            params.fits_memory(),
            head_len == on_disk_len(params.header_len(), out.header_encryption),
            head_len <= 0x4000_0100,
            pieces_ordered(pieces@),
            pieces_inside(pieces@, packed_size as int),
            pieces@.len() <= packed_size + 1,
            pieces@.len() == crcs@.len(),
            out.volume_index + pieces@.len() <= usize::MAX,
            i <= pieces@.len(),
            segments@.len() == i,
            chunks@.len() == i,
            params.file_crc == m.file_crc,
            volume == out.volume_index + volumes_started(segments@, i as int),
            volume <= out.volume_index + i,
            i == 0 ==> position == out.position,
            i > 0 ==> position == position_before(segments@, *out, head_len as int, i - 1)
                + head_len + pieces@[i - 1].len,
            position <= (if out.position < out.fresh {
                out.fresh
            } else {
                out.position
            }) + i * 0x4000_0100 + (if i > 0 {
                pieces@[i - 1].offset + pieces@[i - 1].len
            } else {
                0
            }),
            forall|j: int| 0 <= j < i ==> (#[trigger] segments@[j]).piece == pieces@[j],
            forall|j: int|
                0 <= j < i ==> is_segment(#[trigger] segments@[j], params, *m, crcs@[j]),
            forall|j: int|
                0 <= j < i ==> is_chunk(
                    #[trigger] chunks@[j],
                    segments@,
                    *m,
                    crcs@[j],
                    *out,
                    head_len as int,
                    j,
                ),
        decreases pieces@.len() - i,
    {
        let p = pieces[i];
        let ghost old_segments = segments@;
        assert(p.offset + p.len <= packed_size);
        proof {
            if i > 0 {
                assert(pieces@[i - 1].offset + pieces@[i - 1].len <= pieces@[i as int].offset);
                assert(pieces@[i - 1].offset + pieces@[i - 1].len <= packed_size);
            }
        }
        let crc = if p.split_after {
            crcs[i]
        } else {
            m.file_crc
        };
        let made = match build_rar4_segment(
            &params,
            crc,
            p.len as u32,
            p.split_before,
            p.split_after,
        ) {
            Ok(s) => s,
            Err(_) => {
                assert(false);
                Rar4Segment { header: Vec::new(), trailer: None }
            },
        };
        if p.new_volume {
            volume = volume + 1;
            position = out.fresh;
        }
        let segment = EmittedSegment { piece: p, header: made.header, trailer: made.trailer };
        segments.push(segment);
        let chunk = DataChunk {
            volume_index: volume,
            data_offset: position + head_len,
            packed_size: p.len,
            crc32_val: Some(crc),
            is_final: !p.split_after,
            extra_data: Vec::new(),
        };
        let ghost c = chunk;
        let ghost old_chunks = chunks@;
        chunks.push(chunk);
        proof {
            lemma_prefix_same(old_segments, segments@, *out, head_len as int, i as int);
            assert(position == position_before(segments@, *out, head_len as int, i as int)) by {
                if i > 0 {
                    lemma_prefix_same(old_segments, segments@, *out, head_len as int, i as int);
                    assert(segments@[i - 1].piece == pieces@[i - 1]);
                }
            }
            assert(volumes_started(segments@, i + 1) == volumes_started(segments@, i as int) + if
            p.new_volume {
                1int
            } else {
                0int
            });
            assert(is_chunk(c, segments@, *m, crcs@[i as int], *out, head_len as int, i as int));
            assert forall|j: int| 0 <= j < i + 1 implies is_chunk(
                #[trigger] chunks@[j],
                segments@,
                *m,
                crcs@[j],
                *out,
                head_len as int,
                j,
            ) by {
                if j < i {
                    lemma_prefix_same(old_segments, segments@, *out, head_len as int, j + 1);
                    lemma_position_same(old_segments, segments@, *out, head_len as int, j);
                    assert(chunks@[j] == old_chunks[j]);
                }
            }
        }
        position = position + head_len + p.len;
        i += 1;
    }
    let data_offset = match out.volume_size {
        None => chunks[0].data_offset,
        Some(_) => 0,
    };
    let header = catalog_header(m, &fields, packed_size, data_offset);
    let emission = MemberEmission { segments, entry: ArchiveEntry { header, chunks } };
    proof {
        let e = emission;
        assert(pieces_of(e.segments@) =~= pieces@);
        assert(is_emission(e, *reserve, *m, packed_size, crcs@, *out, fields, params));
    }
    emission
}

/// Write a member whose data on disk is at hand.
pub fn emit_rar4_member<R: VolumeReserve>(
    reserve: &R,
    m: &Rar4Member,
    packed: &[u8],
    out: &Rar4Output,
) -> (r: RarResult<MemberEmission>)
    requires
        writable(*m, packed@.len() as int, *out),
        out.volume_index + packed@.len() < usize::MAX,
    ensures
        match r {
            Ok(e) => exists|f: MemberFields, params: Rar4SplitParams<'_>|
                #[trigger] is_emission(
                    e,
                    *reserve,
                    *m,
                    packed@.len() as u64,
                    piece_crcs(packed@, pieces_of(e.segments@)),
                    *out,
                    f,
                    params,
                ),
            Err(e) => is_refused(e, *reserve, *m, packed@.len() as u64, *out),
        },
{
    let size: usize = packed.len();
    let total = size as u64;
    let layout = match plan_rar4_member(reserve, m, total, out) {
        Ok(p) => p,
        Err(e) => {
            return Err(e);
        },
    };
    let mut crcs: Vec<u32> = Vec::new();
    let ghost pieces = layout.pieces@;
    let mut i: usize = 0;
    while i < layout.pieces.len()
        invariant
            i <= pieces.len(),
            pieces == layout.pieces@,
            size == packed@.len(),
            pieces_inside(pieces, packed@.len() as int),
            crcs@ == piece_crcs(packed@, pieces).take(i as int),
        decreases pieces.len() - i,
    {
        let p = layout.pieces[i];
        assert(p.offset + p.len <= size);
        let crc = crc32(slice_subrange(packed, p.offset as usize, (p.offset + p.len) as usize));
        crcs.push(crc);
        i += 1;
        assert(crcs@ =~= piece_crcs(packed@, pieces).take(i as int));
    }
    assert(crcs@ =~= piece_crcs(packed@, pieces));
    let e = finish_rar4_member(reserve, m, total, layout, crcs.as_slice(), out);
    Ok(e)
}

proof fn lemma_prefix_same(
    a: Seq<EmittedSegment>,
    b: Seq<EmittedSegment>,
    out: Rar4Output,
    head_len: int,
    n: int,
)
    requires
        0 <= n <= a.len(),
        a.len() <= b.len(),
        forall|j: int| 0 <= j < a.len() ==> #[trigger] a[j] == b[j],
    ensures
        volumes_started(a, n) == volumes_started(b, n),
        n > 0 ==> position_before(a, out, head_len, n - 1) == position_before(
            b,
            out,
            head_len,
            n - 1,
        ),
    decreases n,
{
    if n > 0 {
        lemma_prefix_same(a, b, out, head_len, n - 1);
        assert(a[n - 1] == b[n - 1]);
        lemma_position_same(a, b, out, head_len, n - 1);
    }
}

proof fn lemma_position_same(
    a: Seq<EmittedSegment>,
    b: Seq<EmittedSegment>,
    out: Rar4Output,
    head_len: int,
    n: int,
)
    requires
        0 <= n < a.len(),
        a.len() <= b.len(),
        forall|j: int| 0 <= j < a.len() ==> #[trigger] a[j] == b[j],
    ensures
        position_before(a, out, head_len, n) == position_before(b, out, head_len, n),
    decreases n,
{
    assert(a[n] == b[n]);
    if n > 0 {
        assert(a[n - 1] == b[n - 1]);
        lemma_position_same(a, b, out, head_len, n - 1);
    }
}

} // verus!
