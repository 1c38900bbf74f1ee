//! The steps of adding a member: what comes before the encoder, what becomes
//! of its result, and what is written.

use crate::crc32::{crc32, spec_crc32};
use crate::engine::entry::ArchiveEntry;
use crate::error::{is_invalid_option, RarError, RarResult};
use crate::model::FileHeader;
use crate::rar4::comment::{
    build_comment_block, comment_block, comment_payload, encode_comment_text, lemma_comment_block,
    CMT_HEAD_SIZE,
};
use crate::rar4::create::ensure_member_size;
use crate::rar4::emit::{fits_behind, Rar4SplitParams, VolumeReserve};
use crate::rar4::encode::{compresses, packed_member, packed_or_stored};
use crate::rar4::ext_time::{area_for, build_member_ext_time};
use crate::rar4::headers::{
    build_file_header, checked_block, endarc_volume_reserve, on_disk_len, FileHeaderParams,
};
use crate::rar4::member::{
    continues_run, emit_rar4_member, ends_in_slash, ends_run, is_emission, is_refused, piece_crcs,
    pieces_of, run_after, track_rar4_solid_member, writable, MemberEmission, MemberFields,
    Rar4Member, Rar4Output, RunStep, SolidRun,
};
use crate::rar4::names::{encode_file_name, name_bytes};
use crate::rar4::{FHD_EXTTIME, RAR4_METHOD_STORE};
use crate::shared::legacy_time::{spec_unix_to_dos_time, unix_to_dos_time};
use crate::text::{decimal, with_number};
use crate::version::{spec_codec, LegacyCodec};
use vstd::prelude::*;
use vstd::slice::{slice_subrange, slice_to_vec};
use vstd::string::*;

verus! {

/// The archive comment as it is written: header and payload, of which only
/// the header is ever encrypted.
pub struct CommentEmission {
    pub header: Vec<u8>,
    pub payload: Vec<u8>,
    /// Bytes that both take on disk.
    pub on_disk: u64,
}

/// Write a queued archive comment; an empty one is none.
pub fn emit_pending_rar4_comment(text: Option<Vec<u8>>, header_encryption: bool) -> (r: Option<
    CommentEmission,
>)
    requires
        text matches Some(t) ==> comment_payload(t@).0.len() <= 0x7fff_ffff,
    ensures
        match (r, text) {
            (Some(e), Some(t)) => {
                let (payload, unicode) = comment_payload(t@);
                &&& t@.len() > 0
                &&& e.header@ + e.payload@ == comment_block(payload, unicode)
                &&& e.header@.len() == CMT_HEAD_SIZE
                &&& e.payload@ == payload
                &&& e.on_disk == on_disk_len(35, header_encryption) + payload.len()
            },
            (None, Some(t)) => t@.len() == 0,
            (None, None) => true,
            _ => false,
        },
{
    match text {
        None => None,
        Some(t) => {
            if t.len() == 0 {
                return None;
            }
            let (payload, unicode) = encode_comment_text(t.as_slice());
            let block = build_comment_block(payload.as_slice(), unicode);
            proof {
                lemma_comment_block(payload@, unicode);
            }
            let header = slice_to_vec(slice_subrange(block.as_slice(), 0, 35));
            assert(header@ + payload@ =~= block@) by {
                assert(block@.skip(35) =~= payload@);
            }
            let head: u64 = if header_encryption {
                56
            } else {
                35
            };
            let on_disk = head + payload.len() as u64;
            Some(CommentEmission { header, payload, on_disk })
        },
    }
}

/// What adding a member from memory starts with.
#[derive(Clone, Copy, PartialEq, Eq, Structural, Debug)]
pub enum DataStart {
    /// The archive is rewritten when it is closed: the member is queued.
    Queue { attr: u32 },
    /// The member is encoded next.
    Encode { attr: u32, file_crc: u32 },
}

/// Start adding a member from memory. One that is too large is refused; in an
/// archive whose solid chain must be rewritten it is queued. A name that ends
/// in a slash is a directory's, which shows in the attributes.
pub fn begin_rar4_data(name: &str, data: &[u8], solid_append: bool, attr: Option<u32>) -> (r:
    RarResult<DataStart>)
    ensures
        match r {
            Err(e) => data@.len() > u32::MAX && is_invalid_option(
                e,
                "RAR4 members cannot exceed 4294967295 bytes (got "@ + decimal(data@.len()) + ")"@,
            ),
            Ok(DataStart::Queue { attr: a }) => {
                &&& data@.len() <= u32::MAX
                &&& solid_append
                &&& a == match attr {
                    Some(x) => x,
                    None => 0x20,
                }
            },
            Ok(DataStart::Encode { attr: a, file_crc }) => {
                &&& data@.len() <= u32::MAX
                &&& !solid_append
                &&& file_crc == spec_crc32(data@)
                &&& a == match attr {
                    Some(x) => x,
                    None => if ends_in_slash(name@) {
                        0x10
                    } else {
                        0x20
                    },
                }
            },
        },
{
    match ensure_member_size(data.len() as u64) {
        Ok(_) => {},
        Err(e) => {
            return Err(e);
        },
    }
    if solid_append {
        let a = match attr {
            Some(x) => x,
            None => 0x20,
        };
        return Ok(DataStart::Queue { attr: a });
    }
    let n = name.unicode_len();
    let directory = n > 0 && name.get_char(n - 1) == '/';
    let a = match attr {
        Some(x) => x,
        None => if directory {
            0x10
        } else {
            0x20
        },
    };
    Ok(DataStart::Encode { attr: a, file_crc: crc32(data) })
}

/// The payload and method of a member: `encoded` is what an encoder made of
/// it, if one was tried.
pub fn rar4_payload(data: Vec<u8>, level: u8, encoded: Option<Vec<u8>>) -> (r: (Vec<u8>, u8))
    requires
        encoded is Some ==> compresses(level),
    ensures
        match encoded {
            Some(packed) => (r.0@, r.1) == packed_member(data@, packed@, level),
            None => r.0@ == data@ && r.1 == RAR4_METHOD_STORE,
        },
{
    match encoded {
        Some(packed) => packed_or_stored(data, packed, level),
        None => (data, RAR4_METHOD_STORE),
    }
}

/// A member from memory that is about to be written.
pub struct DataJob {
    pub name: String,
    pub unpacked_size: u64,
    pub file_crc: u32,
    pub mtime: u32,
    pub civil: u32,
    pub mtime_ns: u32,
    pub level: u8,
    pub comment: Option<Vec<u8>>,
    pub attr: u32,
    /// Method of the payload.
    pub method: u8,
    /// The payload is encrypted, with this salt if its cipher takes one.
    pub password: bool,
    pub salt: Option<[u8; 8]>,
}

/// The member of a job, in a solid run.
pub open spec fn is_member_of(m: Rar4Member, job: DataJob, run: SolidRun) -> bool {
    &&& m.name@ == job.name@
    &&& m.unpacked_size == job.unpacked_size && m.file_crc == job.file_crc
    &&& m.mtime == job.mtime && m.civil == job.civil && m.mtime_ns == job.mtime_ns
    &&& m.method == job.method && m.level == job.level
    &&& m.password == job.password && m.salt == job.salt
    &&& m.comment == job.comment && m.attr == job.attr
    &&& m.solid_continuation == continues_run(run, job.method)
}

/// Numbers and lengths whose sums fit.
pub open spec fn writable_job(job: DataJob, packed_size: int, out: Rar4Output) -> bool {
    &&& job.unpacked_size <= u32::MAX
    &&& packed_size <= u32::MAX
    &&& name_bytes(job.name@).0.len() <= 0xfff_ffff
    &&& job.comment matches Some(c) ==> c@.len() <= 0xfff_ffff
    &&& fits_behind(out.position as int)
    &&& fits_behind(out.used as int)
    &&& fits_behind(out.fresh as int)
    &&& out.volume_index + packed_size < usize::MAX
}

/// Write a member whose payload is ready, encrypted where it has to be:
/// its segments and entry, and what becomes of the solid run.
pub fn add_rar4_data<R: VolumeReserve>(
    reserve: &R,
    job: DataJob,
    packed: &[u8],
    run: SolidRun,
    out: &Rar4Output,
) -> (r: RarResult<(MemberEmission, RunStep)>)
    requires
        writable_job(job, packed@.len() as int, *out),
    ensures
        match r {
            Ok((e, step)) => {
                &&& step.continuation == continues_run(run, job.method)
                &&& step.drop_encoder == ends_run(run, job.method)
                &&& step.run == run_after(run, job.method, job.unpacked_size)
                &&& exists|m: Rar4Member, f: MemberFields, params: Rar4SplitParams<'_>|
                    is_member_of(m, job, run) && #[trigger] is_emission(
                        e,
                        *reserve,
                        m,
                        packed@.len() as u64,
                        piece_crcs(packed@, pieces_of(e.segments@)),
                        *out,
                        f,
                        params,
                    )
            },
            Err(e) => exists|m: Rar4Member|
                is_member_of(m, job, run) && #[trigger] is_refused(
                    e,
                    *reserve,
                    m,
                    packed@.len() as u64,
                    *out,
                ),
        },
{
    let step = track_rar4_solid_member(run, job.method, job.unpacked_size);
    let m = Rar4Member {
        name: job.name,
        unpacked_size: job.unpacked_size,
        file_crc: job.file_crc,
        mtime: job.mtime,
        civil: job.civil,
        mtime_ns: job.mtime_ns,
        method: job.method,
        level: job.level,
        password: job.password,
        salt: job.salt,
        comment: job.comment,
        attr: job.attr,
        solid_continuation: step.continuation,
    };
    assert(is_member_of(m, job, run));
    assert(writable(m, packed@.len() as int, *out));
    let emitted = emit_rar4_member(reserve, &m, packed, out);
    match emitted {
        Ok(e) => Ok((e, step)),
        Err(e) => Err(e),
    }
}

/// A directory as it is written.
pub struct DirEmission {
    /// The header starts a volume.
    pub new_volume: bool,
    pub header: Vec<u8>,
    pub entry: ArchiveEntry,
}

/// The header of a directory: no data, version 20, all window bits set.
pub open spec fn is_dir_params(
    p: FileHeaderParams<'_>,
    name: Seq<char>,
    attr: u32,
    civil: u32,
    mtime_ns: u32,
    unp_ver: u8,
) -> bool {
    let area = if spec_codec(unp_ver) == Some(LegacyCodec::Rar29) {
        area_for(civil as int, mtime_ns as int)
    } else {
        None
    };
    &&& p.name@ == name_bytes(name).0
    &&& p.flags == if area is Some {
        name_bytes(name).1 | FHD_EXTTIME
    } else {
        name_bytes(name).1
    }
    &&& p.packed_size == 0 && p.unpacked_size == 0 && p.host_os == 2 && p.file_crc == 0
    &&& p.file_time == spec_unix_to_dos_time(civil as int)
    &&& p.unp_ver == 20 && p.method == RAR4_METHOD_STORE && p.attr == attr && p.window_bits == 7
    &&& p.salt is None
    &&& match (p.ext_time, area) {
        (Some(a), Some(b)) => a@ == b,
        (None, None) => true,
        _ => false,
    }
}

/// A header of `len` bytes, and what must follow it, fit a volume behind
/// `used` bytes with a byte to spare.
pub open spec fn dir_fits<R: VolumeReserve>(
    reserve: R,
    used: u64,
    len: int,
    volume_size: u64,
    header_encryption: bool,
) -> bool {
    let left = if used < volume_size {
        volume_size - used
    } else {
        0
    };
    left > on_disk_len(20, header_encryption) + len + reserve.reserve_of((used + len) as u64)
}

/// The catalog entry of a directory.
pub open spec fn is_dir_entry(
    e: ArchiveEntry,
    name: Seq<char>,
    attr: u32,
    mtime: u32,
    mtime_ns: u32,
    header: Seq<u8>,
    ext: Option<Seq<u8>>,
) -> bool {
    let h = e.header;
    &&& e.chunks@.len() == 0
    &&& h.name@ == name
    &&& h.unpacked_size == 0 && h.packed_size == 0 && h.attributes == attr && h.mtime == mtime
    &&& h.mtime_ns == if ext is Some {
        Some(mtime_ns)
    } else {
        None
    }
    &&& h.crc32_val == Some(0u32) && h.comp_method == 0 && h.host_os == 2
    &&& h.format_version == 4 && h.unp_ver == 20 && h.is_directory
    &&& h.legacy_head_crc == Some(crate::rar4::headers::field(header, 0, 2) as u16)
    &&& h.extra_data@ == match ext {
        Some(x) => x,
        None => Seq::empty(),
    }
    &&& h.salt is None && h.comment is None && h.flags == 0 && h.data_offset == 0
    &&& h.hash_type == 0 && h.hash_value is None && h.comp_version == 0 && !h.comp_solid
    &&& h.comp_dict_size == 0 && h.file_flags == 0 && h.dict_size_bytes is None
    &&& h.ctime is None && h.atime is None && h.owner is None && h.group is None
    &&& h.version is None
}

fn dir_fits_volume<R: VolumeReserve>(
    reserve: &R,
    used: u64,
    len: u64,
    volume_size: u64,
    header_encryption: bool,
) -> (r: bool)
    requires
        fits_behind(used as int),
        len <= 0x4000_0000,
    ensures
        r == dir_fits(*reserve, used, len as int, volume_size, header_encryption),
{
    let left = if used < volume_size {
        volume_size - used
    } else {
        0
    };
    let endarc = endarc_volume_reserve(header_encryption);
    let record = reserve.recovery_volume_reserve(used + len);
    left as u128 > endarc as u128 + len as u128 + record as u128
}

/// Write a directory: its header goes to a volume that has room for it and
/// the end-of-archive block. A volume size that leaves a fresh volume no room
/// is refused.
pub fn write_rar4_dir_entry<R: VolumeReserve>(
    reserve: &R,
    name: &str,
    attr: u32,
    mtime: u32,
    civil: u32,
    mtime_ns: u32,
    out: &Rar4Output,
) -> (r: RarResult<DirEmission>)
    requires
        name_bytes(name@).0.len() <= 0xfff_ffff,
        fits_behind(out.used as int),
        fits_behind(out.fresh as int),
    ensures
        match r {
            Ok(d) => exists|p: FileHeaderParams<'_>| #[trigger]
                is_dir_params(p, name@, attr, civil, mtime_ns, out.unp_ver) && {
                    let len = on_disk_len(p.head_size() as int, out.header_encryption);
                    &&& d.header@ == checked_block(p.body())
                    &&& is_dir_entry(
                        d.entry,
                        name@,
                        attr,
                        mtime,
                        mtime_ns,
                        d.header@,
                        match p.ext_time {
                            Some(x) => Some(x@),
                            None => None,
                        },
                    )
                    &&& match out.volume_size {
                        None => !d.new_volume,
                        Some(n) => if d.new_volume {
                            !dir_fits(*reserve, out.used, len, n, out.header_encryption)
                                && dir_fits(*reserve, out.fresh, len, n, out.header_encryption)
                        } else {
                            dir_fits(*reserve, out.used, len, n, out.header_encryption)
                        },
                    }
                },
            Err(e) => out.volume_size is Some && is_invalid_option(
                e,
                "volume size "@ + decimal(out.volume_size->Some_0 as nat)
                    + " is too small for a RAR4 directory header"@,
            ) && exists|p: FileHeaderParams<'_>| #[trigger]
                is_dir_params(p, name@, attr, civil, mtime_ns, out.unp_ver) && {
                    let len = on_disk_len(p.head_size() as int, out.header_encryption);
                    let n = out.volume_size->Some_0;
                    &&& !dir_fits(*reserve, out.used, len, n, out.header_encryption)
                    &&& !dir_fits(*reserve, out.fresh, len, n, out.header_encryption)
                },
        },
{
    let (encoded, name_flags) = encode_file_name(name);
    let ext = build_member_ext_time(out.unp_ver, civil, Some(mtime_ns));
    let flags = match &ext {
        Some(_) => name_flags | FHD_EXTTIME,
        None => name_flags,
    };
    let p = FileHeaderParams {
        flags,
        packed_size: 0,
        unpacked_size: 0,
        host_os: 2,
        file_crc: 0,
        file_time: unix_to_dos_time(civil),
        unp_ver: 20,
        method: RAR4_METHOD_STORE,
        name: encoded.as_slice(),
        attr,
        window_bits: 7,
        salt: None,
        ext_time: match &ext {
            Some(e) => Some(e.as_slice()),
            None => None,
        },
    };
    assert(is_dir_params(p, name@, attr, civil, mtime_ns, out.unp_ver));
    let header = match build_file_header(&p) {
        Ok(h) => h,
        Err(_) => {
            assert(false);
            Vec::new()
        },
    };
    let plain = header.len() as u64;
    let len = if out.header_encryption {
        8 + (plain + 15) / 16 * 16
    } else {
        plain
    };
    let mut new_volume = false;
    if let Some(volume_size) = out.volume_size {
        if !dir_fits_volume(reserve, out.used, len, volume_size, out.header_encryption) {
            if !dir_fits_volume(reserve, out.fresh, len, volume_size, out.header_encryption) {
                return Err(
                    RarError::InvalidOption(
                        with_number(
                            "volume size ",
                            volume_size,
                            " is too small for a RAR4 directory header",
                        ),
                    ),
                );
            }
            new_volume = true;
        }
    }
    let head_crc = crate::bytes::read_u16(header.as_slice(), 0);
    let mut h: FileHeader = Default::default();
    h.name = name.to_owned();
    h.attributes = attr as u64;
    h.mtime = mtime;
    h.mtime_ns = match &ext {
        Some(_) => Some(mtime_ns),
        None => None,
    };
    h.crc32_val = Some(0);
    h.host_os = 2;
    h.format_version = 4;
    h.unp_ver = 20;
    h.legacy_head_crc = Some(head_crc);
    h.is_directory = true;
    if let Some(e) = &ext {
        h.extra_data = slice_to_vec(e.as_slice());
    }
    let entry = ArchiveEntry { header: h, chunks: Vec::new() };
    proof {
        let x = match p.ext_time {
            Some(x) => Some(x@),
            None => None,
        };
        assert(entry.header.extra_data@ =~= match x {
            Some(x) => x,
            None => Seq::empty(),
        });
        assert(is_dir_entry(entry, name@, attr, mtime, mtime_ns, header@, x));
    }
    Ok(DirEmission { new_volume, header, entry })
}

} // verus!
