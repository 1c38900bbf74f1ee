//! Writing the members of a RAR 1.3/1.4 archive: the headers of a member's
//! fragments, where they go, and the member's entry in the catalog.

use crate::crypto::clamped;
use crate::bytes::{le_bytes, lemma_le_bytes_len};
use crate::crypto::rar13::{lemma_rar13_roundtrip, password_key, rar13_encrypted};
use crate::engine::entry::ArchiveEntry;
use crate::error::{is_invalid_option, RarError, RarResult};
use crate::model::{DataChunk, FileHeader};
use crate::rar13::create::ensure_member_size;
use crate::rar13::write::{
    bit, build_file_comment, fragment_header, is_fragment_header, lemma_fragment_count,
    lemma_fragments, rar13_member_flags, rar13_on_disk, rar13_payload, rar13_payload_of,
    spec_member_flags, write_rar13_split, Fragment, MemberHeader, Split13,
};
use crate::rar13::{LHD_COMMENT, LHD_PASSWORD, LHD_SOLID, METHOD_BEST, METHOD_STORE};
use crate::rar4::member::{ends_in_slash, is_directory_name};
use crate::shared::checksum::{
    file_checksum, lemma_rolling_concat, rolling_checksum, rolling_from,
};
use crate::shared::legacy_time::{spec_unix_to_dos_time, unix_to_dos_time};
use crate::text::decimal;
use vstd::prelude::*;
use vstd::slice::slice_subrange;
use vstd::string::*;
use vstd::utf8::encode_utf8;

verus! {

/// Where the writer stands.
#[derive(Clone, Copy, Debug)]
pub struct Rar13Output {
    /// Size of a volume, if the archive has volumes.
    pub volume_size: Option<u64>,
    /// The volume that is open, from 0.
    pub volume_index: usize,
    /// Where in it the next header goes.
    pub position: u64,
    /// Bytes written to it.
    pub used: u64,
    /// Bytes of a volume just started.
    pub fresh: u64,
}

impl Rar13Output {
    /// The largest member, with all its headers, ends within 64 bits.
    pub open spec fn valid(self) -> bool {
        &&& self.position + 0x1_0001_0000_0000 <= u64::MAX
        &&& self.fresh + 0x1_0001_0000_0000 <= u64::MAX
    }
}

/// One fragment to write: its header, and which of the packed data follows.
pub struct WrittenFragment {
    pub fragment: Fragment,
    pub header: Vec<u8>,
}

/// A member to write, and its entry in the catalog.
pub struct Rar13Emission {
    pub parts: Vec<WrittenFragment>,
    pub entry: ArchiveEntry,
}

/// How a member is split.
pub open spec fn split_job(m: MemberHeader<'_>, total: u64, volume_size: u64, fresh: u64) -> Split13 {
    Split13 {
        volume_size,
        first_len: m.head_size() as u64,
        continuation_len: (21 + m.name_bytes().len()) as u64,
        total,
        fresh,
    }
}

/// The fragments of a member: one, where the archive has no volumes.
pub open spec fn fragments_of(m: MemberHeader<'_>, total: u64, out: Rar13Output) -> Option<
    Seq<Fragment>,
> {
    match out.volume_size {
        None => Some(
            seq![
                Fragment {
                    new_volume: false,
                    offset: 0,
                    len: total,
                    split_before: false,
                    split_after: false,
                },
            ],
        ),
        Some(n) => split_job(m, total, n, out.fresh).fragments(out.used as int, 0),
    }
}

/// A fragment with its header.
pub open spec fn is_part(
    w: WrittenFragment,
    m: MemberHeader<'_>,
    packed: Seq<u8>,
    f: Fragment,
) -> bool {
    &&& w.fragment == f
    &&& exists|h: MemberHeader<'_>| #[trigger]
        is_fragment_header(h, m, rolling_from(0, packed.take(f.offset + f.len)), f) && w.header@
            == h.bytes()
}

/// Where the header of fragment `i` starts: a new volume, or behind what was
/// written before.
pub open spec fn header_start(
    parts: Seq<WrittenFragment>,
    chunks: Seq<DataChunk>,
    out: Rar13Output,
    i: int,
) -> int {
    if parts[i].fragment.new_volume {
        out.fresh as int
    } else if i == 0 {
        out.position as int
    } else {
        chunks[i - 1].data_offset + chunks[i - 1].packed_size
    }
}

/// The chunk of fragment `i`: its data behind its header.
pub open spec fn is_part_chunk(
    parts: Seq<WrittenFragment>,
    chunks: Seq<DataChunk>,
    out: Rar13Output,
    i: int,
) -> bool {
    let c = chunks[i];
    let f = parts[i].fragment;
    &&& c.volume_index == (if i == 0 {
        out.volume_index as int
    } else {
        chunks[i - 1].volume_index as int
    }) + (if f.new_volume {
        1int
    } else {
        0int
    })
    &&& c.data_offset == header_start(parts, chunks, out, i) + parts[i].header@.len()
    &&& c.packed_size == f.len
    &&& c.crc32_val is None && c.extra_data@.len() == 0
    &&& c.is_final == !f.split_after
}

/// The catalog's entry of a member.
pub open spec fn is_rar13_entry(
    h: FileHeader,
    m: MemberHeader<'_>,
    packed_size: nat,
    data_offset: u64,
) -> bool {
    &&& h.name@ == m.name@
    &&& h.unpacked_size == m.unpacked_size && h.packed_size == packed_size
    &&& h.crc32_val == Some(m.file_crc as u32)
    &&& h.comp_method == m.method
    &&& h.is_directory == ends_in_slash(m.name@)
    &&& h.data_offset == data_offset
    &&& h.format_version == 3 && h.unp_ver == 15
    &&& h.attributes == 0 && h.mtime == 0 && h.mtime_ns is None && h.flags == 0
    &&& h.hash_type == 0 && h.hash_value is None && h.comp_version == 0 && !h.comp_solid
    &&& h.comp_dict_size == 0 && h.host_os == 0 && h.file_flags == 0
    &&& h.extra_data@.len() == 0 && h.dict_size_bytes is None
    &&& h.ctime is None && h.atime is None && h.owner is None && h.group is None
    &&& h.version is None && h.salt is None && h.legacy_head_crc is None && h.comment is None
}

/// A member as it is written.
pub open spec fn is_rar13_emission(
    e: Rar13Emission,
    m: MemberHeader<'_>,
    packed: Seq<u8>,
    out: Rar13Output,
) -> bool {
    let parts = e.parts@;
    let chunks = e.entry.chunks@;
    &&& fragments_of(m, packed.len() as u64, out) matches Some(f) && {
        &&& f.len() == parts.len()
        &&& f.len() > 0
        &&& forall|i: int| 0 <= i < parts.len() ==> is_part(#[trigger] parts[i], m, packed, f[i])
    }
    &&& chunks.len() == parts.len()
    &&& forall|i: int|
        0 <= i < chunks.len() ==> #[trigger] is_part_chunk(parts, chunks, out, i)
    &&& is_rar13_entry(e.entry.header, m, packed.len(), chunks[0].data_offset)
}

fn rar13_catalog_header(m: &MemberHeader<'_>, packed_size: u64, data_offset: u64) -> (h: FileHeader)
    ensures
        is_rar13_entry(h, *m, packed_size as nat, data_offset),
{
    let mut h: FileHeader = Default::default();
    h.name = m.name.to_owned();
    h.unpacked_size = m.unpacked_size;
    h.packed_size = packed_size;
    h.crc32_val = Some(m.file_crc as u32);
    h.comp_method = m.method;
    h.is_directory = is_directory_name(m.name);
    h.data_offset = data_offset;
    h.format_version = 3;
    h.unp_ver = 15;
    h
}

fn plan_fragments(m: &MemberHeader<'_>, total: u64, out: &Rar13Output) -> (r: RarResult<
    Vec<Fragment>,
>)
    requires
        m.refusal() is None,
        out.valid(),
        total <= u32::MAX,
    ensures
        match (r, fragments_of(*m, total, *out)) {
            (Ok(v), Some(f)) => {
                &&& v@ == f
                &&& 0 < f.len() <= total + 1
                &&& f[0].offset == 0
                &&& f.last().offset + f.last().len == total
                &&& forall|i: int|
                    0 <= i < f.len() - 1 ==> (#[trigger] f[i]).offset + f[i].len == f[i + 1].offset
                &&& forall|i: int|
                    0 <= i < f.len() ==> (#[trigger] f[i]).offset + f[i].len <= total
            },
            (Err(e), None) => out.volume_size is Some && is_invalid_option(
                e,
                "volume size "@ + decimal(out.volume_size->Some_0 as nat)
                    + " is too small for a RAR 1.3/1.4 member header"@,
            ),
            _ => false,
        },
{
    match out.volume_size {
        None => {
            let mut v: Vec<Fragment> = Vec::new();
            v.push(
                Fragment {
                    new_volume: false,
                    offset: 0,
                    len: total,
                    split_before: false,
                    split_after: false,
                },
            );
            assert(v@ =~= fragments_of(*m, total, *out)->Some_0);
            Ok(v)
        },
        Some(volume_size) => {
            let name_len = m.name.as_bytes().len() as u64;
            let job = Split13 {
                volume_size,
                first_len: 21 + name_len + m.extra.len() as u64,
                continuation_len: 21 + name_len,
                total,
                fresh: out.fresh,
            };
            assert(job == split_job(*m, total, volume_size, out.fresh));
            let r = write_rar13_split(job, out.used);
            proof {
                if job.fragments(out.used as int, 0) is Some && total > 0 {
                    lemma_fragments(job, out.used as int, 0);
                    lemma_fragment_count(job, out.used as int, 0);
                }
            }
            r
        },
    }
}

/// The fragment with its header, and the checksum up to its end.
fn written_fragment(m: &MemberHeader<'_>, packed: &[u8], f: Fragment, running: u16) -> (r: (
    WrittenFragment,
    u16,
))
    requires
        m.extra@.len() <= 0xff_ffff,
        m.refusal() is None,
        f.offset + f.len <= packed@.len(),
        running == rolling_from(0, packed@.take(f.offset as int)),
    ensures
        is_part(r.0, *m, packed@, f),
        r.0.header@.len() <= 0xffff,
        r.1 == rolling_from(0, packed@.take(f.offset + f.len)),
{
    let total = packed.len();
    assert(f.offset + f.len <= total);
    let from = f.offset as usize;
    let to = (f.offset + f.len) as usize;
    let sum = rolling_checksum(running, slice_subrange(packed, from, to));
    proof {
        let part = packed@.subrange(from as int, to as int);
        assert(packed@.take(to as int) =~= packed@.take(from as int) + part);
        lemma_rolling_concat(0, packed@.take(from as int), part);
    }
    match fragment_header(m, f, sum) {
        Ok(header) => (WrittenFragment { fragment: f, header }, sum),
        Err(_) => {
            assert(false);
            (WrittenFragment { fragment: f, header: Vec::new() }, sum)
        },
    }
}

/// Write a member: its fragments, each behind its header, and its entry. A
/// name or header that is too long, and a volume size that leaves a fresh
/// volume no room, are refused.
#[verifier::rlimit(60)]
pub fn write_rar13_member(m: &MemberHeader<'_>, packed: &[u8], out: &Rar13Output) -> (r: RarResult<
    Rar13Emission,
>)
    requires
        m.extra@.len() <= 0xff_ffff,
        packed@.len() <= u32::MAX,
        out.valid(),
        out.volume_index + packed@.len() < usize::MAX,
    ensures
        match (r, m.refusal()) {
            (Ok(e), None) => is_rar13_emission(e, *m, packed@, *out),
            (Err(e), Some(msg)) => is_invalid_option(e, msg),
            (Err(e), None) => fragments_of(*m, packed@.len() as u64, *out) is None
                && out.volume_size is Some && is_invalid_option(
                e,
                "volume size "@ + decimal(out.volume_size->Some_0 as nat)
                    + " is too small for a RAR 1.3/1.4 member header"@,
            ),
            _ => false,
        },
{
    match crate::rar13::write::build_file_header(m) {
        Ok(_) => {},
        Err(e) => {
            return Err(e);
        },
    }
    let total = packed.len();
    let fragments = match plan_fragments(m, total as u64, out) {
        Ok(f) => f,
        Err(e) => {
            return Err(e);
        },
    };
    let ghost plan = fragments@;
    let mut parts: Vec<WrittenFragment> = Vec::new();
    let mut chunks: Vec<DataChunk> = Vec::new();
    let mut running: u16 = 0;
    let mut volume_index = out.volume_index;
    let mut position = out.position;
    let mut i: usize = 0;
    proof {
        assert(packed@.take(0) =~= Seq::<u8>::empty());
    }
    while i < fragments.len()
        invariant
            m.extra@.len() <= 0xff_ffff,
            m.refusal() is None,
            packed@.len() == total <= u32::MAX,
            out.valid(),
            out.volume_index + total < usize::MAX,
            plan == fragments@,
            0 < plan.len() <= total + 1,
            plan[0].offset == 0,
            plan.last().offset + plan.last().len == total,
            forall|j: int|
                0 <= j < plan.len() - 1 ==> (#[trigger] plan[j]).offset + plan[j].len == plan[j
                    + 1].offset,
            forall|j: int| 0 <= j < plan.len() ==> (#[trigger] plan[j]).offset + plan[j].len <= total,
            i <= plan.len(),
            parts@.len() == i,
            chunks@.len() == i,
            forall|j: int| 0 <= j < i ==> is_part(#[trigger] parts@[j], *m, packed@, plan[j]),
            forall|j: int|
                0 <= j < i ==> #[trigger] is_part_chunk(parts@, chunks@, *out, j),
            running == rolling_from(
                0,
                packed@.take(
                    if i == 0 {
                        0
                    } else {
                        plan[i - 1].offset + plan[i - 1].len
                    },
                ),
            ),
            volume_index == if i == 0 {
                out.volume_index
            } else {
                chunks@[i - 1].volume_index
            },
            volume_index <= out.volume_index + i,
            position == if i == 0 {
                out.position as int
            } else {
                chunks@[i - 1].data_offset + chunks@[i - 1].packed_size
            },
            position <= (if out.position < out.fresh {
                out.fresh
            } else {
                out.position
            }) + i * 0x1_0000 + (if i == 0 {
                0
            } else {
                plan[i - 1].offset + plan[i - 1].len
            }),
        decreases plan.len() - i,
    {
        let f = fragments[i];
        let (part, sum) = written_fragment(m, packed, f, running);
        running = sum;
        if f.new_volume {
            volume_index = volume_index + 1;
            position = out.fresh;
        }
        let data_offset = position + part.header.len() as u64;
        let ghost old_parts = parts@;
        let ghost old_chunks = chunks@;
        parts.push(part);
        chunks.push(
            DataChunk {
                volume_index,
                data_offset,
                packed_size: f.len,
                crc32_val: None,
                is_final: !f.split_after,
                extra_data: Vec::new(),
            },
        );
        position = data_offset + f.len;
        proof {
            assert forall|j: int| 0 <= j < i + 1 implies #[trigger] is_part_chunk(
                parts@,
                chunks@,
                *out,
                j,
            ) by {
                if j < i {
                    assert(is_part_chunk(old_parts, old_chunks, *out, j));
                    assert(parts@[j] == old_parts[j]);
                    assert(chunks@[j] == old_chunks[j]);
                }
            }
            assert forall|j: int| 0 <= j < i + 1 implies is_part(
                #[trigger] parts@[j],
                *m,
                packed@,
                plan[j],
            ) by {
                if j < i {
                    assert(parts@[j] == old_parts[j]);
                }
            }
        }
        i += 1;
    }
    let h = rar13_catalog_header(m, total as u64, chunks[0].data_offset);
    Ok(Rar13Emission { parts, entry: ArchiveEntry { header: h, chunks } })
}

/// A member to add. `civil` is its time in civil seconds.
pub struct Rar13Job {
    pub name: String,
    pub data: Vec<u8>,
    pub level: u8,
    pub civil: u32,
    pub comment: Option<Vec<u8>>,
}

/// The archive's settings that a member goes by.
#[derive(Clone, Copy)]
pub struct Rar13Settings<'a> {
    pub solid: bool,
    pub password: Option<&'a str>,
}

/// The view of an encoder's output.
pub open spec fn bytes_of(encoded: Option<Vec<u8>>) -> Option<Seq<u8>> {
    match encoded {
        Some(p) => Some(p@),
        None => None,
    }
}

/// The header extension of a member comment.
pub open spec fn comment_extra(comment: Option<Vec<u8>>) -> Seq<u8> {
    match comment {
        Some(c) => le_bytes(c@.len(), 2) + c@,
        None => Seq::empty(),
    }
}

/// The header of a member: a name that ends in a slash is a directory.
pub open spec fn is_rar13_header(
    m: MemberHeader<'_>,
    job: Rar13Job,
    settings: Rar13Settings<'_>,
    encoded: Option<Seq<u8>>,
) -> bool {
    &&& m.name@ == job.name@
    &&& m.file_time == spec_unix_to_dos_time(job.civil as int)
    &&& if ends_in_slash(job.name@) {
        &&& m.packed_size == 0 && m.unpacked_size == 0 && m.file_crc == 0
        &&& m.file_attr == 0x10 && m.flags == 0 && m.method == METHOD_STORE
        &&& m.extra@.len() == 0
    } else {
        let (payload, method) = rar13_payload_of(
            job.data@,
            job.level,
            settings.solid,
            encoded,
        );
        &&& m.packed_size == payload.len() && m.unpacked_size == job.data@.len()
        &&& m.file_crc == rolling_from(0, job.data@)
        &&& m.file_attr == 0x20
        &&& m.flags == spec_member_flags(
            settings.solid,
            method,
            job.comment is Some,
            settings.password is Some,
        )
        &&& m.method == method
        &&& m.extra@ == comment_extra(job.comment)
    }
}

/// A member's data on disk: none for a directory, else its payload,
/// encrypted where a password is set.
pub open spec fn disk_data(
    job: Rar13Job,
    settings: Rar13Settings<'_>,
    encoded: Option<Seq<u8>>,
) -> Seq<u8> {
    let payload = rar13_payload_of(job.data@, job.level, settings.solid, encoded).0;
    if ends_in_slash(job.name@) {
        Seq::empty()
    } else {
        match settings.password {
            Some(p) => rar13_encrypted(password_key(clamped(encode_utf8(p@))), payload),
            None => payload,
        }
    }
}

/// A member refused by its header, or by the volumes' size.
pub open spec fn is_rar13_refusal(
    e: RarError,
    m: MemberHeader<'_>,
    total: u64,
    out: Rar13Output,
) -> bool {
    match m.refusal() {
        Some(msg) => is_invalid_option(e, msg),
        None => fragments_of(m, total, out) is None && out.volume_size is Some
            && is_invalid_option(
            e,
            "volume size "@ + decimal(out.volume_size->Some_0 as nat)
                + " is too small for a RAR 1.3/1.4 member header"@,
        ),
    }
}

/// The flag of encryption is set where a password is.
proof fn lemma_password_flag(solid: bool, method: u8, comment: bool, password: bool)
    ensures
        (spec_member_flags(solid, method, comment, password) & LHD_PASSWORD != 0) == password,
{
    let a = bit(solid && method == METHOD_BEST, LHD_SOLID);
    let b = bit(comment, LHD_COMMENT);
    assert((0u8 == a || a == 0x10) && (0u8 == b || b == 0x08));
    assert((a == 0 || a == 0x10) && (b == 0 || b == 0x08) ==> (a | b | 0x04u8) & 0x04u8 != 0 && (a
        | b | 0u8) & 0x04u8 == 0) by (bit_vector);
}

/// Add a member. `encoded` is what the encoder made of the data, where the
/// level asks for compression and an attempt was sound. A member or comment
/// that is too large is refused, and what [`write_rar13_member`] refuses.
pub fn add_rar13_data(
    job: Rar13Job,
    settings: Rar13Settings<'_>,
    encoded: Option<Vec<u8>>,
    out: &Rar13Output,
) -> (r: RarResult<Rar13Emission>)
    requires
        encoded matches Some(p) ==> p@.len() <= u32::MAX,
        out.valid(),
        out.volume_index + disk_data(job, settings, bytes_of(encoded)).len() < usize::MAX,
    ensures
        ({
            let total = disk_data(job, settings, bytes_of(encoded)).len();
            match r {
                Ok(e) => job.data@.len() <= u32::MAX && exists|m: MemberHeader<'_>| #[trigger]
                    is_rar13_header(m, job, settings, bytes_of(encoded)) && m.refusal() is None
                        && is_rar13_emission(
                        e,
                        m,
                        disk_data(job, settings, bytes_of(encoded)),
                        *out,
                    ),
                Err(e) => if job.data@.len() > u32::MAX {
                    is_invalid_option(
                        e,
                        "RAR 1.3/1.4 members cannot exceed 4294967295 bytes (got "@ + decimal(
                            job.data@.len(),
                        ) + ")"@,
                    )
                } else if !ends_in_slash(job.name@) && job.comment is Some
                    && job.comment->Some_0@.len() > 0xffff {
                    is_invalid_option(
                        e,
                        "RAR 1.3/1.4 member comment is longer than 65535 bytes"@,
                    )
                } else {
                    exists|m: MemberHeader<'_>| #[trigger]
                        is_rar13_header(m, job, settings, bytes_of(encoded)) && is_rar13_refusal(
                            e,
                            m,
                            total as u64,
                            *out,
                        )
                },
            }
        }),
{
    let size = job.data.len();
    match ensure_member_size(size as u64) {
        Ok(_) => {},
        Err(e) => {
            return Err(e);
        },
    }
    let file_time = unix_to_dos_time(job.civil);
    let ghost enc = bytes_of(encoded);
    if is_directory_name(job.name.as_str()) {
        let none: [u8; 0] = [];
        let m = MemberHeader {
            name: job.name.as_str(),
            packed_size: 0,
            unpacked_size: 0,
            file_crc: 0,
            file_time,
            file_attr: 0x10,
            flags: 0,
            method: METHOD_STORE,
            extra: none.as_slice(),
        };
        assert(is_rar13_header(m, job, settings, enc));
        assert(none@ =~= disk_data(job, settings, enc));
        return write_rar13_member(&m, none.as_slice(), out);
    }
    let file_crc = file_checksum(job.data.as_slice());
    let ghost whole = job;
    let (payload, method) = rar13_payload(job.data, job.level, settings.solid, encoded);
    let flags = rar13_member_flags(
        settings.solid,
        method,
        job.comment.is_some(),
        settings.password.is_some(),
    );
    let extra = match build_file_comment(
        match &job.comment {
            Some(c) => Some(c.as_slice()),
            None => None,
        },
    ) {
        Ok(x) => x,
        Err(e) => {
            return Err(e);
        },
    };
    let m = MemberHeader {
        name: job.name.as_str(),
        packed_size: payload.len() as u64,
        unpacked_size: size as u64,
        file_crc,
        file_time,
        file_attr: 0x20,
        flags,
        method,
        extra: extra.as_slice(),
    };
    proof {
        lemma_password_flag(
            settings.solid,
            method,
            job.comment is Some,
            settings.password is Some,
        );
        if let Some(c) = job.comment {
            lemma_le_bytes_len(c@.len(), 2);
        }
        assert(extra@ =~= comment_extra(job.comment));
        assert(is_rar13_header(m, whole, settings, enc));
    }
    let data = match rar13_on_disk(payload.as_slice(), flags, settings.password) {
        Ok(d) => d,
        Err(e) => {
            assert(false);
            return Err(e);
        },
    };
    proof {
        assert(data@ == disk_data(whole, settings, enc));
        if settings.password is Some {
            lemma_rar13_roundtrip(
                password_key(clamped(encode_utf8(settings.password->Some_0@))),
                payload@,
            );
        }
    }
    write_rar13_member(&m, data.as_slice(), out)
}

/// A name without the slashes at its end.
pub open spec fn without_slashes(name: Seq<char>) -> Seq<char>
    decreases name.len(),
{
    if ends_in_slash(name) {
        without_slashes(name.drop_last())
    } else {
        name
    }
}

/// The name under which a directory is added: one slash at its end.
pub fn directory_name(name: &str) -> (r: String)
    ensures
        r@ == without_slashes(name@).push('/'),
{
    let mut n = name.unicode_len();
    proof {
        assert(name@.take(n as int) =~= name@);
    }
    while n > 0 && name.get_char(n - 1) == '/'
        invariant
            n <= name@.len(),
            without_slashes(name@.take(n as int)) == without_slashes(name@),
        decreases n,
    {
        proof {
            assert(name@.take(n as int).drop_last() =~= name@.take(n - 1));
        }
        n = n - 1;
    }
    let mut out = name.substring_char(0, n).to_owned();
    out.append("/");
    proof {
        reveal_strlit("/");
        assert(name@.subrange(0, n as int) =~= name@.take(n as int));
        assert(out@ =~= without_slashes(name@).push('/'));
    }
    out
}

/// Add a directory: a header without data.
pub fn write_rar13_dir_entry(
    name: &str,
    civil: u32,
    settings: Rar13Settings<'_>,
    out: &Rar13Output,
) -> (r: RarResult<Rar13Emission>)
    requires
        out.valid(),
        out.volume_index < usize::MAX,
    ensures
        exists|job: Rar13Job|
            {
                &&& job.name@ == without_slashes(name@).push('/')
                &&& job.civil == civil
                &&& job.data@.len() == 0 && job.level == 0 && job.comment is None
                &&& exists|m: MemberHeader<'_>| #[trigger]
                    is_rar13_header(m, job, settings, None) && match r {
                        Ok(e) => m.refusal() is None && is_rar13_emission(
                            e,
                            m,
                            Seq::empty(),
                            *out,
                        ),
                        Err(e) => is_rar13_refusal(e, m, 0, *out),
                    }
            },
{
    let job = Rar13Job {
        name: directory_name(name),
        data: Vec::new(),
        level: 0,
        civil,
        comment: None,
    };
    proof {
        assert(ends_in_slash(job.name@));
        assert(disk_data(job, settings, None) =~= Seq::<u8>::empty());
    }
    add_rar13_data(job, settings, None, out)
}

} // verus!
