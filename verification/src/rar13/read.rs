//! Reading a RAR 1.3/1.4 volume: its main header and its entries.

use crate::bytes::{read_u16, read_u32};
use crate::crypto::rar13::{rar13_decrypted, Rar13Cipher};
use crate::detect::RAR13_SIGNATURE;
use crate::engine::entry::ArchiveEntry;
use crate::error::{is_format, RarError, RarResult};
use crate::model::{DataChunk, FileHeader};
use crate::rar13::{
    LHD_COMMENT, LHD_SOLID, LHD_SPLIT_AFTER, MHD_COMMENT, MHD_PACK_COMMENT,
};
use crate::rar4::headers::field;
use crate::rar4::read::{is_limit, unexpected_eof};
use crate::shared::legacy_time::{dos_time_to_unix, spec_dos_time_to_unix};
use crate::unicode::{decode_system_ansi, legacy_text, legacy_text_from};
use vstd::prelude::*;
use vstd::slice::{slice_subrange, slice_to_vec};
use vstd::string::*;

verus! {

/// One volume: its main header's flags and extension, and its entries.
pub struct Volume {
    pub flags: u8,
    pub extra: Vec<u8>,
    pub entries: Vec<ArchiveEntry>,
}

/// The text of a member name: UTF-8 if it is, else what the system's code
/// page makes of it, else a stand-in.
pub fn decode_name(bytes: &[u8]) -> (r: String)
    ensures
        r@ == legacy_text(bytes@, None),
{
    let system = decode_system_ansi(bytes);
    decode_name_from(bytes, system)
}

/// The text of a member name, given what the system's code page makes of it.
pub fn decode_name_from(bytes: &[u8], system: Option<String>) -> (r: String)
    ensures
        r@ == legacy_text(
            bytes@,
            match system {
                Some(s) => Some(s@),
                None => None,
            },
        ),
{
    legacy_text_from(bytes, system)
}

/// The comment of a header extension: a length of 16 bits, and the bytes.
pub open spec fn extension_comment(extra: Seq<u8>) -> Option<Seq<u8>> {
    if extra.len() < 2 || 2 + field(extra, 0, 2) > extra.len() {
        None
    } else {
        Some(extra.subrange(2, 2 + field(extra, 0, 2) as int))
    }
}

/// Read the comment of a file header's extension.
pub fn parse_file_comment(extra: &[u8]) -> (r: Option<Vec<u8>>)
    ensures
        match (r, extension_comment(extra@)) {
            (Some(a), Some(b)) => a@ == b,
            (None, None) => true,
            _ => false,
        },
{
    let total = extra.len();
    if total < 2 {
        return None;
    }
    let n = read_u16(extra, 0) as usize;
    if n > total - 2 {
        return None;
    }
    Some(slice_to_vec(slice_subrange(extra, 2, 2 + n)))
}

/// The archive comment of a main header: none, text, or a payload that the
/// decoder has to unpack.
pub enum ArchiveComment {
    Absent,
    Plain(Vec<u8>),
    Packed { packed: Vec<u8>, unpacked_len: u16 },
}

/// The key of packed archive comments.
pub open spec fn comment_key() -> Seq<u8> {
    seq![0u8, 7u8, 77u8]
}

/// What is wrong with the archive comment of a main header, if anything.
pub open spec fn comment_fault(flags: u8, extra: Seq<u8>) -> Option<Seq<char>> {
    let n = field(extra, 0, 2);
    if flags & MHD_COMMENT == 0 {
        None
    } else if extra.len() < 2 {
        Some("RAR 1.3: comment size is missing"@)
    } else if flags & MHD_PACK_COMMENT != 0 {
        if n < 2 {
            Some("RAR 1.3: packed comment is shorter than its size field"@)
        } else if extra.len() < 4 || 2 + n > extra.len() {
            Some("RAR 1.3: packed comment is truncated"@)
        } else {
            None
        }
    } else if 2 + n > extra.len() {
        Some("RAR 1.3: comment is truncated"@)
    } else {
        None
    }
}

/// Read the archive comment of a main header. A packed one is decrypted with
/// the fixed comment key.
pub fn archive_comment(flags: u8, extra: &[u8]) -> (r: RarResult<ArchiveComment>)
    ensures
        match (r, comment_fault(flags, extra@)) {
            (Err(e), Some(m)) => is_format(e, m),
            (Ok(c), None) => if flags & MHD_COMMENT == 0 {
                c is Absent
            } else if flags & MHD_PACK_COMMENT != 0 {
                c matches ArchiveComment::Packed { packed, unpacked_len } && packed@
                    == rar13_decrypted(
                    comment_key(),
                    extra@.subrange(4, 2 + field(extra@, 0, 2) as int),
                ) && unpacked_len == field(extra@, 2, 2)
            } else {
                c matches ArchiveComment::Plain(text) && text@ == extra@.subrange(
                    2,
                    2 + field(extra@, 0, 2) as int,
                )
            },
            _ => false,
        },
{
    if flags & MHD_COMMENT == 0 {
        return Ok(ArchiveComment::Absent);
    }
    let total = extra.len();
    if total < 2 {
        return Err(RarError::format("RAR 1.3: comment size is missing"));
    }
    let n = read_u16(extra, 0) as usize;
    if flags & MHD_PACK_COMMENT != 0 {
        if n < 2 {
            return Err(
                RarError::format("RAR 1.3: packed comment is shorter than its size field"),
            );
        }
        if total < 4 || n > total - 2 {
            return Err(RarError::format("RAR 1.3: packed comment is truncated"));
        }
        let unpacked_len = read_u16(extra, 2);
        let mut packed = slice_to_vec(slice_subrange(extra, 4, 2 + n));
        Rar13Cipher::new_comment().decrypt_in_place(&mut packed);
        return Ok(ArchiveComment::Packed { packed, unpacked_len });
    }
    if n > total - 2 {
        return Err(RarError::format("RAR 1.3: comment is truncated"));
    }
    Ok(ArchiveComment::Plain(slice_to_vec(slice_subrange(extra, 2, 2 + n))))
}

/// What is wrong with the file header at `at`, if anything.
pub open spec fn member_fault(data: Seq<u8>, at: int) -> Option<Seq<char>> {
    let head = field(data, at + 10, 2);
    let packed = field(data, at, 4);
    if head < 21 + data[at + 19] || at + head > data.len() {
        Some("RAR 1.3: file header is truncated or shorter than its name"@)
    } else if at + head + packed > data.len() {
        Some("RAR 1.3: member data extends past the volume"@)
    } else {
        None
    }
}

/// Where the member at `at` ends.
pub open spec fn member_end(data: Seq<u8>, at: int) -> int {
    at + field(data, at + 10, 2) + field(data, at, 4)
}

/// `e` is the entry of the file header at `at`.
#[verifier::opaque]
pub open spec fn is_member(e: ArchiveEntry, data: Seq<u8>, at: int) -> bool {
    let h = e.header;
    let head = field(data, at + 10, 2);
    let flags = data[at + 17];
    let name_len = data[at + 19];
    let start = at + head;
    &&& h.name@ == legacy_text(data.subrange(at + 21, at + 21 + name_len), None)
    &&& h.packed_size == field(data, at, 4) && h.unpacked_size == field(data, at + 4, 4)
    &&& h.crc32_val == Some(field(data, at + 8, 2) as u32)
    &&& h.mtime == spec_dos_time_to_unix(field(data, at + 12, 4) as int)
    &&& h.attributes == data[at + 16]
    &&& h.is_directory == (data[at + 16] & 0x10 != 0)
    &&& h.flags == flags
    &&& h.comp_solid == (flags & LHD_SOLID != 0)
    &&& h.comp_method == data[at + 20]
    &&& h.data_offset == start
    &&& h.format_version == 3 && h.unp_ver == 15
    &&& match (
        h.comment,
        if flags & LHD_COMMENT != 0 {
            extension_comment(data.subrange(at + 21 + name_len, start))
        } else {
            None
        },
    ) {
        (Some(a), Some(b)) => a@ == b,
        (None, None) => true,
        _ => false,
    }
    &&& e.chunks@.len() == 1
    &&& ({
        let c = e.chunks@[0];
        &&& c.volume_index == 0 && c.data_offset == start && c.packed_size == field(data, at, 4)
        &&& c.crc32_val is None && c.is_final == (flags & LHD_SPLIT_AFTER == 0)
        &&& c.extra_data@.len() == 0
    })
    &&& h.hash_type == 0 && h.hash_value is None && h.comp_version == 0 && h.comp_dict_size == 0
    &&& h.host_os == 0 && h.file_flags == 0 && h.extra_data@.len() == 0
    &&& h.dict_size_bytes is None && h.mtime_ns is None && h.ctime is None && h.atime is None
    &&& h.owner is None && h.group is None && h.version is None && h.salt is None
    &&& h.legacy_head_crc is None
}

/// `entries` are the members from `from` to `to`.
pub open spec fn lists(data: Seq<u8>, from: int, entries: Seq<ArchiveEntry>, to: int) -> bool
    decreases entries.len(),
{
    if entries.len() == 0 {
        from == to
    } else {
        &&& from + 21 <= data.len()
        &&& member_fault(data, from) is None
        &&& is_member(entries[0], data, from)
        &&& lists(data, member_end(data, from), entries.drop_first(), to)
    }
}

proof fn lemma_lists_push(
    data: Seq<u8>,
    from: int,
    entries: Seq<ArchiveEntry>,
    at: int,
    e: ArchiveEntry,
)
    requires
        lists(data, from, entries, at),
        at + 21 <= data.len(),
        member_fault(data, at) is None,
        is_member(e, data, at),
    ensures
        lists(data, from, entries.push(e), member_end(data, at)),
    decreases entries.len(),
{
    if entries.len() == 0 {
        assert(entries.push(e).drop_first() =~= Seq::<ArchiveEntry>::empty());
        assert(lists(
            data,
            member_end(data, at),
            entries.push(e).drop_first(),
            member_end(data, at),
        ));
    } else {
        assert(entries.push(e).drop_first() =~= entries.drop_first().push(e));
        lemma_lists_push(data, member_end(data, from), entries.drop_first(), at, e);
    }
}

/// What is wrong with a volume's main header at `at`, if anything but a volume
/// that ends too soon.
pub open spec fn main_fault(data: Seq<u8>, at: int) -> Option<Seq<char>> {
    let head = field(data, at + 4, 2);
    if data.subrange(at, at + 4) != RAR13_SIGNATURE@ {
        Some("RAR 1.3: volume signature mismatch"@)
    } else if head < 7 || at + head > data.len() {
        Some("RAR 1.3: main header is truncated"@)
    } else {
        None
    }
}

/// `v` is the volume whose signature stands at `at`: its entries are all the
/// members up to its end.
pub open spec fn is_volume(v: Volume, data: Seq<u8>, at: int) -> bool {
    &&& at + 7 <= data.len()
    &&& main_fault(data, at) is None
    &&& v.flags == data[at + 6]
    &&& v.extra@ == data.subrange(at + 7, at + field(data, at + 4, 2))
    &&& exists|to: int| #[trigger]
        lists(data, at + field(data, at + 4, 2), v.entries@, to) && to + 21 > data.len()
}

/// Too many entries.
pub open spec fn is_over_cap(e: RarError, max_entries: usize) -> bool {
    is_limit(e, max_entries as u64, "archive entries"@)
}

/// Why a volume does not parse: it ends in its main header, that header or a
/// file header is at fault, or there are too many members.
pub open spec fn parse_fault(data: Seq<u8>, at: int, max_entries: usize, e: RarError) -> bool {
    ||| at + 7 > data.len() && e is Io
    ||| at + 7 <= data.len() && (main_fault(data, at) matches Some(m) && is_format(e, m))
    ||| at + 7 <= data.len() && main_fault(data, at) is None && exists|
        entries: Seq<ArchiveEntry>,
        to: int,
    | #[trigger]
        lists(data, at + field(data, at + 4, 2), entries, to) && {
            ||| entries.len() <= max_entries && to + 21 <= data.len() && (member_fault(
                data,
                to,
            ) matches Some(m) && is_format(e, m))
            ||| entries.len() == max_entries + 1 && is_over_cap(e, max_entries)
        }
}

fn parse_member(data: &[u8], at: usize) -> (r: RarResult<ArchiveEntry>)
    requires
        at + 21 <= data@.len(),
    ensures
        match (r, member_fault(data@, at as int)) {
            (Ok(e), None) => is_member(e, data@, at as int) && e.header.data_offset
                + e.header.packed_size == member_end(data@, at as int) && member_end(
                data@,
                at as int,
            ) <= data@.len() && at + 21 <= e.header.data_offset,
            (Err(e), Some(m)) => is_format(e, m),
            _ => false,
        },
{
    reveal(is_member);
    let total = data.len();
    let pack_size = read_u32(data, at);
    let unp_size = read_u32(data, at + 4);
    let file_crc = read_u16(data, at + 8);
    let head = read_u16(data, at + 10) as usize;
    let file_time = read_u32(data, at + 12);
    let file_attr = data[at + 16];
    let flags = data[at + 17];
    let name_size = data[at + 19] as usize;
    let method = data[at + 20];
    if head < 21 + name_size || head > total - at {
        return Err(
            RarError::format("RAR 1.3: file header is truncated or shorter than its name"),
        );
    }
    let start = at + head;
    if pack_size as u64 > (total - start) as u64 {
        return Err(RarError::format("RAR 1.3: member data extends past the volume"));
    }
    let name = decode_name(slice_subrange(data, at + 21, at + 21 + name_size));
    let comment = if flags & LHD_COMMENT != 0 {
        parse_file_comment(slice_subrange(data, at + 21 + name_size, start))
    } else {
        None
    };
    let mut h: FileHeader = Default::default();
    h.name = name;
    h.unpacked_size = unp_size as u64;
    h.packed_size = pack_size as u64;
    h.attributes = file_attr as u64;
    h.mtime = dos_time_to_unix(file_time);
    h.crc32_val = Some(file_crc as u32);
    h.comp_method = method;
    h.comp_solid = flags & LHD_SOLID != 0;
    h.flags = flags as u64;
    h.is_directory = file_attr & 0x10 != 0;
    h.data_offset = start as u64;
    h.format_version = 3;
    h.unp_ver = 15;
    h.comment = comment;
    let mut chunks: Vec<DataChunk> = Vec::new();
    chunks.push(
        DataChunk {
            volume_index: 0,
            data_offset: start as u64,
            packed_size: pack_size as u64,
            crc32_val: None,
            is_final: flags & LHD_SPLIT_AFTER == 0,
            extra_data: Vec::new(),
        },
    );
    Ok(ArchiveEntry { header: h, chunks })
}

/// Parse one volume's bytes from `offset` on, where its signature stands. At
/// most `max_entries` entries are accepted.
#[verifier::rlimit(30)]
pub fn parse_volume(data: &[u8], offset: usize, max_entries: usize) -> (r: RarResult<Volume>)
    requires
        offset <= data@.len(),
    ensures
        match r {
            Ok(v) => is_volume(v, data@, offset as int) && v.entries@.len() <= max_entries,
            Err(e) => parse_fault(data@, offset as int, max_entries, e),
        },
{
    let total = data.len();
    if total - offset < 7 {
        return Err(RarError::Io(unexpected_eof()));
    }
    let sig = slice_subrange(data, offset, offset + 4);
    let same = sig[0] == 0x52 && sig[1] == 0x45 && sig[2] == 0x7e && sig[3] == 0x5e;
    proof {
        let want = RAR13_SIGNATURE@;
        assert(want[0] == 0x52 && want[1] == 0x45 && want[2] == 0x7e && want[3] == 0x5e);
        if same {
            assert(sig@ =~= want);
        }
    }
    if !same {
        return Err(RarError::format("RAR 1.3: volume signature mismatch"));
    }
    let head = read_u16(data, offset + 4) as usize;
    let flags = data[offset + 6];
    if head < 7 || head > total - offset {
        return Err(RarError::format("RAR 1.3: main header is truncated"));
    }
    let extra = slice_to_vec(slice_subrange(data, offset + 7, offset + head));
    let mut entries: Vec<ArchiveEntry> = Vec::new();
    let mut pos: usize = offset + head;
    let ghost from = pos as int;
    while pos <= total && total - pos >= 21
        invariant
            total == data@.len(),
            offset + 7 <= total,
            from == offset + field(data@, offset + 4, 2),
            main_fault(data@, offset as int) is None,
            pos <= total,
            entries@.len() <= max_entries,
            lists(data@, from, entries@, pos as int),
        decreases total - pos,
    {
        let entry = match parse_member(data, pos) {
            Ok(e) => e,
            Err(e) => {
                assert(lists(data@, from, entries@, pos as int));
                return Err(e);
            },
        };
        let ghost before = entries@;
        let ghost at = pos as int;
        let ghost e = entry;
        let end = entry.header.data_offset + entry.header.packed_size;
        entries.push(entry);
        pos = end as usize;
        proof {
            lemma_lists_push(data@, from, before, at, e);
        }
        if entries.len() > max_entries {
            return Err(RarError::limit_exceeded(max_entries as u64, "archive entries"));
        }
    }
    assert(lists(data@, offset + field(data@, offset + 4, 2), entries@, pos as int));
    let v = Volume { flags, extra, entries };
    proof {
        let head = field(data@, offset + 4, 2) as int;
        assert(v.extra@ == data@.subrange(offset + 7, offset + head));
        assert(lists(data@, offset + head, v.entries@, pos as int));
        assert(pos + 21 > data@.len());
    }
    assert(is_volume(v, data@, offset as int));
    Ok(v)
}

} // verus!
