//! Header blocks: building them, and reading a file header's fields.

use crate::bytes::{
    le_bytes, le_value, lemma_byte_ranges, lemma_le_bytes_len, lemma_le_roundtrip, push_le,
    read_u16, read_u32,
};
use crate::crypto::cbc::array_at;
use crate::error::{is_format, RarError, RarResult};
use crate::model::FileHeader;
use crate::rar4::comment::{file_comment_at, parse_file_comment};
use crate::rar4::envelope::{envelope_fault, Rar4Block};
use crate::rar4::ext_time::{
    area_end, ext_time_area_end, extract_mtime_refinement, refinement,
};
use crate::rar4::names::{decode_file_name, name_of};
use crate::rar4::{
    ENDARC_HEAD, FHD_COMMENT, FHD_EXTTIME, FHD_LARGE, FHD_SALT, FHD_SOLID, FHD_SPLIT_AFTER,
    FHD_SPLIT_BEFORE, FILE_HEAD, LONG_BLOCK, MAIN_HEAD,
};
use crate::shared::checksum::{crc16_of, header_crc16};
use crate::shared::legacy_time::{dos_time_to_unix, spec_dos_time_to_unix};
use vstd::prelude::*;
use vstd::slice::{slice_subrange, slice_to_vec};
use vstd::string::*;

verus! {

/// A block header: the checksum of its body, and the body.
pub open spec fn checked_block(body: Seq<u8>) -> Seq<u8> {
    le_bytes(crc16_of(body) as nat, 2) + body
}

/// `n` zero bytes.
pub open spec fn zeros(n: nat) -> Seq<u8> {
    Seq::new(n, |i: int| 0u8)
}

fn with_checksum(body: &[u8]) -> (r: Vec<u8>)
    ensures
        r@ == checked_block(body@),
{
    let mut out: Vec<u8> = Vec::new();
    push_le(&mut out, header_crc16(body) as u64, 2);
    out.extend_from_slice(body);
    assert(out@ =~= checked_block(body@));
    out
}

fn push_zeros(out: &mut Vec<u8>, n: usize)
    ensures
        final(out)@ == old(out)@ + zeros(n as nat),
{
    let ghost before = out@;
    let mut i: usize = 0;
    assert(out@ =~= before + zeros(0));
    while i < n
        invariant
            i <= n,
            out@ == before + zeros(i as nat),
        decreases n - i,
    {
        out.push(0);
        i += 1;
        assert(out@ =~= before + zeros(i as nat));
    }
}

/// The body of a main header.
pub open spec fn main_body(flags: u16) -> Seq<u8> {
    seq![MAIN_HEAD] + le_bytes(flags as nat, 2) + le_bytes(13, 2) + zeros(6)
}

/// Build a main header. It has no data area, so it never carries the flag of
/// one.
pub fn build_main_header(flags: u16) -> (r: [u8; 13])
    ensures
        r@ == checked_block(main_body(flags)),
{
    let mut body: Vec<u8> = Vec::new();
    body.push(MAIN_HEAD);
    push_le(&mut body, flags as u64, 2);
    push_le(&mut body, 13, 2);
    push_zeros(&mut body, 6);
    proof {
        lemma_le_bytes_len(flags as nat, 2);
        lemma_le_bytes_len(13, 2);
        lemma_le_bytes_len(crc16_of(body@) as nat, 2);
        assert(body@ =~= main_body(flags));
    }
    let out = with_checksum(body.as_slice());
    let r: [u8; 13] = array_at(out.as_slice(), 0);
    assert(r@ =~= out@);
    r
}

/// The body of the end-of-archive block of a single-volume archive.
pub open spec fn endarc_single_body() -> Seq<u8> {
    seq![ENDARC_HEAD] + le_bytes(0x4000, 2) + le_bytes(7, 2)
}

/// Build the end-of-archive block of a single-volume archive.
pub fn build_endarc_single() -> (r: [u8; 7])
    ensures
        r@ == checked_block(endarc_single_body()),
{
    let mut body: Vec<u8> = Vec::new();
    body.push(ENDARC_HEAD);
    push_le(&mut body, 0x4000, 2);
    push_le(&mut body, 7, 2);
    proof {
        lemma_le_bytes_len(0x4000, 2);
        lemma_le_bytes_len(7, 2);
        lemma_le_bytes_len(crc16_of(body@) as nat, 2);
        assert(body@ =~= endarc_single_body());
    }
    let out = with_checksum(body.as_slice());
    let r: [u8; 7] = array_at(out.as_slice(), 0);
    assert(r@ =~= out@);
    r
}

/// The body of the end-of-archive block of a volume: flags whose lowest bit
/// says that another volume follows, the checksum of what stands before the
/// block, the volume's number and seven zeros.
pub open spec fn endarc_body(next_volume: bool, prefix_crc32: u32, volume_index: u16) -> Seq<u8> {
    seq![ENDARC_HEAD] + le_bytes(
        if next_volume {
            0x400f
        } else {
            0x400e
        },
        2,
    ) + le_bytes(20, 2) + le_bytes(prefix_crc32 as nat, 4) + le_bytes(volume_index as nat, 2)
        + zeros(7)
}

/// Build the end-of-archive block of a volume.
pub fn build_endarc(next_volume: bool, prefix_crc32: u32, volume_index: u16) -> (r: [u8; 20])
    ensures
        r@ == checked_block(endarc_body(next_volume, prefix_crc32, volume_index)),
{
    let flags: u64 = if next_volume {
        0x400f
    } else {
        0x400e
    };
    let mut body: Vec<u8> = Vec::new();
    body.push(ENDARC_HEAD);
    push_le(&mut body, flags, 2);
    push_le(&mut body, 20, 2);
    push_le(&mut body, prefix_crc32 as u64, 4);
    push_le(&mut body, volume_index as u64, 2);
    push_zeros(&mut body, 7);
    proof {
        lemma_le_bytes_len(flags as nat, 2);
        lemma_le_bytes_len(20, 2);
        lemma_le_bytes_len(prefix_crc32 as nat, 4);
        lemma_le_bytes_len(volume_index as nat, 2);
        lemma_le_bytes_len(crc16_of(body@) as nat, 2);
        assert(body@ =~= endarc_body(next_volume, prefix_crc32, volume_index));
    }
    let out = with_checksum(body.as_slice());
    let r: [u8; 20] = array_at(out.as_slice(), 0);
    assert(r@ =~= out@);
    r
}

/// Bytes that a header takes on disk: as they are, or behind a salt and
/// padded to whole cipher blocks.
pub open spec fn on_disk_len(plain: int, encrypted: bool) -> int {
    if encrypted {
        8 + ((plain + 15) / 16) * 16
    } else {
        plain
    }
}

/// Bytes to keep free for a volume's end-of-archive block.
pub fn endarc_volume_reserve(header_encryption: bool) -> (r: u64)
    ensures
        r == on_disk_len(20, header_encryption),
        r == if header_encryption {
            40u64
        } else {
            20u64
        },
{
    if header_encryption {
        40
    } else {
        20
    }
}

/// Everything that a file header is built from.
pub struct FileHeaderParams<'a> {
    /// File header flags, without those of the data area and the window.
    pub flags: u16,
    /// Data size on disk.
    pub packed_size: u32,
    /// Uncompressed size.
    pub unpacked_size: u32,
    /// Host system (0 = DOS, 2 = Windows, 3 = Unix).
    pub host_os: u8,
    /// CRC-32 of the uncompressed data.
    pub file_crc: u32,
    /// DOS-format modification time.
    pub file_time: u32,
    /// Member version.
    pub unp_ver: u8,
    /// Method byte.
    pub method: u8,
    /// Name bytes, already encoded.
    pub name: &'a [u8],
    /// File attributes.
    pub attr: u32,
    /// Window-bits value: 0..=6 for dictionaries of 64 KiB to 4 MiB, 7 for a
    /// directory.
    pub window_bits: u8,
    /// Salt of an encrypted member.
    pub salt: Option<[u8; 8]>,
    /// Extended-time area.
    pub ext_time: Option<&'a [u8]>,
}

impl<'a> FileHeaderParams<'a> {
    /// The flags word that the header carries.
    pub open spec fn head_flags(self) -> u16 {
        self.flags | ((self.window_bits as u16) << 5) | LONG_BLOCK
    }

    /// The bytes of the salt.
    pub open spec fn salt_bytes(self) -> Seq<u8> {
        match self.salt {
            Some(s) => s@,
            None => Seq::empty(),
        }
    }

    /// The bytes of the extended-time area.
    pub open spec fn ext_bytes(self) -> Seq<u8> {
        match self.ext_time {
            Some(e) => e@,
            None => Seq::empty(),
        }
    }

    /// Length of the header.
    pub open spec fn head_size(self) -> nat {
        32 + self.name@.len() + self.salt_bytes().len() + self.ext_bytes().len()
    }

    /// The fixed fields behind the checksum.
    pub open spec fn fixed_fields(self) -> Seq<u8> {
        seq![FILE_HEAD] + le_bytes(self.head_flags() as nat, 2) + le_bytes(self.head_size(), 2)
            + le_bytes(self.packed_size as nat, 4) + le_bytes(self.unpacked_size as nat, 4) + seq![
            self.host_os,
        ] + le_bytes(self.file_crc as nat, 4) + le_bytes(self.file_time as nat, 4) + seq![
            self.unp_ver,
            self.method,
        ] + le_bytes(self.name@.len(), 2) + le_bytes(self.attr as nat, 4)
    }

    /// The header without its checksum.
    pub open spec fn body(self) -> Seq<u8> {
        self.fixed_fields() + self.name@ + self.salt_bytes() + self.ext_bytes()
    }
}

/// Build a file header.
pub fn build_file_header(p: &FileHeaderParams<'_>) -> (r: RarResult<Vec<u8>>)
    requires
        p.head_size() <= usize::MAX,
    ensures
        r is Ok,
        r->Ok_0@ == checked_block(p.body()),
        r->Ok_0@.len() == p.head_size(),
{
    let salt_len: usize = match p.salt {
        Some(_) => 8,
        None => 0,
    };
    let ext_len: usize = match p.ext_time {
        Some(e) => e.len(),
        None => 0,
    };
    let head_size = 32 + p.name.len() + salt_len + ext_len;
    let flags = p.flags | ((p.window_bits as u16) << 5) | LONG_BLOCK;
    let mut body: Vec<u8> = Vec::new();
    body.push(FILE_HEAD);
    push_le(&mut body, flags as u64, 2);
    push_le(&mut body, head_size as u64, 2);
    push_le(&mut body, p.packed_size as u64, 4);
    push_le(&mut body, p.unpacked_size as u64, 4);
    body.push(p.host_os);
    push_le(&mut body, p.file_crc as u64, 4);
    push_le(&mut body, p.file_time as u64, 4);
    body.push(p.unp_ver);
    body.push(p.method);
    push_le(&mut body, p.name.len() as u64, 2);
    push_le(&mut body, p.attr as u64, 4);
    assert(body@ =~= p.fixed_fields());
    body.extend_from_slice(p.name);
    if let Some(salt) = &p.salt {
        body.extend_from_slice(salt.as_slice());
    }
    if let Some(ext) = p.ext_time {
        body.extend_from_slice(ext);
    }
    assert(body@ =~= p.body());
    let out = with_checksum(body.as_slice());
    proof {
        lemma_fixed_len(*p);
        lemma_le_bytes_len(crc16_of(p.body()) as nat, 2);
    }
    Ok(out)
}

proof fn lemma_fixed_len(p: FileHeaderParams<'_>)
    ensures
        p.fixed_fields().len() == 30,
{
    lemma_le_bytes_len(p.head_flags() as nat, 2);
    lemma_le_bytes_len(p.head_size(), 2);
    lemma_le_bytes_len(p.packed_size as nat, 4);
    lemma_le_bytes_len(p.unpacked_size as nat, 4);
    lemma_le_bytes_len(p.file_crc as nat, 4);
    lemma_le_bytes_len(p.file_time as nat, 4);
    lemma_le_bytes_len(p.name@.len(), 2);
    lemma_le_bytes_len(p.attr as nat, 4);
}

/// The number in `n` bytes of `h` from `at` on.
pub open spec fn field(h: Seq<u8>, at: int, n: int) -> nat {
    le_value(h.subrange(at, at + n))
}

/// Where a file header's name starts.
pub open spec fn name_start(flags: u16) -> int {
    if flags & FHD_LARGE != 0 {
        40
    } else {
        32
    }
}

/// Where a file header's name ends.
pub open spec fn name_end(h: Seq<u8>, flags: u16) -> int {
    name_start(flags) + field(h, 26, 2)
}

/// Where a file header's salt ends.
pub open spec fn salt_end(h: Seq<u8>, flags: u16) -> int {
    if flags & FHD_SALT != 0 {
        name_end(h, flags) + 8
    } else {
        name_end(h, flags)
    }
}

/// Where a file header's extended-time area ends.
pub open spec fn ext_end(h: Seq<u8>, flags: u16) -> int {
    if flags & FHD_EXTTIME != 0 {
        area_end(h, salt_end(h, flags))
    } else {
        salt_end(h, flags)
    }
}

/// Where the checksum of a file header ends: a comment nested behind the
/// extended-time area has its own.
pub open spec fn crc_end(h: Seq<u8>) -> int {
    if h.len() < 32 {
        h.len() as int
    } else {
        let flags = field(h, 3, 2) as u16;
        if salt_end(h, flags) > h.len() {
            h.len() as int
        } else {
            ext_end(h, flags)
        }
    }
}

/// Where the checksum of a file header ends.
pub fn file_header_crc_end(header: &[u8]) -> (r: usize)
    ensures
        r == crc_end(header@),
        header@.len() >= 2 ==> 2 <= r,
        r <= header@.len(),
{
    let total = header.len();
    if total < 32 {
        return total;
    }
    let flags = read_u16(header, 3);
    let mut end: usize = 32;
    if flags & FHD_LARGE != 0 {
        end = end + 8;
    }
    end = end + read_u16(header, 26) as usize;
    if flags & FHD_SALT != 0 {
        end = end + 8;
    }
    if end > total {
        return total;
    }
    if flags & FHD_EXTTIME != 0 {
        ext_time_area_end(header, end)
    } else {
        end
    }
}

/// What is wrong with a file header, if anything.
pub open spec fn header_fault(h: Seq<u8>, flags: u16) -> Option<Seq<char>> {
    if h.len() < 32 {
        Some("RAR4: file header too short"@)
    } else if flags & LONG_BLOCK == 0 {
        Some("RAR4: file header missing data size"@)
    } else if flags & FHD_LARGE != 0 && h.len() < 40 {
        Some("RAR4: FHD_LARGE header too short for 64-bit sizes"@)
    } else if name_end(h, flags) > h.len() {
        Some("RAR4: file name extends past header"@)
    } else if salt_end(h, flags) > h.len() {
        Some("RAR4: salt extends past header"@)
    } else {
        None
    }
}

/// Whether a member is a directory, by its host system and attributes.
pub open spec fn names_directory(host_os: u8, attr: u32) -> bool {
    if host_os == 0 || host_os == 2 {
        attr & 0x10 != 0
    } else if host_os == 3 {
        (attr / 0x1_0000) & 0xf000 == 0x4000
    } else {
        false
    }
}

/// The member `fh` is the one that the file header `h` describes.
pub open spec fn describes(
    h: Seq<u8>,
    flags: u16,
    head_crc: u16,
    data_offset: u64,
    fh: FileHeader,
) -> bool {
    let large = flags & FHD_LARGE != 0;
    let ext = if flags & FHD_EXTTIME != 0 {
        h.skip(salt_end(h, flags))
    } else {
        Seq::empty()
    };
    let time = spec_dos_time_to_unix(field(h, 20, 4) as int);
    &&& fh.name@ == name_of(h.subrange(name_start(flags), name_end(h, flags)), flags)
    &&& fh.packed_size == field(h, 7, 4) + if large {
        0x1_0000_0000 * field(h, 32, 4)
    } else {
        0
    }
    &&& fh.unpacked_size == field(h, 11, 4) + if large {
        0x1_0000_0000 * field(h, 36, 4)
    } else {
        0
    }
    &&& fh.host_os == h[15]
    &&& fh.crc32_val == Some(field(h, 16, 4) as u32)
    &&& fh.mtime == (if refinement(ext).0 {
        (time + 1) % 0x1_0000_0000
    } else {
        time
    })
    &&& match (fh.mtime_ns, refinement(ext).1) {
        (Some(a), Some(b)) => a == b,
        (None, None) => true,
        _ => false,
    }
    &&& fh.unp_ver == h[24]
    &&& fh.comp_method == (h[25] - 0x30) % 256
    &&& fh.attributes == field(h, 28, 4)
    &&& fh.is_directory == names_directory(h[15], field(h, 28, 4) as u32)
    &&& match (fh.salt, flags & FHD_SALT != 0) {
        (Some(s), true) => s@ == h.subrange(name_end(h, flags), name_end(h, flags) + 8),
        (None, false) => true,
        _ => false,
    }
    &&& fh.extra_data@ == ext
    &&& match (
        fh.comment,
        if flags & FHD_COMMENT != 0 {
            file_comment_at(h, ext_end(h, flags))
        } else {
            None
        },
    ) {
        (Some(c), Some((text, _))) => c@ == text,
        (None, None) => true,
        _ => false,
    }
    &&& fh.comp_solid == (flags & FHD_SOLID != 0)
    &&& fh.comp_dict_size == (flags / 32) % 8
    &&& fh.flags == flags
    &&& fh.legacy_head_crc == Some(head_crc)
    &&& fh.data_offset == data_offset
    &&& fh.format_version == 4
    &&& fh.file_flags == 4 && fh.hash_type == 0 && fh.hash_value is None && fh.comp_version == 0
    &&& fh.dict_size_bytes is None && fh.ctime is None && fh.atime is None
    &&& fh.owner is None && fh.group is None && fh.version is None
}

fn is_directory(host_os: u8, attr: u32) -> (r: bool)
    ensures
        r == names_directory(host_os, attr),
{
    if host_os == 0 || host_os == 2 {
        attr & 0x10 != 0
    } else if host_os == 3 {
        (attr / 0x1_0000) & 0xf000 == 0x4000
    } else {
        false
    }
}

/// Read the fields of a file header.
#[verifier::rlimit(60)]
#[verifier::spinoff_prover]
pub fn parse_file_header(block: &Rar4Block) -> (r: RarResult<FileHeader>)
    ensures
        match (r, header_fault(block.header@, block.flags)) {
            (Ok(fh), None) => describes(
                block.header@,
                block.flags,
                block.head_crc,
                block.header_end,
                fh,
            ),
            (Err(e), Some(m)) => is_format(e, m),
            _ => false,
        },
{
    let h = block.header.as_slice();
    let flags = block.flags;
    let total = h.len();
    if total < 32 {
        return Err(RarError::format("RAR4: file header too short"));
    }
    if flags & LONG_BLOCK == 0 {
        return Err(RarError::format("RAR4: file header missing data size"));
    }
    let large = flags & FHD_LARGE != 0;
    if large && total < 40 {
        return Err(RarError::format("RAR4: FHD_LARGE header too short for 64-bit sizes"));
    }
    let pack_low = read_u32(h, 7) as u64;
    let unp_low = read_u32(h, 11) as u64;
    let host_os = h[15];
    let file_crc = read_u32(h, 16);
    let file_time = read_u32(h, 20);
    let unp_ver = h[24];
    let method = h[25];
    let name_size = read_u16(h, 26) as usize;
    let attr = read_u32(h, 28);
    let mut pos: usize = 32;
    let mut packed_size = pack_low;
    let mut unpacked_size = unp_low;
    if large {
        packed_size = 0x1_0000_0000 * (read_u32(h, 32) as u64) + pack_low;
        unpacked_size = 0x1_0000_0000 * (read_u32(h, 36) as u64) + unp_low;
        pos = 40;
    }
    let end = pos + name_size;
    if end > total {
        return Err(RarError::format("RAR4: file name extends past header"));
    }
    let name = decode_file_name(slice_subrange(h, pos, end), flags);
    pos = end;
    let salt: Option<[u8; 8]> = if flags & FHD_SALT != 0 {
        if total - pos < 8 {
            return Err(RarError::format("RAR4: salt extends past header"));
        }
        let s: [u8; 8] = array_at(h, pos);
        pos = pos + 8;
        Some(s)
    } else {
        None
    };
    assert(pos == salt_end(h@, flags));
    let times = flags & FHD_EXTTIME != 0;
    let ext_stop = if times {
        ext_time_area_end(h, pos)
    } else {
        pos
    };
    let comment = if flags & FHD_COMMENT != 0 {
        parse_file_comment(h, ext_stop).0
    } else {
        None
    };
    let ext_time: Vec<u8> = if times {
        let tail = slice_subrange(h, pos, total);
        assert(tail@ =~= h@.skip(pos as int));
        slice_to_vec(tail)
    } else {
        Vec::new()
    };
    let (add_second, mtime_ns) = extract_mtime_refinement(ext_time.as_slice());
    let time = dos_time_to_unix(file_time);
    let mtime = if !add_second {
        time
    } else if time == u32::MAX {
        0
    } else {
        time + 1
    };
    let directory = is_directory(host_os, attr);
    let mut fh: FileHeader = Default::default();
    fh.name = name;
    fh.unpacked_size = unpacked_size;
    fh.packed_size = packed_size;
    fh.attributes = attr as u64;
    fh.mtime = mtime;
    fh.crc32_val = Some(file_crc);
    fh.comp_method = method.wrapping_sub(0x30);
    fh.comp_solid = flags & FHD_SOLID != 0;
    fh.comp_dict_size = ((flags / 32) % 8) as u8;
    fh.host_os = host_os as u64;
    fh.flags = flags as u64;
    fh.file_flags = 4;
    fh.is_directory = directory;
    fh.data_offset = block.header_end;
    fh.format_version = 4;
    fh.mtime_ns = mtime_ns;
    fh.unp_ver = unp_ver;
    fh.salt = salt;
    fh.legacy_head_crc = Some(block.head_crc);
    fh.comment = comment;
    proof {
        let ext = if times {
            h@.skip(pos as int)
        } else {
            Seq::empty()
        };
        assert(ext_time@ =~= ext);
    }
    fh.extra_data = ext_time;
    Ok(fh)
}

/// The parameters make a header that can be read back: its length fits, and
/// the flags say what is there.
pub open spec fn readable(p: FileHeaderParams<'_>) -> bool {
    &&& p.head_size() <= 0xffff
    &&& p.window_bits < 8
    &&& p.flags & 0xe0 == 0
    &&& p.flags & FHD_LARGE == 0
    &&& p.flags & FHD_COMMENT == 0
    &&& p.flags & FHD_SALT != 0 <==> p.salt is Some
    &&& p.flags & FHD_EXTTIME != 0 <==> p.ext_time is Some
}

proof fn lemma_head_flags(f: u16, w: u16)
    requires
        w < 8,
        f & 0xe0 == 0,
    ensures
        ({
            let g = f | (w << 5) | 0x8000;
            &&& g & 0x8000 != 0
            &&& g & 0x100 == f & 0x100
            &&& g & 8 == f & 8
            &&& g & 1 == f & 1
            &&& g & 2 == f & 2
            &&& g & 0x400 == f & 0x400
            &&& g & 0x1000 == f & 0x1000
            &&& g & 0x10 == f & 0x10
            &&& g & 0x200 == f & 0x200
            &&& (g / 32) % 8 == w
        }),
{
    assert(w < 8 && f & 0xe0 == 0 ==> {
        let g = f | (w << 5) | 0x8000;
        &&& g & 0x8000 != 0
        &&& g & 0x100 == f & 0x100
        &&& g & 8 == f & 8
        &&& g & 1 == f & 1
        &&& g & 2 == f & 2
        &&& g & 0x400 == f & 0x400
        &&& g & 0x1000 == f & 0x1000
        &&& g & 0x10 == f & 0x10
        &&& g & 0x200 == f & 0x200
        &&& (g / 32) % 8 == w
    }) by (bit_vector);
}

/// A file header built is a sound block that announces its data.
#[verifier::rlimit(40)]
#[verifier::spinoff_prover]
pub proof fn lemma_file_header_sound(p: FileHeaderParams<'_>)
    requires
        readable(p),
    ensures
        ({
            let h = checked_block(p.body());
            &&& h.len() == p.head_size()
            &&& h[2] == FILE_HEAD
            &&& field(h, 3, 2) == p.head_flags()
            &&& field(h, 5, 2) == p.head_size()
            &&& crate::rar4::envelope::announced_size(h) == p.packed_size
            &&& envelope_fault(h, true) is None
            &&& header_fault(h, p.head_flags()) is None
            &&& p.head_flags() & FHD_SPLIT_BEFORE == p.flags & FHD_SPLIT_BEFORE
            &&& p.head_flags() & FHD_SPLIT_AFTER == p.flags & FHD_SPLIT_AFTER
        }),
{
    let body = p.body();
    let h = checked_block(body);
    let g = p.head_flags();
    lemma_head_flags(p.flags, p.window_bits as u16);
    lemma_fixed_len(p);
    lemma_byte_ranges();
    lemma_le_bytes_len(crc16_of(body) as nat, 2);
    lemma_le_bytes_len(g as nat, 2);
    lemma_le_bytes_len(p.head_size(), 2);
    lemma_le_bytes_len(p.packed_size as nat, 4);
    lemma_le_bytes_len(p.unpacked_size as nat, 4);
    lemma_le_bytes_len(p.file_crc as nat, 4);
    lemma_le_bytes_len(p.file_time as nat, 4);
    lemma_le_bytes_len(p.name@.len(), 2);
    lemma_le_roundtrip(crc16_of(body) as nat, 2);
    lemma_le_roundtrip(g as nat, 2);
    lemma_le_roundtrip(p.head_size(), 2);
    lemma_le_roundtrip(p.packed_size as nat, 4);
    lemma_le_roundtrip(p.name@.len(), 2);
    assert(h.subrange(0, 2) =~= le_bytes(crc16_of(body) as nat, 2));
    assert(h.subrange(3, 5) =~= le_bytes(g as nat, 2));
    assert(h.subrange(5, 7) =~= le_bytes(p.head_size(), 2));
    assert(h.subrange(7, 11) =~= le_bytes(p.packed_size as nat, 4));
    assert(h.subrange(26, 28) =~= le_bytes(p.name@.len(), 2));
    assert(h[2] == FILE_HEAD);
    assert(h.subrange(2, h.len() as int) =~= body);
}

/// A file header built is sound, and reading it gives the fields back.
#[verifier::rlimit(60)]
#[verifier::spinoff_prover]
pub proof fn lemma_file_header_roundtrip(
    p: FileHeaderParams<'_>,
    fh: FileHeader,
    head_crc: u16,
    data_offset: u64,
)
    requires
        readable(p),
        describes(checked_block(p.body()), p.head_flags(), head_crc, data_offset, fh),
    ensures
        envelope_fault(checked_block(p.body()), true) is None,
        header_fault(checked_block(p.body()), p.head_flags()) is None,
        fh.packed_size == p.packed_size,
        fh.unpacked_size == p.unpacked_size,
        fh.host_os == p.host_os,
        fh.crc32_val == Some(p.file_crc),
        fh.unp_ver == p.unp_ver,
        fh.comp_method == (p.method - 0x30) % 256,
        fh.attributes == p.attr,
        fh.comp_dict_size == p.window_bits,
        fh.comp_solid == (p.flags & FHD_SOLID != 0),
        fh.name@ == name_of(p.name@, p.head_flags()),
        fh.extra_data@ == p.ext_bytes(),
        match (fh.salt, p.salt) {
            (Some(a), Some(b)) => a@ == b@,
            (None, None) => true,
            _ => false,
        },
{
    let body = p.body();
    let h = checked_block(body);
    let g = p.head_flags();
    let fixed = p.fixed_fields();
    lemma_head_flags(p.flags, p.window_bits as u16);
    lemma_fixed_len(p);
    lemma_le_bytes_len(crc16_of(body) as nat, 2);
    lemma_byte_ranges();
    lemma_le_bytes_len(g as nat, 2);
    lemma_le_bytes_len(p.head_size(), 2);
    lemma_le_bytes_len(p.packed_size as nat, 4);
    lemma_le_bytes_len(p.unpacked_size as nat, 4);
    lemma_le_bytes_len(p.file_crc as nat, 4);
    lemma_le_bytes_len(p.file_time as nat, 4);
    lemma_le_bytes_len(p.name@.len(), 2);
    lemma_le_bytes_len(p.attr as nat, 4);
    lemma_le_roundtrip(crc16_of(body) as nat, 2);
    lemma_le_roundtrip(g as nat, 2);
    lemma_le_roundtrip(p.head_size(), 2);
    lemma_le_roundtrip(p.packed_size as nat, 4);
    lemma_le_roundtrip(p.unpacked_size as nat, 4);
    lemma_le_roundtrip(p.file_crc as nat, 4);
    lemma_le_roundtrip(p.name@.len(), 2);
    lemma_le_roundtrip(p.attr as nat, 4);
    assert(h.subrange(0, 2) =~= le_bytes(crc16_of(body) as nat, 2));
    assert(h.subrange(3, 5) =~= le_bytes(g as nat, 2));
    assert(h.subrange(5, 7) =~= le_bytes(p.head_size(), 2));
    assert(h.subrange(7, 11) =~= le_bytes(p.packed_size as nat, 4));
    assert(h.subrange(11, 15) =~= le_bytes(p.unpacked_size as nat, 4));
    assert(h.subrange(16, 20) =~= le_bytes(p.file_crc as nat, 4));
    assert(h.subrange(26, 28) =~= le_bytes(p.name@.len(), 2));
    assert(h.subrange(28, 32) =~= le_bytes(p.attr as nat, 4));
    assert(h[2] == FILE_HEAD);
    assert(h[15] == p.host_os);
    assert(h[24] == p.unp_ver);
    assert(h[25] == p.method);
    assert(h.subrange(2, h.len() as int) =~= body);
    let n = 32 + p.name@.len() as int;
    assert(h.subrange(32, n) =~= p.name@);
    if p.salt is Some {
        assert(h.subrange(n, n + 8) =~= p.salt_bytes());
    }
    if p.ext_time is Some {
        assert(h.skip(salt_end(h, g)) =~= p.ext_bytes());
    }
}

} // verus!
