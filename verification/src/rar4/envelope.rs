//! The block envelope: size guards, the 16-bit header checksum, header
//! encryption, and the one reader that every walk uses.

use crate::bytes::{read_u16, read_u32};
use crate::crypto::cbc::{
    cbc_decrypted, cbc_encrypted, decrypt_blocks_128, encrypt_blocks_128, prefixes_decrypt,
};
use crate::crypto::primitives::random_fill;
use crate::error::{is_crc, is_encrypted, is_format, RarError, RarResult};
use crate::rar4::headers::{crc_end, field, file_header_crc_end, on_disk_len};
use crate::rar4::{COMM_HEAD, FHD_COMMENT, FILE_HEAD, LONG_BLOCK, MAIN_HEAD, MARK_HEAD};
use crate::shared::checksum::{crc16_of, header_crc16};
use crate::text::{decimal, prefixed_hex, with_hex, with_number};
use vstd::prelude::*;
use vstd::slice::{slice_subrange, slice_to_vec};
use vstd::string::*;

verus! {

/// A block as read.
#[derive(Debug, Clone)]
pub struct Rar4Block {
    pub head_crc: u16,
    pub head_type: u8,
    pub flags: u16,
    /// Where the block starts.
    pub offset: u64,
    /// Where the block's data area starts.
    pub header_end: u64,
    /// Bytes on disk, header and data area.
    pub total_size: u64,
    /// Length of the data area.
    pub add_size: u64,
    /// Plaintext header bytes.
    pub header: Vec<u8>,
    /// Header bytes as they stand on disk, where they were asked for.
    pub raw_header: Option<Vec<u8>>,
}

impl Rar4Block {
    /// Bytes that the header takes on disk.
    pub fn on_disk_header(&self) -> (r: u64)
        requires
            self.offset <= self.header_end,
        ensures
            r == self.header_end - self.offset,
    {
        self.header_end - self.offset
    }

    /// Where the block's data area starts.
    pub fn data_offset(&self) -> (r: u64)
        ensures
            r == self.header_end,
    {
        self.header_end
    }

    /// Where the block ends.
    pub fn end(&self) -> (r: u64)
        requires
            self.offset + self.total_size <= u64::MAX,
        ensures
            r == self.offset + self.total_size,
    {
        self.offset + self.total_size
    }

    /// The header bytes as they stand on disk; the plaintext ones where they
    /// were not kept.
    pub fn raw_header(&self) -> (r: &[u8])
        ensures
            r@ == match self.raw_header {
                Some(raw) => raw@,
                None => self.header@,
            },
    {
        match &self.raw_header {
            Some(raw) => raw.as_slice(),
            None => self.header.as_slice(),
        }
    }
}

/// What one block read verifies and keeps.
#[derive(Clone, Copy)]
pub struct EnvelopePolicy {
    /// Check the header's checksum.
    pub verify_crc: bool,
    /// Keep the header bytes as they stand on disk.
    pub retain_raw: bool,
}

impl EnvelopePolicy {
    /// A fresh archive scan.
    pub fn scan() -> (r: EnvelopePolicy)
        ensures
            r.verify_crc,
            !r.retain_raw,
    {
        EnvelopePolicy { verify_crc: true, retain_raw: false }
    }

    /// A byte-exact rewrite of headers that a scan has verified.
    pub fn edit() -> (r: EnvelopePolicy)
        ensures
            !r.verify_crc,
            r.retain_raw,
    {
        EnvelopePolicy { verify_crc: false, retain_raw: true }
    }

    /// A walk of headers that a scan has verified.
    pub fn plan() -> (r: EnvelopePolicy)
        ensures
            !r.verify_crc,
            !r.retain_raw,
    {
        EnvelopePolicy { verify_crc: false, retain_raw: false }
    }

    /// A scan of a damaged archive.
    pub fn repair() -> (r: EnvelopePolicy)
        ensures
            !r.verify_crc,
            !r.retain_raw,
    {
        EnvelopePolicy { verify_crc: false, retain_raw: false }
    }
}

/// Where the checksum of a header ends: a nested comment has its own.
pub open spec fn covered_end(header: Seq<u8>, head_type: u8, flags: u16) -> int {
    let short = if header.len() < 13 {
        header.len() as int
    } else {
        13
    };
    if head_type == MAIN_HEAD && flags & 2 != 0 {
        short
    } else if head_type == FILE_HEAD && flags & FHD_COMMENT != 0 {
        crc_end(header)
    } else if head_type == COMM_HEAD {
        short
    } else {
        header.len() as int
    }
}

/// Whether a block's checksum means anything: the marker and the signature
/// blocks have none, and 0xFFFF says that there is none.
pub open spec fn is_covered(head_type: u8, head_crc: u16) -> bool {
    head_type != MARK_HEAD && head_type != 0x76 && head_type != 0x79 && head_crc != 0xffff
}

/// What is wrong with a plaintext header.
pub enum EnvelopeFault {
    Format(Seq<char>),
    Checksum(u16, u16, Seq<char>),
}

/// What is wrong with a plaintext header, if anything.
pub open spec fn envelope_fault(header: Seq<u8>, verify_crc: bool) -> Option<EnvelopeFault> {
    let head_crc = field(header, 0, 2) as u16;
    let head_type = header[2];
    let flags = field(header, 3, 2) as u16;
    let head_size = field(header, 5, 2);
    let actual = crc16_of(header.subrange(2, covered_end(header, head_type, flags)));
    if header.len() < 7 {
        Some(EnvelopeFault::Format("RAR4: truncated block header"@))
    } else if head_size < 7 {
        Some(
            EnvelopeFault::Format("RAR4: block head_size "@ + decimal(head_size) + " too small"@),
        )
    } else if header.len() < head_size {
        Some(EnvelopeFault::Format("RAR4: truncated block header"@))
    } else if verify_crc && is_covered(head_type, head_crc) && actual != head_crc {
        Some(
            EnvelopeFault::Checksum(
                head_crc,
                actual,
                "RAR4 block type "@ + prefixed_hex(head_type as nat) + " header"@,
            ),
        )
    } else if flags & LONG_BLOCK != 0 && header.len() < 11 {
        Some(EnvelopeFault::Format("RAR4: header missing LONG_BLOCK size"@))
    } else {
        None
    }
}

/// Length of the data area that a header announces.
pub open spec fn announced_size(header: Seq<u8>) -> int {
    if field(header, 3, 2) as u16 & LONG_BLOCK != 0 {
        field(header, 7, 4) as int
    } else {
        0
    }
}

/// `block` is the block of a plaintext header at `start` that takes `prefix`
/// bytes on disk.
pub open spec fn is_block(block: Rar4Block, start: int, header: Seq<u8>, prefix: int) -> bool {
    &&& block.head_crc == field(header, 0, 2)
    &&& block.head_type == header[2]
    &&& block.flags == field(header, 3, 2)
    &&& block.offset == start
    &&& block.header_end == start + prefix
    &&& block.add_size == announced_size(header)
    &&& block.total_size == prefix + announced_size(header)
    &&& block.header@ == header
}

/// `e` reports the fault `f`.
pub open spec fn reports(e: RarError, f: EnvelopeFault) -> bool {
    match f {
        EnvelopeFault::Format(m) => is_format(e, m),
        EnvelopeFault::Checksum(stored, actual, context) => is_crc(
            e,
            stored as u32,
            actual as u32,
            context,
        ),
    }
}

fn header_crc_end(header: &[u8], head_type: u8, flags: u16) -> (r: usize)
    requires
        header@.len() >= 7,
    ensures
        r == covered_end(header@, head_type, flags),
        2 <= r <= header@.len(),
{
    let total = header.len();
    let short = if total < 13 {
        total
    } else {
        13
    };
    if head_type == MAIN_HEAD && flags & 2 != 0 {
        short
    } else if head_type == FILE_HEAD && flags & FHD_COMMENT != 0 {
        file_header_crc_end(header)
    } else if head_type == COMM_HEAD {
        short
    } else {
        total
    }
}

/// Parse and check a block from a whole plaintext header, which takes
/// `on_disk_prefix` bytes on disk.
pub fn read_envelope(start: u64, header: Vec<u8>, on_disk_prefix: u64, verify_crc: bool) -> (r:
    RarResult<Rar4Block>)
    requires
        start + on_disk_prefix + 0xffff_ffff <= u64::MAX,
    ensures
        match (r, envelope_fault(header@, verify_crc)) {
            (Ok(b), None) => is_block(b, start as int, header@, on_disk_prefix as int)
                && b.raw_header is None,
            (Err(e), Some(f)) => reports(e, f),
            _ => false,
        },
{
    let total = header.len();
    if total < 7 {
        return Err(RarError::format("RAR4: truncated block header"));
    }
    let head_crc = read_u16(header.as_slice(), 0);
    let head_type = header[2];
    let flags = read_u16(header.as_slice(), 3);
    let head_size = read_u16(header.as_slice(), 5);
    if head_size < 7 {
        return Err(
            RarError::Format(with_number("RAR4: block head_size ", head_size as u64, " too small")),
        );
    }
    if total < head_size as usize {
        return Err(RarError::format("RAR4: truncated block header"));
    }
    if verify_crc && head_type != MARK_HEAD && head_type != 0x76 && head_type != 0x79 && head_crc
        != 0xffff {
        let end = header_crc_end(header.as_slice(), head_type, flags);
        let actual = header_crc16(slice_subrange(header.as_slice(), 2, end));
        if actual != head_crc {
            let context = with_hex("RAR4 block type ", head_type as u64, " header");
            return Err(
                RarError::Crc { expected: head_crc as u32, actual: actual as u32, context },
            );
        }
    }
    let mut add_size: u64 = 0;
    if flags & LONG_BLOCK != 0 {
        if total < 11 {
            return Err(RarError::format("RAR4: header missing LONG_BLOCK size"));
        }
        add_size = read_u32(header.as_slice(), 7) as u64;
    }
    Ok(
        Rar4Block {
            head_crc,
            head_type,
            flags,
            offset: start,
            header_end: start + on_disk_prefix,
            total_size: on_disk_prefix + add_size,
            add_size,
            header,
            raw_header: None,
        },
    )
}

/// The plaintext header of the block at `start` of a volume, or what is wrong
/// with it; nothing at the volume's end.
pub open spec fn plain_header(data: Seq<u8>, start: int) -> Result<Option<Seq<u8>>, Seq<char>> {
    let left = data.len() - start;
    let size = field(data, start + 5, 2);
    if left <= 0 {
        Ok(None)
    } else if left < 7 {
        Err("RAR4: truncated block header"@)
    } else if size < 7 {
        Err("RAR4: block head_size "@ + decimal(size) + " too small"@)
    } else if left < size {
        Err("RAR4: truncated block header"@)
    } else {
        Ok(Some(data.subrange(start, start + size)))
    }
}

/// What reading the plaintext block at `start` comes to.
pub open spec fn plain_read(
    data: Seq<u8>,
    start: int,
    policy: EnvelopePolicy,
    r: RarResult<Option<Rar4Block>>,
) -> bool {
    match plain_header(data, start) {
        Err(m) => r is Err && is_format(r->Err_0, m),
        Ok(None) => r matches Ok(None),
        Ok(Some(h)) => match (r, envelope_fault(h, policy.verify_crc)) {
            (Ok(Some(b)), None) => {
                &&& is_block(b, start, h, h.len() as int)
                &&& match b.raw_header {
                    Some(raw) => policy.retain_raw && raw@ == h,
                    None => !policy.retain_raw,
                }
            },
            (Err(e), Some(f)) => reports(e, f),
            _ => false,
        },
    }
}

fn read_plain_block(data: &[u8], start: usize, policy: EnvelopePolicy) -> (r: RarResult<
    Option<Rar4Block>,
>)
    requires
        start <= data@.len() <= 0x7fff_ffff_ffff_ffff,
    ensures
        plain_read(data@, start as int, policy, r),
{
    let total = data.len();
    if start >= total {
        return Ok(None);
    }
    let left = total - start;
    if left < 7 {
        return Err(RarError::format("RAR4: truncated block header"));
    }
    let head_size = read_u16(data, start + 5) as usize;
    if head_size < 7 {
        return Err(
            RarError::Format(with_number("RAR4: block head_size ", head_size as u64, " too small")),
        );
    }
    if left < head_size {
        return Err(RarError::format("RAR4: truncated block header"));
    }
    let header = slice_to_vec(slice_subrange(data, start, start + head_size));
    let ghost h = header@;
    proof {
        assert(h.subrange(5, 7) =~= data@.subrange(start + 5, start + 7));
    }
    match read_envelope(start as u64, header, head_size as u64, policy.verify_crc) {
        Ok(b) => {
            let mut block = b;
            if policy.retain_raw {
                let raw = slice_to_vec(block.header.as_slice());
                block.raw_header = Some(raw);
            }
            Ok(Some(block))
        },
        Err(e) => Err(e),
    }
}

/// The key and vector of header encryption, as derived for one salt.
pub struct HeaderKey {
    pub key: [u8; 16],
    pub iv: [u8; 16],
}

/// The plaintext header of an encrypted block.
pub enum DecryptedHeader {
    /// The volume ends.
    End,
    /// The volume ends inside the salt or the first cipher block.
    Truncated,
    /// The first cipher block decrypts to nothing sensible, or the volume
    /// ends inside the header that it announces: both are what a wrong
    /// password looks like.
    WrongPassword,
    /// The plaintext header, and its length on disk.
    Header(Seq<u8>, int),
}

/// The plaintext header of the encrypted block at `start`: a salt of eight
/// bytes, and the header, padded to whole cipher blocks and encrypted.
pub open spec fn decrypted_header(
    data: Seq<u8>,
    start: int,
    key: Seq<u8>,
    iv: Seq<u8>,
) -> DecryptedHeader {
    let left = data.len() - start;
    let first = cbc_decrypted(key, iv, data.subrange(start + 8, start + 24));
    let size = field(first, 5, 2);
    let disk = on_disk_len(size as int, true);
    if left <= 0 {
        DecryptedHeader::End
    } else if left < 24 {
        DecryptedHeader::Truncated
    } else if size < 7 || left < disk {
        DecryptedHeader::WrongPassword
    } else {
        DecryptedHeader::Header(
            cbc_decrypted(key, iv, data.subrange(start + 8, start + disk)).take(size as int),
            disk,
        )
    }
}

/// What reading the encrypted block at `start` comes to. A checksum that does
/// not match is what a wrong password looks like, and where checksums are
/// verified a header that makes no sense is too.
pub open spec fn encrypted_read(
    data: Seq<u8>,
    start: int,
    key: HeaderKey,
    policy: EnvelopePolicy,
    r: RarResult<Option<Rar4Block>>,
) -> bool {
    match decrypted_header(data, start, key.key@, key.iv@) {
        DecryptedHeader::End => r matches Ok(None),
        DecryptedHeader::Truncated => r is Err && is_format(
            r->Err_0,
            "RAR4: truncated encrypted block header"@,
        ),
        DecryptedHeader::WrongPassword => r matches Err(RarError::WrongPassword),
        DecryptedHeader::Header(h, disk) => match (r, envelope_fault(h, policy.verify_crc)) {
            (Ok(Some(b)), None) => {
                &&& is_block(b, start, h, disk)
                &&& match b.raw_header {
                    Some(raw) => policy.retain_raw && raw@ == data.subrange(start, start + disk),
                    None => !policy.retain_raw,
                }
            },
            (Err(e), Some(EnvelopeFault::Checksum(_, _, _))) => e is WrongPassword,
            (Err(e), Some(f)) => if policy.verify_crc {
                e is WrongPassword
            } else {
                reports(e, f)
            },
            _ => false,
        },
    }
}

/// The salt of the encrypted block at `start`; none at the volume's end.
pub fn encrypted_salt(data: &[u8], start: usize) -> (r: RarResult<Option<[u8; 8]>>)
    requires
        start <= data@.len(),
    ensures
        match r {
            Ok(Some(salt)) => data@.len() - start >= 24 && salt@ == data@.subrange(
                start as int,
                start + 8,
            ),
            Ok(None) => start == data@.len(),
            Err(e) => 0 < data@.len() - start < 24 && is_format(
                e,
                "RAR4: truncated encrypted block header"@,
            ),
        },
{
    let left = data.len() - start;
    if left == 0 {
        return Ok(None);
    }
    if left < 24 {
        return Err(RarError::format("RAR4: truncated encrypted block header"));
    }
    let salt: [u8; 8] = crate::crypto::cbc::array_at(data, start);
    Ok(Some(salt))
}

#[verifier::rlimit(30)]
fn read_encrypted_block(data: &[u8], start: usize, key: &HeaderKey, policy: EnvelopePolicy) -> (r:
    RarResult<Option<Rar4Block>>)
    requires
        start <= data@.len() <= 0x7fff_ffff_ffff_ffff,
    ensures
        encrypted_read(data@, start as int, *key, policy, r),
{
    let left = data.len() - start;
    if left == 0 {
        return Ok(None);
    }
    if left < 24 {
        return Err(RarError::format("RAR4: truncated encrypted block header"));
    }
    let mut first = slice_to_vec(slice_subrange(data, start + 8, start + 24));
    decrypt_blocks_128(&mut first, &key.key, &key.iv);
    let head_size = read_u16(first.as_slice(), 5) as usize;
    if head_size < 7 {
        return Err(RarError::WrongPassword);
    }
    let disk = 8 + (head_size + 15) / 16 * 16;
    if left < disk {
        return Err(RarError::WrongPassword);
    }
    let mut plain = slice_to_vec(slice_subrange(data, start + 8, start + disk));
    decrypt_blocks_128(&mut plain, &key.key, &key.iv);
    let header = slice_to_vec(slice_subrange(plain.as_slice(), 0, head_size));
    proof {
        assert(header@ =~= plain@.take(head_size as int));
    }
    match read_envelope(start as u64, header, disk as u64, policy.verify_crc) {
        Ok(b) => {
            let mut block = b;
            if policy.retain_raw {
                let raw = slice_to_vec(slice_subrange(data, start, start + disk));
                block.raw_header = Some(raw);
            }
            Ok(Some(block))
        },
        Err(e) => match e {
            RarError::Crc { expected: _, actual: _, context: _ } => Err(RarError::WrongPassword),
            RarError::Format(m) => if policy.verify_crc {
                Err(RarError::WrongPassword)
            } else {
                Err(RarError::Format(m))
            },
            other => Err(other),
        },
    }
}

/// What reading the block at `start` comes to. An encrypted block needs a
/// key.
pub open spec fn block_read(
    data: Seq<u8>,
    start: int,
    encrypted: bool,
    key: Option<HeaderKey>,
    policy: EnvelopePolicy,
    r: RarResult<Option<Rar4Block>>,
) -> bool {
    if !encrypted {
        plain_read(data, start, policy, r)
    } else {
        match key {
            Some(k) => encrypted_read(data, start, k, policy, r),
            None => r is Err && is_encrypted(
                r->Err_0,
                "RAR4: header-encrypted archive, a password is required"@,
            ),
        }
    }
}

/// Read the block at `start` of a volume's bytes. The next block is read at
/// its end. Nothing is read at the volume's end.
pub fn read_block(
    data: &[u8],
    start: usize,
    encrypted: bool,
    key: Option<&HeaderKey>,
    policy: EnvelopePolicy,
) -> (r: RarResult<Option<Rar4Block>>)
    requires
        start <= data@.len() <= 0x7fff_ffff_ffff_ffff,
    ensures
        block_read(
            data@,
            start as int,
            encrypted,
            match key {
                Some(k) => Some(*k),
                None => None,
            },
            policy,
            r,
        ),
{
    if encrypted {
        match key {
            Some(k) => read_encrypted_block(data, start, k, policy),
            None => Err(
                RarError::encrypted("RAR4: header-encrypted archive, a password is required"),
            ),
        }
    } else {
        read_plain_block(data, start, policy)
    }
}

/// The bytes at `at` could start a plaintext block.
pub open spec fn is_candidate(data: Seq<u8>, at: int) -> bool {
    &&& data.len() - at >= 7
    &&& 0x72 <= data[at + 2] <= 0x7b
    &&& 7 <= field(data, at + 5, 2) <= data.len() - at
}

/// A sound plaintext block starts at `at`.
pub open spec fn block_at(data: Seq<u8>, at: int) -> bool {
    &&& is_candidate(data, at)
    &&& envelope_fault(data.subrange(at, at + field(data, at + 5, 2)), true) is None
}

fn block_candidate(data: &[u8], at: usize) -> (r: bool)
    requires
        at <= data@.len(),
    ensures
        r == is_candidate(data@, at as int),
{
    let left = data.len() - at;
    if left < 7 {
        return false;
    }
    let head_type = data[at + 2];
    let head_size = read_u16(data, at + 5) as usize;
    head_type >= 0x72 && head_type <= 0x7b && head_size >= 7 && head_size <= left
}

/// Find the first sound plaintext block from `start` on, so that a scan can
/// go on behind a damaged one.
pub fn resync_block(data: &[u8], start: usize) -> (r: RarResult<Option<Rar4Block>>)
    requires
        start <= data@.len() <= 0x7fff_ffff_ffff_ffff,
    ensures
        match r {
            Ok(Some(b)) => {
                &&& start <= b.offset
                &&& block_at(data@, b.offset as int)
                &&& forall|p: int| start <= p < b.offset ==> !block_at(data@, p)
                &&& is_block(
                    b,
                    b.offset as int,
                    data@.subrange(
                        b.offset as int,
                        b.offset + field(data@, b.offset + 5, 2),
                    ),
                    field(data@, b.offset + 5, 2) as int,
                )
            },
            Ok(None) => forall|p: int| start <= p ==> !block_at(data@, p),
            Err(_) => false,
        },
{
    let total = data.len();
    let mut at = start;
    while at < total
        invariant
            start <= at <= total,
            total == data@.len(),
            total <= 0x7fff_ffff_ffff_ffff,
            forall|p: int| start <= p < at ==> !block_at(data@, p),
        decreases total - at,
    {
        if block_candidate(data, at) {
            if let Ok(Some(block)) = read_plain_block(data, at, EnvelopePolicy::scan()) {
                return Ok(Some(block));
            }
        }
        at += 1;
    }
    Ok(None)
}

/// `header` with zeros up to whole cipher blocks.
pub open spec fn padded_header(header: Seq<u8>) -> Seq<u8> {
    header + Seq::new((((header.len() + 15) / 16) * 16 - header.len()) as nat, |i: int| 0u8)
}

/// A header encrypted under a salt's key: the salt and the cipher blocks.
/// Decrypting them gives the padded header.
pub fn encrypt_block_header_with(header: &[u8], salt: &[u8; 8], key: &HeaderKey) -> (r: (
    Vec<u8>,
    u64,
))
    requires
        header@.len() <= 0x1_0000,
    ensures
        r.0@ == salt@ + cbc_encrypted(key.key@, key.iv@, padded_header(header@)),
        r.1 == on_disk_len(header@.len() as int, true),
        r.0@.len() == r.1,
        prefixes_decrypt(key.key@, key.iv@, r.0@.skip(8), padded_header(header@)),
{
    let total = header.len();
    let aligned = (total + 15) / 16 * 16;
    let mut plain = slice_to_vec(header);
    while plain.len() < aligned
        invariant
            total == header@.len(),
            total <= plain@.len() <= aligned,
            plain@ =~= header@ + Seq::new((plain@.len() - total) as nat, |i: int| 0u8),
        decreases aligned - plain.len(),
    {
        plain.push(0);
    }
    assert(plain@ =~= padded_header(header@));
    encrypt_blocks_128(&mut plain, &key.key, &key.iv);
    let mut out = slice_to_vec(salt.as_slice());
    out.extend_from_slice(plain.as_slice());
    assert(out@ =~= salt@ + plain@);
    assert(out@.skip(8) =~= plain@);
    (out, 8 + aligned as u64)
}

/// Eight random bytes.
pub fn fresh_salt() -> (r: [u8; 8]) {
    let mut salt: [u8; 8] = [0u8; 8];
    random_fill(&mut salt);
    salt
}

/// An encrypted header written is the header read, under the same key: the
/// header's own size field must say its length.
pub proof fn lemma_encrypted_header_roundtrip(
    out: Seq<u8>,
    header: Seq<u8>,
    key: Seq<u8>,
    iv: Seq<u8>,
)
    requires
        7 <= header.len() == field(header, 5, 2),
        out.len() == on_disk_len(header.len() as int, true),
        prefixes_decrypt(key, iv, out.skip(8), padded_header(header)),
    ensures
        decrypted_header(out, 0, key, iv) == DecryptedHeader::Header(header, out.len() as int),
{
    let cipher = out.skip(8);
    let plain = padded_header(header);
    assert(cipher.take(16) =~= out.subrange(8, 24));
    assert(cbc_decrypted(key, iv, cipher.take(16)) == plain.take(16));
    assert(plain.take(16).subrange(5, 7) =~= header.subrange(5, 7));
    let n = cipher.len() as int;
    assert(cipher.take(n) =~= out.subrange(8, out.len() as int));
    assert(cbc_decrypted(key, iv, cipher.take(n)) == plain.take(n));
    assert(plain.take(n).take(header.len() as int) =~= header);
}

} // verus!
