//! Segment emission: the header of each segment of a member, and where a
//! member is split so that every volume keeps to its size.

use crate::bytes::{le_bytes, lemma_le_bytes_len, push_le};
use crate::error::{is_invalid_option, RarError, RarResult};
use crate::rar4::comment::{build_file_comment_block, file_comment_block};
use crate::rar4::headers::{
    build_file_header, checked_block, crc_end, file_header_crc_end, on_disk_len, FileHeaderParams,
};
use crate::rar4::{
    FHD_COMMENT, FHD_EXTTIME, FHD_PASSWORD, FHD_SALT, FHD_SOLID, FHD_SPLIT_AFTER, FHD_SPLIT_BEFORE,
};
use crate::shared::checksum::{crc16_of, header_crc16};
use crate::text::{decimal, with_number};
use crate::version::{spec_codec, LegacyCodec};
use vstd::prelude::*;
use vstd::slice::slice_subrange;
use vstd::string::*;

verus! {

/// Bytes that a segment's header takes ahead of its data.
pub fn rar4_segment_header_reserve(
    name_len: usize,
    has_salt: bool,
    ext_len: usize,
    header_encryption: bool,
) -> (r: u64)
    requires
        name_len <= 0xfff_ffff,
        ext_len <= 0xfff_ffff,
    ensures
        r == on_disk_len(
            32 + name_len + (if has_salt {
                8int
            } else {
                0int
            }) + ext_len,
            header_encryption,
        ),
{
    let plain: u64 = 32 + name_len as u64 + (if has_salt {
        8u64
    } else {
        0u64
    }) + ext_len as u64;
    if header_encryption {
        8 + (plain + 15) / 16 * 16
    } else {
        plain
    }
}

/// What the segments of a member have in common.
pub struct Rar4SplitParams<'a> {
    pub encoded_name: &'a [u8],
    pub name_flags: u16,
    pub file_crc: u32,
    pub dos_time: u32,
    pub method: u8,
    pub unpacked_size: u32,
    pub password: bool,
    pub salt: Option<[u8; 8]>,
    pub ext_time: Option<&'a [u8]>,
    pub solid_continuation: bool,
    pub attr: u32,
    pub comment: Option<&'a [u8]>,
    /// Member version; every segment of the member carries it.
    pub unp_ver: u8,
    pub window_bits: u8,
}

impl<'a> Rar4SplitParams<'a> {
    /// The comment is a block of its own behind the member's data: so it is
    /// with the newest member version, older ones nest it in the header.
    pub open spec fn comment_stands_alone(self) -> bool {
        self.comment is Some && spec_codec(self.unp_ver) == Some(LegacyCodec::Rar29)
    }

    /// The comment is nested in the header.
    pub open spec fn comment_is_nested(self) -> bool {
        self.comment is Some && spec_codec(self.unp_ver) != Some(LegacyCodec::Rar29)
    }

    /// The flags of a segment's header.
    pub open spec fn flags(self, split_before: bool, split_after: bool) -> u16 {
        self.name_flags | flag(split_before, FHD_SPLIT_BEFORE) | flag(split_after, FHD_SPLIT_AFTER)
            | flag(self.password, FHD_PASSWORD) | flag(self.salt is Some, FHD_SALT) | flag(
            self.ext_time is Some,
            FHD_EXTTIME,
        ) | flag(self.solid_continuation, FHD_SOLID) | flag(self.comment_is_nested(), FHD_COMMENT)
    }

    /// The header of a segment, without a nested comment.
    pub open spec fn plain_params(
        self,
        head_crc: u32,
        packed_size: u32,
        split_before: bool,
        split_after: bool,
    ) -> FileHeaderParams<'a> {
        FileHeaderParams {
            flags: self.flags(split_before, split_after),
            packed_size,
            unpacked_size: self.unpacked_size,
            host_os: 2,
            file_crc: head_crc,
            file_time: self.dos_time,
            unp_ver: self.unp_ver,
            method: self.method,
            name: self.encoded_name,
            attr: self.attr,
            window_bits: self.window_bits,
            salt: self.salt,
            ext_time: self.ext_time,
        }
    }

    /// Length of a segment's header without a nested comment.
    pub open spec fn plain_len(self) -> int {
        32 + self.encoded_name@.len() + (if self.salt is Some {
            8int
        } else {
            0int
        }) + (match self.ext_time {
            Some(e) => e@.len() as int,
            None => 0int,
        })
    }

    /// Length of a segment's header.
    pub open spec fn header_len(self) -> int {
        self.plain_len() + if self.comment_is_nested() {
            13 + self.comment->Some_0@.len() as int
        } else {
            0
        }
    }

    /// The header of a segment.
    pub open spec fn header(
        self,
        head_crc: u32,
        packed_size: u32,
        split_before: bool,
        split_after: bool,
    ) -> Seq<u8> {
        let plain = checked_block(
            self.plain_params(head_crc, packed_size, split_before, split_after).body(),
        );
        if self.comment_is_nested() {
            with_nested(plain, file_comment_block(self.comment->Some_0@))
        } else {
            plain
        }
    }

    /// Lengths whose sum fits the address space.
    pub open spec fn fits_memory(self) -> bool {
        &&& self.encoded_name@.len() <= 0xfff_ffff
        &&& self.ext_time matches Some(e) ==> e@.len() <= 0xfff_ffff
        &&& self.comment matches Some(c) ==> c@.len() <= 0xfff_ffff
    }
}

/// A flag, or none.
pub open spec fn flag(set: bool, value: u16) -> u16 {
    if set {
        value
    } else {
        0
    }
}

fn flag_bits(set: bool, value: u16) -> (r: u16)
    ensures
        r == flag(set, value),
{
    if set {
        value
    } else {
        0
    }
}

/// A header with a comment block nested behind it: the size covers both, the
/// checksum ends before the comment.
pub open spec fn with_nested(plain: Seq<u8>, block: Seq<u8>) -> Seq<u8> {
    let h = plain.take(5) + le_bytes(plain.len() + block.len(), 2) + plain.skip(7) + block;
    le_bytes(crc16_of(h.subrange(2, crc_end(h))) as nat, 2) + h.skip(2)
}

/// One segment's header, and the comment block that follows its data.
pub struct Rar4Segment {
    pub header: Vec<u8>,
    pub trailer: Option<Vec<u8>>,
}

fn nest(plain: &[u8], block: &[u8]) -> (r: Vec<u8>)
    requires
        32 <= plain@.len(),
        plain@.len() + block@.len() <= usize::MAX,
    ensures
        r@ == with_nested(plain@, block@),
        r@.len() == plain@.len() + block@.len(),
{
    let total = plain.len() + block.len();
    let mut h: Vec<u8> = Vec::new();
    h.extend_from_slice(slice_subrange(plain, 0, 5));
    push_le(&mut h, total as u64, 2);
    h.extend_from_slice(slice_subrange(plain, 7, plain.len()));
    h.extend_from_slice(block);
    proof {
        lemma_le_bytes_len(total as nat, 2);
        assert(h@ =~= plain@.take(5) + le_bytes(plain@.len() + block@.len(), 2) + plain@.skip(7)
            + block@);
    }
    let end = file_header_crc_end(h.as_slice());
    let crc = header_crc16(slice_subrange(h.as_slice(), 2, end));
    let mut out: Vec<u8> = Vec::new();
    push_le(&mut out, crc as u64, 2);
    out.extend_from_slice(slice_subrange(h.as_slice(), 2, h.len()));
    proof {
        lemma_le_bytes_len(crc as nat, 2);
        assert(h@.subrange(2, h@.len() as int) =~= h@.skip(2));
        assert(out@ =~= with_nested(plain@, block@));
    }
    out
}

/// Build one segment's header and, behind the last one, the comment block of
/// a comment that stands alone.
pub fn build_rar4_segment(
    params: &Rar4SplitParams<'_>,
    head_crc: u32,
    packed_size: u32,
    split_before: bool,
    split_after: bool,
) -> (r: RarResult<Rar4Segment>)
    requires
        params.fits_memory(),
    ensures
        r is Ok,
        r->Ok_0.header@ == params.header(head_crc, packed_size, split_before, split_after),
        r->Ok_0.header@.len() == params.header_len(),
        match r->Ok_0.trailer {
            Some(t) => params.comment_stands_alone() && !split_after && t@ == file_comment_block(
                params.comment->Some_0@,
            ),
            None => !params.comment_stands_alone() || split_after,
        },
{
    let newest = match LegacyCodec::from_unp_ver(params.unp_ver) {
        Some(LegacyCodec::Rar29) => true,
        _ => false,
    };
    let alone = params.comment.is_some() && newest;
    let nested = params.comment.is_some() && !newest;
    let flags = params.name_flags | flag_bits(split_before, FHD_SPLIT_BEFORE) | flag_bits(
        split_after,
        FHD_SPLIT_AFTER,
    ) | flag_bits(params.password, FHD_PASSWORD) | flag_bits(params.salt.is_some(), FHD_SALT)
        | flag_bits(params.ext_time.is_some(), FHD_EXTTIME) | flag_bits(
        params.solid_continuation,
        FHD_SOLID,
    ) | flag_bits(nested, FHD_COMMENT);
    let p = FileHeaderParams {
        flags,
        packed_size,
        unpacked_size: params.unpacked_size,
        host_os: 2,
        file_crc: head_crc,
        file_time: params.dos_time,
        unp_ver: params.unp_ver,
        method: params.method,
        name: params.encoded_name,
        attr: params.attr,
        window_bits: params.window_bits,
        salt: params.salt,
        ext_time: params.ext_time,
    };
    assert(p == params.plain_params(head_crc, packed_size, split_before, split_after));
    assert(p.head_size() == params.plain_len());
    let mut header = match build_file_header(&p) {
        Ok(h) => h,
        Err(e) => {
            return Err(e);
        },
    };
    let mut trailer: Option<Vec<u8>> = None;
    if let Some(comment) = params.comment {
        let block = build_file_comment_block(comment);
        proof {
            lemma_comment_block_len(comment@);
        }
        if nested {
            header = nest(header.as_slice(), block.as_slice());
        } else if alone && !split_after {
            trailer = Some(block);
        }
    }
    Ok(Rar4Segment { header, trailer })
}

/// A comment block is 13 bytes and the comment.
pub proof fn lemma_comment_block_len(comment: Seq<u8>)
    ensures
        file_comment_block(comment).len() == 13 + comment.len(),
{
    lemma_le_bytes_len(0, 2);
    lemma_le_bytes_len(13 + comment.len(), 2);
    lemma_le_bytes_len(comment.len(), 2);
    lemma_le_bytes_len(crc16_of(comment) as nat, 2);
    lemma_le_bytes_len(crc16_of(crate::rar4::comment::file_comment_head(comment)) as nat, 2);
}

/// What a volume keeps free for its recovery record, as a function of the
/// bytes that the record protects.
pub trait VolumeReserve {
    /// Bytes of the record over a prefix of this length.
    spec fn reserve_of(&self, prefix: u64) -> u64;

    /// Bytes of the record over a prefix of this length.
    fn recovery_volume_reserve(&self, prefix: u64) -> (r: u64)
        ensures
            r == self.reserve_of(prefix),
    ;
}

/// No recovery record.
pub struct NoRecovery;

impl VolumeReserve for NoRecovery {
    open spec fn reserve_of(&self, prefix: u64) -> u64 {
        0
    }

    fn recovery_volume_reserve(&self, prefix: u64) -> (r: u64) {
        0
    }
}

/// A volume's fixed numbers.
#[derive(Clone, Copy)]
pub struct VolumeRules {
    /// Most bytes of a volume.
    pub volume_size: u64,
    /// Bytes of a segment's header.
    pub segment_reserve: u64,
    /// Bytes of the end-of-archive block.
    pub eoa: u64,
}

impl VolumeRules {
    /// Numbers whose sum fits 64 bits.
    pub open spec fn valid(self) -> bool {
        &&& self.segment_reserve <= 0xffff_ffff
        &&& self.eoa <= 0xffff
    }

    /// Bytes left in a volume.
    pub open spec fn left(self, used: int) -> int {
        if used < self.volume_size {
            self.volume_size - used
        } else {
            0
        }
    }

    /// Bytes left for data, without the recovery record.
    pub open spec fn room(self, used: int) -> int {
        if self.segment_reserve + self.eoa <= self.left(used) {
            self.left(used) - self.segment_reserve - self.eoa
        } else {
            0
        }
    }

    /// A segment of `data` bytes fits a volume behind `used` bytes.
    pub open spec fn fits<R: VolumeReserve>(self, reserve: R, used: int, data: int) -> bool {
        self.segment_reserve + data + reserve.reserve_of(
            (used + self.segment_reserve + data) as u64,
        ) + self.eoa <= self.left(used)
    }

    /// `r` bytes of data are what a volume takes: they fit, one more does
    /// not.
    pub open spec fn is_budget<R: VolumeReserve>(self, reserve: R, used: int, r: int) -> bool {
        &&& 0 <= r <= self.room(used)
        &&& r > 0 ==> self.fits(reserve, used, r)
        &&& r < self.room(used) ==> !self.fits(reserve, used, r + 1)
    }
}

/// A record never shrinks by more than the data grows.
pub open spec fn is_steady<R: VolumeReserve>(reserve: R) -> bool {
    forall|a: u64, b: u64|
        a <= b ==> #[trigger] reserve.reserve_of(a) <= #[trigger] reserve.reserve_of(b) + (b - a)
}

/// With a steady record what a volume takes is one number, the largest that
/// fits.
pub proof fn lemma_budget_is_largest<R: VolumeReserve>(
    rules: VolumeRules,
    reserve: R,
    used: int,
    r: int,
    other: int,
)
    requires
        rules.valid(),
        0 <= used,
        is_steady(reserve),
        rules.is_budget(reserve, used, r),
        0 <= other <= rules.room(used),
        rules.fits(reserve, used, other),
    ensures
        other <= r,
{
    if other > r {
        let a = (used + rules.segment_reserve + r + 1) as u64;
        let b = (used + rules.segment_reserve + other) as u64;
        assert(a <= b);
        assert(reserve.reserve_of(a) <= reserve.reserve_of(b) + (b - a));
        assert(rules.fits(reserve, used, r + 1));
    }
}

fn fits_volume<R: VolumeReserve>(reserve: &R, rules: VolumeRules, used: u64, data: u64) -> (r: bool)
    requires
        rules.valid(),
        0 < data <= rules.room(used as int),
    ensures
        r == rules.fits(*reserve, used as int, data as int),
{
    let prefix = used + rules.segment_reserve + data;
    let record = reserve.recovery_volume_reserve(prefix);
    let left = if used < rules.volume_size {
        rules.volume_size - used
    } else {
        0
    };
    let need: u128 = rules.segment_reserve as u128 + data as u128 + record as u128
        + rules.eoa as u128;
    need <= left as u128
}

/// Data bytes that the current volume takes. The record's size follows what
/// it protects, so the exact fill is found by bisection.
pub fn legacy_data_budget<R: VolumeReserve>(reserve: &R, rules: VolumeRules, used: u64) -> (r: u64)
    requires
        rules.valid(),
    ensures
        rules.is_budget(*reserve, used as int, r as int),
{
    let left = if used < rules.volume_size {
        rules.volume_size - used
    } else {
        0
    };
    let ahead = rules.segment_reserve + rules.eoa;
    let room = if ahead <= left {
        left - ahead
    } else {
        0
    };
    if room == 0 || fits_volume(reserve, rules, used, room) {
        return room;
    }
    let mut lo: u64 = 0;
    let mut hi: u64 = room;
    while lo < hi
        invariant
            rules.valid(),
            lo <= hi <= room,
            room == rules.room(used as int),
            lo > 0 ==> rules.fits(*reserve, used as int, lo as int),
            hi < room ==> !rules.fits(*reserve, used as int, hi + 1),
            hi == room ==> !rules.fits(*reserve, used as int, hi as int),
        decreases hi - lo,
    {
        let mid = hi - (hi - lo) / 2;
        if fits_volume(reserve, rules, used, mid) {
            lo = mid;
        } else {
            hi = mid - 1;
        }
    }
    lo
}

/// Behind `at` bytes the largest member, with all its headers, ends within 64
/// bits.
pub open spec fn fits_behind(at: int) -> bool {
    at + 0x4001_0000_0000_0000 <= u64::MAX
}

/// One segment of a split member.
#[derive(Clone, Copy, PartialEq, Eq, Structural, Debug)]
pub struct SplitPiece {
    /// The segment starts a volume.
    pub new_volume: bool,
    /// Where the segment starts in the member's data.
    pub offset: u64,
    /// Data bytes.
    pub len: u64,
    pub split_before: bool,
    pub split_after: bool,
}

/// A member to split, and where the writer stands.
#[derive(Clone, Copy)]
pub struct SplitJob {
    pub rules: VolumeRules,
    /// Bytes that a segment's header takes.
    pub head_len: u64,
    /// Bytes of data.
    pub packed_size: u64,
    /// Bytes of the current volume.
    pub used: u64,
    /// Bytes of a volume just started.
    pub fresh: u64,
}

impl SplitJob {
    /// Numbers whose sums fit 64 bits.
    pub open spec fn valid(self) -> bool {
        &&& self.rules.valid()
        &&& self.head_len <= 0x4000_0100
        &&& self.packed_size <= u32::MAX
        &&& fits_behind(self.used as int)
        &&& fits_behind(self.fresh as int)
    }

    /// The volume's bytes that a segment is put behind.
    pub open spec fn behind(self, used: int, p: SplitPiece) -> int {
        if p.new_volume {
            self.fresh as int
        } else {
            used
        }
    }

    /// `pieces` split the data from `sent` on, in a volume of `used` bytes:
    /// each takes what its volume takes, and a volume is started exactly where
    /// the one before takes nothing.
    pub open spec fn is_plan<R: VolumeReserve>(
        self,
        reserve: R,
        used: int,
        sent: int,
        pieces: Seq<SplitPiece>,
    ) -> bool
        decreases pieces.len(),
    {
        if sent >= self.packed_size {
            pieces.len() == 0
        } else {
            pieces.len() > 0 && {
                let p = pieces[0];
                let behind = self.behind(used, p);
                &&& p.new_volume ==> self.rules.is_budget(reserve, used, 0)
                &&& p.len >= 1
                &&& p.offset == sent
                &&& p.split_before == (sent > 0)
                &&& p.split_after == (sent + p.len < self.packed_size)
                &&& if p.split_after {
                    self.rules.is_budget(reserve, behind, p.len as int)
                } else {
                    sent + p.len == self.packed_size && exists|b: int|
                        #[trigger] self.rules.is_budget(reserve, behind, b) && b >= p.len
                }
                &&& self.is_plan(
                    reserve,
                    behind + self.head_len + p.len,
                    sent + p.len,
                    pieces.drop_first(),
                )
            }
        }
    }

    /// A volume just started takes nothing, and the current one does not take
    /// all that is left.
    pub open spec fn is_stuck<R: VolumeReserve>(self, reserve: R) -> bool {
        &&& self.rules.is_budget(reserve, self.fresh as int, 0)
        &&& exists|b: int|
            #[trigger] self.rules.is_budget(reserve, self.used as int, b) && b < self.packed_size
    }
}

/// The pieces of a plan follow each other without a gap, from `sent` to the
/// end.
pub proof fn lemma_plan_covers<R: VolumeReserve>(
    job: SplitJob,
    reserve: R,
    used: int,
    sent: int,
    pieces: Seq<SplitPiece>,
)
    requires
        0 <= sent <= job.packed_size,
        job.is_plan(reserve, used, sent, pieces),
    ensures
        sent == job.packed_size <==> pieces.len() == 0,
        pieces.len() > 0 ==> pieces[0].offset == sent && pieces.last().offset + pieces.last().len
            == job.packed_size && !pieces.last().split_after,
        forall|i: int|
            0 <= i < pieces.len() - 1 ==> (#[trigger] pieces[i]).offset + pieces[i].len == pieces[i
                + 1].offset && pieces[i].split_after && pieces[i + 1].split_before,
    decreases pieces.len(),
{
    if pieces.len() > 0 {
        let p = pieces[0];
        let rest = pieces.drop_first();
        let behind = job.behind(used, p);
        lemma_plan_covers(job, reserve, behind + job.head_len + p.len, sent + p.len, rest);
        assert forall|i: int| 0 <= i < pieces.len() - 1 implies (#[trigger] pieces[i]).offset
            + pieces[i].len == pieces[i + 1].offset && pieces[i].split_after && pieces[i
            + 1].split_before by {
            if i > 0 {
                assert(rest[i - 1] == pieces[i]);
                assert(rest[i] == pieces[i + 1]);
            } else {
                assert(rest[0] == pieces[1]);
            }
        }
        if rest.len() > 0 {
            assert(rest.last() == pieces.last());
        }
    }
}

/// Every segment of a plan but the last fills its volume exactly as far as it
/// may: with its header, the recovery record and the end block it keeps to
/// the volume's size.
pub proof fn lemma_plan_fits<R: VolumeReserve>(
    job: SplitJob,
    reserve: R,
    used: int,
    sent: int,
    pieces: Seq<SplitPiece>,
)
    requires
        job.is_plan(reserve, used, sent, pieces),
        sent < job.packed_size,
    ensures
        pieces[0].split_after ==> job.rules.fits(
            reserve,
            job.behind(used, pieces[0]),
            pieces[0].len as int,
        ),
        job.rules.segment_reserve + pieces[0].len + job.rules.eoa <= job.rules.left(
            job.behind(used, pieces[0]),
        ),
{
    let p = pieces[0];
    let behind = job.behind(used, p);
    if !p.split_after {
        let b = choose|b: int| #[trigger] job.rules.is_budget(reserve, behind, b) && b >= p.len;
        assert(b <= job.rules.room(behind));
    }
}

proof fn lemma_plan_append<R: VolumeReserve>(
    job: SplitJob,
    reserve: R,
    used: int,
    sent: int,
    pieces: Seq<SplitPiece>,
    now_used: int,
    now_sent: int,
    more: Seq<SplitPiece>,
)
    requires
        job.is_part(reserve, used, sent, pieces, now_used, now_sent),
        job.is_plan(reserve, now_used, now_sent, more),
    ensures
        job.is_plan(reserve, used, sent, pieces + more),
    decreases pieces.len(),
{
    if pieces.len() == 0 {
        assert(pieces + more =~= more);
    } else {
        let p = pieces[0];
        assert((pieces + more).drop_first() =~= pieces.drop_first() + more);
        lemma_plan_append(
            job,
            reserve,
            job.behind(used, p) + job.head_len + p.len,
            sent + p.len,
            pieces.drop_first(),
            now_used,
            now_sent,
            more,
        );
    }
}

impl SplitJob {
    /// `pieces` lead from one place to another.
    spec fn is_part<R: VolumeReserve>(
        self,
        reserve: R,
        used: int,
        sent: int,
        pieces: Seq<SplitPiece>,
        now_used: int,
        now_sent: int,
    ) -> bool
        decreases pieces.len(),
    {
        if pieces.len() == 0 {
            used == now_used && sent == now_sent
        } else {
            let p = pieces[0];
            let behind = self.behind(used, p);
            &&& sent < self.packed_size
            &&& p.new_volume ==> self.rules.is_budget(reserve, used, 0)
            &&& p.len >= 1
            &&& p.offset == sent
            &&& p.split_before == (sent > 0)
            &&& p.split_after == (sent + p.len < self.packed_size)
            &&& if p.split_after {
                self.rules.is_budget(reserve, behind, p.len as int)
            } else {
                sent + p.len == self.packed_size && exists|b: int|
                    #[trigger] self.rules.is_budget(reserve, behind, b) && b >= p.len
            }
            &&& self.is_part(
                reserve,
                behind + self.head_len + p.len,
                sent + p.len,
                pieces.drop_first(),
                now_used,
                now_sent,
            )
        }
    }
}

proof fn lemma_part_push<R: VolumeReserve>(
    job: SplitJob,
    reserve: R,
    used: int,
    sent: int,
    pieces: Seq<SplitPiece>,
    now_used: int,
    now_sent: int,
    p: SplitPiece,
)
    requires
        job.is_part(reserve, used, sent, pieces, now_used, now_sent),
        job.is_part(
            reserve,
            now_used,
            now_sent,
            seq![p],
            job.behind(now_used, p) + job.head_len + p.len,
            now_sent + p.len,
        ),
    ensures
        job.is_part(
            reserve,
            used,
            sent,
            pieces.push(p),
            job.behind(now_used, p) + job.head_len + p.len,
            now_sent + p.len,
        ),
    decreases pieces.len(),
{
    if pieces.len() == 0 {
        assert(pieces.push(p) =~= seq![p]);
    } else {
        let q = pieces[0];
        assert(pieces.push(p).drop_first() =~= pieces.drop_first().push(p));
        lemma_part_push(
            job,
            reserve,
            job.behind(used, q) + job.head_len + q.len,
            sent + q.len,
            pieces.drop_first(),
            now_used,
            now_sent,
            p,
        );
    }
}

/// Split a member's data across volumes: one header and one segment per
/// volume. A volume size that leaves a fresh volume no room is refused.
#[verifier::rlimit(40)]
pub fn emit_rar4_split<R: VolumeReserve>(reserve: &R, job: SplitJob) -> (r: RarResult<
    Vec<SplitPiece>,
>)
    requires
        job.valid(),
    ensures
        match r {
            Ok(pieces) => job.is_plan(*reserve, job.used as int, 0, pieces@),
            Err(e) => job.is_stuck(*reserve) && job.packed_size > 0 && is_invalid_option(
                e,
                "volume size "@ + decimal(job.rules.volume_size as nat)
                    + " is too small for a RAR4 member header"@,
            ),
        },
{
    let mut pieces: Vec<SplitPiece> = Vec::new();
    let mut sent: u64 = 0;
    let mut used: u64 = job.used;
    while sent < job.packed_size
        invariant
            job.valid(),
            sent <= job.packed_size,
            pieces@.len() <= sent,
            used <= (if job.used < job.fresh {
                job.fresh
            } else {
                job.used
            }) + pieces@.len() * 0x4000_0100 + sent,
            job.is_part(*reserve, job.used as int, 0, pieces@, used as int, sent as int),
            sent == 0 ==> used == job.used,
            0 < sent < job.packed_size ==> exists|b: int|
                #[trigger] job.rules.is_budget(*reserve, job.used as int, b) && b
                    < job.packed_size,
        decreases job.packed_size - sent,
    {
        let mut budget = legacy_data_budget(reserve, job.rules, used);
        assert(job.rules.is_budget(*reserve, used as int, budget as int));
        let ghost first_budget = budget;
        let mut new_volume = false;
        let mut behind = used;
        if budget < 1 {
            new_volume = true;
            behind = job.fresh;
            budget = legacy_data_budget(reserve, job.rules, behind);
            if budget < 1 {
                return Err(
                    RarError::InvalidOption(
                        with_number(
                            "volume size ",
                            job.rules.volume_size,
                            " is too small for a RAR4 member header",
                        ),
                    ),
                );
            }
        }
        let rest = job.packed_size - sent;
        let len = if rest < budget {
            rest
        } else {
            budget
        };
        let p = SplitPiece {
            new_volume,
            offset: sent,
            len,
            split_before: sent > 0,
            split_after: len < rest,
        };
        proof {
            let next_used = behind + job.head_len + len;
            assert(job.behind(used as int, p) == behind);
            assert(seq![p].drop_first() =~= Seq::<SplitPiece>::empty());
            assert(job.rules.is_budget(*reserve, behind as int, budget as int));
            assert(job.is_part(
                *reserve,
                next_used,
                sent + len,
                seq![p].drop_first(),
                next_used,
                sent + len,
            ));
            assert(job.is_part(
                *reserve,
                used as int,
                sent as int,
                seq![p],
                next_used,
                sent + len,
            ));
            lemma_part_push(
                job,
                *reserve,
                job.used as int,
                0,
                pieces@,
                used as int,
                sent as int,
                p,
            );
        }
        pieces.push(p);
        used = behind + job.head_len + len;
        sent = sent + len;
    }
    proof {
        let none = Seq::<SplitPiece>::empty();
        lemma_plan_append(
            job,
            *reserve,
            job.used as int,
            0,
            pieces@,
            used as int,
            sent as int,
            none,
        );
        assert(pieces@ + none =~= pieces@);
    }
    Ok(pieces)
}

} // verus!
