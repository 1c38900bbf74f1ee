//! Writing a RAR 1.3/1.4 archive: headers, the settings of the encoder, and
//! where a member is split across volumes.
//!
//! Every fragment of a split member has a header of its own. Fragments before
//! the last carry the running checksum of the packed data so far, the last
//! one that of the whole member. A comment goes with the first fragment.

use crate::bytes::{
    le_bytes, lemma_byte_ranges, lemma_le_bytes_len, lemma_le_roundtrip, push_le,
};
use crate::crypto::rar13::{lemma_rar13_roundtrip, password_key, rar13_encrypted, Rar13Cipher};
use crate::crypto::clamped;
use crate::detect::RAR13_SIGNATURE;
use crate::error::{is_encrypted, is_invalid_option, RarError, RarResult};
use crate::rar13::read::{comment_fault, comment_key, extension_comment, member_end, member_fault};
use crate::rar13::{
    DEFAULT_UNP_VER, LHD_COMMENT, LHD_PASSWORD, LHD_SOLID, LHD_SPLIT_AFTER, LHD_SPLIT_BEFORE,
    METHOD_BEST, METHOD_STORE, MHD_ALWAYS_SET, MHD_COMMENT, MHD_PACK_COMMENT, MHD_SOLID,
    MHD_VOLUME,
};
use crate::rar4::encode::Rar15Options;
use crate::rar4::headers::field;
use crate::text::{decimal, with_number};
use vstd::prelude::*;
use vstd::slice::slice_to_vec;
use vstd::string::*;
use vstd::utf8::encode_utf8;

verus! {

/// The encoder settings of a level: old distances always, lazy matching at
/// level 5 alone, literal runs from level 3 on, long matches farther with
/// every level.
pub open spec fn spec_rar13_options(level: u8) -> Rar15Options {
    Rar15Options {
        old_distance_tokens: true,
        lazy_matching: level > 4,
        stmode_literal_runs: level > 2,
        max_long_match_distance: if level == 0 {
            Some(0)
        } else if level == 1 {
            Some(4096)
        } else if level == 2 {
            Some(8192)
        } else if level == 3 {
            Some(16384)
        } else if level == 4 {
            Some(24576)
        } else {
            None
        },
    }
}

/// The encoder settings of a level.
pub fn rar13_encode_options(level: u8) -> (r: Rar15Options)
    ensures
        r == spec_rar13_options(level),
{
    let distance: Option<usize> = match level {
        0 => Some(0),
        1 => Some(4096),
        2 => Some(8192),
        3 => Some(16384),
        4 => Some(24576),
        _ => None,
    };
    Rar15Options {
        old_distance_tokens: true,
        lazy_matching: level > 4,
        stmode_literal_runs: level > 2,
        max_long_match_distance: distance,
    }
}

/// The settings that are tried for a member, in order: those of the level,
/// the same with a bounded distance, and cautious ones if they differ from
/// both.
pub open spec fn settings_tried(level: u8) -> Seq<Rar15Options> {
    let base = spec_rar13_options(level);
    let bounded = Rar15Options { max_long_match_distance: Some(24576), ..base };
    let cautious = Rar15Options {
        lazy_matching: false,
        stmode_literal_runs: false,
        max_long_match_distance: Some(8192),
        ..base
    };
    let two = seq![base, bounded];
    if cautious == base || cautious == bounded {
        two
    } else {
        two.push(cautious)
    }
}

/// The settings that are tried for a member.
pub fn standalone_candidates(level: u8) -> (r: Vec<Rar15Options>)
    ensures
        r@ == settings_tried(level),
{
    let base = rar13_encode_options(level);
    let mut bounded = base;
    bounded.max_long_match_distance = Some(24576);
    let mut cautious = base;
    cautious.lazy_matching = false;
    cautious.stmode_literal_runs = false;
    cautious.max_long_match_distance = Some(8192);
    let mut out: Vec<Rar15Options> = Vec::new();
    out.push(base);
    out.push(bounded);
    assert(out@ =~= seq![base, bounded]);
    let plain = level == 2;
    proof {
        assert(cautious == base <==> level == 2);
        assert(cautious != bounded);
    }
    if !plain {
        out.push(cautious);
    }
    out
}

/// The first candidate that decodes to the data.
pub open spec fn first_sound(decoded: Seq<Option<Vec<u8>>>, data: Seq<u8>, from: int) -> Option<int>
    decreases decoded.len() - from,
{
    if from >= decoded.len() {
        None
    } else if decoded[from] is Some && decoded[from]->Some_0@ == data {
        Some(from)
    } else {
        first_sound(decoded, data, from + 1)
    }
}

/// Pick the first of a member's candidates that decodes to the member;
/// `decoded` holds what the decoder made of each, nothing where it failed.
pub fn pick_standalone(decoded: &[Option<Vec<u8>>], data: &[u8]) -> (r: Option<usize>)
    ensures
        match (r, first_sound(decoded@, data@, 0)) {
            (Some(a), Some(b)) => a == b && a < decoded@.len(),
            (None, None) => true,
            _ => false,
        },
{
    let mut i: usize = 0;
    while i < decoded.len()
        invariant
            i <= decoded@.len(),
            first_sound(decoded@, data@, 0) == first_sound(decoded@, data@, i as int),
        decreases decoded@.len() - i,
    {
        if let Some(d) = &decoded[i] {
            if crate::crypto::constant_time_eq(d.as_slice(), data) {
                return Some(i);
            }
        }
        i += 1;
    }
    None
}

/// The payload and method of a member. Level 0 and empty data are stored; in
/// a solid chain what the encoder made is kept whatever its size, so that the
/// reader's window stays in step; else it is kept where it is smaller.
pub open spec fn rar13_payload_of(
    data: Seq<u8>,
    level: u8,
    solid: bool,
    encoded: Option<Seq<u8>>,
) -> (Seq<u8>, u8) {
    if level == 0 || data.len() == 0 {
        (data, METHOD_STORE)
    } else {
        match encoded {
            Some(p) => if solid || p.len() < data.len() {
                (p, METHOD_BEST)
            } else {
                (data, METHOD_STORE)
            },
            None => (data, METHOD_STORE),
        }
    }
}

/// The payload and method of a member, from what the encoder made of it.
pub fn rar13_payload(data: Vec<u8>, level: u8, solid: bool, encoded: Option<Vec<u8>>) -> (r: (
    Vec<u8>,
    u8,
))
    ensures
        (r.0@, r.1) == rar13_payload_of(
            data@,
            level,
            solid,
            match encoded {
                Some(p) => Some(p@),
                None => None,
            },
        ),
{
    if level == 0 || data.len() == 0 {
        return (data, METHOD_STORE);
    }
    match encoded {
        Some(p) => if solid || p.len() < data.len() {
            (p, METHOD_BEST)
        } else {
            (data, METHOD_STORE)
        },
        None => (data, METHOD_STORE),
    }
}

/// The flags of a member.
pub open spec fn spec_member_flags(solid: bool, method: u8, comment: bool, password: bool) -> u8 {
    bit(solid && method == METHOD_BEST, LHD_SOLID) | bit(comment, LHD_COMMENT) | bit(
        password,
        LHD_PASSWORD,
    )
}

/// A flag, or none.
pub open spec fn bit(set: bool, value: u8) -> u8 {
    if set {
        value
    } else {
        0
    }
}

fn bit_of(set: bool, value: u8) -> (r: u8)
    ensures
        r == bit(set, value),
{
    if set {
        value
    } else {
        0
    }
}

/// The flags of a member.
pub fn rar13_member_flags(solid: bool, method: u8, comment: bool, password: bool) -> (r: u8)
    ensures
        r == spec_member_flags(solid, method, comment, password),
{
    bit_of(solid && method == METHOD_BEST, LHD_SOLID) | bit_of(comment, LHD_COMMENT) | bit_of(
        password,
        LHD_PASSWORD,
    )
}

/// The extension of a packed archive comment.
pub open spec fn comment_extension(comment_len: nat, encoded: Seq<u8>) -> Seq<u8> {
    le_bytes(encoded.len() + 2, 2) + le_bytes(comment_len, 2) + rar13_encrypted(
        comment_key(),
        encoded,
    )
}

/// Build the extension of an archive comment from what the encoder made of it.
pub fn build_archive_comment(comment_len: usize, encoded: Vec<u8>) -> (r: RarResult<Vec<u8>>)
    ensures
        match r {
            Ok(out) => comment_len <= 0xffff && encoded@.len() <= 0xfffd && out@
                == comment_extension(comment_len as nat, encoded@),
            Err(e) => if comment_len > 0xffff {
                is_invalid_option(
                    e,
                    "RAR 1.3/1.4 archive comment is longer than 65535 bytes"@,
                )
            } else {
                encoded@.len() > 0xfffd && is_invalid_option(
                    e,
                    "RAR 1.3/1.4 packed archive comment is longer than 65535 bytes"@,
                )
            },
        },
{
    if comment_len > 0xffff {
        return Err(
            RarError::invalid_option("RAR 1.3/1.4 archive comment is longer than 65535 bytes"),
        );
    }
    if encoded.len() > 0xfffd {
        return Err(
            RarError::invalid_option(
                "RAR 1.3/1.4 packed archive comment is longer than 65535 bytes",
            ),
        );
    }
    let mut packed = encoded;
    Rar13Cipher::new_comment().encrypt_in_place(&mut packed);
    let mut out: Vec<u8> = Vec::new();
    push_le(&mut out, (packed.len() + 2) as u64, 2);
    push_le(&mut out, comment_len as u64, 2);
    out.extend_from_slice(packed.as_slice());
    assert(out@ =~= comment_extension(comment_len as nat, encoded@));
    Ok(out)
}

/// A packed comment written is the packed comment read.
pub proof fn lemma_comment_extension_roundtrip(comment_len: nat, encoded: Seq<u8>, flags: u8)
    requires
        comment_len <= 0xffff,
        encoded.len() <= 0xfffd,
        flags & MHD_COMMENT != 0,
        flags & MHD_PACK_COMMENT != 0,
    ensures
        ({
            let extra = comment_extension(comment_len, encoded);
            &&& comment_fault(flags, extra) is None
            &&& field(extra, 2, 2) == comment_len
            &&& crate::crypto::rar13::rar13_decrypted(
                comment_key(),
                extra.subrange(4, 2 + field(extra, 0, 2) as int),
            ) == encoded
        }),
{
    let extra = comment_extension(comment_len, encoded);
    let cipher = rar13_encrypted(comment_key(), encoded);
    lemma_byte_ranges();
    lemma_le_roundtrip(encoded.len() + 2, 2);
    lemma_le_roundtrip(comment_len, 2);
    assert(extra.subrange(0, 2) =~= le_bytes(encoded.len() + 2, 2));
    assert(extra.subrange(2, 4) =~= le_bytes(comment_len, 2));
    assert(extra.subrange(4, extra.len() as int) =~= cipher);
    lemma_rar13_roundtrip(comment_key(), encoded);
}

/// The flags of a main header.
pub open spec fn main_flags(solid: bool, comment: bool, volume: bool) -> u8 {
    MHD_ALWAYS_SET | bit(volume, MHD_VOLUME) | bit(comment, MHD_COMMENT) | bit(
        comment,
        MHD_PACK_COMMENT,
    ) | bit(solid, MHD_SOLID)
}

/// A main header.
pub open spec fn main_header(solid: bool, extra: Option<Seq<u8>>, volume: bool) -> Seq<u8> {
    let x = match extra {
        Some(e) => e,
        None => Seq::empty(),
    };
    RAR13_SIGNATURE@ + le_bytes(7 + x.len(), 2) + seq![
        main_flags(solid, extra is Some, volume),
    ] + x
}

/// Build a main header with the extension of a comment, if there is one.
pub fn build_main_header(solid: bool, comment_extra: Option<&[u8]>, volume: bool) -> (r: RarResult<
    Vec<u8>,
>)
    requires
        comment_extra matches Some(x) ==> x@.len() <= usize::MAX - 7,
    ensures
        ({
            let x = match comment_extra {
                Some(e) => Some(e@),
                None => None,
            };
            match r {
                Ok(out) => out@.len() <= 0xffff && out@ == main_header(solid, x, volume),
                Err(e) => comment_extra is Some && comment_extra->Some_0@.len() + 7 > 0xffff
                    && is_invalid_option(
                    e,
                    "RAR 1.3/1.4 main header is longer than 65535 bytes"@,
                ),
            }
        }),
{
    let flags = MHD_ALWAYS_SET | bit_of(volume, MHD_VOLUME) | bit_of(
        comment_extra.is_some(),
        MHD_COMMENT,
    ) | bit_of(comment_extra.is_some(), MHD_PACK_COMMENT) | bit_of(solid, MHD_SOLID);
    let extra_len: usize = match comment_extra {
        Some(x) => x.len(),
        None => 0,
    };
    let head_size = 7 + extra_len;
    if head_size > 0xffff {
        return Err(
            RarError::invalid_option("RAR 1.3/1.4 main header is longer than 65535 bytes"),
        );
    }
    let mut out: Vec<u8> = Vec::new();
    out.extend_from_slice(RAR13_SIGNATURE.as_slice());
    push_le(&mut out, head_size as u64, 2);
    out.push(flags);
    if let Some(x) = comment_extra {
        out.extend_from_slice(x);
    }
    proof {
        let x = match comment_extra {
            Some(e) => Some(e@),
            None => None,
        };
        lemma_le_bytes_len(head_size as nat, 2);
        assert(out@ =~= main_header(solid, x, volume));
    }
    Ok(out)
}

/// Build the header extension of a member comment.
pub fn build_file_comment(comment: Option<&[u8]>) -> (r: RarResult<Vec<u8>>)
    ensures
        match (r, comment) {
            (Ok(out), None) => out@.len() == 0,
            (Ok(out), Some(c)) => {
                &&& c@.len() <= 0xffff
                &&& out@ == le_bytes(c@.len(), 2) + c@
                &&& extension_comment(out@) == Some(c@)
            },
            (Err(e), Some(c)) => c@.len() > 0xffff && is_invalid_option(
                e,
                "RAR 1.3/1.4 member comment is longer than 65535 bytes"@,
            ),
            _ => false,
        },
{
    match comment {
        None => Ok(Vec::new()),
        Some(c) => {
            if c.len() > 0xffff {
                return Err(
                    RarError::invalid_option(
                        "RAR 1.3/1.4 member comment is longer than 65535 bytes",
                    ),
                );
            }
            let mut out: Vec<u8> = Vec::new();
            push_le(&mut out, c.len() as u64, 2);
            out.extend_from_slice(c);
            proof {
                lemma_byte_ranges();
                lemma_le_roundtrip(c@.len(), 2);
                assert(out@ =~= le_bytes(c@.len(), 2) + c@);
                assert(out@.subrange(0, 2) =~= le_bytes(c@.len(), 2));
                assert(out@.subrange(2, out@.len() as int) =~= c@);
            }
            Ok(out)
        },
    }
}

/// What a file header carries.
pub struct MemberHeader<'a> {
    pub name: &'a str,
    pub packed_size: u64,
    pub unpacked_size: u64,
    pub file_crc: u16,
    pub file_time: u32,
    pub file_attr: u8,
    pub flags: u8,
    pub method: u8,
    pub extra: &'a [u8],
}

impl<'a> MemberHeader<'a> {
    /// The bytes of the name.
    pub open spec fn name_bytes(self) -> Seq<u8> {
        encode_utf8(self.name@)
    }

    /// Length of the header.
    pub open spec fn head_size(self) -> nat {
        21 + self.name_bytes().len() + self.extra@.len()
    }

    /// The header's bytes.
    pub open spec fn bytes(self) -> Seq<u8> {
        le_bytes(self.packed_size as nat, 4) + le_bytes(self.unpacked_size as nat, 4) + le_bytes(
            self.file_crc as nat,
            2,
        ) + le_bytes(self.head_size(), 2) + le_bytes(self.file_time as nat, 4) + seq![
            self.file_attr,
            self.flags,
            DEFAULT_UNP_VER,
            self.name_bytes().len() as u8,
            self.method,
        ] + self.name_bytes() + self.extra@
    }

    /// Why the header is refused, if it is.
    pub open spec fn refusal(self) -> Option<Seq<char>> {
        if self.name_bytes().len() > 255 {
            Some(
                "RAR 1.3/1.4 member names are limited to 255 bytes (got "@ + decimal(
                    self.name_bytes().len(),
                ) + ")"@,
            )
        } else if self.head_size() > 0xffff {
            Some("RAR 1.3/1.4 file header is longer than 65535 bytes"@)
        } else {
            None
        }
    }
}

proof fn lemma_header_len(h: MemberHeader<'_>)
    ensures
        h.bytes().len() == h.head_size(),
{
    lemma_le_bytes_len(h.packed_size as nat, 4);
    lemma_le_bytes_len(h.unpacked_size as nat, 4);
    lemma_le_bytes_len(h.file_crc as nat, 2);
    lemma_le_bytes_len(h.head_size(), 2);
    lemma_le_bytes_len(h.file_time as nat, 4);
}

/// A header written behind anything, followed by its data, is sound, and its
/// fields read back.
#[verifier::rlimit(40)]
pub proof fn lemma_header_roundtrip(
    before: Seq<u8>,
    h: MemberHeader<'_>,
    data: Seq<u8>,
    rest: Seq<u8>,
)
    requires
        h.refusal() is None,
        h.packed_size == data.len(),
        h.packed_size <= u32::MAX,
        h.unpacked_size <= u32::MAX,
    ensures
        ({
            let v = before + h.bytes() + data + rest;
            let at = before.len() as int;
            &&& h.bytes().len() == h.head_size()
            &&& member_fault(v, at) is None
            &&& member_end(v, at) == at + h.bytes().len() + data.len()
            &&& field(v, at, 4) == h.packed_size
            &&& field(v, at + 4, 4) == h.unpacked_size
            &&& field(v, at + 8, 2) == h.file_crc
            &&& field(v, at + 10, 2) == h.head_size()
            &&& field(v, at + 12, 4) == h.file_time
            &&& v[at + 16] == h.file_attr
            &&& v[at + 17] == h.flags
            &&& v[at + 20] == h.method
            &&& v.subrange(at + 21, at + 21 + v[at + 19]) == h.name_bytes()
            &&& v.subrange(at + 21 + v[at + 19], at + h.head_size()) == h.extra@
            &&& v.subrange(at + h.head_size(), at + h.head_size() + data.len()) == data
        }),
{
    let b = h.bytes();
    let v = before + b + data + rest;
    let at = before.len() as int;
    lemma_header_len(h);
    lemma_byte_ranges();
    lemma_le_roundtrip(h.packed_size as nat, 4);
    lemma_le_roundtrip(h.unpacked_size as nat, 4);
    lemma_le_roundtrip(h.file_crc as nat, 2);
    lemma_le_roundtrip(h.head_size(), 2);
    lemma_le_roundtrip(h.file_time as nat, 4);
    assert(v.subrange(at, at + b.len()) =~= b);
    assert(v.subrange(at, at + 4) =~= le_bytes(h.packed_size as nat, 4));
    assert(v.subrange(at + 4, at + 8) =~= le_bytes(h.unpacked_size as nat, 4));
    assert(v.subrange(at + 8, at + 10) =~= le_bytes(h.file_crc as nat, 2));
    assert(v.subrange(at + 10, at + 12) =~= le_bytes(h.head_size(), 2));
    assert(v.subrange(at + 12, at + 16) =~= le_bytes(h.file_time as nat, 4));
    let n = h.name_bytes().len() as int;
    assert(v[at + 19] == n);
    assert(v.subrange(at + 21, at + 21 + n) =~= h.name_bytes());
    assert(v.subrange(at + 21 + n, at + h.head_size()) =~= h.extra@);
    assert(v.subrange(at + h.head_size(), at + h.head_size() + data.len()) =~= data);
}

/// Build a file header.
pub fn build_file_header(h: &MemberHeader<'_>) -> (r: RarResult<Vec<u8>>)
    requires
        h.extra@.len() <= 0xff_ffff,
    ensures
        match (r, h.refusal()) {
            (Ok(out), None) => out@ == h.bytes() && out@.len() == h.head_size(),
            (Err(e), Some(m)) => is_invalid_option(e, m),
            _ => false,
        },
{
    let name = h.name.as_bytes();
    if name.len() > 255 {
        return Err(
            RarError::InvalidOption(
                with_number(
                    "RAR 1.3/1.4 member names are limited to 255 bytes (got ",
                    name.len() as u64,
                    ")",
                ),
            ),
        );
    }
    let head_size = 21 + name.len() + h.extra.len();
    if head_size > 0xffff {
        return Err(
            RarError::invalid_option("RAR 1.3/1.4 file header is longer than 65535 bytes"),
        );
    }
    let mut out: Vec<u8> = Vec::new();
    push_le(&mut out, h.packed_size, 4);
    push_le(&mut out, h.unpacked_size, 4);
    push_le(&mut out, h.file_crc as u64, 2);
    push_le(&mut out, head_size as u64, 2);
    push_le(&mut out, h.file_time as u64, 4);
    out.push(h.file_attr);
    out.push(h.flags);
    out.push(DEFAULT_UNP_VER);
    out.push(name.len() as u8);
    out.push(h.method);
    out.extend_from_slice(name);
    out.extend_from_slice(h.extra);
    proof {
        assert(out@ =~= h.bytes());
        lemma_header_len(*h);
    }
    Ok(out)
}

/// The packed data of a member on disk: encrypted whole, as one stream, where
/// a password is set.
pub fn rar13_on_disk(packed: &[u8], flags: u8, password: Option<&str>) -> (r: RarResult<Vec<u8>>)
    ensures
        match r {
            Ok(data) => if flags & LHD_PASSWORD == 0 {
                data@ == packed@
            } else {
                password matches Some(p) && data@ == rar13_encrypted(
                    password_key(clamped(encode_utf8(p@))),
                    packed@,
                )
            },
            Err(e) => flags & LHD_PASSWORD != 0 && password is None && is_encrypted(
                e,
                "encrypted member, no password provided"@,
            ),
        },
{
    let mut data = slice_to_vec(packed);
    if flags & LHD_PASSWORD != 0 {
        match password {
            None => {
                return Err(RarError::encrypted("encrypted member, no password provided"));
            },
            Some(p) => {
                Rar13Cipher::new(p.as_bytes()).encrypt_in_place(&mut data);
            },
        }
    }
    Ok(data)
}

/// One fragment of a member.
#[derive(Clone, Copy, PartialEq, Eq, Structural, Debug)]
pub struct Fragment {
    /// The fragment starts a volume.
    pub new_volume: bool,
    pub offset: u64,
    pub len: u64,
    pub split_before: bool,
    pub split_after: bool,
}

/// A member to split, and where the writer stands.
#[derive(Clone, Copy)]
pub struct Split13 {
    pub volume_size: u64,
    /// Header bytes of the first fragment, and of the others.
    pub first_len: u64,
    pub continuation_len: u64,
    /// Bytes of data.
    pub total: u64,
    /// Bytes of a volume just started.
    pub fresh: u64,
}

impl Split13 {
    /// Headers are as long as a header can be.
    pub open spec fn valid(self) -> bool {
        &&& self.first_len <= 0xffff
        &&& self.continuation_len <= 0xffff
    }

    /// Bytes left in a volume.
    pub open spec fn left(self, used: int) -> int {
        if 0 <= used < self.volume_size {
            self.volume_size - used
        } else {
            0
        }
    }

    /// Header bytes of the fragment at `sent`.
    pub open spec fn header_len(self, sent: int) -> int {
        if sent > 0 {
            self.continuation_len as int
        } else {
            self.first_len as int
        }
    }

    /// A volume has room for the header of the fragment at `sent`: and for a
    /// byte of data, if there is any.
    pub open spec fn has_room(self, used: int, sent: int) -> bool {
        if self.total == 0 {
            self.left(used) >= self.header_len(sent)
        } else {
            self.left(used) > self.header_len(sent)
        }
    }

    /// The fragment at `sent`, put behind `used` bytes of a volume with room.
    pub open spec fn fragment(self, new_volume: bool, used: int, sent: int) -> Fragment {
        let available = self.left(used) - self.header_len(sent);
        let len = if self.total - sent < available {
            self.total - sent
        } else {
            available
        };
        Fragment {
            new_volume,
            offset: sent as u64,
            len: len as u64,
            split_before: sent > 0,
            split_after: sent + len < self.total,
        }
    }

    /// The fragments from `sent` on, in a volume of `used` bytes; none where
    /// even a fresh volume has no room. A member without data is one fragment.
    pub open spec fn fragments(self, used: int, sent: int) -> Option<Seq<Fragment>>
        decreases self.total - sent,
    {
        if sent < 0 {
            None
        } else if sent >= self.total && sent > 0 {
            Some(Seq::empty())
        } else if !self.has_room(used, sent) && !self.has_room(self.fresh as int, sent) {
            None
        } else {
            let roll = !self.has_room(used, sent);
            let behind = if roll {
                self.fresh as int
            } else {
                used
            };
            let f = self.fragment(roll, behind, sent);
            if self.total == 0 {
                Some(seq![f])
            } else {
                proof {
                    assert(f.len >= 1);
                }
                match self.fragments(behind + self.header_len(sent) + f.len, sent + f.len) {
                    Some(rest) => Some(seq![f] + rest),
                    None => None,
                }
            }
        }
    }
}

/// Split a member across volumes, from where the writer stands. A volume size
/// that leaves a fresh volume no room is refused.
#[verifier::rlimit(40)]
pub fn write_rar13_split(job: Split13, used: u64) -> (r: RarResult<Vec<Fragment>>)
    requires
        job.valid(),
    ensures
        match (r, job.fragments(used as int, 0)) {
            (Ok(v), Some(f)) => v@ == f,
            (Err(e), None) => is_invalid_option(
                e,
                "volume size "@ + decimal(job.volume_size as nat)
                    + " is too small for a RAR 1.3/1.4 member header"@,
            ),
            _ => false,
        },
{
    let mut out: Vec<Fragment> = Vec::new();
    let mut sent: u64 = 0;
    let mut at: u64 = used;
    let ghost goal = job.fragments(used as int, 0);
    let mut first = true;
    proof {
        if let Some(g) = goal {
            assert(out@ + g =~= g);
        }
    }
    while first || sent < job.total
        invariant
            job.valid(),
            goal == job.fragments(used as int, 0),
            sent <= job.total,
            first ==> sent == 0,
            !first && job.total > 0 ==> sent > 0,
            first || job.total > 0 ==> goal == prepended(
                out@,
                job.fragments(at as int, sent as int),
            ),
            !first && job.total == 0 ==> goal == Some(out@),
        decreases
                (if first {
                    1int
                } else {
                    0int
                }),
                job.total - sent,
    {
        let header_len = if sent > 0 {
            job.continuation_len
        } else {
            job.first_len
        };
        let need = if job.total == 0 {
            header_len
        } else {
            header_len + 1
        };
        let left_now = if at < job.volume_size {
            job.volume_size - at
        } else {
            0
        };
        let mut left = left_now;
        let mut behind = at;
        let mut new_volume = false;
        if left_now < need {
            let left_fresh = if job.fresh < job.volume_size {
                job.volume_size - job.fresh
            } else {
                0
            };
            if left_fresh < need {
                return Err(
                    RarError::InvalidOption(
                        with_number(
                            "volume size ",
                            job.volume_size,
                            " is too small for a RAR 1.3/1.4 member header",
                        ),
                    ),
                );
            }
            left = left_fresh;
            behind = job.fresh;
            new_volume = true;
        }
        let available = left - header_len;
        let rest = job.total - sent;
        let len = if rest < available {
            rest
        } else {
            available
        };
        let f = Fragment {
            new_volume,
            offset: sent,
            len,
            split_before: sent > 0,
            split_after: len < rest,
        };
        assert(f == job.fragment(new_volume, behind as int, sent as int));
        let ghost before = out@;
        let ghost here = job.fragments(at as int, sent as int);
        out.push(f);
        proof {
            if job.total == 0 {
                assert(here == Some(seq![f]));
                assert(before + seq![f] =~= out@);
            } else {
                let more = job.fragments(behind + header_len + len, sent + len);
                if let Some(m) = more {
                    assert(before + (seq![f] + m) =~= out@ + m);
                }
            }
        }
        at = behind + header_len + len;
        sent = sent + len;
        first = false;
    }
    proof {
        if job.total > 0 {
            assert(out@ + Seq::<Fragment>::empty() =~= out@);
        }
    }
    Ok(out)
}

/// Fragments, with others before them.
pub open spec fn prepended(first: Seq<Fragment>, rest: Option<Seq<Fragment>>) -> Option<
    Seq<Fragment>,
> {
    match rest {
        Some(r) => Some(first + r),
        None => None,
    }
}

/// The fragments of a member follow each other without a gap to its end, and
/// each volume keeps to its size.
pub proof fn lemma_fragments(job: Split13, used: int, sent: int)
    requires
        job.valid(),
        0 <= used,
        0 <= sent <= job.total,
        sent < job.total,
        job.fragments(used, sent) is Some,
    ensures
        ({
            let f = job.fragments(used, sent)->Some_0;
            &&& f.len() > 0
            &&& f[0].offset == sent
            &&& f.last().offset + f.last().len == job.total
            &&& !f.last().split_after
            &&& forall|i: int|
                0 <= i < f.len() - 1 ==> (#[trigger] f[i]).offset + f[i].len == f[i + 1].offset
                    && f[i].split_after && f[i + 1].split_before
            &&& forall|i: int|
                0 <= i < f.len() ==> job.header_len((#[trigger] f[i]).offset as int) + f[i].len
                    <= job.volume_size && f[i].offset + f[i].len <= job.total
        }),
    decreases job.total - sent,
{
    let roll = !job.has_room(used, sent);
    let behind = if roll {
        job.fresh as int
    } else {
        used
    };
    let g = job.fragment(roll, behind, sent);
    let next = sent + g.len;
    let f = job.fragments(used, sent)->Some_0;
    let rest = job.fragments(behind + job.header_len(sent) + g.len, next)->Some_0;
    assert(f =~= seq![g] + rest);
    assert(f[0] == g);
    if next < job.total {
        lemma_fragments(job, behind + job.header_len(sent) + g.len, next);
        assert forall|i: int| 0 <= i < f.len() - 1 implies (#[trigger] f[i]).offset + f[i].len
            == f[i + 1].offset && f[i].split_after && f[i + 1].split_before by {
            if i > 0 {
                assert(f[i] == rest[i - 1]);
                assert(f[i + 1] == rest[i]);
            } else {
                assert(f[1] == rest[0]);
            }
        }
        assert forall|i: int| 0 <= i < f.len() implies job.header_len(
            (#[trigger] f[i]).offset as int,
        ) + f[i].len <= job.volume_size && f[i].offset + f[i].len <= job.total by {
            if i > 0 {
                assert(f[i] == rest[i - 1]);
            }
        }
        assert(f.last() == rest.last());
    } else {
        assert(rest.len() == 0);
        assert(f.last() == g);
    }
}

/// No more fragments than bytes.
pub proof fn lemma_fragment_count(job: Split13, used: int, sent: int)
    requires
        job.valid(),
        0 <= used,
        0 <= sent < job.total,
        job.fragments(used, sent) is Some,
    ensures
        job.fragments(used, sent)->Some_0.len() <= job.total - sent,
    decreases job.total - sent,
{
    let roll = !job.has_room(used, sent);
    let behind = if roll {
        job.fresh as int
    } else {
        used
    };
    let g = job.fragment(roll, behind, sent);
    let next = sent + g.len;
    let rest = job.fragments(behind + job.header_len(sent) + g.len, next)->Some_0;
    assert(job.fragments(used, sent)->Some_0 =~= seq![g] + rest);
    if next < job.total {
        lemma_fragment_count(job, behind + job.header_len(sent) + g.len, next);
    } else {
        assert(rest.len() == 0);
    }
}

/// The header of a fragment: `running`, the checksum of the packed data up to
/// its end, and in the last fragment the member's own; the comment with the
/// first.
pub open spec fn is_fragment_header(
    h: MemberHeader<'_>,
    m: MemberHeader<'_>,
    running: u16,
    f: Fragment,
) -> bool {
    &&& h.name@ == m.name@
    &&& h.packed_size == f.len && h.unpacked_size == m.unpacked_size
    &&& h.file_crc == if f.split_after {
        running
    } else {
        m.file_crc
    }
    &&& h.file_time == m.file_time && h.file_attr == m.file_attr && h.method == m.method
    &&& h.flags == fragment_flags(m.flags, f)
    &&& h.extra@ == if f.split_before {
        Seq::empty()
    } else {
        m.extra@
    }
}

/// The flags of a fragment.
pub open spec fn fragment_flags(flags: u8, f: Fragment) -> u8 {
    (if f.split_before {
        flags & !LHD_COMMENT
    } else {
        flags
    }) | bit(f.split_before, LHD_SPLIT_BEFORE) | bit(f.split_after, LHD_SPLIT_AFTER)
}

/// Build the header of a fragment; `running` is the checksum of the packed
/// data up to the fragment's end.
pub fn fragment_header(m: &MemberHeader<'_>, f: Fragment, running: u16) -> (r: RarResult<Vec<u8>>)
    requires
        m.extra@.len() <= 0xff_ffff,
    ensures
        match r {
            Ok(out) => exists|h: MemberHeader<'_>| #[trigger]
                is_fragment_header(h, *m, running, f) && h.refusal() is None && out@ == h.bytes()
                    && out@.len() == h.head_size(),
            Err(e) => exists|h: MemberHeader<'_>| #[trigger]
                is_fragment_header(h, *m, running, f) && (h.refusal() matches Some(msg)
                    && is_invalid_option(e, msg)),
        },
{
    let none: [u8; 0] = [];
    let flags = (if f.split_before {
        m.flags & !LHD_COMMENT
    } else {
        m.flags
    }) | bit_of(f.split_before, LHD_SPLIT_BEFORE) | bit_of(f.split_after, LHD_SPLIT_AFTER);
    let h = MemberHeader {
        name: m.name,
        packed_size: f.len,
        unpacked_size: m.unpacked_size,
        file_crc: if f.split_after {
            running
        } else {
            m.file_crc
        },
        file_time: m.file_time,
        file_attr: m.file_attr,
        flags,
        method: m.method,
        extra: if f.split_before {
            none.as_slice()
        } else {
            m.extra
        },
    };
    proof {
        assert(none@ =~= Seq::<u8>::empty());
        assert(is_fragment_header(h, *m, running, f));
    }
    build_file_header(&h)
}

} // verus!
