//! What surrounds the member encoders: the settings of each level, the choice
//! among candidates, the fallback to storing, and ciphertext by ranges.

use crate::crypto::cbc::{
    cbc_encrypted, cbc_next_iv, lemma_cbc_concat,
};
use crate::error::{is_unsupported, RarError, RarResult};
use crate::rar4::RAR4_METHOD_STORE;
use crate::text::{decimal, with_number};
use crate::version::{spec_codec, LegacyCodec};
use vstd::prelude::*;
use vstd::slice::{slice_subrange, slice_to_vec};
use vstd::string::*;

verus! {

/// Settings of the RAR 2.x encoder.
#[derive(Clone, Copy, PartialEq, Eq, Structural, Debug)]
pub struct Rar20Options {
    /// Match candidates that are tried.
    pub candidates: usize,
    pub lazy_matching: bool,
    pub lazy_lookahead: u8,
    pub optimal_parse: bool,
    pub try_audio: bool,
}

/// The RAR 2.x settings of a level: 16 to 1024 candidates, optimal parsing
/// from level 4 on, audio from level 2 on.
pub open spec fn spec_rar20_options(level: u8) -> Rar20Options {
    Rar20Options {
        candidates: if level == 1 {
            16
        } else if level == 2 {
            64
        } else if level == 3 {
            256
        } else if level == 4 {
            512
        } else {
            1024
        },
        lazy_matching: true,
        lazy_lookahead: 2,
        optimal_parse: level >= 4,
        try_audio: level > 1,
    }
}

/// The RAR 2.x settings of a level.
pub fn legacy_rar20_options(level: u8) -> (r: Rar20Options)
    ensures
        r == spec_rar20_options(level),
{
    let candidates: usize = match level {
        1 => 16,
        2 => 64,
        3 => 256,
        4 => 512,
        _ => 1024,
    };
    Rar20Options {
        candidates,
        lazy_matching: true,
        lazy_lookahead: 2,
        optimal_parse: level >= 4,
        try_audio: level > 1,
    }
}

/// Settings of the RAR 1.5 encoder.
#[derive(Clone, Copy, PartialEq, Eq, Structural, Debug)]
pub struct Rar15Options {
    pub old_distance_tokens: bool,
    pub lazy_matching: bool,
    pub stmode_literal_runs: bool,
    /// Farthest long match; none is no limit.
    pub max_long_match_distance: Option<usize>,
}

/// The RAR 1.5 settings of a level: old distances and literal runs from level
/// 3 on, long matches farther with every level, lazy matching never.
pub open spec fn spec_rar15_options(level: u8) -> Rar15Options {
    Rar15Options {
        old_distance_tokens: level != 1 && level != 2,
        lazy_matching: false,
        stmode_literal_runs: level != 1 && level != 2,
        max_long_match_distance: if level == 1 {
            Some(4096)
        } else if level == 2 {
            Some(8192)
        } else if level == 3 {
            Some(16384)
        } else if level == 4 {
            Some(24576)
        } else {
            None
        },
    }
}

/// The RAR 1.5 settings of a level.
pub fn legacy_rar15_options(level: u8) -> (r: Rar15Options)
    ensures
        r == spec_rar15_options(level),
{
    let weak = level == 1 || level == 2;
    let distance: Option<usize> = match level {
        1 => Some(4096),
        2 => Some(8192),
        3 => Some(16384),
        4 => Some(24576),
        _ => None,
    };
    Rar15Options {
        old_distance_tokens: !weak,
        lazy_matching: false,
        stmode_literal_runs: !weak,
        max_long_match_distance: distance,
    }
}

/// A level that compresses.
pub open spec fn compresses(level: u8) -> bool {
    1 <= level <= 5
}

/// What is done with a member before an encoder sees it.
#[derive(Clone, Copy, PartialEq, Eq, Structural, Debug)]
pub enum EncodeRoute {
    /// It is stored.
    Store,
    /// The codec's encoder tries it; in a solid archive on a copy of the
    /// run's own encoder, which takes its place only where the member packs.
    Try { codec: LegacyCodec, solid: bool },
}

/// What is done with a member: a version without an encoder is refused, a
/// level that does not compress and data that will not are stored.
pub fn encode_route(unp_ver: u8, level: u8, solid: bool, incompressible: bool) -> (r: RarResult<
    EncodeRoute,
>)
    ensures
        match r {
            Ok(EncodeRoute::Store) => incompressible || (spec_codec(unp_ver) is Some && !compresses(
                level,
            )),
            Ok(EncodeRoute::Try { codec, solid: s }) => !incompressible && compresses(level)
                && spec_codec(unp_ver) == Some(codec) && s == solid,
            Err(e) => !incompressible && spec_codec(unp_ver) is None && is_unsupported(
                e,
                "RAR4 write dispatch: unp_ver "@ + decimal(unp_ver as nat) + " has no encoder"@,
            ),
        },
{
    if incompressible {
        return Ok(EncodeRoute::Store);
    }
    match LegacyCodec::from_unp_ver(unp_ver) {
        None => Err(
            RarError::Unsupported(
                with_number("RAR4 write dispatch: unp_ver ", unp_ver as u64, " has no encoder"),
            ),
        ),
        Some(codec) => if level >= 1 && level <= 5 {
            Ok(EncodeRoute::Try { codec, solid })
        } else {
            Ok(EncodeRoute::Store)
        },
    }
}

/// The payload and method of a member: what the encoder made if it is smaller
/// than the data, else the data stored.
pub open spec fn packed_member(data: Seq<u8>, packed: Seq<u8>, level: u8) -> (Seq<u8>, u8) {
    if packed.len() < data.len() {
        (packed, (0x30 + level) as u8)
    } else {
        (data, RAR4_METHOD_STORE)
    }
}

/// The payload and method of a member, from what the encoder made of it.
pub fn packed_or_stored(data: Vec<u8>, packed: Vec<u8>, level: u8) -> (r: (Vec<u8>, u8))
    requires
        compresses(level),
    ensures
        (r.0@, r.1) == packed_member(data@, packed@, level),
        r.0@.len() <= data@.len(),
{
    if packed.len() < data.len() {
        (packed, RAR4_METHOD_STORE + level)
    } else {
        (data, RAR4_METHOD_STORE)
    }
}

/// A candidate is as short as any and shorter than all before it.
pub open spec fn is_best(candidates: Seq<Vec<u8>>, i: int) -> bool {
    &&& 0 <= i < candidates.len()
    &&& forall|j: int|
        0 <= j < candidates.len() ==> candidates[i]@.len() <= (#[trigger] candidates[j])@.len()
    &&& forall|j: int| 0 <= j < i ==> candidates[i]@.len() < (#[trigger] candidates[j])@.len()
}

/// Pick the smallest of a member's candidates, the first of those: the plain
/// one, those of its filters in order, and the PPMd one. Nothing is picked
/// where none is smaller than the data.
pub fn best_rar29_member(data_len: usize, candidates: Vec<Vec<u8>>) -> (r: Option<Vec<u8>>)
    ensures
        match r {
            Some(best) => best@.len() < data_len && exists|i: int|
                is_best(candidates@, i) && (#[trigger] candidates@[i])@ == best@,
            None => forall|i: int|
                0 <= i < candidates@.len() ==> (#[trigger] candidates@[i])@.len() >= data_len,
        },
{
    let n = candidates.len();
    if n == 0 {
        return None;
    }
    let mut best: usize = 0;
    let mut i: usize = 1;
    while i < n
        invariant
            1 <= i <= n,
            n == candidates@.len(),
            best < i,
            forall|j: int|
                0 <= j < i ==> candidates@[best as int]@.len() <= (#[trigger] candidates@[j])@.len(),
            forall|j: int|
                0 <= j < best ==> candidates@[best as int]@.len() < (#[trigger] candidates@[j])@.len(),
        decreases n - i,
    {
        if candidates[i].len() < candidates[best].len() {
            best = i;
        }
        i += 1;
    }
    assert(is_best(candidates@, best as int));
    if candidates[best].len() < data_len {
        Some(slice_to_vec(candidates[best].as_slice()))
    } else {
        None
    }
}

/// How a filter is used.
#[derive(Clone, Copy, PartialEq, Eq, Structural, Debug)]
pub enum FilterMode {
    Off,
    Auto,
    Forced,
}

/// The filter policy of a writer.
#[derive(Clone, Copy, PartialEq, Eq, Structural, Debug)]
pub struct FilterOptions {
    pub x86: FilterMode,
    pub delta: FilterMode,
    pub delta_channels: Option<u8>,
}

/// The filters of RAR 3.x members.
#[derive(Clone, Copy, PartialEq, Eq, Structural, Debug)]
pub enum Rar29FilterKind {
    E8,
    E8E9,
    Delta { channels: usize },
    Audio { channels: usize },
}

/// What the scanners found in a member.
#[derive(Clone, Copy, PartialEq, Eq, Structural, Debug)]
pub struct FilterScan {
    /// Some range looks like x86 calls and jumps.
    pub e8e9: bool,
    /// Some range looks like x86 calls.
    pub e8: bool,
    /// Channels of data with a regular step.
    pub delta_channels: Option<u8>,
    /// Channels of sound.
    pub audio_channels: Option<usize>,
}

/// The range of a filter: the whole member, or the ranges that the scanner
/// found.
#[derive(Clone, Copy, PartialEq, Eq, Structural, Debug)]
pub enum FilterExtent {
    Whole,
    Scanned,
}

/// The x86 candidates.
pub open spec fn x86_candidates(mode: FilterMode, scan: FilterScan) -> Seq<
    (Rar29FilterKind, FilterExtent),
> {
    match mode {
        FilterMode::Forced => seq![(Rar29FilterKind::E8E9, FilterExtent::Whole)],
        FilterMode::Auto => {
            let a = if scan.e8e9 {
                seq![(Rar29FilterKind::E8E9, FilterExtent::Scanned)]
            } else {
                Seq::empty()
            };
            let b = if scan.e8 {
                seq![(Rar29FilterKind::E8, FilterExtent::Scanned)]
            } else {
                Seq::empty()
            };
            a + b
        },
        FilterMode::Off => Seq::empty(),
    }
}

/// The delta candidates. A forced one takes the channels asked for, else those
/// found, else one.
pub open spec fn delta_candidates(policy: FilterOptions, scan: FilterScan) -> Seq<
    (Rar29FilterKind, FilterExtent),
> {
    let found = match scan.delta_channels {
        Some(c) => Some(c as usize),
        None => None,
    };
    match policy.delta {
        FilterMode::Forced => {
            let channels = match policy.delta_channels {
                Some(c) => c as usize,
                None => match found {
                    Some(c) => c,
                    None => 1,
                },
            };
            seq![(Rar29FilterKind::Delta { channels }, FilterExtent::Whole)]
        },
        FilterMode::Auto => match found {
            Some(channels) => seq![(Rar29FilterKind::Delta { channels }, FilterExtent::Whole)],
            None => Seq::empty(),
        },
        FilterMode::Off => Seq::empty(),
    }
}

/// The filter candidates of a member, in the order in which they are tried.
pub open spec fn filter_candidates(empty: bool, policy: FilterOptions, scan: FilterScan) -> Seq<
    (Rar29FilterKind, FilterExtent),
> {
    if empty {
        Seq::empty()
    } else {
        x86_candidates(policy.x86, scan) + delta_candidates(policy, scan) + match scan.audio_channels {
            Some(channels) => seq![(Rar29FilterKind::Audio { channels }, FilterExtent::Whole)],
            None => Seq::empty(),
        }
    }
}

/// The filter candidates that a policy allows for a member, from what the
/// scanners found in it.
pub fn rar29_filter_candidates(empty: bool, policy: FilterOptions, scan: FilterScan) -> (r: Vec<
    (Rar29FilterKind, FilterExtent),
>)
    ensures
        r@ == filter_candidates(empty, policy, scan),
{
    let mut out: Vec<(Rar29FilterKind, FilterExtent)> = Vec::new();
    if empty {
        return out;
    }
    match policy.x86 {
        FilterMode::Forced => {
            out.push((Rar29FilterKind::E8E9, FilterExtent::Whole));
        },
        FilterMode::Auto => {
            if scan.e8e9 {
                out.push((Rar29FilterKind::E8E9, FilterExtent::Scanned));
            }
            if scan.e8 {
                out.push((Rar29FilterKind::E8, FilterExtent::Scanned));
            }
        },
        FilterMode::Off => {},
    }
    assert(out@ =~= x86_candidates(policy.x86, scan));
    match policy.delta {
        FilterMode::Forced => {
            let channels: usize = match policy.delta_channels {
                Some(c) => c as usize,
                None => match scan.delta_channels {
                    Some(c) => c as usize,
                    None => 1,
                },
            };
            out.push((Rar29FilterKind::Delta { channels }, FilterExtent::Whole));
        },
        FilterMode::Auto => {
            if let Some(c) = scan.delta_channels {
                out.push((Rar29FilterKind::Delta { channels: c as usize }, FilterExtent::Whole));
            }
        },
        FilterMode::Off => {},
    }
    if let Some(channels) = scan.audio_channels {
        out.push((Rar29FilterKind::Audio { channels }, FilterExtent::Whole));
    }
    assert(out@ =~= filter_candidates(empty, policy, scan));
    out
}

/// How a member's payload is encrypted: by its codec's cipher, of which the
/// block ciphers pad it to whole blocks and the newest takes a salt.
#[derive(Clone, Copy, PartialEq, Eq, Structural, Debug)]
pub struct PayloadCipher {
    pub codec: LegacyCodec,
    pub padded: bool,
    pub salted: bool,
}

/// The cipher of a member version.
pub fn payload_cipher(unp_ver: u8) -> (r: RarResult<PayloadCipher>)
    ensures
        match r {
            Ok(c) => spec_codec(unp_ver) == Some(c.codec) && c.padded == (c.codec
                != LegacyCodec::Rar15) && c.salted == (c.codec == LegacyCodec::Rar29),
            Err(e) => spec_codec(unp_ver) is None && is_unsupported(
                e,
                "RAR4 write encryption: unp_ver "@ + decimal(unp_ver as nat) + " has no cipher"@,
            ),
        },
{
    match LegacyCodec::from_unp_ver(unp_ver) {
        Some(codec) => {
            let padded = codec != LegacyCodec::Rar15;
            let salted = codec == LegacyCodec::Rar29;
            Ok(PayloadCipher { codec, padded, salted })
        },
        None => Err(
            RarError::Unsupported(
                with_number("RAR4 write encryption: unp_ver ", unp_ver as u64, " has no cipher"),
            ),
        ),
    }
}

/// `n` up to whole cipher blocks.
pub open spec fn aligned16(n: int) -> int {
    (n + 15) / 16 * 16
}

/// Bytes of a payload on disk.
pub fn payload_len(plain_len: u64, cipher: Option<PayloadCipher>) -> (r: u64)
    requires
        plain_len <= u64::MAX - 15,
    ensures
        r == if cipher is Some && cipher->Some_0.padded {
            aligned16(plain_len as int)
        } else {
            plain_len as int
        },
{
    match cipher {
        Some(c) => if c.padded {
            (plain_len + 15) / 16 * 16
        } else {
            plain_len
        },
        None => plain_len,
    }
}

/// `data` with zeros up to whole cipher blocks.
pub open spec fn zero_aligned(data: Seq<u8>) -> Seq<u8> {
    data + Seq::new((aligned16(data.len() as int) - data.len()) as nat, |i: int| 0u8)
}

/// A member's ciphertext, in any ranges from its start to its end.
///
/// The cipher makes whole blocks, so a range encrypts ahead to a block
/// boundary and keeps what belongs to the range behind it.
pub struct BlockRangeEmitter {
    key: [u8; 16],
    iv: [u8; 16],
    consumed: usize,
    carry: Vec<u8>,
    first_iv: Ghost<Seq<u8>>,
}

impl BlockRangeEmitter {
    /// The key.
    pub closed spec fn key(self) -> Seq<u8> {
        self.key@
    }

    /// The vector that the member starts with.
    pub closed spec fn iv(self) -> Seq<u8> {
        self.first_iv@
    }

    /// Where the next range starts.
    pub closed spec fn position(self) -> int {
        self.consumed - self.carry@.len()
    }

    /// The emitter is part way through the ciphertext of `plain`.
    pub closed spec fn emits(self, plain: Seq<u8>) -> bool {
        let padded = zero_aligned(plain);
        let done = padded.take(self.consumed as int);
        &&& self.consumed % 16 == 0
        &&& self.consumed <= padded.len()
        &&& self.carry@.len() <= self.consumed
        &&& self.iv@ == cbc_next_iv(self.key@, self.first_iv@, done)
        &&& cbc_encrypted(self.key@, self.first_iv@, done).len() == self.consumed
        &&& self.carry@ == cbc_encrypted(self.key@, self.first_iv@, done).skip(
            self.consumed - self.carry@.len(),
        )
    }

    /// The whole ciphertext of `plain`.
    pub open spec fn ciphertext(self, plain: Seq<u8>) -> Seq<u8> {
        cbc_encrypted(self.key(), self.iv(), zero_aligned(plain))
    }

    /// At the start of a member.
    pub fn new(key: &[u8; 16], iv: &[u8; 16]) -> (r: BlockRangeEmitter)
        ensures
            r.key() == key@,
            r.iv() == iv@,
            r.position() == 0,
            forall|plain: Seq<u8>| r.emits(plain),
    {
        let r = BlockRangeEmitter {
            key: *key,
            iv: *iv,
            consumed: 0,
            carry: Vec::new(),
            first_iv: Ghost(iv@),
        };
        proof {
            assert forall|plain: Seq<u8>| r.emits(plain) by {
                let done = zero_aligned(plain).take(0);
                assert(done =~= Seq::<u8>::empty());
                assert(cbc_encrypted(key@, iv@, done).skip(0) =~= r.carry@);
            }
        }
        r
    }

    /// Append the next `end - position` bytes of the ciphertext of `plain`.
    #[verifier::rlimit(40)]
    pub fn emit_to(&mut self, plain: &[u8], end: usize, out: &mut Vec<u8>)
        requires
            old(self).emits(plain@),
            plain@.len() <= usize::MAX - 15,
            old(self).position() <= end <= aligned16(plain@.len() as int),
        ensures
            final(self).emits(plain@),
            final(self).key() == old(self).key(),
            final(self).iv() == old(self).iv(),
            final(self).position() == end,
            final(out)@ == old(out)@ + final(self).ciphertext(plain@).subrange(
                old(self).position(),
                end as int,
            ),
    {
        let ghost key = self.key@;
        let ghost iv0 = self.first_iv@;
        let ghost padded = zero_aligned(plain@);
        let ghost start = self.position();
        let ghost before_out = out@;
        let total = plain.len();
        let read_end = if end % 16 == 0 {
            end
        } else {
            end + (16 - end % 16)
        };
        let mut buf: Vec<u8> = slice_to_vec(self.carry.as_slice());
        if self.consumed < read_end {
            let mut block: Vec<u8> = Vec::new();
            let ghost old_done = padded.take(self.consumed as int);
            let mut i = self.consumed;
            while i < read_end
                invariant
                    self.consumed <= i <= read_end,
                    total == plain@.len(),
                    padded == zero_aligned(plain@),
                    read_end <= padded.len(),
                    block@ == padded.subrange(self.consumed as int, i as int),
                decreases read_end - i,
            {
                if i < total {
                    block.push(plain[i]);
                } else {
                    block.push(0);
                }
                i += 1;
                assert(block@ =~= padded.subrange(self.consumed as int, i as int));
            }
            let ghost piece = block@;
            let ghost chain = self.iv@;
            crate::crypto::cbc::encrypt_blocks_128(&mut block, &self.key, &self.iv);
            let ghost cipher = block@;
            let n = block.len();
            self.iv = crate::crypto::cbc::array_at(block.as_slice(), n - 16);
            buf.extend_from_slice(block.as_slice());
            proof {
                let done = padded.take(read_end as int);
                assert(done =~= old_done + piece);
                lemma_cbc_concat(key, iv0, old_done, piece);
                crate::crypto::cbc::lemma_next_iv_is_last(key, chain, piece, cipher);
            }
            self.consumed = read_end;
        }
        let keep = self.consumed - end;
        let split = buf.len() - keep;
        out.extend_from_slice(slice_subrange(buf.as_slice(), 0, split));
        self.carry = slice_to_vec(slice_subrange(buf.as_slice(), split, buf.len()));
        proof {
            let done = padded.take(self.consumed as int);
            let all = cbc_encrypted(key, iv0, done);
            assert(buf@ =~= all.skip(start));
            assert(self.carry@ =~= all.skip(end as int));
            assert(out@ =~= before_out + all.take(end as int).skip(start));
            lemma_emitted_is_ciphertext(*self, plain@, end as int);
            assert(self.ciphertext(plain@).take(end as int).skip(start) =~= self.ciphertext(
                plain@,
            ).subrange(start, end as int));
        }
    }
}

/// What has been encrypted is the start of the whole ciphertext.
proof fn lemma_emitted_is_ciphertext(e: BlockRangeEmitter, plain: Seq<u8>, end: int)
    requires
        e.emits(plain),
        0 <= end <= e.consumed,
    ensures
        cbc_encrypted(
            e.key@,
            e.first_iv@,
            zero_aligned(plain).take(e.consumed as int),
        ).take(end) == e.ciphertext(plain).take(end),
        e.ciphertext(plain).len() >= e.consumed,
{
    let padded = zero_aligned(plain);
    let done = padded.take(e.consumed as int);
    let rest = padded.skip(e.consumed as int);
    assert(padded =~= done + rest);
    lemma_cbc_concat(e.key@, e.first_iv@, done, rest);
    let a = cbc_encrypted(e.key@, e.first_iv@, done);
    let b = cbc_encrypted(e.key@, cbc_next_iv(e.key@, e.first_iv@, done), rest);
    assert((a + b).take(end) =~= a.take(end));
}

} // verus!
