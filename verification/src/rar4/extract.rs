//! Solid chains: which members share a decoder, where a chain starts, and
//! what has to be decoded to reach a member.

use crate::engine::entry::ArchiveEntry;
use crate::error::{RarError, RarResult};
use crate::model::FileHeader;
use crate::rar4::read::{
    checksum_verdict, rar4_verify_crc, spec_member_checksum, verify_member_crc,
};
use crate::version::{spec_codec, LegacyCodec};
use vstd::prelude::*;

verus! {

/// The member is of the newest codec, whose solid runs are flagged member by
/// member.
pub open spec fn is_rar29(hdr: FileHeader) -> bool {
    spec_codec(hdr.unp_ver) == Some(LegacyCodec::Rar29)
}

fn is_rar29_codec(hdr: &FileHeader) -> (r: bool)
    ensures
        r == is_rar29(*hdr),
{
    match LegacyCodec::from_unp_ver(hdr.unp_ver) {
        Some(LegacyCodec::Rar29) => true,
        _ => false,
    }
}

/// Whether a member sits in a solid run. Members of the newest codec chain by
/// their own flag, a run's head by the flag of the member behind it; members
/// of older codecs by the archive's flag.
pub open spec fn in_solid_run(
    entries: Seq<ArchiveEntry>,
    archive_solid: bool,
    idx: int,
) -> bool {
    let hdr = entries[idx].header;
    if !is_rar29(hdr) {
        archive_solid && !hdr.is_directory
    } else {
        hdr.comp_solid || (idx + 1 < entries.len() && entries[idx + 1].header.comp_solid)
    }
}

/// Whether a member sits in a solid run.
pub fn is_rar4_solid_member(entries: &[ArchiveEntry], archive_solid: bool, idx: usize) -> (r: bool)
    requires
        idx < entries@.len(),
    ensures
        r == in_solid_run(entries@, archive_solid, idx as int),
{
    let hdr = &entries[idx].header;
    if !is_rar29_codec(hdr) {
        return archive_solid && !hdr.is_directory;
    }
    if hdr.comp_solid {
        return true;
    }
    let next = entries.len() - idx;
    next > 1 && entries[idx + 1].header.comp_solid
}

/// A compressed file: what moves a shared window on.
pub open spec fn moves_window(e: ArchiveEntry) -> bool {
    !e.header.is_directory && e.header.comp_method != 0
}

/// The first of the members before `limit` that moves the window, from `at`
/// on; `limit` if there is none.
pub open spec fn first_moving(entries: Seq<ArchiveEntry>, at: int, limit: int) -> int
    decreases limit - at,
{
    if at >= limit || moves_window(entries[at]) {
        at
    } else {
        first_moving(entries, at + 1, limit)
    }
}

/// The last file before `idx`, if there is one.
pub open spec fn file_before(entries: Seq<ArchiveEntry>, idx: int) -> Option<int>
    decreases idx,
{
    if idx <= 0 {
        None
    } else if !entries[idx - 1].header.is_directory {
        Some(idx - 1)
    } else {
        file_before(entries, idx - 1)
    }
}

/// The head of the flagged run that `idx` belongs to: a flagged member
/// continues the file before it, directories passed over.
pub open spec fn run_head(entries: Seq<ArchiveEntry>, idx: int) -> int
    decreases idx,
{
    if !entries[idx].header.comp_solid {
        idx
    } else {
        match file_before(entries, idx) {
            None => idx,
            Some(p) => if 0 <= p < idx && is_rar29(entries[p].header) {
                run_head(entries, p)
            } else {
                idx
            },
        }
    }
}

/// Where the solid chain of a member starts.
pub open spec fn chain_start(entries: Seq<ArchiveEntry>, target: int) -> int {
    if is_rar29(entries[target].header) {
        run_head(entries, target)
    } else {
        first_moving(entries, 0, target)
    }
}

proof fn lemma_file_before(entries: Seq<ArchiveEntry>, idx: int)
    ensures
        file_before(entries, idx) matches Some(p) ==> 0 <= p < idx && !entries[p].header.is_directory
            && forall|j: int| p < j < idx ==> #[trigger] entries[j].header.is_directory,
        file_before(entries, idx) is None ==> forall|j: int|
            0 <= j < idx ==> #[trigger] entries[j].header.is_directory,
    decreases idx,
{
    if idx > 0 && entries[idx - 1].header.is_directory {
        lemma_file_before(entries, idx - 1);
    }
}

proof fn lemma_first_moving(entries: Seq<ArchiveEntry>, at: int, limit: int)
    requires
        at <= limit,
    ensures
        at <= first_moving(entries, at, limit) <= limit,
        forall|j: int|
            at <= j < first_moving(entries, at, limit) ==> !moves_window(#[trigger] entries[j]),
        first_moving(entries, at, limit) < limit ==> moves_window(
            entries[first_moving(entries, at, limit)],
        ),
    decreases limit - at,
{
    if at < limit && !moves_window(entries[at]) {
        lemma_first_moving(entries, at + 1, limit);
    }
}

proof fn lemma_run_head(entries: Seq<ArchiveEntry>, idx: int)
    requires
        0 <= idx < entries.len(),
    ensures
        0 <= run_head(entries, idx) <= idx,
        is_rar29(entries[idx].header) ==> is_rar29(entries[run_head(entries, idx)].header),
    decreases idx,
{
    if entries[idx].header.comp_solid {
        lemma_file_before(entries, idx);
        if let Some(p) = file_before(entries, idx) {
            if is_rar29(entries[p].header) {
                lemma_run_head(entries, p);
            }
        }
    }
}

/// A chain starts at its member or before it, and no file of a chain of older
/// codecs before its start moves the window.
pub proof fn lemma_chain_start(entries: Seq<ArchiveEntry>, target: int)
    requires
        0 <= target < entries.len(),
    ensures
        0 <= chain_start(entries, target) <= target,
        !is_rar29(entries[target].header) ==> forall|j: int|
            0 <= j < chain_start(entries, target) ==> !moves_window(#[trigger] entries[j]),
{
    lemma_run_head(entries, target);
    lemma_first_moving(entries, 0, target);
}

/// Every member of a flagged run has the same start: what follows a run's
/// head, flagged and of the newest codec, leads back to it.
pub proof fn lemma_run_shares_head(entries: Seq<ArchiveEntry>, idx: int)
    requires
        0 <= idx < entries.len(),
        is_rar29(entries[idx].header),
        entries[idx].header.comp_solid,
        file_before(entries, idx) matches Some(p) && is_rar29(entries[p].header),
    ensures
        chain_start(entries, idx) == chain_start(entries, file_before(entries, idx)->Some_0),
{
    lemma_file_before(entries, idx);
}

/// Find where the solid chain of a member starts.
pub fn rar4_find_chain_start(entries: &[ArchiveEntry], target_idx: usize) -> (r: usize)
    requires
        target_idx < entries@.len(),
    ensures
        r == chain_start(entries@, target_idx as int),
        r <= target_idx,
{
    proof {
        lemma_chain_start(entries@, target_idx as int);
    }
    if !is_rar29_codec(&entries[target_idx].header) {
        let mut i: usize = 0;
        while i < target_idx && !(!entries[i].header.is_directory && entries[i].header.comp_method
            != 0)
            invariant
                i <= target_idx < entries@.len(),
                first_moving(entries@, 0, target_idx as int) == first_moving(
                    entries@,
                    i as int,
                    target_idx as int,
                ),
            decreases target_idx - i,
        {
            i += 1;
        }
        return i;
    }
    let mut head = target_idx;
    while entries[head].header.comp_solid
        invariant
            head <= target_idx < entries@.len(),
            is_rar29(entries@[target_idx as int].header),
            run_head(entries@, target_idx as int) == run_head(entries@, head as int),
        decreases head,
    {
        let mut before = head;
        while before > 0 && entries[before - 1].header.is_directory
            invariant
                before <= head < entries@.len(),
                file_before(entries@, head as int) == file_before(entries@, before as int),
            decreases before,
        {
            before -= 1;
        }
        assert(file_before(entries@, before as int) == if before == 0 {
            None::<int>
        } else {
            Some(before - 1)
        });
        if before == 0 || !is_rar29_codec(&entries[before - 1].header) {
            return head;
        }
        head = before - 1;
    }
    head
}

/// How far the shared decoder of a solid chain has come.
#[derive(Clone, Copy, PartialEq, Eq, Structural, Debug)]
pub struct SolidState {
    /// Codec of the decoder, if there is one.
    pub codec: Option<LegacyCodec>,
    /// Last member decoded, from -1.
    pub decoded_through: i64,
}

/// Immediately before a chain, with no decoder.
pub open spec fn reset_state(start: int) -> SolidState {
    SolidState { codec: None, decoded_through: (start - 1) as i64 }
}

/// Reset the shared decoder to immediately before a chain.
pub fn reset_rar4_solid_decoder(start: usize) -> (r: SolidState)
    requires
        start <= 0x7fff_ffff_ffff_ffff,
    ensures
        r == reset_state(start as int),
{
    SolidState { codec: None, decoded_through: start as i64 - 1 }
}

/// Where decoding starts: behind what the decoder has decoded, if that is
/// inside the chain and before the target; else at the chain's start, with a
/// fresh decoder.
pub open spec fn resumed(state: SolidState, start: int, target: int) -> SolidState {
    let s = if state.codec is Some && start <= state.decoded_through < target {
        state
    } else {
        reset_state(start)
    };
    SolidState {
        codec: match s.codec {
            Some(c) => Some(c),
            None => Some(LegacyCodec::Rar29),
        },
        ..s
    }
}

/// The codec of the shared decoder for a member: its own, if it is compressed
/// with a known one; a stored member leaves the decoder as it is.
pub open spec fn codec_for(hdr: FileHeader, codec: LegacyCodec) -> LegacyCodec {
    if hdr.comp_method != 0 {
        match spec_codec(hdr.unp_ver) {
            Some(c) => c,
            None => codec,
        }
    } else {
        codec
    }
}

/// One member to decode, with the codec of the shared decoder. A decoder of
/// another codec is replaced by a fresh one.
#[derive(Clone, Copy, PartialEq, Eq, Structural, Debug)]
pub struct SolidTask {
    pub index: usize,
    pub codec: LegacyCodec,
    pub fresh: bool,
}

/// The members to decode from `from` to `target`: every file, in order.
pub open spec fn solid_tasks(
    entries: Seq<ArchiveEntry>,
    from: int,
    target: int,
    codec: LegacyCodec,
) -> Seq<SolidTask>
    decreases target + 1 - from,
{
    if from > target {
        Seq::empty()
    } else if entries[from].header.is_directory {
        solid_tasks(entries, from + 1, target, codec)
    } else {
        let next = codec_for(entries[from].header, codec);
        seq![SolidTask { index: from as usize, codec: next, fresh: next != codec }] + solid_tasks(
            entries,
            from + 1,
            target,
            next,
        )
    }
}

/// Plan the decoding of a solid chain up to a member: the state to start
/// from, and the members to decode with the shared decoder. The target's own
/// bytes are those of the last task.
pub fn rar4_decode_solid_through(
    entries: &[ArchiveEntry],
    state: SolidState,
    target_idx: usize,
) -> (r: (SolidState, Vec<SolidTask>))
    requires
        target_idx < entries@.len() <= 0x7fff_ffff_ffff_ffff,
        state.decoded_through >= -1,
    ensures
        r.0 == resumed(state, chain_start(entries@, target_idx as int), target_idx as int),
        r.0.codec is Some,
        r.1@ == solid_tasks(
            entries@,
            r.0.decoded_through + 1,
            target_idx as int,
            r.0.codec->Some_0,
        ),
{
    let start = rar4_find_chain_start(entries, target_idx);
    let going_on = match state.codec {
        Some(_) => state.decoded_through >= start as i64 && state.decoded_through
            < target_idx as i64,
        None => false,
    };
    let base = if going_on {
        state
    } else {
        reset_rar4_solid_decoder(start)
    };
    let first = match base.codec {
        Some(c) => c,
        None => LegacyCodec::Rar29,
    };
    let begun = SolidState { codec: Some(first), decoded_through: base.decoded_through };
    let mut codec = first;
    let mut tasks: Vec<SolidTask> = Vec::new();
    let mut i: usize = (begun.decoded_through + 1) as usize;
    let ghost all = solid_tasks(entries@, i as int, target_idx as int, first);
    proof {
        assert(tasks@ + all =~= all);
    }
    while i <= target_idx
        invariant
            i <= target_idx + 1,
            target_idx < entries@.len() <= 0x7fff_ffff_ffff_ffff,
            tasks@ + solid_tasks(entries@, i as int, target_idx as int, codec) == all,
        decreases target_idx + 1 - i,
    {
        let hdr = &entries[i].header;
        if !hdr.is_directory {
            let next = if hdr.comp_method != 0 {
                match LegacyCodec::from_unp_ver(hdr.unp_ver) {
                    Some(c) => c,
                    None => codec,
                }
            } else {
                codec
            };
            let task = SolidTask { index: i, codec: next, fresh: next != codec };
            let ghost done = tasks@;
            let ghost rest = solid_tasks(entries@, i + 1, target_idx as int, next);
            tasks.push(task);
            proof {
                assert(tasks@ + rest =~= done + (seq![task] + rest));
            }
            codec = next;
        }
        i += 1;
    }
    assert(tasks@ + solid_tasks(entries@, i as int, target_idx as int, codec) =~= tasks@);
    (begun, tasks)
}

/// The codec of the shared decoder after the members from `from` to `to`.
pub open spec fn codec_through(
    entries: Seq<ArchiveEntry>,
    from: int,
    to: int,
    codec: LegacyCodec,
) -> LegacyCodec
    decreases to + 1 - from,
{
    if from > to {
        codec
    } else if entries[from].header.is_directory {
        codec_through(entries, from + 1, to, codec)
    } else {
        codec_through(entries, from + 1, to, codec_for(entries[from].header, codec))
    }
}

/// Decoding up to `mid` and going on from there is decoding up to `target` at
/// once: the same members, in the same order, with the same codecs.
pub proof fn lemma_going_on(
    entries: Seq<ArchiveEntry>,
    from: int,
    mid: int,
    target: int,
    codec: LegacyCodec,
)
    requires
        from <= mid + 1,
        mid <= target,
    ensures
        solid_tasks(entries, from, target, codec) == solid_tasks(entries, from, mid, codec)
            + solid_tasks(entries, mid + 1, target, codec_through(entries, from, mid, codec)),
    decreases mid + 1 - from,
{
    if from > mid {
        assert(solid_tasks(entries, from, mid, codec) =~= Seq::<SolidTask>::empty());
        assert(solid_tasks(entries, from, target, codec) =~= solid_tasks(entries, from, mid, codec)
            + solid_tasks(entries, mid + 1, target, codec));
    } else if entries[from].header.is_directory {
        lemma_going_on(entries, from + 1, mid, target, codec);
    } else {
        let next = codec_for(entries[from].header, codec);
        lemma_going_on(entries, from + 1, mid, target, next);
        let task = SolidTask { index: from as usize, codec: next, fresh: next != codec };
        let a = solid_tasks(entries, from + 1, mid, next);
        let b = solid_tasks(entries, mid + 1, target, codec_through(entries, from, mid, codec));
        assert(seq![task] + (a + b) =~= (seq![task] + a) + b);
    }
}

/// How a member is reached.
pub enum DecodePlan {
    /// On its own.
    Alone,
    /// Through its solid chain: the state to start from, and the members to
    /// decode with the shared decoder.
    Solid { start: SolidState, tasks: Vec<SolidTask> },
}

/// Plan the decoding of one member.
pub fn decode_rar4_at(
    entries: &[ArchiveEntry],
    archive_solid: bool,
    state: SolidState,
    idx: usize,
) -> (r: DecodePlan)
    requires
        idx < entries@.len() <= 0x7fff_ffff_ffff_ffff,
        state.decoded_through >= -1,
    ensures
        match r {
            DecodePlan::Alone => !in_solid_run(entries@, archive_solid, idx as int),
            DecodePlan::Solid { start, tasks } => {
                &&& in_solid_run(entries@, archive_solid, idx as int)
                &&& start == resumed(state, chain_start(entries@, idx as int), idx as int)
                &&& start.codec is Some
                &&& tasks@ == solid_tasks(
                    entries@,
                    start.decoded_through + 1,
                    idx as int,
                    start.codec->Some_0,
                )
            },
        },
{
    if is_rar4_solid_member(entries, archive_solid, idx) {
        let (start, tasks) = rar4_decode_solid_through(entries, state, idx);
        DecodePlan::Solid { start, tasks }
    } else {
        DecodePlan::Alone
    }
}

/// The result of a member's decoding, and the shared decoder's state behind
/// it. The bytes are checked against the member's checksum. A member of a
/// chain that fails leaves the decoder immediately before the chain.
pub fn finish_rar4_member_read(
    entries: &[ArchiveEntry],
    archive_solid: bool,
    idx: usize,
    state: SolidState,
    decoded: RarResult<Vec<u8>>,
) -> (r: (RarResult<Vec<u8>>, SolidState))
    requires
        idx < entries@.len() <= 0x7fff_ffff_ffff_ffff,
    ensures
        ({
            let hdr = entries@[idx as int].header;
            &&& match decoded {
                Err(e) => r.0 == Err::<Vec<u8>, RarError>(e),
                Ok(data) => match r.0 {
                    Ok(d) => d == data && checksum_verdict(
                        hdr,
                        spec_member_checksum(hdr, data@),
                        Ok(()),
                    ),
                    Err(e) => checksum_verdict(hdr, spec_member_checksum(hdr, data@), Err(e)),
                },
            }
            &&& r.1 == if r.0 is Err && in_solid_run(entries@, archive_solid, idx as int) {
                reset_state(chain_start(entries@, idx as int))
            } else {
                state
            }
        }),
{
    let hdr = &entries[idx].header;
    let checked = match decoded {
        Ok(data) => match rar4_verify_crc(hdr, data.as_slice()) {
            Ok(_) => Ok(data),
            Err(e) => Err(e),
        },
        Err(e) => Err(e),
    };
    let failed = match &checked {
        Ok(_) => false,
        Err(_) => true,
    };
    let after = if failed && is_rar4_solid_member(entries, archive_solid, idx) {
        reset_rar4_solid_decoder(rar4_find_chain_start(entries, idx))
    } else {
        state
    };
    (checked, after)
}

/// The end of a member that streamed out: the checksum taken on the way is
/// compared with the header's. `written` is how many bytes went out.
pub fn decode_rar4_to(hdr: &FileHeader, written: u64, crc: u32, rolling: u16) -> (r: RarResult<u64>)
    ensures
        ({
            let actual = if hdr.format_version == 3 {
                rolling as u32
            } else {
                crc
            };
            match r {
                Ok(n) => n == written && checksum_verdict(*hdr, actual, Ok(())),
                Err(e) => checksum_verdict(*hdr, actual, Err(e)),
            }
        }),
{
    let actual = if hdr.format_version == 3 {
        rolling as u32
    } else {
        crc
    };
    match verify_member_crc(hdr, actual) {
        Ok(_) => Ok(written),
        Err(e) => Err(e),
    }
}

/// Most packed bytes of a stored member that is copied through: without a
/// limit on unpacked bytes there is none on these.
pub fn max_stream_packed_bytes(max_unpacked_bytes: Option<u64>) -> (r: u64)
    ensures
        r == match max_unpacked_bytes {
            Some(u) => if u + 0x10_0000 > u64::MAX {
                u64::MAX
            } else {
                (u + 0x10_0000) as u64
            },
            None => u64::MAX,
        },
{
    match max_unpacked_bytes {
        Some(u) => u.saturating_add(0x10_0000),
        None => u64::MAX,
    }
}

} // verus!
