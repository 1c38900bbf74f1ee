//! What reading members comes to: whose bytes they are, when a password is
//! asked for, which decoder sees them, and what a checksum decides.

use crate::crypto::clamped;
use crate::crypto::rar13::{password_key, rar13_encrypted};
use crate::engine::entry::ArchiveEntry;
use crate::error::{RarError, RarResult};
use crate::model::{DataChunk, FileHeader};
use crate::rar4::envelope::Rar4Block;
use crate::rar4::extract::{
    chain_start, first_moving, in_solid_run, resumed, solid_tasks, SolidState,
};
use crate::rar4::headers::{describes, field};
use crate::rar4::read::{
    checksum_verdict, chunk_bytes, member_step, payload_of, spec_member_checksum, stream_step,
    unpacked_result, MemberStep,
};
use crate::rar4::scan::{scan_step, AfterBlock, ScanView};
use crate::crc32::spec_crc32;
use crate::shared::checksum::rolling_from;
use crate::shared::split::packed_total;
use crate::version::LegacyCodec;
use vstd::prelude::*;
use vstd::utf8::encode_utf8;

verus! {

/// The parts of a payload: each chunk's bytes, where its volume has them.
pub open spec fn are_parts(
    volumes: Seq<Seq<u8>>,
    chunks: Seq<DataChunk>,
    parts: Seq<Seq<u8>>,
) -> bool {
    &&& parts.len() == chunks.len()
    &&& forall|i: int|
        0 <= i < chunks.len() ==> {
            let c = #[trigger] chunks[i];
            &&& c.volume_index < volumes.len()
            &&& c.data_offset + c.packed_size <= volumes[c.volume_index as int].len()
            &&& parts[i] == volumes[c.volume_index as int].subrange(
                c.data_offset as int,
                c.data_offset + c.packed_size,
            )
        }
}

proof fn lemma_parts_payload(volumes: Seq<Seq<u8>>, chunks: Seq<DataChunk>, parts: Seq<Seq<u8>>)
    requires
        are_parts(volumes, chunks, parts),
    ensures
        payload_of(volumes, chunks) == parts.flatten(),
        packed_total(chunks) == parts.flatten().len(),
        crate::rar4::read::all_present(volumes, chunks),
    decreases chunks.len(),
{
    parts.lemma_flatten_and_flatten_alt_are_equivalent();
    if chunks.len() > 0 {
        let last = chunks[chunks.len() - 1];
        let c = chunks.drop_last();
        let p = parts.drop_last();
        assert forall|i: int| 0 <= i < c.len() implies {
            let k = #[trigger] c[i];
            &&& k.volume_index < volumes.len()
            &&& k.data_offset + k.packed_size <= volumes[k.volume_index as int].len()
            &&& p[i] == volumes[k.volume_index as int].subrange(
                k.data_offset as int,
                k.data_offset + k.packed_size,
            )
        } by {
            assert(c[i] == chunks[i]);
            assert(p[i] == parts[i]);
        }
        lemma_parts_payload(volumes, c, p);
        p.lemma_flatten_and_flatten_alt_are_equivalent();
        assert(parts.last() == parts[chunks.len() - 1]);
        if last.packed_size == 0 {
            assert(parts.last() =~= Seq::<u8>::empty());
        }
        assert(chunk_bytes(volumes, last) =~= parts.last());
    } else {
        assert(parts =~= Seq::<Seq<u8>>::empty());
    }
}

/// A member's header and chunks agree, within a limit.
pub open spec fn agrees(hdr: FileHeader, parts: Seq<Seq<u8>>, limit: u64) -> bool {
    &&& hdr.packed_size == parts.flatten().len()
    &&& hdr.packed_size <= limit
    &&& hdr.packed_size <= usize::MAX
    &&& hdr.unpacked_size <= usize::MAX
    &&& hdr.packed_size > 0
}

/// A stored member without a password is the bytes of its chunks, one after the
/// other.
pub proof fn lemma_stored_member_law(
    volumes: Seq<Seq<u8>>,
    chunks: Seq<DataChunk>,
    parts: Seq<Seq<u8>>,
    hdr: FileHeader,
    password: Option<Seq<char>>,
    decoder: Option<LegacyCodec>,
    limit: u64,
    streaming: bool,
    r: RarResult<MemberStep>,
)
    requires
        are_parts(volumes, chunks, parts),
        agrees(hdr, parts, limit),
        hdr.flags & 4 == 0,
        hdr.comp_method == 0,
        hdr.unpacked_size == hdr.packed_size,
        member_step(volumes, chunks, hdr, password, decoder, limit, streaming, r),
    ensures
        r matches Ok(MemberStep::Done(data)) && data@ == parts.flatten(),
{
    lemma_parts_payload(volumes, chunks, parts);
    let all = parts.flatten();
    assert(all.take(all.len() as int) =~= all);
}

/// A stored member without a password is copied through where it is streamed.
pub proof fn lemma_stored_member_streams_law(
    volumes: Seq<Seq<u8>>,
    chunks: Seq<DataChunk>,
    parts: Seq<Seq<u8>>,
    hdr: FileHeader,
    password: Option<Seq<char>>,
    decoder: Option<LegacyCodec>,
    max_alloc: u64,
    max_stream: u64,
    r: RarResult<MemberStep>,
)
    requires
        are_parts(volumes, chunks, parts),
        agrees(hdr, parts, max_stream),
        hdr.flags & 4 == 0,
        hdr.comp_method == 0,
        hdr.unpacked_size == hdr.packed_size,
        stream_step(volumes, chunks, hdr, password, decoder, max_alloc, max_stream, r),
    ensures
        r matches Ok(MemberStep::Copy),
{
    lemma_parts_payload(volumes, chunks, parts);
}

/// An encrypted member is not read without a password.
pub proof fn lemma_password_is_asked_for(
    volumes: Seq<Seq<u8>>,
    chunks: Seq<DataChunk>,
    parts: Seq<Seq<u8>>,
    hdr: FileHeader,
    decoder: Option<LegacyCodec>,
    limit: u64,
    streaming: bool,
    r: RarResult<MemberStep>,
)
    requires
        are_parts(volumes, chunks, parts),
        agrees(hdr, parts, limit),
        hdr.flags & 4 != 0,
        member_step(volumes, chunks, hdr, None, decoder, limit, streaming, r),
    ensures
        r matches Err(RarError::Encrypted(_)),
{
    lemma_parts_payload(volumes, chunks, parts);
}

/// An encrypted member of a RAR 1.5 to 4.x archive goes, whole, to the cipher
/// of its version; one without a password to its version's decoder, the chain's
/// in a solid one.
pub proof fn lemma_payload_goes_to_its_codec(
    volumes: Seq<Seq<u8>>,
    chunks: Seq<DataChunk>,
    parts: Seq<Seq<u8>>,
    hdr: FileHeader,
    password: Seq<char>,
    solid: bool,
    codec: LegacyCodec,
    limit: u64,
    streaming: bool,
    r: RarResult<MemberStep>,
)
    requires
        are_parts(volumes, chunks, parts),
        agrees(hdr, parts, limit),
        hdr.comp_method != 0,
        hdr.format_version == 4,
        (hdr.unp_ver == 15 && codec == LegacyCodec::Rar15) || ((hdr.unp_ver == 20 || hdr.unp_ver
            == 26) && codec == LegacyCodec::Rar20) || ((hdr.unp_ver == 29 || hdr.unp_ver == 36)
            && codec == LegacyCodec::Rar29),
        member_step(
            volumes,
            chunks,
            hdr,
            Some(password),
            if solid {
                Some(codec)
            } else {
                None
            },
            limit,
            streaming,
            r,
        ),
    ensures
        hdr.flags & 4 != 0 ==> (r matches Ok(MemberStep::Decrypt { codec: c, packed: p }) && c
            == codec && p@ == parts.flatten()),
        hdr.flags & 4 == 0 ==> (r matches Ok(MemberStep::Unpack { codec: c, packed: p, solid: s })
            && c == codec && p@ == parts.flatten() && s == solid),
{
    lemma_parts_payload(volumes, chunks, parts);
}

/// A stored RAR 1.3 member comes back from what its password's cipher made of
/// it.
pub proof fn lemma_rar13_member_law(
    volumes: Seq<Seq<u8>>,
    chunks: Seq<DataChunk>,
    parts: Seq<Seq<u8>>,
    plain: Seq<u8>,
    hdr: FileHeader,
    password: Seq<char>,
    decoder: Option<LegacyCodec>,
    limit: u64,
    streaming: bool,
    r: RarResult<MemberStep>,
)
    requires
        are_parts(volumes, chunks, parts),
        agrees(hdr, parts, limit),
        hdr.flags & 4 != 0,
        hdr.comp_method == 0,
        hdr.format_version == 3,
        hdr.unpacked_size == plain.len(),
        parts.flatten() == rar13_encrypted(
            password_key(clamped(encode_utf8(password))),
            plain,
        ),
        member_step(volumes, chunks, hdr, Some(password), decoder, limit, streaming, r),
    ensures
        r matches Ok(MemberStep::Done(data)) && data@ == plain,
{
    lemma_parts_payload(volumes, chunks, parts);
    crate::crypto::rar13::lemma_rar13_roundtrip(
        password_key(clamped(encode_utf8(password))),
        plain,
    );
    assert(plain.take(plain.len() as int) =~= plain);
}

/// Sizes that do not agree, or exceed the limit, are refused before anything is
/// read.
pub proof fn lemma_sizes_are_checked(
    volumes: Seq<Seq<u8>>,
    chunks: Seq<DataChunk>,
    hdr: FileHeader,
    password: Option<Seq<char>>,
    decoder: Option<LegacyCodec>,
    limit: u64,
    streaming: bool,
    r: RarResult<MemberStep>,
)
    requires
        packed_total(chunks) != hdr.packed_size || hdr.packed_size > limit,
        member_step(volumes, chunks, hdr, password, decoder, limit, streaming, r),
    ensures
        r is Err,
        packed_total(chunks) == hdr.packed_size ==> r->Err_0 is LimitExceeded,
        packed_total(chunks) != hdr.packed_size ==> r->Err_0 is Format,
{
}

/// Packed sizes add up.
pub proof fn lemma_packed_total_law(chunks: Seq<DataChunk>, c: DataChunk)
    ensures
        packed_total(Seq::<DataChunk>::empty()) == 0,
        packed_total(chunks.push(c)) == packed_total(chunks) + c.packed_size,
{
    assert(chunks.push(c).drop_last() =~= chunks);
}

/// A member's bytes are accepted where their checksum is the stored one, or
/// none is stored, and only there: the CRC-32, of RAR 1.3 members the rolling
/// sum. A wrong one of an encrypted member is taken for a wrong password.
pub proof fn lemma_checksum_decides(hdr: FileHeader, data: Seq<u8>, r: RarResult<()>)
    requires
        checksum_verdict(hdr, spec_member_checksum(hdr, data), r),
    ensures
        ({
            let sum = if hdr.format_version == 3 {
                rolling_from(0, data) as u32
            } else {
                spec_crc32(data)
            };
            &&& r is Ok <==> (hdr.crc32_val is None || hdr.crc32_val == Some(sum))
            &&& r is Err && hdr.flags & 4 != 0 ==> r->Err_0 is WrongPassword
            &&& r is Err && hdr.flags & 4 == 0 ==> r->Err_0 is Crc
        }),
{
}

/// What a decoder made is taken where it is as long as announced. Its errors
/// are those of a wrong password where there is one.
pub proof fn lemma_decoded_size_decides(
    hdr: FileHeader,
    unpacked: RarResult<Vec<u8>>,
    r: RarResult<Vec<u8>>,
)
    requires
        unpacked_result(hdr, unpacked, r),
    ensures
        r is Ok <==> unpacked is Ok && unpacked->Ok_0@.len() == hdr.unpacked_size,
        r is Ok ==> r->Ok_0@ == unpacked->Ok_0@,
        unpacked is Err && hdr.flags & 4 != 0 && unpacked->Err_0 is Format ==> r->Err_0
            is WrongPassword,
        unpacked is Err && hdr.flags & 4 != 0 && unpacked->Err_0 is Crc ==> r->Err_0
            is WrongPassword,
        unpacked is Err && hdr.flags & 4 == 0 ==> r->Err_0 == unpacked->Err_0,
{
}

// ── Solid chains ───────────────────────────────────────────────────────────

/// The members that a chain's decoding goes through are its files, in order, up
/// to the target and with it: each with its own codec where it is compressed.
pub proof fn lemma_chain_goes_through_files(
    entries: Seq<ArchiveEntry>,
    from: int,
    target: int,
    codec: LegacyCodec,
    i: int,
)
    requires
        0 <= from,
        target < entries.len() <= usize::MAX,
    ensures
        ({
            let tasks = solid_tasks(entries, from, target, codec);
            &&& forall|k: int|
                0 <= k < tasks.len() ==> from <= (#[trigger] tasks[k]).index <= target
                    && !entries[tasks[k].index as int].header.is_directory
            &&& forall|k: int, l: int|
                0 <= k < l < tasks.len() ==> (#[trigger] tasks[k]).index < (
                #[trigger] tasks[l]).index
            &&& from <= i <= target && !entries[i].header.is_directory ==> exists|k: int|
                0 <= k < tasks.len() && (#[trigger] tasks[k]).index == i
        }),
    decreases target + 1 - from,
{
    if from <= target {
        let dir = entries[from].header.is_directory;
        let next = if dir {
            codec
        } else {
            crate::rar4::extract::codec_for(entries[from].header, codec)
        };
        lemma_chain_goes_through_files(entries, from + 1, target, next, i);
        let rest = solid_tasks(entries, from + 1, target, next);
        let tasks = solid_tasks(entries, from, target, codec);
        if !dir {
            let first = tasks[0];
            assert(first.index == from);
            assert forall|k: int| 1 <= k < tasks.len() implies #[trigger] tasks[k] == rest[k
                - 1] by {}
            if i == from {
                assert(tasks[0].index == i);
            } else if from < i <= target && !entries[i].header.is_directory {
                let k = choose|k: int| 0 <= k < rest.len() && (#[trigger] rest[k]).index == i;
                assert(tasks[k + 1] == rest[k]);
            }
            assert forall|k: int, l: int| 0 <= k < l < tasks.len() implies (
            #[trigger] tasks[k]).index < (#[trigger] tasks[l]).index by {
                assert(tasks[l] == rest[l - 1]);
                if k > 0 {
                    assert(tasks[k] == rest[k - 1]);
                }
            }
        }
    }
}

/// The decoder of a task is that of its member's version where the member is
/// compressed, and fresh exactly where the one before had another.
pub proof fn lemma_task_codec_law(
    entries: Seq<ArchiveEntry>,
    from: int,
    target: int,
    codec: LegacyCodec,
)
    requires
        0 <= from <= target < entries.len() <= usize::MAX,
        !entries[from].header.is_directory,
        entries[from].header.comp_method != 0,
    ensures
        ({
            let v = entries[from].header.unp_ver;
            let t = solid_tasks(entries, from, target, codec)[0];
            &&& solid_tasks(entries, from, target, codec).len() > 0
            &&& t.index == from
            &&& v == 15 ==> t.codec == LegacyCodec::Rar15
            &&& v == 20 || v == 26 ==> t.codec == LegacyCodec::Rar20
            &&& v == 29 || v == 36 ==> t.codec == LegacyCodec::Rar29
            &&& t.fresh == (t.codec != codec)
        }),
{
}

/// Members of RAR 3.x and 4.x chain by their own flag: one that has it, or
/// stands before one that does, is in a run; older ones by the archive's.
pub proof fn lemma_solid_run_law(entries: Seq<ArchiveEntry>, archive_solid: bool, idx: int)
    requires
        0 <= idx < entries.len(),
    ensures
        ({
            let h = entries[idx].header;
            let newest = h.unp_ver == 29 || h.unp_ver == 36;
            let followed = idx + 1 < entries.len() && entries[idx + 1].header.comp_solid;
            &&& newest ==> (in_solid_run(entries, archive_solid, idx) <==> h.comp_solid || followed)
            &&& !newest ==> (in_solid_run(entries, archive_solid, idx) <==> archive_solid
                && !h.is_directory)
        }),
{
}

/// A chain of the newest codec starts at a member without the flag, or with
/// nothing before it to continue.
pub proof fn lemma_chain_head_law(entries: Seq<ArchiveEntry>, idx: int)
    requires
        0 <= idx < entries.len(),
        entries[idx].header.unp_ver == 29 || entries[idx].header.unp_ver == 36,
    ensures
        !entries[idx].header.comp_solid ==> chain_start(entries, idx) == idx,
        entries[idx].header.comp_solid && idx > 0 && !entries[idx - 1].header.is_directory && (
        entries[idx - 1].header.unp_ver == 29 || entries[idx - 1].header.unp_ver == 36)
            ==> chain_start(entries, idx) == chain_start(entries, idx - 1),
        idx == 0 ==> chain_start(entries, idx) == 0,
{
}

/// A chain of an older codec starts at the archive's first compressed file.
pub proof fn lemma_old_chain_law(entries: Seq<ArchiveEntry>, idx: int, first: int)
    requires
        0 <= first <= idx < entries.len(),
        entries[idx].header.unp_ver != 29 && entries[idx].header.unp_ver != 36,
        forall|j: int|
            0 <= j < first ==> (#[trigger] entries[j]).header.is_directory
                || entries[j].header.comp_method == 0,
        first == idx || !entries[first].header.is_directory && entries[first].header.comp_method
            != 0,
    ensures
        chain_start(entries, idx) == first,
{
    lemma_first_is(entries, 0, idx, first);
}

proof fn lemma_first_is(entries: Seq<ArchiveEntry>, at: int, limit: int, first: int)
    requires
        0 <= at <= first <= limit < entries.len(),
        forall|j: int|
            at <= j < first ==> (#[trigger] entries[j]).header.is_directory
                || entries[j].header.comp_method == 0,
        first == limit || !entries[first].header.is_directory && entries[first].header.comp_method
            != 0,
    ensures
        first_moving(entries, at, limit) == first,
    decreases limit - at,
{
    if at < first {
        assert(entries[at].header.is_directory || entries[at].header.comp_method == 0);
        lemma_first_is(entries, at + 1, limit, first);
    }
}

/// Decoding goes on behind what the decoder has decoded where that lies in the
/// chain and before the target; else the chain is decoded from its start.
pub proof fn lemma_resume_law(state: SolidState, start: int, target: int)
    requires
        0 <= start <= target <= 0x7fff_ffff_ffff_ffff,
    ensures
        ({
            let s = resumed(state, start, target);
            let going_on = state.codec is Some && start <= state.decoded_through < target;
            &&& going_on ==> s == state
            &&& !going_on ==> s.decoded_through == start - 1
            &&& s.codec is Some
        }),
{
}

// ── Scanning ───────────────────────────────────────────────────────────────

/// A main header (0x73) whose flag 0x80 is set locks the archive: without a
/// password it is refused, with one all that follows is encrypted.
pub proof fn lemma_locked_archive_law(
    before: ScanView,
    after: ScanView,
    block: Rar4Block,
    volume_index: usize,
    encrypted: bool,
    has_password: bool,
    r: RarResult<AfterBlock>,
)
    requires
        block.head_type == 0x73,
        scan_step(before, after, block, volume_index, encrypted, has_password, r),
    ensures
        block.flags & 0x80 != 0 && !has_password ==> r is Err && r->Err_0 is Encrypted,
        block.flags & 0x80 != 0 && has_password ==> r == Ok::<AfterBlock, RarError>(
            AfterBlock::Next { encrypted: true },
        ),
        block.flags & 0x80 == 0 ==> r == Ok::<AfterBlock, RarError>(AfterBlock::Next { encrypted }),
        r is Ok ==> after.solid == (before.solid || block.flags & 8 != 0),
        r is Ok ==> after.new_numbering == (before.new_numbering || block.flags & 0x10 != 0),
        after.out == before.out,
{
}

/// The archive ends at an end block (0x7B). Blocks that are neither it, nor
/// main (0x73), file (0x74) or comment (0x75) blocks, are passed over.
pub proof fn lemma_other_blocks_law(
    before: ScanView,
    after: ScanView,
    block: Rar4Block,
    volume_index: usize,
    encrypted: bool,
    has_password: bool,
    r: RarResult<AfterBlock>,
)
    requires
        block.head_type != 0x73 && block.head_type != 0x74 && block.head_type != 0x75,
        scan_step(before, after, block, volume_index, encrypted, has_password, r),
    ensures
        after == before,
        block.head_type == 0x7b ==> r == Ok::<AfterBlock, RarError>(AfterBlock::End),
        block.head_type != 0x7b ==> r == Ok::<AfterBlock, RarError>(AfterBlock::Next { encrypted }),
{
}

/// A file header (0x74) with neither split flag is a member of its own, with
/// one chunk: the data behind it. One whose flag 0x02 is set waits for more,
/// and one whose flag 0x01 is set needs something to continue.
pub proof fn lemma_scanned_member_law(
    before: ScanView,
    after: ScanView,
    block: Rar4Block,
    volume_index: usize,
    encrypted: bool,
    has_password: bool,
    r: RarResult<AfterBlock>,
)
    requires
        block.head_type == 0x74,
        crate::rar4::headers::header_fault(block.header@, block.flags) is None,
        before.open is None,
        scan_step(before, after, block, volume_index, encrypted, has_password, r),
    ensures
        block.flags & 1 != 0 ==> r is Err && after.out == before.out,
        block.flags & 1 == 0 ==> r == Ok::<AfterBlock, RarError>(AfterBlock::Next { encrypted }),
        block.flags & 1 == 0 && block.flags & 2 == 0 ==> {
            &&& after.open is None
            &&& after.out.len() == before.out.len() + 1
            &&& after.out.drop_last() == before.out
            &&& is_scanned_entry(after.out.last(), block, volume_index)
            &&& after.out.last().chunks@[0].is_final
        },
        block.flags & 1 == 0 && block.flags & 2 != 0 ==> {
            &&& after.out == before.out
            &&& after.open is Some
            &&& is_scanned_entry(after.open->Some_0, block, volume_index)
            &&& !after.open->Some_0.chunks@[0].is_final
        },
{
    if block.flags & 1 == 0 && block.flags & 2 == 0 {
        assert(after.out.drop_last() =~= before.out);
    }
}

/// The entry of a file header: its fields, and its data as one chunk.
pub open spec fn is_scanned_entry(e: ArchiveEntry, block: Rar4Block, volume_index: usize) -> bool {
    &&& describes(block.header@, block.flags, block.head_crc, block.header_end, e.header)
    &&& e.chunks@.len() == 1
    &&& e.chunks@[0].volume_index == volume_index
    &&& e.chunks@[0].data_offset == block.header_end
    &&& e.chunks@[0].packed_size == e.header.packed_size
}

/// A continuation (0x01) of a member that waits adds its chunk to it; without
/// the flag 0x02 the member is whole, and has the continuation's checksum.
/// What does not continue it is refused.
pub proof fn lemma_scanned_continuation_law(
    before: ScanView,
    after: ScanView,
    block: Rar4Block,
    volume_index: usize,
    encrypted: bool,
    has_password: bool,
    r: RarResult<AfterBlock>,
    pending: ArchiveEntry,
)
    requires
        block.head_type == 0x74,
        crate::rar4::headers::header_fault(block.header@, block.flags) is None,
        before.open == Some(pending),
        scan_step(before, after, block, volume_index, encrypted, has_password, r),
    ensures
        block.flags & 1 == 0 ==> r is Err && after.out == before.out && after.open == before.open,
        block.flags & 1 != 0 && r is Ok && block.flags & 2 == 0 ==> {
            let done = after.out.last();
            &&& after.open is None
            &&& after.out.len() == before.out.len() + 1
            &&& after.out.drop_last() == before.out
            &&& done.chunks@.len() == pending.chunks@.len() + 1
            &&& done.chunks@.drop_last() == pending.chunks@
            &&& done.chunks@.last().volume_index == volume_index
            &&& done.chunks@.last().data_offset == block.header_end
            &&& done.header.packed_size == pending.header.packed_size
                + done.chunks@.last().packed_size
            &&& done.header.crc32_val == done.chunks@.last().crc32_val
            &&& done.header.name == pending.header.name
            &&& done.header.unpacked_size == pending.header.unpacked_size
        },
        block.flags & 1 != 0 && r is Ok && block.flags & 2 != 0 ==> {
            &&& after.out == before.out
            &&& after.open is Some
            &&& after.open->Some_0.chunks@.len() == pending.chunks@.len() + 1
            &&& after.open->Some_0.chunks@.drop_last() == pending.chunks@
            &&& after.open->Some_0.header.crc32_val == pending.header.crc32_val
        },
{
    let (e, merged) = choose|
        e: ArchiveEntry,
        merged: Result<Option<ArchiveEntry>, crate::shared::split::SplitMergeError>,
    |
        {
            &&& #[trigger] crate::rar4::scan::is_scanned(e, block, volume_index)
            &&& #[trigger] crate::rar4::scan::is_pushed(before, after, block, e, merged)
            &&& match merged {
                Ok(Some(done)) => after.out == before.out.push(done),
                Ok(None) => after.out == before.out,
                Err(_) => r is Err && after.out == before.out,
            }
        };
    if block.flags & 1 != 0 && r is Ok {
        if block.flags & 2 == 0 {
            let done = after.out.last();
            assert(after.out.drop_last() =~= before.out);
            assert(done.chunks@ == pending.chunks@ + e.chunks@);
            assert(done.chunks@.drop_last() =~= pending.chunks@);
            assert(done.chunks@.last() == e.chunks@[0]);
        } else {
            let q = after.open->Some_0;
            assert(q.chunks@ == pending.chunks@ + e.chunks@);
            assert(q.chunks@.drop_last() =~= pending.chunks@);
        }
    }
}

/// A member comment behind a member (0x75) is that member's, where it has none
/// yet.
pub proof fn lemma_comment_goes_to_last_member(
    before: ScanView,
    after: ScanView,
    block: Rar4Block,
    comment: Seq<u8>,
    volume_index: usize,
    encrypted: bool,
    has_password: bool,
    r: RarResult<AfterBlock>,
)
    requires
        block.head_type == 0x75,
        comment.len() <= 0xffff - 13,
        block.header@ == crate::rar4::comment::file_comment_block(comment),
        before.open is None,
        before.out.len() > 0,
        scan_step(before, after, block, volume_index, encrypted, has_password, r),
    ensures
        r is Ok,
        after.out.len() == before.out.len(),
        after.out.drop_last() == before.out.drop_last(),
        before.out.last().header.comment is None ==> (
        after.out.last().header.comment matches Some(c) && c@
            == crate::rar4::comment::guessed_text(comment)),
        before.out.last().header.comment is Some ==> after.out == before.out,
        after.out.last().chunks == before.out.last().chunks,
        after.out.last().header.name == before.out.last().header.name,
{
    let none = Seq::<u8>::empty();
    crate::rar4::comment::lemma_file_comment_roundtrip(comment, none, none);
    assert(none + crate::rar4::comment::file_comment_block(comment) + none
        =~= block.header@);
    assert(after.out.drop_last() =~= before.out.drop_last());
}

// ── Fields of large files, directories and times ───────────────────────────

/// A header with the flag of large files (0x100) has the high halves of its
/// sizes behind the fixed fields; host and attributes say what is a directory.
pub proof fn lemma_read_fields_law(
    h: Seq<u8>,
    flags: u16,
    head_crc: u16,
    data_offset: u64,
    fh: FileHeader,
)
    requires
        describes(h, flags, head_crc, data_offset, fh),
        h.len() >= 40,
    ensures
        flags & 0x100 != 0 ==> fh.packed_size == field(h, 7, 4) + 0x1_0000_0000 * field(h, 32, 4),
        flags & 0x100 != 0 ==> fh.unpacked_size == field(h, 11, 4) + 0x1_0000_0000 * field(
            h,
            36,
            4,
        ),
        flags & 0x100 == 0 ==> fh.packed_size == field(h, 7, 4) && fh.unpacked_size == field(
            h,
            11,
            4,
        ),
        h[15] == 0 || h[15] == 2 ==> fh.is_directory == (field(h, 28, 4) as u32 & 0x10 != 0),
        h[15] == 3 ==> fh.is_directory == ((field(h, 28, 4) as u32 / 0x1_0000) & 0xf000 == 0x4000),
        h[15] != 0 && h[15] != 2 && h[15] != 3 ==> !fh.is_directory,
        fh.comp_solid == (flags & 0x10 != 0),
        fh.comp_dict_size == flags / 32 % 8,
        fh.flags == flags,
        fh.data_offset == data_offset,
        fh.format_version == 4,
        fh.unp_ver == h[24],
        fh.crc32_val == Some(field(h, 16, 4) as u32),
        fh.salt is Some <==> flags & 0x400 != 0,
        flags & 0x1000 == 0 ==> fh.extra_data@.len() == 0 && fh.mtime_ns is None && fh.mtime
            == crate::shared::legacy_time::spec_dos_time_to_unix(field(h, 20, 4) as int),
{
}

} // verus!
