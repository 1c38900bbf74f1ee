//! Batches: members prepared on their own, and the order in which waves of
//! them and single entries follow each other.

use crate::crc32::{crc32, spec_crc32};
use crate::error::RarResult;
use crate::rar4::emit::{fits_behind, Rar4SplitParams, VolumeReserve};
use crate::rar4::encode::{compresses, packed_member, packed_or_stored};
use crate::rar4::member::{
    emit_rar4_member, is_emission, is_refused, next_wave, piece_crcs, pieces_of, wave_end,
    MemberEmission, MemberFields, Rar4Member, Rar4Output,
};
use crate::rar4::names::name_bytes;
use crate::rar4::RAR4_METHOD_STORE;
use vstd::prelude::*;
use vstd::string::*;

verus! {

/// A member that was compressed on its own and waits to be written.
pub struct Rar4PreparedMember {
    pub name: String,
    pub mtime: u32,
    pub civil: u32,
    pub mtime_ns: u32,
    pub file_size: u64,
    pub file_crc: u32,
    pub packed: Vec<u8>,
    pub method: u8,
    pub attr: u32,
    /// The level asked for.
    pub level: u8,
}

/// A file as it was read.
pub struct ReadFile {
    pub name: String,
    pub mtime: u32,
    pub civil: u32,
    pub mtime_ns: u32,
    pub attr: u32,
    pub data: Vec<u8>,
}

/// Prepare a member from what an encoder made of it, if one was tried.
pub fn prepare_rar4_file_member(file: ReadFile, level: u8, encoded: Option<Vec<u8>>) -> (r:
    Rar4PreparedMember)
    requires
        encoded is Some ==> compresses(level),
    ensures
        r.name@ == file.name@,
        r.mtime == file.mtime && r.civil == file.civil && r.mtime_ns == file.mtime_ns,
        r.attr == file.attr && r.level == level,
        r.file_size == file.data@.len(),
        r.file_crc == spec_crc32(file.data@),
        match encoded {
            Some(packed) => (r.packed@, r.method) == packed_member(file.data@, packed@, level),
            None => r.packed@ == file.data@ && r.method == RAR4_METHOD_STORE,
        },
{
    let file_size = file.data.len() as u64;
    let file_crc = crc32(file.data.as_slice());
    let (packed, method) = match encoded {
        Some(p) => packed_or_stored(file.data, p, level),
        None => (file.data, RAR4_METHOD_STORE),
    };
    Rar4PreparedMember {
        name: file.name,
        mtime: file.mtime,
        civil: file.civil,
        mtime_ns: file.mtime_ns,
        file_size,
        file_crc,
        packed,
        method,
        attr: file.attr,
        level,
    }
}

/// The member of a prepared one: it continues no solid run and has no
/// comment.
pub open spec fn is_prepared(
    m: Rar4Member,
    p: Rar4PreparedMember,
    password: bool,
    salt: Option<[u8; 8]>,
) -> bool {
    &&& m.name@ == p.name@
    &&& m.unpacked_size == p.file_size && m.file_crc == p.file_crc
    &&& m.mtime == p.mtime && m.civil == p.civil && m.mtime_ns == p.mtime_ns
    &&& m.method == p.method && m.level == p.level && m.attr == p.attr
    &&& m.password == password && m.salt == salt
    &&& m.comment is None && !m.solid_continuation
}

/// Write a prepared member. `on_disk` is its payload, encrypted where it has
/// to be.
pub fn emit_rar4_prepared<R: VolumeReserve>(
    reserve: &R,
    prepared: Rar4PreparedMember,
    on_disk: &[u8],
    password: bool,
    salt: Option<[u8; 8]>,
    out: &Rar4Output,
) -> (r: RarResult<MemberEmission>)
    requires
        prepared.file_size <= u32::MAX,
        on_disk@.len() <= u32::MAX,
        name_bytes(prepared.name@).0.len() <= 0xfff_ffff,
        fits_behind(out.position as int),
        fits_behind(out.used as int),
        fits_behind(out.fresh as int),
        out.volume_index + on_disk@.len() < usize::MAX,
    ensures
        match r {
            Ok(e) => exists|m: Rar4Member, f: MemberFields, params: Rar4SplitParams<'_>|
                is_prepared(m, prepared, password, salt) && #[trigger] is_emission(
                    e,
                    *reserve,
                    m,
                    on_disk@.len() as u64,
                    piece_crcs(on_disk@, pieces_of(e.segments@)),
                    *out,
                    f,
                    params,
                ),
            Err(e) => exists|m: Rar4Member|
                is_prepared(m, prepared, password, salt) && #[trigger] is_refused(
                    e,
                    *reserve,
                    m,
                    on_disk@.len() as u64,
                    *out,
                ),
        },
{
    let m = Rar4Member {
        name: prepared.name,
        unpacked_size: prepared.file_size,
        file_crc: prepared.file_crc,
        mtime: prepared.mtime,
        civil: prepared.civil,
        mtime_ns: prepared.mtime_ns,
        method: prepared.method,
        level: prepared.level,
        password,
        salt,
        comment: None,
        attr: prepared.attr,
        solid_continuation: false,
    };
    assert(is_prepared(m, prepared, password, salt));
    emit_rar4_member(reserve, &m, on_disk, out)
}

/// What a batch does next.
#[derive(Clone, Copy, PartialEq, Eq, Structural, Debug)]
pub enum BatchStep {
    /// Compress these entries side by side, then write them in order.
    Wave { from: usize, to: usize },
    /// Add this entry on its own.
    Alone { index: usize },
}

/// The steps of a batch from entry `at` on: a wave of the files that fit one,
/// then the entry behind it on its own.
pub open spec fn batch_steps(sizes: Seq<Option<u64>>, at: int) -> Seq<BatchStep>
    decreases sizes.len() - at,
{
    if at < 0 || at >= sizes.len() {
        Seq::empty()
    } else {
        let to = wave_end(sizes, at, 0, false);
        let wave = if to > at {
            seq![BatchStep::Wave { from: at as usize, to: to as usize }]
        } else {
            Seq::empty()
        };
        if to < at || to >= sizes.len() {
            wave
        } else {
            wave + seq![BatchStep::Alone { index: to as usize }] + batch_steps(sizes, to + 1)
        }
    }
}

/// The entries that a step takes.
pub open spec fn step_range(step: BatchStep) -> (int, int) {
    match step {
        BatchStep::Wave { from, to } => (from as int, to as int),
        BatchStep::Alone { index } => (index as int, index + 1),
    }
}

/// Steps take entries from `at` to `end`, each once and in order.
pub open spec fn covers(steps: Seq<BatchStep>, at: int, end: int) -> bool
    decreases steps.len(),
{
    if steps.len() == 0 {
        at == end
    } else {
        let (from, to) = step_range(steps[0]);
        from == at && at < to && covers(steps.drop_first(), to, end)
    }
}

/// The steps of a batch take every entry once, in archive order.
pub proof fn lemma_batch_covers(sizes: Seq<Option<u64>>, at: int)
    requires
        0 <= at <= sizes.len(),
        sizes.len() <= usize::MAX,
    ensures
        covers(batch_steps(sizes, at), at, sizes.len() as int),
    decreases sizes.len() - at,
{
    if at < sizes.len() {
        crate::rar4::member::lemma_wave_within_budget(sizes, at, 0, false);
        let to = wave_end(sizes, at, 0, false);
        let steps = batch_steps(sizes, at);
        if to < sizes.len() {
            lemma_batch_covers(sizes, to + 1);
            let rest = batch_steps(sizes, to + 1);
            let alone = seq![BatchStep::Alone { index: to as usize }] + rest;
            assert(alone.drop_first() =~= rest);
            assert(covers(alone, to, sizes.len() as int));
            if to > at {
                assert(steps.drop_first() =~= alone);
            } else {
                assert(steps =~= alone);
            }
        } else {
            assert(steps.drop_first() =~= Seq::<BatchStep>::empty());
            assert(covers(steps.drop_first(), to, sizes.len() as int));
        }
    }
}

/// Plan a batch. `sizes` are those of files, and nothing for other entries.
pub fn add_batch_parallel_rar4(sizes: &[Option<u64>]) -> (r: Vec<BatchStep>)
    ensures
        r@ == batch_steps(sizes@, 0),
        covers(r@, 0, sizes@.len() as int),
{
    let n = sizes.len();
    let mut out: Vec<BatchStep> = Vec::new();
    let mut i: usize = 0;
    proof {
        assert(out@ + batch_steps(sizes@, 0) =~= batch_steps(sizes@, 0));
    }
    while i < n
        invariant
            i <= n,
            n == sizes@.len(),
            out@ + batch_steps(sizes@, i as int) == batch_steps(sizes@, 0),
        decreases n - i,
    {
        let to = next_wave(sizes, i);
        let ghost before = out@;
        let ghost here = batch_steps(sizes@, i as int);
        if to > i {
            out.push(BatchStep::Wave { from: i, to });
        }
        if to < n {
            out.push(BatchStep::Alone { index: to });
            proof {
                assert(before + here =~= out@ + batch_steps(sizes@, to + 1));
            }
            i = to + 1;
        } else {
            proof {
                assert(before + here =~= out@ + batch_steps(sizes@, n as int));
            }
            i = n;
        }
    }
    proof {
        assert(out@ + batch_steps(sizes@, i as int) =~= out@);
        lemma_batch_covers(sizes@, 0);
    }
    out
}

} // verus!
