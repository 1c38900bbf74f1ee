//! Decoding a member piece by piece: output leaves as soon as no pending
//! filter covers it.

use crate::codec::bitstream::BitReader;
use crate::codec::decode::{
    apply_region, apply_regions, bit_offset, block_tables, decode_member, filter_end, filter_start,
    filters_after, fresh_lz, lemma_header_advances, read_header, run_block, run_blocks, run_symbols,
    spec_read_header, state_after, BlockEnd, BlockHeader, DecoderState,
};
use crate::codec::error::CodecError;
use crate::codec::filters::{apply_filter_decode, filter_decoded, lemma_filter_len};
use crate::codec::lz::{
    apply_symbol, lemma_apply_symbol, lemma_output_grows, lz_ok, FilterRegion, Lz, LzCore,
};
use crate::codec::rar50::{dict_size, spec_dict_size, DecodeOptions};
use crate::codec::symbols::{
    lemma_read_symbol_advances, read_symbol, spec_read_symbol, Symbol, FILTER_ARM,
};
use crate::codec::tables::{read_tables, CodeLengths, Tables};
use crate::codec::window::lemma_window_output;
use vstd::prelude::*;

verus! {

/// Maximum bytes of decompressed output held back for RAR5 filters during
/// streaming decode. Filtered regions beyond this are rejected instead of
/// buffering the whole member.
pub const MAX_STREAMING_FILTER_BUFFER: u64 = 64 * 1024 * 1024;

/// How much output is produced before it is looked at.
pub const COPY_THRESHOLD: u64 = 64 * 1024;

/// The filter's region ends within the first `end` bytes of the stream.
pub open spec fn complete_by(f: FilterRegion, end: int) -> bool {
    f.block_start + f.block_length <= end
}

/// Every filter's region ends within the first `end` bytes of the stream.
pub open spec fn all_complete(filters: Seq<FilterRegion>, end: int) -> bool {
    forall|i: int| 0 <= i < filters.len() ==> complete_by(#[trigger] filters[i], end)
}

/// Every filter is one the format defines.
pub open spec fn all_known(filters: Seq<FilterRegion>) -> bool {
    forall|i: int| 0 <= i < filters.len() ==> (#[trigger] filters[i]).filter_type <= FILTER_ARM
}

/// The filters are listed in the order in which their regions end.
pub open spec fn ends_ordered(filters: Seq<FilterRegion>) -> bool {
    forall|i: int, j: int|
        0 <= i <= j < filters.len() ==> (#[trigger] filters[i]).block_start
            + filters[i].block_length <= (#[trigger] filters[j]).block_start
            + filters[j].block_length
}

/// Regions that lie within `raw` come out the same whatever follows.
proof fn lemma_regions_extend(
    raw: Seq<u8>,
    more: Seq<u8>,
    filters: Seq<FilterRegion>,
    base: int,
    k: nat,
)
    requires
        k <= filters.len(),
        all_known(filters),
        all_complete(filters, base + raw.len()),
        filters_after(filters, base),
    ensures
        ({
            let r = apply_regions(raw, filters, base, k);
            &&& r is Ok
            &&& r->Ok_0.len() == raw.len()
            &&& apply_regions(raw + more, filters, base, k) == Ok::<Seq<u8>, CodecError>(
                r->Ok_0 + more,
            )
        }),
    decreases k,
{
    if k > 0 {
        lemma_regions_extend(raw, more, filters, base, (k - 1) as nat);
        let o = apply_regions(raw, filters, base, (k - 1) as nat)->Ok_0;
        let f = filters[k - 1];
        assert(complete_by(f, base + raw.len()));
        assert(f.filter_type <= FILTER_ARM);
        let s = filter_start(f, base);
        let e = s + f.block_length;
        assert(f.block_start >= base);
        let om = o + more;
        if s >= om.len() {
        } else if s >= o.len() {
            // An empty region at the very end.
            assert(e == s);
            let d = filter_decoded(f.filter_type, om.subrange(s, e), f.channels, s);
            lemma_filter_len(f.filter_type, om.subrange(s, e), f.channels, s);
            assert(d =~= Seq::<u8>::empty());
            assert(om.subrange(0, s) + d + om.subrange(e, om.len() as int) =~= om);
        } else {
            assert(om.subrange(s, e) =~= o.subrange(s, e));
            lemma_filter_len(f.filter_type, o.subrange(s, e), f.channels, s);
            let d = filter_decoded(f.filter_type, o.subrange(s, e), f.channels, s);
            let r = o.subrange(0, s) + d + o.subrange(e, o.len() as int);
            assert(filter_end(f, base, o.len() as int) == e);
            assert(filter_end(f, base, om.len() as int) == e);
            assert(om.subrange(0, s) + d + om.subrange(e, om.len() as int) =~= r + more);
        }
    }
}

/// Output on its way out: what is staged, what filters wait for it.
pub struct OutputSink {
    /// Output not written yet, filters undone as far as their regions are
    /// complete.
    staging: Vec<u8>,
    /// The stream position where the staged output starts.
    staging_start: u64,
    /// The stream position where the member starts.
    member_start: u64,
    /// Up to where the decoder's output was staged.
    copied: u64,
    /// Filters whose regions are not complete yet.
    pending: Vec<FilterRegion>,
    /// How many of the decoder's filters were taken over.
    seen: usize,
    /// The filters that were undone, in order.
    applied: Ghost<Seq<FilterRegion>>,
}

impl OutputSink {
    /// The sink holds what a decoder in state `z` has produced and not yet
    /// been written, `written` being what was.
    spec fn holds(&self, z: Lz, written: Seq<u8>) -> bool {
        let base = self.member_start as int;
        let raw = z.out.subrange(base, self.copied as int);
        let r = apply_regions(raw, self.applied@, base, self.applied@.len());
        &&& base <= self.staging_start <= self.copied <= z.out.len()
        &&& self.staging@.len() == self.copied - self.staging_start
        &&& self.staging@.len() <= MAX_STREAMING_FILTER_BUFFER
        &&& written.len() == self.staging_start - base
        &&& r == Ok::<Seq<u8>, CodecError>(written + self.staging@)
        &&& all_known(self.applied@)
        &&& all_complete(self.applied@, self.copied as int)
        &&& filters_after(self.applied@, base)
        &&& filters_after(self.pending@, self.staging_start as int)
        &&& self.seen <= z.filters.len()
        &&& forall|i: int|
            self.seen <= i < z.filters.len() ==> (#[trigger] z.filters[i]).block_start
                >= self.copied && z.filters[i].block_length <= u32::MAX
        &&& self.applied@.to_multiset().add(self.pending@.to_multiset()) =~= z.filters.subrange(
            0,
            self.seen as int,
        ).to_multiset()
        &&& ends_ordered(z.filters) ==> self.applied@ + self.pending@ =~= z.filters.subrange(
            0,
            self.seen as int,
        )
    }

    /// What is staged waits for a filter, whose region was not complete when
    /// the output was last looked at.
    spec fn waits(&self) -> bool {
        self.staging@.len() > 0 ==> exists|i: int|
            0 <= i < self.pending@.len() && self.pending@[i].block_start == self.staging_start
                && !complete_by(#[trigger] self.pending@[i], self.copied as int)
    }

    /// Take over the filters announced since last time.
    fn take_filters(&mut self, core: &LzCore, Ghost(written): Ghost<Seq<u8>>)
        requires
            old(self).holds(core@, written),
        ensures
            final(self).holds(core@, written),
            final(self).seen == core@.filters.len(),
            final(self).staging == old(self).staging,
            final(self).staging_start == old(self).staging_start,
            final(self).member_start == old(self).member_start,
            final(self).copied == old(self).copied,
            final(self).applied == old(self).applied,
            old(self).waits() ==> final(self).waits(),
    {
        let ghost fs = core@.filters;
        while self.seen < core.filters.len()
            invariant
                fs == core@.filters,
                self.holds(core@, written),
                self.staging == old(self).staging,
                self.staging_start == old(self).staging_start,
                self.member_start == old(self).member_start,
                self.copied == old(self).copied,
                self.applied == old(self).applied,
                old(self).waits() ==> self.waits(),
            decreases fs.len() - self.seen,
        {
            let f: FilterRegion = core.filters[self.seen];
            let ghost s = self.seen as int;
            let ghost before = self.pending@;
            let ghost a = self.applied@;
            proof {
                assert(fs[s].block_start >= self.copied);
                assert(fs.subrange(0, s + 1) =~= fs.subrange(0, s).push(f));
                assert(a + before.push(f) =~= (a + before).push(f));
                lemma_taken(a, before, fs.subrange(0, s), f);
                assert forall|i: int| 0 <= i < before.push(f).len() implies (#[trigger] before.push(
                    f,
                )[i]).block_start >= self.staging_start && before.push(f)[i].block_length
                    <= u32::MAX by {
                    if i < before.len() {
                        assert(before[i].block_start >= self.staging_start);
                    }
                }
            }
            let ghost waited = self.waits();
            self.pending.push(f);
            self.seen = self.seen + 1;
            proof {
                if waited && self.staging@.len() > 0 {
                    let i = choose|i: int|
                        0 <= i < before.len() && before[i].block_start == self.staging_start
                            && !complete_by(#[trigger] before[i], self.copied as int);
                    assert(self.pending@[i] == before[i]);
                    assert(self.waits());
                }
            }
        }
    }

    /// Stage the output produced since last time.
    fn append_window(&mut self, core: &LzCore, Ghost(written): Ghost<Seq<u8>>) -> (r: Result<
        (),
        CodecError,
    >)
        requires
            old(self).holds(core@, written),
            old(self).seen == core@.filters.len(),
            core.wf(),
            old(self).waits(),
            core@.out.len() - old(self).copied <= core.window.capacity(),
            core@.out.len() - old(self).copied < look_every(core.window.capacity()) + 4100,
        ensures
            r is Ok ==> final(self).holds(core@, written) && final(self).copied
                == core@.out.len(),
            final(self).seen == old(self).seen,
            final(self).member_start == old(self).member_start,
            r is Err ==> r->Err_0 == CodecError::StagingLimit && is_held_back(
                core@,
                core.window.capacity(),
            ),
    {
        let to: u64 = core.window.total_written();
        let count: u64 = to - self.copied;
        if count == 0 {
            return Ok(());
        }
        if self.staging.len() as u64 + count > MAX_STREAMING_FILTER_BUFFER {
            proof {
                assert(self.staging@.len() > 0);
                let i = choose|i: int|
                    0 <= i < self.pending@.len() && self.pending@[i].block_start
                        == self.staging_start && !complete_by(
                        #[trigger] self.pending@[i],
                        self.copied as int,
                    );
                lemma_pending_seen(core@, self.applied@, self.pending@, self.seen as int, i);
                let j = choose|j: int|
                    0 <= j < core@.filters.len() && #[trigger] core@.filters[j]
                        == self.pending@[i];
                assert(held_back(core@.filters[j], to as int, core.window.capacity()));
            }
            return Err(CodecError::StagingLimit);
        }
        proof {
            core.window.lemma_capacity();
        }
        let bytes: Vec<u8> = core.window.get_output(self.copied, count as usize);
        let ghost base = self.member_start as int;
        let ghost c = self.copied as int;
        let ghost out = core@.out;
        let ghost before = self.staging@;
        proof {
            lemma_window_output(out, core.window.capacity(), c, count as nat);
            let raw = out.subrange(base, c);
            lemma_regions_extend(raw, bytes@, self.applied@, base, self.applied@.len());
            assert(raw + bytes@ =~= out.subrange(base, to as int));
            assert(written + (before + bytes@) =~= written + before + bytes@);
        }
        self.staging.extend_from_slice(bytes.as_slice());
        assert(self.staging@ =~= before + bytes@);
        self.copied = to;
        proof {
            assert forall|i: int| 0 <= i < self.applied@.len() implies complete_by(
                #[trigger] self.applied@[i],
                to as int,
            ) by {
                assert(complete_by(self.applied@[i], c));
            }
        }
        Ok(())
    }

    /// Undo the filters whose regions are complete.
    #[verifier::rlimit(60)]
    #[verifier::spinoff_prover]
    fn apply_complete_filters(&mut self, core: &LzCore, Ghost(written): Ghost<Seq<u8>>) -> (r: Result<
        (),
        CodecError,
    >)
        requires
            old(self).holds(core@, written),
            old(self).seen == core@.filters.len(),
        ensures
            r is Ok ==> final(self).holds(core@, written) && final(self).copied == old(
                self,
            ).copied && forall|i: int|
                0 <= i < final(self).pending@.len() ==> !complete_by(
                    #[trigger] final(self).pending@[i],
                    final(self).copied as int,
                ),
            final(self).seen == old(self).seen,
            final(self).member_start == old(self).member_start,
            r is Err ==> is_unknown(r->Err_0, core@.filters, old(self).copied as int),
    {
        broadcast use vstd::seq_lib::group_to_multiset_ensures;

        let ghost fs = core@.filters;
        let ghost z = core@;
        let mut i: usize = 0;
        while i < self.pending.len()
            invariant
                z == core@,
                fs == z.filters,
                self.holds(z, written),
                self.seen == fs.len(),
                self.seen == old(self).seen,
                self.member_start == old(self).member_start,
                self.copied == old(self).copied,
                i <= self.pending@.len(),
                forall|j: int|
                    0 <= j < i ==> !complete_by(#[trigger] self.pending@[j], self.copied as int),
            decreases self.pending@.len() - i,
        {
            let f: FilterRegion = self.pending[i];
            let ghost p = self.pending@;
            let ghost a = self.applied@;
            let ghost c = self.copied as int;
            let ghost base = self.member_start as int;
            assert(p[i as int].block_start >= self.staging_start && p[i as int].block_length
                <= u32::MAX);
            if f.block_start <= self.copied && f.block_length <= self.copied - f.block_start {
                proof {
                    lemma_pending_seen(z, a, p, self.seen as int, i as int);
                }
                let s: usize = (f.block_start - self.staging_start) as usize;
                let e: usize = s + f.block_length as usize;
                let offset: u64 = f.block_start - self.member_start;
                let len: usize = self.staging.len();
                let region = vstd::slice::slice_subrange(self.staging.as_slice(), s, e);
                let filtered: Vec<u8> = match apply_filter_decode(
                    f.filter_type,
                    region,
                    f.channels,
                    offset,
                ) {
                    Ok(v) => v,
                    Err(err) => {
                        proof {
                            let j = choose|j: int| 0 <= j < fs.len() && #[trigger] fs[j] == f;
                            assert(fs[j] == f && complete_by(fs[j], c));
                        }
                        return Err(err);
                    },
                };
                let ghost before = self.staging@;
                let mut next: Vec<u8> = Vec::with_capacity(len);
                next.extend_from_slice(vstd::slice::slice_subrange(self.staging.as_slice(), 0, s));
                next.extend_from_slice(filtered.as_slice());
                next.extend_from_slice(
                    vstd::slice::slice_subrange(self.staging.as_slice(), e, len),
                );
                proof {
                    let w = written.len() as int;
                    let o = written + before;
                    assert(next@ =~= before.subrange(0, s as int) + filtered@ + before.subrange(
                        e as int,
                        len as int,
                    ));
                    lemma_region_staged(o, f, base, written, before, next@, s as int, e as int);
                    lemma_regions_push(z.out.subrange(base, c), a, f, base);
                    lemma_moved(a, p, i as int);
                    if ends_ordered(fs) {
                        lemma_ordered_first(fs, a, p, i as int, c);
                        assert(a.push(f) + p.remove(i as int) =~= a + p);
                    }
                }
                self.staging = next;
                self.applied = Ghost(a.push(f));
                let _ = self.pending.remove(i);
            } else {
                i = i + 1;
            }
        }
        Ok(())
    }

    /// Write out what no pending filter covers.
    fn drain(&mut self, core: &LzCore, writer: &mut Vec<u8>, Ghost(prefix): Ghost<Seq<u8>>)
        requires
            old(self).copied == core@.out.len(),
            ({
                let w = old(writer)@.subrange(prefix.len() as int, old(writer)@.len() as int);
                old(writer)@ == prefix + w && old(self).holds(core@, w)
            }),
            forall|i: int|
                0 <= i < old(self).pending@.len() ==> !complete_by(
                    #[trigger] old(self).pending@[i],
                    old(self).copied as int,
                ),
        ensures
            final(self).waits(),
            final(self).copied == old(self).copied,
            final(self).seen == old(self).seen,
            final(self).member_start == old(self).member_start,
            final(self).pending == old(self).pending,
            final(self).applied == old(self).applied,
            ({
                let w = final(writer)@.subrange(prefix.len() as int, final(writer)@.len() as int);
                final(writer)@ == prefix + w && final(self).holds(core@, w)
            }),
            final(self).pending@.len() == 0 ==> final(self).staging@.len() == 0,
    {
        let mut to: u64 = self.copied;
        let mut i: usize = 0;
        while i < self.pending.len()
            invariant
                i <= self.pending@.len(),
                self == old(self),
                filters_after(self.pending@, self.staging_start as int),
                self.staging_start <= to <= self.copied,
                forall|j: int| 0 <= j < i ==> to <= (#[trigger] self.pending@[j]).block_start,
                to == self.copied || exists|j: int|
                    0 <= j < i && (#[trigger] self.pending@[j]).block_start == to,
                self.pending@.len() == 0 ==> to == self.copied,
                self.staging_start <= self.copied,
            decreases self.pending@.len() - i,
        {
            assert(self.pending@[i as int].block_start >= self.staging_start);
            if self.pending[i].block_start < to {
                to = self.pending[i].block_start;
            }
            i = i + 1;
        }
        if to == self.staging_start {
            proof {
                if self.staging@.len() > 0 {
                    let j = choose|j: int|
                        0 <= j < self.pending@.len() && (#[trigger] self.pending@[j]).block_start
                            == to;
                    assert(!complete_by(self.pending@[j], self.copied as int));
                }
            }
            return;
        }
        let n: usize = (to - self.staging_start) as usize;
        let len: usize = self.staging.len();
        let ghost w = writer@.subrange(prefix.len() as int, writer@.len() as int);
        let ghost before = self.staging@;
        let head = vstd::slice::slice_subrange(self.staging.as_slice(), 0, n);
        let ghost head_bytes = head@;
        writer.extend_from_slice(head);
        let rest = vstd::slice::slice_to_vec(
            vstd::slice::slice_subrange(self.staging.as_slice(), n, len),
        );
        proof {
            assert(writer@ =~= prefix + (w + head_bytes));
            assert(writer@.subrange(prefix.len() as int, writer@.len() as int) =~= w + head_bytes);
            assert((w + head_bytes) + rest@ =~= w + before);
            assert forall|j: int| 0 <= j < self.pending@.len() implies (#[trigger] self.pending@[j]).block_start
                >= to && self.pending@[j].block_length <= u32::MAX by {
                assert(self.pending@[j].block_start >= self.staging_start);
            }
        }
        self.staging = rest;
        self.staging_start = to;
        proof {
            if self.staging@.len() > 0 {
                let j = choose|j: int|
                    0 <= j < self.pending@.len() && (#[trigger] self.pending@[j]).block_start == to;
                assert(!complete_by(self.pending@[j], self.copied as int));
            }
        }
    }
}

/// Undoing a region that lies in the staged part changes that part only.
proof fn lemma_region_staged(
    o: Seq<u8>,
    f: FilterRegion,
    base: int,
    written: Seq<u8>,
    staged: Seq<u8>,
    next: Seq<u8>,
    s: int,
    e: int,
)
    requires
        o == written + staged,
        0 <= s <= e <= staged.len(),
        filter_start(f, base) == written.len() + s,
        e == s + f.block_length,
        f.filter_type <= FILTER_ARM,
        next == staged.subrange(0, s) + filter_decoded(
            f.filter_type,
            staged.subrange(s, e),
            f.channels,
            filter_start(f, base),
        ) + staged.subrange(e, staged.len() as int),
    ensures
        apply_region(o, f, base) == Ok::<Seq<u8>, CodecError>(written + next),
{
    let a = filter_start(f, base);
    let b = a + f.block_length;
    if a >= o.len() {
        assert(s == staged.len() && e == s);
        lemma_filter_len(f.filter_type, staged.subrange(s, e), f.channels, a);
        assert(next =~= staged);
    } else {
        assert(filter_end(f, base, o.len() as int) == b);
        assert(o.subrange(a, b) =~= staged.subrange(s, e));
        let d = filter_decoded(f.filter_type, staged.subrange(s, e), f.channels, a);
        assert(o.subrange(0, a) + d + o.subrange(b, o.len() as int) =~= written + next);
    }
}

proof fn lemma_regions_push(raw: Seq<u8>, a: Seq<FilterRegion>, f: FilterRegion, base: int)
    ensures
        apply_regions(raw, a.push(f), base, a.len() + 1) == match apply_regions(
            raw,
            a,
            base,
            a.len(),
        ) {
            Ok(o) => apply_region(o, f, base),
            Err(e) => Err(e),
        },
{
    lemma_regions_prefix(raw, a, f, base, a.len());
}

proof fn lemma_regions_prefix(
    raw: Seq<u8>,
    a: Seq<FilterRegion>,
    f: FilterRegion,
    base: int,
    k: nat,
)
    requires
        k <= a.len(),
    ensures
        apply_regions(raw, a.push(f), base, k) == apply_regions(raw, a, base, k),
    decreases k,
{
    if k > 0 {
        lemma_regions_prefix(raw, a, f, base, (k - 1) as nat);
    }
}

/// One more filter announced is one more filter pending.
proof fn lemma_taken(
    a: Seq<FilterRegion>,
    p: Seq<FilterRegion>,
    s: Seq<FilterRegion>,
    f: FilterRegion,
)
    requires
        a.to_multiset().add(p.to_multiset()) =~= s.to_multiset(),
    ensures
        a.to_multiset().add(p.push(f).to_multiset()) =~= s.push(f).to_multiset(),
{
    vstd::seq_lib::to_multiset_build(p, f);
    vstd::seq_lib::to_multiset_build(s, f);
    assert(a.to_multiset().add(p.to_multiset().insert(f)) =~= a.to_multiset().add(
        p.to_multiset(),
    ).insert(f));
}

/// Moving one pending filter to the applied ones keeps them all.
proof fn lemma_moved(a: Seq<FilterRegion>, p: Seq<FilterRegion>, i: int)
    requires
        0 <= i < p.len(),
    ensures
        a.push(p[i]).to_multiset().add(p.remove(i).to_multiset()) =~= a.to_multiset().add(
            p.to_multiset(),
        ),
{
    broadcast use vstd::seq_lib::group_to_multiset_ensures;

    vstd::seq_lib::to_multiset_build(a, p[i]);
    vstd::seq_lib::to_multiset_remove(p, i);
    assert(p.contains(p[i]));
    assert(p.to_multiset().count(p[i]) > 0);
}

/// A pending filter is one of those announced.
proof fn lemma_pending_seen(z: Lz, a: Seq<FilterRegion>, p: Seq<FilterRegion>, seen: int, i: int)
    requires
        0 <= i < p.len(),
        0 <= seen <= z.filters.len(),
        a.to_multiset().add(p.to_multiset()) =~= z.filters.subrange(0, seen).to_multiset(),
    ensures
        exists|j: int| 0 <= j < z.filters.len() && #[trigger] z.filters[j] == p[i],
{
    broadcast use vstd::seq_lib::group_to_multiset_ensures;

    let s = z.filters.subrange(0, seen);
    assert(p.contains(p[i]));
    assert(p.to_multiset().count(p[i]) > 0);
    assert(s.to_multiset().count(p[i]) > 0);
    assert(s.contains(p[i]));
    let j = choose|j: int| 0 <= j < s.len() && s[j] == p[i];
    assert(z.filters[j] == p[i]);
}

/// In order of their ends, the first complete filter is the first of all.
proof fn lemma_ordered_first(
    fs: Seq<FilterRegion>,
    a: Seq<FilterRegion>,
    p: Seq<FilterRegion>,
    i: int,
    c: int,
)
    requires
        ends_ordered(fs),
        0 <= i < p.len(),
        a + p =~= fs,
        complete_by(p[i], c),
        forall|j: int| 0 <= j < i ==> !complete_by(#[trigger] p[j], c),
    ensures
        i == 0,
{
    if i > 0 {
        assert((a + p)[a.len() as int] == p[0]);
        assert((a + p)[a.len() + i] == p[i]);
        assert(fs[a.len() as int] == p[0]);
        assert(fs[a.len() + i] == p[i]);
        assert(!complete_by(p[0], c));
    }
}

/// `a` is the beginning of `b`.
pub open spec fn filters_begin(a: Seq<FilterRegion>, b: Seq<FilterRegion>) -> bool {
    a.len() <= b.len() && b.subrange(0, a.len() as int) =~= a
}

proof fn lemma_symbols_keep_filters(
    t: CodeLengths,
    bits: Seq<bool>,
    pos: int,
    end: int,
    z: Lz,
    n: int,
    goal: int,
)
    ensures
        match run_symbols(t, bits, pos, end, z, n, goal) {
            Ok(v) => filters_begin(z.filters, v.0.filters),
            Err(_) => true,
        },
    decreases bits.len() - pos,
{
    assert(z.filters.subrange(0, z.filters.len() as int) =~= z.filters);
    if z.out.len() < goal && pos < end {
        match spec_read_symbol(t, bits, pos) {
            Err(e) => {},
            Ok((sym, p)) => {
                lemma_read_symbol_advances(t, bits, pos);
                let z1 = apply_symbol(z, n, sym);
                lemma_symbols_keep_filters(t, bits, p, end, z1, n, goal);
                assert(filters_begin(z.filters, z1.filters));
                if let Ok(v) = run_symbols(t, bits, p, end, z1, n, goal) {
                    assert(v.0.filters.subrange(0, z.filters.len() as int) =~= z.filters) by {
                        let mid = v.0.filters.subrange(0, z1.filters.len() as int);
                        assert forall|i: int| 0 <= i < z.filters.len() implies v.0.filters[i]
                            == z.filters[i] by {
                            assert(mid[i] == z1.filters[i]);
                            assert(z1.filters.subrange(0, z.filters.len() as int)[i]
                                == z.filters[i]);
                        }
                    }
                }
            },
        }
    }
}

/// Where symbols end before `g` bytes are there, they end alike for any goal
/// that is no nearer.
proof fn lemma_nearer_goal(
    t: CodeLengths,
    bits: Seq<bool>,
    pos: int,
    end: int,
    z: Lz,
    n: int,
    goal: int,
    g: int,
)
    requires
        g <= goal,
    ensures
        match run_symbols(t, bits, pos, end, z, n, goal) {
            Ok(v) => z.out.len() <= v.0.out.len() && (v.0.out.len() < g ==> run_symbols(
                t,
                bits,
                pos,
                end,
                z,
                n,
                g,
            ) == run_symbols(t, bits, pos, end, z, n, goal)),
            Err(_) => true,
        },
    decreases bits.len() - pos,
{
    if z.out.len() < goal && pos < end {
        if let Ok((sym, p)) = spec_read_symbol(t, bits, pos) {
            lemma_read_symbol_advances(t, bits, pos);
            let z1 = apply_symbol(z, n, sym);
            lemma_output_grows(z, n, sym);
            lemma_nearer_goal(t, bits, p, end, z1, n, goal, g);
        }
    }
}

/// A decoder never forgets a filter of its member.
proof fn lemma_blocks_keep_filters(
    data: Seq<u8>,
    pos: int,
    tabs: Option<CodeLengths>,
    z: Lz,
    n: int,
    extra_dist: bool,
    goal: int,
)
    ensures
        match run_blocks(data, pos, tabs, z, n, extra_dist, goal) {
            Ok(v) => filters_begin(z.filters, v.0.filters),
            Err(_) => true,
        },
    decreases
            if pos > 8 * data.len() {
                0
            } else {
                8 * data.len() - pos + 1
            },
{
    assert(z.filters.subrange(0, z.filters.len() as int) =~= z.filters);
    if z.out.len() < goal {
        match run_block(data, pos, tabs, z, n, extra_dist, goal) {
            Err(e) => {},
            Ok(b) => {
                let h = spec_read_header(data, pos)->Ok_0;
                let (t, p) = block_tables(data, h, tabs, extra_dist)->Ok_0;
                lemma_symbols_keep_filters(
                    t,
                    crate::codec::bits::bits_of(data),
                    p,
                    h.start + h.len,
                    z,
                    n,
                    goal,
                );
                lemma_header_advances(data, pos);
                if !b.last {
                    lemma_blocks_keep_filters(
                        data,
                        b.next,
                        Some(b.tabs),
                        b.lz,
                        n,
                        extra_dist,
                        goal,
                    );
                    if let Ok(v) = run_blocks(data, b.next, Some(b.tabs), b.lz, n, extra_dist, goal) {
                        let mid = v.0.filters.subrange(0, b.lz.filters.len() as int);
                        assert forall|i: int| 0 <= i < z.filters.len() implies v.0.filters[i]
                            == z.filters[i] by {
                            assert(mid[i] == b.lz.filters[i]);
                            assert(b.lz.filters.subrange(0, z.filters.len() as int)[i]
                                == z.filters[i]);
                        }
                        assert(v.0.filters.subrange(0, z.filters.len() as int) =~= z.filters);
                    }
                }
            },
        }
    }
}

/// One more symbol leaves what the sink holds true.
proof fn lemma_holds_step(sink: OutputSink, z: Lz, n: int, sym: Symbol, written: Seq<u8>)
    requires
        sink.holds(z, written),
        lz_ok(z),
        crate::codec::symbols::symbol_bounded(sym),
        z.out.len() + u32::MAX <= u64::MAX,
    ensures
        sink.holds(apply_symbol(z, n, sym), written),
{
    let z2 = apply_symbol(z, n, sym);
    lemma_apply_symbol(z, n, sym);
    let base = sink.member_start as int;
    let c = sink.copied as int;
    assert(z2.out.subrange(base, c) =~= z.out.subrange(base, c)) by {
        assert forall|i: int| base <= i < c implies z2.out[i] == z.out[i] by {
            assert(z2.out.subrange(0, z.out.len() as int)[i] == z.out[i]);
        }
    }
    let k = z.filters.len() as int;
    assert(z2.filters.subrange(0, sink.seen as int) =~= z.filters.subrange(0, sink.seen as int));
    if ends_ordered(z2.filters) {
        assert forall|i: int, j: int| 0 <= i <= j < z.filters.len() implies (
        #[trigger] z.filters[i]).block_start + z.filters[i].block_length <= (
        #[trigger] z.filters[j]).block_start + z.filters[j].block_length by {
            assert(z2.filters[i] == z.filters[i] && z2.filters[j] == z.filters[j]);
        }
    }
    assert forall|i: int| sink.seen <= i < z2.filters.len() implies (
    #[trigger] z2.filters[i]).block_start >= sink.copied && z2.filters[i].block_length
        <= u32::MAX by {
        if i < k {
            assert(z2.filters[i] == z.filters[i]);
        }
    }
}

/// A window holds the output of any one symbol, and more.
pub open spec fn window_suffices(n: int) -> bool {
    n > 4100
}

/// A member of `size` bytes can leave a window of `n` bytes: nothing is
/// overwritten before it is looked at.
pub open spec fn stream_fits(n: int, size: int) -> bool {
    window_suffices(n) || size <= n
}

/// After how many bytes the output of a window of `n` bytes is looked at: as
/// many as leave room for one more symbol, where there is room.
pub open spec fn look_every(n: int) -> int {
    if window_suffices(n) && n - 4100 < COPY_THRESHOLD {
        n - 4100
    } else {
        COPY_THRESHOLD as int
    }
}

/// After how many bytes the window's output is looked at.
fn copy_threshold(core: &LzCore) -> (t: u64)
    requires
        core.wf(),
    ensures
        t == look_every(core.window.capacity()),
        t > 0,
{
    proof {
        core.window.lemma_capacity();
    }
    let n: u64 = core.window.size() as u64;
    if n > 4100 && n - 4100 < COPY_THRESHOLD {
        n - 4100
    } else {
        COPY_THRESHOLD
    }
}

/// The filter holds back more output than may wait: of the `end` bytes there
/// are, more than that many follow its start, and its region was not complete
/// when the output was last looked at.
pub open spec fn held_back(f: FilterRegion, end: int, n: int) -> bool {
    &&& end - f.block_start > MAX_STREAMING_FILTER_BUFFER
    &&& !complete_by(f, end - look_every(n) - 4100)
}

/// One of the filters holds back more output than may wait.
pub open spec fn is_held_back(z: Lz, n: int) -> bool {
    exists|i: int|
        0 <= i < z.filters.len() && held_back(#[trigger] z.filters[i], z.out.len() as int, n)
}

/// `e` names the type of a filter that the format does not define and whose
/// region is complete.
pub open spec fn is_unknown(e: CodecError, filters: Seq<FilterRegion>, end: int) -> bool {
    exists|i: int|
        0 <= i < filters.len() && (#[trigger] filters[i]).filter_type > FILTER_ARM && complete_by(
            filters[i],
            end,
        ) && e == (CodecError::UnknownFilter { filter_type: filters[i].filter_type })
}

/// No filter is so long that it could hold back more than may wait.
pub open spec fn filters_short(filters: Seq<FilterRegion>, n: int) -> bool {
    forall|i: int|
        0 <= i < filters.len() ==> (#[trigger] filters[i]).block_length + look_every(n) + 4100
            <= MAX_STREAMING_FILTER_BUFFER
}

/// What was written since `prefix`.
spec fn since(prefix: Seq<u8>, w: Seq<u8>) -> Seq<u8> {
    w.subrange(prefix.len() as int, w.len() as int)
}

/// Everything on the way is in order.
spec fn flowing(
    sink: OutputSink,
    z: Lz,
    prefix: Seq<u8>,
    w: Seq<u8>,
    base: int,
    size: int,
    n: int,
) -> bool {
    &&& w == prefix + since(prefix, w)
    &&& sink.holds(z, since(prefix, w))
    &&& sink.member_start == base
    &&& lz_ok(z)
    &&& z.out.len() < base + size + 4100
    &&& z.out.len() - sink.copied < look_every(n) + 4100
    &&& sink.waits()
    &&& window_suffices(n) || size <= n && sink.copied == base
}

/// Look at the output: stage it, undo complete filters, write what is free.
fn flush(
    sink: &mut OutputSink,
    core: &LzCore,
    writer: &mut Vec<u8>,
    Ghost(prefix): Ghost<Seq<u8>>,
    Ghost(base): Ghost<int>,
    Ghost(size): Ghost<int>,
) -> (r: Result<(), CodecError>)
    requires
        core.wf(),
        flowing(*old(sink), core@, prefix, old(writer)@, base, size, core.window.capacity()),
        core@.out.len() - old(sink).copied <= core.window.capacity(),
    ensures
        r is Ok ==> window_suffices(core.window.capacity()) ==> flowing(
            *final(sink),
            core@,
            prefix,
            final(writer)@,
            base,
            size,
            core.window.capacity(),
        ),
        r is Ok ==> final(writer)@ == prefix + since(prefix, final(writer)@) && final(sink).holds(
            core@,
            since(prefix, final(writer)@),
        ) && final(sink).member_start == base && final(sink).copied == core@.out.len()
            && final(sink).seen == core@.filters.len(),
        r is Ok ==> forall|i: int|
            0 <= i < final(sink).pending@.len() ==> !complete_by(
                #[trigger] final(sink).pending@[i],
                core@.out.len() as int,
            ),
        r is Ok && final(sink).pending@.len() == 0 ==> final(sink).staging@.len() == 0,
        r is Err ==> final(writer)@ == old(writer)@,
        r is Err ==> sink_error(r->Err_0, core@, core.window.capacity()),
{
    let ghost w = since(prefix, writer@);
    sink.take_filters(core, Ghost(w));
    match sink.append_window(core, Ghost(w)) {
        Ok(_) => {},
        Err(e) => {
            return Err(e);
        },
    }
    match sink.apply_complete_filters(core, Ghost(w)) {
        Ok(_) => {},
        Err(e) => {
            return Err(e);
        },
    }
    sink.drain(core, writer, Ghost(prefix));
    Ok(())
}

/// The error that looking at the output gives in state `z`.
pub open spec fn sink_error(e: CodecError, z: Lz, n: int) -> bool {
    ||| e == CodecError::StagingLimit && is_held_back(z, n)
    ||| is_unknown(e, z.filters, z.out.len() as int)
}

/// Looking at the output ends decoding in state `mid`; decoding on would, if
/// anything, end in state `end`.
pub open spec fn sink_stops(e: CodecError, mid: Lz, end: Option<Lz>, n: int) -> bool {
    &&& sink_error(e, mid, n)
    &&& end is Some ==> filters_begin(mid.filters, end->Some_0.filters)
}

/// The state of a decoding that succeeded.
pub open spec fn end_state<T>(run: Result<(Lz, T), CodecError>) -> Option<Lz> {
    match run {
        Ok(v) => Some(v.0),
        Err(_) => None,
    }
}

/// Looking at the output ends the decoding of symbols on the way to `goal`
/// bytes, when `g` are there.
pub open spec fn stopped_symbols(
    e: CodecError,
    t: CodeLengths,
    bits: Seq<bool>,
    pos: int,
    end: int,
    z: Lz,
    n: int,
    goal: int,
    g: int,
) -> bool {
    let mid = run_symbols(t, bits, pos, end, z, n, g);
    &&& z.out.len() < g <= goal
    &&& mid is Ok
    &&& g <= mid->Ok_0.0.out.len()
    &&& sink_stops(e, mid->Ok_0.0, end_state(run_symbols(t, bits, pos, end, z, n, goal)), n)
}

/// Decode symbols up to the block's end, or until `goal` bytes are there,
/// looking at the output on the way.
#[verifier::rlimit(40)]
#[verifier::spinoff_prover]
fn stream_symbols(
    reader: &mut BitReader<'_>,
    tables: &Tables,
    core: &mut LzCore,
    sink: &mut OutputSink,
    writer: &mut Vec<u8>,
    end: u64,
    goal: u64,
    Ghost(prefix): Ghost<Seq<u8>>,
    Ghost(base): Ghost<int>,
    Ghost(size): Ghost<int>,
) -> (r: Result<(), CodecError>)
    requires
        old(reader).wf(),
        tables.wf(),
        old(core).wf(),
        goal + 0x1_0000_2000 <= u64::MAX,
        goal == base + size,
        flowing(
            *old(sink),
            old(core)@,
            prefix,
            old(writer)@,
            base,
            size,
            old(core).window.capacity(),
        ),
        old(core)@.out.len() - old(sink).copied < look_every(old(core).window.capacity()),
    ensures
        final(reader).wf(),
        final(reader).bytes() == old(reader).bytes(),
        final(core).wf(),
        final(core).window.capacity() == old(core).window.capacity(),
        extends_bytes(prefix, final(writer)@),
        ({
            let run = run_symbols(
                tables@,
                old(reader).bits(),
                old(reader).pos(),
                end as int,
                old(core)@,
                old(core).window.capacity(),
                goal as int,
            );
            match r {
                Ok(_) => run is Ok && final(core)@ == run->Ok_0.0 && flowing(
                    *final(sink),
                    final(core)@,
                    prefix,
                    final(writer)@,
                    base,
                    size,
                    final(core).window.capacity(),
                ) && final(core)@.out.len() - final(sink).copied < look_every(
                    final(core).window.capacity(),
                ),
                Err(e) => run == Err::<(Lz, int), CodecError>(e) || exists|g: int| #[trigger]
                    stopped_symbols(
                        e,
                        tables@,
                        old(reader).bits(),
                        old(reader).pos(),
                        end as int,
                        old(core)@,
                        old(core).window.capacity(),
                        goal as int,
                        g,
                    ),
            }
        }),
{
    let ghost bits = reader.bits();
    let ghost n = core.window.capacity();
    let ghost run = run_symbols(
        tables@,
        bits,
        reader.pos(),
        end as int,
        core@,
        n,
        goal as int,
    );
    let threshold: u64 = copy_threshold(core);
    while core.window.total_written() < goal && bit_offset(reader) < end
        invariant
            reader.wf(),
            reader.bytes() == old(reader).bytes(),
            bits == reader.bits(),
            tables.wf(),
            core.wf(),
            core.window.capacity() == n,
            n == old(core).window.capacity(),
            goal + 0x1_0000_2000 <= u64::MAX,
            goal == base + size,
            flowing(*sink, core@, prefix, writer@, base, size, n),
            core@.out.len() - sink.copied < look_every(n),
            threshold == look_every(n),
            old(core)@.out.len() <= core@.out.len(),
            run == run_symbols(
                tables@,
                old(reader).bits(),
                old(reader).pos(),
                end as int,
                old(core)@,
                n,
                goal as int,
            ),
            forall|g: int|
                core@.out.len() < g <= goal ==> #[trigger] run_symbols(
                    tables@,
                    old(reader).bits(),
                    old(reader).pos(),
                    end as int,
                    old(core)@,
                    n,
                    g,
                ) == run_symbols(tables@, bits, reader.pos(), end as int, core@, n, g),
            core@.out.len() >= goal ==> run == run_symbols(
                tables@,
                bits,
                reader.pos(),
                end as int,
                core@,
                n,
                goal as int,
            ),
        decreases bits.len() - reader.pos(),
    {
        proof {
            lemma_read_symbol_advances(tables@, bits, reader.pos());
            assert(extends_bytes(prefix, writer@));
        }
        let ghost pos0 = reader.pos();
        let ghost z0 = core@;
        assert(run == run_symbols(tables@, bits, pos0, end as int, z0, n, goal as int));
        let sym: Symbol = match read_symbol(tables, reader) {
            Ok(v) => v,
            Err(e) => {
                return Err(e);
            },
        };
        proof {
            lemma_apply_symbol(core@, n, sym);
            lemma_holds_step(*sink, core@, n, sym, since(prefix, writer@));
        }
        core.apply(sym);
        proof {
            assert forall|g: int| z0.out.len() < g <= goal implies #[trigger] run_symbols(
                tables@,
                old(reader).bits(),
                old(reader).pos(),
                end as int,
                old(core)@,
                n,
                g,
            ) == run_symbols(tables@, bits, reader.pos(), end as int, core@, n, g) by {
                assert(run_symbols(tables@, bits, pos0, end as int, z0, n, g) == run_symbols(
                    tables@,
                    bits,
                    reader.pos(),
                    end as int,
                    core@,
                    n,
                    g,
                ));
            }
        }
        if core.window.total_written() - sink.copied >= threshold {
            let ghost w0 = writer@;
            match flush(sink, core, writer, Ghost(prefix), Ghost(base), Ghost(size)) {
                Ok(_) => {},
                Err(e) => {
                    proof {
                        lemma_symbols_keep_filters(
                            tables@,
                            bits,
                            reader.pos(),
                            end as int,
                            core@,
                            n,
                            goal as int,
                        );
                        let g = if core@.out.len() < goal {
                            core@.out.len() as int
                        } else {
                            goal as int
                        };
                        assert(z0.out.len() < g <= core@.out.len());
                        assert(run_symbols(
                            tables@,
                            old(reader).bits(),
                            old(reader).pos(),
                            end as int,
                            old(core)@,
                            n,
                            g,
                        ) == Ok::<(Lz, int), CodecError>((core@, reader.pos())));
                        assert(stopped_symbols(
                            e,
                            tables@,
                            old(reader).bits(),
                            old(reader).pos(),
                            end as int,
                            old(core)@,
                            n,
                            goal as int,
                            g,
                        ));
                    }
                    return Err(e);
                },
            }
        }
    }
    proof {
        assert(extends_bytes(prefix, writer@));
    }
    Ok(())
}

/// `w` starts with `prefix`.
pub open spec fn extends_bytes(prefix: Seq<u8>, w: Seq<u8>) -> bool {
    prefix.len() <= w.len() && w.subrange(0, prefix.len() as int) =~= prefix
}

proof fn lemma_begin_chain(a: Seq<FilterRegion>, b: Seq<FilterRegion>, c: Seq<FilterRegion>)
    requires
        filters_begin(a, b),
        filters_begin(b, c),
    ensures
        filters_begin(a, c),
{
    assert forall|i: int| 0 <= i < a.len() implies c[i] == a[i] by {
        assert(b.subrange(0, a.len() as int)[i] == a[i]);
        assert(c.subrange(0, b.len() as int)[i] == b[i]);
    }
    assert(c.subrange(0, a.len() as int) =~= a);
}

/// Looking at the output ends the decoding of blocks on the way to `goal`
/// bytes, in the state that decoding reaches with `g` bytes.
pub open spec fn stopped_at(
    e: CodecError,
    data: Seq<u8>,
    pos: int,
    tabs: Option<CodeLengths>,
    z: Lz,
    n: int,
    extra_dist: bool,
    goal: int,
    g: int,
) -> bool {
    let mid = run_blocks(data, pos, tabs, z, n, extra_dist, g);
    &&& g <= goal
    &&& mid is Ok
    &&& sink_stops(
        e,
        mid->Ok_0.0,
        end_state(run_blocks(data, pos, tabs, z, n, extra_dist, goal)),
        n,
    )
}

/// Looking at the output ends the decoding of a member on the way to `goal`
/// bytes.
pub open spec fn stopped(
    e: CodecError,
    data: Seq<u8>,
    tabs: Option<CodeLengths>,
    z: Lz,
    n: int,
    extra_dist: bool,
    goal: int,
) -> bool {
    exists|g: int| #[trigger] stopped_at(e, data, 0, tabs, z, n, extra_dist, goal, g)
}

/// Where the decoding of a block's symbols ends, that of the blocks does.
proof fn lemma_stopped_block(
    e: CodecError,
    data: Seq<u8>,
    pos: int,
    tabs: Option<CodeLengths>,
    z: Lz,
    n: int,
    extra_dist: bool,
    goal: int,
    g: int,
)
    requires
        z.out.len() < goal,
        spec_read_header(data, pos) is Ok,
        ({
            let h = spec_read_header(data, pos)->Ok_0;
            let bt = block_tables(data, h, tabs, extra_dist);
            &&& bt is Ok
            &&& stopped_symbols(
                e,
                bt->Ok_0.0,
                crate::codec::bits::bits_of(data),
                bt->Ok_0.1,
                h.start + h.len,
                z,
                n,
                goal,
                g,
            )
        }),
    ensures
        z.out.len() < g,
        stopped_at(e, data, pos, tabs, z, n, extra_dist, goal, g),
{
    let h = spec_read_header(data, pos)->Ok_0;
    let (t, p) = block_tables(data, h, tabs, extra_dist)->Ok_0;
    let bits = crate::codec::bits::bits_of(data);
    let mid = run_symbols(t, bits, p, h.start + h.len, z, n, g)->Ok_0.0;
    lemma_header_advances(data, pos);
    let b = run_block(data, pos, tabs, z, n, extra_dist, g)->Ok_0;
    assert(b.lz == mid);
    if !b.last {
        assert(run_blocks(data, b.next, Some(b.tabs), mid, n, extra_dist, g)->Ok_0.0 == mid);
    }
    assert(run_blocks(data, pos, tabs, z, n, extra_dist, g)->Ok_0.0 == mid);
    let run = run_blocks(data, pos, tabs, z, n, extra_dist, goal);
    if run is Ok {
        let c = run_block(data, pos, tabs, z, n, extra_dist, goal)->Ok_0;
        if !c.last {
            lemma_blocks_keep_filters(data, c.next, Some(c.tabs), c.lz, n, extra_dist, goal);
        } else {
            assert(c.lz.filters.subrange(0, c.lz.filters.len() as int) =~= c.lz.filters);
        }
        lemma_begin_chain(mid.filters, c.lz.filters, run->Ok_0.0.filters);
    }
}

/// The error that ends streaming a member of `size` bytes from state `z`:
/// that of decoding it, or of looking at the output on the way; a filter whose
/// region was never produced; a size other than announced.
pub open spec fn stream_error(
    e: CodecError,
    data: Seq<u8>,
    size: int,
    tabs: Option<CodeLengths>,
    z: Lz,
    n: int,
    extra_dist: bool,
) -> bool {
    let base = z.out.len() as int;
    let run = run_blocks(data, 0, tabs, z, n, extra_dist, base + size);
    ||| run is Err && e == run->Err_0
    ||| stopped(e, data, tabs, z, n, extra_dist, base + size)
    ||| run is Ok && {
        let v = run->Ok_0.0;
        let whole = all_complete(v.filters, v.out.len() as int);
        ||| e == CodecError::UnappliedFilter && !whole
        ||| (whole || !window_suffices(n)) && v.out.len() - base != size && e == (
        CodecError::SizeMismatch { wanted: size as u64, produced: (v.out.len() - base) as u64 })
    }
}

/// What streaming has written of a member that ended in state `z`: its
/// output with all filters undone, in the order of the records where that is
/// the order in which their regions end.
pub open spec fn stream_output(before: Seq<u8>, after: Seq<u8>, z: Lz, base: int) -> bool {
    exists|order: Seq<FilterRegion>|
        #[trigger] order.to_multiset() =~= z.filters.to_multiset() && (ends_ordered(z.filters)
            ==> order == z.filters) && extends_bytes(before, after) && apply_regions(
            z.out.subrange(base, z.out.len() as int),
            order,
            base,
            order.len(),
        ) == Ok::<Seq<u8>, CodecError>(
            after.subrange(before.len() as int, after.len() as int),
        )
}

/// Decode blocks until the last one, or until `goal` bytes are there, looking
/// at the output on the way.
#[verifier::rlimit(60)]
#[verifier::spinoff_prover]
fn stream_blocks(
    reader: &mut BitReader<'_>,
    state: &mut DecoderState,
    sink: &mut OutputSink,
    writer: &mut Vec<u8>,
    extra_dist: bool,
    goal: u64,
    Ghost(prefix): Ghost<Seq<u8>>,
    Ghost(base): Ghost<int>,
    Ghost(size): Ghost<int>,
) -> (r: Result<(), CodecError>)
    requires
        old(reader).wf(),
        old(reader).pos() == 0,
        old(state).wf(),
        goal + 0x1_0000_2000 <= u64::MAX,
        goal == base + size,
        flowing(
            *old(sink),
            old(state).core@,
            prefix,
            old(writer)@,
            base,
            size,
            old(state).core.window.capacity(),
        ),
        old(state).core@.out.len() - old(sink).copied < look_every(
            old(state).core.window.capacity(),
        ),
    ensures
        final(state).wf(),
        final(state).core.window.capacity() == old(state).core.window.capacity(),
        extends_bytes(prefix, final(writer)@),
        ({
            let run = run_blocks(
                old(reader).bytes(),
                0,
                old(state).tabs(),
                old(state).core@,
                old(state).core.window.capacity(),
                extra_dist,
                goal as int,
            );
            match r {
                Ok(_) => run is Ok && final(state).core@ == run->Ok_0.0 && final(state).tabs()
                    == run->Ok_0.1 && flowing(
                    *final(sink),
                    final(state).core@,
                    prefix,
                    final(writer)@,
                    base,
                    size,
                    final(state).core.window.capacity(),
                ) && final(state).core@.out.len() - final(sink).copied < look_every(
                    final(state).core.window.capacity(),
                ),
                Err(e) => run is Err && e == run->Err_0 || stopped(
                    e,
                    old(reader).bytes(),
                    old(state).tabs(),
                    old(state).core@,
                    old(state).core.window.capacity(),
                    extra_dist,
                    goal as int,
                ),
            }
        }),
{
    let ghost data = reader.bytes();
    let ghost n = state.core.window.capacity();
    let ghost run = run_blocks(
        data,
        0,
        state.tabs(),
        state.core@,
        n,
        extra_dist,
        goal as int,
    );
    while state.core.window.total_written() < goal
        invariant
            reader.wf(),
            reader.bytes() == data,
            reader.pos() >= 0,
            state.wf(),
            state.core.window.capacity() == n,
            n == old(state).core.window.capacity(),
            goal + 0x1_0000_2000 <= u64::MAX,
            goal == base + size,
            data == old(reader).bytes(),
            flowing(*sink, state.core@, prefix, writer@, base, size, n),
            state.core@.out.len() - sink.copied < look_every(n),
            run == run_blocks(
                old(reader).bytes(),
                0,
                old(state).tabs(),
                old(state).core@,
                n,
                extra_dist,
                goal as int,
            ),
            forall|g: int|
                state.core@.out.len() < g <= goal ==> #[trigger] run_blocks(
                    old(reader).bytes(),
                    0,
                    old(state).tabs(),
                    old(state).core@,
                    n,
                    extra_dist,
                    g,
                ) == run_blocks(
                    data,
                    reader.pos(),
                    state.tabs(),
                    state.core@,
                    n,
                    extra_dist,
                    g,
                ),
            state.core@.out.len() >= goal ==> run == run_blocks(
                data,
                reader.pos(),
                state.tabs(),
                state.core@,
                n,
                extra_dist,
                goal as int,
            ),
        decreases
                if reader.pos() > 8 * data.len() {
                    0
                } else {
                    8 * data.len() - reader.pos() + 1
                },
    {
        proof {
            lemma_header_advances(data, reader.pos());
            crate::codec::bits::lemma_bits_of_len(data);
            reader.lemma_bounds();
            assert(extends_bytes(prefix, writer@));
        }
        let ghost pos0 = reader.pos();
        let ghost tabs0 = state.tabs();
        let ghost z0 = state.core@;
        assert(run == run_blocks(data, pos0, tabs0, z0, n, extra_dist, goal as int));
        let h: BlockHeader = match read_header(reader) {
            Ok(v) => v,
            Err(e) => {
                return Err(e);
            },
        };
        let start: u64 = bit_offset(reader);
        let end: u64 = start + h.len;
        if h.table {
            let t: Tables = match read_tables(reader, extra_dist) {
                Ok(v) => v,
                Err(e) => {
                    return Err(e);
                },
            };
            state.tables = Some(t);
        }
        let ghost mid = reader.pos();
        match &state.tables {
            None => {
                return Err(CodecError::NoTables);
            },
            Some(tables) => {
                let ghost t = tables@;
                match stream_symbols(
                    reader,
                    tables,
                    &mut state.core,
                    sink,
                    writer,
                    end,
                    goal,
                    Ghost(prefix),
                    Ghost(base),
                    Ghost(size),
                ) {
                    Ok(_) => {},
                    Err(e) => {
                        proof {
                            let bits = crate::codec::bits::bits_of(data);
                            if run_symbols(t, bits, mid, end as int, z0, n, goal as int) != Err::<
                                (Lz, int),
                                CodecError,
                            >(e) {
                                let g = choose|g: int| #[trigger]
                                    stopped_symbols(
                                        e,
                                        t,
                                        bits,
                                        mid,
                                        end as int,
                                        z0,
                                        n,
                                        goal as int,
                                        g,
                                    );
                                lemma_stopped_block(
                                    e,
                                    data,
                                    pos0,
                                    tabs0,
                                    z0,
                                    n,
                                    extra_dist,
                                    goal as int,
                                    g,
                                );
                                assert(stopped_at(
                                    e,
                                    old(reader).bytes(),
                                    0,
                                    old(state).tabs(),
                                    old(state).core@,
                                    n,
                                    extra_dist,
                                    goal as int,
                                    g,
                                ));
                            }
                        }
                        return Err(e);
                    },
                }
            },
        }
        reader.set_position(end / 8, (end % 8) as u8);
        proof {
            let b = run_block(data, pos0, tabs0, z0, n, extra_dist, goal as int)->Ok_0;
            let hd = spec_read_header(data, pos0)->Ok_0;
            let (t, p) = block_tables(data, hd, tabs0, extra_dist)->Ok_0;
            let bits = crate::codec::bits::bits_of(data);
            if !b.last {
                assert forall|g: int| state.core@.out.len() < g <= goal implies #[trigger] run_blocks(
                    old(reader).bytes(),
                    0,
                    old(state).tabs(),
                    old(state).core@,
                    n,
                    extra_dist,
                    g,
                ) == run_blocks(
                    data,
                    reader.pos(),
                    state.tabs(),
                    state.core@,
                    n,
                    extra_dist,
                    g,
                ) by {
                    lemma_nearer_goal(t, bits, p, hd.start + hd.len, z0, n, goal as int, g);
                    assert(run_block(data, pos0, tabs0, z0, n, extra_dist, g)
                        == Ok::<BlockEnd, CodecError>(b));
                    assert(run_blocks(data, pos0, tabs0, z0, n, extra_dist, g) == run_blocks(
                        data,
                        b.next,
                        Some(b.tabs),
                        b.lz,
                        n,
                        extra_dist,
                        g,
                    ));
                }
            }
        }
        if h.last {
            proof {
                assert(extends_bytes(prefix, writer@));
            }
            return Ok(());
        }
    }
    proof {
        assert(extends_bytes(prefix, writer@));
    }
    Ok(())
}

/// Streaming decode core: appends decoded (and filtered) output to `writer`.
pub fn decode_inner_streaming(
    data: &[u8],
    unpacked_size: u64,
    state: &mut DecoderState,
    extra_dist: bool,
    writer: &mut Vec<u8>,
) -> (r: Result<u64, CodecError>)
    requires
        data@.len() < 0x1000_0000_0000_0000,
        old(state).wf(),
        old(state).lz().out.len() + unpacked_size + 0x1_0000_2000 <= u64::MAX,
        stream_fits(old(state).core.window.capacity(), unpacked_size as int),
    ensures
        final(state).wf(),
        final(state).core.window.capacity() == old(state).core.window.capacity(),
        extends_bytes(old(writer)@, final(writer)@),
        ({
            let z = old(state).lz();
            let base = z.out.len() as int;
            let run = run_blocks(
                data@,
                0,
                old(state).tabs(),
                z,
                old(state).core.window.capacity(),
                extra_dist,
                base + unpacked_size,
            );
            match r {
                Ok(m) => {
                    &&& m == unpacked_size
                    &&& run is Ok
                    &&& run->Ok_0.0.out.len() == base + unpacked_size
                    &&& all_complete(run->Ok_0.0.filters, run->Ok_0.0.out.len() as int)
                    &&& all_known(run->Ok_0.0.filters)
                    &&& stream_output(old(writer)@, final(writer)@, run->Ok_0.0, base)
                    &&& final(state).tabs() == run->Ok_0.1
                    &&& final(state).lz() == (Lz { filters: Seq::empty(), ..run->Ok_0.0 })
                },
                Err(e) => stream_error(
                    e,
                    data@,
                    unpacked_size as int,
                    old(state).tabs(),
                    z,
                    old(state).core.window.capacity(),
                    extra_dist,
                ),
            }
        }),
{
    let base: u64 = state.core.window.total_written();
    state.core.filters.clear();
    assert(state.core@.filters =~= Seq::<FilterRegion>::empty());
    assert(state.core@ == old(state).lz());
    let mut reader = BitReader::new(data);
    let mut sink = OutputSink {
        staging: Vec::new(),
        staging_start: base,
        member_start: base,
        copied: base,
        pending: Vec::new(),
        seen: 0,
        applied: Ghost(Seq::empty()),
    };
    let ghost prefix = writer@;
    let ghost b = base as int;
    let ghost size = unpacked_size as int;
    proof {
        broadcast use vstd::seq_lib::group_to_multiset_ensures;

        let none = Seq::<FilterRegion>::empty();
        let z = state.core@;
        assert(since(prefix, writer@) =~= Seq::<u8>::empty());
        assert(prefix + Seq::<u8>::empty() =~= prefix);
        assert(z.out.subrange(b, b) =~= Seq::<u8>::empty());
        assert(sink.staging@ =~= Seq::<u8>::empty());
        assert(Seq::<u8>::empty() + sink.staging@ =~= Seq::<u8>::empty());
        assert(sink.pending@ =~= none);
        assert(z.filters.subrange(0, 0) =~= none);
        assert(none + none =~= none);
        assert(none.to_multiset().add(none.to_multiset()) =~= none.to_multiset());
    }
    match stream_blocks(
        &mut reader,
        state,
        &mut sink,
        writer,
        extra_dist,
        base + unpacked_size,
        Ghost(prefix),
        Ghost(b),
        Ghost(size),
    ) {
        Ok(_) => {},
        Err(e) => {
            return Err(e);
        },
    }
    let written: u64 = state.core.window.total_written();
    assert(extends_bytes(prefix, writer@));
    // More than the window holds, and more than announced.
    if written - sink.copied > state.core.window.size() as u64 {
        return Err(
            CodecError::SizeMismatch { wanted: unpacked_size, produced: written - base },
        );
    }
    match flush(&mut sink, &state.core, writer, Ghost(prefix), Ghost(b), Ghost(size)) {
        Ok(_) => {},
        Err(e) => {
            proof {
                let z = state.core@;
                assert(z.filters.subrange(0, z.filters.len() as int) =~= z.filters);
                assert(stopped_at(
                    e,
                    data@,
                    0,
                    old(state).tabs(),
                    old(state).lz(),
                    state.core.window.capacity(),
                    extra_dist,
                    b + size,
                    b + size,
                ));
            }
            return Err(e);
        },
    }
    proof {
        assert(extends_bytes(prefix, writer@));
    }
    // Any filter whose region was never produced is malformed.
    if sink.pending.len() > 0 {
        proof {
            lemma_pending_incomplete(sink, state.core@, since(prefix, writer@), written as int);
        }
        return Err(CodecError::UnappliedFilter);
    }
    proof {
        lemma_drained(sink, state.core@, since(prefix, writer@), prefix, writer@);
    }
    let produced: u64 = written - base;
    if produced != unpacked_size {
        return Err(CodecError::SizeMismatch { wanted: unpacked_size, produced });
    }
    Ok(produced)
}

proof fn lemma_pending_incomplete(sink: OutputSink, z: Lz, written: Seq<u8>, end: int)
    requires
        sink.holds(z, written),
        sink.seen == z.filters.len(),
        sink.pending@.len() > 0,
        forall|i: int|
            0 <= i < sink.pending@.len() ==> !complete_by(#[trigger] sink.pending@[i], end),
    ensures
        !all_complete(z.filters, end),
{
    broadcast use vstd::seq_lib::group_to_multiset_ensures;

    let f = sink.pending@[0];
    let s = z.filters.subrange(0, sink.seen as int);
    assert(s =~= z.filters);
    assert(sink.pending@.contains(f));
    assert(sink.pending@.to_multiset().count(f) > 0);
    assert(s.to_multiset().count(f) > 0);
    assert(s.contains(f));
    let j = choose|j: int| 0 <= j < s.len() && s[j] == f;
    assert(!complete_by(z.filters[j], end));
}

proof fn lemma_drained(sink: OutputSink, z: Lz, written: Seq<u8>, prefix: Seq<u8>, w: Seq<u8>)
    requires
        sink.holds(z, written),
        sink.seen == z.filters.len(),
        sink.copied == z.out.len(),
        sink.pending@.len() == 0,
        sink.staging@.len() == 0,
        w == prefix + written,
        written == since(prefix, w),
    ensures
        stream_output(prefix, w, z, sink.member_start as int),
        all_complete(z.filters, z.out.len() as int),
        all_known(z.filters),
{
    broadcast use vstd::seq_lib::group_to_multiset_ensures;

    let a = sink.applied@;
    let none = Seq::<FilterRegion>::empty();
    assert(sink.pending@ =~= none);
    let s = z.filters.subrange(0, sink.seen as int);
    assert(s =~= z.filters);
    assert(a.to_multiset().add(none.to_multiset()) =~= a.to_multiset());
    assert(a + none =~= a);
    assert(written + sink.staging@ =~= written);
    assert(extends_bytes(prefix, w));
    assert(a.to_multiset() =~= z.filters.to_multiset());
    assert forall|i: int| 0 <= i < z.filters.len() implies complete_by(
        #[trigger] z.filters[i],
        z.out.len() as int,
    ) && z.filters[i].filter_type <= FILTER_ARM by {
        let f = z.filters[i];
        assert(z.filters.contains(f));
        assert(a.to_multiset().count(f) > 0);
        assert(a.contains(f));
        let j = choose|j: int| 0 <= j < a.len() && a[j] == f;
        assert(complete_by(a[j], sink.copied as int));
        assert(a[j].filter_type <= FILTER_ARM);
    }
}

/// Position `x` of the output, which is `len` bytes from `base` on, belongs to
/// the filter's region.
pub open spec fn on_region(f: FilterRegion, base: int, len: int, x: int) -> bool {
    filter_start(f, base) <= x < filter_end(f, base, len)
}

/// The regions start within the output, and no byte belongs to two of them.
pub open spec fn regions_apart(fs: Seq<FilterRegion>, base: int, len: int) -> bool {
    &&& forall|i: int| 0 <= i < fs.len() ==> filter_start(#[trigger] fs[i], base) >= 0
    &&& forall|i: int, j: int, x: int|
        #![trigger on_region(fs[i], base, len, x), on_region(fs[j], base, len, x)]
        0 <= i < fs.len() && 0 <= j < fs.len() && i != j && on_region(fs[i], base, len, x)
            ==> !on_region(fs[j], base, len, x)
}

/// What undoing a filter on `out` makes of its region.
pub open spec fn region_decoded(out: Seq<u8>, f: FilterRegion, base: int) -> Seq<u8> {
    filter_decoded(
        f.filter_type,
        out.subrange(filter_start(f, base), filter_end(f, base, out.len() as int)),
        f.channels,
        filter_start(f, base),
    )
}

/// `o` is `out` with each of the first `k` regions undone by itself.
pub open spec fn undone_apart(
    out: Seq<u8>,
    fs: Seq<FilterRegion>,
    base: int,
    k: int,
    o: Seq<u8>,
) -> bool {
    let len = out.len() as int;
    &&& o.len() == len
    &&& forall|i: int, x: int|
        #![trigger on_region(fs[i], base, len, x)]
        0 <= i < k && on_region(fs[i], base, len, x) ==> o[x] == region_decoded(out, fs[i], base)[x
            - filter_start(fs[i], base)]
    &&& forall|x: int|
        #![trigger o[x]]
        0 <= x < len && (forall|i: int| 0 <= i < k ==> !on_region(#[trigger] fs[i], base, len, x))
            ==> o[x] == out[x]
}

/// Filters on regions apart are undone each by itself.
#[verifier::spinoff_prover]
#[verifier::rlimit(40)]
proof fn lemma_undone_apart(out: Seq<u8>, fs: Seq<FilterRegion>, base: int, k: nat)
    requires
        k <= fs.len(),
        all_known(fs),
        regions_apart(fs, base, out.len() as int),
    ensures
        apply_regions(out, fs, base, k) is Ok,
        undone_apart(out, fs, base, k as int, apply_regions(out, fs, base, k)->Ok_0),
    decreases k,
{
    let len = out.len() as int;
    if k > 0 {
        let j = k - 1;
        lemma_undone_apart(out, fs, base, j as nat);
        let o = apply_regions(out, fs, base, j as nat)->Ok_0;
        let f = fs[j];
        let start = filter_start(f, base);
        let end = filter_end(f, base, len);
        assert(f.filter_type <= FILTER_ARM);
        assert(start >= 0);
        let w = apply_region(o, f, base)->Ok_0;
        if start < len {
            assert(o.subrange(start, end) =~= out.subrange(start, end)) by {
                assert forall|x: int| start <= x < end implies o[x] == out[x] by {
                    assert(on_region(fs[j], base, len, x));
                    assert forall|i: int| 0 <= i < j implies !on_region(
                        #[trigger] fs[i],
                        base,
                        len,
                        x,
                    ) by {
                        if on_region(fs[i], base, len, x) {
                            assert(!on_region(fs[j], base, len, x));
                        }
                    }
                }
            }
            lemma_filter_len(f.filter_type, out.subrange(start, end), f.channels, start);
            let d = region_decoded(out, f, base);
            assert(w == o.subrange(0, start) + d + o.subrange(end, len));
        } else {
            assert(w == o);
        }
        assert forall|i: int, x: int|
            #![trigger on_region(fs[i], base, len, x)]
            0 <= i < k && on_region(fs[i], base, len, x) implies w[x] == region_decoded(
            out,
            fs[i],
            base,
        )[x - filter_start(fs[i], base)] by {
            assert(filter_start(fs[i], base) >= 0);
            if i < j {
                assert(!on_region(fs[j], base, len, x));
                assert(w[x] == o[x]);
            }
        }
        assert forall|x: int|
            #![trigger w[x]]
            0 <= x < len && (forall|i: int|
                0 <= i < k ==> !on_region(#[trigger] fs[i], base, len, x)) implies w[x]
            == out[x] by {
            assert(!on_region(fs[j], base, len, x));
            assert(w[x] == o[x]);
        }
    }
}

/// A value that stands twice in a sequence is counted twice, and the other
/// way round.
proof fn lemma_counted_twice(s: Seq<FilterRegion>, f: FilterRegion)
    ensures
        s.to_multiset().count(f) >= 2 <==> exists|i: int, j: int|
            0 <= i < j < s.len() && #[trigger] s[i] == f && #[trigger] s[j] == f,
{
    broadcast use vstd::seq_lib::group_to_multiset_ensures;

    if s.to_multiset().count(f) >= 2 {
        assert(s.contains(f));
        let i = choose|i: int| 0 <= i < s.len() && s[i] == f;
        let rest = s.remove(i);
        assert(rest.to_multiset().count(f) >= 1);
        assert(rest.contains(f));
        let j = choose|j: int| 0 <= j < rest.len() && rest[j] == f;
        if j < i {
            assert(s[j] == f && s[i] == f);
        } else {
            assert(s[i] == f && s[j + 1] == f);
        }
    }
    if exists|i: int, j: int|
        0 <= i < j < s.len() && #[trigger] s[i] == f && #[trigger] s[j] == f {
        let (i, j) = choose|i: int, j: int|
            0 <= i < j < s.len() && #[trigger] s[i] == f && #[trigger] s[j] == f;
        let rest = s.remove(i);
        assert(rest[j - 1] == f);
        assert(rest.contains(f));
        assert(rest.to_multiset().count(f) >= 1);
        assert(s.contains(f));
        assert(s.to_multiset().count(f) >= 1);
    }
}

/// Filters that stand in another order are apart as well.
proof fn lemma_apart_any_order(
    fs: Seq<FilterRegion>,
    gs: Seq<FilterRegion>,
    base: int,
    len: int,
)
    requires
        gs.to_multiset() =~= fs.to_multiset(),
        all_known(fs),
        regions_apart(fs, base, len),
    ensures
        all_known(gs),
        regions_apart(gs, base, len),
        forall|i: int| 0 <= i < gs.len() ==> fs.contains(#[trigger] gs[i]),
        forall|i: int| 0 <= i < fs.len() ==> gs.contains(#[trigger] fs[i]),
{
    broadcast use vstd::seq_lib::group_to_multiset_ensures;

    assert forall|i: int| 0 <= i < gs.len() implies fs.contains(#[trigger] gs[i]) by {
        assert(gs.contains(gs[i]));
        assert(gs.to_multiset().count(gs[i]) > 0);
        assert(fs.to_multiset().count(gs[i]) > 0);
    }
    assert forall|i: int| 0 <= i < fs.len() implies gs.contains(#[trigger] fs[i]) by {
        assert(fs.contains(fs[i]));
        assert(fs.to_multiset().count(fs[i]) > 0);
        assert(gs.to_multiset().count(fs[i]) > 0);
    }
    assert forall|i: int| 0 <= i < gs.len() implies filter_start(#[trigger] gs[i], base) >= 0
        && gs[i].filter_type <= FILTER_ARM by {
        let a = choose|a: int| 0 <= a < fs.len() && fs[a] == gs[i];
        assert(filter_start(fs[a], base) >= 0);
        assert(fs[a].filter_type <= FILTER_ARM);
    }
    assert forall|i: int, j: int, x: int|
        #![trigger on_region(gs[i], base, len, x), on_region(gs[j], base, len, x)]
        0 <= i < gs.len() && 0 <= j < gs.len() && i != j && on_region(
            gs[i],
            base,
            len,
            x,
        ) implies !on_region(gs[j], base, len, x) by {
        if on_region(gs[j], base, len, x) {
            if gs[i] == gs[j] {
                lemma_counted_twice(gs, gs[i]);
                lemma_counted_twice(fs, gs[i]);
                if i < j {
                    assert(gs[i] == gs[i] && gs[j] == gs[i]);
                } else {
                    assert(gs[j] == gs[i] && gs[i] == gs[i]);
                }
                assert(gs.to_multiset().count(gs[i]) >= 2);
                let (a, b) = choose|a: int, b: int|
                    0 <= a < b < fs.len() && #[trigger] fs[a] == gs[i] && #[trigger] fs[b] == gs[i];
                assert(on_region(fs[a], base, len, x));
                assert(on_region(fs[b], base, len, x));
            } else {
                let a = choose|a: int| 0 <= a < fs.len() && fs[a] == gs[i];
                let b = choose|b: int| 0 <= b < fs.len() && fs[b] == gs[j];
                assert(on_region(fs[a], base, len, x));
                assert(on_region(fs[b], base, len, x));
            }
        }
    }
}

/// Filters on regions apart may be undone in any order.
pub proof fn lemma_any_order(
    out: Seq<u8>,
    fs: Seq<FilterRegion>,
    gs: Seq<FilterRegion>,
    base: int,
)
    requires
        gs.to_multiset() =~= fs.to_multiset(),
        all_known(fs),
        regions_apart(fs, base, out.len() as int),
    ensures
        apply_regions(out, gs, base, gs.len()) is Ok,
        apply_regions(out, gs, base, gs.len()) == apply_regions(out, fs, base, fs.len()),
{
    let len = out.len() as int;
    lemma_apart_any_order(fs, gs, base, len);
    lemma_undone_apart(out, fs, base, fs.len());
    lemma_undone_apart(out, gs, base, gs.len());
    let o = apply_regions(out, fs, base, fs.len())->Ok_0;
    let w = apply_regions(out, gs, base, gs.len())->Ok_0;
    assert forall|x: int| 0 <= x < len implies o[x] == w[x] by {
        if exists|i: int| 0 <= i < fs.len() && on_region(#[trigger] fs[i], base, len, x) {
            let i = choose|i: int| 0 <= i < fs.len() && on_region(#[trigger] fs[i], base, len, x);
            let j = choose|j: int| 0 <= j < gs.len() && gs[j] == fs[i];
            assert(gs.contains(fs[i]));
            assert(on_region(gs[j], base, len, x));
        } else {
            assert forall|j: int| 0 <= j < gs.len() implies !on_region(
                #[trigger] gs[j],
                base,
                len,
                x,
            ) by {
                assert(fs.contains(gs[j]));
                let i = choose|i: int| 0 <= i < fs.len() && fs[i] == gs[j];
                assert(!on_region(fs[i], base, len, x));
            }
            assert(o[x] == out[x]);
            assert(w[x] == out[x]);
        }
    }
    assert(o =~= w);
}

/// What streaming wrote is the output with the filters undone in the order of
/// their records, where their regions are apart or end in that order.
pub proof fn lemma_stream_output_in_order(before: Seq<u8>, after: Seq<u8>, z: Lz, base: int)
    requires
        stream_output(before, after, z, base),
        ends_ordered(z.filters) || all_known(z.filters) && regions_apart(
            z.filters,
            base,
            z.out.len() - base,
        ),
        0 <= base <= z.out.len(),
    ensures
        apply_regions(
            z.out.subrange(base, z.out.len() as int),
            z.filters,
            base,
            z.filters.len(),
        ) == Ok::<Seq<u8>, CodecError>(after.subrange(before.len() as int, after.len() as int)),
{
    let out = z.out.subrange(base, z.out.len() as int);
    let order = choose|order: Seq<FilterRegion>|
        #[trigger] order.to_multiset() =~= z.filters.to_multiset() && (ends_ordered(z.filters)
            ==> order == z.filters) && extends_bytes(before, after) && apply_regions(
            out,
            order,
            base,
            order.len(),
        ) == Ok::<Seq<u8>, CodecError>(
            after.subrange(before.len() as int, after.len() as int),
        );
    if !ends_ordered(z.filters) {
        lemma_any_order(out, z.filters, order, base);
    }
}

/// Where the filters' regions are apart, or end in the order of their records,
/// streaming gives exactly the bytes that decoding into a buffer gives.
pub proof fn lemma_streaming_is_buffered(
    data: Seq<u8>,
    size: int,
    tabs: Option<CodeLengths>,
    z: Lz,
    n: int,
    extra_dist: bool,
    before: Seq<u8>,
    after: Seq<u8>,
)
    requires
        0 <= size <= n,
        0 < n,
        ({
            let run = run_blocks(data, 0, tabs, z, n, extra_dist, z.out.len() + size);
            &&& run is Ok
            &&& run->Ok_0.0.out.len() == z.out.len() + size
            &&& ends_ordered(run->Ok_0.0.filters) || all_known(run->Ok_0.0.filters)
                && regions_apart(run->Ok_0.0.filters, z.out.len() as int, size)
            &&& stream_output(before, after, run->Ok_0.0, z.out.len() as int)
        }),
    ensures
        decode_member(data, size, tabs, z, n, extra_dist) == Ok::<Seq<u8>, CodecError>(
            after.subrange(before.len() as int, after.len() as int),
        ),
{
    let base = z.out.len() as int;
    let z2 = run_blocks(data, 0, tabs, z, n, extra_dist, base + size)->Ok_0.0;
    lemma_window_output(z2.out, n, base, size as nat);
    lemma_stream_output_in_order(before, after, z2, base);
}

/// What streaming a member from state `z` may do: `r` is its result, `before`
/// and `after` what the writer held.
pub open spec fn stream_result(
    r: Result<u64, String>,
    before: Seq<u8>,
    after: Seq<u8>,
    data: Seq<u8>,
    size: u64,
    tabs: Option<CodeLengths>,
    z: Lz,
    n: int,
    extra_dist: bool,
) -> bool {
    let base = z.out.len() as int;
    let run = run_blocks(data, 0, tabs, z, n, extra_dist, base + size);
    &&& extends_bytes(before, after)
    &&& match r {
        Ok(m) => {
            &&& m == size
            &&& run is Ok
            &&& run->Ok_0.0.out.len() == base + size
            &&& all_complete(run->Ok_0.0.filters, run->Ok_0.0.out.len() as int)
            &&& all_known(run->Ok_0.0.filters)
            &&& stream_output(before, after, run->Ok_0.0, base)
        },
        Err(text) => exists|e: CodecError|
            text@ == #[trigger] e.spec_message() && stream_error(
                e,
                data,
                size as int,
                tabs,
                z,
                n,
                extra_dist,
            ),
    }
}

/// Where the member decodes to the size announced, its filters are known, all
/// their regions complete and none of them so long that it could hold back
/// more output than may wait, streaming succeeds, however long the member.
pub proof fn lemma_stream_succeeds(
    r: Result<u64, String>,
    before: Seq<u8>,
    after: Seq<u8>,
    data: Seq<u8>,
    size: u64,
    tabs: Option<CodeLengths>,
    z: Lz,
    n: int,
    extra_dist: bool,
)
    requires
        stream_result(r, before, after, data, size, tabs, z, n, extra_dist),
        ({
            let run = run_blocks(data, 0, tabs, z, n, extra_dist, z.out.len() + size);
            &&& run is Ok
            &&& run->Ok_0.0.out.len() == z.out.len() + size
            &&& all_complete(run->Ok_0.0.filters, run->Ok_0.0.out.len() as int)
            &&& all_known(run->Ok_0.0.filters)
            &&& filters_short(run->Ok_0.0.filters, n)
        }),
    ensures
        r == Ok::<u64, String>(size),
{
    let goal = z.out.len() + size;
    let end = run_blocks(data, 0, tabs, z, n, extra_dist, goal)->Ok_0.0;
    if r is Err {
        let e = choose|e: CodecError|
            r->Err_0@ == #[trigger] e.spec_message() && stream_error(
                e,
                data,
                size as int,
                tabs,
                z,
                n,
                extra_dist,
            );
        assert(stopped(e, data, tabs, z, n, extra_dist, goal));
        let g = choose|g: int| #[trigger]
            stopped_at(e, data, 0, tabs, z, n, extra_dist, goal, g);
        let mid = run_blocks(data, 0, tabs, z, n, extra_dist, g)->Ok_0.0;
        assert forall|i: int| 0 <= i < mid.filters.len() implies #[trigger] mid.filters[i]
            == end.filters[i] by {
            assert(end.filters.subrange(0, mid.filters.len() as int)[i] == mid.filters[i]);
        }
    }
}

/// Decode RAR5 compressed data, appending output to `writer` as it becomes
/// final. Returns the number of bytes written.
///
/// Filters are applied before bytes leave the stream; the total held-back
/// region is bounded by [`MAX_STREAMING_FILTER_BUFFER`].
pub fn decode_to_writer(
    data: &[u8],
    unpacked_size: u64,
    opts: DecodeOptions<'_>,
    writer: &mut Vec<u8>,
) -> (r: Result<u64, String>)
    requires
        data@.len() < 0x1000_0000_0000_0000,
        unpacked_size > 0 ==> unpacked_size + 0x1_0000_2000 <= u64::MAX && match opts.state {
            Some(s) => s.wf() && s.lz().out.len() + unpacked_size + 0x1_0000_2000 <= u64::MAX
                && stream_fits(s.core.window.capacity(), unpacked_size as int),
            None => match spec_dict_size(opts.dict_size_log, opts.dict_size_bytes) {
                Ok(n) => stream_fits(n, unpacked_size as int),
                Err(_) => true,
            },
        },
    ensures
        unpacked_size == 0 ==> r == Ok::<u64, String>(0) && final(writer)@ == old(writer)@,
        unpacked_size > 0 ==> match opts.state {
            Some(s) => {
                &&& final(s).wf()
                &&& final(s).core.window.capacity() == s.core.window.capacity()
                &&& stream_result(
                    r,
                    old(writer)@,
                    final(writer)@,
                    data@,
                    unpacked_size,
                    s.tabs(),
                    s.lz(),
                    s.core.window.capacity(),
                    opts.extra_dist,
                )
                &&& r is Ok ==> state_after(
                    data@,
                    unpacked_size as int,
                    s.tabs(),
                    s.lz(),
                    s.core.window.capacity(),
                    opts.extra_dist,
                    final(s).tabs(),
                    final(s).lz(),
                )
            },
            None => match spec_dict_size(opts.dict_size_log, opts.dict_size_bytes) {
                Ok(n) => stream_result(
                    r,
                    old(writer)@,
                    final(writer)@,
                    data@,
                    unpacked_size,
                    None,
                    fresh_lz(),
                    n,
                    opts.extra_dist,
                ),
                Err(e) => r is Err && r->Err_0@ == e.spec_message() && final(writer)@ == old(
                    writer,
                )@,
            },
        },
        unpacked_size == 0 ==> match opts.state {
            Some(s) => *final(s) == *s,
            None => true,
        },
{
    if unpacked_size == 0 {
        return Ok(0);
    }
    match opts.state {
        Some(st) => {
            let res = decode_inner_streaming(data, unpacked_size, st, opts.extra_dist, writer);
            match res {
                Ok(m) => Ok(m),
                Err(e) => Err(e.message()),
            }
        },
        None => decode_standalone_to_writer(
            data,
            unpacked_size,
            opts.dict_size_log,
            opts.dict_size_bytes,
            opts.extra_dist,
            writer,
        ),
    }
}

/// Streaming variant of decoding a standalone member.
pub fn decode_standalone_to_writer(
    data: &[u8],
    unpacked_size: u64,
    dict_size_log: u8,
    dict_size_bytes: Option<u64>,
    extra_dist: bool,
    writer: &mut Vec<u8>,
) -> (r: Result<u64, String>)
    requires
        data@.len() < 0x1000_0000_0000_0000,
        unpacked_size + 0x1_0000_2000 <= u64::MAX,
        match spec_dict_size(dict_size_log, dict_size_bytes) {
            Ok(n) => stream_fits(n, unpacked_size as int),
            Err(_) => true,
        },
    ensures
        match spec_dict_size(dict_size_log, dict_size_bytes) {
            Ok(n) => stream_result(
                r,
                old(writer)@,
                final(writer)@,
                data@,
                unpacked_size,
                None,
                fresh_lz(),
                n,
                extra_dist,
            ),
            Err(e) => r is Err && r->Err_0@ == e.spec_message() && final(writer)@ == old(writer)@,
        },
{
    let dict: usize = match dict_size(dict_size_log, dict_size_bytes) {
        Ok(n) => n,
        Err(e) => {
            return Err(e.message());
        },
    };
    let mut state = DecoderState::new(dict);
    let res = decode_inner_streaming(data, unpacked_size, &mut state, extra_dist, writer);
    match res {
        Ok(m) => Ok(m),
        Err(e) => Err(e.message()),
    }
}

} // verus!
