//! Encoding with output filters.

use crate::codec::block::{apply_all, lemma_apply_concat, stands_at};
use crate::codec::decode::{
    apply_region, apply_regions, decode_member, filter_end, fresh_lz, run_blocks,
};
use crate::codec::encode::{
    agrees, begins_led, carries, dictionary_size, encode_chunks, encodes_led, filter_records,
    lemma_begins_led_wider, lemma_encodes_led_wider, level_params, nothing_known, outgrown, reach_of,
    stream_runs, window_size, EncoderState, Known, DEFAULT_CHUNK_SIZE, MAX_LEADING_RECORDS,
};
use crate::codec::error::CodecError;
use crate::codec::filters::{
    apply_filter_encode, auto_x86_filter_ranges, channel_count, filter_decoded, is_filter_encoding, x86_ranges,
    lemma_filter_inverse, Span,
};
use crate::codec::lz::{FilterRegion, Lz};
use crate::codec::parse::MAX_BLOCK_SIZE;
use crate::codec::levels::{nothing_carried, written_at_level, Carried};
use crate::codec::roundtrip::{decodes_back, encode, is_encoding, lemma_fresh_agrees};
use crate::codec::streaming::{
    complete_by, lemma_stream_output_in_order, lemma_stream_succeeds, on_region, regions_apart,
    stream_result,
};
use crate::codec::symbols::{Symbol, FILTER_ARM, FILTER_DELTA, FILTER_E8, FILTER_E8E9};
use crate::codec::window::lemma_window_output;
use vstd::prelude::*;

verus! {

/// Maximum length of one RAR5 filter block.
///
/// RARLAB readers refuse filter regions larger than 256 KiB (`0x40000`).
pub const MAX_FILTER_BLOCK_LENGTH: u32 = 0x3FFFF;

/// A RAR5 output filter applied to a region of the decompressed member.
#[derive(Debug, Clone, Copy, PartialEq, Eq, Hash, Structural)]
pub struct FilterSpec {
    /// FILTER_DELTA, FILTER_E8, FILTER_E8E9 or FILTER_ARM.
    pub filter_type: u8,
    /// Delta channel count (1-4); ignored for other filter types.
    pub channels: u8,
    /// Start offset of the filtered region within the member.
    pub block_start: u32,
    /// Length of the filtered region.
    pub block_length: u32,
}

impl FilterSpec {
    pub fn new(filter_type: u8, channels: u8, block_start: u32, block_length: u32) -> (f: FilterSpec)
        ensures
            f == (FilterSpec { filter_type, channels, block_start, block_length }),
    {
        FilterSpec { filter_type, channels, block_start, block_length }
    }
}

/// A filter cut into pieces that readers accept, each a filter of its own.
pub open spec fn pieces_of(f: FilterSpec) -> Seq<FilterSpec>
    decreases f.block_length,
{
    if f.block_length == 0 {
        Seq::empty()
    } else {
        let l = if f.block_length < MAX_FILTER_BLOCK_LENGTH {
            f.block_length
        } else {
            MAX_FILTER_BLOCK_LENGTH
        };
        let next = f.block_start + l;
        seq![FilterSpec { block_length: l, ..f }] + pieces_of(
            FilterSpec {
                block_start: if next > u32::MAX {
                    u32::MAX
                } else {
                    next as u32
                },
                block_length: (f.block_length - l) as u32,
                ..f
            },
        )
    }
}

/// The pieces of the first `k` filters.
pub open spec fn all_pieces(filters: Seq<FilterSpec>, k: nat) -> Seq<FilterSpec>
    decreases k,
{
    if k == 0 {
        Seq::empty()
    } else {
        all_pieces(filters, (k - 1) as nat) + pieces_of(filters[k - 1])
    }
}

/// Cut over-long filters into pieces.
fn split_filters(filters: &[FilterSpec]) -> (pieces: Vec<FilterSpec>)
    ensures
        pieces@ == all_pieces(filters@, filters@.len()),
{
    let n: usize = filters.len();
    let mut pieces: Vec<FilterSpec> = Vec::new();
    let mut k: usize = 0;
    while k < n
        invariant
            k <= n,
            n == filters@.len(),
            pieces@ == all_pieces(filters@, k as nat),
        decreases n - k,
    {
        let f: FilterSpec = filters[k];
        let mut start: u32 = f.block_start;
        let mut remaining: u32 = f.block_length;
        let ghost before = pieces@;
        assert(before + pieces_of(f) =~= pieces@ + pieces_of(f));
        while remaining > 0
            invariant
                before + pieces_of(f) == pieces@ + pieces_of(
                    FilterSpec { block_start: start, block_length: remaining, ..f },
                ),
            decreases remaining,
        {
            let len: u32 = if remaining < MAX_FILTER_BLOCK_LENGTH {
                remaining
            } else {
                MAX_FILTER_BLOCK_LENGTH
            };
            let ghost rest = FilterSpec { block_start: start, block_length: remaining, ..f };
            let ghost was = pieces@;
            pieces.push(FilterSpec::new(f.filter_type, f.channels, start, len));
            start = start.saturating_add(len);
            remaining = remaining - len;
            proof {
                let next = FilterSpec { block_start: start, block_length: remaining, ..f };
                assert(pieces_of(rest) == seq![FilterSpec { block_length: len, ..rest }]
                    + pieces_of(next));
                assert(pieces@ + pieces_of(next) =~= was + pieces_of(rest));
            }
        }
        proof {
            assert(pieces@ + Seq::<FilterSpec>::empty() =~= pieces@);
        }
        k = k + 1;
    }
    pieces
}

/// Where a piece's region starts in `n` bytes.
pub open spec fn span_start(f: FilterSpec) -> int {
    f.block_start as int
}

/// Where a piece's region ends in `n` bytes.
pub open spec fn span_end(f: FilterSpec, n: int) -> int {
    if f.block_start + f.block_length < n {
        f.block_start + f.block_length
    } else {
        n
    }
}

pub open spec fn in_span(f: FilterSpec, n: int, x: int) -> bool {
    span_start(f) <= x < span_end(f, n)
}

/// No byte belongs to two pieces.
pub open spec fn pieces_disjoint(pieces: Seq<FilterSpec>, n: int) -> bool {
    forall|i: int, j: int, x: int|
        #![trigger in_span(pieces[i], n, x), in_span(pieces[j], n, x)]
        0 <= i < j < pieces.len() && in_span(pieces[i], n, x) ==> !in_span(pieces[j], n, x)
}

/// The first `k` pieces of `data` are encoded in `t`, the rest is as it was.
pub open spec fn regions_encoded(data: Seq<u8>, t: Seq<u8>, pieces: Seq<FilterSpec>, k: int) -> bool {
    let n = data.len() as int;
    &&& t.len() == n
    &&& forall|i: int|
        0 <= i < k && span_start(#[trigger] pieces[i]) < span_end(pieces[i], n) ==> is_filter_encoding(
            pieces[i].filter_type,
            data.subrange(span_start(pieces[i]), span_end(pieces[i], n)),
            pieces[i].channels,
            span_start(pieces[i]),
            t.subrange(span_start(pieces[i]), span_end(pieces[i], n)),
        )
    &&& forall|x: int|
        0 <= x < n && (forall|i: int| 0 <= i < k ==> !in_span(#[trigger] pieces[i], n, x))
            ==> #[trigger] t[x] == data[x]
}

/// `b` is `a` with the region of one piece encoded.
pub open spec fn region_step(a: Seq<u8>, b: Seq<u8>, f: FilterSpec) -> bool {
    let n = a.len() as int;
    let s = span_start(f);
    let e = span_end(f, n);
    if s < e {
        &&& b.len() == n
        &&& is_filter_encoding(f.filter_type, a.subrange(s, e), f.channels, s, b.subrange(s, e))
        &&& b.subrange(0, s) == a.subrange(0, s)
        &&& b.subrange(e, n) == a.subrange(e, n)
    } else {
        b == a
    }
}

/// `t` is `data` with the regions of the pieces encoded one after the other,
/// each as the earlier ones left it.
pub open spec fn regions_applied(data: Seq<u8>, t: Seq<u8>, pieces: Seq<FilterSpec>) -> bool
    decreases pieces.len(),
{
    if pieces.len() == 0 {
        t == data
    } else {
        exists|m: Seq<u8>|
            regions_applied(data, m, pieces.drop_last()) && #[trigger] region_step(
                m,
                t,
                pieces.last(),
            )
    }
}

/// Forward-transform each region, in order.
#[verifier::rlimit(40)]
#[verifier::spinoff_prover]
fn transform_regions(data: &[u8], pieces: &Vec<FilterSpec>) -> (t: Vec<u8>)
    ensures
        t@.len() == data@.len(),
        regions_applied(data@, t@, pieces@),
        pieces_disjoint(pieces@, data@.len() as int) ==> regions_encoded(
            data@,
            t@,
            pieces@,
            pieces@.len() as int,
        ),
{
    let n: usize = data.len();
    let m: usize = pieces.len();
    let mut t: Vec<u8> = vstd::slice::slice_to_vec(data);
    let ghost ps = pieces@;
    let ghost disjoint = pieces_disjoint(ps, n as int);
    let mut k: usize = 0;
    assert(t@ =~= data@);
    while k < m
        invariant
            k <= m,
            m == ps.len(),
            ps == pieces@,
            n == data@.len(),
            t@.len() == n,
            regions_applied(data@, t@, ps.subrange(0, k as int)),
            disjoint == pieces_disjoint(ps, n as int),
            disjoint ==> regions_encoded(data@, t@, ps, k as int),
        decreases m - k,
    {
        let f: FilterSpec = pieces[k];
        let ghost done = ps.subrange(0, k as int);
        let ghost more = ps.subrange(0, k + 1);
        assert(more.drop_last() =~= done && more.last() == f);
        let start: u64 = f.block_start as u64;
        let stop: u64 = start + f.block_length as u64;
        let end: usize = if stop < n as u64 { stop as usize } else { n };
        if start < end as u64 {
            let s: usize = start as usize;
            let ghost before = t@;
            let region = vstd::slice::slice_subrange(t.as_slice(), s, end);
            let coded = apply_filter_encode(f.filter_type, region, f.channels, start);
            let mut next: Vec<u8> = Vec::with_capacity(n);
            next.extend_from_slice(vstd::slice::slice_subrange(t.as_slice(), 0, s));
            next.extend_from_slice(coded.as_slice());
            next.extend_from_slice(vstd::slice::slice_subrange(t.as_slice(), end, n));
            proof {
                assert(next@.subrange(s as int, end as int) =~= coded@);
                assert(next@.subrange(0, s as int) =~= before.subrange(0, s as int));
                assert(next@.subrange(end as int, n as int) =~= before.subrange(
                    end as int,
                    n as int,
                ));
                assert(region_step(before, next@, f));
                assert(regions_applied(data@, next@, more));
                if disjoint {
                    assert(region@ =~= data@.subrange(s as int, end as int)) by {
                        assert forall|i: int| 0 <= i < region@.len() implies region@[i]
                            == data@.subrange(s as int, end as int)[i] by {
                            let x = s + i;
                            assert(in_span(ps[k as int], n as int, x));
                            assert forall|j: int| 0 <= j < k implies !in_span(
                                #[trigger] ps[j],
                                n as int,
                                x,
                            ) by {}
                            assert(before[x] == data@[x]);
                        }
                    }
                    lemma_region_step(data@, before, next@, ps, k as int, s as int, end as int);
                }
            }
            t = next;
        } else {
            proof {
                assert(region_step(t@, t@, f));
                assert(regions_applied(data@, t@, more));
                if disjoint {
                    assert forall|x: int|
                        0 <= x < n && (forall|i: int|
                            0 <= i < k + 1 ==> !in_span(#[trigger] ps[i], n as int, x)) implies #[trigger] t@[x]
                        == data@[x] by {
                        assert(forall|i: int|
                            0 <= i < k ==> !in_span(#[trigger] ps[i], n as int, x));
                    }
                }
            }
        }
        k = k + 1;
    }
    assert(ps.subrange(0, m as int) =~= ps);
    t
}

proof fn lemma_region_step(
    data: Seq<u8>,
    before: Seq<u8>,
    after: Seq<u8>,
    ps: Seq<FilterSpec>,
    k: int,
    s: int,
    e: int,
)
    requires
        0 <= k < ps.len(),
        pieces_disjoint(ps, data.len() as int),
        regions_encoded(data, before, ps, k),
        after.len() == data.len(),
        s == span_start(ps[k]),
        e == span_end(ps[k], data.len() as int),
        0 <= s < e <= data.len(),
        forall|x: int| 0 <= x < data.len() && !(s <= x < e) ==> #[trigger] after[x] == before[x],
        is_filter_encoding(
            ps[k].filter_type,
            data.subrange(s, e),
            ps[k].channels,
            s,
            after.subrange(s, e),
        ),
    ensures
        regions_encoded(data, after, ps, k + 1),
{
    let n = data.len() as int;
    assert forall|i: int|
        0 <= i < k + 1 && span_start(#[trigger] ps[i]) < span_end(ps[i], n) implies is_filter_encoding(
        ps[i].filter_type,
        data.subrange(span_start(ps[i]), span_end(ps[i], n)),
        ps[i].channels,
        span_start(ps[i]),
        after.subrange(span_start(ps[i]), span_end(ps[i], n)),
    ) by {
        if i < k {
            let a = span_start(ps[i]);
            let b = span_end(ps[i], n);
            assert(after.subrange(a, b) =~= before.subrange(a, b)) by {
                assert forall|x: int| a <= x < b implies after[x] == before[x] by {
                    assert(in_span(ps[i], n, x));
                    if s <= x < e {
                        assert(in_span(ps[k], n, x));
                    }
                }
            }
        }
    }
    assert forall|x: int|
        0 <= x < n && (forall|i: int| 0 <= i < k + 1 ==> !in_span(#[trigger] ps[i], n, x)) implies #[trigger] after[x]
        == data[x] by {
        assert(!in_span(ps[k], n, x));
        assert(forall|i: int| 0 <= i < k ==> !in_span(#[trigger] ps[i], n, x));
        assert(before[x] == data[x]);
    }
}

/// The channel count a record can hold.
pub open spec fn record_channels(f: FilterSpec) -> u8 {
    if f.filter_type % 8 == FILTER_DELTA {
        if f.channels == 0 {
            1
        } else {
            ((f.channels - 1) % 32 + 1) as u8
        }
    } else {
        0
    }
}

/// The record of a piece.
pub open spec fn record_of(f: FilterSpec) -> Symbol {
    Symbol::Filter {
        block_start: f.block_start,
        block_length: f.block_length,
        filter_type: f.filter_type % 8,
        channels: record_channels(f),
    }
}

/// The records of pieces.
pub open spec fn records_of(pieces: Seq<FilterSpec>) -> Seq<Symbol> {
    Seq::new(pieces.len(), |i: int| record_of(pieces[i]))
}

/// The filters the decoder makes of the records, read before any output.
pub open spec fn regions_of(pieces: Seq<FilterSpec>) -> Seq<FilterRegion> {
    Seq::new(
        pieces.len(),
        |i: int|
            FilterRegion {
                filter_type: pieces[i].filter_type % 8,
                block_start: pieces[i].block_start as u64,
                block_length: pieces[i].block_length as u64,
                channels: record_channels(pieces[i]),
            },
    )
}

fn filter_symbols(pieces: &Vec<FilterSpec>) -> (lead: Vec<Symbol>)
    ensures
        lead@ == records_of(pieces@),
        filter_records(lead@),
{
    let m: usize = pieces.len();
    let mut lead: Vec<Symbol> = Vec::new();
    let mut k: usize = 0;
    while k < m
        invariant
            k <= m,
            m == pieces@.len(),
            lead@.len() == k,
            forall|i: int| 0 <= i < k ==> #[trigger] lead@[i] == record_of(pieces@[i]),
        decreases m - k,
    {
        let f: FilterSpec = pieces[k];
        let kind: u8 = f.filter_type % 8;
        let channels: u8 = if kind == FILTER_DELTA {
            if f.channels == 0 {
                1
            } else {
                (f.channels - 1) % 32 + 1
            }
        } else {
            0
        };
        lead.push(
            Symbol::Filter {
                block_start: f.block_start,
                block_length: f.block_length,
                filter_type: kind,
                channels,
            },
        );
        k = k + 1;
    }
    assert(lead@ =~= records_of(pieces@));
    lead
}

/// Filters that the decoder can undo.
pub open spec fn pieces_undoable(pieces: Seq<FilterSpec>) -> bool {
    forall|i: int|
        0 <= i < pieces.len() ==> (#[trigger] pieces[i]).filter_type <= FILTER_ARM && (
        pieces[i].filter_type == FILTER_DELTA ==> pieces[i].channels <= 32)
}

/// What is left of the encoding after the first `k` pieces were undone.
spec fn undone(data: Seq<u8>, t: Seq<u8>, ps: Seq<FilterSpec>, k: int, o: Seq<u8>) -> bool {
    let n = data.len() as int;
    &&& o.len() == n
    &&& forall|x: int|
        #![trigger o[x]]
        0 <= x < n ==> o[x] == if exists|i: int| k <= i < ps.len() && in_span(#[trigger] ps[i], n, x) {
            t[x]
        } else {
            data[x]
        }
}

/// Undoing disjoint filters, in the order they were applied, gives the data
/// back.
pub proof fn lemma_undo_regions(data: Seq<u8>, t: Seq<u8>, ps: Seq<FilterSpec>)
    requires
        pieces_disjoint(ps, data.len() as int),
        pieces_undoable(ps),
        regions_encoded(data, t, ps, ps.len() as int),
    ensures
        apply_regions(t, regions_of(ps), 0, ps.len()) == Ok::<Seq<u8>, CodecError>(data),
{
    let n = data.len() as int;
    assert forall|x: int|
        #![trigger t[x]]
        0 <= x < n implies t[x] == if exists|i: int|
        0 <= i < ps.len() && in_span(#[trigger] ps[i], n, x) {
        t[x]
    } else {
        data[x]
    } by {
        if !(exists|i: int| 0 <= i < ps.len() && in_span(#[trigger] ps[i], n, x)) {
            assert(forall|i: int| 0 <= i < ps.len() ==> !in_span(#[trigger] ps[i], n, x));
        }
    }
    assert(undone(data, t, ps, 0, t));
    lemma_undo_upto(data, t, ps, ps.len());
    let o = apply_regions(t, regions_of(ps), 0, ps.len())->Ok_0;
    assert(o =~= data);
}

proof fn lemma_undo_upto(data: Seq<u8>, t: Seq<u8>, ps: Seq<FilterSpec>, k: nat)
    requires
        pieces_disjoint(ps, data.len() as int),
        pieces_undoable(ps),
        regions_encoded(data, t, ps, ps.len() as int),
        undone(data, t, ps, 0, t),
        k <= ps.len(),
    ensures
        ({
            let r = apply_regions(t, regions_of(ps), 0, k);
            r is Ok && undone(data, t, ps, k as int, r->Ok_0)
        }),
    decreases k,
{
    if k > 0 {
        let j = k - 1;
        lemma_undo_upto(data, t, ps, j as nat);
        let o = apply_regions(t, regions_of(ps), 0, j as nat)->Ok_0;
        lemma_undo_step(data, t, ps, j, o);
    }
}

#[verifier::rlimit(40)]
proof fn lemma_undo_step(data: Seq<u8>, t: Seq<u8>, ps: Seq<FilterSpec>, j: int, o: Seq<u8>)
    requires
        pieces_disjoint(ps, data.len() as int),
        pieces_undoable(ps),
        regions_encoded(data, t, ps, ps.len() as int),
        0 <= j < ps.len(),
        undone(data, t, ps, j, o),
    ensures
        ({
            let r = apply_region(o, regions_of(ps)[j], 0);
            r is Ok && undone(data, t, ps, j + 1, r->Ok_0)
        }),
{
    let n = data.len() as int;
    let f = regions_of(ps)[j];
    let s = span_start(ps[j]);
    let e = span_end(ps[j], n);
    assert(ps[j].filter_type <= FILTER_ARM);
    let r = apply_region(o, f, 0);
    if s >= n {
        assert(r->Ok_0 == o);
        assert forall|x: int|
            #![trigger o[x]]
            0 <= x < n implies o[x] == if exists|i: int|
            j + 1 <= i < ps.len() && in_span(#[trigger] ps[i], n, x) {
            t[x]
        } else {
            data[x]
        } by {
            if exists|i: int| j <= i < ps.len() && in_span(#[trigger] ps[i], n, x) {
                let i = choose|i: int| j <= i < ps.len() && in_span(#[trigger] ps[i], n, x);
                assert(i != j);
            }
        }
    } else {
        assert(filter_end(f, 0, n) == e);
        let region = o.subrange(s, e);
        assert(region =~= t.subrange(s, e)) by {
            assert forall|x: int| s <= x < e implies o[x] == t[x] by {
                assert(in_span(ps[j], n, x));
            }
        }
        if s < e {
            lemma_filter_inverse(
                ps[j].filter_type,
                data.subrange(s, e),
                ps[j].channels,
                s,
                t.subrange(s, e),
            );
            assert(channel_count(ps[j].channels) == channel_count(f.channels) || ps[j].filter_type
                != FILTER_DELTA);
        } else {
            crate::codec::filters::lemma_filter_len(f.filter_type, region, f.channels, s);
        }
        let d = filter_decoded(f.filter_type, region, f.channels, s);
        assert(d =~= data.subrange(s, e));
        let w = r->Ok_0;
        assert(w == o.subrange(0, s) + d + o.subrange(e, n));
        assert forall|x: int|
            #![trigger w[x]]
            0 <= x < n implies w[x] == if exists|i: int|
            j + 1 <= i < ps.len() && in_span(#[trigger] ps[i], n, x) {
            t[x]
        } else {
            data[x]
        } by {
            if s <= x < e {
                assert(in_span(ps[j], n, x));
                assert(w[x] == d[x - s]);
            } else {
                assert(w[x] == o[x]);
                assert(!in_span(ps[j], n, x));
                if exists|i: int| j <= i < ps.len() && in_span(#[trigger] ps[i], n, x) {
                    let i = choose|i: int| j <= i < ps.len() && in_span(#[trigger] ps[i], n, x);
                    assert(i != j);
                }
            }
        }
    }
}

/// Reading the records, before any output, announces the filters.
proof fn lemma_records_apply(ps: Seq<FilterSpec>, n: int, k: int)
    requires
        0 <= k <= ps.len(),
    ensures
        apply_all(fresh_lz(), n, records_of(ps).subrange(0, k)) == (Lz {
            filters: regions_of(ps).subrange(0, k),
            ..fresh_lz()
        }),
    decreases k,
{
    let rec = records_of(ps).subrange(0, k);
    if k == 0 {
        assert(rec =~= Seq::<Symbol>::empty());
        assert(regions_of(ps).subrange(0, 0) =~= Seq::<FilterRegion>::empty());
    } else {
        lemma_records_apply(ps, n, k - 1);
        assert(rec.drop_last() =~= records_of(ps).subrange(0, k - 1));
        assert(rec.last() == record_of(ps[k - 1]));
        let z = apply_all(fresh_lz(), n, rec.drop_last());
        assert(z.out.len() == 0);
        assert(z.filters.push(regions_of(ps)[k - 1]) =~= regions_of(ps).subrange(0, k));
    }
}

/// Decoding records and data ends with the filters announced and the data
/// there.
pub proof fn lemma_led_runs(
    ps: Seq<FilterSpec>,
    t: Seq<u8>,
    packed: Seq<u8>,
    k1: Known,
    window: int,
    extra_dist: bool,
    n: int,
)
    requires
        encodes_led(nothing_known(), records_of(ps), t, packed, k1, window, true, extra_dist),
        t.len() > 0,
        window <= n,
    ensures
        ({
            let r = run_blocks(packed, 0, None, fresh_lz(), n, extra_dist, t.len() as int);
            &&& r is Ok
            &&& r->Ok_0.0.out == t
            &&& r->Ok_0.0.filters == regions_of(ps)
        }),
{
    let lead = records_of(ps);
    let syms = choose|syms: Seq<Symbol>|
        #[trigger] stream_runs(packed, lead + syms, true, extra_dist) && carries(
            nothing_known(),
            syms,
            t,
            k1,
            window,
        );
    let z = fresh_lz();
    let goal = t.len() as int;
    lemma_records_apply(ps, n, ps.len() as int);
    assert(lead.subrange(0, lead.len() as int) =~= lead);
    assert(regions_of(ps).subrange(0, ps.len() as int) =~= regions_of(ps));
    let zf = apply_all(z, n, lead);
    lemma_fresh_agrees();
    assert(agrees(nothing_known(), zf));
    let z2 = apply_all(zf, n, syms);
    assert(z2.out == zf.out + t);
    assert(z2.out =~= t);
    lemma_apply_concat(z, n, lead, syms);
    let all = lead + syms;
    assert forall|k: int| 0 <= k < all.len() implies (#[trigger] apply_all(
        z,
        n,
        all.subrange(0, k),
    )).out.len() < goal by {
        if k <= lead.len() {
            assert(all.subrange(0, k) =~= lead.subrange(0, k));
            lemma_records_apply(ps, n, k);
        } else {
            let j = k - lead.len();
            assert(all.subrange(0, k) =~= lead + syms.subrange(0, j));
            lemma_apply_concat(z, n, lead, syms.subrange(0, j));
            assert(apply_all(zf, n, syms.subrange(0, j)).out.len() < goal);
        }
    }
    assert(packed.subrange(0, packed.len() as int) =~= packed);
    assert(stands_at(packed, 0, packed));
    let r = run_blocks(packed, 0, None, z, n, extra_dist, goal);
    assert(r is Ok && r->Ok_0.0 == z2);
}

/// Decoding records and data gives the data with the filters undone.
pub proof fn lemma_led_decodes(
    ps: Seq<FilterSpec>,
    t: Seq<u8>,
    packed: Seq<u8>,
    k1: Known,
    window: int,
    extra_dist: bool,
    n: int,
)
    requires
        encodes_led(nothing_known(), records_of(ps), t, packed, k1, window, true, extra_dist),
        t.len() > 0,
        window <= n,
        t.len() <= n,
    ensures
        decode_member(packed, t.len() as int, None, fresh_lz(), n, extra_dist) == apply_regions(
            t,
            regions_of(ps),
            0,
            ps.len(),
        ),
{
    lemma_led_runs(ps, t, packed, k1, window, extra_dist, n);
    lemma_window_output(t, n, 0, t.len());
    assert(t.subrange(0, t.len() as int) =~= t);
}

/// No piece is longer than readers accept.
proof fn lemma_piece_lengths(f: FilterSpec)
    ensures
        forall|i: int|
            0 <= i < pieces_of(f).len() ==> (#[trigger] pieces_of(f)[i]).block_length
                <= MAX_FILTER_BLOCK_LENGTH,
    decreases f.block_length,
{
    if f.block_length > 0 {
        let l = if f.block_length < MAX_FILTER_BLOCK_LENGTH {
            f.block_length
        } else {
            MAX_FILTER_BLOCK_LENGTH
        };
        let next = f.block_start + l;
        let rest = FilterSpec {
            block_start: if next > u32::MAX {
                u32::MAX
            } else {
                next as u32
            },
            block_length: (f.block_length - l) as u32,
            ..f
        };
        lemma_piece_lengths(rest);
        let ps = pieces_of(f);
        assert(ps == seq![FilterSpec { block_length: l, ..f }] + pieces_of(rest));
        assert forall|i: int| 0 <= i < ps.len() implies (#[trigger] ps[i]).block_length
            <= MAX_FILTER_BLOCK_LENGTH by {
            if i > 0 {
                assert(ps[i] == pieces_of(rest)[i - 1]);
            }
        }
    }
}

proof fn lemma_all_lengths(filters: Seq<FilterSpec>, k: nat)
    requires
        k <= filters.len(),
    ensures
        forall|i: int|
            0 <= i < all_pieces(filters, k).len() ==> (#[trigger] all_pieces(
                filters,
                k,
            )[i]).block_length <= MAX_FILTER_BLOCK_LENGTH,
    decreases k,
{
    if k > 0 {
        let j = (k - 1) as nat;
        lemma_all_lengths(filters, j);
        lemma_piece_lengths(filters[j as int]);
        let a = all_pieces(filters, j);
        let b = pieces_of(filters[j as int]);
        assert(all_pieces(filters, k) == a + b);
        assert forall|i: int| 0 <= i < (a + b).len() implies (#[trigger] (a + b)[i]).block_length
            <= MAX_FILTER_BLOCK_LENGTH by {
            if i < a.len() {
                assert((a + b)[i] == a[i]);
            } else {
                assert((a + b)[i] == b[i - a.len()]);
            }
        }
    }
}

/// The filters' regions end, within `n` bytes, where an offset can still say.
pub open spec fn filters_reachable(filters: Seq<FilterSpec>, n: int) -> bool {
    forall|i: int| 0 <= i < filters.len() ==> span_end(#[trigger] filters[i], n) <= u32::MAX
}

/// The filters' regions lie within `n` bytes.
pub open spec fn filters_within(filters: Seq<FilterSpec>, n: int) -> bool {
    forall|i: int|
        0 <= i < filters.len() ==> (#[trigger] filters[i]).block_start + filters[i].block_length
            <= n
}

/// What the pieces of a filter cover, the filter covers, and none of it twice.
proof fn lemma_cut_one(f: FilterSpec, n: int)
    requires
        span_end(f, n) <= u32::MAX,
    ensures
        pieces_disjoint(pieces_of(f), n),
        forall|i: int, x: int|
            #![trigger in_span(pieces_of(f)[i], n, x)]
            0 <= i < pieces_of(f).len() && in_span(pieces_of(f)[i], n, x) ==> in_span(f, n, x),
        forall|i: int|
            0 <= i < pieces_of(f).len() ==> {
                let p = #[trigger] pieces_of(f)[i];
                &&& p.filter_type == f.filter_type
                &&& p.channels == f.channels
                &&& f.block_start + f.block_length <= n ==> p.block_start + p.block_length
                    <= f.block_start + f.block_length
            },
    decreases f.block_length,
{
    if f.block_length > 0 {
        let l = if f.block_length < MAX_FILTER_BLOCK_LENGTH {
            f.block_length
        } else {
            MAX_FILTER_BLOCK_LENGTH
        };
        let next = f.block_start + l;
        let first = FilterSpec { block_length: l, ..f };
        let rest = FilterSpec {
            block_start: if next > u32::MAX {
                u32::MAX
            } else {
                next as u32
            },
            block_length: (f.block_length - l) as u32,
            ..f
        };
        lemma_cut_one(rest, n);
        let ps = pieces_of(f);
        let qs = pieces_of(rest);
        assert(ps == seq![first] + qs);
        assert(ps[0] == first);
        assert forall|i: int| 1 <= i < ps.len() implies #[trigger] ps[i] == qs[i - 1] by {}
        assert forall|i: int, x: int|
            #![trigger in_span(ps[i], n, x)]
            0 <= i < ps.len() && in_span(ps[i], n, x) implies in_span(f, n, x) by {
            if i > 0 {
                assert(in_span(qs[i - 1], n, x));
                assert(in_span(rest, n, x));
            }
        }
        assert forall|i: int, j: int, x: int|
            #![trigger in_span(ps[i], n, x), in_span(ps[j], n, x)]
            0 <= i < j < ps.len() && in_span(ps[i], n, x) implies !in_span(ps[j], n, x) by {
            if in_span(ps[j], n, x) {
                assert(in_span(qs[j - 1], n, x));
                assert(in_span(rest, n, x));
                if i > 0 {
                    assert(in_span(qs[i - 1], n, x));
                }
            }
        }
        assert forall|i: int| 0 <= i < ps.len() implies {
            let p = #[trigger] ps[i];
            &&& p.filter_type == f.filter_type
            &&& p.channels == f.channels
            &&& f.block_start + f.block_length <= n ==> p.block_start + p.block_length
                <= f.block_start + f.block_length
        } by {
            if i > 0 {
                assert(ps[i] == qs[i - 1]);
            }
        }
    }
}

/// Cutting filters into pieces keeps their regions apart, within the data, and
/// what the filters are.
proof fn lemma_cut_upto(filters: Seq<FilterSpec>, n: int, k: nat)
    requires
        k <= filters.len(),
        pieces_disjoint(filters, n),
        pieces_undoable(filters),
        filters_reachable(filters, n),
    ensures
        ({
            let ps = all_pieces(filters, k);
            &&& pieces_disjoint(ps, n)
            &&& pieces_undoable(ps)
            &&& filters_within(filters, n) ==> filters_within(ps, n)
            &&& forall|i: int, x: int|
                #![trigger in_span(ps[i], n, x)]
                0 <= i < ps.len() && in_span(ps[i], n, x) ==> exists|j: int|
                    0 <= j < k && in_span(#[trigger] filters[j], n, x)
        }),
    decreases k,
{
    if k > 0 {
        let last = k - 1;
        lemma_cut_upto(filters, n, last as nat);
        let f = filters[last];
        assert(f.filter_type <= FILTER_ARM);
        lemma_cut_one(f, n);
        let a = all_pieces(filters, last as nat);
        let b = pieces_of(f);
        let ps = a + b;
        assert(all_pieces(filters, k) == ps);
        assert forall|i: int| 0 <= i < ps.len() implies #[trigger] ps[i] == if i < a.len() {
            a[i]
        } else {
            b[i - a.len()]
        } by {}
        assert forall|i: int, x: int|
            #![trigger in_span(ps[i], n, x)]
            0 <= i < ps.len() && in_span(ps[i], n, x) implies exists|j: int|
            0 <= j < k && in_span(#[trigger] filters[j], n, x) by {
            if i < a.len() {
                assert(in_span(a[i], n, x));
            } else {
                assert(in_span(b[i - a.len()], n, x));
                assert(in_span(filters[last], n, x));
            }
        }
        assert forall|i: int, j: int, x: int|
            #![trigger in_span(ps[i], n, x), in_span(ps[j], n, x)]
            0 <= i < j < ps.len() && in_span(ps[i], n, x) implies !in_span(ps[j], n, x) by {
            if in_span(ps[j], n, x) {
                if j < a.len() {
                    assert(in_span(a[i], n, x) && in_span(a[j], n, x));
                } else if i < a.len() {
                    assert(in_span(a[i], n, x) && in_span(b[j - a.len()], n, x));
                    let g = choose|g: int| 0 <= g < last && in_span(#[trigger] filters[g], n, x);
                    assert(in_span(filters[last], n, x));
                } else {
                    assert(in_span(b[i - a.len()], n, x) && in_span(b[j - a.len()], n, x));
                }
            }
        }
        assert forall|i: int| 0 <= i < ps.len() implies (#[trigger] ps[i]).filter_type
            <= FILTER_ARM && (ps[i].filter_type == FILTER_DELTA ==> ps[i].channels <= 32) by {
            if i < a.len() {
                assert(ps[i] == a[i]);
            } else {
                assert(ps[i] == b[i - a.len()]);
            }
        }
        if filters_within(filters, n) {
            assert(f.block_start + f.block_length <= n);
            assert forall|i: int| 0 <= i < ps.len() implies (#[trigger] ps[i]).block_start
                + ps[i].block_length <= n by {
                if i < a.len() {
                    assert(ps[i] == a[i]);
                } else {
                    assert(ps[i] == b[i - a.len()]);
                }
            }
        }
    }
}

/// Filters whose regions are apart are cut into pieces whose regions are.
pub proof fn lemma_cut_apart(filters: Seq<FilterSpec>, n: int)
    requires
        pieces_disjoint(filters, n),
        pieces_undoable(filters),
        filters_reachable(filters, n),
    ensures
        pieces_disjoint(all_pieces(filters, filters.len()), n),
        pieces_undoable(all_pieces(filters, filters.len())),
        filters_within(filters, n) ==> filters_within(all_pieces(filters, filters.len()), n),
{
    lemma_cut_upto(filters, n, filters.len());
}

/// Pieces apart make regions apart for the decoder.
proof fn lemma_regions_apart(ps: Seq<FilterSpec>, n: int)
    requires
        pieces_disjoint(ps, n),
    ensures
        regions_apart(regions_of(ps), 0, n),
{
    let fs = regions_of(ps);
    assert forall|i: int, j: int, x: int|
        #![trigger on_region(fs[i], 0, n, x), on_region(fs[j], 0, n, x)]
        0 <= i < fs.len() && 0 <= j < fs.len() && i != j && on_region(fs[i], 0, n, x) implies
        !on_region(fs[j], 0, n, x) by {
        assert(in_span(ps[i], n, x));
        if on_region(fs[j], 0, n, x) {
            assert(in_span(ps[j], n, x));
        }
    }
}

/// What was written for data with filters is all of it: it did not outgrow the
/// data, or the data is no more than a block.
pub open spec fn whole_filtered(filters: Seq<FilterSpec>, data: Seq<u8>, packed: Seq<u8>) -> bool {
    ||| packed.len() <= data.len()
    ||| data.len() <= MAX_BLOCK_SIZE && all_pieces(filters, filters.len()).len()
        <= MAX_LEADING_RECORDS
}

/// Streaming what was encoded with filters gives the data back, however long
/// it is and in whatever order the filters are listed: where their regions lie
/// within the data and do not overlap, all of it was written, and the window is
/// as large as the encoder's.
pub proof fn lemma_filtered_streams(
    filters: Seq<FilterSpec>,
    data: Seq<u8>,
    packed: Seq<u8>,
    method: u8,
    dict_size_log: u8,
    extra_dist: bool,
    n: int,
    r: Result<u64, String>,
    before: Seq<u8>,
    after: Seq<u8>,
)
    requires
        0 < data.len() <= u64::MAX,
        filters.len() > 0,
        pieces_disjoint(filters, data.len() as int),
        pieces_undoable(filters),
        filters_reachable(filters, data.len() as int),
        filters_within(filters, data.len() as int),
        filtered_result(filters, data, packed, method, dict_size_log, extra_dist),
        whole_filtered(filters, data, packed),
        filter_reach(dict_size_log, data) <= n,
        stream_result(
            r,
            before,
            after,
            packed,
            data.len() as u64,
            None,
            fresh_lz(),
            n,
            extra_dist,
        ),
    ensures
        r == Ok::<u64, String>(data.len() as u64),
        after == before + data,
{
    let ps = all_pieces(filters, filters.len());
    let fs = regions_of(ps);
    let window = filter_reach(dict_size_log, data);
    let t = choose|t: Seq<u8>| #[trigger]
        written_filtered(filters, data, t, packed, method, dict_size_log, extra_dist);
    lemma_cut_apart(filters, data.len() as int);
    lemma_regions_apart(ps, data.len() as int);
    let k1 = choose|k1: Known| #[trigger]
        encodes_led(nothing_known(), records_of(ps), t, packed, k1, window, true, extra_dist);
    lemma_led_runs(ps, t, packed, k1, window, extra_dist, n);
    lemma_all_lengths(filters, filters.len());
    assert forall|i: int| 0 <= i < fs.len() implies (#[trigger] fs[i]).filter_type <= FILTER_ARM
        && fs[i].block_length <= MAX_FILTER_BLOCK_LENGTH && complete_by(
        fs[i],
        data.len() as int,
    ) by {
        assert(ps[i].filter_type <= FILTER_ARM);
        assert(ps[i].block_length <= MAX_FILTER_BLOCK_LENGTH);
        assert(ps[i].block_start + ps[i].block_length <= data.len());
    }
    lemma_stream_succeeds(
        r,
        before,
        after,
        packed,
        data.len() as u64,
        None,
        fresh_lz(),
        n,
        extra_dist,
    );
    let end = run_blocks(packed, 0, None, fresh_lz(), n, extra_dist, t.len() as int)->Ok_0.0;
    assert(end.out == t && end.filters == fs);
    lemma_stream_output_in_order(before, after, end, 0);
    lemma_undo_regions(data, t, ps);
    assert(t.subrange(0, t.len() as int) =~= t);
    assert(after =~= before + after.subrange(before.len() as int, after.len() as int));
}

/// What was encoded with filters whose regions do not overlap decodes back,
/// where all of it was written.
pub proof fn lemma_filtered_roundtrip(
    filters: Seq<FilterSpec>,
    data: Seq<u8>,
    packed: Seq<u8>,
    method: u8,
    dict_size_log: u8,
    extra_dist: bool,
)
    requires
        0 < data.len(),
        filters.len() > 0,
        pieces_disjoint(filters, data.len() as int),
        pieces_undoable(filters),
        filters_reachable(filters, data.len() as int),
        filtered_result(filters, data, packed, method, dict_size_log, extra_dist),
        whole_filtered(filters, data, packed),
    ensures
        decodes_back(packed, data, extra_dist),
{
    let ps = all_pieces(filters, filters.len());
    let window = filter_reach(dict_size_log, data);
    let t = choose|t: Seq<u8>| #[trigger]
        written_filtered(filters, data, t, packed, method, dict_size_log, extra_dist);
    lemma_cut_apart(filters, data.len() as int);
    let k1 = choose|k1: Known| #[trigger]
        encodes_led(nothing_known(), records_of(ps), t, packed, k1, window, true, extra_dist);
    lemma_undo_regions(data, t, ps);
    assert forall|n: int| 0 < n && data.len() <= n implies #[trigger] decode_member(
        packed,
        data.len() as int,
        None,
        fresh_lz(),
        n,
        extra_dist,
    ) == Ok::<Seq<u8>, CodecError>(data) by {
        lemma_led_decodes(ps, t, packed, k1, window, extra_dist, n);
    }
}

/// The farthest distance in an encoding of `data`.
pub open spec fn filter_reach(dict_size_log: u8, data: Seq<u8>) -> int {
    reach_of(dictionary_size(dict_size_log) as int, nothing_known(), data.len() as int)
}

/// `packed` is longer than `data`, and breaks off: it is the start of an
/// encoding of the data with the filters applied.
pub open spec fn led_outgrown(
    filters: Seq<FilterSpec>,
    data: Seq<u8>,
    packed: Seq<u8>,
    dict_size_log: u8,
    extra_dist: bool,
) -> bool {
    let ps = all_pieces(filters, filters.len());
    let window = filter_reach(dict_size_log, data);
    &&& packed.len() > data.len()
    &&& if filters.len() == 0 {
        outgrown(nothing_known(), data, packed, window, extra_dist)
    } else {
        exists|t: Seq<u8>|
            regions_encoded(data, t, ps, ps.len() as int) && #[trigger] begins_led(
                nothing_known(),
                records_of(ps),
                t,
                packed,
                window,
                extra_dist,
            )
    }
}

/// `packed` is what the level of `method` writes for `t`, which is `data` with
/// the filters' regions encoded, behind the records of the filters: all of
/// it, or, where the stream has outgrown the data, the start of it.
pub open spec fn written_filtered(
    filters: Seq<FilterSpec>,
    data: Seq<u8>,
    t: Seq<u8>,
    packed: Seq<u8>,
    method: u8,
    dict_size_log: u8,
    extra_dist: bool,
) -> bool {
    let ps = all_pieces(filters, filters.len());
    let lead = records_of(ps);
    let window = filter_reach(dict_size_log, data);
    let whole = exists|k1: Known| #[trigger]
        encodes_led(nothing_known(), lead, t, packed, k1, window, true, extra_dist);
    &&& regions_applied(data, t, ps)
    &&& pieces_disjoint(ps, data.len() as int) ==> regions_encoded(data, t, ps, ps.len() as int)
    &&& exists|c1: Carried| #[trigger]
        written_at_level(
            nothing_carried(),
            lead,
            t,
            packed,
            method,
            dict_size_log,
            DEFAULT_CHUNK_SIZE as int,
            true,
            extra_dist,
            c1,
        )
    &&& whole || packed.len() > data.len() && begins_led(
        nothing_known(),
        lead,
        t,
        packed,
        window,
        extra_dist,
    )
    &&& data.len() <= MAX_BLOCK_SIZE && ps.len() <= MAX_LEADING_RECORDS ==> whole
}

/// `packed` is what encoding `data` with the filters gives.
pub open spec fn filtered_result(
    filters: Seq<FilterSpec>,
    data: Seq<u8>,
    packed: Seq<u8>,
    method: u8,
    dict_size_log: u8,
    extra_dist: bool,
) -> bool {
    if data.len() == 0 || filters.len() == 0 {
        is_encoding(packed, data, method, dict_size_log, extra_dist)
    } else {
        exists|t: Seq<u8>| #[trigger]
            written_filtered(filters, data, t, packed, method, dict_size_log, extra_dist)
    }
}

/// Encode `data` as a single RAR5 member with output filters applied.
///
/// The filters are recorded at the start of the symbol stream. `data` is
/// forward-transformed per filter spec before match finding. The caller is
/// responsible for comparing the packed size against unfiltered output and
/// falling back to STORE.
///
/// The filter region positions are member-relative and the E8/ARM transform
/// offsets are member-relative too; a member written through this path must
/// be marked non-solid so the decoder's filter positions stay
/// member-relative. Regions must be disjoint.
pub fn encode_with_filters(
    data: &[u8],
    method: u8,
    dict_size_log: u8,
    filters: &[FilterSpec],
    extra_dist: bool,
) -> (r: Result<Vec<u8>, String>)
    requires
        dict_size_log <= 46,
    ensures
        r is Ok,
        filtered_result(filters@, data@, r->Ok_0@, method, dict_size_log, extra_dist),
        ({
            let ps = all_pieces(filters@, filters@.len());
            pieces_disjoint(filters@, data@.len() as int) && pieces_undoable(filters@)
                && filters_reachable(filters@, data@.len() as int) ==> {
                &&& decodes_back(r->Ok_0@, data@, extra_dist) || led_outgrown(
                    filters@,
                    data@,
                    r->Ok_0@,
                    dict_size_log,
                    extra_dist,
                )
                &&& data@.len() <= MAX_BLOCK_SIZE && ps.len() <= MAX_LEADING_RECORDS ==> decodes_back(
                    r->Ok_0@,
                    data@,
                    extra_dist,
                )
            }
        }),
{
    if data.len() == 0 || filters.len() == 0 {
        return Ok(encode(data, method, dict_size_log, extra_dist));
    }
    let pieces = split_filters(filters);
    let transformed = transform_regions(data, &pieces);
    let lead = filter_symbols(&pieces);
    let params = level_params(method);
    let window: usize = window_size(dict_size_log);
    let mut state = EncoderState::default();
    let mut unused: Vec<(u64, u64)> = Vec::new();
    let out = encode_chunks(
        transformed.as_slice(),
        &lead,
        params,
        window,
        DEFAULT_CHUNK_SIZE,
        &mut state,
        true,
        &mut unused,
        extra_dist,
    );
    proof {
        let ps = pieces@;
        let k1 = state.known();
        let wide = filter_reach(dict_size_log, data@);
        let tight = reach_of(window as int, nothing_known(), data@.len() as int);
        if pieces_disjoint(filters@, data@.len() as int) && pieces_undoable(filters@)
            && filters_reachable(filters@, data@.len() as int) {
            lemma_cut_apart(filters@, data@.len() as int);
        }
        assert(nothing_carried().known() == nothing_known());
        if encodes_led(
            nothing_known(),
            lead@,
            transformed@,
            out@,
            k1,
            tight,
            true,
            extra_dist,
        ) {
            lemma_encodes_led_wider(
                nothing_known(),
                lead@,
                transformed@,
                out@,
                k1,
                tight,
                wide,
                true,
                extra_dist,
            );
            if pieces_disjoint(filters@, data@.len() as int) && pieces_undoable(filters@)
                && filters_reachable(filters@, data@.len() as int) {
                lemma_undo_regions(data@, transformed@, ps);
                assert forall|n: int| 0 < n && data@.len() <= n implies #[trigger] decode_member(
                    out@,
                    data@.len() as int,
                    None,
                    fresh_lz(),
                    n,
                    extra_dist,
                ) == Ok::<Seq<u8>, CodecError>(data@) by {
                    lemma_led_decodes(ps, transformed@, out@, k1, wide, extra_dist, n);
                }
            }
        }
        if begins_led(
            nothing_known(),
            lead@,
            transformed@,
            out@,
            tight,
            extra_dist,
        ) {
            lemma_begins_led_wider(
                nothing_known(),
                lead@,
                transformed@,
                out@,
                tight,
                wide,
                extra_dist,
            );
        }
        assert(written_at_level(
            nothing_carried(),
            records_of(ps),
            transformed@,
            out@,
            method,
            dict_size_log,
            DEFAULT_CHUNK_SIZE as int,
            true,
            extra_dist,
            state.carried(),
        ));
        assert(written_filtered(
            filters@,
            data@,
            transformed@,
            out@,
            method,
            dict_size_log,
            extra_dist,
        ));
    }
    Ok(out)
}

// ── Automatic x86 filtering ────────────────────────────────────────────────

/// `x` lies on one of the spans, counted in half steps: `2 * k + 1` is the
/// byte at `k`, and `2 * k` the place in front of it, so that a span without
/// a byte lies at a place, and spans that touch share one.
pub open spec fn covered(spans: Seq<Span>, x: int) -> bool {
    exists|i: int| 0 <= i < spans.len() && on_span(#[trigger] spans[i], x)
}

/// `x` lies on the span, counted in half steps.
pub open spec fn on_span(span: Span, x: int) -> bool {
    2 * span.start <= x <= 2 * span.end
}

/// Spans in order, with gaps between them.
pub open spec fn separated(spans: Seq<Span>) -> bool {
    &&& forall|i: int| 0 <= i < spans.len() ==> (#[trigger] spans[i]).start <= spans[i].end
    &&& forall|i: int|
        0 <= i < spans.len() - 1 ==> (#[trigger] spans[i]).end < spans[i + 1].start
}

/// Every span is within `n` bytes.
pub open spec fn spans_within(spans: Seq<Span>, n: int) -> bool {
    forall|i: int|
        0 <= i < spans.len() ==> (#[trigger] spans[i]).start <= spans[i].end && spans[i].end <= n
}

/// The spans in `merged` are those in `ranges`, in order, those that overlap
/// or touch as one.
pub open spec fn is_merged(merged: Seq<Span>, ranges: Seq<Span>) -> bool {
    separated(merged) && forall|x: int| #[trigger] covered(merged, x) <==> covered(ranges, x)
}

/// The spans before `first`, then `cur`, then those from `next` on.
proof fn lemma_inserted(ss: Seq<Span>, first: int, next: int, cur: Span, span: Span, out: Seq<Span>)
    requires
        separated(ss),
        0 <= first <= next <= ss.len(),
        out == ss.subrange(0, first).push(cur) + ss.subrange(next, ss.len() as int),
        cur.start <= cur.end,
        first > 0 ==> ss[first - 1].end < cur.start,
        next < ss.len() ==> cur.end < ss[next].start,
        forall|x: int|
            on_span(cur, x) <==> #[trigger] covered(ss.subrange(first, next), x)
                || on_span(span, x),
    ensures
        separated(out),
        forall|x: int| #[trigger] covered(out, x) <==> covered(ss, x) || on_span(span, x),
        forall|n: int| #[trigger] spans_within(ss, n) && cur.end <= n ==> spans_within(out, n),
{
    let a = ss.subrange(0, first);
    let b = ss.subrange(first, next);
    let c = ss.subrange(next, ss.len() as int);
    assert(ss =~= a + b + c);
    assert forall|x: int| #[trigger] covered(out, x) <==> covered(ss, x) || on_span(span, x) by {
        lemma_covered_push(a, cur, x);
        lemma_covered_concat(a.push(cur), c, x);
        lemma_covered_concat(a + b, c, x);
        lemma_covered_concat(a, b, x);
    }
    assert forall|i: int| 0 <= i < out.len() implies #[trigger] out[i] == if i < first {
        ss[i]
    } else if i == first {
        cur
    } else {
        ss[next + (i - first - 1)]
    } by {}
    assert forall|i: int| 0 <= i < out.len() - 1 implies (#[trigger] out[i]).end < out[i
        + 1].start by {
        let after = out[i + 1];
        if i < first {
            assert(ss[i].end == out[i].end);
        } else if i > first {
            let k = next + (i - first - 1);
            assert(ss[k].end == out[i].end);
        }
    }
}

/// Put a span into spans that are separated, joining what overlaps or
/// touches.
#[verifier::rlimit(40)]
#[verifier::spinoff_prover]
fn insert_span(spans: &Vec<Span>, span: Span) -> (out: Vec<Span>)
    requires
        separated(spans@),
        span.start <= span.end,
    ensures
        separated(out@),
        forall|n: int| #[trigger] spans_within(spans@, n) && span.end <= n ==> spans_within(out@, n),
        forall|x: int| #[trigger] covered(out@, x) <==> covered(spans@, x) || on_span(span, x),
        out@.len() <= spans@.len() + 1,
{
    let m: usize = spans.len();
    let ghost ss = spans@;
    let mut first: usize = 0;
    while first < m && spans[first].end < span.start
        invariant
            first <= m,
            m == ss.len(),
            ss == spans@,
            separated(ss),
            first > 0 ==> ss[first - 1].end < span.start,
        decreases m - first,
    {
        first = first + 1;
    }
    let mut cur: Span = span;
    let mut next: usize = first;
    assert(ss.subrange(first as int, first as int) =~= Seq::<Span>::empty());
    while next < m && spans[next].start <= cur.end
        invariant
            first <= next <= m,
            m == ss.len(),
            ss == spans@,
            separated(ss),
            cur.start <= cur.end,
            cur.start <= span.start,
            first > 0 ==> ss[first - 1].end < cur.start,
            next < m ==> span.start <= ss[next as int].end,
            forall|n: int| #[trigger] spans_within(ss, n) && span.end <= n ==> cur.end <= n,
            forall|x: int|
                on_span(cur, x) <==> #[trigger] covered(
                    ss.subrange(first as int, next as int),
                    x,
                ) || on_span(span, x),
        decreases m - next,
    {
        let s: Span = spans[next];
        let ghost was = cur;
        let ghost a = ss.subrange(first as int, next as int);
        if s.start < cur.start {
            cur.start = s.start;
        }
        if s.end > cur.end {
            cur.end = s.end;
        }
        proof {
            assert(ss[next as int] == s);
            assert(s.start <= s.end);
            if first > 0 {
                lemma_separated_order(ss, first - 1, next as int);
            }
            if next + 1 < m {
                assert(ss[next as int].end < ss[next + 1].start);
                assert(ss[next + 1].start <= ss[next + 1].end);
            }
            assert(ss.subrange(first as int, next + 1) =~= a.push(s));
            assert forall|x: int|
                on_span(cur, x) <==> #[trigger] covered(
                    ss.subrange(first as int, next + 1),
                    x,
                ) || on_span(span, x) by {
                lemma_covered_push(a, s, x);
                assert(on_span(was, x) <==> covered(a, x) || on_span(span, x));
            }
        }
        next = next + 1;
    }
    let mut out: Vec<Span> = Vec::new();
    let mut i: usize = 0;
    while i < first
        invariant
            i <= first <= m,
            m == ss.len(),
            ss == spans@,
            out@ =~= ss.subrange(0, i as int),
        decreases first - i,
    {
        out.push(spans[i]);
        i = i + 1;
    }
    out.push(cur);
    let ghost head = out@;
    i = next;
    while i < m
        invariant
            next <= i <= m,
            m == ss.len(),
            ss == spans@,
            out@ =~= head + ss.subrange(next as int, i as int),
        decreases m - i,
    {
        out.push(spans[i]);
        i = i + 1;
    }
    proof {
        lemma_inserted(ss, first as int, next as int, cur, span, out@);
    }
    out
}

proof fn lemma_separated_order(ss: Seq<Span>, i: int, j: int)
    requires
        separated(ss),
        0 <= i < j < ss.len(),
    ensures
        ss[i].end < ss[j].start,
    decreases j,
{
    assert(ss[j - 1].end < ss[j].start);
    if i < j - 1 {
        lemma_separated_order(ss, i, j - 1);
        assert(ss[j - 1].start <= ss[j - 1].end);
    }
}

/// No more separated spans than places.
proof fn lemma_separated_count(ss: Seq<Span>, n: int)
    requires
        separated(ss),
        spans_within(ss, n),
        0 <= n,
    ensures
        ss.len() <= n + 1,
        ss.len() > 0 ==> ss.len() <= ss.last().end + 1,
    decreases ss.len(),
{
    if ss.len() > 0 {
        let rest = ss.drop_last();
        assert forall|i: int| 0 <= i < rest.len() implies (#[trigger] rest[i]).start <= rest[i].end
            && rest[i].end <= n by {
            assert(rest[i] == ss[i]);
        }
        assert forall|i: int| 0 <= i < rest.len() - 1 implies (#[trigger] rest[i]).end < rest[i
            + 1].start by {
            assert(rest[i] == ss[i] && rest[i + 1] == ss[i + 1]);
        }
        lemma_separated_count(rest, n);
        let k = ss.len() - 1;
        assert(ss[k].start <= ss[k].end && ss[k].end <= n);
        if k > 0 {
            assert(ss[k - 1].end < ss[k].start);
            assert(rest.last() == ss[k - 1]);
        }
    }
}

proof fn lemma_covered_concat(a: Seq<Span>, b: Seq<Span>, x: int)
    ensures
        covered(a + b, x) <==> covered(a, x) || covered(b, x),
    decreases b.len(),
{
    if b.len() == 0 {
        assert(a + b =~= a);
    } else {
        lemma_covered_concat(a, b.drop_last(), x);
        lemma_covered_push(a + b.drop_last(), b.last(), x);
        lemma_covered_push(b.drop_last(), b.last(), x);
        assert((a + b.drop_last()).push(b.last()) =~= a + b);
        assert(b.drop_last().push(b.last()) =~= b);
    }
}

proof fn lemma_covered_push(spans: Seq<Span>, s: Span, x: int)
    ensures
        covered(spans.push(s), x) <==> covered(spans, x) || on_span(s, x),
{
    let more = spans.push(s);
    if covered(spans, x) {
        let i = choose|i: int| 0 <= i < spans.len() && on_span(#[trigger] spans[i], x);
        assert(more[i] == spans[i]);
    }
    if on_span(s, x) {
        assert(more[spans.len() as int] == s);
    }
    if covered(more, x) {
        let i = choose|i: int| 0 <= i < more.len() && on_span(#[trigger] more[i], x);
        if i < spans.len() {
            assert(spans[i] == more[i]);
        }
    }
}

/// There is one way to merge ranges.
pub proof fn lemma_merged_once(a: Seq<Span>, b: Seq<Span>)
    requires
        separated(a),
        separated(b),
        forall|x: int| #[trigger] covered(a, x) <==> covered(b, x),
    ensures
        a == b,
    decreases a.len(),
{
    if a.len() == 0 || b.len() == 0 {
        if a.len() > 0 {
            assert(on_span(a[0], 2 * a[0].start as int));
            assert(covered(a, 2 * a[0].start as int));
            assert(covered(b, 2 * a[0].start as int));
        }
        if b.len() > 0 {
            assert(on_span(b[0], 2 * b[0].start as int));
            assert(covered(b, 2 * b[0].start as int));
            assert(covered(a, 2 * b[0].start as int));
        }
        assert(a =~= b);
    } else {
        let p = a.last();
        let q = b.last();
        lemma_reaches_less(a, b);
        lemma_reaches_less(b, a);
        let a1 = a.drop_last();
        let b1 = b.drop_last();
        assert(a1.push(p) =~= a && b1.push(q) =~= b);
        assert(separated(a1)) by {
            assert forall|i: int| 0 <= i < a1.len() - 1 implies (#[trigger] a1[i]).end < a1[i
                + 1].start by {
                assert(a[i].end < a[i + 1].start);
            }
        }
        assert(separated(b1)) by {
            assert forall|i: int| 0 <= i < b1.len() - 1 implies (#[trigger] b1[i]).end < b1[i
                + 1].start by {
                assert(b[i].end < b[i + 1].start);
            }
        }
        assert forall|x: int| #[trigger] covered(a1, x) <==> covered(b1, x) by {
            lemma_covered_push(a1, p, x);
            lemma_covered_push(b1, q, x);
            lemma_before_last(a, x);
            lemma_before_last(b, x);
            assert(covered(a, x) <==> covered(b, x));
        }
        lemma_merged_once(a1, b1);
    }
}

/// What lies on a span before the last lies before the last.
proof fn lemma_before_last(a: Seq<Span>, x: int)
    requires
        separated(a),
        a.len() > 0,
    ensures
        covered(a.drop_last(), x) ==> x < 2 * a.last().start,
{
    let a1 = a.drop_last();
    if covered(a1, x) {
        let i = choose|i: int| 0 <= i < a1.len() && on_span(#[trigger] a1[i], x);
        lemma_separated_order(a, i, a.len() - 1);
    }
}

/// The last of the merged spans reaches no further either way than that of
/// others that cover as much.
proof fn lemma_reaches_less(a: Seq<Span>, b: Seq<Span>)
    requires
        separated(a),
        separated(b),
        a.len() > 0,
        b.len() > 0,
        forall|x: int| #[trigger] covered(a, x) <==> covered(b, x),
    ensures
        a.last().end <= b.last().end,
        a.last().end == b.last().end ==> a.last().start >= b.last().start,
{
    let p = a.last();
    let q = b.last();
    let b1 = b.drop_last();
    assert(b1.push(q) =~= b);
    assert(a[a.len() - 1] == p && b[b.len() - 1] == q);
    let y = 2 * p.end as int;
    assert(on_span(a[a.len() - 1], y));
    assert(covered(a, y));
    lemma_covered_push(b1, q, y);
    lemma_before_last(b, y);
    if p.end == q.end && p.start < q.start {
        let x = 2 * q.start - 1;
        assert(on_span(a[a.len() - 1], x));
        assert(covered(a, x));
        lemma_covered_push(b1, q, x);
        let i = choose|i: int| 0 <= i < b1.len() && on_span(#[trigger] b1[i], x);
        lemma_separated_order(b, i, b.len() - 1);
    }
}

/// Merge overlapping or adjacent ranges (overlapping filter records would
/// double-transform the overlap). Ranges that are merged already stay as they
/// are, so merging twice is merging once.
pub fn merge_ranges(ranges: &Vec<Span>) -> (merged: Vec<Span>)
    requires
        spans_within(ranges@, usize::MAX as int),
    ensures
        is_merged(merged@, ranges@),
        separated(ranges@) ==> merged@ == ranges@,
        forall|n: int| #[trigger] spans_within(ranges@, n) ==> spans_within(merged@, n),
        merged@.len() <= ranges@.len(),
{
    let m: usize = ranges.len();
    let mut merged: Vec<Span> = Vec::new();
    let mut i: usize = 0;
    assert(ranges@.subrange(0, 0) =~= Seq::<Span>::empty());
    while i < m
        invariant
            i <= m,
            m == ranges@.len(),
            spans_within(ranges@, usize::MAX as int),
            separated(merged@),
            forall|n: int| #[trigger] spans_within(ranges@, n) ==> spans_within(merged@, n),
            merged@.len() <= i,
            forall|x: int| #[trigger]
                covered(merged@, x) <==> covered(ranges@.subrange(0, i as int), x),
        decreases m - i,
    {
        let ghost a = ranges@.subrange(0, i as int);
        let ghost before = merged@;
        assert(ranges@[i as int].start <= ranges@[i as int].end);
        merged = insert_span(&merged, ranges[i]);
        proof {
            assert(ranges@.subrange(0, i + 1) =~= a.push(ranges@[i as int]));
            assert forall|x: int| #[trigger]
                covered(merged@, x) <==> covered(ranges@.subrange(0, i + 1), x) by {
                lemma_covered_push(a, ranges@[i as int], x);
                assert(covered(before, x) <==> covered(a, x));
            }
        }
        i = i + 1;
    }
    assert(ranges@.subrange(0, m as int) =~= ranges@);
    proof {
        if separated(ranges@) {
            lemma_merged_once(merged@, ranges@);
        }
    }
    merged
}

fn spans_equal(a: &Vec<Span>, b: &Vec<Span>) -> (r: bool)
    ensures
        r == (a@ == b@),
{
    if a.len() != b.len() {
        return false;
    }
    let mut i: usize = 0;
    while i < a.len()
        invariant
            i <= a@.len(),
            a@.len() == b@.len(),
            forall|j: int| 0 <= j < i ==> #[trigger] a@[j] == b@[j],
        decreases a@.len() - i,
    {
        if a[i].start != b[i].start || a[i].end != b[i].end {
            return false;
        }
        i = i + 1;
    }
    assert(a@ =~= b@);
    true
}

/// A number as far as a record can hold it.
pub open spec fn capped(x: int) -> u32 {
    if x > u32::MAX {
        u32::MAX
    } else {
        x as u32
    }
}

/// One filter per range.
pub open spec fn specs_of(ranges: Seq<Span>, filter_type: u8) -> Seq<FilterSpec> {
    Seq::new(
        ranges.len(),
        |i: int|
            FilterSpec {
                filter_type,
                channels: 0,
                block_start: capped(ranges[i].start as int),
                block_length: capped(ranges[i].end - ranges[i].start),
            },
    )
}

fn specs_for(ranges: &Vec<Span>, filter_type: u8) -> (specs: Vec<FilterSpec>)
    requires
        separated(ranges@),
    ensures
        specs@ == specs_of(ranges@, filter_type),
{
    let m: usize = ranges.len();
    let mut specs: Vec<FilterSpec> = Vec::new();
    let mut i: usize = 0;
    while i < m
        invariant
            i <= m,
            m == ranges@.len(),
            separated(ranges@),
            specs@ =~= specs_of(ranges@, filter_type).subrange(0, i as int),
        decreases m - i,
    {
        let s: Span = ranges[i];
        assert(ranges@[i as int].start <= ranges@[i as int].end);
        let len: usize = s.end - s.start;
        let start: u32 = if s.start > u32::MAX as usize { u32::MAX } else { s.start as u32 };
        let length: u32 = if len > u32::MAX as usize { u32::MAX } else { len as u32 };
        specs.push(FilterSpec::new(filter_type, 0, start, length));
        i = i + 1;
    }
    specs
}

/// How many pieces a filter is cut into.
proof fn lemma_piece_count(f: FilterSpec)
    ensures
        pieces_of(f).len() <= f.block_length / MAX_FILTER_BLOCK_LENGTH + 1,
    decreases f.block_length,
{
    if f.block_length > 0 {
        let l = if f.block_length < MAX_FILTER_BLOCK_LENGTH {
            f.block_length
        } else {
            MAX_FILTER_BLOCK_LENGTH
        };
        let next = f.block_start + l;
        let first = FilterSpec { block_length: l, ..f };
        let rest = FilterSpec {
            block_start: if next > u32::MAX {
                u32::MAX
            } else {
                next as u32
            },
            block_length: (f.block_length - l) as u32,
            ..f
        };
        lemma_piece_count(rest);
        assert(pieces_of(f) == seq![first] + pieces_of(rest));
        if l == f.block_length {
            assert(pieces_of(rest).len() == 0);
        } else {
            assert(f.block_length / MAX_FILTER_BLOCK_LENGTH == (f.block_length - l) as int
                / MAX_FILTER_BLOCK_LENGTH as int + 1);
        }
    }
}

/// How many pieces filters whose regions follow each other are cut into.
proof fn lemma_count_pieces(ranges: Seq<Span>, n: int, kind: u8, k: nat)
    requires
        separated(ranges),
        spans_within(ranges, n),
        n <= u32::MAX,
        k <= ranges.len(),
    ensures
        all_pieces(specs_of(ranges, kind), k).len() <= k + if k == 0 {
            0
        } else {
            ranges[k - 1].end as int / MAX_FILTER_BLOCK_LENGTH as int
        },
    decreases k,
{
    if k > 0 {
        let j = (k - 1) as nat;
        lemma_count_pieces(ranges, n, kind, j);
        let f = specs_of(ranges, kind)[j as int];
        assert(ranges[j as int].start <= ranges[j as int].end);
        lemma_piece_count(f);
        if j > 0 {
            assert(ranges[j - 1].end < ranges[j - 1 + 1].start);
        }
        let m = MAX_FILTER_BLOCK_LENGTH as int;
        let prev = if j == 0 {
            0
        } else {
            ranges[j - 1].end as int
        };
        let len = f.block_length as int;
        assert(prev / m + len / m <= ranges[j as int].end as int / m) by (nonlinear_arith)
            requires
                m > 0,
                prev >= 0,
                len >= 0,
                prev + len <= ranges[j as int].end,
        ;
    }
}

/// Filters on separate spans are apart.
proof fn lemma_specs_apart(ranges: Seq<Span>, n: int, kind: u8)
    requires
        separated(ranges),
        spans_within(ranges, n),
        n <= u32::MAX,
        kind <= FILTER_ARM && kind != FILTER_DELTA,
    ensures
        pieces_disjoint(specs_of(ranges, kind), n),
        pieces_undoable(specs_of(ranges, kind)),
        filters_reachable(specs_of(ranges, kind), n),
{
    let fs = specs_of(ranges, kind);
    assert forall|i: int, j: int, x: int|
        #![trigger in_span(fs[i], n, x), in_span(fs[j], n, x)]
        0 <= i < j < fs.len() && in_span(fs[i], n, x) implies !in_span(fs[j], n, x) by {
        lemma_separated_order(ranges, i, j);
        assert(ranges[i].end <= n && ranges[j].end <= n);
        assert(ranges[i].start <= ranges[i].end);
    }
}

/// `packed` is `data` encoded with one x86 filter, over calls and jumps or
/// calls alone, on the regions `m`, which are those the scan finds.
#[verifier::opaque]
pub open spec fn x86_packed(
    data: Seq<u8>,
    jumps: bool,
    m: Seq<Span>,
    packed: Seq<u8>,
    method: u8,
    dict_size_log: u8,
    extra_dist: bool,
) -> bool {
    let kind = if jumps {
        FILTER_E8E9
    } else {
        FILTER_E8
    };
    &&& is_merged(m, x86_ranges(data, jumps))
    &&& filtered_result(specs_of(m, kind), data, packed, method, dict_size_log, extra_dist)
}

/// `packed` is the shorter of the encodings with either x86 filter, where the
/// scans find different regions.
pub open spec fn x86_result(
    data: Seq<u8>,
    packed: Seq<u8>,
    method: u8,
    dict_size_log: u8,
    extra_dist: bool,
) -> bool {
    exists|m9: Seq<Span>, p9: Seq<u8>| #[trigger]
        x86_packed(data, true, m9, p9, method, dict_size_log, extra_dist) && if x86_ranges(
            data,
            false,
        ).len() == 0 || x86_ranges(data, false) == m9 {
            packed == p9
        } else {
            exists|m8: Seq<Span>, p8: Seq<u8>| #[trigger]
                x86_packed(data, false, m8, p8, method, dict_size_log, extra_dist) && packed
                    == if p8.len() < p9.len() {
                    p8
                } else {
                    p9
                }
        }
}

/// What an encoding of `data` with filters on the regions a scan found says
/// of decoding it.
pub open spec fn x86_decodes(
    data: Seq<u8>,
    packed: Seq<u8>,
    dict_size_log: u8,
    extra_dist: bool,
) -> bool {
    &&& data.len() <= u32::MAX ==> decodes_back(packed, data, extra_dist) || exists|
        filters: Seq<FilterSpec>,
    | #[trigger] led_outgrown(filters, data, packed, dict_size_log, extra_dist)
    &&& data.len() <= MAX_BLOCK_SIZE ==> decodes_back(packed, data, extra_dist)
}

/// Encode `data` with one x86 filter on the regions `m`.
fn pack_x86(
    data: &[u8],
    jumps: bool,
    m: &Vec<Span>,
    method: u8,
    dict_size_log: u8,
    extra_dist: bool,
) -> (r: Result<Vec<u8>, String>)
    requires
        dict_size_log <= 46,
        is_merged(m@, x86_ranges(data@, jumps)),
        spans_within(m@, data@.len() as int),
    ensures
        r is Ok,
        x86_packed(data@, jumps, m@, r->Ok_0@, method, dict_size_log, extra_dist),
        x86_decodes(data@, r->Ok_0@, dict_size_log, extra_dist),
{
    let kind: u8 = if jumps { FILTER_E8E9 } else { FILTER_E8 };
    proof {
        reveal(x86_packed);
    }
    let specs = specs_for(m, kind);
    proof {
        let n = data@.len() as int;
        if n <= u32::MAX {
            lemma_specs_apart(m@, n, kind);
            lemma_count_pieces(m@, n, kind, specs@.len());
        }
        lemma_separated_count(m@, n);
    }
    encode_with_filters(data, method, dict_size_log, specs.as_slice(), extra_dist)
}

/// Encode `data` with automatic x86 output filtering.
///
/// Scans `data` for x86 code regions and encodes with the E8/E8E9 filter
/// variant that packed smallest. Returns `None` when the scan found no
/// regions worth filtering (the caller then uses the unfiltered path). The
/// caller is responsible for comparing the packed size against unfiltered
/// output and falling back to STORE, and for writing the member as
/// non-solid.
pub fn encode_with_auto_x86_filter(
    data: &[u8],
    method: u8,
    dict_size_log: u8,
    extra_dist: bool,
) -> (r: Result<Option<Vec<u8>>, String>)
    requires
        dict_size_log <= 46,
    ensures
        r is Ok,
        r->Ok_0 is None <==> data@.len() <= 5 || x86_ranges(data@, true).len() == 0,
        match r->Ok_0 {
            Some(packed) => {
                &&& x86_result(data@, packed@, method, dict_size_log, extra_dist)
                &&& x86_decodes(data@, packed@, dict_size_log, extra_dist)
            },
            None => true,
        },
{
    if data.len() <= 5 {
        return Ok(None);
    }
    let found_e9 = auto_x86_filter_ranges(data, true);
    if found_e9.len() == 0 {
        return Ok(None);
    }
    let ghost n = data@.len() as int;
    assert(spans_within(found_e9@, n));
    let ranges_e9 = merge_ranges(&found_e9);
    let packed_e9 = match pack_x86(data, true, &ranges_e9, method, dict_size_log, extra_dist) {
        Ok(v) => v,
        Err(e) => {
            return Err(e);
        },
    };
    let found_e8 = auto_x86_filter_ranges(data, false);
    if found_e8.len() == 0 || spans_equal(&found_e8, &ranges_e9) {
        return Ok(Some(packed_e9));
    }
    assert(spans_within(found_e8@, n));
    let ranges_e8 = merge_ranges(&found_e8);
    let packed_e8 = match pack_x86(data, false, &ranges_e8, method, dict_size_log, extra_dist) {
        Ok(v) => v,
        Err(e) => {
            return Err(e);
        },
    };
    if packed_e8.len() < packed_e9.len() {
        Ok(Some(packed_e8))
    } else {
        Ok(Some(packed_e9))
    }
}

} // verus!
