//! The codec's promise: what was encoded decodes to what it was.

use crate::codec::block::{apply_all, stands_at};
use crate::codec::decode::{decode_member, fresh_lz, run_blocks};
use crate::codec::dispatch::{method_result, of_size, COMP_METHOD_BEST, COMP_METHOD_STORE};
use crate::codec::encode::{
    agrees, at_least_one, carries, chunk_end, dictionary_size, encode_chunked, encodes,
    lemma_encodes_concat, level_encodes, nothing_known, outgrown, reach_of, reported, reports,
    stream_runs, EncoderState, Known, DEFAULT_CHUNK_SIZE,
};
use crate::codec::error::CodecError;
use crate::codec::levels::{nothing_carried, Carried};
use crate::codec::lz::{lz_ok, Lz};
use crate::codec::parse::MAX_BLOCK_SIZE;
use crate::codec::rar50::{lemma_next_pow2, standalone_result, standalone_window};
use crate::codec::streaming::{ends_ordered, lemma_stream_succeeds, stream_result};
use crate::codec::symbols::Symbol;
use crate::codec::tables::CodeLengths;
use crate::codec::window::lemma_window_output;
use vstd::prelude::*;

verus! {

/// Decoding what was encoded appends the data, from every decoder state that
/// the encoder's knowledge is true of, whatever tables it holds, and leaves
/// the decoder in a state that the encoder's new knowledge is true of.
pub proof fn lemma_member_runs(
    s0: Known,
    data: Seq<u8>,
    packed: Seq<u8>,
    s1: Known,
    window: int,
    last: bool,
    extra_dist: bool,
    tabs: Option<CodeLengths>,
    z: Lz,
    n: int,
)
    requires
        encodes(s0, data, packed, s1, window, last, extra_dist),
        agrees(s0, z),
        z.filters.len() == 0,
        window <= n,
    ensures
        ({
            let r = run_blocks(packed, 0, tabs, z, n, extra_dist, (z.out.len() + data.len()) as int);
            r is Ok && r->Ok_0.0.out == z.out + data && r->Ok_0.0.filters.len() == 0 && (data.len()
                > 0 ==> agrees(s1, r->Ok_0.0))
        }),
{
    let syms = choose|syms: Seq<Symbol>|
        #[trigger] stream_runs(packed, syms, last, extra_dist) && carries(
            s0,
            syms,
            data,
            s1,
            window,
        );
    let base = z.out.len() as int;
    let goal = base + data.len();
    let z2 = apply_all(z, n, syms);
    assert(z2.out == z.out + data);
    let r = run_blocks(packed, 0, tabs, z, n, extra_dist, goal);
    if data.len() == 0 {
        assert(z.out + data =~= z.out);
        assert(r->Ok_0.0 == z);
    } else {
        assert(packed.subrange(0, packed.len() as int) =~= packed);
        assert(stands_at(packed, 0, packed));
        assert(r is Ok && r->Ok_0.0 == z2);
    }
}

/// Decoding what was encoded gives the data back, from every decoder state
/// that the encoder's knowledge is true of, whatever tables it holds, and
/// leaves the decoder in a state that the encoder's new knowledge is true of.
pub proof fn lemma_member_roundtrip(
    s0: Known,
    data: Seq<u8>,
    packed: Seq<u8>,
    s1: Known,
    window: int,
    last: bool,
    extra_dist: bool,
    tabs: Option<CodeLengths>,
    z: Lz,
    n: int,
)
    requires
        encodes(s0, data, packed, s1, window, last, extra_dist),
        agrees(s0, z),
        z.filters.len() == 0,
        window <= n,
        data.len() <= n,
        0 < n,
    ensures
        decode_member(packed, data.len() as int, tabs, z, n, extra_dist) == Ok::<
            Seq<u8>,
            CodecError,
        >(data),
        ({
            let r = run_blocks(packed, 0, tabs, z, n, extra_dist, (z.out.len() + data.len()) as int);
            r is Ok && r->Ok_0.0.out == z.out + data && r->Ok_0.0.filters.len() == 0 && (data.len()
                > 0 ==> agrees(s1, r->Ok_0.0))
        }),
{
    lemma_member_runs(s0, data, packed, s1, window, last, extra_dist, tabs, z, n);
    let base = z.out.len() as int;
    let out = z.out + data;
    lemma_window_output(out, n, base, data.len());
    assert(out.subrange(base, base + data.len()) =~= data);
}

/// Streaming what was encoded gives the data back too, however much longer
/// than the window it is.
pub proof fn lemma_member_streams(
    s0: Known,
    data: Seq<u8>,
    packed: Seq<u8>,
    s1: Known,
    window: int,
    last: bool,
    extra_dist: bool,
    tabs: Option<CodeLengths>,
    z: Lz,
    n: int,
    r: Result<u64, String>,
    before: Seq<u8>,
    after: Seq<u8>,
)
    requires
        encodes(s0, data, packed, s1, window, last, extra_dist),
        agrees(s0, z),
        z.filters.len() == 0,
        window <= n,
        data.len() <= u64::MAX,
        stream_result(r, before, after, packed, data.len() as u64, tabs, z, n, extra_dist),
    ensures
        r == Ok::<u64, String>(data.len() as u64),
        after == before + data,
{
    lemma_member_runs(s0, data, packed, s1, window, last, extra_dist, tabs, z, n);
    let size = data.len() as u64;
    lemma_stream_succeeds(r, before, after, packed, size, tabs, z, n, extra_dist);
    let base = z.out.len() as int;
    let end = run_blocks(packed, 0, tabs, z, n, extra_dist, base + size)->Ok_0.0;
    assert(ends_ordered(end.filters));
    assert(end.out.subrange(base, end.out.len() as int) =~= data);
    assert(after =~= before + after.subrange(before.len() as int, after.len() as int));
}

/// A stream that starts from nothing decodes in every decoder, whatever
/// output it has behind it and whatever tables it holds.
pub proof fn lemma_decodes_anywhere(
    data: Seq<u8>,
    packed: Seq<u8>,
    s1: Known,
    window: int,
    last: bool,
    extra_dist: bool,
    tabs: Option<CodeLengths>,
    z: Lz,
    n: int,
)
    requires
        encodes(nothing_known(), data, packed, s1, window, last, extra_dist),
        lz_ok(z),
        z.filters.len() == 0,
        window <= n,
        data.len() <= n,
        0 < n,
    ensures
        decode_member(packed, data.len() as int, tabs, z, n, extra_dist) == Ok::<
            Seq<u8>,
            CodecError,
        >(data),
{
    assert(z.out.subrange(z.out.len() as int, z.out.len() as int) =~= Seq::<u8>::empty());
    assert(agrees(nothing_known(), z));
    lemma_member_roundtrip(
        nothing_known(),
        data,
        packed,
        s1,
        window,
        last,
        extra_dist,
        tabs,
        z,
        n,
    );
}

/// What the first call after a reset writes decodes by itself.
pub proof fn lemma_reset_decodes_alone(
    state: EncoderState,
    data: Seq<u8>,
    packed: Seq<u8>,
    c1: Carried,
    method: u8,
    dict_size_log: u8,
    chunk_size: int,
    last: bool,
    extra_dist: bool,
)
    requires
        state.carried() == nothing_carried(),
        level_encodes(
            state.carried(),
            data,
            packed,
            c1,
            method,
            dict_size_log,
            chunk_size,
            last,
            extra_dist,
        ),
        whole_piece(data, packed, chunk_size),
    ensures
        decodes_back(packed, data, extra_dist),
{
    assert(state.carried().known() == nothing_known());
    let window = reach_of(
        dictionary_size(dict_size_log) as int,
        nothing_known(),
        data.len() as int,
    );
    lemma_encodes_decodes_back(data, packed, c1.known(), window, last, extra_dist);
}

/// The bytes of all parts, one after the other.
pub open spec fn joined(parts: Seq<Seq<u8>>) -> Seq<u8>
    decreases parts.len(),
{
    if parts.len() == 0 {
        Seq::empty()
    } else {
        joined(parts.drop_last()) + parts.last()
    }
}

/// Calls through one encoder state, each from what the one before left, only
/// the last of which may end the member.
pub open spec fn calls_chain(
    knowns: Seq<Known>,
    datas: Seq<Seq<u8>>,
    packeds: Seq<Seq<u8>>,
    window: int,
    last: bool,
    extra_dist: bool,
) -> bool {
    &&& datas.len() > 0
    &&& packeds.len() == datas.len()
    &&& knowns.len() == datas.len() + 1
    &&& forall|i: int|
        #![trigger datas[i]]
        0 <= i < datas.len() ==> encodes(
            knowns[i],
            datas[i],
            packeds[i],
            knowns[i + 1],
            window,
            last && i == datas.len() - 1,
            extra_dist,
        )
}

/// Calls through one encoder state form one member: what they wrote, one
/// after the other, encodes the data of all of them.
pub proof fn lemma_calls_form_member(
    knowns: Seq<Known>,
    datas: Seq<Seq<u8>>,
    packeds: Seq<Seq<u8>>,
    window: int,
    last: bool,
    extra_dist: bool,
)
    requires
        calls_chain(knowns, datas, packeds, window, last, extra_dist),
    ensures
        encodes(
            knowns[0],
            joined(datas),
            joined(packeds),
            knowns.last(),
            window,
            last,
            extra_dist,
        ),
    decreases datas.len(),
{
    let k = datas.len() - 1;
    let d = datas.drop_last();
    let p = packeds.drop_last();
    assert(encodes(knowns[k], datas[k], packeds[k], knowns[k + 1], window, last, extra_dist));
    if k == 0 {
        assert(joined(d) =~= Seq::<u8>::empty());
        assert(joined(p) =~= Seq::<u8>::empty());
        assert(joined(datas) =~= datas[0]);
        assert(joined(packeds) =~= packeds[0]);
    } else {
        let ks = knowns.drop_last();
        assert forall|i: int| #![trigger d[i]] 0 <= i < d.len() implies encodes(
            ks[i],
            d[i],
            p[i],
            ks[i + 1],
            window,
            false && i == d.len() - 1,
            extra_dist,
        ) by {
            assert(d[i] == datas[i]);
        }
        lemma_calls_form_member(ks, d, p, window, false, extra_dist);
        lemma_encodes_concat(
            knowns[0],
            joined(d),
            joined(p),
            knowns[k],
            datas[k],
            packeds[k],
            knowns[k + 1],
            window,
            last,
            extra_dist,
        );
    }
}

/// `packed` decodes to `data` as a member of its own, with every window that
/// holds the data.
pub open spec fn decodes_back(packed: Seq<u8>, data: Seq<u8>, extra_dist: bool) -> bool {
    forall|n: int|
        0 < n && data.len() <= n ==> #[trigger] decode_member(
            packed,
            data.len() as int,
            None,
            fresh_lz(),
            n,
            extra_dist,
        ) == Ok::<Seq<u8>, CodecError>(data)
}

/// A fresh encoder's knowledge is true of a fresh decoder.
pub proof fn lemma_fresh_agrees()
    ensures
        agrees(nothing_known(), fresh_lz()),
{
    let z = fresh_lz();
    assert(z.out.subrange(0, 0) =~= Seq::<u8>::empty());
}

pub proof fn lemma_encodes_decodes_back(
    data: Seq<u8>,
    packed: Seq<u8>,
    s1: Known,
    window: int,
    last: bool,
    extra_dist: bool,
)
    requires
        encodes(nothing_known(), data, packed, s1, window, last, extra_dist),
        window <= data.len(),
    ensures
        decodes_back(packed, data, extra_dist),
{
    lemma_fresh_agrees();
    assert forall|n: int| 0 < n && data.len() <= n implies #[trigger] decode_member(
        packed,
        data.len() as int,
        None,
        fresh_lz(),
        n,
        extra_dist,
    ) == Ok::<Seq<u8>, CodecError>(data) by {
        lemma_member_roundtrip(
            nothing_known(),
            data,
            packed,
            s1,
            window,
            last,
            extra_dist,
            None,
            fresh_lz(),
            n,
        );
    }
}

/// The codec's law: a standalone decoder, told the size, gives the data back,
/// whatever dictionary it is told.
pub proof fn lemma_standalone_roundtrip(
    packed: Seq<u8>,
    data: Seq<u8>,
    dict_size_log: u8,
    dict_size_bytes: Option<u64>,
    extra_dist: bool,
)
    requires
        decodes_back(packed, data, extra_dist),
        data.len() <= u64::MAX,
        standalone_window(dict_size_log, dict_size_bytes, data.len() as u64) is Ok,
    ensures
        standalone_result(
            packed,
            data.len() as u64,
            dict_size_log,
            dict_size_bytes,
            extra_dist,
        ) == Ok::<Seq<u8>, CodecError>(data),
{
    let dict = dictionary_size(dict_size_log) as int;
    lemma_next_pow2(dict);
    lemma_next_pow2(data.len() as int);
    match dict_size_bytes {
        Some(b) => {
            lemma_next_pow2(b as int);
        },
        None => {},
    }
    let n = standalone_window(dict_size_log, dict_size_bytes, data.len() as u64)->Ok_0;
    assert(0 < n && data.len() <= n);
}

/// `packed` is what encoding `data` as a member of its own at a level gives.
pub open spec fn is_encoding(
    packed: Seq<u8>,
    data: Seq<u8>,
    method: u8,
    dict_size_log: u8,
    extra_dist: bool,
) -> bool {
    exists|c1: Carried| #[trigger]
        level_encodes(
            nothing_carried(),
            data,
            packed,
            c1,
            method,
            dict_size_log,
            DEFAULT_CHUNK_SIZE as int,
            true,
            extra_dist,
        )
}

/// A member that was encoded by itself, and is no longer than its data or no
/// more than a block, decodes in every decoder whose window holds it: whatever output is behind it,
/// whatever tables it has, and however large the encoder's dictionary was.
pub proof fn lemma_encoding_decodes_anywhere(
    packed: Seq<u8>,
    data: Seq<u8>,
    method: u8,
    dict_size_log: u8,
    extra_dist: bool,
    tabs: Option<CodeLengths>,
    z: Lz,
    n: int,
)
    requires
        is_encoding(packed, data, method, dict_size_log, extra_dist),
        packed.len() <= data.len() || data.len() <= MAX_BLOCK_SIZE,
        lz_ok(z),
        z.filters.len() == 0,
        data.len() <= n,
        0 < n,
    ensures
        decode_member(packed, data.len() as int, tabs, z, n, extra_dist) == Ok::<
            Seq<u8>,
            CodecError,
        >(data),
{
    let c1 = choose|c1: Carried| #[trigger]
        level_encodes(
            nothing_carried(),
            data,
            packed,
            c1,
            method,
            dict_size_log,
            DEFAULT_CHUNK_SIZE as int,
            true,
            extra_dist,
        );
    assert(nothing_carried().known() == nothing_known());
    let window = reach_of(
        dictionary_size(dict_size_log) as int,
        nothing_known(),
        data.len() as int,
    );
    lemma_decodes_anywhere(data, packed, c1.known(), window, true, extra_dist, tabs, z, n);
}

/// What was encoded with a dictionary decodes by itself with one as large.
pub proof fn lemma_dictionary_decodes(
    data: Seq<u8>,
    packed: Seq<u8>,
    s1: Known,
    dict_size_log: u8,
    last: bool,
    extra_dist: bool,
)
    requires
        encodes(
            nothing_known(),
            data,
            packed,
            s1,
            dictionary_size(dict_size_log) as int,
            last,
            extra_dist,
        ),
        data.len() <= u64::MAX,
        standalone_window(dict_size_log, None, data.len() as u64) is Ok,
    ensures
        standalone_result(packed, data.len() as u64, dict_size_log, None, extra_dist) == Ok::<
            Seq<u8>,
            CodecError,
        >(data),
{
    let dict = dictionary_size(dict_size_log) as int;
    vstd::arithmetic::power2::lemma_pow2_pos(dict_size_log as nat);
    lemma_next_pow2(dict);
    lemma_next_pow2(data.len() as int);
    lemma_fresh_agrees();
    let n = standalone_window(dict_size_log, None, data.len() as u64)->Ok_0;
    lemma_member_roundtrip(
        nothing_known(),
        data,
        packed,
        s1,
        dict,
        last,
        extra_dist,
        None,
        fresh_lz(),
        n,
    );
}

/// Two windows encoded through one state decode to both, also where one of
/// them is empty.
pub proof fn lemma_windows_decode(
    first: Seq<u8>,
    p: Seq<u8>,
    k1: Known,
    second: Seq<u8>,
    q: Seq<u8>,
    k2: Known,
    dict_size_log: u8,
    last: bool,
    extra_dist: bool,
)
    requires
        encodes(
            nothing_known(),
            first,
            p,
            k1,
            dictionary_size(dict_size_log) as int,
            false,
            extra_dist,
        ),
        encodes(k1, second, q, k2, dictionary_size(dict_size_log) as int, last, extra_dist),
        first.len() + second.len() <= u64::MAX,
        standalone_window(dict_size_log, None, (first.len() + second.len()) as u64) is Ok,
    ensures
        standalone_result(
            p + q,
            (first.len() + second.len()) as u64,
            dict_size_log,
            None,
            extra_dist,
        ) == Ok::<Seq<u8>, CodecError>(first + second),
{
    lemma_encodes_concat(
        nothing_known(),
        first,
        p,
        k1,
        second,
        q,
        k2,
        dictionary_size(dict_size_log) as int,
        last,
        extra_dist,
    );
    lemma_dictionary_decodes(first + second, p + q, k2, dict_size_log, last, extra_dist);
}

/// What was written for a piece of data is all of it: it did not outgrow the
/// data, or the data is no more than a block.
pub open spec fn whole_piece(data: Seq<u8>, packed: Seq<u8>, chunk_size: int) -> bool {
    ||| packed.len() <= data.len()
    ||| data.len() == 0
    ||| data.len() <= MAX_BLOCK_SIZE && data.len() <= chunk_size
}

/// Pieces compressed one after the other through one state, from a fresh one
/// on, each of them whole.
pub open spec fn pieces_compressed(
    method: u8,
    dict_size_log: u8,
    chunk_size: int,
    states: Seq<Carried>,
    datas: Seq<Seq<u8>>,
    results: Seq<Result<Vec<u8>, String>>,
    extra_dist: bool,
) -> bool {
    &&& datas.len() > 0
    &&& results.len() == datas.len()
    &&& states.len() == datas.len() + 1
    &&& states[0] == nothing_carried()
    &&& forall|i: int|
        #![trigger datas[i]]
        0 <= i < datas.len() ==> {
            &&& method_result(
                method,
                states[i],
                datas[i],
                results[i],
                states[i + 1],
                dict_size_log,
                chunk_size,
                i == datas.len() - 1,
                extra_dist,
            )
            &&& whole_piece(datas[i], results[i]->Ok_0@, chunk_size)
        }
}

/// The bytes of results.
pub open spec fn bytes_of_all(results: Seq<Result<Vec<u8>, String>>) -> Seq<Seq<u8>> {
    results.map_values(|r: Result<Vec<u8>, String>| r->Ok_0@)
}

/// Pieces compressed through one state form one member: decompressing all they
/// wrote gives all their data.
pub proof fn lemma_pieces_decompress(
    method: u8,
    dict_size_log: u8,
    chunk_size: int,
    states: Seq<Carried>,
    datas: Seq<Seq<u8>>,
    results: Seq<Result<Vec<u8>, String>>,
)
    requires
        method <= COMP_METHOD_BEST,
        pieces_compressed(method, dict_size_log, chunk_size, states, datas, results, false),
        joined(datas).len() <= u64::MAX,
        standalone_window(dict_size_log, None, joined(datas).len() as u64) is Ok,
    ensures
        method == COMP_METHOD_STORE ==> joined(bytes_of_all(results)) == joined(datas),
        method != COMP_METHOD_STORE ==> of_size(
            standalone_result(
                joined(bytes_of_all(results)),
                joined(datas).len() as u64,
                dict_size_log,
                None,
                false,
            ),
            joined(datas).len() as u64,
        ) == Ok::<Seq<u8>, CodecError>(joined(datas)),
{
    let packeds = bytes_of_all(results);
    if method == COMP_METHOD_STORE {
        assert forall|i: int| 0 <= i < datas.len() implies #[trigger] packeds[i] == datas[i] by {}
        assert(packeds =~= datas);
    } else {
        let window = dictionary_size(dict_size_log) as int;
        let knowns = states.map_values(|c: Carried| c.known());
        assert forall|i: int| #![trigger datas[i]] 0 <= i < datas.len() implies encodes(
            knowns[i],
            datas[i],
            packeds[i],
            knowns[i + 1],
            window,
            true && i == datas.len() - 1,
            false,
        ) by {
            let near = reach_of(window, knowns[i], datas[i].len() as int);
            lemma_encodes_wider(
                knowns[i],
                datas[i],
                packeds[i],
                knowns[i + 1],
                near,
                window,
                i == datas.len() - 1,
                false,
            );
        }
        lemma_calls_form_member(knowns, datas, packeds, window, true, false);
        assert(nothing_carried().known() == nothing_known());
        lemma_dictionary_decodes(
            joined(datas),
            joined(packeds),
            knowns.last(),
            dict_size_log,
            true,
            false,
        );
    }
}

/// What keeps to a window keeps to a wider one.
proof fn lemma_encodes_wider(
    s0: Known,
    data: Seq<u8>,
    packed: Seq<u8>,
    s1: Known,
    window: int,
    wider: int,
    last: bool,
    extra_dist: bool,
)
    requires
        encodes(s0, data, packed, s1, window, last, extra_dist),
        window <= wider,
    ensures
        encodes(s0, data, packed, s1, wider, last, extra_dist),
{
    let syms = choose|syms: Seq<Symbol>|
        #[trigger] stream_runs(packed, syms, last, extra_dist) && carries(
            s0,
            syms,
            data,
            s1,
            window,
        );
    assert(stream_runs(packed, syms, last, extra_dist) && carries(s0, syms, data, s1, wider));
}

/// Reports go forward through data of `len` bytes.
pub open spec fn goes_forward(log: Seq<(u64, u64)>, len: int) -> bool {
    &&& forall|i: int| 0 <= i < log.len() ==> (#[trigger] log[i]).1 == len && 0 < log[i].0 <= len
    &&& forall|i: int, j: int|
        0 <= i < j < log.len() ==> (#[trigger] log[i]).0 < (#[trigger] log[j]).0
}

proof fn lemma_reports_forward(len: int, chunk: int, k: nat)
    requires
        0 < len < u64::MAX,
        chunk > 0,
    ensures
        goes_forward(reports(len, chunk, k).0, len),
        k > 0 ==> 0 < chunk_end(len, chunk, k),
        chunk_end(len, chunk, k) <= len,
        reports(len, chunk, k).0.len() > 0 ==> reports(len, chunk, k).0.last().0 < reports(
            len,
            chunk,
            k,
        ).1,
    decreases k,
{
    if k > 0 {
        lemma_reports_forward(len, chunk, (k - 1) as nat);
        let (before, next) = reports(len, chunk, (k - 1) as nat);
        let e = chunk_end(len, chunk, k);
        if e >= next {
            let log = before.push((e as u64, len as u64));
            assert forall|i: int, j: int| 0 <= i < j < log.len() implies (#[trigger] log[i]).0 < (
            #[trigger] log[j]).0 by {
                if j == before.len() && i < before.len() - 1 {
                    assert(before[i].0 < before[before.len() - 1].0);
                }
            }
        }
    }
}

/// Progress goes forward: every report is of all the data there is, of at
/// least one byte done and at most all, and of more than the one before.
pub proof fn lemma_progress_goes_forward(
    log: Seq<(u64, u64)>,
    len: int,
    chunk: int,
    all: bool,
)
    requires
        0 < len < u64::MAX,
        chunk > 0,
        reported(Seq::empty(), log, len, chunk, all),
    ensures
        goes_forward(log, len),
{
    let k = choose|k: nat|
        log == Seq::<(u64, u64)>::empty() + (#[trigger] reports(len, chunk, k)).0;
    lemma_reports_forward(len, chunk, k);
    assert(log =~= reports(len, chunk, k).0);
}

/// Encode raw data into RAR5/RAR7 compressed format. `extra_dist` selects
/// the RAR7 (v70) 80-entry distance code table (RAR5 uses 64).
pub fn encode(data: &[u8], method: u8, dict_size_log: u8, extra_dist: bool) -> (r: Vec<u8>)
    requires
        dict_size_log <= 46,
    ensures
        decodes_back(r@, data@, extra_dist) || outgrown(
            nothing_known(),
            data@,
            r@,
            reach_of(dictionary_size(dict_size_log) as int, nothing_known(), data@.len() as int),
            extra_dist,
        ),
        is_encoding(r@, data@, method, dict_size_log, extra_dist),
        data@.len() <= MAX_BLOCK_SIZE ==> decodes_back(r@, data@, extra_dist),
{
    encode_with_progress(data, method, dict_size_log, None, extra_dist)
}

/// Encode raw data into RAR5/RAR7 compressed format, reporting match-finder
/// progress as `(bytes_processed, total_bytes)`.
pub fn encode_with_progress(
    data: &[u8],
    method: u8,
    dict_size_log: u8,
    progress: Option<&mut Vec<(u64, u64)>>,
    extra_dist: bool,
) -> (r: Vec<u8>)
    requires
        dict_size_log <= 46,
    ensures
        decodes_back(r@, data@, extra_dist) || outgrown(
            nothing_known(),
            data@,
            r@,
            reach_of(dictionary_size(dict_size_log) as int, nothing_known(), data@.len() as int),
            extra_dist,
        ),
        is_encoding(r@, data@, method, dict_size_log, extra_dist),
        data@.len() <= MAX_BLOCK_SIZE ==> decodes_back(r@, data@, extra_dist),
        match progress {
            Some(p) => if data@.len() == 0 {
                final(p)@ == p@
            } else {
                reported(
                    p@,
                    final(p)@,
                    data@.len() as int,
                    DEFAULT_CHUNK_SIZE as int,
                    r@.len() <= data@.len(),
                )
            },
            None => true,
        },
{
    let res = encode_chunked(
        data,
        method,
        dict_size_log,
        DEFAULT_CHUNK_SIZE,
        None,
        true,
        progress,
        extra_dist,
    );
    match res {
        Ok(out) => {
            proof {
                let window = reach_of(
                    dictionary_size(dict_size_log) as int,
                    nothing_known(),
                    data@.len() as int,
                );
                let c1 = choose|c1: Carried| #[trigger]
                    level_encodes(
                        nothing_carried(),
                        data@,
                        out@,
                        c1,
                        method,
                        dict_size_log,
                        at_least_one(DEFAULT_CHUNK_SIZE),
                        true,
                        extra_dist,
                    );
                let k1 = c1.known();
                assert(nothing_carried().known() == nothing_known());
                if encodes(nothing_known(), data@, out@, k1, window, true, extra_dist) {
                    lemma_encodes_decodes_back(data@, out@, k1, window, true, extra_dist);
                }
            }
            out
        },
        Err(_) => Vec::new(),
    }
}

} // verus!
