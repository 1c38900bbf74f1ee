//! What is written as a volume is what a scan of the volume finds.

use crate::bytes::{le_bytes, lemma_byte_ranges, lemma_le_bytes_len, lemma_le_roundtrip};
use crate::detect::RAR4_SIGNATURE;
use crate::engine::entry::ArchiveEntry;
use crate::error::{RarError, RarResult};
use crate::rar4::envelope::{envelope_fault, is_block, plain_header, Rar4Block};
use crate::rar4::headers::{
    checked_block, endarc_single_body, field, lemma_file_header_roundtrip, lemma_file_header_sound,
    main_body, readable, zeros, FileHeaderParams,
};
use crate::rar4::names::name_of;
use crate::rar4::scan::{
    ends, is_block_of, is_walk, leads, scan_step, scans, ScanPlace, ScanProgress, ScanView,
};
use crate::rar4::{
    ENDARC_HEAD, FHD_SOLID, FHD_SPLIT_AFTER, FHD_SPLIT_BEFORE, LONG_BLOCK, MAIN_HEAD,
    MHD_NEWNUMBERING, MHD_PASSWORD, MHD_SOLID,
};
use crate::shared::checksum::crc16_of;
use vstd::prelude::*;

verus! {

/// The first `k` members as they are written, each header followed by its
/// data.
pub open spec fn blocks_bytes(
    headers: Seq<FileHeaderParams<'_>>,
    data: Seq<Seq<u8>>,
    k: int,
) -> Seq<u8>
    decreases k,
{
    if k <= 0 {
        Seq::empty()
    } else {
        blocks_bytes(headers, data, k - 1) + checked_block(headers[k - 1].body()) + data[k - 1]
    }
}

/// A volume: the signature, the main header, members, and the end-of-archive
/// block.
pub open spec fn volume_bytes(
    flags: u16,
    headers: Seq<FileHeaderParams<'_>>,
    data: Seq<Seq<u8>>,
) -> Seq<u8> {
    RAR4_SIGNATURE@ + checked_block(main_body(flags)) + blocks_bytes(
        headers,
        data,
        headers.len() as int,
    ) + checked_block(endarc_single_body())
}

/// Headers of whole members that can be read back, and fit their data.
pub open spec fn members_fit(headers: Seq<FileHeaderParams<'_>>, data: Seq<Seq<u8>>) -> bool {
    &&& headers.len() == data.len()
    &&& forall|i: int|
        0 <= i < headers.len() ==> {
            &&& readable(#[trigger] headers[i])
            &&& headers[i].packed_size == data[i].len()
            &&& headers[i].flags & FHD_SPLIT_BEFORE == 0
            &&& headers[i].flags & FHD_SPLIT_AFTER == 0
        }
}

/// The entry says what the header said, and its chunk is where the data is.
pub open spec fn is_read_back(
    e: ArchiveEntry,
    p: FileHeaderParams<'_>,
    data: Seq<u8>,
    volume: Seq<u8>,
) -> bool {
    &&& e.header.name@ == name_of(p.name@, p.head_flags())
    &&& e.header.packed_size == p.packed_size
    &&& e.header.unpacked_size == p.unpacked_size
    &&& e.header.host_os == p.host_os
    &&& e.header.crc32_val == Some(p.file_crc)
    &&& e.header.unp_ver == p.unp_ver
    &&& e.header.comp_method == (p.method - 0x30) % 256
    &&& e.header.attributes == p.attr
    &&& e.header.comp_dict_size == p.window_bits
    &&& e.header.comp_solid == (p.flags & FHD_SOLID != 0)
    &&& e.header.extra_data@ == p.ext_bytes()
    &&& match (e.header.salt, p.salt) {
        (Some(a), Some(b)) => a@ == b@,
        (None, None) => true,
        _ => false,
    }
    &&& e.chunks@.len() == 1
    &&& ({
        let c = e.chunks@[0];
        &&& c.packed_size == data.len()
        &&& c.is_final
        &&& c.data_offset + data.len() <= volume.len()
        &&& volume.subrange(c.data_offset as int, c.data_offset + data.len()) == data
    })
}

/// Earlier members stand where they stood before later ones came.
proof fn lemma_blocks_prefix(
    headers: Seq<FileHeaderParams<'_>>,
    data: Seq<Seq<u8>>,
    k: int,
    n: int,
)
    requires
        0 <= k <= n,
    ensures
        blocks_bytes(headers, data, k).len() <= blocks_bytes(headers, data, n).len(),
        blocks_bytes(headers, data, n).take(blocks_bytes(headers, data, k).len() as int)
            == blocks_bytes(headers, data, k),
    decreases n,
{
    let small = blocks_bytes(headers, data, k);
    if k < n {
        lemma_blocks_prefix(headers, data, k, n - 1);
        let mid = blocks_bytes(headers, data, n - 1);
        let big = blocks_bytes(headers, data, n);
        assert(big.take(small.len() as int) =~= mid.take(small.len() as int));
    } else {
        assert(small.take(small.len() as int) =~= small);
    }
}

/// A whole header at a place of a volume is the header read there.
proof fn lemma_header_at(volume: Seq<u8>, at: int, h: Seq<u8>)
    requires
        0 <= at,
        at + h.len() <= volume.len(),
        volume.subrange(at, at + h.len()) == h,
        h.len() >= 7,
        field(h, 5, 2) == h.len(),
    ensures
        plain_header(volume, at) == Ok::<Option<Seq<u8>>, Seq<char>>(Some(h)),
{
    assert(volume.subrange(at + 5, at + 7) =~= h.subrange(5, 7));
}

/// The main header is a sound block without data.
proof fn lemma_main_sound(flags: u16)
    requires
        flags & LONG_BLOCK == 0,
    ensures
        ({
            let h = checked_block(main_body(flags));
            &&& h.len() == 13
            &&& h[2] == MAIN_HEAD
            &&& field(h, 3, 2) == flags
            &&& field(h, 5, 2) == 13
            &&& envelope_fault(h, true) is None
        }),
{
    let body = main_body(flags);
    let h = checked_block(body);
    lemma_byte_ranges();
    lemma_le_bytes_len(crc16_of(body) as nat, 2);
    lemma_le_bytes_len(flags as nat, 2);
    lemma_le_bytes_len(13, 2);
    lemma_le_roundtrip(crc16_of(body) as nat, 2);
    lemma_le_roundtrip(flags as nat, 2);
    lemma_le_roundtrip(13, 2);
    assert(zeros(6).len() == 6);
    assert(h.subrange(0, 2) =~= le_bytes(crc16_of(body) as nat, 2));
    assert(h.subrange(3, 5) =~= le_bytes(flags as nat, 2));
    assert(h.subrange(5, 7) =~= le_bytes(13, 2));
    assert(h.subrange(2, 13) =~= body);
}

/// The end-of-archive block is sound.
proof fn lemma_endarc_sound()
    ensures
        ({
            let h = checked_block(endarc_single_body());
            &&& h.len() == 7
            &&& h[2] == ENDARC_HEAD
            &&& field(h, 3, 2) == 0x4000
            &&& field(h, 5, 2) == 7
            &&& envelope_fault(h, true) is None
        }),
{
    let body = endarc_single_body();
    let h = checked_block(body);
    lemma_byte_ranges();
    lemma_le_bytes_len(crc16_of(body) as nat, 2);
    lemma_le_bytes_len(0x4000, 2);
    lemma_le_bytes_len(7, 2);
    lemma_le_roundtrip(crc16_of(body) as nat, 2);
    lemma_le_roundtrip(0x4000, 2);
    lemma_le_roundtrip(7, 2);
    assert(h.subrange(0, 2) =~= le_bytes(crc16_of(body) as nat, 2));
    assert(h.subrange(3, 5) =~= le_bytes(0x4000, 2));
    assert(h.subrange(5, 7) =~= le_bytes(7, 2));
    assert(h.subrange(2, 7) =~= body);
    assert(0x4000u16 & 0x8000u16 == 0) by (bit_vector);
}

/// Where the block of member `k` starts; behind the last member the
/// end-of-archive block.
pub open spec fn block_start(
    headers: Seq<FileHeaderParams<'_>>,
    data: Seq<Seq<u8>>,
    k: int,
) -> int {
    20 + blocks_bytes(headers, data, k).len() as int
}

/// The headers and the data of a volume, at their places.
proof fn lemma_places(flags: u16, headers: Seq<FileHeaderParams<'_>>, data: Seq<Seq<u8>>, k: int)
    requires
        members_fit(headers, data),
        flags & LONG_BLOCK == 0,
        0 <= k <= headers.len(),
    ensures
        ({
            let v = volume_bytes(flags, headers, data);
            let at = block_start(headers, data, k);
            &&& plain_header(v, 7) == Ok::<Option<Seq<u8>>, Seq<char>>(
                Some(checked_block(main_body(flags))),
            )
            &&& k < headers.len() ==> {
                let h = checked_block(headers[k].body());
                &&& plain_header(v, at) == Ok::<Option<Seq<u8>>, Seq<char>>(Some(h))
                &&& at + h.len() + data[k].len() == block_start(headers, data, k + 1)
                &&& at + h.len() + data[k].len() <= v.len()
                &&& v.subrange(at + h.len(), at + h.len() + data[k].len()) == data[k]
            }
            &&& k == headers.len() ==> plain_header(v, at) == Ok::<Option<Seq<u8>>, Seq<char>>(
                Some(checked_block(endarc_single_body())),
            )
        }),
{
    let v = volume_bytes(flags, headers, data);
    let n = headers.len() as int;
    let at = block_start(headers, data, k);
    let main = checked_block(main_body(flags));
    let all = blocks_bytes(headers, data, n);
    let end = checked_block(endarc_single_body());
    lemma_main_sound(flags);
    lemma_endarc_sound();
    assert(RAR4_SIGNATURE@.len() == 7);
    assert(v.subrange(7, 20) =~= main);
    lemma_header_at(v, 7, main);
    assert(v.subrange(20, 20int + all.len()) =~= all);
    if k < n {
        let p = headers[k];
        let h = checked_block(p.body());
        lemma_file_header_sound(p);
        lemma_blocks_prefix(headers, data, k, n);
        lemma_blocks_prefix(headers, data, k + 1, n);
        let before = blocks_bytes(headers, data, k);
        let behind = blocks_bytes(headers, data, k + 1);
        assert(behind =~= before + h + data[k]);
        assert(v.subrange(20, 20int + behind.len()) =~= all.take(behind.len() as int));
        assert(v.subrange(20, 20int + behind.len()) == behind);
        assert(v.subrange(at, at + h.len()) =~= behind.subrange(
            before.len() as int,
            before.len() as int + h.len(),
        ));
        assert(v.subrange(at, at + h.len()) =~= h);
        assert(v.subrange(at + h.len(), at + h.len() + data[k].len()) =~= behind.subrange(
            before.len() as int + h.len(),
            behind.len() as int,
        ));
        assert(v.subrange(at + h.len(), at + h.len() + data[k].len()) =~= data[k]);
        lemma_header_at(v, at, h);
    } else {
        assert(v.subrange(at, at + 7) =~= end);
        lemma_header_at(v, at, end);
    }
}

/// What a scan has found in front of the block of member `k`.
pub open spec fn found_before(
    s: ScanPlace,
    flags: u16,
    headers: Seq<FileHeaderParams<'_>>,
    data: Seq<Seq<u8>>,
    k: int,
) -> bool {
    &&& s.at == block_start(headers, data, k)
    &&& !s.encrypted
    &&& s.view.open is None
    &&& s.view.solid == (flags & MHD_SOLID != 0)
    &&& s.view.new_numbering == (flags & MHD_NEWNUMBERING != 0)
    &&& s.view.out.len() == k
    &&& forall|i: int|
        0 <= i < k ==> is_read_back(
            #[trigger] s.view.out[i],
            headers[i],
            data[i],
            volume_bytes(flags, headers, data),
        )
}

/// Nothing found yet.
pub open spec fn nothing_found() -> ScanView {
    ScanView { open: None, solid: false, new_numbering: false, out: Seq::empty() }
}

/// A walk over a volume stops at every block in turn.
#[verifier::rlimit(100)]
#[verifier::spinoff_prover]
proof fn lemma_walk_place(
    flags: u16,
    headers: Seq<FileHeaderParams<'_>>,
    data: Seq<Seq<u8>>,
    has_password: bool,
    walk: Seq<ScanPlace>,
    k: int,
)
    requires
        members_fit(headers, data),
        flags & LONG_BLOCK == 0,
        flags & MHD_PASSWORD == 0,
        is_walk(volume_bytes(flags, headers, data), 0, has_password, walk),
        walk[0] == (ScanPlace { view: nothing_found(), at: 7, encrypted: false }),
        0 <= k <= headers.len(),
        k + 1 < walk.len(),
    ensures
        found_before(walk[k + 1], flags, headers, data, k),
    decreases k,
{
    let v = volume_bytes(flags, headers, data);
    let s = walk[k];
    let t = walk[k + 1];
    assert(leads(v, 0, has_password, s, t));
    if k == 0 {
        lemma_places(flags, headers, data, 0);
        lemma_main_sound(flags);
        assert(t.view == (ScanView {
            solid: flags & MHD_SOLID != 0,
            new_numbering: flags & MHD_NEWNUMBERING != 0,
            ..nothing_found()
        }));
    } else {
        lemma_walk_place(flags, headers, data, has_password, walk, k - 1);
        lemma_places(flags, headers, data, k - 1);
        let p = headers[k - 1];
        let h = checked_block(p.body());
        lemma_file_header_sound(p);
        let b = choose|b: Rar4Block| #[trigger]
            is_block_of(v, s.at, b) && !s.encrypted && t.at == b.offset + b.total_size
                && scan_step(
                s.view,
                t.view,
                b,
                0,
                false,
                has_password,
                Ok(crate::rar4::scan::AfterBlock::Next { encrypted: t.encrypted }),
            );
        assert(is_block(b, s.at, h, h.len() as int));
        let (e, merged) = choose|
            e: ArchiveEntry,
            merged: Result<Option<ArchiveEntry>, crate::shared::split::SplitMergeError>,
        |
            {
                &&& #[trigger] crate::rar4::scan::is_scanned(e, b, 0)
                &&& #[trigger] crate::rar4::scan::is_pushed(s.view, t.view, b, e, merged)
                &&& match merged {
                    Ok(Some(done)) => t.view.out == s.view.out.push(done),
                    Ok(None) => t.view.out == s.view.out,
                    Err(_) => false,
                }
            };
        lemma_file_header_roundtrip(p, e.header, b.head_crc, b.header_end);
        assert(t.view.out == s.view.out.push(e));
        assert(is_read_back(e, p, data[k - 1], v));
        assert forall|i: int| 0 <= i < k implies is_read_back(
            #[trigger] t.view.out[i],
            headers[i],
            data[i],
            v,
        ) by {
            if i < k - 1 {
                assert(t.view.out[i] == s.view.out[i]);
            }
        }
    }
}

/// A volume written is the volume scanned: the signature, a main header
/// without header encryption, whole members and the end-of-archive block scan
/// to one entry per member, in order, each with what its header said and a
/// chunk that holds its data.
#[verifier::rlimit(100)]
#[verifier::spinoff_prover]
pub proof fn lemma_volume_roundtrip(
    flags: u16,
    headers: Seq<FileHeaderParams<'_>>,
    data: Seq<Seq<u8>>,
    has_password: bool,
    after: ScanView,
    r: RarResult<ScanProgress>,
)
    requires
        members_fit(headers, data),
        flags & LONG_BLOCK == 0,
        flags & MHD_PASSWORD == 0,
        scans(
            volume_bytes(flags, headers, data),
            7,
            0,
            has_password,
            nothing_found(),
            after,
            r,
        ),
    ensures
        r == Ok::<ScanProgress, RarError>(ScanProgress::Done),
        after.open is None,
        after.solid == (flags & MHD_SOLID != 0),
        after.new_numbering == (flags & MHD_NEWNUMBERING != 0),
        after.out.len() == headers.len(),
        forall|i: int|
            0 <= i < headers.len() ==> is_read_back(
                #[trigger] after.out[i],
                headers[i],
                data[i],
                volume_bytes(flags, headers, data),
            ),
{
    let v = volume_bytes(flags, headers, data);
    let n = headers.len() as int;
    let walk = choose|walk: Seq<ScanPlace>| #[trigger]
        is_walk(v, 0, has_password, walk) && walk[0] == (ScanPlace {
            view: nothing_found(),
            at: 7,
            encrypted: false,
        }) && ends(v, 0, has_password, walk.last(), after, r);
    let last = walk.len() - 1;
    lemma_places(flags, headers, data, 0);
    lemma_main_sound(flags);
    lemma_endarc_sound();
    lemma_places(flags, headers, data, n);
    if last > n + 1 {
        lemma_walk_place(flags, headers, data, has_password, walk, n);
        assert(leads(v, 0, has_password, walk[n + 1], walk[n + 2]));
        assert(false);
    }
    if last >= 1 {
        let k = last - 1;
        lemma_walk_place(flags, headers, data, has_password, walk, k);
        if k < n {
            lemma_places(flags, headers, data, k);
            lemma_file_header_sound(headers[k]);
            assert(false);
        }
    }
}

} // verus!
