//! The extended-time area of a file header: sub-second precision and the odd
//! second that a DOS time field drops.
//!
//! The area opens with a 16-bit word of four nibbles, one per time from the
//! top: modification, creation, access, archival. A nibble is a present bit
//! (8), an odd-second bit (4) and a count of up to three sub-second bytes.

use crate::bytes::{le_value, read_u16};
use crate::version::{spec_codec, LegacyCodec};
use vstd::prelude::*;

verus! {

/// Nibble `index` of the word, from the top.
pub open spec fn nibble(word: int, index: int) -> int {
    if index == 0 {
        word / 0x1000
    } else if index == 1 {
        (word / 0x100) % 16
    } else if index == 2 {
        (word / 0x10) % 16
    } else {
        word % 16
    }
}

/// Bytes that one time takes: none when absent, its sub-second bytes, and a
/// time field of its own for creation and access.
pub open spec fn time_len(word: int, index: int) -> int {
    let n = nibble(word, index);
    if n < 8 {
        0
    } else if index == 1 || index == 2 {
        4 + n % 4
    } else {
        n % 4
    }
}

/// Length of an area, if its word is there.
pub open spec fn area_len(ext: Seq<u8>) -> Option<int> {
    if ext.len() < 2 {
        None
    } else {
        let word = le_value(ext.subrange(0, 2)) as int;
        Some(2 + time_len(word, 0) + time_len(word, 1) + time_len(word, 2) + time_len(word, 3))
    }
}

/// Where an area that starts at `start` ends, at the header's end at the
/// latest. Without its word it is empty.
pub open spec fn area_end(header: Seq<u8>, start: int) -> int {
    match area_len(header.skip(start)) {
        Some(n) => if start + n <= header.len() {
            start + n
        } else {
            header.len() as int
        },
        None => start,
    }
}

/// Sub-second bytes as a number of 100-nanosecond ticks: three bytes, least
/// significant first, of which the first may be left out.
pub open spec fn ticks_of(bytes: Seq<u8>) -> int
    decreases bytes.len(),
{
    if bytes.len() == 0 {
        0
    } else {
        bytes.last() as int * 0x1_0000 + ticks_of(bytes.drop_last()) / 256
    }
}

/// What an area says of the modification time: whether to add a second, and
/// the nanoseconds.
pub open spec fn refinement(ext: Seq<u8>) -> (bool, Option<int>) {
    if ext.len() < 2 {
        (false, None)
    } else {
        let n = nibble(le_value(ext.subrange(0, 2)) as int, 0);
        if n < 8 {
            (false, None)
        } else {
            let add = (n / 4) % 2 == 1;
            if 2 + n % 4 > ext.len() {
                (add, None)
            } else {
                (add, Some(100 * ticks_of(ext.subrange(2, 2 + n % 4))))
            }
        }
    }
}

/// The area of a modification time in civil seconds and nanoseconds; none
/// when there is nothing to refine.
pub open spec fn area_for(civil: int, ns: int) -> Option<Seq<u8>> {
    let add = civil % 2 == 1;
    let ticks = ns / 100;
    if ticks == 0 && !add {
        None
    } else {
        let n = 8 + (if add {
            4int
        } else {
            0int
        }) + (if ticks == 0 {
            0int
        } else {
            3int
        });
        let head = seq![0u8, (n * 16) as u8];
        if ticks == 0 {
            Some(head)
        } else {
            Some(
                head + seq![
                    (ticks % 256) as u8,
                    ((ticks / 256) % 256) as u8,
                    ((ticks / 0x1_0000) % 256) as u8,
                ],
            )
        }
    }
}

/// An area written is the refinement read: the odd second, and the
/// nanoseconds in whole ticks.
pub proof fn lemma_area_roundtrip(civil: int, ns: int)
    requires
        0 <= civil,
        0 <= ns < 1_000_000_000,
        area_for(civil, ns) is Some,
    ensures
        refinement(area_for(civil, ns)->Some_0) == (civil % 2 == 1, Some(ns / 100 * 100)),
        area_len(area_for(civil, ns)->Some_0) == Some(area_for(civil, ns)->Some_0.len() as int),
{
    let ext = area_for(civil, ns)->Some_0;
    let ticks = ns / 100;
    let w = ext.subrange(0, 2);
    assert(w.drop_first().drop_first() =~= Seq::<u8>::empty());
    assert(le_value(w) == w[0] + 256 * le_value(w.drop_first()));
    assert(le_value(w.drop_first()) == w[1] + 256 * le_value(w.drop_first().drop_first()));
    assert(le_value(w) == 256 * ext[1]);
    if ticks != 0 {
        let b = ext.subrange(2, 5);
        assert(b.drop_last() =~= seq![b[0], b[1]]);
        assert(b.drop_last().drop_last() =~= seq![b[0]]);
        assert(b.drop_last().drop_last().drop_last() =~= Seq::<u8>::empty());
        assert(seq![b[0]].drop_last() =~= Seq::<u8>::empty());
        assert(ticks_of(seq![b[0]].drop_last()) == 0);
        assert(ticks_of(seq![b[0]]) == b[0] as int * 0x1_0000 + 0int / 256);
        assert(seq![b[0], b[1]].drop_last() =~= seq![b[0]]);
        assert(ticks_of(seq![b[0], b[1]]) == b[1] * 0x1_0000 + b[0] * 0x100);
        assert(ticks_of(b) == b[2] * 0x1_0000 + b[1] * 0x100 + b[0]);
    } else {
        assert(ext.subrange(2, 2) =~= Seq::<u8>::empty());
    }
}

fn time_len_of(word: u16, index: u8) -> (r: usize)
    requires
        index < 4,
    ensures
        r == time_len(word as int, index as int),
        r <= 7,
{
    let n: u16 = match index {
        0 => word / 0x1000,
        1 => (word / 0x100) % 16,
        2 => (word / 0x10) % 16,
        _ => word % 16,
    };
    if n < 8 {
        0
    } else if index == 1 || index == 2 {
        4 + (n % 4) as usize
    } else {
        (n % 4) as usize
    }
}

/// Length of an extended-time area, if its word is there.
pub fn ext_time_area_len(ext: &[u8]) -> (r: Option<usize>)
    ensures
        match (r, area_len(ext@)) {
            (Some(a), Some(b)) => a == b && a <= 30,
            (None, None) => true,
            _ => false,
        },
{
    if ext.len() < 2 {
        return None;
    }
    let word = read_u16(ext, 0);
    Some(
        2 + time_len_of(word, 0) + time_len_of(word, 1) + time_len_of(word, 2) + time_len_of(
            word,
            3,
        ),
    )
}

/// Where the extended-time area that starts at `start` ends.
pub fn ext_time_area_end(header: &[u8], start: usize) -> (r: usize)
    requires
        start <= header@.len(),
    ensures
        r == area_end(header@, start as int),
        start <= r <= header@.len(),
{
    let total = header.len();
    let tail = vstd::slice::slice_subrange(header, start, total);
    assert(tail@ =~= header@.skip(start as int));
    match ext_time_area_len(tail) {
        Some(n) => if n <= total - start {
            start + n
        } else {
            total
        },
        None => start,
    }
}

/// What an extended-time area says of the modification time.
pub fn extract_mtime_refinement(ext_time: &[u8]) -> (r: (bool, Option<u32>))
    ensures
        r.0 == refinement(ext_time@).0,
        match (r.1, refinement(ext_time@).1) {
            (Some(a), Some(b)) => a == b,
            (None, None) => true,
            _ => false,
        },
{
    if ext_time.len() < 2 {
        return (false, None);
    }
    let word = read_u16(ext_time, 0);
    let n = word / 0x1000;
    if n < 8 {
        return (false, None);
    }
    let add = (n / 4) % 2 == 1;
    let count = (n % 4) as usize;
    if ext_time.len() < 2 + count {
        return (add, None);
    }
    let mut ticks: u32 = 0;
    let mut i: usize = 0;
    let ghost bytes = ext_time@.subrange(2, 2 + count as int);
    while i < count
        invariant
            i <= count <= 3,
            2 + count <= ext_time@.len(),
            bytes == ext_time@.subrange(2, 2 + count as int),
            ticks == ticks_of(bytes.take(i as int)),
            ticks < 0x100_0000,
        decreases count - i,
    {
        proof {
            assert(bytes.take(i + 1).drop_last() =~= bytes.take(i as int));
            assert(bytes.take(i + 1).last() == ext_time@[2 + i]);
        }
        ticks = ext_time[2 + i] as u32 * 0x1_0000 + ticks / 256;
        i += 1;
    }
    assert(bytes.take(i as int) =~= bytes);
    (add, Some(ticks * 100))
}

/// The extended-time area of a modification time, in civil seconds and
/// nanoseconds.
pub fn build_ext_time(civil: u32, mtime_ns: Option<u32>) -> (r: Option<Vec<u8>>)
    ensures
        match (
            r,
            area_for(
                civil as int,
                match mtime_ns {
                    Some(n) => n as int,
                    None => 0,
                },
            ),
        ) {
            (Some(a), Some(b)) => a@ == b,
            (None, None) => true,
            _ => false,
        },
{
    let add = civil % 2 == 1;
    let ns: u32 = match mtime_ns {
        Some(n) => n,
        None => 0,
    };
    let ticks = ns / 100;
    if ticks == 0 && !add {
        return None;
    }
    let n: u8 = 8 + (if add {
        4u8
    } else {
        0u8
    }) + (if ticks == 0 {
        0u8
    } else {
        3u8
    });
    let mut ext: Vec<u8> = Vec::new();
    ext.push(0);
    ext.push(n * 16);
    if ticks != 0 {
        ext.push((ticks % 256) as u8);
        ext.push(((ticks / 256) % 256) as u8);
        ext.push(((ticks / 0x1_0000) % 256) as u8);
    }
    proof {
        assert(ext@ =~= area_for(civil as int, ns as int)->Some_0);
    }
    Some(ext)
}

/// The extended-time area of a member: only the newest member version has
/// one, older readers know none.
pub fn build_member_ext_time(unp_ver: u8, civil: u32, mtime_ns: Option<u32>) -> (r: Option<
    Vec<u8>,
>)
    ensures
        spec_codec(unp_ver) != Some(LegacyCodec::Rar29) ==> r is None,
        spec_codec(unp_ver) == Some(LegacyCodec::Rar29) ==> match (
            r,
            area_for(
                civil as int,
                match mtime_ns {
                    Some(n) => n as int,
                    None => 0,
                },
            ),
        ) {
            (Some(a), Some(b)) => a@ == b,
            (None, None) => true,
            _ => false,
        },
{
    match LegacyCodec::from_unp_ver(unp_ver) {
        Some(LegacyCodec::Rar29) => build_ext_time(civil, mtime_ns),
        _ => None,
    }
}

} // verus!
