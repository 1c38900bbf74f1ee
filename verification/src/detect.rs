//! Archive signature detection and SFX stub scanning.

use vstd::prelude::*;
use vstd::slice::slice_subrange;

verus! {

/// The RAR5 container signature.
pub const RAR5_SIGNATURE: [u8; 8] = [0x52, 0x61, 0x72, 0x21, 0x1a, 0x07, 0x01, 0x00];

/// The RAR 1.5 to 4.x container signature.
pub const RAR4_SIGNATURE: [u8; 7] = [0x52, 0x61, 0x72, 0x21, 0x1a, 0x07, 0x00];

/// The RAR 1.3/1.4 container signature, `RE~^`. Weak enough that the scan
/// trusts it only where no other signature is found.
pub const RAR13_SIGNATURE: [u8; 4] = [0x52, 0x45, 0x7e, 0x5e];

/// Bytes of an input that are scanned for a signature.
pub const SFX_SCAN_LIMIT: usize = 8 * 1024 * 1024;

/// The container family of a signature.
#[derive(Debug, Clone, Copy, PartialEq, Eq, Structural)]
pub enum ArchiveFamily {
    Rar13,
    Rar15To40,
    Rar50Plus,
}

/// `needle` stands in `haystack` at `at`.
pub open spec fn occurs_at(haystack: Seq<u8>, needle: Seq<u8>, at: int) -> bool {
    0 <= at && at + needle.len() <= haystack.len() && haystack.subrange(at, at + needle.len())
        == needle
}

/// The first place, from `at` on, where `needle` stands in `haystack`.
pub open spec fn first_from(haystack: Seq<u8>, needle: Seq<u8>, at: nat) -> Option<nat>
    decreases haystack.len() - at,
{
    if at + needle.len() > haystack.len() || at >= haystack.len() {
        None
    } else if occurs_at(haystack, needle, at as int) {
        Some(at)
    } else {
        first_from(haystack, needle, at + 1)
    }
}

/// The first place where `needle` stands in `haystack`; none for an empty
/// needle.
pub open spec fn first_place(haystack: Seq<u8>, needle: Seq<u8>) -> Option<nat> {
    if needle.len() == 0 {
        None
    } else {
        first_from(haystack, needle, 0)
    }
}

proof fn lemma_first_from(haystack: Seq<u8>, needle: Seq<u8>, at: nat)
    requires
        needle.len() > 0,
    ensures
        match first_from(haystack, needle, at) {
            Some(i) => at <= i && occurs_at(haystack, needle, i as int) && forall|j: int|
                at <= j < i ==> !occurs_at(haystack, needle, j),
            None => forall|j: int| at <= j ==> !occurs_at(haystack, needle, j),
        },
    decreases haystack.len() - at,
{
    if at + needle.len() > haystack.len() || at >= haystack.len() {
    } else if !occurs_at(haystack, needle, at as int) {
        lemma_first_from(haystack, needle, at + 1);
    }
}

/// The place found is one where the needle stands, none before it is, and
/// none is found only where there is none.
pub proof fn lemma_first_place(haystack: Seq<u8>, needle: Seq<u8>)
    requires
        needle.len() > 0,
    ensures
        match first_place(haystack, needle) {
            Some(i) => occurs_at(haystack, needle, i as int) && forall|j: int|
                0 <= j < i ==> !occurs_at(haystack, needle, j),
            None => forall|j: int| !occurs_at(haystack, needle, j),
        },
{
    lemma_first_from(haystack, needle, 0);
}

/// A place within the first `max_scan` bytes.
pub open spec fn within(place: Option<nat>, max_scan: nat) -> Option<nat> {
    match place {
        Some(i) => if i <= max_scan {
            Some(i)
        } else {
            None
        },
        None => None,
    }
}

/// The part of an input that is scanned: a signature may start anywhere in
/// the first `max_scan` bytes or just behind them.
pub open spec fn scanned(input: Seq<u8>, max_scan: nat) -> Seq<u8> {
    let limit = max_scan + 8;
    if input.len() <= limit {
        input
    } else {
        input.take(limit as int)
    }
}

/// The archive start: the first RAR4 or RAR5 signature, else the first RAR
/// 1.3 signature.
pub open spec fn archive_start(input: Seq<u8>, max_scan: nat) -> Option<(ArchiveFamily, nat)> {
    let window = scanned(input, max_scan);
    let five = within(first_place(window, RAR5_SIGNATURE@), max_scan);
    let four = within(first_place(window, RAR4_SIGNATURE@), max_scan);
    let old = within(first_place(window, RAR13_SIGNATURE@), max_scan);
    match (five, four) {
        (Some(a), Some(b)) => if a <= b {
            Some((ArchiveFamily::Rar50Plus, a))
        } else {
            Some((ArchiveFamily::Rar15To40, b))
        },
        (Some(a), None) => Some((ArchiveFamily::Rar50Plus, a)),
        (None, Some(b)) => Some((ArchiveFamily::Rar15To40, b)),
        (None, None) => match old {
            Some(i) => Some((ArchiveFamily::Rar13, i)),
            None => None,
        },
    }
}

/// A RAR 1.3 signature counts only where the scan finds no other: a strong
/// signature wins over an earlier weak one.
pub proof fn lemma_strong_signature_wins(input: Seq<u8>, max_scan: nat)
    ensures
        archive_start(input, max_scan) matches Some((f, i)) ==> i <= max_scan && (f
            == ArchiveFamily::Rar13 ==> forall|j: int|
            j <= max_scan ==> !occurs_at(scanned(input, max_scan), RAR5_SIGNATURE@, j)
                && !occurs_at(scanned(input, max_scan), RAR4_SIGNATURE@, j)),
{
    let window = scanned(input, max_scan);
    lemma_first_place(window, RAR5_SIGNATURE@);
    lemma_first_place(window, RAR4_SIGNATURE@);
}

fn equal_at(haystack: &[u8], needle: &[u8], at: usize) -> (r: bool)
    requires
        at + needle@.len() <= haystack@.len(),
    ensures
        r == occurs_at(haystack@, needle@, at as int),
{
    let n = needle.len();
    let total = haystack.len();
    let mut i: usize = 0;
    while i < n
        invariant
            i <= n,
            n == needle@.len(),
            total == haystack@.len(),
            at + n <= total,
            forall|j: int| 0 <= j < i ==> haystack@[at + j] == needle@[j],
        decreases n - i,
    {
        if haystack[at + i] != needle[i] {
            proof {
                let s = haystack@.subrange(at as int, at + n);
                assert(s[i as int] != needle@[i as int]);
            }
            return false;
        }
        i += 1;
    }
    assert(haystack@.subrange(at as int, at + n) =~= needle@);
    true
}

/// The first occurrence of `needle` in `haystack`.
pub fn find_bytes(haystack: &[u8], needle: &[u8]) -> (r: Option<usize>)
    ensures
        match (r, first_place(haystack@, needle@)) {
            (Some(i), Some(j)) => i == j,
            (None, None) => true,
            _ => false,
        },
{
    let n = needle.len();
    let total = haystack.len();
    if n == 0 || total < n {
        return None;
    }
    let mut at: usize = 0;
    while at <= total - n
        invariant
            n == needle@.len(),
            total == haystack@.len(),
            0 < n <= total,
            at <= total - n + 1,
            first_place(haystack@, needle@) == first_from(haystack@, needle@, at as nat),
        decreases total - at,
    {
        if equal_at(haystack, needle, at) {
            return Some(at);
        }
        at += 1;
    }
    None
}

fn found_within(window: &[u8], needle: &[u8], max_scan: usize) -> (r: Option<usize>)
    ensures
        match (r, within(first_place(window@, needle@), max_scan as nat)) {
            (Some(i), Some(j)) => i == j,
            (None, None) => true,
            _ => false,
        },
{
    match find_bytes(window, needle) {
        Some(i) => if i <= max_scan {
            Some(i)
        } else {
            None
        },
        None => None,
    }
}

/// Locate the archive start, plain or after an SFX stub, within the first
/// `max_scan` bytes.
pub fn find_archive_start(input: &[u8], max_scan: usize) -> (r: Option<(ArchiveFamily, usize)>)
    ensures
        match (r, archive_start(input@, max_scan as nat)) {
            (Some((f, i)), Some((g, j))) => f == g && i == j,
            (None, None) => true,
            _ => false,
        },
{
    let total = input.len();
    let window = if total < 8 || total - 8 <= max_scan {
        input
    } else {
        slice_subrange(input, 0, max_scan + 8)
    };
    proof {
        assert(window@ =~= scanned(input@, max_scan as nat));
    }
    let five = found_within(window, RAR5_SIGNATURE.as_slice(), max_scan);
    let four = found_within(window, RAR4_SIGNATURE.as_slice(), max_scan);
    match (five, four) {
        (Some(a), Some(b)) => if a <= b {
            Some((ArchiveFamily::Rar50Plus, a))
        } else {
            Some((ArchiveFamily::Rar15To40, b))
        },
        (Some(a), None) => Some((ArchiveFamily::Rar50Plus, a)),
        (None, Some(b)) => Some((ArchiveFamily::Rar15To40, b)),
        (None, None) => match found_within(window, RAR13_SIGNATURE.as_slice(), max_scan) {
            Some(i) => Some((ArchiveFamily::Rar13, i)),
            None => None,
        },
    }
}

/// Where the RAR5 archive begins inside an SFX file.
pub fn sfx_offset_of(input: &[u8]) -> (r: Option<usize>)
    ensures
        match (r, first_place(input@, RAR5_SIGNATURE@)) {
            (Some(i), Some(j)) => i == j,
            (None, None) => true,
            _ => false,
        },
{
    find_bytes(input, RAR5_SIGNATURE.as_slice())
}

} // verus!
