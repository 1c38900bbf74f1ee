//! Members split across volumes: continuation headers are merged into one
//! entry with one chunk per volume.

use crate::engine::entry::ArchiveEntry;
use crate::model::{DataChunk, FileHeader};
use vstd::prelude::*;
use vstd::string::*;

verus! {

/// Why fragments do not make a member.
#[derive(Debug)]
pub enum SplitMergeError {
    /// A continuation with no member to continue.
    ContinuationWithoutStart { fragment: String },
    /// A split member starts inside another.
    Overlapping { pending: String },
    /// A whole member stands inside a split one.
    Interrupted { pending: String },
    /// The last fragment is missing.
    MissingFinal { pending: String },
    /// The fragments' sizes do not fit 64 bits together.
    PackedSizeOverflow { pending: String },
}

/// Packed bytes of chunks.
pub open spec fn packed_total(chunks: Seq<DataChunk>) -> int
    decreases chunks.len(),
{
    if chunks.len() == 0 {
        0
    } else {
        packed_total(chunks.drop_last()) + chunks.last().packed_size
    }
}

/// Packed bytes of chunks on chunks.
pub proof fn lemma_packed_total_concat(a: Seq<DataChunk>, b: Seq<DataChunk>)
    ensures
        packed_total(a + b) == packed_total(a) + packed_total(b),
    decreases b.len(),
{
    if b.len() == 0 {
        assert(a + b =~= a);
    } else {
        assert((a + b).drop_last() =~= a + b.drop_last());
        lemma_packed_total_concat(a, b.drop_last());
    }
}

/// The entry's chunks hold what its header says.
pub open spec fn sizes_agree(e: ArchiveEntry) -> bool {
    packed_total(e.chunks@) == e.header.packed_size
}

/// `done` is the member `pending` with the fragment `entry` behind it. The
/// last fragment's checksum is the member's.
pub open spec fn is_merged(
    done: ArchiveEntry,
    pending: ArchiveEntry,
    entry: ArchiveEntry,
    last: bool,
) -> bool {
    &&& done.chunks@ == pending.chunks@ + entry.chunks@
    &&& done.header == (FileHeader {
        packed_size: (pending.header.packed_size + entry.header.packed_size) as u64,
        crc32_val: if last {
            entry.header.crc32_val
        } else {
            pending.header.crc32_val
        },
        ..pending.header
    })
}

/// Fragments on their way to becoming a member.
pub struct SplitMerge {
    pending: Option<ArchiveEntry>,
}

impl SplitMerge {
    /// The member whose last fragment has not come yet.
    pub closed spec fn open_member(self) -> Option<ArchiveEntry> {
        self.pending
    }

    /// No member is open.
    pub fn new() -> (r: SplitMerge)
        ensures
            r.open_member() is None,
    {
        SplitMerge { pending: None }
    }

    /// What pushing a fragment comes to.
    pub open spec fn pushed(
        before: Option<ArchiveEntry>,
        after: Option<ArchiveEntry>,
        entry: ArchiveEntry,
        split_before: bool,
        split_after: bool,
        r: Result<Option<ArchiveEntry>, SplitMergeError>,
    ) -> bool {
        match before {
            None => if split_before {
                &&& r matches Err(SplitMergeError::ContinuationWithoutStart { fragment })
                    && fragment@ == entry.header.name@
                &&& after is None
            } else if split_after {
                r matches Ok(None) && after == Some(entry)
            } else {
                r == Ok::<Option<ArchiveEntry>, SplitMergeError>(Some(entry)) && after is None
            },
            Some(p) => if !split_before {
                &&& after == before
                &&& if split_after {
                    r matches Err(SplitMergeError::Overlapping { pending }) && pending@
                        == p.header.name@
                } else {
                    r matches Err(SplitMergeError::Interrupted { pending }) && pending@
                        == p.header.name@
                }
            } else if p.header.packed_size + entry.header.packed_size > u64::MAX {
                &&& r matches Err(SplitMergeError::PackedSizeOverflow { pending }) && pending@
                    == p.header.name@
                &&& after == before
            } else if split_after {
                &&& r matches Ok(None)
                &&& after matches Some(q) && is_merged(q, p, entry, false)
            } else {
                &&& r matches Ok(Some(q)) && is_merged(q, p, entry, true)
                &&& after is None
            },
        }
    }

    /// Take the next fragment in archive order; a member comes back when its
    /// last fragment has come. Where the sizes of what goes in agree with
    /// their chunks, so do those of what comes out.
    pub fn push(&mut self, entry: ArchiveEntry, split_before: bool, split_after: bool) -> (r: Result<
        Option<ArchiveEntry>,
        SplitMergeError,
    >)
        ensures
            SplitMerge::pushed(
                old(self).open_member(),
                final(self).open_member(),
                entry,
                split_before,
                split_after,
                r,
            ),
            sizes_agree(entry) && (old(self).open_member() matches Some(p) ==> sizes_agree(p)) ==> {
                &&& r matches Ok(Some(q)) ==> sizes_agree(q)
                &&& final(self).open_member() matches Some(q) ==> sizes_agree(q)
            },
    {
        let taken = self.pending.take();
        match taken {
            None => {
                if split_before {
                    return Err(
                        SplitMergeError::ContinuationWithoutStart {
                            fragment: entry.header.name.clone(),
                        },
                    );
                }
                if split_after {
                    self.pending = Some(entry);
                    return Ok(None);
                }
                Ok(Some(entry))
            },
            Some(p) => {
                let name = p.header.name.clone();
                if !split_before {
                    self.pending = Some(p);
                    if split_after {
                        return Err(SplitMergeError::Overlapping { pending: name });
                    }
                    return Err(SplitMergeError::Interrupted { pending: name });
                }
                if entry.header.packed_size > u64::MAX - p.header.packed_size {
                    self.pending = Some(p);
                    return Err(SplitMergeError::PackedSizeOverflow { pending: name });
                }
                let ghost before = p;
                proof {
                    lemma_packed_total_concat(p.chunks@, entry.chunks@);
                }
                let mut done = p;
                let mut chunks = entry.chunks;
                let ghost more = chunks@;
                done.chunks.append(&mut chunks);
                done.header.packed_size = done.header.packed_size + entry.header.packed_size;
                assert(done.chunks@ =~= before.chunks@ + more);
                if split_after {
                    self.pending = Some(done);
                    return Ok(None);
                }
                done.header.crc32_val = entry.header.crc32_val;
                Ok(Some(done))
            },
        }
    }

    /// Give the open member a comment, if it has none. Without an open member
    /// the comment comes back.
    pub fn attach_comment(&mut self, comment: Vec<u8>) -> (r: Option<Vec<u8>>)
        ensures
            match old(self).open_member() {
                None => r == Some(comment) && final(self).open_member() is None,
                Some(p) => {
                    &&& r is None
                    &&& final(self).open_member() == Some(with_comment(p, comment))
                },
            },
    {
        let taken = self.pending.take();
        match taken {
            None => Some(comment),
            Some(p) => {
                let mut entry = p;
                if entry.header.comment.is_none() {
                    entry.header.comment = Some(comment);
                }
                self.pending = Some(entry);
                None
            },
        }
    }

    /// The end of the last volume: no member may be open.
    pub fn finish(self) -> (r: Result<(), SplitMergeError>)
        ensures
            match self.open_member() {
                None => r is Ok,
                Some(p) => r matches Err(SplitMergeError::MissingFinal { pending }) && pending@
                    == p.header.name@,
            },
    {
        match self.pending {
            None => Ok(()),
            Some(p) => Err(SplitMergeError::MissingFinal { pending: p.header.name }),
        }
    }
}

/// The entry, with a comment if it had none.
pub open spec fn with_comment(e: ArchiveEntry, comment: Vec<u8>) -> ArchiveEntry {
    if e.header.comment is None {
        ArchiveEntry { header: FileHeader { comment: Some(comment), ..e.header }, ..e }
    } else {
        e
    }
}

/// The chunks of fragments, in order.
pub open spec fn all_chunks(fragments: Seq<ArchiveEntry>) -> Seq<DataChunk>
    decreases fragments.len(),
{
    if fragments.len() == 0 {
        Seq::empty()
    } else {
        all_chunks(fragments.drop_last()) + fragments.last().chunks@
    }
}

/// Packed bytes of fragments.
pub open spec fn all_packed(fragments: Seq<ArchiveEntry>) -> int
    decreases fragments.len(),
{
    if fragments.len() == 0 {
        0
    } else {
        all_packed(fragments.drop_last()) + fragments.last().header.packed_size
    }
}

/// The fragments of one member are pushed in order, each but the first a
/// continuation, each but the last continued; `opens` are the open members
/// before and after each push.
pub open spec fn is_split_run(
    fragments: Seq<ArchiveEntry>,
    opens: Seq<Option<ArchiveEntry>>,
    results: Seq<Result<Option<ArchiveEntry>, SplitMergeError>>,
) -> bool {
    &&& opens.len() == fragments.len() + 1
    &&& results.len() == fragments.len()
    &&& opens[0] is None
    &&& forall|i: int|
        0 <= i < fragments.len() ==> SplitMerge::pushed(
            opens[i],
            opens[i + 1],
            fragments[i],
            i > 0,
            i + 1 < fragments.len(),
            #[trigger] results[i],
        )
}

/// What is open after the first `k` fragments.
proof fn lemma_split_open(
    fragments: Seq<ArchiveEntry>,
    opens: Seq<Option<ArchiveEntry>>,
    results: Seq<Result<Option<ArchiveEntry>, SplitMergeError>>,
    k: int,
)
    requires
        is_split_run(fragments, opens, results),
        1 <= k < fragments.len(),
        forall|j: int|
            0 <= j <= fragments.len() ==> all_packed(#[trigger] fragments.take(j)) <= u64::MAX,
    ensures
        results[k - 1] matches Ok(None),
        opens[k] matches Some(p) && p.chunks@ == all_chunks(fragments.take(k))
            && p.header.packed_size == all_packed(fragments.take(k)) && p.header == (FileHeader {
            packed_size: p.header.packed_size,
            ..fragments[0].header
        }),
    decreases k,
{
    let f = fragments[k - 1];
    assert(fragments.take(k).drop_last() =~= fragments.take(k - 1));
    assert(fragments.take(k).last() == f);
    assert(SplitMerge::pushed(
        opens[k - 1],
        opens[k - 1 + 1],
        fragments[k - 1],
        k - 1 > 0,
        k - 1 + 1 < fragments.len(),
        results[k - 1],
    ));
    if k == 1 {
        assert(fragments.take(0) =~= Seq::<ArchiveEntry>::empty());
        assert(all_chunks(fragments.take(0)) =~= Seq::<DataChunk>::empty());
        assert(all_chunks(fragments.take(1)) =~= f.chunks@);
    } else {
        lemma_split_open(fragments, opens, results, k - 1);
        assert(all_packed(fragments.take(k)) <= u64::MAX);
    }
}

/// A split member comes back whole: nothing comes back before its last
/// fragment, and then one member with the first fragment's header, the chunks
/// of all fragments in order, their packed bytes together and the last
/// fragment's checksum. No member is open afterwards.
pub proof fn lemma_split_member_is_whole(
    fragments: Seq<ArchiveEntry>,
    opens: Seq<Option<ArchiveEntry>>,
    results: Seq<Result<Option<ArchiveEntry>, SplitMergeError>>,
)
    requires
        is_split_run(fragments, opens, results),
        fragments.len() >= 1,
        forall|j: int|
            0 <= j <= fragments.len() ==> all_packed(#[trigger] fragments.take(j)) <= u64::MAX,
    ensures
        forall|i: int| 0 <= i < fragments.len() - 1 ==> (#[trigger] results[i] matches Ok(None)),
        opens.last() is None,
        results.last() matches Ok(Some(done)) && done.chunks@ == all_chunks(fragments)
            && done.header == (FileHeader {
            packed_size: all_packed(fragments) as u64,
            crc32_val: fragments.last().header.crc32_val,
            ..fragments[0].header
        }),
{
    let n = fragments.len() as int;
    assert forall|i: int| 0 <= i < n - 1 implies (#[trigger] results[i] matches Ok(None)) by {
        lemma_split_open(fragments, opens, results, i + 1);
    }
    assert(fragments.take(n) =~= fragments);
    assert(fragments.take(n).drop_last() =~= fragments.take(n - 1));
    assert(SplitMerge::pushed(
        opens[n - 1],
        opens[n - 1 + 1],
        fragments[n - 1],
        n - 1 > 0,
        n - 1 + 1 < fragments.len(),
        results[n - 1],
    ));
    if n == 1 {
        assert(fragments.take(0) =~= Seq::<ArchiveEntry>::empty());
        assert(all_chunks(fragments.take(0)) =~= Seq::<DataChunk>::empty());
        assert(all_chunks(fragments) =~= fragments[0].chunks@);
    } else {
        lemma_split_open(fragments, opens, results, n - 1);
        assert(all_packed(fragments.take(n)) <= u64::MAX);
    }
}

} // verus!
