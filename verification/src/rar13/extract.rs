//! Merging the members of a RAR 1.3/1.4 volume set.

use crate::engine::entry::ArchiveEntry;
use crate::error::{is_format, RarError, RarResult};
use crate::model::DataChunk;
use crate::rar13::read::{is_volume, parse_fault, parse_volume, Volume};
use crate::rar13::MHD_SOLID;
use crate::rar4::headers::field;
use crate::rar4::read::contents;
use crate::shared::split::{SplitMerge, SplitMergeError};
use vstd::prelude::*;
use vstd::string::*;

verus! {

/// The error of a merge that failed.
pub open spec fn split_message(e: SplitMergeError) -> Seq<char> {
    match e {
        SplitMergeError::ContinuationWithoutStart { .. } =>
        "RAR 1.3: split continuation without a start"@,
        SplitMergeError::Overlapping { .. } =>
        "RAR 1.3: split member is interrupted by a regular entry"@,
        SplitMergeError::Interrupted { .. } =>
        "RAR 1.3: split member is interrupted by a regular entry"@,
        SplitMergeError::MissingFinal { .. } => "RAR 1.3: split member is incomplete"@,
        SplitMergeError::PackedSizeOverflow { .. } => "RAR 1.3: split packed size overflow"@,
    }
}

/// The error of a merge that failed.
pub fn map_rar13_split_error(error: SplitMergeError) -> (r: RarError)
    ensures
        is_format(r, split_message(error)),
{
    match error {
        SplitMergeError::ContinuationWithoutStart { fragment: _ } => RarError::format(
            "RAR 1.3: split continuation without a start",
        ),
        SplitMergeError::Overlapping { pending: _ } => RarError::format(
            "RAR 1.3: split member is interrupted by a regular entry",
        ),
        SplitMergeError::Interrupted { pending: _ } => RarError::format(
            "RAR 1.3: split member is interrupted by a regular entry",
        ),
        SplitMergeError::MissingFinal { pending: _ } => RarError::format(
            "RAR 1.3: split member is incomplete",
        ),
        SplitMergeError::PackedSizeOverflow { pending: _ } => RarError::format(
            "RAR 1.3: split packed size overflow",
        ),
    }
}

/// The chunks, in the volume `volume_index`.
pub open spec fn moved(chunks: Seq<DataChunk>, volume_index: usize) -> Seq<DataChunk> {
    Seq::new(chunks.len(), |i: int| DataChunk { volume_index, ..chunks[i] })
}

fn move_chunks(chunks: Vec<DataChunk>, volume_index: usize) -> (r: Vec<DataChunk>)
    ensures
        r@ == moved(chunks@, volume_index),
{
    let mut rest = chunks;
    let ghost all = rest@;
    let mut back: Vec<DataChunk> = Vec::new();
    while rest.len() > 0
        invariant
            rest@.len() + back@.len() == all.len(),
            rest@ == all.take(rest@.len() as int),
            forall|i: int|
                0 <= i < back@.len() ==> #[trigger] back@[i] == (DataChunk {
                    volume_index,
                    ..all[all.len() - 1 - i]
                }),
        decreases rest@.len(),
    {
        let ghost before = rest@;
        if let Some(c) = rest.pop() {
            let mut chunk = c;
            chunk.volume_index = volume_index;
            back.push(chunk);
            proof {
                assert(rest@ =~= all.take(rest@.len() as int));
            }
        }
    }
    let mut out: Vec<DataChunk> = Vec::new();
    while back.len() > 0
        invariant
            out@.len() + back@.len() == all.len(),
            forall|i: int|
                0 <= i < back@.len() ==> #[trigger] back@[i] == (DataChunk {
                    volume_index,
                    ..all[all.len() - 1 - i]
                }),
            forall|i: int|
                0 <= i < out@.len() ==> #[trigger] out@[i] == (DataChunk {
                    volume_index,
                    ..all[i]
                }),
        decreases back@.len(),
    {
        if let Some(c) = back.pop() {
            out.push(c);
        }
    }
    assert(out@ =~= moved(all, volume_index));
    out
}

/// What taking one entry of a volume into the set's catalog comes to.
pub open spec fn entry_step(
    before: Option<ArchiveEntry>,
    after: Option<ArchiveEntry>,
    entry: ArchiveEntry,
    volume_index: usize,
    r: RarResult<Option<ArchiveEntry>>,
) -> bool {
    exists|e: ArchiveEntry, merged: Result<Option<ArchiveEntry>, SplitMergeError>|
        {
            &&& e.header == entry.header
            &&& e.chunks@ == moved(entry.chunks@, volume_index)
            &&& #[trigger] is_taken(before, after, e, merged)
            &&& match merged {
                Ok(done) => r == Ok::<Option<ArchiveEntry>, RarError>(done),
                Err(x) => r is Err && is_format(r->Err_0, split_message(x)),
            }
        }
}

/// The entry goes into the merge by its flags.
pub open spec fn is_taken(
    before: Option<ArchiveEntry>,
    after: Option<ArchiveEntry>,
    e: ArchiveEntry,
    merged: Result<Option<ArchiveEntry>, SplitMergeError>,
) -> bool {
    SplitMerge::pushed(
        before,
        after,
        e,
        e.header.flags & 1 != 0,
        e.header.flags & 2 != 0,
        merged,
    )
}

/// Take one entry of a volume into the set's catalog; a member comes back when
/// its last fragment has come.
pub fn merge_rar13_entry(merge: &mut SplitMerge, entry: ArchiveEntry, volume_index: usize) -> (r:
    RarResult<Option<ArchiveEntry>>)
    ensures
        entry_step(old(merge).open_member(), final(merge).open_member(), entry, volume_index, r),
{
    let split_before = entry.header.flags & 1 != 0;
    let split_after = entry.header.flags & 2 != 0;
    let chunks = move_chunks(entry.chunks, volume_index);
    let placed = ArchiveEntry { header: entry.header, chunks };
    let ghost e = placed;
    let ghost before = merge.open_member();
    let merged = merge.push(placed, split_before, split_after);
    let ghost m = merged;
    let r = match merged {
        Ok(done) => Ok(done),
        Err(x) => Err(map_rar13_split_error(x)),
    };
    assert(is_taken(before, merge.open_member(), e, m));
    r
}

/// The end of the last volume: no member may be open.
pub fn finish_rar13(merge: SplitMerge) -> (r: RarResult<()>)
    ensures
        match merge.open_member() {
            None => r is Ok,
            Some(_) => r is Err && is_format(r->Err_0, "RAR 1.3: split member is incomplete"@),
        },
{
    match merge.finish() {
        Ok(_) => Ok(()),
        Err(x) => Err(map_rar13_split_error(x)),
    }
}

/// A set's catalog on its way: the open member, and the members found.
pub struct MergeView {
    pub open: Option<ArchiveEntry>,
    pub out: Seq<ArchiveEntry>,
}

/// One entry leads from `s` to `t`.
pub open spec fn entry_leads(
    s: MergeView,
    t: MergeView,
    entry: ArchiveEntry,
    volume_index: usize,
) -> bool {
    exists|done: Option<ArchiveEntry>| #[trigger]
        entry_step(s.open, t.open, entry, volume_index, Ok(done)) && t.out == match done {
            Some(d) => s.out.push(d),
            None => s.out,
        }
}

/// The places of a walk over a volume's entries.
pub open spec fn is_entry_walk(
    entries: Seq<ArchiveEntry>,
    volume_index: usize,
    walk: Seq<MergeView>,
) -> bool {
    &&& 0 < walk.len() <= entries.len() + 1
    &&& forall|i: int|
        0 <= i < walk.len() - 1 ==> entry_leads(
            #[trigger] walk[i],
            walk[i + 1],
            entries[i],
            volume_index,
        )
}

/// A volume's entries, each taken in turn, lead from `s` to `t`.
pub open spec fn entries_lead(
    entries: Seq<ArchiveEntry>,
    volume_index: usize,
    s: MergeView,
    t: MergeView,
) -> bool {
    exists|walk: Seq<MergeView>| #[trigger]
        is_entry_walk(entries, volume_index, walk) && walk.len() == entries.len() + 1 && walk[0]
            == s && walk.last() == t
}

/// Taking a volume's entries fails at one of them.
pub open spec fn entries_fail(
    entries: Seq<ArchiveEntry>,
    volume_index: usize,
    s: MergeView,
    e: RarError,
) -> bool {
    exists|walk: Seq<MergeView>, open: Option<ArchiveEntry>|
        {
            &&& #[trigger] is_entry_walk(entries, volume_index, walk)
            &&& walk.len() <= entries.len()
            &&& walk[0] == s
            &&& #[trigger] entry_step(
                walk.last().open,
                open,
                entries[walk.len() - 1],
                volume_index,
                Err(e),
            )
        }
}

fn reversed(v: Vec<ArchiveEntry>) -> (r: Vec<ArchiveEntry>)
    ensures
        r@ == v@.reverse(),
{
    let mut rest = v;
    let ghost all = rest@;
    let mut out: Vec<ArchiveEntry> = Vec::new();
    while rest.len() > 0
        invariant
            rest@.len() + out@.len() == all.len(),
            rest@ == all.take(rest@.len() as int),
            forall|i: int|
                0 <= i < out@.len() ==> #[trigger] out@[i] == all[all.len() - 1 - i],
        decreases rest@.len(),
    {
        if let Some(e) = rest.pop() {
            out.push(e);
            assert(rest@ =~= all.take(rest@.len() as int));
        }
    }
    assert(out@ =~= all.reverse());
    out
}

/// Take all entries of a volume into the set's catalog.
#[verifier::rlimit(30)]
pub fn take_volume(
    merge: &mut SplitMerge,
    entries: Vec<ArchiveEntry>,
    volume_index: usize,
    out: &mut Vec<ArchiveEntry>,
) -> (r: RarResult<()>)
    ensures
        match r {
            Ok(_) => entries_lead(
                entries@,
                volume_index,
                MergeView { open: old(merge).open_member(), out: old(out)@ },
                MergeView { open: final(merge).open_member(), out: final(out)@ },
            ),
            Err(e) => entries_fail(
                entries@,
                volume_index,
                MergeView { open: old(merge).open_member(), out: old(out)@ },
                e,
            ),
        },
{
    let ghost all = entries@;
    let ghost first = MergeView { open: merge.open_member(), out: out@ };
    let ghost mut walk: Seq<MergeView> = seq![first];
    let mut rest = reversed(entries);
    while rest.len() > 0
        invariant
            all == entries@,
            first == (MergeView { open: old(merge).open_member(), out: old(out)@ }),
            is_entry_walk(all, volume_index, walk),
            walk[0] == first,
            walk.last() == (MergeView { open: merge.open_member(), out: out@ }),
            rest@.len() + walk.len() == all.len() + 1,
            rest@ == all.reverse().take(rest@.len() as int),
        decreases rest@.len(),
    {
        let ghost i = walk.len() - 1;
        let ghost s = walk.last();
        let next = rest.pop();
        if let Some(entry) = next {
            proof {
                assert(entry == all[i as int]);
                assert(rest@ =~= all.reverse().take(rest@.len() as int));
            }
            let step = merge_rar13_entry(merge, entry, volume_index);
            let ghost seen = step;
            match step {
                Ok(done) => {
                    if let Some(d) = done {
                        out.push(d);
                    }
                },
                Err(e) => {
                    proof {
                        assert(entry_step(
                            walk.last().open,
                            merge.open_member(),
                            all[walk.len() - 1],
                            volume_index,
                            Err(e),
                        ));
                    }
                    return Err(e);
                },
            }
            proof {
                let t = MergeView { open: merge.open_member(), out: out@ };
                let done = seen->Ok_0;
                assert(entry_step(s.open, t.open, all[i as int], volume_index, Ok(done)));
                assert(entry_leads(s, t, all[i as int], volume_index));
                let longer = walk.push(t);
                assert forall|j: int| 0 <= j < longer.len() - 1 implies entry_leads(
                    #[trigger] longer[j],
                    longer[j + 1],
                    all[j],
                    volume_index,
                ) by {
                    if j < walk.len() - 1 {
                        assert(longer[j] == walk[j]);
                        assert(longer[j + 1] == walk[j + 1]);
                    }
                }
                walk = longer;
            }
        }
    }
    Ok(())
}

/// Where the signature of a volume stands: only the first may have something
/// before it.
pub open spec fn signature_at(first: int, k: int) -> int {
    if k == 0 {
        first
    } else {
        0
    }
}

/// Volume `k` leads from `s` to `t`.
pub open spec fn volume_leads(
    volumes: Seq<Seq<u8>>,
    first: int,
    max_entries: usize,
    k: int,
    s: MergeView,
    t: MergeView,
) -> bool {
    exists|v: Volume| #[trigger]
        is_volume(v, volumes[k], signature_at(first, k)) && v.entries@.len() <= max_entries
            && entries_lead(v.entries@, k as usize, s, t)
}

/// Volume `k` does not parse, or its entries do not fit what came before.
pub open spec fn volume_fails(
    volumes: Seq<Seq<u8>>,
    first: int,
    max_entries: usize,
    k: int,
    s: MergeView,
    e: RarError,
) -> bool {
    ||| parse_fault(volumes[k], signature_at(first, k), max_entries, e)
    ||| exists|v: Volume| #[trigger]
        is_volume(v, volumes[k], signature_at(first, k)) && v.entries@.len() <= max_entries
            && entries_fail(v.entries@, k as usize, s, e)
}

/// The places of a walk over volumes, which starts with nothing.
pub open spec fn is_volume_walk(
    volumes: Seq<Seq<u8>>,
    first: int,
    max_entries: usize,
    walk: Seq<MergeView>,
) -> bool {
    &&& 0 < walk.len() <= volumes.len() + 1
    &&& walk[0].open is None && walk[0].out.len() == 0
    &&& forall|k: int|
        0 <= k < walk.len() - 1 ==> volume_leads(
            volumes,
            first,
            max_entries,
            k,
            #[trigger] walk[k],
            walk[k + 1],
        )
}

/// What a set of volumes holds; flags and header extension are the first
/// volume's.
pub struct Rar13Catalog {
    pub entries: Vec<ArchiveEntry>,
    pub archive_solid: bool,
    pub flags: u8,
    pub extra: Vec<u8>,
}

/// Read the catalog of a volume set. `first` is where the first volume's
/// signature stands. Members split across volumes are merged.
#[verifier::rlimit(30)]
pub fn open_read_rar13(volumes: &[Vec<u8>], first: usize, max_entries: usize) -> (r: RarResult<
    Rar13Catalog,
>)
    requires
        volumes@.len() > 0,
        first <= volumes@[0]@.len(),
    ensures
        ({
            let data = contents(volumes@);
            match r {
                Ok(c) => {
                    &&& c.flags == data[0][first + 6]
                    &&& c.extra@ == data[0].subrange(
                        first + 7,
                        first + field(data[0], first + 4, 2),
                    )
                    &&& c.archive_solid == (c.flags & MHD_SOLID != 0)
                    &&& exists|walk: Seq<MergeView>| #[trigger]
                        is_volume_walk(data, first as int, max_entries, walk) && walk.len()
                            == data.len() + 1 && walk.last().open is None && walk.last().out
                            == c.entries@
                },
                Err(e) => exists|walk: Seq<MergeView>| #[trigger]
                    is_volume_walk(data, first as int, max_entries, walk) && if walk.len()
                        <= data.len() {
                        volume_fails(
                            data,
                            first as int,
                            max_entries,
                            walk.len() - 1,
                            walk.last(),
                            e,
                        )
                    } else {
                        walk.last().open is Some && is_format(
                            e,
                            "RAR 1.3: split member is incomplete"@,
                        )
                    },
            }
        }),
{
    let ghost data = contents(volumes@);
    let total = volumes.len();
    let mut merge = SplitMerge::new();
    let mut out: Vec<ArchiveEntry> = Vec::new();
    let mut flags: u8 = 0;
    let mut extra: Vec<u8> = Vec::new();
    let ghost mut walk: Seq<MergeView> = seq![MergeView { open: merge.open_member(), out: out@ }];
    let mut k: usize = 0;
    while k < total
        invariant
            total == volumes@.len(),
            total > 0,
            first <= volumes@[0]@.len(),
            data == contents(volumes@),
            k <= total,
            walk.len() == k + 1,
            is_volume_walk(data, first as int, max_entries, walk),
            walk.last() == (MergeView { open: merge.open_member(), out: out@ }),
            k > 0 ==> flags == data[0][first + 6] && extra@ == data[0].subrange(
                first + 7,
                first + field(data[0], first + 4, 2),
            ),
        decreases total - k,
    {
        let offset = if k == 0 {
            first
        } else {
            0
        };
        let ghost s = walk.last();
        assert(data[k as int] == volumes@[k as int]@);
        assert(offset as int == signature_at(first as int, k as int));
        let parsed = parse_volume(volumes[k].as_slice(), offset, max_entries);
        let volume = match parsed {
            Ok(v) => v,
            Err(e) => {
                assert(volume_fails(data, first as int, max_entries, walk.len() - 1, s, e));
                return Err(e);
            },
        };
        let ghost v = volume;
        assert(is_volume(v, data[k as int], signature_at(first as int, k as int)));
        if k == 0 {
            flags = volume.flags;
            extra = volume.extra;
        }
        match take_volume(&mut merge, volume.entries, k, &mut out) {
            Ok(_) => {},
            Err(e) => {
                assert(volume_fails(data, first as int, max_entries, walk.len() - 1, s, e));
                return Err(e);
            },
        }
        proof {
            let t = MergeView { open: merge.open_member(), out: out@ };
            assert(volume_leads(data, first as int, max_entries, k as int, s, t));
            let longer = walk.push(t);
            assert forall|j: int| 0 <= j < longer.len() - 1 implies volume_leads(
                data,
                first as int,
                max_entries,
                j,
                #[trigger] longer[j],
                longer[j + 1],
            ) by {
                if j < walk.len() - 1 {
                    assert(longer[j] == walk[j]);
                    assert(longer[j + 1] == walk[j + 1]);
                }
            }
            walk = longer;
        }
        k += 1;
    }
    let archive_solid = flags & MHD_SOLID != 0;
    match finish_rar13(merge) {
        Ok(_) => Ok(Rar13Catalog { entries: out, archive_solid, flags, extra }),
        Err(e) => {
            assert(is_volume_walk(data, first as int, max_entries, walk));
            Err(e)
        },
    }
}

} // verus!
