//! Cross-volume block scan: file headers become entries, continuation
//! headers are merged into the member they continue.

use crate::engine::entry::ArchiveEntry;
use crate::error::{is_encrypted, is_format, RarError, RarResult};
use crate::model::DataChunk;
use crate::rar4::comment::{file_comment_at, parse_file_comment};
use crate::rar4::envelope::{
    envelope_fault, is_block, plain_header, plain_read, read_block, EnvelopePolicy, Rar4Block,
};
use crate::rar4::headers::{describes, header_fault, parse_file_header};
use crate::rar4::{
    COMM_HEAD, ENDARC_HEAD, FHD_SPLIT_AFTER, FHD_SPLIT_BEFORE, FILE_HEAD, MAIN_HEAD,
    MHD_NEWNUMBERING, MHD_PASSWORD, MHD_SOLID,
};
use crate::shared::split::{with_comment, SplitMerge, SplitMergeError};
use vstd::prelude::*;
use vstd::string::*;

verus! {

/// Block scan over the volumes of a set.
pub struct Rar4VolumeScan {
    merge: SplitMerge,
    /// A main header said that the archive is solid. Members of the older
    /// codecs chain by this flag, newer ones by their own.
    pub archive_solid: bool,
    /// A main header said that volumes are numbered `.partN.rar`.
    pub new_numbering: bool,
}

/// What a scan has found.
pub struct ScanView {
    pub open: Option<ArchiveEntry>,
    pub solid: bool,
    pub new_numbering: bool,
    pub out: Seq<ArchiveEntry>,
}

/// What follows a block.
#[derive(Clone, Copy, PartialEq, Eq, Structural, Debug)]
pub enum AfterBlock {
    /// The next block, encrypted or not.
    Next { encrypted: bool },
    /// Nothing: the archive ends here.
    End,
}

/// The error of a merge that failed.
pub open spec fn split_message(e: SplitMergeError) -> Seq<char> {
    match e {
        SplitMergeError::ContinuationWithoutStart { fragment } => "RAR4: "@ + fragment@
            + ": split continuation without a start"@,
        SplitMergeError::Overlapping { .. } => "RAR4: overlapping split members"@,
        SplitMergeError::Interrupted { pending } => "RAR4: "@ + pending@
            + ": split member is interrupted by a regular entry"@,
        SplitMergeError::MissingFinal { pending } => "RAR4: split member "@ + pending@
            + " is missing its final volume"@,
        SplitMergeError::PackedSizeOverflow { pending } => "RAR4: "@ + pending@
            + ": split packed size overflow"@,
    }
}

fn rar4_split_error(error: SplitMergeError) -> (r: RarError)
    ensures
        is_format(r, split_message(error)),
{
    let mut s = String::new();
    match &error {
        SplitMergeError::ContinuationWithoutStart { fragment } => {
            s.append("RAR4: ");
            s.append(fragment.as_str());
            s.append(": split continuation without a start");
        },
        SplitMergeError::Overlapping { pending: _ } => {
            s.append("RAR4: overlapping split members");
        },
        SplitMergeError::Interrupted { pending } => {
            s.append("RAR4: ");
            s.append(pending.as_str());
            s.append(": split member is interrupted by a regular entry");
        },
        SplitMergeError::MissingFinal { pending } => {
            s.append("RAR4: split member ");
            s.append(pending.as_str());
            s.append(" is missing its final volume");
        },
        SplitMergeError::PackedSizeOverflow { pending } => {
            s.append("RAR4: ");
            s.append(pending.as_str());
            s.append(": split packed size overflow");
        },
    }
    assert(s@ =~= split_message(error));
    RarError::Format(s)
}

/// `e` is the entry of a file header, with the one chunk that follows it.
pub open spec fn is_scanned(e: ArchiveEntry, block: Rar4Block, volume_index: usize) -> bool {
    &&& describes(block.header@, block.flags, block.head_crc, block.header_end, e.header)
    &&& e.chunks@.len() == 1
    &&& ({
        let c = e.chunks@[0];
        &&& c.volume_index == volume_index
        &&& c.data_offset == e.header.data_offset
        &&& c.packed_size == e.header.packed_size
        &&& c.crc32_val == e.header.crc32_val
        &&& c.is_final == (block.flags & FHD_SPLIT_AFTER == 0)
        &&& c.extra_data@.len() == 0
    })
}

/// The entry of a file header goes into the merge.
pub open spec fn is_pushed(
    before: ScanView,
    after: ScanView,
    block: Rar4Block,
    e: ArchiveEntry,
    merged: Result<Option<ArchiveEntry>, SplitMergeError>,
) -> bool {
    SplitMerge::pushed(
        before.open,
        after.open,
        e,
        block.flags & FHD_SPLIT_BEFORE != 0,
        block.flags & FHD_SPLIT_AFTER != 0,
        merged,
    )
}

/// What a file header does to a scan.
pub open spec fn file_step(
    before: ScanView,
    after: ScanView,
    block: Rar4Block,
    volume_index: usize,
    encrypted: bool,
    r: RarResult<AfterBlock>,
) -> bool {
    &&& after.solid == before.solid && after.new_numbering == before.new_numbering
    &&& match header_fault(block.header@, block.flags) {
        Some(m) => r is Err && is_format(r->Err_0, m) && after == before,
        None => exists|e: ArchiveEntry, merged: Result<Option<ArchiveEntry>, SplitMergeError>|
            {
                &&& #[trigger] is_scanned(e, block, volume_index)
                &&& #[trigger] is_pushed(before, after, block, e, merged)
                &&& match merged {
                    Ok(Some(done)) => r == Ok::<AfterBlock, RarError>(
                        AfterBlock::Next { encrypted },
                    ) && after.out == before.out.push(done),
                    Ok(None) => r == Ok::<AfterBlock, RarError>(AfterBlock::Next { encrypted })
                        && after.out == before.out,
                    Err(x) => r is Err && is_format(r->Err_0, split_message(x)) && after.out
                        == before.out,
                }
            },
    }
}

/// The entries with a comment for the last of them.
pub open spec fn last_commented(out: Seq<ArchiveEntry>, comment: Vec<u8>) -> Seq<ArchiveEntry> {
    if out.len() == 0 {
        out
    } else {
        out.drop_last().push(with_comment(out.last(), comment))
    }
}

/// What a member comment does to a scan: it belongs to the open member, or
/// to the last one found.
pub open spec fn comment_step(before: ScanView, after: ScanView, block: Rar4Block) -> bool {
    &&& after.solid == before.solid && after.new_numbering == before.new_numbering
    &&& match file_comment_at(block.header@, 0) {
        None => after == before,
        Some((text, _)) => exists|c: Vec<u8>| #[trigger]
            c@ == text && match before.open {
                Some(p) => after.open == Some(with_comment(p, c)) && after.out == before.out,
                None => after.open is None && after.out == last_commented(before.out, c),
            },
    }
}

/// What a main header does to a scan: it may say that all that follows is
/// encrypted, which takes a password.
pub open spec fn main_step(
    before: ScanView,
    after: ScanView,
    block: Rar4Block,
    encrypted: bool,
    has_password: bool,
    r: RarResult<AfterBlock>,
) -> bool {
    let locked = block.flags & MHD_PASSWORD != 0;
    if locked && !has_password {
        &&& r is Err && is_encrypted(
            r->Err_0,
            "RAR4: header-encrypted archive, a password is required to list it"@,
        )
        &&& after == before
    } else {
        &&& r == Ok::<AfterBlock, RarError>(AfterBlock::Next { encrypted: encrypted || locked })
        &&& after == (ScanView {
            solid: before.solid || block.flags & MHD_SOLID != 0,
            new_numbering: before.new_numbering || block.flags & MHD_NEWNUMBERING != 0,
            ..before
        })
    }
}

/// What a block does to a scan. Blocks of other kinds are passed over.
pub open spec fn scan_step(
    before: ScanView,
    after: ScanView,
    block: Rar4Block,
    volume_index: usize,
    encrypted: bool,
    has_password: bool,
    r: RarResult<AfterBlock>,
) -> bool {
    if block.head_type == MAIN_HEAD {
        main_step(before, after, block, encrypted, has_password, r)
    } else if block.head_type == FILE_HEAD {
        file_step(before, after, block, volume_index, encrypted, r)
    } else if block.head_type == ENDARC_HEAD {
        r == Ok::<AfterBlock, RarError>(AfterBlock::End) && after == before
    } else if block.head_type == COMM_HEAD {
        &&& r == Ok::<AfterBlock, RarError>(AfterBlock::Next { encrypted })
        &&& comment_step(before, after, block)
    } else {
        r == Ok::<AfterBlock, RarError>(AfterBlock::Next { encrypted }) && after == before
    }
}

/// A place in a volume's scan.
pub struct ScanPlace {
    pub view: ScanView,
    pub at: int,
    pub encrypted: bool,
}

/// `b` is the plaintext block at a place of a volume.
pub open spec fn is_block_of(data: Seq<u8>, at: int, b: Rar4Block) -> bool {
    plain_header(data, at) matches Ok(Some(h)) && envelope_fault(h, true) is None && is_block(
        b,
        at,
        h,
        h.len() as int,
    )
}

/// One plaintext block leads from place `s` to place `t`.
pub open spec fn leads(
    data: Seq<u8>,
    volume_index: usize,
    has_password: bool,
    s: ScanPlace,
    t: ScanPlace,
) -> bool {
    exists|b: Rar4Block| #[trigger]
        is_block_of(data, s.at, b) && !s.encrypted && t.at == b.offset + b.total_size && scan_step(
            s.view,
            t.view,
            b,
            volume_index,
            false,
            has_password,
            Ok(AfterBlock::Next { encrypted: t.encrypted }),
        )
}

/// The places of a scan, from the first to the last.
pub open spec fn is_walk(
    data: Seq<u8>,
    volume_index: usize,
    has_password: bool,
    walk: Seq<ScanPlace>,
) -> bool {
    walk.len() > 0 && forall|i: int|
        0 <= i < walk.len() - 1 ==> leads(
            data,
            volume_index,
            has_password,
            #[trigger] walk[i],
            walk[i + 1],
        )
}

proof fn lemma_walk_push(
    data: Seq<u8>,
    volume_index: usize,
    has_password: bool,
    walk: Seq<ScanPlace>,
    t: ScanPlace,
)
    requires
        is_walk(data, volume_index, has_password, walk),
        leads(data, volume_index, has_password, walk.last(), t),
    ensures
        is_walk(data, volume_index, has_password, walk.push(t)),
{
    let longer = walk.push(t);
    assert forall|i: int| 0 <= i < longer.len() - 1 implies leads(
        data,
        volume_index,
        has_password,
        #[trigger] longer[i],
        longer[i + 1],
    ) by {
        if i < walk.len() - 1 {
            assert(longer[i] == walk[i]);
            assert(longer[i + 1] == walk[i + 1]);
        } else {
            assert(longer[i] == walk.last());
        }
    }
}

/// A block's end lies behind its start, and not too far.
proof fn lemma_block_end(data: Seq<u8>, at: int, b: Rar4Block)
    requires
        is_block_of(data, at, b),
        0 <= at <= data.len(),
    ensures
        b.offset == at,
        7 <= b.total_size <= 0x1_0000_fffe,
        at + b.header@.len() <= data.len(),
        b.total_size <= b.header@.len() + 0xffff_ffff,
{
    crate::bytes::lemma_byte_ranges();
    crate::bytes::lemma_le_unique(b.header@.subrange(7, 11));
    crate::bytes::lemma_le_unique(data.subrange(at + 5, at + 7));
}

/// How a scan of a volume ends.
#[derive(Clone, Copy, PartialEq, Eq, Structural, Debug)]
pub enum ScanProgress {
    /// The volume is scanned.
    Done,
    /// The block at this place is encrypted.
    NeedsKey { at: u64 },
}

/// How a scan ends at its last place.
pub open spec fn ends(
    data: Seq<u8>,
    volume_index: usize,
    has_password: bool,
    s: ScanPlace,
    after: ScanView,
    r: RarResult<ScanProgress>,
) -> bool {
    match r {
        Ok(ScanProgress::NeedsKey { at }) => s.encrypted && at == s.at && after == s.view,
        Ok(ScanProgress::Done) => !s.encrypted && (plain_header(data, s.at) matches Ok(None)
            && after == s.view || exists|b: Rar4Block| #[trigger]
            is_block_of(data, s.at, b) && scan_step(
                s.view,
                after,
                b,
                volume_index,
                false,
                has_password,
                Ok(AfterBlock::End),
            )),
        Err(e) => !s.encrypted && (after == s.view && exists|p: EnvelopePolicy| #[trigger]
            p.verify_crc && plain_read(data, s.at, p, Err(e)) || exists|b: Rar4Block| #[trigger]
            is_block_of(data, s.at, b) && scan_step(
                s.view,
                after,
                b,
                volume_index,
                false,
                has_password,
                Err(e),
            )),
    }
}

/// What scanning a volume's bytes from `start` on comes to.
pub open spec fn scans(
    data: Seq<u8>,
    start: int,
    volume_index: usize,
    has_password: bool,
    before: ScanView,
    after: ScanView,
    r: RarResult<ScanProgress>,
) -> bool {
    exists|walk: Seq<ScanPlace>| #[trigger]
        is_walk(data, volume_index, has_password, walk) && walk[0] == (ScanPlace {
            view: before,
            at: start,
            encrypted: false,
        }) && ends(data, volume_index, has_password, walk.last(), after, r)
}

impl Rar4VolumeScan {
    /// What the scan has found, with the entries in `out`.
    pub closed spec fn found(self, out: Seq<ArchiveEntry>) -> ScanView {
        ScanView {
            open: self.merge.open_member(),
            solid: self.archive_solid,
            new_numbering: self.new_numbering,
            out,
        }
    }

    /// The member whose last fragment has not come yet.
    pub closed spec fn open_member(self) -> Option<ArchiveEntry> {
        self.merge.open_member()
    }

    /// The entries found are those in `out`.
    pub proof fn lemma_found(self, out: Seq<ArchiveEntry>)
        ensures
            self.found(out).out == out,
    {
    }

    /// A main header said that the archive is solid.
    pub fn solid(&self) -> (r: bool)
        ensures
            forall|out: Seq<ArchiveEntry>| r == (#[trigger] self.found(out)).solid,
    {
        self.archive_solid
    }

    /// A main header said that volumes are numbered `.partN.rar`.
    pub fn numbered(&self) -> (r: bool)
        ensures
            forall|out: Seq<ArchiveEntry>| r == (#[trigger] self.found(out)).new_numbering,
    {
        self.new_numbering
    }

    /// Nothing found.
    pub fn new() -> (r: Rar4VolumeScan)
        ensures
            r.found(Seq::empty()) == (ScanView {
                open: None,
                solid: false,
                new_numbering: false,
                out: Seq::empty(),
            }),
    {
        Rar4VolumeScan { merge: SplitMerge::new(), archive_solid: false, new_numbering: false }
    }

    /// Take in one block.
    pub fn scan_block(
        &mut self,
        block: &Rar4Block,
        volume_index: usize,
        encrypted: bool,
        has_password: bool,
        out: &mut Vec<ArchiveEntry>,
    ) -> (r: RarResult<AfterBlock>)
        ensures
            scan_step(
                old(self).found(old(out)@),
                final(self).found(final(out)@),
                *block,
                volume_index,
                encrypted,
                has_password,
                r,
            ),
    {
        let flags = block.flags;
        let ghost before = self.found(out@);
        if block.head_type == MAIN_HEAD {
            let locked = flags & MHD_PASSWORD != 0;
            if locked && !has_password {
                return Err(
                    RarError::encrypted(
                        "RAR4: header-encrypted archive, a password is required to list it",
                    ),
                );
            }
            if flags & MHD_SOLID != 0 {
                self.archive_solid = true;
            }
            if flags & MHD_NEWNUMBERING != 0 {
                self.new_numbering = true;
            }
            return Ok(AfterBlock::Next { encrypted: encrypted || locked });
        }
        if block.head_type == FILE_HEAD {
            let split_before = flags & FHD_SPLIT_BEFORE != 0;
            let split_after = flags & FHD_SPLIT_AFTER != 0;
            let header = match parse_file_header(block) {
                Ok(h) => h,
                Err(e) => {
                    return Err(e);
                },
            };
            let chunk = DataChunk {
                volume_index,
                data_offset: header.data_offset,
                packed_size: header.packed_size,
                crc32_val: header.crc32_val,
                is_final: !split_after,
                extra_data: Vec::new(),
            };
            let mut chunks: Vec<DataChunk> = Vec::new();
            chunks.push(chunk);
            let entry = ArchiveEntry { header, chunks };
            let ghost e = entry;
            assert(is_scanned(e, *block, volume_index));
            let merged = self.merge.push(entry, split_before, split_after);
            let ghost m = merged;
            assert(SplitMerge::pushed(
                before.open,
                self.merge.open_member(),
                e,
                split_before,
                split_after,
                m,
            ));
            let r = match merged {
                Ok(Some(done)) => {
                    out.push(done);
                    Ok(AfterBlock::Next { encrypted })
                },
                Ok(None) => Ok(AfterBlock::Next { encrypted }),
                Err(x) => Err(rar4_split_error(x)),
            };
            assert(is_pushed(before, self.found(out@), *block, e, m));
            return r;
        }
        if block.head_type == ENDARC_HEAD {
            return Ok(AfterBlock::End);
        }
        if block.head_type == COMM_HEAD {
            let (comment, _) = parse_file_comment(block.header.as_slice(), 0);
            if let Some(c) = comment {
                let ghost text = c;
                if let Some(back) = self.merge.attach_comment(c) {
                    if out.len() > 0 {
                        let ghost was = out@;
                        let last = out.pop();
                        if let Some(e) = last {
                            let mut entry = e;
                            if entry.header.comment.is_none() {
                                entry.header.comment = Some(back);
                            }
                            out.push(entry);
                        }
                        assert(out@ =~= last_commented(was, back));
                    }
                }
                proof {
                    assert(text@ == file_comment_at(block.header@, 0)->Some_0.0);
                }
            }
            return Ok(AfterBlock::Next { encrypted });
        }
        Ok(AfterBlock::Next { encrypted })
    }

    /// Scan one volume's bytes from `start` on, up to the first encrypted
    /// block. Entries whose last fragment has come are added to `out`.
    #[verifier::rlimit(40)]
    pub fn scan_volume(
        &mut self,
        data: &[u8],
        start: usize,
        volume_index: usize,
        has_password: bool,
        out: &mut Vec<ArchiveEntry>,
    ) -> (r: RarResult<ScanProgress>)
        requires
            start <= data@.len() <= 0x7fff_ffff_ffff_ffff,
        ensures
            scans(
                data@,
                start as int,
                volume_index,
                has_password,
                old(self).found(old(out)@),
                final(self).found(final(out)@),
                r,
            ),
    {
        let size: usize = data.len();
        let total: u64 = size as u64;
        let mut at: u64 = start as u64;
        let mut encrypted = false;
        let ghost first = ScanPlace {
            view: self.found(out@),
            at: start as int,
            encrypted: false,
        };
        let ghost mut walk: Seq<ScanPlace> = seq![first];
        while !encrypted
            invariant
                total == size,
                size == data@.len(),
                total <= 0x7fff_ffff_ffff_ffff,
                at <= total + 0x1_0000_ffff,
                is_walk(data@, volume_index, has_password, walk),
                walk[0] == first,
                first == (ScanPlace {
                    view: old(self).found(old(out)@),
                    at: start as int,
                    encrypted: false,
                }),
                walk.last() == (ScanPlace { view: self.found(out@), at: at as int, encrypted }),
            decreases
                    (if encrypted {
                        0int
                    } else {
                        1int
                    }),
                    (if at < total {
                        total - at
                    } else {
                        0
                    }),
        {
            let ghost s = walk.last();
            if at >= total {
                assert(plain_header(data@, s.at) matches Ok(None));
                return Ok(ScanProgress::Done);
            }
            let policy = EnvelopePolicy::scan();
            let read = read_block(data, at as usize, false, None, policy);
            let block = match read {
                Ok(Some(b)) => b,
                Ok(None) => {
                    return Ok(ScanProgress::Done);
                },
                Err(e) => {
                    assert(policy.verify_crc && plain_read(data@, s.at, policy, Err(e)));
                    return Err(e);
                },
            };
            assert(is_block_of(data@, s.at, block));
            let step = self.scan_block(&block, volume_index, false, has_password, out);
            match step {
                Ok(AfterBlock::End) => {
                    return Ok(ScanProgress::Done);
                },
                Ok(AfterBlock::Next { encrypted: next }) => {
                    encrypted = next;
                },
                Err(e) => {
                    return Err(e);
                },
            }
            proof {
                lemma_block_end(data@, s.at, block);
            }
            at = block.end();
            proof {
                let t = ScanPlace { view: self.found(out@), at: at as int, encrypted };
                assert(leads(data@, volume_index, has_password, s, t));
                lemma_walk_push(data@, volume_index, has_password, walk, t);
                walk = walk.push(t);
            }
        }
        Ok(ScanProgress::NeedsKey { at })
    }

    /// The end of the last volume: a member still open has lost its last
    /// volume.
    pub fn finish(self) -> (r: RarResult<()>)
        ensures
            forall|out: Seq<ArchiveEntry>| match (#[trigger] self.found(out)).open {
                None => r is Ok,
                Some(p) => r is Err && is_format(
                    r->Err_0,
                    "RAR4: split member "@ + p.header.name@ + " is missing its final volume"@,
                ),
            },
    {
        match self.merge.finish() {
            Ok(_) => Ok(()),
            Err(e) => Err(rar4_split_error(e)),
        }
    }
}

} // verus!
