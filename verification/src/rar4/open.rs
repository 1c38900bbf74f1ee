//! Opening a volume set for reading: each volume's signature, its blocks, and
//! the catalog of what was found.

use crate::detect::RAR4_SIGNATURE;
use crate::engine::entry::ArchiveEntry;
use crate::error::{is_format, RarError, RarResult};
use crate::rar4::envelope::{encrypted_read, read_block, EnvelopePolicy, HeaderKey, Rar4Block};
use crate::rar4::read::{is_limit, unexpected_eof};
use crate::rar4::scan::{
    scan_step, scans, AfterBlock, Rar4VolumeScan, ScanProgress, ScanView,
};
use vstd::prelude::*;
use vstd::string::*;

verus! {

/// Most entries that an archive may have.
pub fn check_entry_cap(entries: usize, max_entries: usize) -> (r: RarResult<()>)
    ensures
        match r {
            Ok(_) => entries <= max_entries,
            Err(e) => entries > max_entries && is_limit(
                e,
                max_entries as u64,
                "archive entries"@,
            ),
        },
{
    if entries > max_entries {
        return Err(RarError::limit_exceeded(max_entries as u64, "archive entries"));
    }
    Ok(())
}

/// Where the blocks of a volume start: behind the signature of the first
/// volume, which the caller has found, or of a later one, which stands at its
/// beginning.
pub fn volume_start(data: &[u8], volume_index: usize, found: usize, name: &str) -> (r: RarResult<
    usize,
>)
    ensures
        match r {
            Ok(n) => if volume_index == 0 {
                n == found
            } else {
                &&& n == 7
                &&& data@.len() >= 7
                &&& data@.take(7) == RAR4_SIGNATURE@
            },
            Err(e) => volume_index != 0 && if data@.len() < 7 {
                e is Io
            } else {
                &&& data@.take(7) != RAR4_SIGNATURE@
                &&& is_format(e, "volume "@ + name@ + " has a bad RAR4 signature"@)
            },
        },
{
    if volume_index == 0 {
        return Ok(found);
    }
    if data.len() < 7 {
        return Err(RarError::Io(unexpected_eof()));
    }
    let same = crate::crypto::constant_time_eq(
        vstd::slice::slice_subrange(data, 0, 7),
        RAR4_SIGNATURE.as_slice(),
    );
    assert(data@.subrange(0, 7) =~= data@.take(7));
    if !same {
        let mut s = String::new();
        s.append("volume ");
        s.append(name);
        s.append(" has a bad RAR4 signature");
        return Err(RarError::Format(s));
    }
    Ok(7)
}

/// What one encrypted block does to a scan.
pub open spec fn encrypted_step(
    data: Seq<u8>,
    at: int,
    key: HeaderKey,
    volume_index: usize,
    before: ScanView,
    after: ScanView,
    r: RarResult<ScanProgress>,
) -> bool {
    exists|p: EnvelopePolicy, read: RarResult<Option<Rar4Block>>|
        p.verify_crc && !p.retain_raw && #[trigger] encrypted_read(data, at, key, p, read)
            && match read {
            Err(e) => r == Err::<ScanProgress, RarError>(e) && after == before,
            Ok(None) => r == Ok::<ScanProgress, RarError>(ScanProgress::Done) && after == before,
            Ok(Some(b)) => exists|step: RarResult<AfterBlock>|
                #[trigger] scan_step(before, after, b, volume_index, true, true, step)
                    && match step {
                    Err(e) => r == Err::<ScanProgress, RarError>(e),
                    Ok(AfterBlock::End) => r == Ok::<ScanProgress, RarError>(ScanProgress::Done),
                    Ok(AfterBlock::Next { .. }) => r matches Ok(ScanProgress::NeedsKey { at: n })
                        && n == b.offset + b.total_size,
                },
        }
}

/// Take in the encrypted block at `at`, with the key derived for its salt. The
/// block behind it is encrypted too, under a salt of its own.
pub fn scan_encrypted_block(
    scan: &mut Rar4VolumeScan,
    data: &[u8],
    at: usize,
    key: &HeaderKey,
    volume_index: usize,
    out: &mut Vec<ArchiveEntry>,
) -> (r: RarResult<ScanProgress>)
    requires
        at <= data@.len() <= 0x7fff_ffff_ffff_ffff,
    ensures
        encrypted_step(
            data@,
            at as int,
            *key,
            volume_index,
            old(scan).found(old(out)@),
            final(scan).found(final(out)@),
            r,
        ),
{
    let policy = EnvelopePolicy::scan();
    let read = read_block(data, at, true, Some(key), policy);
    let ghost seen = read;
    assert(encrypted_read(data@, at as int, *key, policy, seen));
    let block = match read {
        Ok(Some(b)) => b,
        Ok(None) => {
            return Ok(ScanProgress::Done);
        },
        Err(e) => {
            return Err(e);
        },
    };
    proof {
        crate::bytes::lemma_byte_ranges();
        crate::bytes::lemma_le_unique(block.header@.subrange(7, 11));
    }
    let end = block.end();
    let step = scan.scan_block(&block, volume_index, true, true, out);
    match step {
        Ok(AfterBlock::End) => Ok(ScanProgress::Done),
        Ok(AfterBlock::Next { encrypted: _ }) => Ok(ScanProgress::NeedsKey { at: end }),
        Err(e) => Err(e),
    }
}

/// The result of a scan, with the number of entries found held to a limit.
pub open spec fn capped(
    scanned: RarResult<ScanProgress>,
    found: nat,
    max_entries: usize,
    r: RarResult<ScanProgress>,
) -> bool {
    if scanned == Ok::<ScanProgress, RarError>(ScanProgress::Done) && found > max_entries {
        r is Err && is_limit(r->Err_0, max_entries as u64, "archive entries"@)
    } else {
        r == scanned
    }
}

/// What opening a volume with a sound signature comes to.
pub open spec fn opened(
    data: Seq<u8>,
    start: int,
    volume_index: usize,
    has_password: bool,
    before: ScanView,
    after: ScanView,
    max_entries: usize,
    r: RarResult<ScanProgress>,
) -> bool {
    exists|scanned: RarResult<ScanProgress>| #[trigger]
        scans(data, start, volume_index, has_password, before, after, scanned) && capped(
            scanned,
            after.out.len(),
            max_entries,
            r,
        )
}

/// Open one volume of a set: check its signature, and scan its plaintext
/// blocks. `found` is where the blocks of the first volume start.
pub fn open_rar4_volume(
    scan: &mut Rar4VolumeScan,
    data: &[u8],
    volume_index: usize,
    found: usize,
    name: &str,
    has_password: bool,
    max_entries: usize,
    out: &mut Vec<ArchiveEntry>,
) -> (r: RarResult<ScanProgress>)
    requires
        data@.len() <= 0x7fff_ffff_ffff_ffff,
        volume_index == 0 ==> found <= data@.len(),
    ensures
        ({
            let sound = volume_index == 0 || data@.len() >= 7 && data@.take(7) == RAR4_SIGNATURE@;
            let start = if volume_index == 0 {
                found as int
            } else {
                7
            };
            let before = old(scan).found(old(out)@);
            let after = final(scan).found(final(out)@);
            if !sound {
                &&& r is Err
                &&& after == before
                &&& if data@.len() < 7 {
                    r->Err_0 is Io
                } else {
                    is_format(r->Err_0, "volume "@ + name@ + " has a bad RAR4 signature"@)
                }
            } else {
                opened(data@, start, volume_index, has_password, before, after, max_entries, r)
            }
        }),
{
    let start = match volume_start(data, volume_index, found, name) {
        Ok(n) => n,
        Err(e) => {
            return Err(e);
        },
    };
    let ghost before = scan.found(out@);
    let scanned = scan.scan_volume(data, start, volume_index, has_password, out);
    let ghost s = scanned;
    let r = match scanned {
        Ok(ScanProgress::Done) => match check_entry_cap(out.len(), max_entries) {
            Ok(_) => Ok(ScanProgress::Done),
            Err(e) => Err(e),
        },
        other => other,
    };
    proof {
        scan.lemma_found(out@);
        let after = scan.found(out@);
        assert(capped(s, after.out.len(), max_entries, r));
        assert(scans(data@, start as int, volume_index, has_password, before, after, s));
        assert(opened(
            data@,
            start as int,
            volume_index,
            has_password,
            before,
            after,
            max_entries,
            r,
        ));
    }
    r
}

/// What a set of volumes holds.
pub struct Rar4Catalog {
    pub entries: Vec<ArchiveEntry>,
    pub archive_solid: bool,
    pub new_numbering: bool,
}

/// The catalog of a set whose volumes are all scanned: no member may have
/// lost its last volume.
pub fn open_read_rar4(scan: Rar4VolumeScan, out: Vec<ArchiveEntry>) -> (r: RarResult<Rar4Catalog>)
    ensures
        match (r, scan.found(out@).open) {
            (Ok(c), None) => {
                &&& c.entries@ == out@
                &&& c.archive_solid == scan.found(out@).solid
                &&& c.new_numbering == scan.found(out@).new_numbering
            },
            (Err(e), Some(p)) => is_format(
                e,
                "RAR4: split member "@ + p.header.name@ + " is missing its final volume"@,
            ),
            _ => false,
        },
{
    let archive_solid = scan.solid();
    let new_numbering = scan.numbered();
    match scan.finish() {
        Ok(_) => Ok(Rar4Catalog { entries: out, archive_solid, new_numbering }),
        Err(e) => Err(e),
    }
}

} // verus!
