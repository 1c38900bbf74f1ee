//! What a listing says of members, and where archives are found.

use crate::detect::{
    archive_start, first_place, lemma_first_place, occurs_at, scanned, ArchiveFamily,
    RAR13_SIGNATURE, RAR4_SIGNATURE, RAR5_SIGNATURE,
};
use crate::engine::entry::{
    entry_version, shared_host_os, spec_host_os_name, spec_method_name,
};
use crate::engine::plan::MemberPlan;
use crate::model::FileHeader;
use crate::unicode::{utf16_text, utf16_units};
use crate::version::ArchiveVersion;
use vstd::prelude::*;
use vstd::string::*;

verus! {

/// A signature stands at a place of the input: `Rar!` and what follows it in
/// RAR5, in RAR 1.5 to 4.x, or the `RE~^` of RAR 1.3.
pub open spec fn signature_at(input: Seq<u8>, family: ArchiveFamily, at: int) -> bool {
    match family {
        ArchiveFamily::Rar50Plus => {
            &&& 0 <= at && at + 8 <= input.len()
            &&& input[at] == 0x52 && input[at + 1] == 0x61 && input[at + 2] == 0x72 && input[at + 3]
                == 0x21
            &&& input[at + 4] == 0x1a && input[at + 5] == 7 && input[at + 6] == 1 && input[at + 7]
                == 0
        },
        ArchiveFamily::Rar15To40 => {
            &&& 0 <= at && at + 7 <= input.len()
            &&& input[at] == 0x52 && input[at + 1] == 0x61 && input[at + 2] == 0x72 && input[at + 3]
                == 0x21
            &&& input[at + 4] == 0x1a && input[at + 5] == 7 && input[at + 6] == 0
        },
        ArchiveFamily::Rar13 => {
            &&& 0 <= at && at + 4 <= input.len()
            &&& input[at] == 0x52 && input[at + 1] == 0x45 && input[at + 2] == 0x7e && input[at + 3]
                == 0x5e
        },
    }
}

proof fn lemma_signature(input: Seq<u8>, family: ArchiveFamily, at: int)
    ensures
        signature_at(input, family, at) <==> occurs_at(
            input,
            match family {
                ArchiveFamily::Rar50Plus => RAR5_SIGNATURE@,
                ArchiveFamily::Rar15To40 => RAR4_SIGNATURE@,
                ArchiveFamily::Rar13 => RAR13_SIGNATURE@,
            },
            at,
        ),
{
    let s = match family {
        ArchiveFamily::Rar50Plus => RAR5_SIGNATURE@,
        ArchiveFamily::Rar15To40 => RAR4_SIGNATURE@,
        ArchiveFamily::Rar13 => RAR13_SIGNATURE@,
    };
    if signature_at(input, family, at) {
        assert(input.subrange(at, at + s.len()) =~= s);
    }
    if occurs_at(input, s, at) {
        let t = input.subrange(at, at + s.len());
        assert forall|i: int| 0 <= i < s.len() implies input[at + i] == s[i] by {
            assert(t[i] == input[at + i]);
        }
        assert(input[at + 0] == s[0]);
        assert(input[at + 1] == s[1]);
        assert(input[at + 2] == s[2]);
        assert(input[at + 3] == s[3]);
        if s.len() >= 7 {
            assert(input[at + 4] == s[4]);
            assert(input[at + 5] == s[5]);
            assert(input[at + 6] == s[6]);
        }
        if s.len() >= 8 {
            assert(input[at + 7] == s[7]);
        }
    }
}

proof fn lemma_scanned(input: Seq<u8>, family: ArchiveFamily, at: int, max_scan: nat)
    requires
        at <= max_scan,
    ensures
        signature_at(scanned(input, max_scan), family, at) <==> signature_at(input, family, at),
{
}

/// An archive starts at its first RAR5 or RAR 1.5 to 4.x signature within the
/// bytes scanned, whatever stands before it; where there is none, at the first
/// of RAR 1.3; and nowhere where there is none of those.
pub proof fn lemma_archive_start_law(input: Seq<u8>, max_scan: nat, i: int)
    ensures
        match archive_start(input, max_scan) {
            Some((f, at)) => {
                &&& at <= max_scan
                &&& signature_at(input, f, at as int)
                &&& 0 <= i < at ==> !signature_at(input, f, i)
                &&& f != ArchiveFamily::Rar13 && 0 <= i < at ==> !signature_at(
                    input,
                    ArchiveFamily::Rar50Plus,
                    i,
                ) && !signature_at(input, ArchiveFamily::Rar15To40, i)
                &&& f == ArchiveFamily::Rar13 && 0 <= i <= max_scan ==> !signature_at(
                    input,
                    ArchiveFamily::Rar50Plus,
                    i,
                ) && !signature_at(input, ArchiveFamily::Rar15To40, i)
            },
            None => 0 <= i <= max_scan ==> !signature_at(input, ArchiveFamily::Rar50Plus, i)
                && !signature_at(input, ArchiveFamily::Rar15To40, i) && !signature_at(
                input,
                ArchiveFamily::Rar13,
                i,
            ),
        },
{
    let w = scanned(input, max_scan);
    lemma_first_place(w, RAR5_SIGNATURE@);
    lemma_first_place(w, RAR4_SIGNATURE@);
    lemma_first_place(w, RAR13_SIGNATURE@);
    lemma_signature(w, ArchiveFamily::Rar50Plus, i);
    lemma_signature(w, ArchiveFamily::Rar15To40, i);
    lemma_signature(w, ArchiveFamily::Rar13, i);
    if i <= max_scan {
        lemma_scanned(input, ArchiveFamily::Rar50Plus, i, max_scan);
        lemma_scanned(input, ArchiveFamily::Rar15To40, i, max_scan);
        lemma_scanned(input, ArchiveFamily::Rar13, i, max_scan);
    }
    if let Some((f, at)) = archive_start(input, max_scan) {
        lemma_signature(w, f, at as int);
        lemma_scanned(input, f, at as int, max_scan);
    }
}

/// The RAR5 archive in an SFX file starts at the first RAR5 signature.
pub proof fn lemma_sfx_offset_law(input: Seq<u8>, i: int)
    ensures
        match first_place(input, RAR5_SIGNATURE@) {
            Some(at) => signature_at(input, ArchiveFamily::Rar50Plus, at as int) && (0 <= i < at
                ==> !signature_at(input, ArchiveFamily::Rar50Plus, i)),
            None => !signature_at(input, ArchiveFamily::Rar50Plus, i),
        },
{
    lemma_first_place(input, RAR5_SIGNATURE@);
    lemma_signature(input, ArchiveFamily::Rar50Plus, i);
    if let Some(at) = first_place(input, RAR5_SIGNATURE@) {
        lemma_signature(input, ArchiveFamily::Rar50Plus, at as int);
    }
}

/// The host system of older members on the shared axis: DOS and Windows are
/// Windows, all others Unix; RAR5 says it itself.
pub proof fn lemma_host_law(format_version: u8, host_os: u64)
    ensures
        (format_version == 3 || format_version == 4) && (host_os == 0 || host_os == 2)
            ==> shared_host_os(format_version, host_os) == 0,
        (format_version == 3 || format_version == 4) && host_os != 0 && host_os != 2
            ==> shared_host_os(format_version, host_os) == 1,
        format_version != 3 && format_version != 4 ==> shared_host_os(format_version, host_os)
            == host_os,
        format_version == 4 && host_os == 0 ==> spec_host_os_name(format_version, host_os) == "DOS"@,
        format_version == 4 && host_os == 1 ==> spec_host_os_name(format_version, host_os)
            == "OS/2"@,
        format_version == 4 && host_os == 2 ==> spec_host_os_name(format_version, host_os)
            == "Windows"@,
        format_version == 4 && host_os == 3 ==> spec_host_os_name(format_version, host_os)
            == "Unix"@,
        format_version == 4 && host_os > 3 ==> spec_host_os_name(format_version, host_os) == "Mac"@,
        format_version != 4 && host_os == 1 ==> spec_host_os_name(format_version, host_os)
            == "Unix"@,
        format_version != 4 && host_os != 1 ==> spec_host_os_name(format_version, host_os)
            == "Windows"@,
{
}

/// The names of the methods, from storing to the best compression.
pub proof fn lemma_method_names_law(method: u8)
    ensures
        method == 0 ==> spec_method_name(method) == "Store"@,
        method == 1 ==> spec_method_name(method) == "Fastest"@,
        method == 2 ==> spec_method_name(method) == "Fast"@,
        method == 3 ==> spec_method_name(method) == "Normal"@,
        method == 4 ==> spec_method_name(method) == "Good"@,
        method == 5 ==> spec_method_name(method) == "Best"@,
        method > 5 ==> spec_method_name(method) == "Unknown"@,
{
}

/// The version of a member: RAR 1.4 of the oldest container, what its header
/// says in the next, RAR 5 or 7 in the newest.
pub proof fn lemma_entry_version_law(h: FileHeader)
    ensures
        h.format_version == 3 ==> entry_version(h) == ArchiveVersion::V14,
        h.format_version == 4 && h.unp_ver == 15 ==> entry_version(h) == ArchiveVersion::V15,
        h.format_version == 4 && h.unp_ver == 20 ==> entry_version(h) == ArchiveVersion::V20,
        h.format_version == 4 && h.unp_ver == 26 ==> entry_version(h) == ArchiveVersion::V26,
        h.format_version == 4 && h.unp_ver == 29 ==> entry_version(h) == ArchiveVersion::V29,
        h.format_version == 4 && h.unp_ver == 36 ==> entry_version(h) == ArchiveVersion::V36,
        h.format_version != 3 && h.format_version != 4 && h.comp_version == 1 ==> entry_version(h)
            == ArchiveVersion::Rar70,
        h.format_version != 3 && h.format_version != 4 && h.comp_version != 1 ==> entry_version(h)
            == ArchiveVersion::Rar50,
        entry_version(h).spec_extra_dist() <==> h.format_version != 3 && h.format_version != 4
            && h.comp_version == 1,
{
}

/// A plan's header carries a file hash in place of the checksum where there is
/// one, and else the checksum.
pub proof fn lemma_plan_law(
    p: MemberPlan,
    h: FileHeader,
    packed_size: u64,
    mtime: u32,
    file_flags: u64,
    host_os: u64,
)
    requires
        p.describes(h, packed_size, mtime, file_flags, host_os),
    ensures
        h.crc32_val is Some <==> p.stored_hash is None,
        h.crc32_val is Some ==> h.crc32_val->Some_0 == p.file_crc,
        h.hash_value == p.stored_hash,
        h.hash_type == if p.stored_hash is Some {
            0int
        } else {
            255
        },
        h.packed_size == packed_size,
        h.unpacked_size == p.unpacked_size,
        h.comp_method == p.method,
        h.comp_solid == p.solid,
        h.comp_dict_size == p.dict_size_log,
        h.extra_data@ == p.extra_data@,
        h.mtime == mtime,
        h.attributes == p.attrs,
        h.name@ == p.name@,
{
}

/// Characters from U+10000 on are two units of UTF-16, ten bits in each, the
/// high one first; all others one.
pub proof fn lemma_utf16_units_law(text: Seq<char>)
    requires
        text.len() > 0,
    ensures
        ({
            let v = text[0] as u32 as int;
            let u = utf16_units(text);
            &&& v < 0x1_0000 ==> u.len() > 0 && u[0] == v && u.skip(1) == utf16_units(text.skip(1))
            &&& v >= 0x1_0000 ==> u.len() > 1 && 0xd800 <= u[0] < 0xdc00 && 0xdc00 <= u[1] < 0xe000
                && v == 0x1_0000 + 0x400 * (u[0] - 0xd800) + (u[1] - 0xdc00) && u.skip(2)
                == utf16_units(text.skip(1))
        }),
        utf16_units(Seq::<char>::empty()).len() == 0,
{
    let u = utf16_units(text);
    let v = text[0] as u32 as int;
    vstd::utf8::char_is_scalar(text[0]);
    assert(text.drop_first() =~= text.skip(1));
    if v < 0x1_0000 {
        assert(u.skip(1) =~= utf16_units(text.skip(1)));
    } else {
        assert(u.skip(2) =~= utf16_units(text.skip(1)));
    }
}

/// A unit that belongs to no pair reads as U+FFFD.
pub proof fn lemma_lone_unit_law(units: Seq<u16>)
    requires
        units.len() > 0,
        0xd800 <= units[0] < 0xe000,
        units[0] >= 0xdc00 || units.len() == 1 || !(0xdc00 <= units[1] < 0xe000),
    ensures
        utf16_text(units) == seq!['\u{FFFD}'] + utf16_text(units.skip(1)),
{
}

} // verus!
