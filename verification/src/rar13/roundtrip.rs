//! What is written as a volume is what a reader of the volume finds.

use crate::bytes::{le_bytes, lemma_byte_ranges, lemma_le_bytes_len, lemma_le_roundtrip};
use crate::detect::RAR13_SIGNATURE;
use crate::engine::entry::ArchiveEntry;
use crate::error::RarError;
use crate::rar13::read::{
    extension_comment, is_member, is_volume, lists, main_fault, member_fault, parse_fault,
    Volume,
};
use crate::rar13::write::{lemma_header_roundtrip, main_flags, main_header, MemberHeader};
use crate::rar13::{LHD_COMMENT, LHD_SOLID, LHD_SPLIT_AFTER};
use crate::rar4::headers::field;
use crate::shared::legacy_time::spec_dos_time_to_unix;
use vstd::prelude::*;
use vstd::utf8::{encode_utf8_decode_utf8, encode_utf8_valid_utf8};

verus! {

/// Members as they are written one after the other, each header followed by
/// its data.
pub open spec fn members_bytes(headers: Seq<MemberHeader<'_>>, data: Seq<Seq<u8>>) -> Seq<u8>
    decreases headers.len(),
{
    if headers.len() == 0 {
        Seq::empty()
    } else {
        headers[0].bytes() + data[0] + members_bytes(headers.drop_first(), data.drop_first())
    }
}

/// The headers were not refused and fit their data.
pub open spec fn members_fit(headers: Seq<MemberHeader<'_>>, data: Seq<Seq<u8>>) -> bool {
    &&& headers.len() == data.len()
    &&& forall|i: int|
        0 <= i < headers.len() ==> {
            &&& (#[trigger] headers[i]).refusal() is None
            &&& headers[i].packed_size == data[i].len()
            &&& headers[i].packed_size <= u32::MAX
            &&& headers[i].unpacked_size <= u32::MAX
        }
}

/// The entry says what the header said, and its chunk is where the data is.
pub open spec fn is_read_back(
    e: ArchiveEntry,
    h: MemberHeader<'_>,
    data: Seq<u8>,
    volume: Seq<u8>,
) -> bool {
    &&& e.header.name@ == h.name@
    &&& e.header.packed_size == h.packed_size
    &&& e.header.unpacked_size == h.unpacked_size
    &&& e.header.crc32_val == Some(h.file_crc as u32)
    &&& e.header.mtime == spec_dos_time_to_unix(h.file_time as int)
    &&& e.header.attributes == h.file_attr
    &&& e.header.comp_method == h.method
    &&& e.header.flags == h.flags
    &&& e.header.comp_solid == (h.flags & LHD_SOLID != 0)
    &&& match (
        e.header.comment,
        if h.flags & LHD_COMMENT != 0 {
            extension_comment(h.extra@)
        } else {
            None
        },
    ) {
        (Some(a), Some(b)) => a@ == b,
        (None, None) => true,
        _ => false,
    }
    &&& e.chunks@.len() == 1
    &&& ({
        let c = e.chunks@[0];
        &&& c.packed_size == data.len()
        &&& c.is_final == (h.flags & LHD_SPLIT_AFTER == 0)
        &&& c.data_offset + data.len() <= volume.len()
        &&& volume.subrange(c.data_offset as int, c.data_offset + data.len()) == data
    })
}

/// The members from one place of a volume on read back.
proof fn lemma_members_read_back(
    before: Seq<u8>,
    headers: Seq<MemberHeader<'_>>,
    data: Seq<Seq<u8>>,
    entries: Seq<ArchiveEntry>,
    to: int,
)
    requires
        members_fit(headers, data),
        lists(before + members_bytes(headers, data), before.len() as int, entries, to),
        to + 21 > before.len() + members_bytes(headers, data).len(),
    ensures
        entries.len() == headers.len(),
        forall|i: int|
            0 <= i < headers.len() ==> is_read_back(
                #[trigger] entries[i],
                headers[i],
                data[i],
                before + members_bytes(headers, data),
            ),
    decreases headers.len(),
{
    let v = before + members_bytes(headers, data);
    let at = before.len() as int;
    if headers.len() == 0 {
        assert(v =~= before);
    } else {
        let h = headers[0];
        let d = data[0];
        let rest = members_bytes(headers.drop_first(), data.drop_first());
        assert(v =~= before + h.bytes() + d + rest);
        lemma_header_roundtrip(before, h, d, rest);
        assert(entries.len() > 0);
        let next = before + h.bytes() + d;
        assert(v =~= next + rest);
        assert(members_fit(headers.drop_first(), data.drop_first())) by {
            assert forall|i: int| 0 <= i < headers.drop_first().len() implies ({
                &&& (#[trigger] headers.drop_first()[i]).refusal() is None
                &&& headers.drop_first()[i].packed_size == data.drop_first()[i].len()
                &&& headers.drop_first()[i].packed_size <= u32::MAX
                &&& headers.drop_first()[i].unpacked_size <= u32::MAX
            }) by {
                assert(headers.drop_first()[i] == headers[i + 1]);
                assert(data.drop_first()[i] == data[i + 1]);
            }
        }
        lemma_members_read_back(
            next,
            headers.drop_first(),
            data.drop_first(),
            entries.drop_first(),
            to,
        );
        assert(is_read_back(entries[0], h, d, v)) by {
            reveal(is_member);
            encode_utf8_valid_utf8(h.name@);
            encode_utf8_decode_utf8(h.name@);
        }
        assert forall|i: int| 0 <= i < headers.len() implies is_read_back(
            #[trigger] entries[i],
            headers[i],
            data[i],
            v,
        ) by {
            if i > 0 {
                assert(entries.drop_first()[i - 1] == entries[i]);
                assert(headers.drop_first()[i - 1] == headers[i]);
                assert(data.drop_first()[i - 1] == data[i]);
            }
        }
    }
}

/// A volume written is the volume read: a main header, and members behind it
/// that were not refused, parse to one entry per member, in order, each with
/// what its header said and a chunk that holds its data.
pub proof fn lemma_volume_roundtrip(
    solid: bool,
    extra: Option<Seq<u8>>,
    multi: bool,
    headers: Seq<MemberHeader<'_>>,
    data: Seq<Seq<u8>>,
    v: Volume,
)
    requires
        members_fit(headers, data),
        main_header(solid, extra, multi).len() <= 0xffff,
        is_volume(v, main_header(solid, extra, multi) + members_bytes(headers, data), 0),
    ensures
        v.flags == main_flags(solid, extra is Some, multi),
        v.extra@ == match extra {
            Some(x) => x,
            None => Seq::empty(),
        },
        v.entries@.len() == headers.len(),
        forall|i: int|
            0 <= i < headers.len() ==> is_read_back(
                #[trigger] v.entries@[i],
                headers[i],
                data[i],
                main_header(solid, extra, multi) + members_bytes(headers, data),
            ),
{
    let m = main_header(solid, extra, multi);
    let bytes = m + members_bytes(headers, data);
    let x = match extra {
        Some(x) => x,
        None => Seq::empty(),
    };
    lemma_main_header(solid, extra, multi, members_bytes(headers, data));
    let to = choose|to: int| #[trigger]
        lists(bytes, field(bytes, 4, 2) as int, v.entries@, to) && to + 21 > bytes.len();
    lemma_members_read_back(m, headers, data, v.entries@, to);
}

/// Every place that a walk over written members comes to is sound, and the
/// walk takes no more members than were written.
proof fn lemma_members_sound(
    before: Seq<u8>,
    headers: Seq<MemberHeader<'_>>,
    data: Seq<Seq<u8>>,
    entries: Seq<ArchiveEntry>,
    to: int,
)
    requires
        members_fit(headers, data),
        lists(before + members_bytes(headers, data), before.len() as int, entries, to),
    ensures
        entries.len() <= headers.len(),
        to + 21 <= before.len() + members_bytes(headers, data).len() ==> member_fault(
            before + members_bytes(headers, data),
            to,
        ) is None,
    decreases headers.len(),
{
    let v = before + members_bytes(headers, data);
    if headers.len() == 0 {
        assert(v =~= before);
    } else {
        let h = headers[0];
        let d = data[0];
        let rest = members_bytes(headers.drop_first(), data.drop_first());
        assert(v =~= before + h.bytes() + d + rest);
        lemma_header_roundtrip(before, h, d, rest);
        if entries.len() > 0 {
            let next = before + h.bytes() + d;
            assert(v =~= next + rest);
            assert forall|i: int| 0 <= i < headers.drop_first().len() implies ({
                &&& (#[trigger] headers.drop_first()[i]).refusal() is None
                &&& headers.drop_first()[i].packed_size == data.drop_first()[i].len()
                &&& headers.drop_first()[i].packed_size <= u32::MAX
                &&& headers.drop_first()[i].unpacked_size <= u32::MAX
            }) by {
                assert(headers.drop_first()[i] == headers[i + 1]);
                assert(data.drop_first()[i] == data[i + 1]);
            }
            lemma_members_sound(
                next,
                headers.drop_first(),
                data.drop_first(),
                entries.drop_first(),
                to,
            );
        }
    }
}

/// A volume written parses, unless it holds more members than are accepted.
pub proof fn lemma_written_parses(
    solid: bool,
    extra: Option<Seq<u8>>,
    multi: bool,
    headers: Seq<MemberHeader<'_>>,
    data: Seq<Seq<u8>>,
    max_entries: usize,
    e: RarError,
)
    requires
        members_fit(headers, data),
        main_header(solid, extra, multi).len() <= 0xffff,
        headers.len() <= max_entries,
    ensures
        !parse_fault(
            main_header(solid, extra, multi) + members_bytes(headers, data),
            0,
            max_entries,
            e,
        ),
{
    let m = main_header(solid, extra, multi);
    let bytes = m + members_bytes(headers, data);
    lemma_main_header(solid, extra, multi, members_bytes(headers, data));
    assert forall|entries: Seq<ArchiveEntry>, to: int| #[trigger]
        lists(bytes, m.len() as int, entries, to) implies entries.len() <= max_entries && (to + 21
        <= bytes.len() ==> member_fault(bytes, to) is None) by {
        lemma_members_sound(m, headers, data, entries, to);
    }
}

/// A main header written is sound, and its fields read back.
pub proof fn lemma_main_header(solid: bool, extra: Option<Seq<u8>>, multi: bool, rest: Seq<u8>)
    requires
        main_header(solid, extra, multi).len() <= 0xffff,
    ensures
        ({
            let m = main_header(solid, extra, multi);
            let bytes = m + rest;
            &&& m.len() >= 7
            &&& main_fault(bytes, 0) is None
            &&& field(bytes, 4, 2) == m.len()
            &&& bytes[6] == main_flags(solid, extra is Some, multi)
            &&& bytes.subrange(7, m.len() as int) == match extra {
                Some(x) => x,
                None => Seq::empty(),
            }
        }),
{
    let m = main_header(solid, extra, multi);
    let bytes = m + rest;
    let x = match extra {
        Some(x) => x,
        None => Seq::empty(),
    };
    lemma_byte_ranges();
    lemma_le_bytes_len(7 + x.len(), 2);
    lemma_le_roundtrip(7 + x.len(), 2);
    assert(RAR13_SIGNATURE@.len() == 4);
    assert(bytes.subrange(0, 4) =~= RAR13_SIGNATURE@);
    assert(bytes.subrange(4, 6) =~= le_bytes(7 + x.len(), 2));
    assert(bytes.subrange(7, m.len() as int) =~= x);
}

} // verus!
