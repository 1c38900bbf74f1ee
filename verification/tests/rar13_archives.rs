use rar::error::RarError;
use rar::rar13::create::{ensure_member_size, validate_rar13_only, Rar13WriteOptions};
use rar::rar13::extract::{finish_rar13, merge_rar13_entry};
use rar::rar13::read::{archive_comment, parse_file_comment, parse_volume, ArchiveComment};
use rar::rar13::write::{
    build_archive_comment, build_file_comment, build_file_header, build_main_header,
    fragment_header, pick_standalone, rar13_encode_options, rar13_member_flags, rar13_on_disk,
    rar13_payload, standalone_candidates, write_rar13_split, MemberHeader, Split13,
};
use rar::shared::checksum::{file_checksum, rolling_checksum};
use rar::shared::split::SplitMerge;

#[test]
fn rar13_member_size_above_u32_is_rejected() {
    assert!(ensure_member_size(0).is_ok());
    assert!(ensure_member_size(u32::MAX as u64).is_ok());
    assert!(ensure_member_size(u32::MAX as u64 + 1).is_err());
}

#[test]
fn rar13_rejects_options_it_cannot_express() {
    assert!(validate_rar13_only(Rar13WriteOptions::default()).is_ok());
    for options in [
        Rar13WriteOptions {
            quick_open: true,
            ..Default::default()
        },
        Rar13WriteOptions {
            blake2: true,
            ..Default::default()
        },
        Rar13WriteOptions {
            recovery_percent: Some(5),
            ..Default::default()
        },
        Rar13WriteOptions {
            recovery_volume_count: Some(1),
            ..Default::default()
        },
        Rar13WriteOptions {
            save_owner: true,
            ..Default::default()
        },
        Rar13WriteOptions {
            save_streams: true,
            ..Default::default()
        },
        Rar13WriteOptions {
            has_dictionary: true,
            ..Default::default()
        },
        Rar13WriteOptions {
            encrypt_headers: true,
            ..Default::default()
        },
    ] {
        assert!(matches!(
            validate_rar13_only(options),
            Err(RarError::InvalidOption(_))
        ));
    }
}

fn header<'a>(name: &'a str, extra: &'a [u8]) -> MemberHeader<'a> {
    MemberHeader {
        name,
        packed_size: 5,
        unpacked_size: 5,
        file_crc: file_checksum(b"hello"),
        file_time: 0x2100_0000,
        file_attr: 0x20,
        flags: rar13_member_flags(false, 0, !extra.is_empty(), false),
        method: 0,
        extra,
    }
}

#[test]
fn a_written_volume_is_read_back() {
    let extra = build_file_comment(Some(b"note")).unwrap();
    let comment = build_archive_comment(11, b"packed!".to_vec()).unwrap();
    let mut volume = build_main_header(true, Some(&comment), false).unwrap();
    volume.extend(build_file_header(&header("a.txt", &extra)).unwrap());
    volume.extend_from_slice(b"hello");
    volume.extend(build_file_header(&header("b.txt", &[])).unwrap());
    volume.extend_from_slice(b"hello");
    let v = parse_volume(&volume, 0, 10).unwrap();
    assert_eq!(v.flags, 0x80 | 0x02 | 0x10 | 0x08);
    match archive_comment(v.flags, &v.extra).unwrap() {
        ArchiveComment::Packed { packed, unpacked_len } => {
            assert_eq!(packed, b"packed!");
            assert_eq!(unpacked_len, 11);
        }
        _ => panic!("packed comment"),
    }
    assert_eq!(v.entries.len(), 2);
    assert_eq!(v.entries[0].name(), "a.txt");
    assert_eq!(v.entries[0].comment(), Some(&b"note"[..]));
    assert_eq!(v.entries[1].name(), "b.txt");
    let at = v.entries[1].data_offset() as usize;
    assert_eq!(&volume[at..at + 5], b"hello");
    assert_eq!(v.entries[1].crc32(), Some(u32::from(file_checksum(b"hello"))));
    assert!(matches!(
        parse_volume(&volume, 0, 1),
        Err(RarError::LimitExceeded { limit: 1, .. })
    ));
}

#[test]
fn damaged_volumes_are_refused() {
    let message = |data: &[u8]| match parse_volume(data, 0, 10) {
        Ok(_) => panic!("expected an error"),
        Err(e) => e.message(),
    };
    assert!(matches!(parse_volume(b"RE~^", 0, 10), Err(RarError::Io(_))));
    assert_eq!(
        message(b"XX~^\x07\x00\x80"),
        "RAR format error: RAR 1.3: volume signature mismatch"
    );
    assert_eq!(
        message(b"RE~^\x06\x00\x80"),
        "RAR format error: RAR 1.3: main header is truncated"
    );
    let mut volume = build_main_header(false, None, false).unwrap();
    volume.extend(build_file_header(&header("a", &[])).unwrap());
    assert_eq!(
        message(&volume),
        "RAR format error: RAR 1.3: member data extends past the volume"
    );
    volume[7 + 10] = 21;
    assert_eq!(
        message(&volume),
        "RAR format error: RAR 1.3: file header is truncated or shorter than its name"
    );
}

#[test]
fn archive_comments_name_their_faults() {
    let message = |flags, extra: &[u8]| match archive_comment(flags, extra) {
        Ok(_) => panic!("expected an error"),
        Err(e) => e.message(),
    };
    assert!(matches!(archive_comment(0x80, &[]).unwrap(), ArchiveComment::Absent));
    assert_eq!(message(2, &[]), "RAR format error: RAR 1.3: comment size is missing");
    assert_eq!(message(2, &[1, 0]), "RAR format error: RAR 1.3: comment is truncated");
    match archive_comment(2, &[2, 0, b'h', b'i']).unwrap() {
        ArchiveComment::Plain(text) => assert_eq!(text, b"hi"),
        _ => panic!("plain comment"),
    }
    assert_eq!(
        message(0x12, &[1, 0]),
        "RAR format error: RAR 1.3: packed comment is shorter than its size field"
    );
    assert_eq!(
        message(0x12, &[3, 0, 9, 0]),
        "RAR format error: RAR 1.3: packed comment is truncated"
    );
    assert_eq!(parse_file_comment(&[1]), None);
    assert_eq!(parse_file_comment(&[1, 0]), None);
    assert_eq!(parse_file_comment(&[1, 0, 7, 8]), Some(vec![7]));
}

#[test]
fn oversized_headers_are_refused() {
    let long = "n".repeat(256);
    assert_eq!(
        build_file_header(&header(&long, &[])).unwrap_err().message(),
        "invalid option: RAR 1.3/1.4 member names are limited to 255 bytes (got 256)"
    );
    let extra = vec![0u8; 65_520];
    assert_eq!(
        build_file_header(&header("n", &extra)).unwrap_err().message(),
        "invalid option: RAR 1.3/1.4 file header is longer than 65535 bytes"
    );
    assert!(build_file_comment(Some(&vec![0; 65_536])).is_err());
    assert!(build_archive_comment(65_536, Vec::new()).is_err());
    assert!(build_archive_comment(1, vec![0; 65_534]).is_err());
    assert!(build_main_header(false, Some(&vec![0; 65_529]), false).is_err());
}

#[test]
fn members_split_at_exact_volume_boundaries() {
    let data: Vec<u8> = (0..50u8).collect();
    let mut h = header("m", &[]);
    h.packed_size = 50;
    h.unpacked_size = 50;
    h.file_crc = 0x1234;
    let job = Split13 {
        volume_size: 60,
        first_len: 22,
        continuation_len: 22,
        total: 50,
        fresh: 7,
    };
    let fragments = write_rar13_split(job, 7).unwrap();
    let lens: Vec<u64> = fragments.iter().map(|f| f.len).collect();
    assert_eq!(lens, [31, 19]);
    let mut merge = SplitMerge::new();
    let mut done = None;
    let mut running = 0;
    for (i, f) in fragments.iter().enumerate() {
        let part = &data[f.offset as usize..(f.offset + f.len) as usize];
        running = rolling_checksum(running, part);
        let mut volume = build_main_header(false, None, true).unwrap();
        volume.extend(fragment_header(&h, *f, running).unwrap());
        volume.extend_from_slice(part);
        assert!(volume.len() <= 60);
        let mut v = parse_volume(&volume, 0, 10).unwrap();
        let e = v.entries.remove(0);
        if i == 0 {
            assert_eq!(e.crc32(), Some(u32::from(file_checksum(part))));
        }
        done = merge_rar13_entry(&mut merge, e, i).unwrap();
    }
    let done = done.expect("whole member");
    assert_eq!(done.compressed_size(), 50);
    assert_eq!(done.crc32(), Some(0x1234));
    assert_eq!(done.chunks()[1].volume_index, 1);
    assert!(finish_rar13(merge).is_ok());
    let wide = Split13 { volume_size: u64::MAX, ..job };
    assert_eq!(write_rar13_split(wide, 7).unwrap().len(), 1);
    // Too small for a header and a byte.
    let tiny = Split13 { volume_size: 29, ..job };
    assert_eq!(
        write_rar13_split(tiny, 7).unwrap_err().message(),
        "invalid option: volume size 29 is too small for a RAR 1.3/1.4 member header"
    );
    // A member without data needs room for its header alone.
    let empty = Split13 { volume_size: 29, total: 0, ..job };
    let one = write_rar13_split(empty, 20).unwrap();
    assert_eq!(one.len(), 1);
    assert!(one[0].new_volume && one[0].len == 0);
}

#[test]
fn the_comment_goes_with_the_first_fragment() {
    let extra = build_file_comment(Some(b"note")).unwrap();
    let h = header("m", &extra);
    let job = Split13 { volume_size: 40, first_len: 28, continuation_len: 22, total: 20, fresh: 7 };
    let fragments = write_rar13_split(job, 7).unwrap();
    assert!(fragments.len() > 1);
    let first = fragment_header(&h, fragments[0], 1).unwrap();
    let second = fragment_header(&h, fragments[1], 2).unwrap();
    assert_eq!(first.len(), 28);
    assert_eq!(first[17], 0x08 | 0x02);
    assert_eq!(second.len(), 22);
    assert_eq!(second[17] & 0x08, 0);
    assert_eq!(second[17] & 0x01, 0x01);
}

#[test]
fn merges_refuse_stray_fragments() {
    let mut volume = build_main_header(false, None, false).unwrap();
    volume.extend(build_file_header(&header("a", &[])).unwrap());
    volume.extend_from_slice(b"hello");
    let entry = |flags: u64| {
        let mut v = parse_volume(&volume, 0, 10).unwrap();
        let mut e = v.entries.remove(0);
        e.header.flags = flags;
        e
    };
    let mut merge = SplitMerge::new();
    assert_eq!(
        merge_rar13_entry(&mut merge, entry(1), 0).unwrap_err().message(),
        "RAR format error: RAR 1.3: split continuation without a start"
    );
    assert!(merge_rar13_entry(&mut merge, entry(2), 0).unwrap().is_none());
    assert_eq!(
        merge_rar13_entry(&mut merge, entry(0), 1).unwrap_err().message(),
        "RAR format error: RAR 1.3: split member is interrupted by a regular entry"
    );
    assert_eq!(
        finish_rar13(merge).unwrap_err().message(),
        "RAR format error: RAR 1.3: split member is incomplete"
    );
}

#[test]
fn payloads_and_settings_follow_the_level() {
    assert_eq!(rar13_payload(b"abc".to_vec(), 0, false, None).1, 0);
    assert_eq!(rar13_payload(b"abc".to_vec(), 3, false, Some(b"x".to_vec())), (b"x".to_vec(), 5));
    assert_eq!(
        rar13_payload(b"abc".to_vec(), 3, false, Some(b"xyz".to_vec())),
        (b"abc".to_vec(), 0)
    );
    assert_eq!(
        rar13_payload(b"abc".to_vec(), 3, true, Some(b"wxyz".to_vec())),
        (b"wxyz".to_vec(), 5)
    );
    assert_eq!(rar13_encode_options(0).max_long_match_distance, Some(0));
    assert!(rar13_encode_options(5).lazy_matching);
    assert!(!rar13_encode_options(2).stmode_literal_runs);
    assert_eq!(standalone_candidates(2).len(), 2);
    assert_eq!(standalone_candidates(3).len(), 3);
    let decoded = vec![None, Some(b"bad".to_vec()), Some(b"abc".to_vec())];
    assert_eq!(pick_standalone(&decoded, b"abc"), Some(2));
    assert_eq!(pick_standalone(&decoded[..2], b"abc"), None);
    assert_eq!(rar13_on_disk(b"abc", 0, None).unwrap(), b"abc");
    assert!(rar13_on_disk(b"abc", 4, None).is_err());
    let sealed = rar13_on_disk(b"hello world", 4, Some("password")).unwrap();
    assert_eq!(sealed[..4], [0x37, 0xcd, 0xaa, 0xbd]);
}
