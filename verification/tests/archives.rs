use rar::crc32::crc32;
use rar::detect::RAR4_SIGNATURE;
use rar::engine::ArchiveEntry;
use rar::error::RarError;
use rar::model::FileHeader;
use rar::rar13::emit::{
    add_rar13_data, directory_name, write_rar13_dir_entry, Rar13Emission, Rar13Job, Rar13Output,
    Rar13Settings,
};
use rar::rar13::extract::open_read_rar13;
use rar::rar13::read::parse_volume;
use rar::rar13::write::build_main_header as rar13_main_header;
use rar::rar4::batch::{
    add_batch_parallel_rar4, emit_rar4_prepared, prepare_rar4_file_member, BatchStep, ReadFile,
};
use rar::rar4::comment::decode_comment_stream;
use rar::rar4::emit::NoRecovery;
use rar::rar4::envelope::{encrypt_block_header_with, HeaderKey};
use rar::rar4::extract::{
    decode_rar4_at, decode_rar4_to, finish_rar4_member_read, DecodePlan, SolidState,
};
use rar::rar4::headers::{build_endarc_single, build_main_header};
use rar::rar4::member::{finish_rar4_member, Rar4Output, SolidRun};
use rar::rar4::open::{check_entry_cap, open_rar4_volume, open_read_rar4, scan_encrypted_block};
use rar::rar4::read::{decode_member_bytes, MemberDecodeOptions, MemberStep};
use rar::rar4::scan::{Rar4VolumeScan, ScanProgress};
use rar::rar4::stream::{
    add_file_rar4, add_rar4_file_streaming, archive_name, check_read_size, copy_end,
    streamed_member, FileRoute, StreamedFile, StreamedSource,
};
use rar::rar4::{MHD_PASSWORD, MHD_SOLID, RAR4_METHOD_STORE};
use rar::shared::checksum::file_checksum;
use rar::version::LegacyCodec;

fn job(name: &str, data: &[u8], level: u8) -> Rar13Job {
    Rar13Job {
        name: name.to_string(),
        data: data.to_vec(),
        level,
        civil: 1_700_000_000,
        comment: None,
    }
}

fn plain() -> Rar13Settings<'static> {
    Rar13Settings { solid: false, password: None }
}

fn one_volume(position: u64) -> Rar13Output {
    Rar13Output {
        volume_size: None,
        volume_index: 0,
        position,
        used: position,
        fresh: 7,
    }
}

fn append(volumes: &mut Vec<Vec<u8>>, e: &Rar13Emission, data: &[u8]) {
    for part in &e.parts {
        if part.fragment.new_volume {
            volumes.push(rar13_main_header(false, None, true).unwrap());
        }
        let v = volumes.last_mut().unwrap();
        v.extend_from_slice(&part.header);
        let from = part.fragment.offset as usize;
        v.extend_from_slice(&data[from..from + part.fragment.len as usize]);
    }
}

#[test]
fn rar13_members_are_written_and_read_back() {
    let mut volumes = vec![rar13_main_header(true, None, false).unwrap()];
    let mut first = job("docs/readme.txt", b"hello, world", 0);
    first.comment = Some(b"a note".to_vec());
    let e = add_rar13_data(first, plain(), None, &one_volume(7)).unwrap();
    append(&mut volumes, &e, b"hello, world");
    let at = volumes[0].len() as u64;
    let d = write_rar13_dir_entry("docs//", 1_700_000_000, plain(), &one_volume(at)).unwrap();
    append(&mut volumes, &d, b"");
    let catalog = open_read_rar13(&volumes, 0, 10).unwrap();
    assert!(catalog.archive_solid);
    assert_eq!(catalog.entries.len(), 2);
    let a = &catalog.entries[0];
    assert_eq!(a.name(), "docs/readme.txt");
    assert_eq!(a.comment(), Some(&b"a note"[..]));
    assert_eq!(a.size(), 12);
    assert_eq!(a.crc32(), Some(file_checksum(b"hello, world") as u32));
    assert_eq!(a.data_offset(), e.entry.data_offset());
    assert_eq!(a.attributes(), 0x20);
    let from = a.data_offset() as usize;
    assert_eq!(&volumes[0][from..from + 12], b"hello, world");
    let b = &catalog.entries[1];
    assert_eq!(b.name(), "docs/");
    assert!(b.is_dir() && d.entry.is_dir());
    assert_eq!(b.compressed_size(), 0);
}

#[test]
fn rar13_members_are_split_and_merged() {
    let data: Vec<u8> = (0..100u8).collect();
    let out = Rar13Output {
        volume_size: Some(60),
        volume_index: 0,
        position: 7,
        used: 7,
        fresh: 7,
    };
    let e = add_rar13_data(job("a.bin", &data, 0), plain(), None, &out).unwrap();
    assert_eq!(e.parts.len(), 4);
    let places: Vec<(usize, u64, u64)> = e
        .entry
        .chunks
        .iter()
        .map(|c| (c.volume_index, c.data_offset, c.packed_size))
        .collect();
    assert_eq!(places, [(0, 33, 27), (1, 33, 27), (2, 33, 27), (3, 33, 19)]);
    let mut volumes = vec![rar13_main_header(false, None, true).unwrap()];
    append(&mut volumes, &e, &data);
    let catalog = open_read_rar13(&volumes, 0, 10).unwrap();
    assert_eq!(catalog.entries.len(), 1);
    let got = &catalog.entries[0];
    assert_eq!(got.compressed_size(), 100);
    assert_eq!(got.crc32(), Some(file_checksum(&data) as u32));
    let mut back = Vec::new();
    for c in &got.chunks {
        let from = c.data_offset as usize;
        back.extend_from_slice(&volumes[c.volume_index][from..from + c.packed_size as usize]);
    }
    assert_eq!(back, data);
    volumes.pop();
    assert!(matches!(
        open_read_rar13(&volumes, 0, 10),
        Err(RarError::Format(m)) if m == "RAR 1.3: split member is incomplete"
    ));
    let tail = volumes.split_off(1);
    assert!(matches!(
        open_read_rar13(&tail, 0, 10),
        Err(RarError::Format(m)) if m == "RAR 1.3: split continuation without a start"
    ));
    let tiny = Rar13Output { volume_size: Some(33), ..out };
    assert!(matches!(
        add_rar13_data(job("a.bin", &data, 0), plain(), None, &tiny),
        Err(RarError::InvalidOption(m))
            if m == "volume size 33 is too small for a RAR 1.3/1.4 member header"
    ));
}

#[test]
fn rar13_members_are_packed_and_encrypted() {
    let settings = Rar13Settings { solid: false, password: Some("pw") };
    let e = add_rar13_data(
        job("a.txt", b"aaaaaaaaaa", 3),
        settings,
        Some(b"packed".to_vec()),
        &one_volume(7),
    )
    .unwrap();
    assert_eq!(e.entry.header.comp_method, 5);
    assert_eq!(e.entry.compressed_size(), 6);
    let header = &e.parts[0].header;
    assert_eq!(header[17], 0x04);
    assert_eq!(header[20], 5);
    let grown = add_rar13_data(
        job("a.txt", b"aaa", 3),
        plain(),
        Some(b"packed".to_vec()),
        &one_volume(7),
    )
    .unwrap();
    assert_eq!(grown.entry.header.comp_method, 0);
    assert_eq!(grown.entry.compressed_size(), 3);
}

#[test]
fn rar13_refuses_what_does_not_fit() {
    let mut long = job("a.txt", b"x", 0);
    long.comment = Some(vec![0; 65_536]);
    assert!(matches!(
        add_rar13_data(long, plain(), None, &one_volume(7)),
        Err(RarError::InvalidOption(m))
            if m == "RAR 1.3/1.4 member comment is longer than 65535 bytes"
    ));
    let name = "n".repeat(256);
    assert!(matches!(
        add_rar13_data(job(&name, b"x", 0), plain(), None, &one_volume(7)),
        Err(RarError::InvalidOption(m))
            if m == "RAR 1.3/1.4 member names are limited to 255 bytes (got 256)"
    ));
    let mut wide = job("a.txt", b"x", 0);
    wide.comment = Some(vec![0; 65_520]);
    assert!(matches!(
        add_rar13_data(wide, plain(), None, &one_volume(7)),
        Err(RarError::InvalidOption(m))
            if m == "RAR 1.3/1.4 file header is longer than 65535 bytes"
    ));
    assert_eq!(directory_name("a/b"), "a/b/");
    assert_eq!(directory_name("a/b///"), "a/b/");
    assert_eq!(directory_name("//"), "/");
    let volume = rar13_main_header(false, None, false).unwrap();
    assert_eq!(parse_volume(&volume, 0, 0).unwrap().entries.len(), 0);
}

fn output() -> Rar4Output {
    Rar4Output {
        unp_ver: 29,
        solid_mode: false,
        dict_bits: None,
        header_encryption: false,
        volume_size: None,
        volume_index: 0,
        position: 20,
        used: 20,
        fresh: 20,
    }
}

fn source(file_size: u64, level: u8, compressed: u64) -> StreamedSource {
    StreamedSource { file_size, read: file_size, file_crc: 7, level, compressed }
}

#[test]
fn streamed_members_choose_their_payload() {
    let p = streamed_member(source(100, 3, 60), 29, false).unwrap();
    assert!(p.from_spill);
    assert_eq!((p.plain_len, p.packed_size, p.method), (60, 60, 0x33));
    let p = streamed_member(source(100, 3, 100), 29, false).unwrap();
    assert!(!p.from_spill);
    assert_eq!((p.plain_len, p.packed_size, p.method), (100, 100, RAR4_METHOD_STORE));
    let p = streamed_member(source(100, 0, 0), 20, true).unwrap();
    assert_eq!((p.plain_len, p.packed_size), (100, 112));
    assert_eq!(p.cipher.unwrap().codec, LegacyCodec::Rar20);
    let changed = StreamedSource { read: 99, ..source(100, 0, 0) };
    let err = streamed_member(changed, 29, false).unwrap_err();
    assert!(matches!(err, RarError::Io(_)));
    assert!(err
        .message()
        .contains("file changed size while being archived: expected 100 bytes, read 99"));
    assert!(matches!(
        streamed_member(source(1 << 32, 0, 0), 29, false),
        Err(RarError::InvalidOption(_))
    ));
    assert!(matches!(
        streamed_member(source(100, 0, 0), 14, true),
        Err(RarError::Unsupported(_))
    ));
    assert!(matches!(
        streamed_member(source(u32::MAX as u64, 0, 0), 29, true),
        Err(RarError::InvalidOption(_))
    ));
    assert!(check_read_size(5, 5).is_ok());
    assert_eq!(copy_end(0, 10), 10);
    assert_eq!(copy_end(0, 0x10_0001), 0x10_0000);
}

#[test]
fn streamed_members_are_laid_out_and_written() {
    let data: Vec<u8> = (0..60u8).collect();
    let out = Rar4Output { volume_size: Some(120), ..output() };
    let file = StreamedFile {
        name: "big.bin".to_string(),
        mtime: 1_700_000_000,
        civil: 1_700_000_000,
        mtime_ns: 0,
        attr: 0x20,
        salt: None,
    };
    let run = SolidRun { mode: true, unp_ver: 29, has_member: true };
    let plan =
        add_rar4_file_streaming(&NoRecovery, file, source(100, 3, 60), false, run, &out).unwrap();
    assert_eq!(plan.payload.method, 0x33);
    assert!(plan.step.continuation && plan.member.solid_continuation);
    let lens: Vec<u64> = plan.layout.pieces.iter().map(|p| p.len).collect();
    assert!(lens.len() > 1);
    assert_eq!(lens.iter().sum::<u64>(), 60);
    let crcs: Vec<u32> = plan
        .layout
        .pieces
        .iter()
        .map(|p| crc32(&data[p.offset as usize..(p.offset + p.len) as usize]))
        .collect();
    let n = lens.len();
    let e = finish_rar4_member(
        &NoRecovery,
        &plan.member,
        plan.payload.packed_size,
        plan.layout,
        &crcs,
        &out,
    );
    assert_eq!(e.segments.len(), n);
    assert_eq!(e.entry.compressed_size(), 60);
}

#[test]
fn files_are_routed_by_size_and_version() {
    let size = 64 * 1024 * 1024;
    assert!(matches!(
        add_file_rar4("a\\b.txt", size, false, 29, false, false, 3, true),
        FileRoute::Streamed { name, level: 3 } if name == "a/b.txt"
    ));
    assert!(matches!(
        add_file_rar4("b", size, false, 20, false, true, 3, false),
        FileRoute::Streamed { level: 0, .. }
    ));
    assert!(matches!(
        add_file_rar4("b", size - 1, false, 29, false, false, 3, false),
        FileRoute::Buffered { .. }
    ));
    assert!(matches!(
        add_file_rar4("b", size, false, 14, true, false, 3, false),
        FileRoute::Buffered { .. }
    ));
    assert_eq!(archive_name("\\x\\\u{e9}/y"), "/x/\u{e9}/y");
}

#[test]
fn batches_cover_every_entry_in_order() {
    let small = Some(1000u64);
    let large = Some(65 * 1024 * 1024);
    let steps = add_batch_parallel_rar4(&[small, small, None, small, large, small]);
    assert_eq!(
        steps,
        [
            BatchStep::Wave { from: 0, to: 2 },
            BatchStep::Alone { index: 2 },
            BatchStep::Wave { from: 3, to: 4 },
            BatchStep::Alone { index: 4 },
            BatchStep::Wave { from: 5, to: 6 },
        ]
    );
    assert!(add_batch_parallel_rar4(&[]).is_empty());
}

fn read_file(name: &str, data: &[u8]) -> ReadFile {
    ReadFile {
        name: name.to_string(),
        mtime: 1_700_000_000,
        civil: 1_700_000_000,
        mtime_ns: 0,
        attr: 0x20,
        data: data.to_vec(),
    }
}

fn written_volume(flags: u16) -> (Vec<u8>, ArchiveEntry) {
    let prepared = prepare_rar4_file_member(read_file("a.txt", b"hello"), 0, None);
    assert_eq!(prepared.method, RAR4_METHOD_STORE);
    assert_eq!(prepared.file_crc, crc32(b"hello"));
    let e = emit_rar4_prepared(&NoRecovery, prepared, b"hello", false, None, &output()).unwrap();
    let mut volume = RAR4_SIGNATURE.to_vec();
    volume.extend_from_slice(&build_main_header(flags));
    for s in &e.segments {
        volume.extend_from_slice(&s.header);
        volume.extend_from_slice(b"hello");
    }
    volume.extend_from_slice(&build_endarc_single());
    (volume, e.entry)
}

#[test]
fn prepared_members_are_written_and_opened() {
    let packed = prepare_rar4_file_member(read_file("b", b"aaaaaa"), 3, Some(b"xy".to_vec()));
    assert_eq!((packed.packed.as_slice(), packed.method), (&b"xy"[..], 0x33));
    let stored = prepare_rar4_file_member(read_file("b", b"aa"), 3, Some(b"xyz".to_vec()));
    assert_eq!((stored.packed.as_slice(), stored.method), (&b"aa"[..], RAR4_METHOD_STORE));
    let (volume, entry) = written_volume(MHD_SOLID);
    let mut scan = Rar4VolumeScan::new();
    let mut out = Vec::new();
    let r = open_rar4_volume(&mut scan, &volume, 0, 7, "a.rar", false, 10, &mut out).unwrap();
    assert_eq!(r, ScanProgress::Done);
    let catalog = open_read_rar4(scan, out).unwrap();
    assert!(catalog.archive_solid && !catalog.new_numbering);
    assert_eq!(catalog.entries.len(), 1);
    assert_eq!(catalog.entries[0].name(), "a.txt");
    assert_eq!(catalog.entries[0].data_offset(), entry.data_offset());
    let options = MemberDecodeOptions {
        password: None,
        decoder: None,
        max_alloc_packed_bytes: 100,
        max_stream_packed_bytes: 100,
    };
    let got = &catalog.entries[0];
    match decode_member_bytes(&[volume], &got.chunks, &got.header, options).unwrap() {
        MemberStep::Done(data) => assert_eq!(data, b"hello"),
        _ => panic!("a stored member is done at once"),
    }
}

#[test]
fn volumes_are_opened_by_their_signature() {
    let (volume, _) = written_volume(0);
    let mut scan = Rar4VolumeScan::new();
    let mut out = Vec::new();
    assert!(matches!(
        open_rar4_volume(&mut scan, &volume[..6], 1, 0, "b.r00", false, 10, &mut out),
        Err(RarError::Io(_))
    ));
    let mut bad = volume.clone();
    bad[6] = 1;
    assert!(matches!(
        open_rar4_volume(&mut scan, &bad, 1, 0, "b.r00", false, 10, &mut out),
        Err(RarError::Format(m)) if m == "volume b.r00 has a bad RAR4 signature"
    ));
    assert!(matches!(
        open_rar4_volume(&mut scan, &volume, 1, 0, "b.r00", false, 0, &mut out),
        Err(RarError::LimitExceeded { limit: 0, .. })
    ));
    assert_eq!(out[0].chunks[0].volume_index, 1);
    assert!(check_entry_cap(3, 3).is_ok());
    assert!(check_entry_cap(4, 3).is_err());
}

#[test]
fn encrypted_headers_are_scanned_block_by_block() {
    let (plain_volume, _) = written_volume(0);
    let key = HeaderKey { key: [7; 16], iv: [9; 16] };
    let mut volume = RAR4_SIGNATURE.to_vec();
    volume.extend_from_slice(&build_main_header(MHD_PASSWORD));
    let header = &plain_volume[20..plain_volume.len() - 7 - 5];
    let (block, _) = encrypt_block_header_with(header, &[1; 8], &key);
    volume.extend_from_slice(&block);
    volume.extend_from_slice(b"hello");
    let (block, _) = encrypt_block_header_with(&build_endarc_single(), &[2; 8], &key);
    volume.extend_from_slice(&block);
    let mut scan = Rar4VolumeScan::new();
    let mut out = Vec::new();
    let mut r = open_rar4_volume(&mut scan, &volume, 0, 7, "a.rar", true, 10, &mut out).unwrap();
    let mut blocks = 0;
    while let ScanProgress::NeedsKey { at } = r {
        r = scan_encrypted_block(&mut scan, &volume, at as usize, &key, 0, &mut out).unwrap();
        blocks += 1;
    }
    assert_eq!(blocks, 2);
    let catalog = open_read_rar4(scan, out).unwrap();
    assert_eq!(catalog.entries[0].name(), "a.txt");
    let from = catalog.entries[0].data_offset() as usize;
    assert_eq!(&volume[from..from + 5], b"hello");
    let wrong = HeaderKey { key: [8; 16], iv: [9; 16] };
    let mut scan = Rar4VolumeScan::new();
    let mut out = Vec::new();
    assert!(matches!(
        scan_encrypted_block(&mut scan, &volume, 20, &wrong, 0, &mut out),
        Err(RarError::WrongPassword)
    ));
}

fn solid_entry(solid: bool, crc: u32) -> ArchiveEntry {
    ArchiveEntry {
        header: FileHeader {
            name: "m".to_string(),
            comp_method: 3,
            comp_solid: solid,
            unp_ver: 29,
            format_version: 4,
            crc32_val: Some(crc),
            ..Default::default()
        },
        chunks: Vec::new(),
    }
}

#[test]
fn solid_members_are_reached_through_their_chain() {
    let good = crc32(b"hello");
    let entries = [solid_entry(false, good), solid_entry(true, good), solid_entry(false, good)];
    let fresh = SolidState { codec: None, decoded_through: -1 };
    match decode_rar4_at(&entries, false, fresh, 1) {
        DecodePlan::Solid { start, tasks } => {
            assert_eq!(start.codec, Some(LegacyCodec::Rar29));
            assert_eq!(tasks.len(), 2);
            assert_eq!((tasks[0].index, tasks[1].index), (0, 1));
        }
        DecodePlan::Alone => panic!("a flagged member is in a chain"),
    }
    assert!(matches!(decode_rar4_at(&entries, false, fresh, 2), DecodePlan::Alone));
    let state = SolidState { codec: Some(LegacyCodec::Rar29), decoded_through: 1 };
    let (r, after) = finish_rar4_member_read(&entries, false, 1, state, Ok(b"hello".to_vec()));
    assert_eq!(r.unwrap(), b"hello");
    assert_eq!(after, state);
    let (r, after) = finish_rar4_member_read(&entries, false, 1, state, Ok(b"jello".to_vec()));
    assert!(matches!(r, Err(RarError::Crc { .. })));
    assert_eq!(after, SolidState { codec: None, decoded_through: -1 });
    let (r, after) =
        finish_rar4_member_read(&entries, false, 2, state, Err(RarError::WrongPassword));
    assert!(matches!(r, Err(RarError::WrongPassword)));
    assert_eq!(after, state);
    assert_eq!(decode_rar4_to(&entries[0].header, 5, good, 0).unwrap(), 5);
    assert!(decode_rar4_to(&entries[0].header, 5, good + 1, 0).is_err());
}

#[test]
fn packed_comments_are_members() {
    let volumes = [b"....packed".to_vec()];
    match decode_comment_stream(&volumes, 4, 6, 0x33, 20).unwrap() {
        MemberStep::Unpack { codec, packed, solid } => {
            assert_eq!(codec, LegacyCodec::Rar29);
            assert_eq!(packed, b"packed");
            assert!(!solid);
        }
        _ => panic!("a packed comment has to be unpacked"),
    }
    assert!(matches!(
        decode_comment_stream(&volumes, 4, 6, 0x30, 20),
        Err(RarError::Format(m)) if m == "RAR4: unsupported comment compression method"
    ));
    assert!(matches!(
        decode_comment_stream(&volumes, 4, 0x400_0001, 0x33, 20),
        Err(RarError::LimitExceeded { .. })
    ));
}
