use rar::engine::ArchiveEntry;
use rar::error::RarError;
use rar::model::{DataChunk, FileHeader};
use rar::rar4::emit::{emit_rar4_split, legacy_data_budget, NoRecovery, SplitJob, VolumeRules};
use rar::rar4::encode::{
    best_rar29_member, encode_route, legacy_rar15_options, legacy_rar20_options, packed_or_stored,
    payload_cipher, payload_len, rar29_filter_candidates, BlockRangeEmitter, EncodeRoute,
    FilterExtent, FilterMode, FilterOptions, FilterScan, Rar29FilterKind,
};
use rar::rar4::envelope::{encrypt_block_header_with, HeaderKey};
use rar::rar4::extract::{
    is_rar4_solid_member, max_stream_packed_bytes, rar4_decode_solid_through,
    rar4_find_chain_start, SolidState,
};
use rar::rar4::headers::{build_endarc_single, build_main_header};
use rar::rar4::member::{
    emit_rar4_member, next_wave, rar4_stream_level, streamed_payload, track_rar4_solid_member,
    Rar4Member, Rar4Output, SolidRun,
};
use rar::rar4::read::{
    checked_packed_size, decode_member_bytes, decode_member_bytes_to, finish_stream,
    map_codec_error, rar4_verify_crc, read_chunk, resume_decrypted, resume_unpacked, stream_stored,
    CrcWriter, MemberDecodeOptions, MemberStep,
};
use rar::rar4::scan::{Rar4VolumeScan, ScanProgress};
use rar::rar4::writer::{
    add_rar4_data, begin_rar4_data, emit_pending_rar4_comment, rar4_payload, write_rar4_dir_entry,
    DataJob, DataStart,
};
use rar::rar4::{create, MHD_PASSWORD, MHD_SOLID, RAR4_METHOD_STORE};
use rar::version::LegacyCodec;

fn store_header(packed_size: u64, unpacked_size: u64) -> FileHeader {
    FileHeader {
        name: "payload.bin".into(),
        packed_size,
        unpacked_size,
        comp_method: 0,
        format_version: 4,
        ..Default::default()
    }
}

fn options(max_packed_bytes: u64) -> MemberDecodeOptions<'static> {
    MemberDecodeOptions {
        password: None,
        decoder: None,
        max_alloc_packed_bytes: max_packed_bytes,
        max_stream_packed_bytes: max_packed_bytes,
    }
}

fn chunk(packed_size: u64) -> DataChunk {
    DataChunk {
        volume_index: 0,
        data_offset: 0,
        packed_size,
        crc32_val: None,
        is_final: true,
        extra_data: Vec::new(),
    }
}

fn failure(step: Result<MemberStep, RarError>) -> RarError {
    match step {
        Ok(_) => panic!("expected an error"),
        Err(e) => e,
    }
}

fn done(step: Result<MemberStep, RarError>) -> Vec<u8> {
    match step {
        Ok(MemberStep::Done(data)) => data,
        _ => panic!("expected the member's bytes"),
    }
}

#[test]
fn store_stream_rejects_output_larger_than_declared_size() {
    let header = store_header(4, 2);
    let error = failure(decode_member_bytes_to(
        &[b"abcd".to_vec()],
        &[chunk(4)],
        &header,
        options(16),
    ));
    assert!(error.message().contains("does not match unpacked size"));
}

#[test]
fn store_rejects_output_shorter_than_declared_size() {
    let header = store_header(2, 4);
    let error = failure(decode_member_bytes(
        &[b"ab".to_vec()],
        &[chunk(2)],
        &header,
        options(16),
    ));

    assert!(error.message().contains("does not match unpacked size"));
}

#[test]
fn packed_payload_limit_is_checked_before_allocation() {
    let header = store_header(u64::MAX, u64::MAX);
    let error = failure(decode_member_bytes(
        &[Vec::new()],
        &[chunk(u64::MAX)],
        &header,
        options(1024),
    ));

    assert!(matches!(error, RarError::LimitExceeded { limit: 1024, .. }));
}

#[test]
fn unlimited_store_stream_is_not_rejected_by_allocation_guard() {
    const ALLOCATION_GUARD: u64 = 8 * 1024 * 1024 * 1024;
    let size = ALLOCATION_GUARD + 1;
    let header = store_header(size, size);
    let error = failure(decode_member_bytes_to(
        &[Vec::new()],
        &[chunk(size)],
        &header,
        MemberDecodeOptions {
            password: None,
            decoder: None,
            max_alloc_packed_bytes: ALLOCATION_GUARD,
            max_stream_packed_bytes: u64::MAX,
        },
    ));

    assert!(
        matches!(error, RarError::Io(_)),
        "unexpected error: {}",
        error.message()
    );
}

#[test]
fn packed_chunk_sum_overflow_is_rejected() {
    let header = store_header(0, 0);
    let error = checked_packed_size(&[chunk(u64::MAX), chunk(1)], &header, u64::MAX).unwrap_err();

    assert!(error.message().contains("packed size overflow"));
}

#[test]
fn store_exact_size_roundtrips() {
    let header = store_header(4, 4);
    let output = done(decode_member_bytes(
        &[b"abcd".to_vec()],
        &[chunk(4)],
        &header,
        options(16),
    ));

    assert_eq!(output, b"abcd");
}

#[test]
fn unknown_unpack_version_is_rejected() {
    let header = FileHeader {
        name: "mystery.bin".into(),
        packed_size: 0,
        unpacked_size: 1,
        comp_method: RAR4_METHOD_STORE + 1,
        unp_ver: 33,
        format_version: 4,
        ..Default::default()
    };
    let error = failure(decode_member_bytes(&[Vec::new()], &[], &header, options(16)));

    assert!(matches!(error, RarError::Unsupported(_)), "got {error:?}");
}

#[test]
fn split_members_are_assembled_across_volumes() {
    let header = store_header(5, 5);
    let mut second = chunk(2);
    second.volume_index = 1;
    second.data_offset = 1;
    let volumes = [b"abc".to_vec(), b"xdey".to_vec()];
    let chunks = [chunk(3), second];
    assert_eq!(done(decode_member_bytes(&volumes, &chunks, &header, options(16))), b"abcde");
    // Streamed, the chunks are copied through one by one.
    assert!(matches!(
        decode_member_bytes_to(&volumes, &chunks, &header, options(16)),
        Ok(MemberStep::Copy)
    ));
    let copied: Vec<u8> =
        chunks.iter().flat_map(|c| read_chunk(&volumes, c).unwrap().to_vec()).collect();
    assert_eq!(copied, b"abcde");
    let (n, crc, sum) = stream_stored(&volumes, &chunks, &header).unwrap();
    assert_eq!((n, crc), (5, 0x8587D865));
    assert_eq!(sum, rar::shared::checksum::file_checksum(b"abcde"));
    let mut lost = chunks.clone();
    lost[1].volume_index = 2;
    assert_eq!(
        failure(decode_member_bytes(&volumes, &lost, &header, options(16))).message(),
        "RAR format error: RAR4: chunk volume out of range"
    );
    // The first chunk that is not there decides.
    assert_eq!(
        failure(decode_member_bytes_to(&volumes, &lost, &header, options(16))).message(),
        "RAR format error: RAR4: chunk volume out of range"
    );
    let mut short = lost.clone();
    short[0].data_offset = 1;
    assert!(matches!(
        failure(decode_member_bytes_to(&volumes, &short, &header, options(16))),
        RarError::Io(_)
    ));
    assert!(matches!(stream_stored(&volumes, &short, &header), Err(RarError::Io(_))));
    let mut less = header.clone();
    less.unpacked_size = 4;
    assert!(matches!(stream_stored(&volumes, &chunks, &less), Err(RarError::Io(_))));
    let wrong = failure(decode_member_bytes(&volumes, &chunks[..1], &header, options(16)));
    assert_eq!(
        wrong.message(),
        "RAR format error: RAR4: payload.bin: chunk packed size 3 does not match header packed size 5"
    );
}

#[test]
fn compressed_and_encrypted_members_name_the_next_step() {
    let mut header = store_header(2, 9);
    header.comp_method = 3;
    header.unp_ver = 29;
    match decode_member_bytes(&[b"zz".to_vec()], &[chunk(2)], &header, options(16)).unwrap() {
        MemberStep::Unpack { codec, packed, solid } => {
            assert_eq!(codec, LegacyCodec::Rar29);
            assert_eq!(packed, b"zz");
            assert!(!solid);
        }
        _ => panic!("unpack"),
    }
    let mut chained = options(16);
    chained.decoder = Some(LegacyCodec::Rar20);
    assert_eq!(
        failure(decode_member_bytes(&[b"zz".to_vec()], &[chunk(2)], &header, chained)).message(),
        "RAR format error: RAR4: RAR29 member in a solid chain carrying the RAR20 decoder"
    );
    header.flags = 4;
    assert!(matches!(
        failure(decode_member_bytes(&[b"zz".to_vec()], &[chunk(2)], &header, options(16))),
        RarError::Encrypted(_)
    ));
    let mut with_password = options(16);
    with_password.password = Some("pw");
    match decode_member_bytes(&[b"zz".to_vec()], &[chunk(2)], &header, with_password).unwrap() {
        MemberStep::Decrypt { codec, packed } => {
            assert_eq!(codec, LegacyCodec::Rar29);
            assert_eq!(packed, b"zz");
        }
        _ => panic!("decrypt"),
    }
    // An encrypted stored member is cut to its size.
    header.comp_method = 0;
    header.unpacked_size = 1;
    assert_eq!(done(resume_decrypted(&header, b"zz".to_vec(), None, false)), b"z");
    assert_eq!(done(resume_decrypted(&header, b"zz".to_vec(), None, true)), b"z");
    header.unpacked_size = 3;
    assert_eq!(
        failure(resume_decrypted(&header, b"zz".to_vec(), None, false)).message(),
        "RAR format error: RAR4: payload.bin: STORE payload is shorter than declared unpacked size 3"
    );
    assert_eq!(
        failure(resume_decrypted(&header, b"zz".to_vec(), None, true)).message(),
        "RAR format error: RAR4: payload.bin: encrypted STORE payload is shorter than declared \
         unpacked size 3"
    );
}

#[test]
fn rar13_payloads_are_decrypted_on_the_way() {
    let mut data = b"hello world".to_vec();
    rar::crypto::rar13::Rar13Cipher::new(b"password").encrypt_in_place(&mut data);
    let mut header = store_header(11, 11);
    header.format_version = 3;
    header.flags = 4;
    header.crc32_val = Some(u32::from(rar::shared::checksum::file_checksum(b"hello world")));
    let mut opts = options(64);
    opts.password = Some("password");
    let out = done(decode_member_bytes(&[data], &[chunk(11)], &header, opts));
    assert_eq!(out, b"hello world");
    assert!(rar4_verify_crc(&header, &out).is_ok());
    // A mismatch of an encrypted member is a wrong password.
    assert!(matches!(
        rar4_verify_crc(&header, b"hello worle").unwrap_err(),
        RarError::WrongPassword
    ));
}

#[test]
fn decoder_results_are_checked() {
    let mut header = store_header(2, 3);
    assert_eq!(resume_unpacked(&header, Ok(b"abc".to_vec())).unwrap(), b"abc");
    assert_eq!(
        resume_unpacked(&header, Ok(b"ab".to_vec())).unwrap_err().message(),
        "RAR format error: RAR4: payload.bin: decoded size 2 does not match declared unpacked size 3"
    );
    assert!(matches!(
        resume_unpacked(&header, Err(RarError::format("bad"))).unwrap_err(),
        RarError::Format(_)
    ));
    header.flags = 4;
    assert!(matches!(
        resume_unpacked(&header, Err(RarError::format("bad"))).unwrap_err(),
        RarError::WrongPassword
    ));
    assert!(matches!(
        map_codec_error(&header, RarError::encrypted("e")),
        RarError::Encrypted(_)
    ));
    assert!(matches!(
        map_codec_error(&header, RarError::Cancelled),
        RarError::Cancelled
    ));
    header.flags = 0;
    header.crc32_val = Some(1);
    assert_eq!(
        rar4_verify_crc(&header, b"abc").unwrap_err().message(),
        "CRC mismatch in payload.bin: checksum mismatch: expected 0x00000001, got 0x352441C2"
    );
    let (n, crc, sum) = finish_stream(&header, b"abc").unwrap();
    assert_eq!((n, crc), (3, 0x352441C2));
    assert_eq!(sum, rar::shared::checksum::file_checksum(b"abc"));
    assert!(finish_stream(&header, b"ab").is_err());
    let beyond = finish_stream(&header, b"abcd").unwrap_err();
    assert!(matches!(beyond, RarError::Io(_)));
    assert!(beyond
        .message()
        .contains("RAR4 decoder attempted to write beyond declared unpacked size 3"));
    let mut w = CrcWriter::new(3);
    w.write(b"a").unwrap();
    w.write(b"bc").unwrap();
    assert!(w.write(b"d").is_err());
    let (count, crc, sum) = w.finish();
    assert_eq!((count, crc), (3, 0x352441C2));
    assert_eq!(sum, rar::shared::checksum::file_checksum(b"abc"));
}

fn entry(unp_ver: u8, method: u8, solid: bool, dir: bool) -> ArchiveEntry {
    ArchiveEntry {
        header: FileHeader {
            unp_ver,
            comp_method: method,
            comp_solid: solid,
            is_directory: dir,
            format_version: 4,
            ..Default::default()
        },
        chunks: Vec::new(),
    }
}

#[test]
fn flagged_runs_chain_to_their_head() {
    let e = vec![
        entry(29, 3, false, false),
        entry(29, 3, true, false),
        entry(20, 0, false, true),
        entry(29, 3, true, false),
        entry(29, 3, false, false),
        entry(29, 3, true, false),
    ];
    assert_eq!(rar4_find_chain_start(&e, 0), 0);
    assert_eq!(rar4_find_chain_start(&e, 3), 0);
    assert_eq!(rar4_find_chain_start(&e, 5), 4);
    assert!(is_rar4_solid_member(&e, false, 0));
    assert!(is_rar4_solid_member(&e, false, 5));
    assert!(is_rar4_solid_member(&e, false, 4));
    assert!(!is_rar4_solid_member(&e, false, 2));
    assert!(!is_rar4_solid_member(&e[4..5], false, 0));
}

#[test]
fn old_runs_chain_by_the_archive_flag() {
    let e = vec![
        entry(20, 0, false, false),
        entry(20, 3, false, false),
        entry(20, 0, false, false),
        entry(20, 3, false, false),
    ];
    assert!(is_rar4_solid_member(&e, true, 3));
    assert!(!is_rar4_solid_member(&e, false, 3));
    assert_eq!(rar4_find_chain_start(&e, 3), 1);
    assert_eq!(rar4_find_chain_start(&e, 0), 0);
}

#[test]
fn solid_decoding_goes_on_where_it_can() {
    let e = vec![
        entry(29, 3, false, false),
        entry(29, 3, true, false),
        entry(29, 3, true, false),
        entry(29, 3, true, false),
    ];
    let fresh = SolidState { codec: None, decoded_through: -1 };
    let (state, tasks) = rar4_decode_solid_through(&e, fresh, 1);
    assert_eq!(state.decoded_through, -1);
    assert_eq!(tasks.iter().map(|t| t.index).collect::<Vec<_>>(), [0, 1]);
    let mid = SolidState { codec: Some(LegacyCodec::Rar29), decoded_through: 1 };
    let (state, rest) = rar4_decode_solid_through(&e, mid, 3);
    assert_eq!(state, mid);
    assert_eq!(rest.iter().map(|t| t.index).collect::<Vec<_>>(), [2, 3]);
    assert!(rest.iter().all(|t| !t.fresh));
    // Backwards: from the start again.
    let late = SolidState { codec: Some(LegacyCodec::Rar29), decoded_through: 3 };
    let (state, again) = rar4_decode_solid_through(&e, late, 2);
    assert_eq!(state.decoded_through, -1);
    assert_eq!(again.len(), 3);
    // Another codec replaces the decoder; a stored member leaves it.
    let old = vec![entry(20, 3, false, false), entry(20, 0, false, false)];
    let (_, tasks) = rar4_decode_solid_through(&old, fresh, 1);
    assert_eq!(tasks[0].codec, LegacyCodec::Rar20);
    assert!(tasks[0].fresh);
    assert_eq!(tasks[1].codec, LegacyCodec::Rar20);
    assert!(!tasks[1].fresh);
    assert_eq!(max_stream_packed_bytes(None), u64::MAX);
    assert_eq!(max_stream_packed_bytes(Some(5)), 5 + (1 << 20));
    assert_eq!(max_stream_packed_bytes(Some(u64::MAX)), u64::MAX);
}

#[test]
fn volume_budget_leaves_room_for_headers() {
    let rules = VolumeRules { volume_size: 100, segment_reserve: 40, eoa: 20 };
    assert_eq!(legacy_data_budget(&NoRecovery, rules, 0), 40);
    assert_eq!(legacy_data_budget(&NoRecovery, rules, 39), 1);
    assert_eq!(legacy_data_budget(&NoRecovery, rules, 40), 0);
    assert_eq!(legacy_data_budget(&NoRecovery, rules, 1000), 0);
    let wide = VolumeRules { volume_size: u64::MAX, ..rules };
    assert_eq!(legacy_data_budget(&NoRecovery, wide, 0), u64::MAX - 60);
    assert_eq!(legacy_data_budget(&NoRecovery, wide, u64::MAX), 0);
}

#[test]
fn splits_fill_each_volume() {
    let rules = VolumeRules { volume_size: 100, segment_reserve: 40, eoa: 20 };
    let job = SplitJob { rules, head_len: 40, packed_size: 70, used: 20, fresh: 20 };
    let pieces = emit_rar4_split(&NoRecovery, job).unwrap();
    let lens: Vec<u64> = pieces.iter().map(|p| p.len).collect();
    assert_eq!(lens, [20, 20, 20, 10]);
    let offsets: Vec<u64> = pieces.iter().map(|p| p.offset).collect();
    assert_eq!(offsets, [0, 20, 40, 60]);
    assert!(!pieces[0].new_volume && pieces[1].new_volume);
    assert!(pieces[0].split_after && !pieces[0].split_before);
    assert!(!pieces[3].split_after && pieces[3].split_before);
    let wide = SplitJob { rules: VolumeRules { volume_size: u64::MAX, ..rules }, ..job };
    assert_eq!(emit_rar4_split(&NoRecovery, wide).unwrap().len(), 1);
    let tiny = SplitJob { rules: VolumeRules { volume_size: 60, ..rules }, ..job };
    assert_eq!(
        emit_rar4_split(&NoRecovery, tiny).unwrap_err().message(),
        "invalid option: volume size 60 is too small for a RAR4 member header"
    );
}

fn output() -> Rar4Output {
    Rar4Output {
        unp_ver: 29,
        solid_mode: false,
        dict_bits: None,
        header_encryption: false,
        volume_size: None,
        volume_index: 0,
        position: 20,
        used: 20,
        fresh: 20,
    }
}

fn member(name: &str, size: u64, method: u8, level: u8) -> Rar4Member {
    Rar4Member {
        name: name.to_string(),
        unpacked_size: size,
        file_crc: 0xCAFE_F00D,
        mtime: 1_700_000_000,
        civil: 1_700_000_000,
        mtime_ns: 0,
        method,
        level,
        password: false,
        salt: None,
        comment: None,
        attr: 0x20,
        solid_continuation: false,
    }
}

#[test]
fn a_written_member_is_found_by_the_scan() {
    let data = b"some member data".to_vec();
    let mut m = member("dir/\u{e9}.txt", 16, 0x30, 0);
    m.comment = Some(b"a note".to_vec());
    let e = emit_rar4_member(&NoRecovery, &m, &data, &output()).unwrap();
    assert_eq!(e.segments.len(), 1);
    let mut volume = rar::detect::RAR4_SIGNATURE.to_vec();
    volume.extend_from_slice(&build_main_header(MHD_SOLID));
    for s in &e.segments {
        volume.extend_from_slice(&s.header);
        let from = s.piece.offset as usize;
        volume.extend_from_slice(&data[from..from + s.piece.len as usize]);
        if let Some(t) = &s.trailer {
            volume.extend_from_slice(t);
        }
    }
    volume.extend_from_slice(&build_endarc_single());
    let mut scan = Rar4VolumeScan::new();
    let mut out = Vec::new();
    let progress = scan.scan_volume(&volume, 7, 0, false, &mut out).unwrap();
    assert_eq!(progress, ScanProgress::Done);
    assert!(scan.archive_solid);
    scan.finish().unwrap();
    assert_eq!(out.len(), 1);
    let got = &out[0];
    assert_eq!(got.name(), "dir/\u{e9}.txt");
    assert_eq!(got.size(), 16);
    assert_eq!(got.comment(), Some(&b"a note"[..]));
    assert_eq!(got.header.unp_ver, 20);
    assert_eq!(got.data_offset(), e.entry.data_offset());
    let bytes = done(decode_member_bytes(
        &[volume],
        got.chunks(),
        &got.header,
        options(1024),
    ));
    assert_eq!(bytes, data);
}

#[test]
fn a_split_member_is_merged_by_the_scan() {
    let data: Vec<u8> = (0..200u8).collect();
    let m = member("big.bin", 200, 0x33, 3);
    let mut out_state = output();
    out_state.volume_size = Some(150);
    let e = emit_rar4_member(&NoRecovery, &m, &data, &out_state).unwrap();
    assert!(e.segments.len() > 2);
    let mut volumes: Vec<Vec<u8>> = Vec::new();
    let mut start = rar::detect::RAR4_SIGNATURE.to_vec();
    start.extend_from_slice(&build_main_header(1));
    volumes.push(start.clone());
    for s in &e.segments {
        if s.piece.new_volume {
            volumes.push(start.clone());
        }
        let last = volumes.last_mut().unwrap();
        last.extend_from_slice(&s.header);
        let from = s.piece.offset as usize;
        last.extend_from_slice(&data[from..from + s.piece.len as usize]);
        assert!(last.len() + 20 <= 150);
    }
    let mut scan = Rar4VolumeScan::new();
    let mut found = Vec::new();
    for (i, v) in volumes.iter().enumerate() {
        scan.scan_volume(v, 7, i, false, &mut found).unwrap();
    }
    scan.finish().unwrap();
    assert_eq!(found.len(), 1);
    assert_eq!(found[0].compressed_size(), 200);
    assert_eq!(found[0].crc32(), Some(0xCAFE_F00D));
    assert_eq!(found[0].chunks().len(), e.segments.len());
    for (a, b) in found[0].chunks().iter().zip(e.entry.chunks()) {
        assert_eq!(a.volume_index, b.volume_index);
        assert_eq!(a.data_offset, b.data_offset);
        assert_eq!(a.packed_size, b.packed_size);
        assert_eq!(a.crc32_val, b.crc32_val);
        assert_eq!(a.is_final, b.is_final);
    }
    // The first volume alone leaves the member open.
    let mut scan = Rar4VolumeScan::new();
    let mut found = Vec::new();
    scan.scan_volume(&volumes[0], 7, 0, false, &mut found).unwrap();
    assert_eq!(
        scan.finish().unwrap_err().message(),
        "RAR format error: RAR4: split member big.bin is missing its final volume"
    );
    // A later volume alone has nothing to continue.
    let mut scan = Rar4VolumeScan::new();
    assert_eq!(
        scan.scan_volume(&volumes[1], 7, 1, false, &mut found).unwrap_err().message(),
        "RAR format error: RAR4: big.bin: split continuation without a start"
    );
}

#[test]
fn nested_comments_survive_the_checksum() {
    let mut m = member("old.txt", 3, 0x30, 1);
    m.comment = Some(b"nested".to_vec());
    let mut out_state = output();
    out_state.unp_ver = 20;
    let e = emit_rar4_member(&NoRecovery, &m, b"abc", &out_state).unwrap();
    assert!(e.segments[0].trailer.is_none());
    let mut volume = e.segments[0].header.clone();
    volume.extend_from_slice(b"abc");
    let mut scan = Rar4VolumeScan::new();
    let mut found = Vec::new();
    scan.scan_volume(&volume, 0, 0, false, &mut found).unwrap();
    assert_eq!(found[0].comment(), Some(&b"nested"[..]));
}

#[test]
fn encrypted_volumes_ask_for_a_password_and_a_key() {
    let main = build_main_header(MHD_PASSWORD);
    let key = HeaderKey { key: [1; 16], iv: [2; 16] };
    let mut volume = main.to_vec();
    let (end, _) = encrypt_block_header_with(&build_endarc_single(), &[3; 8], &key);
    volume.extend_from_slice(&end);
    let mut scan = Rar4VolumeScan::new();
    let mut found = Vec::new();
    assert!(matches!(
        scan.scan_volume(&volume, 0, 0, false, &mut found).unwrap_err(),
        RarError::Encrypted(_)
    ));
    assert_eq!(
        scan.scan_volume(&volume, 0, 0, true, &mut found).unwrap(),
        ScanProgress::NeedsKey { at: 13 }
    );
}

#[test]
fn solid_runs_follow_the_member_version() {
    let run = SolidRun { mode: true, unp_ver: 29, has_member: false };
    let first = track_rar4_solid_member(run, 0x33, 10);
    assert!(!first.continuation && first.run.has_member);
    let second = track_rar4_solid_member(first.run, 0x33, 10);
    assert!(second.continuation);
    let stored = track_rar4_solid_member(second.run, 0x30, 10);
    assert!(!stored.continuation && stored.drop_encoder && !stored.run.has_member);
    let old = SolidRun { mode: true, unp_ver: 15, has_member: true };
    assert!(!track_rar4_solid_member(old, 0x33, 10).continuation);
    assert_eq!(track_rar4_solid_member(old, 0x30, 10).run, old);
    assert!(!track_rar4_solid_member(run, 0x33, 0).run.has_member);
}

#[test]
fn large_files_are_streamed() {
    let big = 64 << 20;
    assert_eq!(rar4_stream_level(big - 1, false, 29, false, false, 3, false), None);
    assert_eq!(rar4_stream_level(big, false, 29, false, false, 3, true), Some(3));
    assert_eq!(rar4_stream_level(big, true, 29, false, false, 3, false), None);
    assert_eq!(rar4_stream_level(big, false, 20, false, true, 3, false), Some(0));
    assert_eq!(rar4_stream_level(big, false, 20, false, false, 3, true), Some(0));
    assert_eq!(rar4_stream_level(big, false, 15, false, true, 3, false), Some(3));
    assert_eq!(rar4_stream_level(big, false, 33, true, false, 3, false), None);
    assert_eq!(rar4_stream_level(big, false, 33, false, false, 3, false), Some(0));
    assert_eq!(streamed_payload(100, 60, 3), (60, 0x33));
    assert_eq!(streamed_payload(100, 100, 3), (100, 0x30));
    assert_eq!(streamed_payload(100, 0, 0), (100, 0x30));
}

#[test]
fn waves_keep_to_their_budget() {
    let mb = 1u64 << 20;
    let sizes = [
        Some(64 * mb),
        Some(64 * mb),
        Some(64 * mb),
        Some(64 * mb),
        Some(1),
        None,
        Some(64 * mb + 1),
    ];
    assert_eq!(next_wave(&sizes, 0), 4);
    assert_eq!(next_wave(&sizes, 4), 5);
    assert_eq!(next_wave(&sizes, 5), 5);
    assert_eq!(next_wave(&sizes, 6), 6);
    assert_eq!(next_wave(&sizes, 7), 7);
}

#[test]
fn encoders_are_set_by_level() {
    assert_eq!(legacy_rar20_options(1).candidates, 16);
    assert_eq!(legacy_rar20_options(5).candidates, 1024);
    assert!(legacy_rar20_options(4).optimal_parse && !legacy_rar20_options(3).optimal_parse);
    assert!(!legacy_rar20_options(1).try_audio);
    assert_eq!(legacy_rar15_options(1).max_long_match_distance, Some(4096));
    assert_eq!(legacy_rar15_options(5).max_long_match_distance, None);
    assert!(!legacy_rar15_options(2).old_distance_tokens);
    assert!(legacy_rar15_options(3).stmode_literal_runs);
    assert_eq!(encode_route(29, 0, false, false).unwrap(), EncodeRoute::Store);
    assert_eq!(encode_route(33, 3, false, true).unwrap(), EncodeRoute::Store);
    assert_eq!(
        encode_route(15, 3, true, false).unwrap(),
        EncodeRoute::Try { codec: LegacyCodec::Rar15, solid: true }
    );
    assert_eq!(
        encode_route(33, 3, false, false).unwrap_err().message(),
        "unsupported: RAR4 write dispatch: unp_ver 33 has no encoder"
    );
    assert_eq!(
        payload_cipher(33).unwrap_err().message(),
        "unsupported: RAR4 write encryption: unp_ver 33 has no cipher"
    );
    let c = payload_cipher(20).unwrap();
    assert!(c.padded && !c.salted);
    assert_eq!(payload_len(17, Some(c)), 32);
    assert_eq!(payload_len(17, Some(payload_cipher(15).unwrap())), 17);
    assert!(payload_cipher(29).unwrap().salted);
}

#[test]
fn the_smallest_candidate_wins_and_the_first_of_equals() {
    let pick = |v: &[&[u8]], n| best_rar29_member(n, v.iter().map(|s| s.to_vec()).collect());
    assert_eq!(pick(&[b"aaa", b"bb", b"cc"], 10), Some(b"bb".to_vec()));
    assert_eq!(pick(&[b"aaa", b"bbb"], 3), None);
    assert_eq!(pick(&[], 3), None);
    assert_eq!(packed_or_stored(b"abc".to_vec(), b"x".to_vec(), 2), (b"x".to_vec(), 0x32));
    assert_eq!(packed_or_stored(b"abc".to_vec(), b"xyz".to_vec(), 2), (b"abc".to_vec(), 0x30));
    assert_eq!(rar4_payload(b"abc".to_vec(), 0, None), (b"abc".to_vec(), 0x30));
}

#[test]
fn filter_candidates_follow_the_policy() {
    let scan = FilterScan { e8e9: true, e8: true, delta_channels: Some(3), audio_channels: Some(2) };
    let auto = FilterOptions { x86: FilterMode::Auto, delta: FilterMode::Auto, delta_channels: None };
    assert_eq!(
        rar29_filter_candidates(false, auto, scan),
        vec![
            (Rar29FilterKind::E8E9, FilterExtent::Scanned),
            (Rar29FilterKind::E8, FilterExtent::Scanned),
            (Rar29FilterKind::Delta { channels: 3 }, FilterExtent::Whole),
            (Rar29FilterKind::Audio { channels: 2 }, FilterExtent::Whole),
        ]
    );
    let nothing =
        FilterScan { e8e9: false, e8: false, delta_channels: None, audio_channels: None };
    let forced =
        FilterOptions { x86: FilterMode::Forced, delta: FilterMode::Forced, delta_channels: None };
    assert_eq!(
        rar29_filter_candidates(false, forced, nothing),
        vec![
            (Rar29FilterKind::E8E9, FilterExtent::Whole),
            (Rar29FilterKind::Delta { channels: 1 }, FilterExtent::Whole),
        ]
    );
    let off = FilterOptions { x86: FilterMode::Off, delta: FilterMode::Off, delta_channels: None };
    assert_eq!(rar29_filter_candidates(false, off, nothing), vec![]);
    assert_eq!(rar29_filter_candidates(true, forced, scan), vec![]);
}

#[test]
fn ranges_of_ciphertext_make_the_whole() {
    let plain: Vec<u8> = (0..53u8).collect();
    let key = [5u8; 16];
    let iv = [6u8; 16];
    let mut whole = Vec::new();
    BlockRangeEmitter::new(&key, &iv).emit_to(&plain, 64, &mut whole);
    assert_eq!(whole.len(), 64);
    let mut parts = Vec::new();
    let mut e = BlockRangeEmitter::new(&key, &iv);
    for end in [1, 1, 17, 32, 50, 64] {
        e.emit_to(&plain, end, &mut parts);
        assert_eq!(parts.len(), end);
    }
    assert_eq!(parts, whole);
}

#[test]
fn data_members_start_and_finish() {
    assert_eq!(
        begin_rar4_data("a/", b"", false, None).unwrap(),
        DataStart::Encode { attr: 0x10, file_crc: 0 }
    );
    assert_eq!(
        begin_rar4_data("a", b"123456789", false, None).unwrap(),
        DataStart::Encode { attr: 0x20, file_crc: 0xcbf4_3926 }
    );
    assert_eq!(
        begin_rar4_data("a", b"x", true, Some(7)).unwrap(),
        DataStart::Queue { attr: 7 }
    );
    let run = SolidRun { mode: true, unp_ver: 29, has_member: true };
    let job = DataJob {
        name: "n".to_string(),
        unpacked_size: 9,
        file_crc: 1,
        mtime: 1_700_000_001,
        civil: 1_700_000_001,
        mtime_ns: 0,
        level: 3,
        comment: None,
        attr: 0x20,
        method: 0x33,
        password: false,
        salt: None,
    };
    let mut out_state = output();
    out_state.solid_mode = true;
    let (e, step) = add_rar4_data(&NoRecovery, job, b"packed", run, &out_state).unwrap();
    assert!(step.continuation);
    let mut found = Vec::new();
    let mut volume = e.segments[0].header.clone();
    volume.extend_from_slice(b"packed");
    Rar4VolumeScan::new().scan_volume(&volume, 0, 0, false, &mut found).unwrap();
    assert!(found[0].comp_solid());
    assert_eq!(found[0].comp_dict_size(), 6);
    assert_eq!(found[0].mtime(), 1_700_000_001);
    assert_eq!(e.entry.header.extra_data, [0x00, 0xC0]);
}

#[test]
fn directories_and_comments_are_written() {
    let d = write_rar4_dir_entry(&NoRecovery, "dir", 0x10, 5, 1_700_000_000, 0, &output()).unwrap();
    assert!(!d.new_volume);
    let mut found = Vec::new();
    Rar4VolumeScan::new().scan_volume(&d.header, 0, 0, false, &mut found).unwrap();
    assert!(found[0].is_dir());
    assert_eq!(found[0].comp_dict_size(), 7);
    assert_eq!(d.entry.name(), "dir");
    let mut tight = output();
    tight.volume_size = Some(90);
    tight.used = 60;
    assert!(
        write_rar4_dir_entry(&NoRecovery, "dir", 0x10, 5, 1_700_000_000, 0, &tight)
            .unwrap()
            .new_volume
    );
    tight.volume_size = Some(70);
    let refused =
        match write_rar4_dir_entry(&NoRecovery, "dir", 0x10, 5, 1_700_000_000, 0, &tight) {
            Ok(_) => panic!("expected an error"),
            Err(e) => e,
        };
    assert_eq!(
        refused.message(),
        "invalid option: volume size 70 is too small for a RAR4 directory header"
    );
    let c = emit_pending_rar4_comment(Some(b"hello".to_vec()), true).unwrap();
    assert_eq!(c.header.len(), 35);
    assert_eq!(c.payload, b"hello");
    assert_eq!(c.on_disk, 56 + 5);
    assert!(emit_pending_rar4_comment(Some(Vec::new()), false).is_none());
    assert!(emit_pending_rar4_comment(None, false).is_none());
}

#[test]
fn rar4_options_that_cannot_be_expressed_are_refused() {
    assert!(create::validate_rar4_only(false, false, None, None, false, false, false).is_ok());
    for r in [
        create::validate_rar4_only(true, false, None, None, false, false, false),
        create::validate_rar4_only(false, true, None, None, false, false, false),
        create::validate_rar4_only(false, false, Some(5), None, false, false, false),
        create::validate_rar4_only(false, false, None, Some(1), false, false, false),
        create::validate_rar4_only(false, false, None, None, true, false, false),
        create::validate_rar4_only(false, false, None, None, false, true, false),
        create::validate_rar4_only(false, false, None, None, false, false, true),
    ] {
        assert!(matches!(r, Err(RarError::InvalidOption(_))));
    }
    assert!(create::ensure_member_size(u32::MAX as u64).is_ok());
    assert!(create::ensure_member_size(u32::MAX as u64 + 1).is_err());
}

#[test]
fn entries_show_their_headers() {
    let mut e = entry(36, 3, true, false);
    e.header.host_os = 2;
    assert_eq!(e.host_os(), 0);
    assert_eq!(e.host_os_name(), "Windows");
    assert_eq!(e.method_name(), "Normal");
    assert_eq!(e.version(), rar::version::ArchiveVersion::V36);
    e.header.unp_ver = 33;
    assert_eq!(e.version(), rar::version::ArchiveVersion::V29);
    e.header.host_os = 1;
    assert_eq!((e.host_os(), e.host_os_name()), (1, "OS/2"));
    e.header.format_version = 3;
    assert_eq!(e.version(), rar::version::ArchiveVersion::V14);
    assert_eq!(e.host_os_name(), "Unix");
    e.header.format_version = 5;
    e.header.comp_version = 1;
    assert_eq!(e.version(), rar::version::ArchiveVersion::Rar70);
    assert_eq!(e.host_os(), 1);
    assert!(e.owner().is_none());
    e.header.owner = Some("root".to_string());
    assert_eq!(e.owner(), Some("root"));
}

#[test]
fn plans_become_file_headers() {
    let mut plan = rar::engine::MemberPlan {
        name: "n".to_string(),
        unpacked_size: 1,
        file_crc: 2,
        method: 3,
        dict_size_log: 4,
        dict_size_bytes: None,
        extra_data: vec![9],
        attrs: 5,
        mtime: 6,
        solid: true,
        stored_hash: None,
    };
    plan.push_extra(Some(&[1, 2]), Some(&[3]));
    assert_eq!(plan.extra_data, [9, 1, 2, 3]);
    let h = plan.file_header(7, 8, 4, 1);
    assert_eq!((h.crc32_val, h.hash_type), (Some(2), 255));
    assert_eq!((h.packed_size, h.mtime, h.file_flags, h.host_os), (7, 8, 4, 1));
    plan.stored_hash = Some([1; 32]);
    let h = plan.file_header(7, 8, 4, 1);
    assert_eq!((h.crc32_val, h.hash_type), (None, 0));
    assert_eq!(h.hash_value, Some([1; 32]));
}
