use rar::crc32::crc32;
use rar::error::RarError;
use rar::rar4::comment::build_file_comment_block;
use rar::rar4::envelope::{
    encrypt_block_header_with, encrypted_salt, fresh_salt, read_block, read_envelope, resync_block,
    EnvelopePolicy, HeaderKey, Rar4Block,
};
use rar::rar4::ext_time::{
    build_ext_time, build_member_ext_time, ext_time_area_len, extract_mtime_refinement,
};
use rar::rar4::headers::{
    build_endarc, build_endarc_single, build_file_header, build_main_header, endarc_volume_reserve,
    file_header_crc_end, parse_file_header, FileHeaderParams,
};
use rar::rar4::member::{archive_dict_bits, dict_bits, dictionary_flags, member_unp_ver};
use rar::rar4::{
    ENDARC_HEAD, FHD_COMMENT, FHD_EXTTIME, FHD_LARGE, FHD_SALT, FILE_HEAD, FILE_HEADER_FIXED,
    LONG_BLOCK, MAIN_HEAD, RAR4_METHOD_STORE,
};
use rar::shared::checksum::header_crc16;
use rar::shared::legacy_time::{dos_time_to_unix, unix_to_dos_time};

/// The key of a header, as a password and a salt would give it.
fn key() -> HeaderKey {
    HeaderKey { key: [0x33; 16], iv: [0x44; 16] }
}

#[test]
fn main_header_crc16() {
    let hdr = build_main_header(0);
    assert_eq!(hdr.len(), 13);
    // Type byte at offset 2.
    assert_eq!(hdr[2], MAIN_HEAD);
    // Flags at offset 3-4: never LONG_BLOCK on the main header.
    let flags = u16::from_le_bytes([hdr[3], hdr[4]]);
    assert_eq!(flags & LONG_BLOCK, 0);
    // head_size at offset 5-6.
    let head_size = u16::from_le_bytes([hdr[5], hdr[6]]);
    assert_eq!(head_size, 13);
    let crc = u16::from_le_bytes([hdr[0], hdr[1]]);
    let expected_crc = header_crc16(&hdr[2..]);
    assert_eq!(crc, expected_crc);
}

#[test]
fn file_header_roundtrip_fields() {
    let name = b"test.txt";
    let params = FileHeaderParams {
        flags: 0,
        packed_size: 100,
        unpacked_size: 200,
        host_os: 0,
        file_crc: 0xDEADBEEF,
        file_time: 0x12345678,
        unp_ver: 29,
        method: RAR4_METHOD_STORE,
        name,
        attr: 0x20,
        salt: None,
        ext_time: None,
        window_bits: 6, // 4 MiB dictionary
    };
    let buf = build_file_header(&params).unwrap();
    // 32 fixed + 8 name + 0 salt + 0 ext = 40.
    assert_eq!(buf.len(), 40);
    // head_type
    assert_eq!(buf[2], FILE_HEAD);
    // packed_size at offset 7
    assert_eq!(u32::from_le_bytes(buf[7..11].try_into().unwrap()), 100);
    // unpacked_size at offset 11
    assert_eq!(u32::from_le_bytes(buf[11..15].try_into().unwrap()), 200);
    // unp_ver at offset 24
    assert_eq!(buf[24], 29);
    // method at offset 25
    assert_eq!(buf[25], RAR4_METHOD_STORE);
    // name_size at offset 26
    assert_eq!(u16::from_le_bytes(buf[26..28].try_into().unwrap()), 8);
    // name starts at offset 32
    assert_eq!(&buf[32..40], name);
}

#[test]
fn file_header_is_read_back() {
    let params = FileHeaderParams {
        flags: FHD_SALT | FHD_EXTTIME,
        packed_size: 100,
        unpacked_size: 200,
        host_os: 2,
        file_crc: 0xDEADBEEF,
        file_time: unix_to_dos_time(1_700_000_000),
        unp_ver: 29,
        method: 0x33,
        name: b"dir/test.txt",
        attr: 0x20,
        salt: Some([1, 2, 3, 4, 5, 6, 7, 8]),
        ext_time: Some(&[0x00, 0xF0, 0x01, 0x00, 0x00]),
        window_bits: 5,
    };
    let buf = build_file_header(&params).unwrap();
    let size = buf.len() as u64;
    let block = read_envelope(7, buf, size, true).unwrap();
    assert_eq!(block.add_size, 100);
    assert_eq!(block.end(), 7 + size + 100);
    let fh = parse_file_header(&block).unwrap();
    assert_eq!(fh.name, "dir/test.txt");
    assert_eq!(fh.packed_size, 100);
    assert_eq!(fh.unpacked_size, 200);
    assert_eq!(fh.crc32_val, Some(0xDEADBEEF));
    assert_eq!(fh.mtime, 1_700_000_001);
    assert_eq!(fh.mtime_ns, Some(100));
    assert_eq!(fh.comp_method, 3);
    assert_eq!(fh.comp_dict_size, 5);
    assert_eq!(fh.salt, Some([1, 2, 3, 4, 5, 6, 7, 8]));
    assert_eq!(fh.data_offset, 7 + size);
    assert_eq!(fh.format_version, 4);
    assert!(!fh.is_directory);
}

#[test]
fn endarc_single_block() {
    let buf = build_endarc_single();
    assert_eq!(buf.len(), 7);
    assert_eq!(buf[2], ENDARC_HEAD);
    let flags = u16::from_le_bytes([buf[3], buf[4]]);
    assert_eq!(flags, 0x4000);
    let head_size = u16::from_le_bytes([buf[5], buf[6]]);
    assert_eq!(head_size, 7);
    // The constant single-volume block: flags 0x4000, head_size 7.
    assert_eq!(buf, [0xc4, 0x3d, 0x7b, 0x00, 0x40, 0x07, 0x00]);
}

#[test]
fn endarc_volume_block() {
    let next = build_endarc(true, 0xDEAD_BEEF, 3);
    assert_eq!(next.len(), 20);
    assert_eq!(next[2], ENDARC_HEAD);
    assert_eq!(u16::from_le_bytes([next[3], next[4]]), 0x400f);
    assert_eq!(u16::from_le_bytes([next[5], next[6]]), 20);
    assert_eq!(
        u32::from_le_bytes(next[7..11].try_into().unwrap()),
        0xDEAD_BEEF
    );
    assert_eq!(u16::from_le_bytes([next[11], next[12]]), 3);
    assert!(next[13..].iter().all(|&byte| byte == 0), "trailing zeros");
    assert_eq!(
        u16::from_le_bytes([next[0], next[1]]),
        header_crc16(&next[2..]),
        "HEAD_CRC covers the 20-byte body"
    );

    // The final volume drops the next-volume bit (0x400e).
    let last = build_endarc(false, 0, 0);
    assert_eq!(u16::from_le_bytes([last[3], last[4]]), 0x400e);
    assert_eq!(endarc_volume_reserve(false), 20);
    assert_eq!(endarc_volume_reserve(true), 40);
}

// The local clock here reads UTC: civil seconds are seconds since the epoch.

#[test]
fn dos_time_roundtrip() {
    // 2024-01-15 12:30:44; the DOS field has a 2-second resolution.
    let secs = 19_737u32 * 86_400 + 45_044;
    let local = secs;
    let dos = unix_to_dos_time(local);
    let round = dos_time_to_unix(dos);
    assert_eq!(round, local - local % 2, "fields round-trip to local time");
    let year = ((dos >> 25) & 0x7f) + 1980;
    assert_eq!(year, 2024, "year stays on the same local day");
}

#[test]
fn dos_time_pre_1980_wraps_without_panicking() {
    // 1970-01-01 is before the DOS epoch; the 7-bit year field wraps.
    let local = 0u32;
    let dos = unix_to_dos_time(local);
    let year = ((dos >> 25) & 0x7f) + 1980;
    assert!((1980..=2107).contains(&year), "wrapped year {year}");
    assert_eq!((dos >> 11) & 0x1f, (local / 3600) % 24, "hour preserved");
}

#[test]
fn dos_times_cover_the_32_bit_range() {
    // 2000-02-29 23:59:58 and the last representable second.
    let leap = 951_868_798u32;
    let dos = unix_to_dos_time(leap);
    assert_eq!(dos >> 25, 20);
    assert_eq!((dos >> 21) & 15, 2);
    assert_eq!((dos >> 16) & 31, 29);
    assert_eq!((dos >> 11) & 31, 23);
    assert_eq!((dos >> 5) & 63, 59);
    assert_eq!(dos & 31, 29);
    assert_eq!(dos_time_to_unix(dos), leap);
    assert_eq!(dos_time_to_unix(unix_to_dos_time(u32::MAX)), u32::MAX - 1);
    // The largest field lies behind what 32 bits hold.
    assert_eq!(dos_time_to_unix(u32::MAX), u32::MAX);
}

#[test]
fn ext_time_marks_odd_local_seconds() {
    let ext = build_ext_time(1_700_000_001, None).expect("odd second needs a record");
    assert_eq!(ext, vec![0x00, 0xC0], "PRESENT|ADD_SECOND, 0 tick bytes");

    let even = 1_700_000_002;
    assert!(build_ext_time(even, None).is_none());

    let ext = build_ext_time(even, Some(123_456_700)).expect("ticks need a record");
    assert_eq!(
        u16::from_le_bytes([ext[0], ext[1]]) >> 12,
        0xB,
        "PRESENT + 3 tick bytes"
    );
    assert_eq!(extract_mtime_refinement(&ext), (false, Some(123_456_700)));
    let both = build_ext_time(1_700_000_001, Some(199)).unwrap();
    assert_eq!(extract_mtime_refinement(&both), (true, Some(100)));
}

#[test]
fn member_ext_time_is_v29_only() {
    let odd = 1_700_000_001; // odd local second
    let even = 1_700_000_002;
    assert!(build_member_ext_time(29, odd, None).is_some());
    assert!(build_member_ext_time(29, even, Some(123_456_700)).is_some());
    assert!(build_member_ext_time(29, even, None).is_none());
    for unp_ver in [15, 20, 26] {
        assert!(
            build_member_ext_time(unp_ver, odd, Some(123_456_700)).is_none(),
            "unp_ver {unp_ver} must not carry a record"
        );
    }
}

#[test]
fn extract_mtime_refinement_applies_add_second() {
    // PRESENT|ADD_SECOND, one 100-ns tick.
    let ext = [0x00u8, 0xF0, 0x01, 0x00, 0x00];
    let (add_second, ns) = extract_mtime_refinement(&ext);
    assert!(add_second);
    assert_eq!(ns, Some(100));

    // ADD_SECOND without ticks is still a present refinement.
    let (add_second, ns) = extract_mtime_refinement(&[0x00, 0xC0]);
    assert!(add_second);
    assert_eq!(ns, Some(0));

    // No PRESENT bit: nothing to apply.
    assert_eq!(extract_mtime_refinement(&[0x00, 0x00]), (false, None));
    // Ticks that are cut off are not guessed.
    assert_eq!(extract_mtime_refinement(&[0x00, 0xB0, 1]), (false, None));
    // A single byte is the most significant one.
    assert_eq!(
        extract_mtime_refinement(&[0x00, 0x90, 1]),
        (false, Some(0x1_0000 * 100))
    );
}

#[test]
fn ext_time_length_follows_the_nibble_word() {
    // mtime PRESENT + 3 tick bytes.
    assert_eq!(ext_time_area_len(&[0x00, 0xF0, 0, 0, 0]), Some(5));
    // mtime PRESENT + 0 tick bytes (ADD_SECOND only).
    assert_eq!(ext_time_area_len(&[0x00, 0xC0]), Some(2));
    // mtime + ctime (4-byte DOS time + 2 tick bytes).
    assert_eq!(ext_time_area_len(&[0x00, 0xBA, 0, 0, 0, 0, 0, 0]), Some(11));
    // No nibbles set: just the flags word.
    assert_eq!(ext_time_area_len(&[0x00, 0x00]), Some(2));
    // An absent flags word has no length.
    assert_eq!(ext_time_area_len(&[0x00]), None);
}

#[test]
fn dict_bits_follow_winrar() {
    for (size, solid, bits) in [
        (0u64, false, 1),
        (60_000, false, 1),
        (200_000, false, 2),
        (500_000, false, 3),
        (2_000_000, false, 5),
        (8_000_000, false, 6),
        (60_000, true, 4),
        (500_000, true, 4),
        (2_000_000, true, 5),
        (8_000_000, true, 6),
    ] {
        assert_eq!(dict_bits(size, solid), bits, "size={size} solid={solid}");
    }
}

#[test]
fn archive_dict_bits_is_fixed_for_pre_rar3() {
    for size in [0u64, 60_000, 2_000_000, 8_000_000] {
        assert_eq!(archive_dict_bits(20, size, false), 4, "size={size}");
        assert_eq!(archive_dict_bits(15, size, false), 4, "size={size}");
    }
    assert_eq!(archive_dict_bits(29, 60_000, false), 1);
    assert_eq!(archive_dict_bits(29, 8_000_000, false), 6);
}

#[test]
fn member_unp_ver_turns_level0_into_20_only_for_v29() {
    assert_eq!(member_unp_ver(29, 0, false), 20);
    assert_eq!(member_unp_ver(29, 0, true), 29);
    assert_eq!(member_unp_ver(29, 3, false), 29);
    assert_eq!(member_unp_ver(15, 0, false), 15);
    assert_eq!(member_unp_ver(20, 0, false), 20);
}

/// The flags of a directory: all window bits set.
const DIRECTORY_WINDOW_BITS: u16 = 0x00E0;

#[test]
fn dictionary_flags_sizes() {
    // Window bits 0..=6 encode 64 KiB ..= 4 MiB dictionaries.
    for (size, bits) in [
        (0x1_0000usize, 0u16),
        (0x2_0000, 1),
        (0x4_0000, 2),
        (0x8_0000, 3),
        (0x10_0000, 4),
        (0x20_0000, 5),
        (0x40_0000, 6),
    ] {
        assert_eq!(dictionary_flags(size).unwrap(), bits << 5);
    }
    assert!(dictionary_flags(0x80_0000).is_err());
    // Bit 7 (all window bits set) marks a directory member.
    assert_eq!(DIRECTORY_WINDOW_BITS, 7 << 5);
    assert_eq!(
        build_file_header(&FileHeaderParams {
            flags: 0,
            packed_size: 0,
            unpacked_size: 0,
            host_os: 0,
            file_crc: 0,
            file_time: 0,
            unp_ver: 20,
            method: RAR4_METHOD_STORE,
            name: b"d",
            attr: 0x10,
            window_bits: 7,
            salt: None,
            ext_time: None,
        })
        .unwrap()[3..5],
        (LONG_BLOCK | DIRECTORY_WINDOW_BITS).to_le_bytes()
    );
}

#[test]
fn ext_time_0x75_byte_does_not_shift_the_comment_boundary() {
    let name = b"t.bin";
    let flags = LONG_BLOCK | FHD_EXTTIME | FHD_COMMENT;
    let mut header = vec![0u8; FILE_HEADER_FIXED];
    header[2] = FILE_HEAD;
    header[3..5].copy_from_slice(&flags.to_le_bytes());
    header[26..28].copy_from_slice(&(name.len() as u16).to_le_bytes());
    header.extend_from_slice(name);
    // Ext-time flags word 0xB800: mtime PRESENT with 3 tick bytes and
    // ctime PRESENT with none -> 2 + 3 + 4 = 9 bytes. The first mtime
    // tick byte is 0x75 and the ctime DOS bytes [13, 0] look like a
    // plausible comment at offset 0 to a byte scanner.
    let ext = [0x00u8, 0xB8, 0x75, 0x00, 0x00, 0x0D, 0x00, 0x00, 0x00];
    header.extend_from_slice(&ext);
    let ext_end = header.len();
    let comment = build_file_comment_block(b"real comment");
    header.extend_from_slice(&comment);
    let head_size = header.len() as u16;
    header[5..7].copy_from_slice(&head_size.to_le_bytes());
    // HEAD_CRC covers fixed + name + ext-time, stopping at the comment.
    let crc = (crc32(&header[2..ext_end]) & 0xffff) as u16;
    header[..2].copy_from_slice(&crc.to_le_bytes());

    assert_eq!(
        file_header_crc_end(&header),
        ext_end,
        "the ext-time nibbles locate the comment, not the 0x75 byte"
    );
    let block = read_envelope(0, header, u64::from(head_size), true)
        .expect("valid envelope and header CRC");
    let fh = parse_file_header(&block).expect("parse");
    assert_eq!(fh.comment.as_deref(), Some(&b"real comment"[..]));
}

#[test]
fn read_envelope_rejects_bad_crc_and_short_long_block() {
    // A well-formed 13-byte MAIN header with its CRC corrupted.
    let mut main = build_main_header(0).to_vec();
    main[0] ^= 0xff;
    let err = read_envelope(0, main, 13, true).unwrap_err();
    assert!(matches!(err, RarError::Crc { .. }), "got {}", err.message());

    // head_size 7 + LONG_BLOCK: the ADD_SIZE field is out of bounds.
    let mut short = vec![0u8; 7];
    short[0..2].copy_from_slice(&0xFFFFu16.to_le_bytes()); // "no CRC" sentinel
    short[2] = FILE_HEAD;
    short[3..5].copy_from_slice(&LONG_BLOCK.to_le_bytes());
    short[5..7].copy_from_slice(&7u16.to_le_bytes());
    for verify in [true, false] {
        let err = read_envelope(0, short.clone(), 7, verify).unwrap_err();
        assert!(
            matches!(err, RarError::Format(_)),
            "verify={verify}: expected a format error, got {}",
            err.message()
        );
    }
}

#[test]
fn fhd_large_header_without_high_sizes_is_rejected() {
    let flags = LONG_BLOCK | FHD_LARGE;
    let mut header = vec![0u8; FILE_HEADER_FIXED];
    header[2] = FILE_HEAD;
    header[3..5].copy_from_slice(&flags.to_le_bytes());
    header[5..7].copy_from_slice(&(FILE_HEADER_FIXED as u16).to_le_bytes());
    let block = Rar4Block {
        head_crc: 0,
        head_type: FILE_HEAD,
        flags,
        offset: 0,
        header_end: FILE_HEADER_FIXED as u64,
        total_size: FILE_HEADER_FIXED as u64,
        add_size: 0,
        header,
        raw_header: None,
    };
    let err = parse_file_header(&block).unwrap_err();
    assert!(
        matches!(err, RarError::Format(_)),
        "expected a format error, got {}",
        err.message()
    );
}

#[test]
fn large_sizes_take_their_high_halves() {
    let flags = LONG_BLOCK | FHD_LARGE;
    let mut header = vec![0u8; 40];
    header[2] = FILE_HEAD;
    header[3..5].copy_from_slice(&flags.to_le_bytes());
    header[5..7].copy_from_slice(&41u16.to_le_bytes());
    header[7] = 5;
    header[11] = 6;
    header[26] = 1;
    header[32] = 2;
    header[36] = 3;
    header.push(b'n');
    let block = read_envelope(0, header.clone(), 41, false).unwrap();
    let fh = parse_file_header(&block).unwrap();
    assert_eq!(fh.packed_size, 0x2_0000_0005);
    assert_eq!(fh.unpacked_size, 0x3_0000_0006);
    assert_eq!(fh.name, "n");
    // The faults, one after the other.
    let message = |flags: u16, header: Vec<u8>| {
        let mut block = block.clone();
        block.flags = flags;
        block.header = header;
        parse_file_header(&block).unwrap_err().message()
    };
    assert_eq!(message(flags, vec![0; 31]), "RAR format error: RAR4: file header too short");
    assert_eq!(
        message(0, header.clone()),
        "RAR format error: RAR4: file header missing data size"
    );
    let mut long_name = header.clone();
    long_name[26] = 2;
    assert_eq!(
        message(flags, long_name),
        "RAR format error: RAR4: file name extends past header"
    );
    assert_eq!(
        message(flags | FHD_SALT, header),
        "RAR format error: RAR4: salt extends past header"
    );
}

#[test]
fn directories_are_told_by_their_host() {
    let make = |host: u8, attr: u32| {
        let buf = build_file_header(&FileHeaderParams {
            flags: 0,
            packed_size: 0,
            unpacked_size: 0,
            host_os: host,
            file_crc: 0,
            file_time: 0,
            unp_ver: 29,
            method: RAR4_METHOD_STORE,
            name: b"d",
            attr,
            window_bits: 0,
            salt: None,
            ext_time: None,
        })
        .unwrap();
        let n = buf.len() as u64;
        parse_file_header(&read_envelope(0, buf, n, true).unwrap())
            .unwrap()
            .is_directory
    };
    assert!(make(0, 0x10));
    assert!(make(2, 0x30));
    assert!(!make(2, 0x20));
    assert!(make(3, 0o040755 << 16));
    assert!(!make(3, 0o100644 << 16));
    assert!(!make(4, 0x10));
}

#[test]
fn encrypted_header_with_long_block_but_short_head_size_is_rejected() {
    let mut header = vec![0u8; 7];
    header[2] = FILE_HEAD;
    header[3..5].copy_from_slice(&LONG_BLOCK.to_le_bytes());
    header[5..7].copy_from_slice(&7u16.to_le_bytes());
    let (encrypted, _) = encrypt_block_header_with(&header, &fresh_salt(), &key());

    let err =
        read_block(&encrypted, 0, true, Some(&key()), EnvelopePolicy::repair()).unwrap_err();
    assert!(
        matches!(err, RarError::Format(_)),
        "expected a format error, got {}",
        err.message()
    );
}

#[test]
fn plain_block_retains_the_raw_header_and_advances_past_the_data_area() {
    // A FILE_HEAD with a 4-byte data area.
    let mut header = vec![0u8; 32];
    header[2] = FILE_HEAD;
    header[3..5].copy_from_slice(&LONG_BLOCK.to_le_bytes());
    header[5..7].copy_from_slice(&32u16.to_le_bytes());
    header[7..11].copy_from_slice(&4u32.to_le_bytes());
    let crc = (crc32(&header[2..]) & 0xffff) as u16;
    header[0..2].copy_from_slice(&crc.to_le_bytes());
    let mut bytes = header.clone();
    bytes.extend_from_slice(&[1, 2, 3, 4]);

    let block = read_block(&bytes, 0, false, None, EnvelopePolicy::edit())
        .unwrap()
        .expect("first block");
    assert_eq!(block.head_type, FILE_HEAD);
    assert_eq!(block.add_size, 4);
    assert_eq!(block.raw_header().len(), 32);
    assert_eq!(bytes.len() as u64, block.end());

    // A policy that does not retain raw bytes falls back to the
    // plaintext header, which is identical for a plaintext block.
    let plan = read_block(&header, 0, false, None, EnvelopePolicy::plan())
        .unwrap()
        .expect("plan block");
    assert!(plan.raw_header.is_none());
    assert_eq!(plan.raw_header(), plan.header.as_slice());

    // Past the data area the next read is a clean end of input.
    assert!(
        read_block(&bytes, block.end() as usize, false, None, EnvelopePolicy::edit())
            .unwrap()
            .is_none()
    );

    // A prefix claiming a 32-byte header with only 13 bytes left is a
    // truncation error, not a silent end of input.
    let cut = header[..20].to_vec();
    let err = read_block(&cut, 0, false, None, EnvelopePolicy::edit()).unwrap_err();
    assert!(matches!(err, RarError::Format(_)), "got {err:?}");
}

#[test]
fn scan_policy_verifies_the_header_crc_and_repair_policy_does_not() {
    let mut header = vec![0u8; 32];
    header[2] = FILE_HEAD;
    header[5..7].copy_from_slice(&32u16.to_le_bytes());
    // Engineered CRC mismatch: bytes 2..32 left as zeros.
    let mut bytes = header.clone();
    bytes.extend_from_slice(&[0u8; 16]);

    let err = read_block(&bytes, 0, false, None, EnvelopePolicy::scan()).unwrap_err();
    assert!(matches!(err, RarError::Crc { .. }), "got {err:?}");

    let block = read_block(&bytes, 0, false, None, EnvelopePolicy::repair())
        .unwrap()
        .expect("repair policy tolerates a bad CRC");
    assert_eq!(block.head_type, FILE_HEAD);
}

fn long_file_header() -> Vec<u8> {
    let mut header = vec![0u8; 32];
    header[2] = FILE_HEAD;
    header[3..5].copy_from_slice(&LONG_BLOCK.to_le_bytes());
    header[5..7].copy_from_slice(&32u16.to_le_bytes());
    header[7..11].copy_from_slice(&4u32.to_le_bytes());
    header
}

#[test]
fn encrypted_header_truncated_after_the_first_cipher_block_is_a_wrong_password() {
    let header = long_file_header();
    let (encrypted, _) = encrypt_block_header_with(&header, &fresh_salt(), &key());

    // Only the salt and the first cipher block survive: the head size
    // decrypted from it (32) promises 16 more cipher bytes, and reading
    // past the end of input is exactly what a wrong password looks like.
    let err = read_block(&encrypted[..24], 0, true, Some(&key()), EnvelopePolicy::plan())
        .unwrap_err();
    assert!(matches!(err, RarError::WrongPassword), "got {err:?}");
}

#[test]
fn encrypted_block_with_a_bad_header_crc_is_a_wrong_password() {
    // HEAD_CRC is left zero: the computed CRC is not zero, so the
    // decrypted header parses and then fails verification.
    let header = long_file_header();
    let (encrypted, _) = encrypt_block_header_with(&header, &fresh_salt(), &key());

    let err = read_block(&encrypted, 0, true, Some(&key()), EnvelopePolicy::scan()).unwrap_err();
    assert!(matches!(err, RarError::WrongPassword), "got {err:?}");
}

#[test]
fn encrypted_block_with_an_impossible_head_size_is_a_wrong_password() {
    // A garbage head size below the 7-byte minimum is the other shape a
    // wrong password takes.
    let header = vec![0u8; 16];
    let (encrypted, _) = encrypt_block_header_with(&header, &fresh_salt(), &key());

    let err = read_block(&encrypted, 0, true, Some(&key()), EnvelopePolicy::scan()).unwrap_err();
    assert!(matches!(err, RarError::WrongPassword), "got {err:?}");
}

#[test]
fn encrypted_edit_retains_the_ciphertext_and_yields_the_plaintext_header() {
    let header = long_file_header();
    let salt = fresh_salt();
    let (encrypted, on_disk) = encrypt_block_header_with(&header, &salt, &key());
    assert_eq!(encrypted_salt(&encrypted, 0).unwrap(), Some(salt));

    let block = read_block(&encrypted, 0, true, Some(&key()), EnvelopePolicy::edit())
        .unwrap()
        .expect("encrypted block");
    assert_eq!(block.header, header);
    assert_eq!(block.raw_header(), &encrypted[..]);
    assert_eq!(block.on_disk_header(), on_disk);
    assert_eq!(block.add_size, 4);
}

#[test]
fn encrypted_headers_need_a_key_and_enough_bytes() {
    let err = read_block(&[0; 40], 0, true, None, EnvelopePolicy::scan()).unwrap_err();
    assert!(matches!(err, RarError::Encrypted(_)));
    let err = read_block(&[0; 23], 0, true, Some(&key()), EnvelopePolicy::scan()).unwrap_err();
    assert_eq!(
        err.message(),
        "RAR format error: RAR4: truncated encrypted block header"
    );
    assert!(encrypted_salt(&[0; 23], 0).is_err());
    assert_eq!(encrypted_salt(&[], 0).unwrap(), None);
    assert!(read_block(&[], 0, true, Some(&key()), EnvelopePolicy::scan())
        .unwrap()
        .is_none());
}

#[test]
fn aes128_block_matches_the_published_vector() {
    // FIPS 197, C.1: the single block behind the salt, under a zero vector.
    let mut k = HeaderKey { key: [0; 16], iv: [0; 16] };
    for i in 0..16 {
        k.key[i] = i as u8;
    }
    let plain: Vec<u8> = (0..16u8).map(|i| i * 0x11).collect();
    let (out, len) = encrypt_block_header_with(&plain, &[9; 8], &k);
    assert_eq!(len, 24);
    assert_eq!(out[..8], [9; 8]);
    assert_eq!(
        out[8..],
        [
            0x69, 0xc4, 0xe0, 0xd8, 0x6a, 0x7b, 0x04, 0x30, 0xd8, 0xcd, 0xb7, 0x80, 0x70, 0xb4,
            0xc5, 0x5a
        ]
    );
}

#[test]
fn fresh_salts_differ() {
    assert_ne!(fresh_salt(), fresh_salt());
}

#[test]
fn resync_skips_damage() {
    let mut bytes = vec![0x74u8; 9];
    let at = bytes.len();
    bytes.extend_from_slice(&build_main_header(0));
    bytes.extend_from_slice(&build_endarc_single());
    let block = resync_block(&bytes, 0).unwrap().expect("block");
    assert_eq!(block.offset, at as u64);
    assert_eq!(block.head_type, MAIN_HEAD);
    let next = resync_block(&bytes, at + 1).unwrap().expect("block");
    assert_eq!(next.head_type, ENDARC_HEAD);
    assert!(resync_block(&bytes, bytes.len()).unwrap().is_none());
    assert!(resync_block(&[0x74; 30], 0).unwrap().is_none());
}
