use rar::rar13::read::{decode_name, decode_name_from};
use rar::rar4::comment::{
    build_comment_block, build_file_comment_block, comment_block_name_is_cmt, decode_comment_payload,
    encode_comment_text, find_comment_block_start, parse_file_comment,
};
use rar::rar4::names::{
    decode_file_name, decode_file_name_from, encode_file_name, trimmed_name,
};
use rar::rar4::{COMM_HEAD, FHD_UNICODE, FILE_HEAD, LONG_BLOCK};
use rar::unicode::{code_page_text, decode_system_ansi};

#[test]
fn system_ansi_never_returns_replacement_characters() {
    let cases: [&[u8]; 5] = [
        b"plain.txt",
        &[0xE9],
        &[0xE9, b'.', b't'],
        &[0xD6, 0xD0], // "中" in CP936
        &[0xC3, 0xA9], // "é" in UTF-8 / CP65001
    ];
    for bytes in cases {
        if let Some(text) = decode_system_ansi(bytes) {
            assert!(
                !text.contains(char::REPLACEMENT_CHARACTER),
                "ANSI decode of {bytes:02X?} leaked U+FFFD: {text:?}"
            );
        }
    }
}

#[test]
fn system_ansi_is_none_off_windows() {
    assert_eq!(decode_system_ansi(b""), None);
    assert_eq!(decode_system_ansi(b"plain.txt"), None);
}

#[test]
fn member_name_decoding_preserves_valid_utf8() {
    let name = "目录/中文文件.txt";
    assert_eq!(decode_name(name.as_bytes()), name);
}

#[test]
fn decode_file_name_passes_valid_utf8_through() {
    let name = "目录/中文文件.txt";
    assert_eq!(decode_file_name(name.as_bytes(), 0), name);
}

#[test]
fn encode_ascii_name_no_unicode_flag() {
    let (encoded, flags) = encode_file_name("hello.txt");
    assert_eq!(&encoded, b"hello.txt");
    assert_eq!(flags & FHD_UNICODE, 0);
}

#[test]
fn encode_unicode_name_sets_flag() {
    let (encoded, flags) = encode_file_name("café.txt");
    assert_ne!(flags & FHD_UNICODE, 0);
    // Should contain the ASCII fallback.
    let fallback_end = encoded.iter().position(|&b| b == 0).unwrap();
    assert_eq!(&encoded[..fallback_end], b"caf?.txt");
}

#[test]
fn names_come_back_from_their_bytes() {
    for name in ["", "a", "hello.txt", "café.txt", "中", "中文文件.txt", "x\u{1F600}y/z", "ñandú-日本語-🎉.tar"] {
        let (bytes, flags) = encode_file_name(name);
        assert_eq!(decode_file_name(&bytes, flags), name, "{name}");
    }
    // The compact form: plain stand-in, zero, high byte, flags 0x80, unit.
    assert_eq!(
        encode_file_name("中").0,
        [b'?', 0, 0xff, 0x80, 0x2d, 0x4e]
    );
}

#[test]
fn compact_names_use_all_four_modes() {
    // Modes 1, 0, 3, 2: a unit under the high byte, a low unit, a run of the
    // plain form with a correction, a whole unit.
    let raw = [
        b'a', b'b', b'c', b'd', b'e', 0, 0x04, 0b01_00_11_10, 0x30, b'x', 0x80, 0x01, 0x2d, 0x4e,
    ];
    assert_eq!(decode_file_name(&raw, FHD_UNICODE), "\u{430}x\u{464}\u{465}中");
    // A run without correction takes the plain bytes as they are.
    let raw = [b'a', b'b', b'c', 0, 0x04, 0b11_00_00_00, 0x01];
    assert_eq!(decode_file_name(&raw, FHD_UNICODE), "abc");
    // Behind the plain form's end there are question marks.
    let raw = [b'a', 0, 0x04, 0b11_00_00_00, 0x01];
    assert_eq!(decode_file_name(&raw, FHD_UNICODE), "a??");
}

#[test]
fn damaged_names_fall_back() {
    // No compact form at all.
    assert_eq!(decode_file_name(b"plain", FHD_UNICODE), "plain");
    assert_eq!(decode_file_name(b"plain\0", FHD_UNICODE), "plain");
    // A compact form that ends inside a unit: the raw bytes, lossily.
    let raw = [b'a', 0, 0xff, 0x80, 0x2d];
    assert_eq!(
        decode_file_name(&raw, FHD_UNICODE),
        String::from_utf8_lossy(&raw)
    );
    // Trailing zeros of a plain name are dropped.
    assert_eq!(decode_file_name(b"name\0\0", 0), "name");
    assert_eq!(decode_file_name(&[0xE9], 0), "\u{FFFD}");
    // An unpaired surrogate becomes the replacement character.
    let raw = [b'?', 0, 0xff, 0x80, 0x00, 0xd8];
    assert_eq!(decode_file_name(&raw, FHD_UNICODE), "\u{FFFD}");
}

/// Build a COMM_HEAD (0x75) file-comment subblock wrapping `payload`.
fn comm_block(payload: &[u8]) -> Vec<u8> {
    let head_size = 13 + payload.len();
    let mut b = vec![0u8; 13];
    b[2] = COMM_HEAD; // head type
    b[5..7].copy_from_slice(&(head_size as u16).to_le_bytes());
    b[7..9].copy_from_slice(&(payload.len() as u16).to_le_bytes()); // unp_size
    b[9] = 29; // unp ver
    b[10] = 0x30; // method (store)
    b.extend_from_slice(payload);
    b
}

#[test]
fn parses_ascii_file_comment() {
    let tail = comm_block(b"release notes");
    let (c, len) = parse_file_comment(&tail, 0);
    assert_eq!(c.unwrap(), b"release notes");
    assert_eq!(len, tail.len());
}

#[test]
fn parses_utf16_file_comment() {
    let payload: Vec<u8> = "注".encode_utf16().fold(Vec::new(), |mut v, u| {
        v.extend_from_slice(&u.to_le_bytes());
        v
    });
    let tail = comm_block(&payload);
    let (c, _) = parse_file_comment(&tail, 0);
    assert_eq!(c.unwrap(), "注".as_bytes());
}

#[test]
fn no_comment_returns_none() {
    // A FILE_HEAD (0x74) with no trailing COMM_HEAD subblock.
    let tail = [0u8, 1, FILE_HEAD, 0, 0, 0, 0];
    assert!(parse_file_comment(&tail, 0).0.is_none());
}

#[test]
fn long_block_comment_is_located() {
    // LONG_BLOCK: prefix + 4-byte add_size, then the 6-byte comment body.
    let payload = b"long form";
    let add_size = payload.len() as u32;
    let head_size = 17 + payload.len();
    let mut b = vec![0u8; 11];
    b[2] = COMM_HEAD;
    b[3..5].copy_from_slice(&LONG_BLOCK.to_le_bytes());
    b[5..7].copy_from_slice(&(head_size as u16).to_le_bytes());
    b[7..11].copy_from_slice(&add_size.to_le_bytes());
    b.extend_from_slice(&[0, 0, 29, 0x30, 0, 0]); // unp_size, unp_ver, method, comm_crc
    b.extend_from_slice(payload);
    let (c, len) = parse_file_comment(&b, 0);
    assert_eq!(c.unwrap(), payload);
    assert_eq!(len, b.len());
}

#[test]
fn built_member_comment_is_read_back() {
    let block = build_file_comment_block(b"notes");
    assert_eq!(block.len(), 18);
    assert_eq!(block[2], COMM_HEAD);
    let mut tail = vec![0xaa; 5];
    tail.extend_from_slice(&block);
    assert_eq!(parse_file_comment(&tail, 5), (Some(b"notes".to_vec()), 18));
    assert_eq!(find_comment_block_start(&tail), Some((5, 18, 23)));
    assert_eq!(find_comment_block_start(&[0; 20]), None);
}

#[test]
fn archive_comments_come_back_from_their_payload() {
    for text in ["plain text", "日本語のコメント", "mixed \u{1F600}"] {
        let (payload, unicode) = encode_comment_text(text.as_bytes());
        assert_eq!(unicode, !text.is_ascii());
        assert_eq!(decode_comment_payload(&payload, unicode), text.as_bytes());
        let block = build_comment_block(&payload, unicode);
        assert_eq!(block.len(), 35 + payload.len());
        assert!(comment_block_name_is_cmt(&block[..35]));
        assert_eq!(block[28], unicode as u8);
        assert_eq!(&block[35..], &payload[..]);
    }
    // Without the marker, bytes that are no UTF-8 are tried as UTF-16.
    assert_eq!(decode_comment_payload(&[0xe8, 0x6c], false), "注".as_bytes());
    // A surrogate, or an odd length, leaves them as they are.
    assert_eq!(decode_comment_payload(&[0x00, 0xd8], false), [0x00, 0xd8]);
    assert_eq!(decode_comment_payload(&[0xff], false), [0xff]);
    let mut other = build_comment_block(b"x", false);
    other[32] = b'X';
    assert!(!comment_block_name_is_cmt(&other[..35]));
}

#[test]
fn a_code_page_names_what_is_no_utf8() {
    let system = || Some(String::from("café"));
    assert_eq!(trimmed_name(b"caf\xE9\0\0"), b"caf\xE9");
    assert_eq!(decode_file_name_from(b"caf\xE9\0", 0, system()), "café");
    assert_eq!(decode_file_name_from(b"caf\xE9\0", 0, None), "caf\u{FFFD}");
    assert_eq!(decode_file_name_from(b"plain\0", 0, system()), "plain");
    assert_eq!(decode_file_name_from(b"caf\xE9", FHD_UNICODE, system()), "caf\u{FFFD}");
    assert_eq!(decode_name_from(b"caf\xE9", system()), "café");
    assert_eq!(decode_name_from(b"caf\xE9", None), "caf\u{FFFD}");
    assert_eq!(decode_name_from("中".as_bytes(), system()), "中");
}

#[test]
fn a_code_page_answer_with_stand_ins_is_none() {
    assert_eq!(code_page_text(&[0x63, 0xE9]), Some(String::from("cé")));
    assert_eq!(code_page_text(&[]), Some(String::new()));
    assert_eq!(code_page_text(&[0x63, 0xFFFD]), None);
    assert_eq!(code_page_text(&[0xD800]), None);
}
