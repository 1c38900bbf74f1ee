use rar::crc32::{crc32, crc32_raw, crc32_update, table_entry};
use rar::shared::checksum::{file_checksum, header_crc16, rolling_checksum};

#[test]
fn crc32_matches_standard_check_value() {
    assert_eq!(crc32(b"123456789"), 0xcbf4_3926);
    assert_eq!(crc32(b""), 0);
}

#[test]
fn raw_crc_matches_unfinalized_seeded_rar15_value() {
    assert_eq!(crc32_raw(b"password"), 0xca3d_b92a);
}

#[test]
fn raw_crc_consistent_with_crc32fast() {
    for input in [&b"hello"[..], b"rar-rs crc32", &[]] {
        assert_eq!(!crc32_raw(input), crc32(input));
    }
}

#[test]
fn table_entry_matches_bitwise_generation() {
    assert_eq!(table_entry(0), 0);
    assert_eq!(table_entry(1), 0x7707_3096);
    assert_eq!(table_entry(0xff), 0x2d02_ef8d);
}

#[test]
fn checksum_carries_on_over_pieces() {
    let whole = crc32(b"123456789");
    assert_eq!(crc32_update(crc32(b"1234"), b"56789"), whole);
    assert_eq!(crc32_update(0, b"123456789"), whole);
    assert_eq!(header_crc16(b"123456789"), 0x3926);
}

#[test]
fn rolling_checksum_rotates_after_every_byte() {
    assert_eq!(file_checksum(b""), 0);
    assert_eq!(file_checksum(&[1]), 2);
    assert_eq!(file_checksum(&[1, 1]), 6);
    assert_eq!(rolling_checksum(0x8000, &[0]), 1);
    assert_eq!(rolling_checksum(file_checksum(b"ab"), b"cd"), file_checksum(b"abcd"));
}
