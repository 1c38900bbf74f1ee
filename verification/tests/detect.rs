use rar::detect::{
    find_archive_start, find_bytes, sfx_offset_of, ArchiveFamily, RAR13_SIGNATURE, RAR4_SIGNATURE,
    RAR5_SIGNATURE,
};

#[test]
fn finds_a_bare_rar13_signature() {
    let found = find_archive_start(b"RE~^payload", 128).unwrap();
    assert_eq!(found.0, ArchiveFamily::Rar13);
    assert_eq!(found.1, 0);
}

#[test]
fn finds_sfx_prefixed_rar13_archive() {
    let found = find_archive_start(b"stub bytes RE~^payload", 128).unwrap();
    assert_eq!(found.0, ArchiveFamily::Rar13);
    assert_eq!(found.1, 11);
}

#[test]
fn strong_signature_wins_over_an_earlier_rar13_match() {
    let found = find_archive_start(b"stub RE~^ bytes Rar!\x1a\x07\x00payload", 128).unwrap();
    assert_eq!(found.0, ArchiveFamily::Rar15To40);
    assert_eq!(found.1, 16);
}

#[test]
fn scan_limit_bounds_sfx_detection() {
    let input = b"stub bytes RE~^payload";
    assert_eq!(find_archive_start(input, 10), None);
    let found = find_archive_start(input, 11).unwrap();
    assert_eq!(found.0, ArchiveFamily::Rar13);
    assert_eq!(found.1, RAR13_SIGNATURE.len() + 7);
}

#[test]
fn rejects_unknown_data() {
    assert_eq!(find_archive_start(b"not an archive", 128), None);
    assert_eq!(find_archive_start(b"", 128), None);
}

#[test]
fn signature_is_correct_length() {
    assert_eq!(RAR4_SIGNATURE.len(), 7);
    assert_eq!(&RAR4_SIGNATURE[..5], b"Rar!\x1a");
}

#[test]
fn earliest_strong_signature_wins() {
    let mut input = b"xx".to_vec();
    input.extend_from_slice(&RAR5_SIGNATURE);
    input.extend_from_slice(&RAR4_SIGNATURE);
    assert_eq!(
        find_archive_start(&input, 128),
        Some((ArchiveFamily::Rar50Plus, 2))
    );
    assert_eq!(sfx_offset_of(&input), Some(2));
    let mut other = RAR4_SIGNATURE.to_vec();
    other.extend_from_slice(&RAR5_SIGNATURE);
    assert_eq!(
        find_archive_start(&other, 128),
        Some((ArchiveFamily::Rar15To40, 0))
    );
    assert_eq!(sfx_offset_of(b"none"), None);
}

#[test]
fn first_occurrence_is_found() {
    assert_eq!(find_bytes(b"abcabc", b"bc"), Some(1));
    assert_eq!(find_bytes(b"abc", b""), None);
    assert_eq!(find_bytes(b"ab", b"abc"), None);
    assert_eq!(find_bytes(b"abc", b"abc"), Some(0));
}
