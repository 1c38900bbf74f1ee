use rar::error::{ErrorCode, RarError};
use rar::features::{Feature, FeatureSet};
use rar::version::{ArchiveVersion, LegacyCodec};

#[test]
fn error_codes_are_stable_and_machine_readable() {
    let cases = [
        (RarError::Format(String::new()), ErrorCode::Format, "format"),
        (
            RarError::ambiguous_member("duplicate", 2),
            ErrorCode::AmbiguousMember,
            "ambiguous_member",
        ),
        (
            RarError::StaleEntryId,
            ErrorCode::StaleEntryId,
            "stale_entry_id",
        ),
        (
            RarError::Io(std::io::Error::other("disk")),
            ErrorCode::Io,
            "io",
        ),
    ];

    for (error, expected, text) in cases {
        assert_eq!(error.code(), expected);
        assert_eq!(expected.as_str(), text);
        assert_eq!(expected.as_str().to_string(), text);
    }
}

#[test]
fn every_error_has_its_code_and_words() {
    let cases = [
        (RarError::format("f"), "format", "RAR format error: f"),
        (RarError::invalid_state("s"), "invalid_state", "invalid archive state: s"),
        (RarError::invalid_option("o"), "invalid_option", "invalid option: o"),
        (
            RarError::crc(0xDEADBEEF, 0x1a, "m"),
            "crc_mismatch",
            "CRC mismatch in m: expected 0xDEADBEEF, got 0x0000001A",
        ),
        (RarError::encrypted("e"), "encrypted", "encrypted: e"),
        (RarError::unsupported("u"), "unsupported", "unsupported: u"),
        (RarError::security("p"), "security", "security: p"),
        (
            RarError::limit_exceeded(1024, "big"),
            "limit_exceeded",
            "limit exceeded (1024): big",
        ),
        (RarError::member_not_found("x"), "member_not_found", "member not found: x"),
        (
            RarError::ambiguous_member("x", 3),
            "ambiguous_member",
            "member name is ambiguous: x (3 matches)",
        ),
        (
            RarError::StaleEntryId,
            "stale_entry_id",
            "entry ID belongs to another or outdated catalog",
        ),
        (RarError::ArchiveLocked, "archive_locked", "archive is locked"),
        (RarError::Cancelled, "cancelled", "operation cancelled"),
        (RarError::WrongPassword, "wrong_password", "encrypted: wrong password"),
        (
            RarError::Io(std::io::Error::other("disk")),
            "io",
            "I/O error: disk",
        ),
    ];
    for (error, code, words) in cases {
        assert_eq!(error.code().as_str(), code);
        assert_eq!(error.message(), words);
    }
    let mut hash = [0u8; 32];
    hash[0] = 0xab;
    let text = RarError::hash_mismatch(hash, [0; 32], "h").message();
    assert!(text.starts_with("hash mismatch in h: expected ab00"));
    assert_eq!(text.len(), "hash mismatch in h: expected , got ".len() + 128);
}

#[test]
fn feature_sets_hold_what_they_name() {
    let set = FeatureSet { solid: true, header_encryption: false, quick_open: true };
    assert!(set.contains(Feature::Solid));
    assert!(!set.contains(Feature::HeaderEncryption));
    assert!(set.contains(Feature::QuickOpen));
    for f in Feature::ALL {
        assert!(!FeatureSet::store_only().contains(f));
        assert!(!FeatureSet::default().contains(f));
    }
    assert_eq!(Feature::HeaderEncryption.name(), "header_encryption");
    assert_eq!(Feature::Solid.name(), "solid");
    assert_eq!(Feature::QuickOpen.name(), "quick_open");
}

#[test]
fn member_versions_fold_to_codecs() {
    assert_eq!(LegacyCodec::from_unp_ver(15), Some(LegacyCodec::Rar15));
    assert_eq!(LegacyCodec::from_unp_ver(26), Some(LegacyCodec::Rar20));
    assert_eq!(LegacyCodec::from_unp_ver(36), Some(LegacyCodec::Rar29));
    assert_eq!(LegacyCodec::from_unp_ver(33), None);
    assert_eq!(ArchiveVersion::from_unp_ver(29), Some(ArchiveVersion::V29));
    assert_eq!(ArchiveVersion::from_v70(true), ArchiveVersion::Rar70);
}
