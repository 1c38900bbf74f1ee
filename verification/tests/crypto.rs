use rar::crypto::cbc::Aes256CbcStream;
use rar::crypto::rar13::Rar13Cipher;
use rar::crypto::rar50::{
    decrypt_data, derive_header_key, derive_key, derive_keys, encrypt_data,
    parse_archive_encrypt_header, parse_encryption_extra, zero_padded_len, EncryptionParams,
    MemberEncryption,
};
use rar::crypto::{clamp_password, constant_time_eq, MAX_PASSWORD_CHARS};
use rar::error::RarError;
use rar::rar5::headers::RawBlock;
use rar::rar5::{
    vint, BLOCK_TYPE_ENCRYPT_HEADER, ENCR_FLAG_CHECKSUM, ENCR_FLAG_HASH_MAC, ENCR_IV_SIZE,
    ENCR_SALT_SIZE, ENCR_VERSION_AES256, EXTRA_FILE_ENCRYPTION,
};

#[test]
fn rar13_cipher_matches_pinned_stream_vector() {
    let mut data = *b"hello world";
    Rar13Cipher::new(b"password").encrypt_in_place(&mut data);
    assert_eq!(
        data,
        [0x37, 0xcd, 0xaa, 0xbd, 0x10, 0x4e, 0x6f, 0x6e, 0xb5, 0x30, 0xe6]
    );
    Rar13Cipher::new(b"password").decrypt_in_place(&mut data);
    assert_eq!(&data, b"hello world");
}

#[test]
fn encrypt_decrypt_roundtrip() {
    let key = [0x42u8; 32];
    let iv = [0x13u8; 16];
    let plaintext = b"Hello, RAR5 encryption!";

    let ct = encrypt_data(plaintext, &key, &iv);
    assert!(ct.len() >= plaintext.len());
    assert_eq!(ct.len() % 16, 0);

    let pt = decrypt_data(&ct, &key, &iv).unwrap();
    assert_eq!(&pt[..plaintext.len()], plaintext.as_slice());
}

#[test]
fn decrypt_wrong_length_fails() {
    let key = [0u8; 32];
    let iv = [0u8; 16];
    let bad = vec![0u8; 15]; // not a multiple of 16
    assert!(decrypt_data(&bad, &key, &iv).is_err());
}

#[test]
fn derive_key_deterministic() {
    let k1 = derive_key("test", b"salt1234salt1234", 100);
    let k2 = derive_key("test", b"salt1234salt1234", 100);
    assert_eq!(k1, k2);

    let k3 = derive_key("test2", b"salt1234salt1234", 100);
    assert_ne!(k1, k3);
}

#[test]
fn derived_keys_match_legacy_pbkdf2_key() {
    let salt = *b"salt1234salt1234";
    let keys = derive_keys("test", &salt, 8).unwrap();
    // At strength 8, key == PBKDF2(2^8 iterations) block 1.
    let legacy = derive_key("test", &salt, 1 << 8);
    assert_eq!(keys.key, legacy);
}

#[test]
fn strength_cap_rejected() {
    let mut data = vec![];
    data.extend(vint::encode(0u64)); // version
    data.extend(vint::encode(0x03u64)); // flags
    data.push(25); // strength above the limit
    data.extend_from_slice(&[0u8; 16]); // salt
    data.extend_from_slice(&[0u8; 16]); // iv
    assert!(EncryptionParams::from_extra_bytes(&data).is_err());
}

#[test]
fn password_check_constant_time() {
    let params = EncryptionParams::generate_for_password("hunter2", 4);
    assert!(params.verify_password("hunter2"));
    assert!(!params.verify_password("hunter3"));
    // No stored check: always accepted.
    let mut no_check = params.clone();
    no_check.checksum = None;
    assert!(no_check.verify_password("anything"));
}

#[test]
fn kdf_truncates_passwords_at_127_chars() {
    let salt = *b"salt1234salt1234";
    let long = "p".repeat(MAX_PASSWORD_CHARS + 3);
    let prefix = "p".repeat(MAX_PASSWORD_CHARS);
    let keys_long = derive_keys(&long, &salt, 4).unwrap();
    let keys_prefix = derive_keys(&prefix, &salt, 4).unwrap();
    assert_eq!(keys_long.key, keys_prefix.key);
    assert_eq!(keys_long.hash_key, keys_prefix.hash_key);
    assert_eq!(keys_long.password_check, keys_prefix.password_check);
}

#[test]
fn generated_params_accept_the_clamped_password() {
    let long = "p".repeat(MAX_PASSWORD_CHARS + 3);
    let prefix = "p".repeat(MAX_PASSWORD_CHARS);
    let params = EncryptionParams::generate_for_password(&long, 4);
    assert!(params.verify_password(&long));
    assert!(params.verify_password(&prefix));
    assert!(!params.verify_password(&"p".repeat(MAX_PASSWORD_CHARS - 1)));
}

/// Extra-area encryption record body with strength 4 and fixed salt/IV.
fn encr_record(version: u64, flags: u64, checksum: Option<[u8; 12]>) -> Vec<u8> {
    let mut data = Vec::new();
    data.extend(vint::encode(version));
    data.extend(vint::encode(flags));
    data.push(4);
    data.extend_from_slice(&[0x11u8; ENCR_SALT_SIZE]);
    data.extend_from_slice(&[0x22u8; ENCR_IV_SIZE]);
    if let Some(ck) = checksum {
        data.extend_from_slice(&ck);
    }
    data
}

/// Archive-level encryption header (`[type][flags][version][encr flags]
/// [strength][salt][checksum?]`) as a raw block.
fn archive_encrypt_header(version: u64, flags: u64) -> RawBlock {
    let mut data = Vec::new();
    data.extend(vint::encode(BLOCK_TYPE_ENCRYPT_HEADER));
    data.extend(vint::encode(0u64));
    data.extend(vint::encode(version));
    data.extend(vint::encode(flags));
    data.push(4);
    data.extend_from_slice(&[0x11u8; ENCR_SALT_SIZE]);
    RawBlock {
        header_crc: 0,
        header_data: data,
        data_size: 0,
        data_offset: 0,
        block_type: 0,
        flags: 0,
    }
}

#[test]
fn unknown_encryption_version_is_rejected() {
    let err =
        EncryptionParams::from_extra_bytes(&encr_record(1, u64::from(ENCR_FLAG_CHECKSUM), None))
            .unwrap_err();
    assert!(matches!(err, RarError::Format(_)), "got {}", err.message());

    let err = parse_archive_encrypt_header(&archive_encrypt_header(1, 0)).unwrap_err();
    assert!(matches!(err, RarError::Format(_)), "got {}", err.message());
}

#[test]
fn unknown_encryption_flags_are_rejected() {
    for flags in [
        u64::from(ENCR_FLAG_CHECKSUM) | 0x04, // unknown bit next to a known one
        0x100,                                // only bits above the u8 range
        u64::from(ENCR_FLAG_HASH_MAC) | 0x100, // truncates to 0x02
    ] {
        let err = EncryptionParams::from_extra_bytes(&encr_record(0, flags, None)).unwrap_err();
        assert!(
            matches!(err, RarError::Format(_)),
            "flags {flags:#x}: {}",
            err.message()
        );

        let err = parse_archive_encrypt_header(&archive_encrypt_header(0, flags)).unwrap_err();
        assert!(
            matches!(err, RarError::Format(_)),
            "flags {flags:#x}: {}",
            err.message()
        );
    }

    // The defined combinations still parse (the check bit needs its
    // 12-byte value present).
    for flags in [0u64, u64::from(ENCR_FLAG_HASH_MAC)] {
        assert!(
            EncryptionParams::from_extra_bytes(&encr_record(0, flags, None)).is_ok(),
            "flags {flags:#x}"
        );
        assert!(
            parse_archive_encrypt_header(&archive_encrypt_header(0, flags)).is_ok(),
            "flags {flags:#x}"
        );
    }
    let with_check = u64::from(ENCR_FLAG_CHECKSUM | ENCR_FLAG_HASH_MAC);
    assert!(
        EncryptionParams::from_extra_bytes(&encr_record(0, with_check, Some([0u8; 12]))).is_ok()
    );
    let mut raw = archive_encrypt_header(0, with_check);
    raw.header_data.extend_from_slice(&[0u8; 12]);
    assert!(parse_archive_encrypt_header(&raw).is_ok());
}

#[test]
fn truncated_password_check_value_is_rejected() {
    // Flagged check value with only 11 trailing bytes: treating it as
    // "no check" would let `verify_password` accept any password.
    let mut data = encr_record(
        u64::from(ENCR_VERSION_AES256),
        u64::from(ENCR_FLAG_CHECKSUM),
        None,
    );
    data.extend_from_slice(&[0u8; 11]);
    let err = EncryptionParams::from_extra_bytes(&data).unwrap_err();
    assert!(matches!(err, RarError::Format(_)), "got {}", err.message());

    let mut raw = archive_encrypt_header(0, u64::from(ENCR_FLAG_CHECKSUM));
    raw.header_data.extend_from_slice(&[0u8; 11]);
    let err = parse_archive_encrypt_header(&raw).unwrap_err();
    assert!(matches!(err, RarError::Format(_)), "got {}", err.message());
}

#[test]
fn service_record_all_zero_password_check_is_accepted() {
    let params = EncryptionParams::from_extra_bytes(&encr_record(
        0,
        u64::from(ENCR_FLAG_CHECKSUM),
        Some([0u8; 12]),
    ))
    .unwrap();

    // Member records stay strict even when the stored check is zero.
    assert!(!params.verify_password("hunter2"));
    assert!(params.derive_and_verify("hunter2").unwrap().is_none());

    // Service records: an all-zero check value means the check is absent,
    // so any password derives keys.
    for password in ["hunter2", "anything"] {
        let keys = params.derive_and_verify_service(password).unwrap().unwrap();
        assert_eq!(keys.key, params.derive_keys(password).unwrap().key);
    }
}

#[test]
fn derive_and_verify_matches_derive_keys() {
    let params = EncryptionParams::generate_for_password("hunter2", 4);
    let direct = params.derive_keys("hunter2").unwrap();
    let keys = params
        .derive_and_verify("hunter2")
        .unwrap()
        .expect("right password");
    assert_eq!(keys.key, direct.key);
    assert_eq!(keys.hash_key, direct.hash_key);
    assert_eq!(keys.password_check, direct.password_check);

    assert!(
        params.derive_and_verify("hunter3").unwrap().is_none(),
        "wrong password must be rejected"
    );

    // No stored check value: derivation still succeeds.
    let mut no_check = params.clone();
    no_check.checksum = None;
    assert!(no_check.derive_and_verify("anything").unwrap().is_some());
}

#[test]
fn member_encryption_matches_the_password_api() {
    let password = "hunter2";
    let session = MemberEncryption::generate(password, 4);
    let parsed = parse_encryption_extra(&session.extra_bytes())
        .unwrap()
        .expect("one ENCR record");
    assert!(parsed.uses_hash_mac());

    let crc = 0xDEAD_BEEF;
    assert_eq!(
        session.mac_crc32(crc),
        parsed.mac_crc32(crc, password).unwrap()
    );
    let hash = [0x5Au8; 32];
    assert_eq!(
        session.mac_hash32(hash),
        parsed.mac_hash32(hash, password).unwrap()
    );
    let plaintext = b"member payload ".repeat(9);
    assert_eq!(
        session.encrypt(&plaintext),
        parsed.encrypt(&plaintext, password).unwrap()
    );

    // The streaming writer seeds its CBC chains from `key_iv`.
    let direct = parsed.derive_keys(password).unwrap();
    let (key, iv) = session.key_iv();
    assert_eq!(*key, direct.key);
    assert_eq!(*iv, parsed.iv);
}

#[test]
fn member_encryption_without_hash_mac_keeps_plaintext_crcs() {
    let session = MemberEncryption::generate_with_flags("hunter2", 4, ENCR_FLAG_CHECKSUM);
    let parsed = parse_encryption_extra(&session.extra_bytes())
        .unwrap()
        .expect("one ENCR record");
    assert!(!parsed.uses_hash_mac());
    assert!(
        parsed.checksum.is_some(),
        "the password check must stay enabled"
    );
}

#[test]
fn hostile_extra_record_size_does_not_panic() {
    // A vint size of u64::MAX then an encryption type: the record end
    // must not overflow into a start>end slice.
    let mut huge = vint::encode(u64::MAX);
    huge.extend(vint::encode(EXTRA_FILE_ENCRYPTION));
    assert!(parse_encryption_extra(&huge).is_ok());

    // A zero-size record whose type vint does not fit inside it: the
    // body range would invert. Must be an error, never a panic.
    let mut zero = vint::encode(0u64);
    zero.extend(vint::encode(EXTRA_FILE_ENCRYPTION));
    assert!(parse_encryption_extra(&zero).is_err());

    // A record that ends exactly at its type byte (empty body) decodes
    // as a malformed record rather than panicking.
    let mut short = vint::encode(1u64);
    short.extend(vint::encode(EXTRA_FILE_ENCRYPTION));
    assert!(parse_encryption_extra(&short).is_err());
}

// ── values pinned against published vectors ─────────────────────────────────

#[test]
fn aes256_block_matches_the_published_vector() {
    // FIPS 197, C.3, as the single CBC block of a zero vector.
    let mut key = [0u8; 32];
    for (i, b) in key.iter_mut().enumerate() {
        *b = i as u8;
    }
    let plain: Vec<u8> = (0..16u8).map(|i| i * 0x11).collect();
    let cipher = encrypt_data(&plain, &key, &[0u8; 16]);
    assert_eq!(
        cipher,
        [
            0x8e, 0xa2, 0xb7, 0xca, 0x51, 0x67, 0x45, 0xbf, 0xea, 0xfc, 0x49, 0x90, 0x4b, 0x49,
            0x60, 0x89
        ]
    );
    assert_eq!(decrypt_data(&cipher, &key, &[0u8; 16]).unwrap(), plain);
}

#[test]
fn kdf_matches_a_published_pbkdf2_vector() {
    // PBKDF2-HMAC-SHA256, password "password", salt "salt".
    let one = derive_key("password", b"salt", 1);
    assert_eq!(one[..4], [0x12, 0x0f, 0xb6, 0xcf]);
    let two = derive_key("password", b"salt", 2);
    assert_eq!(two[..4], [0xae, 0x4d, 0x0c, 0x95]);
    assert_eq!(derive_key("password", b"salt", 0), one);
}

#[test]
fn stored_check_value_carries_its_own_digest() {
    let params = EncryptionParams::generate_for_password("hunter2", 4);
    let mut damaged = params.clone();
    let mut check = damaged.checksum.unwrap();
    check[11] ^= 1;
    damaged.checksum = Some(check);
    assert!(params.verify_password("hunter2"));
    assert!(!damaged.verify_password("hunter2"));
}

#[test]
fn generated_salts_and_vectors_differ() {
    let a = EncryptionParams::generate_for_password("p", 0);
    let b = EncryptionParams::generate_for_password("p", 0);
    assert_ne!(a.salt, b.salt);
    assert_ne!(a.iv, b.iv);
    assert_eq!(a.iterations, 1);
}

#[test]
fn padding_fills_whole_blocks_and_at_least_one() {
    assert_eq!(zero_padded_len(0), 16);
    assert_eq!(zero_padded_len(1), 16);
    assert_eq!(zero_padded_len(16), 16);
    assert_eq!(zero_padded_len(17), 32);
    assert_eq!(encrypt_data(b"", &[1; 32], &[2; 16]).len(), 16);
}

#[test]
fn streamed_ciphertext_is_the_whole_ciphertext() {
    let key = [7u8; 32];
    let iv = [9u8; 16];
    let plain: Vec<u8> = (0..64u8).collect();
    let whole = encrypt_data(&plain, &key, &iv);
    let mut stream = Aes256CbcStream::new(&key, &iv);
    let mut first = plain[..16].to_vec();
    let mut second = plain[16..].to_vec();
    stream.encrypt_in_place(&mut first).unwrap();
    stream.encrypt_in_place(&mut second).unwrap();
    first.extend(second);
    assert_eq!(first, whole);
    let mut odd = vec![0u8; 15];
    let err = stream.encrypt_in_place(&mut odd).unwrap_err();
    assert_eq!(
        err.message(),
        "RAR format error: plaintext length 15 is not a multiple of 16"
    );
}

#[test]
fn strength_above_the_limit_is_an_error_everywhere() {
    let mut params = EncryptionParams::generate_for_password("p", 1);
    params.strength = 25;
    assert!(!params.verify_password("p"));
    let err = params.get_key("p").unwrap_err();
    assert_eq!(
        err.message(),
        "RAR format error: KDF strength 25 exceeds maximum 24"
    );
    assert!(params.decrypt(&[0; 16], "p").is_err());
    assert!(params.encrypt(&[0; 16], "p").is_err());
    assert!(params.mac_crc32(1, "p").is_err());
    assert!(params.mac_hash32([0; 32], "p").is_err());
}

#[test]
fn record_faults_name_what_is_missing() {
    let message = |data: &[u8]| EncryptionParams::from_extra_bytes(data).unwrap_err().message();
    assert_eq!(
        message(&[]),
        "RAR format error: encr version: unexpected end of data"
    );
    assert_eq!(message(&[1]), "RAR format error: unsupported encryption version 1");
    assert_eq!(
        message(&[0]),
        "RAR format error: encr flags: unexpected end of data"
    );
    assert_eq!(
        message(&[0, 4]),
        "RAR format error: unsupported encryption flags 0x4 (known bits 0x3)"
    );
    assert_eq!(message(&[0, 0]), "RAR format error: truncated encryption record");
    assert_eq!(
        message(&[0, 0, 25]),
        "RAR format error: encryption strength 25 exceeds maximum 24"
    );
    assert_eq!(message(&[0, 0, 4]), "RAR format error: truncated salt");
    let mut salted = vec![0, 0, 4];
    salted.extend_from_slice(&[0; 16]);
    assert_eq!(message(&salted), "RAR format error: truncated IV");
}

#[test]
fn archive_header_key_needs_the_right_password() {
    let params = EncryptionParams::generate_for_password("secret", 4);
    let block = params.to_archive_header_block();
    // CRC (4 bytes) and size (1 byte) stand before the header data.
    let mut raw = archive_encrypt_header(0, 0);
    raw.header_data = block[5..].to_vec();
    let key = derive_header_key(&raw, Some("secret")).unwrap();
    assert_eq!(key, params.get_key("secret").unwrap());
    assert!(matches!(
        derive_header_key(&raw, Some("wrong")).unwrap_err(),
        RarError::WrongPassword
    ));
    assert!(matches!(
        derive_header_key(&raw, None).unwrap_err(),
        RarError::Encrypted(_)
    ));
    let parsed = parse_archive_encrypt_header(&raw).unwrap();
    assert_eq!(parsed.flags, ENCR_FLAG_CHECKSUM);
    assert_eq!(parsed.salt, params.salt);
    assert_eq!(parsed.iv, [0; 16]);
    assert_eq!(parsed.checksum, params.checksum);
}

#[test]
fn encryption_record_is_found_behind_other_records() {
    let params = EncryptionParams::generate_for_password("p", 2);
    // A record of type 2 with one byte, then the encryption record.
    let mut area = vec![2, 2, 0xaa];
    area.extend(params.to_extra_bytes());
    let found = parse_encryption_extra(&area).unwrap().expect("record");
    assert_eq!(found.salt, params.salt);
    assert_eq!(found.iv, params.iv);
    assert_eq!(found.checksum, params.checksum);
    assert_eq!(found.flags, 3);
    assert!(parse_encryption_extra(&[2, 2, 0xaa]).unwrap().is_none());
    assert!(parse_encryption_extra(&[]).unwrap().is_none());
}

#[test]
fn vint_bytes_and_limits() {
    assert_eq!(vint::encode(0), [0]);
    assert_eq!(vint::encode(127), [0x7f]);
    assert_eq!(vint::encode(128), [0x80, 0x01]);
    assert_eq!(vint::encode(u64::MAX).len(), 10);
    assert_eq!(
        vint::decode_from_slice(&vint::encode(u64::MAX), 0),
        Ok((u64::MAX, 10))
    );
    assert_eq!(vint::decode_from_slice(&[9, 0x80, 0x01], 1), Ok((128, 2)));
    assert_eq!(
        vint::decode_from_slice(&[0x80], 0),
        Err(vint::VintError::UnexpectedEnd)
    );
    assert_eq!(
        vint::decode_from_slice(&[0xff; 11], 0),
        Err(vint::VintError::TooLong)
    );
    // Ten bytes whose value needs more than 64 bits.
    let mut wide = [0xff; 10];
    wide[9] = 0x7f;
    assert_eq!(
        vint::decode_from_slice(&wide, 0),
        Err(vint::VintError::TooLong)
    );
}

#[test]
fn clamping_counts_characters_not_bytes() {
    let text = "\u{e9}".repeat(130);
    assert_eq!(clamp_password(text.as_bytes()).len(), 2 * 127);
    assert_eq!(clamp_password(b"short"), b"short");
    assert!(constant_time_eq(b"abc", b"abc"));
    assert!(!constant_time_eq(b"abc", b"abd"));
    assert!(!constant_time_eq(b"abc", b"ab"));
}

#[test]
fn rar13_stream_carries_its_key_byte_by_byte() {
    let mut whole = *b"comment";
    Rar13Cipher::new_comment().encrypt_in_place(&mut whole);
    let mut cipher = Rar13Cipher::new_comment();
    let single: Vec<u8> = b"comment".iter().map(|&b| cipher.encrypt_byte(b)).collect();
    assert_eq!(single, whole);
    // First key byte: 0 + (7 + 77).
    assert_eq!(whole[0], b'c' + 84);
    let mut back = Rar13Cipher::new_comment();
    assert_eq!(back.decrypt_byte(whole[0]), b'c');
}
