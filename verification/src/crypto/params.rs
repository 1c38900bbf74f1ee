//! Encryption records: what a member or an archive header stores of its
//! encryption, and what a password makes of it.

use crate::crypto::cbc::{
    array_at, cbc_decrypted, cbc_encrypted, decrypt_data, encrypt_data, spec_zero_padded_len,
    zero_padded,
};
use crate::crypto::primitives::{hmac_sha256_of, random_fill, sha256};
use crate::crypto::rar50::{
    check_accepts, derive_keys, is_absent_check, kdf_iterations, spec_check, spec_hash_key, spec_key,
    spec_mac_crc32, stored_check, strength_refused, DerivedKeys, MAX_KDF_COUNT_LOG,
};
use crate::error::{is_encrypted, is_format, RarError, RarResult};
use crate::rar5::headers::{frame_block, framed, RawBlock};
use crate::rar5::vint;
use crate::rar5::vint::{
    lemma_vint_inside, lemma_vint_roundtrip, vint_at, vint_bytes, VintError, MAX_VINT_BYTES,
};
use crate::rar5::{
    BLOCK_TYPE_ENCRYPT_HEADER, ENCR_FLAG_CHECKSUM, ENCR_FLAG_HASH_MAC, EXTRA_FILE_ENCRYPTION,
};
use crate::text::{decimal, joined, prefixed_hex, with_hex, with_number};
use vstd::arithmetic::power2::pow2;
use vstd::prelude::*;
use vstd::slice::slice_subrange;
use vstd::string::*;

verus! {

/// What an encryption record says.
pub struct EncrFields {
    pub flags: nat,
    pub strength: nat,
    pub salt: Seq<u8>,
    pub iv: Seq<u8>,
    pub check: Option<Seq<u8>>,
}

impl EncrFields {
    /// A record that can be written and read back: known flags, a strength
    /// within the limit, and a check value where the flags announce one.
    pub open spec fn valid(self) -> bool {
        &&& self.flags < 4
        &&& self.strength <= MAX_KDF_COUNT_LOG
        &&& self.salt.len() == 16
        &&& self.iv.len() == 16
        &&& self.flags % 2 == 1 <==> self.check is Some
        &&& self.check matches Some(c) ==> c.len() == 12
    }
}

/// The version and flags that start a record: the flags, and the length of
/// both, or what is wrong with them.
pub open spec fn encr_head(s: Seq<u8>) -> Result<(nat, nat), Seq<char>> {
    match vint_at(s) {
        Err(e) => Err("encr version: "@ + e.spec_message()),
        Ok((version, n)) => if version > 0 {
            Err("unsupported encryption version "@ + decimal(version) + ""@)
        } else {
            match vint_at(s.skip(n as int)) {
                Err(e) => Err("encr flags: "@ + e.spec_message()),
                Ok((flags, m)) => if flags > 3 {
                    Err(
                        "unsupported encryption flags "@ + prefixed_hex(flags)
                            + " (known bits 0x3)"@,
                    )
                } else {
                    Ok((flags, n + m))
                },
            }
        },
    }
}

/// What a strength above the limit is refused with.
pub open spec fn record_strength_refused(strength: nat) -> Seq<char> {
    "encryption strength "@ + decimal(strength) + " exceeds maximum 24"@
}

/// The record that the body `s` of a file encryption record spells, or what
/// is wrong with it.
pub open spec fn record_of(s: Seq<u8>) -> Result<EncrFields, Seq<char>> {
    match encr_head(s) {
        Err(m) => Err(m),
        Ok((flags, n)) => {
            let t = s.skip(n as int);
            if t.len() == 0 {
                Err("truncated encryption record"@)
            } else if t[0] > MAX_KDF_COUNT_LOG {
                Err(record_strength_refused(t[0] as nat))
            } else if t.len() < 17 {
                Err("truncated salt"@)
            } else if t.len() < 33 {
                Err("truncated IV"@)
            } else if flags % 2 == 1 && t.len() < 45 {
                Err("truncated encryption password check value"@)
            } else {
                Ok(
                    EncrFields {
                        flags,
                        strength: t[0] as nat,
                        salt: t.subrange(1, 17),
                        iv: t.subrange(17, 33),
                        check: if flags % 2 == 1 {
                            Some(t.subrange(33, 45))
                        } else {
                            None
                        },
                    },
                )
            }
        },
    }
}

/// Sixteen zeros.
pub open spec fn zero_iv() -> Seq<u8> {
    Seq::new(16, |i: int| 0u8)
}

/// The record that the header data `s` of an archive encryption block spells,
/// or what is wrong with it. Such a record has no vector of its own.
pub open spec fn archive_record_of(s: Seq<u8>) -> Result<EncrFields, Seq<char>> {
    match vint_at(s) {
        Err(e) => Err("block type: "@ + e.spec_message()),
        Ok((_, a)) => match vint_at(s.skip(a as int)) {
            Err(e) => Err("block flags: "@ + e.spec_message()),
            Ok((_, b)) => {
                let r = s.skip(a as int).skip(b as int);
                match encr_head(r) {
                    Err(m) => Err(m),
                    Ok((flags, n)) => {
                        let t = r.skip(n as int);
                        if t.len() == 0 {
                            Err("truncated encryption header"@)
                        } else if t[0] > MAX_KDF_COUNT_LOG {
                            Err(record_strength_refused(t[0] as nat))
                        } else if t.len() < 17 {
                            Err("truncated encryption header salt"@)
                        } else if flags % 2 == 1 && t.len() < 29 {
                            Err("truncated encryption header password check value"@)
                        } else {
                            Ok(
                                EncrFields {
                                    flags,
                                    strength: t[0] as nat,
                                    salt: t.subrange(1, 17),
                                    iv: zero_iv(),
                                    check: if flags % 2 == 1 {
                                        Some(t.subrange(17, 29))
                                    } else {
                                        None
                                    },
                                },
                            )
                        }
                    },
                }
            },
        },
    }
}

/// The encryption record of an extra area, or what is wrong with it. A record
/// that reaches past the end of the area ends the search.
pub open spec fn extra_record_of(s: Seq<u8>) -> Result<Option<EncrFields>, Seq<char>>
    decreases s.len(),
{
    if s.len() == 0 {
        Ok(None)
    } else {
        match vint_at(s) {
            Err(e) => Err("extra record size: "@ + e.spec_message()),
            Ok((size, n)) => {
                proof {
                    lemma_vint_inside(s, MAX_VINT_BYTES as nat);
                }
                let t = s.skip(n as int);
                if size > t.len() {
                    Ok(None)
                } else {
                    match vint_at(t) {
                        Err(e) => Err("extra record type: "@ + e.spec_message()),
                        Ok((kind, m)) => if kind == EXTRA_FILE_ENCRYPTION {
                            if m > size {
                                Err("encryption record is malformed"@)
                            } else {
                                match record_of(t.subrange(m as int, size as int)) {
                                    Err(e) => Err(e),
                                    Ok(f) => Ok(Some(f)),
                                }
                            }
                        } else {
                            extra_record_of(t.skip(size as int))
                        },
                    }
                }
            },
        }
    }
}

/// The body of a file encryption record.
pub open spec fn record_body(f: EncrFields) -> Seq<u8> {
    vint_bytes(0) + vint_bytes(f.flags) + seq![f.strength as u8] + f.salt + f.iv + match f.check {
        Some(c) => c,
        None => Seq::empty(),
    }
}

/// A file encryption record in an extra area: size, type and body.
pub open spec fn record_bytes(f: EncrFields) -> Seq<u8> {
    let kind = vint_bytes(EXTRA_FILE_ENCRYPTION as nat);
    vint_bytes(kind.len() + record_body(f).len()) + kind + record_body(f)
}

/// The header data of an archive encryption block. Of the flags it carries
/// only the password check's.
pub open spec fn archive_record_body(f: EncrFields) -> Seq<u8> {
    vint_bytes(BLOCK_TYPE_ENCRYPT_HEADER as nat) + vint_bytes(0) + vint_bytes(0) + vint_bytes(
        f.flags % 2,
    ) + seq![f.strength as u8] + f.salt + match f.check {
        Some(c) => c,
        None => Seq::empty(),
    }
}

proof fn lemma_head_of(flags: nat, rest: Seq<u8>)
    requires
        flags < 4,
    ensures
        encr_head(vint_bytes(0) + vint_bytes(flags) + rest) == Ok::<(nat, nat), Seq<char>>(
            (flags, 2),
        ),
        vint_bytes(0) + vint_bytes(flags) == seq![0u8, flags as u8],
{
    let s = vint_bytes(0) + vint_bytes(flags) + rest;
    assert(s =~= vint_bytes(0) + (vint_bytes(flags) + rest));
    lemma_vint_roundtrip(0, vint_bytes(flags) + rest);
    assert(vint_bytes(0).len() == 1);
    assert(s.skip(1) =~= vint_bytes(flags) + rest);
    lemma_vint_roundtrip(flags as u64, rest);
    assert(vint_bytes(0) + vint_bytes(flags) =~= seq![0u8, flags as u8]);
}

/// A record written is the record read.
pub proof fn lemma_record_roundtrip(f: EncrFields)
    requires
        f.valid(),
    ensures
        record_of(record_body(f)) == Ok::<EncrFields, Seq<char>>(f),
{
    let check = match f.check {
        Some(c) => c,
        None => Seq::empty(),
    };
    let rest = seq![f.strength as u8] + f.salt + f.iv + check;
    let s = record_body(f);
    assert(s =~= vint_bytes(0) + vint_bytes(f.flags) + rest);
    lemma_head_of(f.flags, rest);
    let t = s.skip(2);
    assert(t =~= rest);
    assert(t.subrange(1, 17) =~= f.salt);
    assert(t.subrange(17, 33) =~= f.iv);
    if f.flags % 2 == 1 {
        assert(t.subrange(33, 45) =~= f.check->Some_0);
    }
}

/// A record written into an extra area is the record found there, whatever
/// follows it.
pub proof fn lemma_extra_roundtrip(f: EncrFields, rest: Seq<u8>)
    requires
        f.valid(),
    ensures
        extra_record_of(record_bytes(f) + rest) == Ok::<Option<EncrFields>, Seq<char>>(Some(f)),
{
    let kind = vint_bytes(EXTRA_FILE_ENCRYPTION as nat);
    let body = record_body(f);
    let size = kind.len() + body.len();
    let s = record_bytes(f) + rest;
    assert(kind.len() == 1);
    lemma_head_of(f.flags, Seq::empty());
    assert(body.len() < 100);
    assert(s =~= vint_bytes(size) + (kind + body + rest));
    lemma_vint_roundtrip(size as u64, kind + body + rest);
    let n = vint_bytes(size).len();
    let t = s.skip(n as int);
    assert(t =~= kind + (body + rest));
    lemma_vint_roundtrip(EXTRA_FILE_ENCRYPTION, body + rest);
    assert(t.subrange(1, size as int) =~= body);
    lemma_record_roundtrip(f);
}

/// An archive record written is the record read, with no vector and no flag
/// but the password check's.
pub proof fn lemma_archive_record_roundtrip(f: EncrFields)
    requires
        f.valid(),
    ensures
        archive_record_of(archive_record_body(f)) == Ok::<EncrFields, Seq<char>>(
            EncrFields { flags: f.flags % 2, iv: zero_iv(), ..f },
        ),
{
    let check = match f.check {
        Some(c) => c,
        None => Seq::empty(),
    };
    let flags = f.flags % 2;
    let tail = seq![f.strength as u8] + f.salt + check;
    let s = archive_record_body(f);
    let kind = vint_bytes(BLOCK_TYPE_ENCRYPT_HEADER as nat);
    assert(kind.len() == 1);
    assert(vint_bytes(0).len() == 1);
    let r = vint_bytes(0) + vint_bytes(flags) + tail;
    assert(s =~= kind + (vint_bytes(0) + r));
    lemma_vint_roundtrip(BLOCK_TYPE_ENCRYPT_HEADER, vint_bytes(0) + r);
    assert(s.skip(1) =~= vint_bytes(0) + r);
    lemma_vint_roundtrip(0, r);
    assert(s.skip(1).skip(1) =~= r);
    lemma_head_of(flags, tail);
    let t = r.skip(2);
    assert(t =~= tail);
    assert(t.subrange(1, 17) =~= f.salt);
    if flags == 1 {
        assert(t.subrange(17, 29) =~= f.check->Some_0);
    }
}

/// The encryption parameters of a member or of an archive's headers.
#[derive(Clone, Debug)]
pub struct EncryptionParams {
    pub version: u8,
    pub flags: u8,
    pub strength: u8,
    pub salt: [u8; 16],
    pub iv: [u8; 16],
    pub checksum: Option<[u8; 12]>,
    pub iterations: u32,
}

fn vint_error(what: &str, e: VintError) -> (r: RarError)
    ensures
        is_format(r, what@ + e.spec_message()),
{
    RarError::Format(joined(what, e.message()))
}

/// Read the version and flags that start a record at `offset`.
fn read_head(data: &[u8], offset: usize) -> (r: RarResult<(u8, usize)>)
    requires
        offset <= data@.len(),
    ensures
        match (r, encr_head(data@.skip(offset as int))) {
            (Ok((flags, next)), Ok((f, n))) => flags == f && next == offset + n && next
                <= data@.len() && f < 4,
            (Err(e), Err(m)) => is_format(e, m),
            _ => false,
        },
{
    let total = data.len();
    let (version, n) = match vint::decode_from_slice(data, offset) {
        Ok(x) => x,
        Err(e) => {
            return Err(vint_error("encr version: ", e));
        },
    };
    if version > 0 {
        return Err(
            RarError::Format(with_number("unsupported encryption version ", version, "")),
        );
    }
    assert(offset + n <= total);
    assert(data@.skip(offset as int).skip(n as int) =~= data@.skip(offset + n));
    let (flags, m) = match vint::decode_from_slice(data, offset + n) {
        Ok(x) => x,
        Err(e) => {
            return Err(vint_error("encr flags: ", e));
        },
    };
    if flags > 3 {
        return Err(
            RarError::Format(with_hex("unsupported encryption flags ", flags, " (known bits 0x3)")),
        );
    }
    Ok((flags as u8, offset + n + m))
}

impl EncryptionParams {
    /// The record that the parameters stand for.
    pub open spec fn fields(self) -> EncrFields {
        EncrFields {
            flags: self.flags as nat,
            strength: self.strength as nat,
            salt: self.salt@,
            iv: self.iv@,
            check: match self.checksum {
                Some(c) => Some(c@),
                None => None,
            },
        }
    }

    /// The parameters are those of the record `f`.
    pub open spec fn is_record(self, f: EncrFields) -> bool {
        self.fields() == f && self.version == 0 && self.iterations as nat == pow2(f.strength)
    }

    /// Whether the stored check value, if there is one, accepts a password.
    pub open spec fn accepts(self, password: Seq<char>, service: bool) -> bool {
        match self.checksum {
            Some(stored) => {
                ||| service && is_absent_check(stored@)
                ||| check_accepts(
                    spec_check(password, self.salt@, self.strength as nat),
                    stored@,
                )
            },
            None => true,
        }
    }

    /// Parse the body of a file encryption record.
    pub fn from_extra_bytes(data: &[u8]) -> (r: RarResult<EncryptionParams>)
        ensures
            match (r, record_of(data@)) {
                (Ok(p), Ok(f)) => p.is_record(f),
                (Err(e), Err(m)) => is_format(e, m),
                _ => false,
            },
    {
        assert(data@.skip(0) =~= data@);
        let (flags, offset) = match read_head(data, 0) {
            Ok(x) => x,
            Err(e) => {
                return Err(e);
            },
        };
        let total = data.len();
        let left = total - offset;
        let ghost t = data@.skip(offset as int);
        if left == 0 {
            return Err(RarError::format("truncated encryption record"));
        }
        let strength = data[offset];
        if strength > MAX_KDF_COUNT_LOG {
            return Err(
                RarError::Format(
                    with_number("encryption strength ", strength as u64, " exceeds maximum 24"),
                ),
            );
        }
        if left < 17 {
            return Err(RarError::format("truncated salt"));
        }
        let salt: [u8; 16] = array_at(data, offset + 1);
        if left < 33 {
            return Err(RarError::format("truncated IV"));
        }
        let iv: [u8; 16] = array_at(data, offset + 17);
        let checksum: Option<[u8; 12]> = if flags % 2 == 1 {
            if left < 45 {
                return Err(RarError::format("truncated encryption password check value"));
            }
            Some(array_at(data, offset + 33))
        } else {
            None
        };
        proof {
            assert(salt@ =~= t.subrange(1, 17));
            assert(iv@ =~= t.subrange(17, 33));
            if let Some(c) = checksum {
                assert(c@ =~= t.subrange(33, 45));
            }
        }
        let iterations = kdf_iterations(strength);
        Ok(EncryptionParams { version: 0, flags, strength, salt, iv, checksum, iterations })
    }

    /// Whether stored checksums are MACed with the hash key.
    pub fn uses_hash_mac(&self) -> (r: bool)
        ensures
            r == (self.flags & ENCR_FLAG_HASH_MAC != 0),
    {
        self.flags & ENCR_FLAG_HASH_MAC != 0
    }

    /// Whether a password is the right one. Without a stored check value
    /// every password is.
    pub fn verify_password(&self, password: &str) -> (r: bool)
        ensures
            r == (self.checksum is None || self.strength <= MAX_KDF_COUNT_LOG && self.accepts(
                password@,
                false,
            )),
    {
        match &self.checksum {
            None => true,
            Some(stored) => match self.derive_keys(password) {
                Ok(keys) => keys.check_password(stored),
                Err(_) => false,
            },
        }
    }

    /// Derive the keys and check the password in one pass: no keys for a
    /// password that the stored check value rejects.
    pub fn derive_and_verify(&self, password: &str) -> (r: RarResult<Option<DerivedKeys>>)
        ensures
            self.verified(password@, false, r),
    {
        self.derive_and_verify_with(password, false)
    }

    /// [`Self::derive_and_verify`] for service records, whose all-zero check
    /// value means that there is none.
    pub fn derive_and_verify_service(&self, password: &str) -> (r: RarResult<Option<DerivedKeys>>)
        ensures
            self.verified(password@, true, r),
    {
        self.derive_and_verify_with(password, true)
    }

    /// What deriving the keys of a password and checking it comes to.
    pub open spec fn verified(
        self,
        password: Seq<char>,
        service: bool,
        r: RarResult<Option<DerivedKeys>>,
    ) -> bool {
        if self.strength > MAX_KDF_COUNT_LOG {
            r is Err && is_format(r->Err_0, strength_refused(self.strength as nat))
        } else {
            match r {
                Ok(Some(keys)) => self.accepts(password, service) && keys.derived_from(
                    password,
                    self.salt@,
                    self.strength as nat,
                ),
                Ok(None) => !self.accepts(password, service),
                Err(_) => false,
            }
        }
    }

    fn derive_and_verify_with(&self, password: &str, service: bool) -> (r: RarResult<
        Option<DerivedKeys>,
    >)
        ensures
            self.verified(password@, service, r),
    {
        let keys = match self.derive_keys(password) {
            Ok(k) => k,
            Err(e) => {
                return Err(e);
            },
        };
        let verified = match &self.checksum {
            Some(stored) => if service {
                keys.check_password_service(stored)
            } else {
                keys.check_password(stored)
            },
            None => true,
        };
        if verified {
            Ok(Some(keys))
        } else {
            Ok(None)
        }
    }

    /// Derive the key material of a password.
    pub fn derive_keys(&self, password: &str) -> (r: RarResult<DerivedKeys>)
        ensures
            self.strength > MAX_KDF_COUNT_LOG ==> r is Err && is_format(
                r->Err_0,
                strength_refused(self.strength as nat),
            ),
            self.strength <= MAX_KDF_COUNT_LOG ==> r is Ok && r->Ok_0.derived_from(
                password@,
                self.salt@,
                self.strength as nat,
            ),
    {
        derive_keys(password, &self.salt, self.strength)
    }

    /// Derive the AES key of a password.
    pub fn get_key(&self, password: &str) -> (r: RarResult<[u8; 32]>)
        ensures
            self.strength > MAX_KDF_COUNT_LOG ==> r is Err && is_format(
                r->Err_0,
                strength_refused(self.strength as nat),
            ),
            self.strength <= MAX_KDF_COUNT_LOG ==> r is Ok && r->Ok_0@ == spec_key(
                password@,
                self.salt@,
                self.strength as nat,
            ),
    {
        match self.derive_keys(password) {
            Ok(keys) => Ok(keys.key),
            Err(e) => Err(e),
        }
    }

    /// Decrypt ciphertext with a password.
    pub fn decrypt(&self, ciphertext: &[u8], password: &str) -> (r: RarResult<Vec<u8>>)
        ensures
            self.strength > MAX_KDF_COUNT_LOG ==> r is Err && is_format(
                r->Err_0,
                strength_refused(self.strength as nat),
            ),
            self.strength <= MAX_KDF_COUNT_LOG && ciphertext@.len() % 16 != 0 ==> r is Err
                && is_format(
                r->Err_0,
                "ciphertext length "@ + decimal(ciphertext@.len()) + " is not a multiple of 16"@,
            ),
            self.strength <= MAX_KDF_COUNT_LOG && ciphertext@.len() % 16 == 0 ==> r is Ok
                && r->Ok_0@ == cbc_decrypted(
                spec_key(password@, self.salt@, self.strength as nat),
                self.iv@,
                ciphertext@,
            ) && r->Ok_0@.len() == ciphertext@.len(),
    {
        match self.get_key(password) {
            Ok(key) => decrypt_data(ciphertext, &key, &self.iv),
            Err(e) => Err(e),
        }
    }

    /// Encrypt plaintext with a password. [`Self::decrypt`] gives the padded
    /// plaintext back.
    pub fn encrypt(&self, plaintext: &[u8], password: &str) -> (r: RarResult<Vec<u8>>)
        requires
            plaintext@.len() <= usize::MAX - 15,
        ensures
            self.strength > MAX_KDF_COUNT_LOG ==> r is Err && is_format(
                r->Err_0,
                strength_refused(self.strength as nat),
            ),
            self.strength <= MAX_KDF_COUNT_LOG ==> {
                let key = spec_key(password@, self.salt@, self.strength as nat);
                &&& r is Ok
                &&& r->Ok_0@ == cbc_encrypted(key, self.iv@, zero_padded(plaintext@))
                &&& r->Ok_0@.len() == spec_zero_padded_len(plaintext@.len())
                &&& cbc_decrypted(key, self.iv@, r->Ok_0@) == zero_padded(plaintext@)
            },
    {
        match self.get_key(password) {
            Ok(key) => {
                let out = encrypt_data(plaintext, &key, &self.iv);
                Ok(out)
            },
            Err(e) => Err(e),
        }
    }

    /// MAC a CRC32 for a password.
    pub fn mac_crc32(&self, crc: u32, password: &str) -> (r: RarResult<u32>)
        ensures
            self.strength > MAX_KDF_COUNT_LOG ==> r is Err && is_format(
                r->Err_0,
                strength_refused(self.strength as nat),
            ),
            self.strength <= MAX_KDF_COUNT_LOG ==> r is Ok && r->Ok_0 == spec_mac_crc32(
                spec_hash_key(password@, self.salt@, self.strength as nat),
                crc,
            ),
    {
        match self.derive_keys(password) {
            Ok(keys) => Ok(keys.mac_crc32(crc)),
            Err(e) => Err(e),
        }
    }

    /// MAC a 32-byte hash for a password.
    pub fn mac_hash32(&self, hash: [u8; 32], password: &str) -> (r: RarResult<[u8; 32]>)
        ensures
            self.strength > MAX_KDF_COUNT_LOG ==> r is Err && is_format(
                r->Err_0,
                strength_refused(self.strength as nat),
            ),
            self.strength <= MAX_KDF_COUNT_LOG ==> r is Ok && r->Ok_0@ == hmac_sha256_of(
                spec_hash_key(password@, self.salt@, self.strength as nat),
                hash@,
            ),
    {
        match self.derive_keys(password) {
            Ok(keys) => Ok(keys.mac_hash32(hash)),
            Err(e) => Err(e),
        }
    }

    /// Random parameters for a password, with its check value.
    pub fn generate_for_password(password: &str, strength: u8) -> (r: EncryptionParams)
        requires
            strength <= MAX_KDF_COUNT_LOG,
        ensures
            made_for(r, password@, strength, 3),
    {
        Self::generate_with_keys(password, strength).0
    }

    /// [`Self::generate_for_password`], with the keys.
    pub fn generate_with_keys(password: &str, strength: u8) -> (r: (EncryptionParams, DerivedKeys))
        requires
            strength <= MAX_KDF_COUNT_LOG,
        ensures
            made_for(r.0, password@, strength, 3),
            r.1.derived_from(password@, r.0.salt@, strength as nat),
    {
        generate_params_and_keys(password, strength, 3)
    }

    /// The file encryption record: size, type and body.
    pub fn to_extra_bytes(&self) -> (r: Vec<u8>)
        ensures
            r@ == record_bytes(self.fields()),
    {
        let mut body = vint::encode(0);
        vint::push(&mut body, self.flags as u64);
        body.push(self.strength);
        body.extend_from_slice(self.salt.as_slice());
        body.extend_from_slice(self.iv.as_slice());
        if let Some(stored) = &self.checksum {
            body.extend_from_slice(stored.as_slice());
        }
        let kind = vint::encode(EXTRA_FILE_ENCRYPTION);
        proof {
            assert(body@ =~= record_body(self.fields()));
            lemma_vint_roundtrip(self.flags as u64, Seq::empty());
            lemma_vint_roundtrip(0, Seq::empty());
            lemma_vint_roundtrip(EXTRA_FILE_ENCRYPTION, Seq::empty());
        }
        let mut out = vint::encode((kind.len() + body.len()) as u64);
        out.extend_from_slice(kind.as_slice());
        out.extend_from_slice(body.as_slice());
        assert(out@ =~= record_bytes(self.fields()));
        out
    }

    /// The archive encryption header block, written once before the headers
    /// that it encrypts.
    pub fn to_archive_header_block(&self) -> (r: Vec<u8>)
        ensures
            r@ == framed(archive_record_body(self.fields())),
    {
        let mut body = vint::encode(BLOCK_TYPE_ENCRYPT_HEADER);
        vint::push(&mut body, 0);
        vint::push(&mut body, 0);
        vint::push(&mut body, (self.flags % 2) as u64);
        body.push(self.strength);
        body.extend_from_slice(self.salt.as_slice());
        if let Some(stored) = &self.checksum {
            body.extend_from_slice(stored.as_slice());
        }
        assert(body@ =~= archive_record_body(self.fields()));
        frame_block(body.as_slice())
    }
}

/// `p` is made for a password: its check value is the password's.
pub open spec fn made_for(
    p: EncryptionParams,
    password: Seq<char>,
    strength: u8,
    flags: u8,
) -> bool {
    &&& p.is_record(
        EncrFields {
            flags: flags as nat,
            strength: strength as nat,
            salt: p.salt@,
            iv: p.iv@,
            check: Some(stored_check(spec_check(password, p.salt@, strength as nat))),
        },
    )
    &&& p.accepts(password, false)
}

/// The parameters and keys of a password under a given salt and vector.
pub fn params_and_keys_from(
    password: &str,
    strength: u8,
    flags: u8,
    salt: [u8; 16],
    iv: [u8; 16],
) -> (r: (EncryptionParams, DerivedKeys))
    requires
        strength <= MAX_KDF_COUNT_LOG,
    ensures
        made_for(r.0, password@, strength, flags),
        r.0.salt == salt,
        r.0.iv == iv,
        r.1.derived_from(password@, salt@, strength as nat),
{
    let keys = match derive_keys(password, &salt, strength) {
        Ok(k) => k,
        Err(_) => {
            assert(false);
            DerivedKeys { key: [0u8; 32], hash_key: [0u8; 32], password_check: [0u8; 8] }
        },
    };
    let digest = sha256(keys.password_check.as_slice());
    let mut checksum: [u8; 12] = [0u8; 12];
    let mut i: usize = 0;
    while i < 12
        invariant
            i <= 12,
            forall|j: int|
                0 <= j < i ==> checksum@[j] == if j < 8 {
                    keys.password_check@[j]
                } else {
                    digest@[j - 8]
                },
        decreases 12 - i,
    {
        checksum[i] = if i < 8 {
            keys.password_check[i]
        } else {
            digest[i - 8]
        };
        i += 1;
    }
    proof {
        assert(checksum@ =~= stored_check(keys.password_check@));
        assert(checksum@.take(8) =~= keys.password_check@);
        assert(checksum@.skip(8) =~= digest@.take(4));
    }
    let iterations = kdf_iterations(strength);
    let params = EncryptionParams {
        version: 0,
        flags,
        strength,
        salt,
        iv,
        checksum: Some(checksum),
        iterations,
    };
    (params, keys)
}

/// Fresh random parameters, and the keys of the same derivation.
fn generate_params_and_keys(password: &str, strength: u8, flags: u8) -> (r: (
    EncryptionParams,
    DerivedKeys,
))
    requires
        strength <= MAX_KDF_COUNT_LOG,
    ensures
        made_for(r.0, password@, strength, flags),
        r.1.derived_from(password@, r.0.salt@, strength as nat),
{
    let mut salt: [u8; 16] = [0u8; 16];
    let mut iv: [u8; 16] = [0u8; 16];
    random_fill(&mut salt);
    random_fill(&mut iv);
    params_and_keys_from(password, strength, flags, salt, iv)
}

/// The encryption of one member: its record, and the keys derived once for
/// its salt.
pub struct MemberEncryption {
    params: EncryptionParams,
    keys: DerivedKeys,
}

impl MemberEncryption {
    /// The parameters.
    pub closed spec fn params(self) -> EncryptionParams {
        self.params
    }

    /// The session's keys are those of a password under its parameters.
    pub closed spec fn session_of(self, password: Seq<char>) -> bool {
        self.keys.derived_from(password, self.params.salt@, self.params.strength as nat)
    }

    /// Random parameters for a password, with the flags of a member record.
    pub fn generate(password: &str, strength: u8) -> (r: MemberEncryption)
        requires
            strength <= MAX_KDF_COUNT_LOG,
        ensures
            made_for(r.params(), password@, strength, 3),
            r.session_of(password@),
    {
        Self::generate_with_flags(password, strength, ENCR_FLAG_CHECKSUM + ENCR_FLAG_HASH_MAC)
    }

    /// [`Self::generate`] with explicit flags: service records carry the
    /// password check only.
    pub fn generate_with_flags(password: &str, strength: u8, flags: u8) -> (r: MemberEncryption)
        requires
            strength <= MAX_KDF_COUNT_LOG,
        ensures
            made_for(r.params(), password@, strength, flags),
            r.session_of(password@),
    {
        let (params, keys) = generate_params_and_keys(password, strength, flags);
        MemberEncryption { params, keys }
    }

    /// The member's encryption record.
    pub fn extra_bytes(&self) -> (r: Vec<u8>)
        ensures
            r@ == record_bytes(self.params().fields()),
    {
        self.params.to_extra_bytes()
    }

    /// MAC a CRC32 value for the stored header checksum.
    pub fn mac_crc32(&self, crc: u32) -> (r: u32)
        ensures
            forall|password: Seq<char>| #[trigger]
                self.session_of(password) ==> r == spec_mac_crc32(
                    spec_hash_key(password, self.params().salt@, self.params().strength as nat),
                    crc,
                ),
    {
        self.keys.mac_crc32(crc)
    }

    /// MAC a 32-byte hash for the stored hash record.
    pub fn mac_hash32(&self, hash: [u8; 32]) -> (r: [u8; 32])
        ensures
            forall|password: Seq<char>| #[trigger]
                self.session_of(password) ==> r@ == hmac_sha256_of(
                    spec_hash_key(password, self.params().salt@, self.params().strength as nat),
                    hash@,
                ),
    {
        self.keys.mac_hash32(hash)
    }

    /// AES key and vector of the payload cipher.
    pub fn key_iv(&self) -> (r: (&[u8; 32], &[u8; 16]))
        ensures
            forall|password: Seq<char>| #[trigger]
                self.session_of(password) ==> r.0@ == spec_key(
                    password,
                    self.params().salt@,
                    self.params().strength as nat,
                ),
            *r.1 == self.params().iv,
    {
        (&self.keys.key, &self.params.iv)
    }

    /// Encrypt a member payload.
    pub fn encrypt(&self, plaintext: &[u8]) -> (r: Vec<u8>)
        requires
            plaintext@.len() <= usize::MAX - 15,
        ensures
            r@.len() == spec_zero_padded_len(plaintext@.len()),
            forall|password: Seq<char>| #[trigger]
                self.session_of(password) ==> {
                    let key = spec_key(
                        password,
                        self.params().salt@,
                        self.params().strength as nat,
                    );
                    &&& r@ == cbc_encrypted(key, self.params().iv@, zero_padded(plaintext@))
                    &&& cbc_decrypted(key, self.params().iv@, r@) == zero_padded(plaintext@)
                },
    {
        encrypt_data(plaintext, &self.keys.key, &self.params.iv)
    }
}

/// Parse the header data of an archive encryption block.
pub fn parse_archive_encrypt_header(raw: &RawBlock) -> (r: RarResult<EncryptionParams>)
    ensures
        match (r, archive_record_of(raw.header_data@)) {
            (Ok(p), Ok(f)) => p.is_record(f),
            (Err(e), Err(m)) => is_format(e, m),
            _ => false,
        },
{
    let data = raw.header_data.as_slice();
    let total = data.len();
    assert(data@.skip(0) =~= data@);
    let (_, a) = match vint::decode_from_slice(data, 0) {
        Ok(x) => x,
        Err(e) => {
            return Err(vint_error("block type: ", e));
        },
    };
    let (_, b) = match vint::decode_from_slice(data, a) {
        Ok(x) => x,
        Err(e) => {
            return Err(vint_error("block flags: ", e));
        },
    };
    assert(data@.skip(a as int).skip(b as int) =~= data@.skip(a + b));
    let (flags, offset) = match read_head(data, a + b) {
        Ok(x) => x,
        Err(e) => {
            return Err(e);
        },
    };
    let left = total - offset;
    let ghost t = data@.skip(offset as int);
    proof {
        let n = offset - (a + b);
        assert(data@.skip(a + b).skip(n) =~= t);
    }
    if left == 0 {
        return Err(RarError::format("truncated encryption header"));
    }
    let strength = data[offset];
    if strength > MAX_KDF_COUNT_LOG {
        return Err(
            RarError::Format(
                with_number("encryption strength ", strength as u64, " exceeds maximum 24"),
            ),
        );
    }
    if left < 17 {
        return Err(RarError::format("truncated encryption header salt"));
    }
    let salt: [u8; 16] = array_at(data, offset + 1);
    let checksum: Option<[u8; 12]> = if flags % 2 == 1 {
        if left < 29 {
            return Err(RarError::format("truncated encryption header password check value"));
        }
        Some(array_at(data, offset + 17))
    } else {
        None
    };
    let iv: [u8; 16] = [0u8; 16];
    proof {
        assert(salt@ =~= t.subrange(1, 17));
        assert(iv@ =~= zero_iv());
        if let Some(c) = checksum {
            assert(c@ =~= t.subrange(17, 29));
        }
    }
    let iterations = kdf_iterations(strength);
    Ok(EncryptionParams { version: 0, flags, strength, salt, iv, checksum, iterations })
}

/// What the header key of an archive encryption block comes to.
pub open spec fn header_key(
    data: Seq<u8>,
    password: Option<Seq<char>>,
    r: RarResult<[u8; 32]>,
) -> bool {
    match password {
        None => r is Err && is_encrypted(
            r->Err_0,
            "archive has encrypted headers; provide a password"@,
        ),
        Some(pw) => match archive_record_of(data) {
            Err(m) => r is Err && is_format(r->Err_0, m),
            Ok(f) => {
                let right = f.check matches Some(stored) ==> check_accepts(
                    spec_check(pw, f.salt, f.strength),
                    stored,
                );
                if right {
                    r is Ok && r->Ok_0@ == spec_key(pw, f.salt, f.strength)
                } else {
                    r matches Err(RarError::WrongPassword)
                }
            },
        },
    }
}

/// Parse an archive encryption block, check the password, and derive the key
/// of the headers.
pub fn derive_header_key(raw: &RawBlock, password: Option<&str>) -> (r: RarResult<[u8; 32]>)
    ensures
        header_key(
            raw.header_data@,
            match password {
                Some(p) => Some(p@),
                None => None,
            },
            r,
        ),
{
    let password = match password {
        Some(p) => p,
        None => {
            return Err(RarError::encrypted("archive has encrypted headers; provide a password"));
        },
    };
    let params = match parse_archive_encrypt_header(raw) {
        Ok(p) => p,
        Err(e) => {
            return Err(e);
        },
    };
    assert(params.fields().strength <= MAX_KDF_COUNT_LOG);
    match params.derive_and_verify(password) {
        Ok(Some(keys)) => Ok(keys.key),
        Ok(None) => Err(RarError::WrongPassword),
        Err(e) => Err(e),
    }
}

/// Find the encryption record of a file header's extra area.
pub fn parse_encryption_extra(extra_data: &[u8]) -> (r: RarResult<Option<EncryptionParams>>)
    ensures
        match (r, extra_record_of(extra_data@)) {
            (Ok(Some(p)), Ok(Some(f))) => p.is_record(f),
            (Ok(None), Ok(None)) => true,
            (Err(e), Err(m)) => is_format(e, m),
            _ => false,
        },
{
    let mut offset: usize = 0;
    let total = extra_data.len();
    assert(extra_data@.skip(0) =~= extra_data@);
    while offset < total
        invariant
            total == extra_data@.len(),
            offset <= total,
            extra_record_of(extra_data@) == extra_record_of(extra_data@.skip(offset as int)),
        decreases total - offset,
    {
        let ghost s = extra_data@.skip(offset as int);
        let (size, n) = match vint::decode_from_slice(extra_data, offset) {
            Ok(x) => x,
            Err(e) => {
                return Err(vint_error("extra record size: ", e));
            },
        };
        let start = offset + n;
        let ghost t = extra_data@.skip(start as int);
        assert(s.skip(n as int) =~= t);
        if size > (total - start) as u64 {
            return Ok(None);
        }
        let end = start + size as usize;
        let (kind, m) = match vint::decode_from_slice(extra_data, start) {
            Ok(x) => x,
            Err(e) => {
                return Err(vint_error("extra record type: ", e));
            },
        };
        if kind == EXTRA_FILE_ENCRYPTION {
            if m as u64 > size {
                return Err(RarError::format("encryption record is malformed"));
            }
            let body = slice_subrange(extra_data, start + m, end);
            assert(body@ =~= t.subrange(m as int, size as int));
            return match EncryptionParams::from_extra_bytes(body) {
                Ok(p) => Ok(Some(p)),
                Err(e) => Err(e),
            };
        }
        assert(t.skip(size as int) =~= extra_data@.skip(end as int));
        offset = end;
    }
    Ok(None)
}

} // verus!
