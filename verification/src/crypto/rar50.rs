//! RAR5 encryption: the chained HMAC-SHA256 key derivation, the hash-key MAC
//! that protects encrypted members' checksums, and the encryption records.
//!
//! One HMAC chain makes the AES key (at 2^strength iterations), the hash key
//! (16 iterations later) and the password check value (another 16 iterations
//! later, folded to 8 bytes). Data is AES-256-CBC with zero-fill padding.

use crate::bytes::{le_bytes, le_value, push_le, read_u32};
use crate::crypto::cbc::xor_bytes;
pub use crate::crypto::cbc::{decrypt_data, encrypt_data, zero_padded_len, Aes256CbcStream};
pub use crate::crypto::params::{
    derive_header_key, parse_archive_encrypt_header, parse_encryption_extra, EncryptionParams,
    MemberEncryption,
};
use crate::crypto::primitives::{hmac_sha256, hmac_sha256_of, sha256, sha256_of, wipe};
use crate::crypto::{clamp_password, clamped, constant_time_eq};
use crate::error::{is_format, RarError, RarResult};
use crate::text::{decimal, with_number};
use vstd::arithmetic::power2::{lemma2_to64, lemma_pow2_pos, lemma_pow2_strictly_increases, pow2};
use vstd::prelude::*;
use vstd::slice::slice_subrange;
use vstd::string::*;
use vstd::utf8::encode_utf8;

verus! {

/// Largest accepted KDF strength exponent (2^24 iterations).
pub const MAX_KDF_COUNT_LOG: u8 = 24;

/// The `n`-th value of the HMAC chain, from one.
pub open spec fn kdf_link(password: Seq<u8>, salt: Seq<u8>, n: nat) -> Seq<u8>
    decreases n,
{
    if n <= 1 {
        hmac_sha256_of(password, salt + seq![0u8, 0u8, 0u8, 1u8])
    } else {
        hmac_sha256_of(password, kdf_link(password, salt, (n - 1) as nat))
    }
}

/// The exclusive or of the first `n` values of the HMAC chain.
pub open spec fn kdf_sum(password: Seq<u8>, salt: Seq<u8>, n: nat) -> Seq<u8>
    decreases n,
{
    if n <= 1 {
        kdf_link(password, salt, 1)
    } else {
        xor_bytes(kdf_sum(password, salt, (n - 1) as nat), kdf_link(password, salt, n))
    }
}

/// The bytes of a password that the key derivation sees.
pub open spec fn password_bytes(password: Seq<char>) -> Seq<u8> {
    clamped(encode_utf8(password))
}

/// Four times eight bytes, folded to eight.
pub open spec fn folded_check(s: Seq<u8>) -> Seq<u8> {
    Seq::new(8, |i: int| s[i] ^ s[i + 8] ^ s[i + 16] ^ s[i + 24])
}

/// The AES key of a password.
pub open spec fn spec_key(password: Seq<char>, salt: Seq<u8>, strength: nat) -> Seq<u8> {
    kdf_sum(password_bytes(password), salt, pow2(strength))
}

/// The hash key of a password.
pub open spec fn spec_hash_key(password: Seq<char>, salt: Seq<u8>, strength: nat) -> Seq<u8> {
    kdf_sum(password_bytes(password), salt, pow2(strength) + 16)
}

/// The password check value of a password.
pub open spec fn spec_check(password: Seq<char>, salt: Seq<u8>, strength: nat) -> Seq<u8> {
    folded_check(kdf_sum(password_bytes(password), salt, pow2(strength) + 32))
}

/// The exclusive or of the first `n` little-endian words of `s`.
pub open spec fn folded_words(s: Seq<u8>, n: nat) -> u32
    decreases n,
{
    if n == 0 {
        0
    } else {
        folded_words(s, (n - 1) as nat) ^ (le_value(s.subrange(4 * (n - 1), 4 * n as int)) as u32)
    }
}

/// A CRC32 value under a hash key.
pub open spec fn spec_mac_crc32(hash_key: Seq<u8>, crc: u32) -> u32 {
    folded_words(hmac_sha256_of(hash_key, le_bytes(crc as nat, 4)), 8)
}

/// A check value as stored: the value, and the start of its SHA-256.
pub open spec fn stored_check(check: Seq<u8>) -> Seq<u8> {
    check + sha256_of(check).take(4)
}

/// Whether a stored check value is sound and is `check`'s.
pub open spec fn check_accepts(check: Seq<u8>, stored: Seq<u8>) -> bool {
    check == stored.take(8) && sha256_of(stored.take(8)).take(4) == stored.skip(8)
}

/// Keys derived from a password.
#[derive(Clone)]
pub struct DerivedKeys {
    /// AES-256 data and header key.
    pub key: [u8; 32],
    /// Key that MACs stored checksums of encrypted data.
    pub hash_key: [u8; 32],
    /// Folded password check value.
    pub password_check: [u8; 8],
}

impl DerivedKeys {
    /// The keys are the password's, under the salt and strength.
    pub open spec fn derived_from(
        self,
        password: Seq<char>,
        salt: Seq<u8>,
        strength: nat,
    ) -> bool {
        &&& self.key@ == spec_key(password, salt, strength)
        &&& self.hash_key@ == spec_hash_key(password, salt, strength)
        &&& self.password_check@ == spec_check(password, salt, strength)
    }

    /// MAC a CRC32 value with the hash key.
    pub fn mac_crc32(&self, crc: u32) -> (r: u32)
        ensures
            r == spec_mac_crc32(self.hash_key@, crc),
    {
        let mut bytes: Vec<u8> = Vec::new();
        push_le(&mut bytes, crc as u64, 4);
        assert(bytes@ =~= le_bytes(crc as nat, 4));
        let digest = hmac_sha256(self.hash_key.as_slice(), bytes.as_slice());
        let mut acc: u32 = 0;
        let mut i: usize = 0;
        while i < 8
            invariant
                i <= 8,
                acc == folded_words(digest@, i as nat),
            decreases 8 - i,
        {
            acc = acc ^ read_u32(digest.as_slice(), 4 * i);
            i += 1;
        }
        acc
    }

    /// MAC a 32-byte hash with the hash key.
    pub fn mac_hash32(&self, hash: [u8; 32]) -> (r: [u8; 32])
        ensures
            r@ == hmac_sha256_of(self.hash_key@, hash@),
    {
        hmac_sha256(self.hash_key.as_slice(), hash.as_slice())
    }

    /// Whether the keys' password is that of a stored check value.
    pub fn check_password(&self, stored: &[u8; 12]) -> (r: bool)
        ensures
            r == check_accepts(self.password_check@, stored@),
    {
        let value = slice_subrange(stored.as_slice(), 0, 8);
        let digest = sha256(value);
        let sum = slice_subrange(digest.as_slice(), 0, 4);
        let tail = slice_subrange(stored.as_slice(), 8, 12);
        assert(stored@.skip(8) =~= stored@.subrange(8, 12));
        constant_time_eq(self.password_check.as_slice(), value) && constant_time_eq(sum, tail)
    }

    /// Whether the keys' password is that of a service record's stored check
    /// value: one that is all zero means that there is none, and accepts
    /// every password.
    pub fn check_password_service(&self, stored: &[u8; 12]) -> (r: bool)
        ensures
            r == (is_absent_check(stored@) || check_accepts(self.password_check@, stored@)),
    {
        let mut i: usize = 0;
        while i < 8
            invariant
                i <= 8,
                forall|j: int| 0 <= j < i ==> stored@[j] == 0,
            decreases 8 - i,
        {
            if stored[i] != 0 {
                return self.check_password(stored);
            }
            i += 1;
        }
        true
    }
}

/// A stored check value that old service records use for none.
pub open spec fn is_absent_check(stored: Seq<u8>) -> bool {
    forall|j: int| 0 <= j < 8 ==> stored[j] == 0
}

fn xor_into(acc: &mut [u8; 32], u: &[u8; 32])
    ensures
        final(acc)@ == xor_bytes(old(acc)@, u@),
{
    let ghost before = acc@;
    let mut i: usize = 0;
    while i < 32
        invariant
            i <= 32,
            before.len() == 32,
            forall|j: int| 0 <= j < i ==> acc@[j] == before[j] ^ u@[j],
            forall|j: int| i <= j < 32 ==> acc@[j] == before[j],
        decreases 32 - i,
    {
        acc[i] = acc[i] ^ u[i];
        i += 1;
    }
    assert(acc@ =~= xor_bytes(before, u@));
}

/// Run the chain `count` links further.
fn advance_chain(
    password: &[u8],
    u: &mut [u8; 32],
    acc: &mut [u8; 32],
    count: u32,
    Ghost(salt): Ghost<Seq<u8>>,
    Ghost(done): Ghost<nat>,
)
    requires
        done >= 1,
        old(u)@ == kdf_link(password@, salt, done),
        old(acc)@ == kdf_sum(password@, salt, done),
    ensures
        final(u)@ == kdf_link(password@, salt, (done + count) as nat),
        final(acc)@ == kdf_sum(password@, salt, (done + count) as nat),
{
    let mut i: u32 = 0;
    while i < count
        invariant
            i <= count,
            done >= 1,
            u@ == kdf_link(password@, salt, (done + i) as nat),
            acc@ == kdf_sum(password@, salt, (done + i) as nat),
        decreases count - i,
    {
        let next = hmac_sha256(password, u.as_slice());
        *u = next;
        xor_into(acc, &next);
        i += 1;
    }
}

/// Two to the power `strength`.
pub(crate) fn kdf_iterations(strength: u8) -> (r: u32)
    requires
        strength <= MAX_KDF_COUNT_LOG,
    ensures
        r as nat == pow2(strength as nat),
        1 <= r <= 0x100_0000,
{
    proof {
        lemma2_to64();
        lemma_pow2_pos(strength as nat);
        if strength < 24 {
            lemma_pow2_strictly_increases(strength as nat, 24);
        }
    }
    let mut r: u32 = 1;
    let mut i: u8 = 0;
    while i < strength
        invariant
            i <= strength <= 24,
            r as nat == pow2(i as nat),
            r <= 0x100_0000,
            pow2(24) == 0x100_0000,
        decreases strength - i,
    {
        proof {
            vstd::arithmetic::power2::lemma_pow2_unfold((i + 1) as nat);
            lemma_pow2_strictly_increases(i as nat, 24);
            if i + 1 < 24 {
                lemma_pow2_strictly_increases((i + 1) as nat, 24);
            }
        }
        r = r * 2;
        i += 1;
    }
    r
}

fn first_input(salt: &[u8]) -> (r: Vec<u8>)
    ensures
        r@ == salt@ + seq![0u8, 0u8, 0u8, 1u8],
{
    let mut r: Vec<u8> = Vec::new();
    r.extend_from_slice(salt);
    r.push(0);
    r.push(0);
    r.push(0);
    r.push(1);
    assert(r@ =~= salt@ + seq![0u8, 0u8, 0u8, 1u8]);
    r
}

/// What a strength above the limit is refused with.
pub open spec fn strength_refused(strength: nat) -> Seq<char> {
    "KDF strength "@ + decimal(strength) + " exceeds maximum 24"@
}

/// Derive key material from a password: one HMAC chain of `2^strength + 32`
/// links, whose running sums after `2^strength`, `2^strength + 16` and
/// `2^strength + 32` links are the key, the hash key and, folded, the check
/// value. Only the first 127 characters of the password count.
pub fn derive_keys(password: &str, salt: &[u8; 16], strength: u8) -> (r: RarResult<DerivedKeys>)
    ensures
        strength > MAX_KDF_COUNT_LOG ==> r is Err && is_format(
            r->Err_0,
            strength_refused(strength as nat),
        ),
        strength <= MAX_KDF_COUNT_LOG ==> r is Ok && r->Ok_0.derived_from(
            password@,
            salt@,
            strength as nat,
        ),
        strength <= MAX_KDF_COUNT_LOG ==> {
            let p = clamped(encode_utf8(password@));
            let n = pow2(strength as nat);
            let last = kdf_sum(p, salt@, n + 32);
            &&& r->Ok_0.key@ == kdf_sum(p, salt@, n)
            &&& r->Ok_0.hash_key@ == kdf_sum(p, salt@, n + 16)
            &&& forall|i: int|
                0 <= i < 8 ==> #[trigger] r->Ok_0.password_check@[i] == last[i] ^ last[i + 8]
                    ^ last[i + 16] ^ last[i + 24]
        },
{
    if strength > MAX_KDF_COUNT_LOG {
        return Err(
            RarError::Format(with_number("KDF strength ", strength as u64, " exceeds maximum 24")),
        );
    }
    let password = clamp_password(password.as_bytes());
    let first = first_input(salt.as_slice());
    let mut u = hmac_sha256(password, first.as_slice());
    let mut accumulator = u;
    let iterations = kdf_iterations(strength);
    let ghost n = iterations as nat;
    advance_chain(password, &mut u, &mut accumulator, iterations - 1, Ghost(salt@), Ghost(1));
    let key = accumulator;
    advance_chain(password, &mut u, &mut accumulator, 16, Ghost(salt@), Ghost(n));
    let hash_key = accumulator;
    advance_chain(password, &mut u, &mut accumulator, 16, Ghost(salt@), Ghost(n + 16));
    let mut password_check: [u8; 8] = [0u8; 8];
    let mut i: usize = 0;
    while i < 8
        invariant
            i <= 8,
            forall|j: int|
                0 <= j < i ==> password_check@[j] == accumulator@[j] ^ accumulator@[j + 8]
                    ^ accumulator@[j + 16] ^ accumulator@[j + 24],
        decreases 8 - i,
    {
        password_check[i] = accumulator[i] ^ accumulator[i + 8] ^ accumulator[i + 16]
            ^ accumulator[i + 24];
        i += 1;
    }
    assert(password_check@ =~= folded_check(accumulator@));
    wipe(&mut u);
    wipe(&mut accumulator);
    Ok(DerivedKeys { key, hash_key, password_check })
}

/// Derive a single 32-byte key from a whole password, with PBKDF2-HMAC-SHA256
/// of one block.
pub fn derive_key(password: &str, salt: &[u8], iterations: u32) -> (r: [u8; 32])
    ensures
        r@ == kdf_sum(encode_utf8(password@), salt@, iterations as nat),
{
    let first = first_input(salt);
    let bytes = password.as_bytes();
    let mut u = hmac_sha256(bytes, first.as_slice());
    let mut acc = u;
    if iterations > 1 {
        advance_chain(bytes, &mut u, &mut acc, iterations - 1, Ghost(salt@), Ghost(1));
    }
    let key = acc;
    wipe(&mut u);
    wipe(&mut acc);
    key
}

/// For a password of at most 127 bytes the AES key is the one-block PBKDF2 of
/// `2^strength` iterations.
pub proof fn lemma_key_is_pbkdf2(password: Seq<char>, salt: Seq<u8>, strength: nat)
    requires
        encode_utf8(password).len() <= 127,
    ensures
        spec_key(password, salt, strength) == kdf_sum(encode_utf8(password), salt, pow2(strength)),
{
    crate::crypto::lemma_short_password_is_whole(encode_utf8(password));
}

/// Passwords that agree in what counts of them derive the same keys.
pub proof fn lemma_clamped_password_same_keys(
    a: Seq<char>,
    b: Seq<char>,
    salt: Seq<u8>,
    strength: nat,
)
    requires
        encode_utf8(b) == clamped(encode_utf8(a)),
    ensures
        spec_key(a, salt, strength) == spec_key(b, salt, strength),
        spec_hash_key(a, salt, strength) == spec_hash_key(b, salt, strength),
        spec_check(a, salt, strength) == spec_check(b, salt, strength),
{
    crate::crypto::lemma_clamp_idempotent(encode_utf8(a));
}

} // verus!
