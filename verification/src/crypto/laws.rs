//! What keys, check values, ciphers and records are, in terms of the hash and
//! the block cipher alone.

use crate::bytes::{le_bytes, le_value};
use crate::crypto::cbc::{
    cbc_decrypted, cbc_encrypted, spec_zero_padded_len, xor_bytes, zero_padded,
};
use crate::crypto::params::{
    archive_record_body, encr_head, extra_record_of, header_key, lemma_archive_record_roundtrip,
    made_for, record_body, record_bytes, record_of, EncrFields, EncryptionParams,
};
use crate::crypto::primitives::{
    aes128_decrypted, aes128_encrypted, aes256_decrypted, aes256_encrypted, hmac_sha256_of,
    sha256_of,
};
use crate::crypto::rar13::{
    key_after, password_key, rar13_decrypted, rar13_encrypted,
};
use crate::crypto::rar50::{
    check_accepts, folded_words, is_absent_check, kdf_link, kdf_sum, password_bytes,
    spec_mac_crc32, DerivedKeys,
};
use crate::error::{RarError, RarResult};
use crate::crypto::{clamp_len, is_continuation};
use crate::rar5::vint::vint_bytes;
use vstd::arithmetic::power2::{lemma_pow2_pos, pow2};
use vstd::prelude::*;
use vstd::utf8::{encode_scalar, encode_utf8};

verus! {

// ── Key derivation ─────────────────────────────────────────────────────────

/// Links of the HMAC chain of a password and a salt: the first is that of the
/// salt and the block number one, each that follows that of the one before.
pub open spec fn are_links(password: Seq<u8>, salt: Seq<u8>, links: Seq<Seq<u8>>) -> bool {
    &&& links.len() > 0
    &&& links[0] == hmac_sha256_of(password, salt + seq![0u8, 0u8, 0u8, 1u8])
    &&& forall|i: int|
        1 <= i < links.len() ==> #[trigger] links[i] == hmac_sha256_of(password, links[i - 1])
}

/// Running sums of links: each byte of a sum is the exclusive or of those of
/// the links so far.
pub open spec fn are_sums(links: Seq<Seq<u8>>, sums: Seq<Seq<u8>>) -> bool {
    &&& sums.len() == links.len()
    &&& sums.len() > 0
    &&& sums[0] == links[0]
    &&& forall|i: int|
        1 <= i < sums.len() ==> (#[trigger] sums[i]).len() == sums[i - 1].len() && forall|j: int|
            0 <= j < sums[i].len() ==> #[trigger] sums[i][j] == sums[i - 1][j] ^ links[i][j]
}

proof fn lemma_chain(
    password: Seq<u8>,
    salt: Seq<u8>,
    links: Seq<Seq<u8>>,
    sums: Seq<Seq<u8>>,
    i: int,
)
    requires
        are_links(password, salt, links),
        are_sums(links, sums),
        0 <= i < links.len(),
    ensures
        kdf_link(password, salt, (i + 1) as nat) == links[i],
        kdf_sum(password, salt, (i + 1) as nat) == sums[i],
    decreases i,
{
    if i > 0 {
        lemma_chain(password, salt, links, sums, i - 1);
        assert(links[i] == hmac_sha256_of(password, links[i - 1]));
        assert(kdf_sum(password, salt, (i + 1) as nat) =~= sums[i]);
    }
}

/// The keys of a password are the running sums of its HMAC chain: after
/// `2^strength` links the AES key, after sixteen more the hash key, and after
/// another sixteen the check value, folded to eight bytes. Only the first 127
/// characters of the password count.
pub proof fn lemma_keys_are_chain_sums(
    keys: DerivedKeys,
    password: Seq<char>,
    salt: Seq<u8>,
    strength: nat,
    links: Seq<Seq<u8>>,
    sums: Seq<Seq<u8>>,
)
    requires
        keys.derived_from(password, salt, strength),
        are_links(
            encode_utf8(
                if password.len() <= 127 {
                    password
                } else {
                    password.take(127)
                },
            ),
            salt,
            links,
        ),
        are_sums(links, sums),
        links.len() >= pow2(strength) + 32,
    ensures
        keys.key@ == sums[pow2(strength) - 1],
        keys.hash_key@ == sums[pow2(strength) as int + 15],
        forall|i: int|
            0 <= i < 8 ==> #[trigger] keys.password_check@[i] == ({
                let s = sums[pow2(strength) as int + 31];
                s[i] ^ s[i + 8] ^ s[i + 16] ^ s[i + 24]
            }),
{
    lemma_pow2_pos(strength);
    lemma_password_law(password);
    let p = password_bytes(password);
    lemma_chain(p, salt, links, sums, pow2(strength) - 1);
    lemma_chain(p, salt, links, sums, pow2(strength) as int + 15);
    lemma_chain(p, salt, links, sums, pow2(strength) as int + 31);
}

/// A key of one block is the running sum of the whole password's chain.
pub proof fn lemma_one_block_key(
    password: Seq<u8>,
    salt: Seq<u8>,
    iterations: nat,
    links: Seq<Seq<u8>>,
    sums: Seq<Seq<u8>>,
)
    requires
        are_links(password, salt, links),
        are_sums(links, sums),
        0 < iterations <= links.len(),
    ensures
        kdf_sum(password, salt, iterations) == sums[iterations - 1],
{
    lemma_chain(password, salt, links, sums, iterations - 1);
}

proof fn lemma_scalar_bytes(c: char)
    ensures
        ({
            let s = encode_scalar(c as u32);
            &&& s.len() > 0
            &&& !is_continuation(s[0])
            &&& forall|i: int| 1 <= i < s.len() ==> is_continuation(#[trigger] s[i])
        }),
{
    let chars = seq![c];
    assert(chars.drop_first() =~= Seq::<char>::empty());
    assert(encode_utf8(chars.drop_first()) =~= Seq::<u8>::empty());
    assert(encode_utf8(chars) =~= encode_scalar(c as u32));
    vstd::utf8::encode_utf8_first_scalar(chars);
    let s = encode_scalar(c as u32);
    let v = c as u32;
    vstd::utf8::char_is_scalar(c);
    assert(v < 0x80 ==> ((v & 0x7F) as u8) < 0x80) by (bit_vector);
    assert(((v & 0x3F) as u8 | 0x80u8) >= 0x80 && ((v & 0x3F) as u8 | 0x80u8) < 0xC0)
        by (bit_vector);
    assert forall|i: int| 0 <= i < s.len() implies (i == 0) == !is_continuation(
        #[trigger] s[i],
    ) by {
        vstd::utf8::utf8_byte_ranges_bitwise(s[i]);
    }
}

proof fn lemma_clamp_through(s: Seq<u8>, rest: Seq<u8>, k: int, chars: nat)
    requires
        0 <= k <= s.len(),
        forall|i: int| k <= i < s.len() ==> is_continuation(#[trigger] s[i]),
    ensures
        clamp_len(s.skip(k) + rest, chars) == s.len() - k + clamp_len(rest, chars),
    decreases s.len() - k,
{
    if k < s.len() {
        let t = s.skip(k) + rest;
        assert(t[0] == s[k]);
        assert(t.drop_first() =~= s.skip(k + 1) + rest);
        lemma_clamp_through(s, rest, k + 1, chars);
    } else {
        assert(s.skip(k) + rest =~= rest);
    }
}

proof fn lemma_clamp_chars(password: Seq<char>, chars: nat)
    ensures
        clamp_len(encode_utf8(password), chars) == encode_utf8(
            if password.len() <= chars {
                password
            } else {
                password.take(chars as int)
            },
        ).len(),
        encode_utf8(password).take(clamp_len(encode_utf8(password), chars) as int)
            == encode_utf8(
            if password.len() <= chars {
                password
            } else {
                password.take(chars as int)
            },
        ),
    decreases password.len(),
{
    let bytes = encode_utf8(password);
    let kept = if password.len() <= chars {
        password
    } else {
        password.take(chars as int)
    };
    if password.len() == 0 {
        assert(bytes.take(0) =~= bytes);
    } else {
        let first = encode_scalar(password[0] as u32);
        let rest = password.drop_first();
        lemma_scalar_bytes(password[0]);
        assert(bytes == first + encode_utf8(rest));
        assert(bytes[0] == first[0]);
        if chars == 0 {
            assert(kept =~= Seq::<char>::empty());
            assert(bytes.take(0) =~= encode_utf8(kept));
        } else {
            let left = (chars - 1) as nat;
            lemma_clamp_chars(rest, left);
            assert(bytes.drop_first() =~= first.skip(1) + encode_utf8(rest));
            lemma_clamp_through(first, encode_utf8(rest), 1, left);
            let kept_rest = if rest.len() <= left {
                rest
            } else {
                rest.take(left as int)
            };
            assert(kept.drop_first() =~= kept_rest);
            assert(kept[0] == password[0]);
            assert(encode_utf8(kept) == first + encode_utf8(kept_rest));
            let n = clamp_len(encode_utf8(rest), left) as int;
            crate::crypto::lemma_clamp_len_le(encode_utf8(rest), left);
            assert(bytes.take(first.len() + n) =~= first + encode_utf8(rest).take(n));
        }
    }
}

/// What counts of a password is its first 127 characters, in UTF-8.
pub proof fn lemma_password_law(password: Seq<char>)
    ensures
        password_bytes(password) == encode_utf8(
            if password.len() <= 127 {
                password
            } else {
                password.take(127)
            },
        ),
{
    lemma_clamp_chars(password, 127);
}

// ── Check values and MACs ──────────────────────────────────────────────────

/// A stored check value accepts a password's where its first eight bytes are
/// equal to it, and its last four start their SHA-256.
pub proof fn lemma_check_law(check: Seq<u8>, stored: Seq<u8>)
    requires
        check.len() == 8,
        stored.len() == 12,
        sha256_of(check).len() >= 4,
    ensures
        check_accepts(check, stored) <==> (forall|i: int| 0 <= i < 8 ==> stored[i] == check[i])
            && (forall|i: int| 0 <= i < 4 ==> #[trigger] stored[8 + i] == sha256_of(check)[i]),
{
    let agree = forall|i: int| 0 <= i < 8 ==> stored[i] == check[i];
    let sound = forall|i: int| 0 <= i < 4 ==> #[trigger] stored[8 + i] == sha256_of(check)[i];
    if check_accepts(check, stored) {
        assert forall|i: int| 0 <= i < 8 implies stored[i] == check[i] by {
            assert(stored.take(8)[i] == stored[i]);
        }
        assert forall|i: int| 0 <= i < 4 implies #[trigger] stored[8 + i] == sha256_of(
            check,
        )[i] by {
            assert(stored.skip(8)[i] == stored[8 + i]);
            assert(sha256_of(check).take(4)[i] == sha256_of(check)[i]);
        }
    }
    if agree && sound {
        assert(stored.take(8) =~= check);
        assert(stored.skip(8) =~= sha256_of(check).take(4)) by {
            assert forall|i: int| 0 <= i < 4 implies stored.skip(8)[i] == sha256_of(check).take(
                4,
            )[i] by {
                assert(stored[8 + i] == sha256_of(check)[i]);
            }
        }
    }
}

/// A service record's check value counts for none where its first eight bytes
/// are zero, and only there.
pub proof fn lemma_absent_law(stored: Seq<u8>)
    requires
        stored.len() == 12,
    ensures
        is_absent_check(stored) <==> stored.take(8) == Seq::new(8, |i: int| 0u8),
{
    let zeros = Seq::new(8, |i: int| 0u8);
    if is_absent_check(stored) {
        assert(stored.take(8) =~= zeros);
    }
    if stored.take(8) == zeros {
        assert forall|j: int| 0 <= j < 8 implies stored[j] == 0 by {
            assert(stored.take(8)[j] == zeros[j]);
        }
    }
}

/// The word of four bytes, lowest first.
pub open spec fn word_at(s: Seq<u8>, at: int) -> u32 {
    (s[at] + 256 * s[at + 1] + 65536 * s[at + 2] + 16777216 * s[at + 3]) as u32
}

proof fn lemma_word(s: Seq<u8>, at: int)
    requires
        0 <= at,
        at + 4 <= s.len(),
    ensures
        le_value(s.subrange(at, at + 4)) == word_at(s, at),
{
    reveal_with_fuel(le_value, 5);
    let t = s.subrange(at, at + 4);
    assert(t.drop_first() =~= s.subrange(at + 1, at + 4));
    assert(t.drop_first().drop_first() =~= s.subrange(at + 2, at + 4));
    assert(t.drop_first().drop_first().drop_first() =~= s.subrange(at + 3, at + 4));
}

/// A checksum's MAC is the exclusive or of the eight words of the HMAC, under
/// the hash key, of its four bytes, lowest first.
pub proof fn lemma_mac_law(hash_key: Seq<u8>, crc: u32)
    requires
        hmac_sha256_of(hash_key, le_bytes(crc as nat, 4)).len() == 32,
    ensures
        ({
            let message = seq![
                (crc % 256) as u8,
                (crc / 256 % 256) as u8,
                (crc / 65536 % 256) as u8,
                (crc / 16777216 % 256) as u8,
            ];
            let d = hmac_sha256_of(hash_key, message);
            spec_mac_crc32(hash_key, crc) == word_at(d, 0) ^ word_at(d, 4) ^ word_at(d, 8)
                ^ word_at(d, 12) ^ word_at(d, 16) ^ word_at(d, 20) ^ word_at(d, 24) ^ word_at(d, 28)
        }),
{
    let message = seq![
        (crc % 256) as u8,
        (crc / 256 % 256) as u8,
        (crc / 65536 % 256) as u8,
        (crc / 16777216 % 256) as u8,
    ];
    reveal_with_fuel(le_bytes, 5);
    assert(crc as nat / 256 / 256 == crc as nat / 65536);
    assert(crc as nat / 65536 / 256 == crc as nat / 16777216);
    assert(le_bytes(crc as nat, 4) =~= message);
    let d = hmac_sha256_of(hash_key, message);
    lemma_word(d, 0);
    lemma_word(d, 4);
    lemma_word(d, 8);
    lemma_word(d, 12);
    lemma_word(d, 16);
    lemma_word(d, 20);
    lemma_word(d, 24);
    lemma_word(d, 28);
    reveal_with_fuel(folded_words, 9);
    let w = word_at(d, 0);
    assert(0u32 ^ w == w) by (bit_vector);
}

/// Parameters made for a password store the check value that its keys have,
/// and the start of the value's SHA-256; they are the flags, strength, salt and
/// vector that they say, and accept the password.
pub proof fn lemma_made_for_law(
    p: EncryptionParams,
    keys: DerivedKeys,
    password: Seq<char>,
    strength: u8,
    flags: u8,
)
    requires
        made_for(p, password, strength, flags),
        keys.derived_from(password, p.salt@, strength as nat),
        sha256_of(keys.password_check@).len() >= 4,
    ensures
        p.version == 0,
        p.flags == flags,
        p.strength == strength,
        p.iterations == pow2(strength as nat),
        p.checksum is Some,
        forall|i: int| 0 <= i < 8 ==> p.checksum->Some_0@[i] == keys.password_check@[i],
        forall|i: int|
            0 <= i < 4 ==> #[trigger] p.checksum->Some_0@[8 + i] == sha256_of(
                keys.password_check@,
            )[i],
{
    lemma_check_law(keys.password_check@, p.checksum->Some_0@);
}

// ── Block chaining ─────────────────────────────────────────────────────────

/// What block `i` is chained to: the block before it, the vector at the start.
pub open spec fn chained_to(iv: Seq<u8>, cipher: Seq<u8>, i: int) -> Seq<u8> {
    if i == 0 {
        iv
    } else {
        cipher.subrange(16 * i - 16, 16 * i)
    }
}

/// Under a key of 32 bytes every block of plaintext is combined with what it is
/// chained to, and the AES-256 cipher taken; under one of 16 bytes AES-128.
pub proof fn lemma_encryption_chains(key: Seq<u8>, iv: Seq<u8>, data: Seq<u8>, i: int)
    requires
        iv.len() == 16,
        0 <= i,
        16 * i + 16 <= data.len(),
        key.len() == 16 || key.len() == 32,
        forall|b: Seq<u8>|
            b.len() == 16 ==> (#[trigger] aes128_encrypted(key, b)).len() == 16,
        forall|b: Seq<u8>|
            b.len() == 16 ==> (#[trigger] aes256_encrypted(key, b)).len() == 16,
    ensures
        ({
            let cipher = cbc_encrypted(key, iv, data);
            let before = chained_to(iv, cipher, i);
            let mixed = Seq::new(16, |j: int| data[16 * i + j] ^ before[j]);
            &&& 16 * i + 16 <= cipher.len()
            &&& cipher.subrange(16 * i, 16 * i + 16) == if key.len() == 32 {
                aes256_encrypted(key, mixed)
            } else {
                aes128_encrypted(key, mixed)
            }
        }),
    decreases i,
{
    let cipher = cbc_encrypted(key, iv, data);
    let first = crate::crypto::cbc::block_encrypted(key, xor_bytes(data.take(16), iv));
    let rest = cbc_encrypted(key, first, data.skip(16));
    assert(xor_bytes(data.take(16), iv).len() == 16);
    assert(first.len() == 16);
    assert(cipher == first + rest);
    let before = chained_to(iv, cipher, i);
    let mixed = Seq::new(16, |j: int| data[16 * i + j] ^ before[j]);
    if i == 0 {
        assert(mixed =~= xor_bytes(data.take(16), iv));
        assert(cipher.subrange(0, 16) =~= first);
    } else {
        lemma_encryption_chains(key, first, data.skip(16), i - 1);
        let before2 = chained_to(first, rest, i - 1);
        if i == 1 {
            assert(cipher.subrange(0, 16) =~= first);
        } else {
            assert(cipher.subrange(16 * i - 16, 16 * i) =~= rest.subrange(
                16 * (i - 1) - 16,
                16 * (i - 1),
            ));
        }
        assert(before == before2);
        let mixed2 = Seq::new(16, |j: int| data.skip(16)[16 * (i - 1) + j] ^ before2[j]);
        assert(mixed =~= mixed2) by {
            assert forall|j: int| 0 <= j < 16 implies mixed[j] == mixed2[j] by {
                assert(data.skip(16)[16 * (i - 1) + j] == data[16 * i + j]);
            }
        }
        assert(cipher.subrange(16 * i, 16 * i + 16) =~= rest.subrange(
            16 * (i - 1),
            16 * (i - 1) + 16,
        ));
    }
}

/// Decrypting takes the block cipher back and then the chaining.
pub proof fn lemma_decryption_unchains(key: Seq<u8>, iv: Seq<u8>, cipher: Seq<u8>, i: int)
    requires
        iv.len() == 16,
        0 <= i,
        16 * i + 16 <= cipher.len(),
        key.len() == 16 || key.len() == 32,
        forall|b: Seq<u8>|
            b.len() == 16 ==> (#[trigger] aes128_decrypted(key, b)).len() == 16,
        forall|b: Seq<u8>|
            b.len() == 16 ==> (#[trigger] aes256_decrypted(key, b)).len() == 16,
    ensures
        ({
            let block = cipher.subrange(16 * i, 16 * i + 16);
            let before = chained_to(iv, cipher, i);
            let d = if key.len() == 32 {
                aes256_decrypted(key, block)
            } else {
                aes128_decrypted(key, block)
            };
            let plain = cbc_decrypted(key, iv, cipher);
            &&& 16 * i + 16 <= plain.len()
            &&& forall|j: int| 0 <= j < 16 ==> #[trigger] plain[16 * i + j] == d[j] ^ before[j]
        }),
    decreases i,
{
    let plain = cbc_decrypted(key, iv, cipher);
    let head = cipher.take(16);
    let first = xor_bytes(crate::crypto::cbc::block_decrypted(key, head), iv);
    assert(head.len() == 16);
    assert(first.len() == 16);
    let rest = cbc_decrypted(key, head, cipher.skip(16));
    assert(plain == first + rest);
    if i == 0 {
        assert(cipher.subrange(0, 16) =~= head);
    } else {
        lemma_decryption_unchains(key, head, cipher.skip(16), i - 1);
        assert(cipher.skip(16).subrange(16 * (i - 1), 16 * (i - 1) + 16) =~= cipher.subrange(
            16 * i,
            16 * i + 16,
        ));
        let before = chained_to(iv, cipher, i);
        let before2 = chained_to(head, cipher.skip(16), i - 1);
        assert(before =~= before2);
        let block = cipher.subrange(16 * i, 16 * i + 16);
        let d = if key.len() == 32 {
            aes256_decrypted(key, block)
        } else {
            aes128_decrypted(key, block)
        };
        assert forall|j: int| 0 <= j < 16 implies #[trigger] plain[16 * i + j] == d[j]
            ^ before[j] by {
            assert(plain[16 * i + j] == rest[16 * (i - 1) + j]);
        }
    }
}

/// Padding adds zeros up to the next whole block, a whole one to nothing.
pub proof fn lemma_padding_law(data: Seq<u8>)
    ensures
        zero_padded(data).len() % 16 == 0,
        zero_padded(data).len() == spec_zero_padded_len(data.len()),
        0 < zero_padded(data).len(),
        data.len() <= zero_padded(data).len() < data.len() + 16 || data.len() == 0
            && zero_padded(data).len() == 16,
        zero_padded(data).take(data.len() as int) == data,
        forall|i: int| data.len() <= i < zero_padded(data).len() ==> zero_padded(data)[i] == 0,
{
    assert(zero_padded(data).take(data.len() as int) =~= data);
}

// ── Records ────────────────────────────────────────────────────────────────

/// The layout of a file encryption record: its length, type 1, version 0, the
/// flags, the strength, salt, vector and, where there is one, check value.
pub proof fn lemma_record_layout(f: EncrFields)
    requires
        f.valid(),
    ensures
        ({
            let r = record_bytes(f);
            &&& r.len() == if f.check is Some {
                49int
            } else {
                37
            }
            &&& r[0] == r.len() - 1
            &&& r[1] == 1
            &&& r[2] == 0
            &&& r[3] == f.flags
            &&& r[4] == f.strength
            &&& r.subrange(5, 21) == f.salt
            &&& r.subrange(21, 37) == f.iv
            &&& f.check is Some ==> r.subrange(37, 49) == f.check->Some_0
        }),
{
    reveal_with_fuel(vint_bytes, 2);
    let r = record_bytes(f);
    let body = record_body(f);
    assert(vint_bytes(0) =~= seq![0u8]);
    assert(vint_bytes(f.flags) =~= seq![f.flags as u8]);
    assert(vint_bytes(1) =~= seq![1u8]);
    assert(body.len() < 100);
    assert(vint_bytes(1 + body.len()) =~= seq![(1 + body.len()) as u8]);
    assert(r.subrange(5, 21) =~= f.salt);
    assert(r.subrange(21, 37) =~= f.iv);
    if f.check is Some {
        assert(r.subrange(37, 49) =~= f.check->Some_0);
    }
}

/// The layout of an archive encryption header: type 4, no flags, version 0,
/// whether there is a check value, the strength, the salt and the value.
pub proof fn lemma_archive_record_layout(f: EncrFields)
    requires
        f.valid(),
    ensures
        ({
            let r = archive_record_body(f);
            &&& r.len() == if f.check is Some {
                33int
            } else {
                21
            }
            &&& r[0] == 4
            &&& r[1] == 0
            &&& r[2] == 0
            &&& r[3] == if f.check is Some {
                1int
            } else {
                0
            }
            &&& r[4] == f.strength
            &&& r.subrange(5, 21) == f.salt
            &&& f.check is Some ==> r.subrange(21, 33) == f.check->Some_0
        }),
{
    reveal_with_fuel(vint_bytes, 2);
    let r = archive_record_body(f);
    assert(vint_bytes(0) =~= seq![0u8]);
    assert(vint_bytes(1) =~= seq![1u8]);
    assert(vint_bytes(4) =~= seq![4u8]);
    assert(r.subrange(5, 21) =~= f.salt);
    if f.check is Some {
        assert(r.subrange(21, 33) =~= f.check->Some_0);
    }
}

/// What is refused of a record: versions above zero, flags above three,
/// strengths above 24, and records that end too soon.
pub proof fn lemma_record_refusals(s: Seq<u8>)
    requires
        s.len() >= 3,
        s[0] < 128,
        s[1] < 128,
    ensures
        s[0] > 0 ==> record_of(s) is Err,
        s[1] > 3 ==> record_of(s) is Err,
        s[2] > 24 ==> record_of(s) is Err,
        s.len() < 35 ==> record_of(s) is Err,
        s[1] % 2 == 1 && s.len() < 47 ==> record_of(s) is Err,
        s[0] == 0 && s[1] <= 3 && s[2] <= 24 && s.len() >= 35 && (s[1] % 2 == 1 ==> s.len() >= 47)
            ==> record_of(s) == Ok::<EncrFields, Seq<char>>(
            EncrFields {
                flags: s[1] as nat,
                strength: s[2] as nat,
                salt: s.subrange(3, 19),
                iv: s.subrange(19, 35),
                check: if s[1] % 2 == 1 {
                    Some(s.subrange(35, 47))
                } else {
                    None
                },
            },
        ),
{
    crate::rar5::laws::lemma_vint_read_law(s);
    let t = s.skip(1);
    assert(t[0] == s[1]);
    crate::rar5::laws::lemma_vint_read_law(t);
    let u = s.skip(2);
    if s[0] == 0 && s[1] <= 3 {
        assert(encr_head(s) == Ok::<(nat, nat), Seq<char>>((s[1] as nat, 2)));
        assert(u[0] == s[2]);
        if s.len() >= 35 {
            assert(u.subrange(1, 17) =~= s.subrange(3, 19));
            assert(u.subrange(17, 33) =~= s.subrange(19, 35));
        }
        if s.len() >= 47 {
            assert(u.subrange(33, 45) =~= s.subrange(35, 47));
        }
    }
}

/// Records of other types before the encryption record are passed over.
pub proof fn lemma_other_records_pass(kind: u8, payload: Seq<u8>, rest: Seq<u8>)
    requires
        kind < 128,
        kind != 1,
        payload.len() < 127,
    ensures
        ({
            let record = seq![(1 + payload.len()) as u8, kind] + payload;
            extra_record_of(record + rest) == extra_record_of(rest)
        }),
{
    let record = seq![(1 + payload.len()) as u8, kind] + payload;
    let s = record + rest;
    crate::rar5::laws::lemma_vint_read_law(s);
    let t = s.skip(1);
    assert(t[0] == kind);
    crate::rar5::laws::lemma_vint_read_law(t);
    assert(t.skip(1 + payload.len() as int) =~= rest);
}

/// Deriving keys and checking the password: the keys come back where the stored
/// value is the password's or there is none, and only there; of a service
/// record also where the value is all zero.
pub proof fn lemma_verified_law(
    p: EncryptionParams,
    keys: DerivedKeys,
    password: Seq<char>,
    service: bool,
    r: RarResult<Option<DerivedKeys>>,
)
    requires
        p.verified(password, service, r),
        keys.derived_from(password, p.salt@, p.strength as nat),
        sha256_of(keys.password_check@).len() >= 4,
    ensures
        p.strength > 24 ==> r is Err,
        p.strength <= 24 ==> {
            let fits = match p.checksum {
                None => true,
                Some(c) => {
                    ||| service && c@.take(8) == Seq::new(8, |i: int| 0u8)
                    ||| (forall|i: int| 0 <= i < 8 ==> c@[i] == keys.password_check@[i]) && (forall|
                        i: int,
                    |
                        0 <= i < 4 ==> #[trigger] c@[8 + i] == sha256_of(keys.password_check@)[i])
                },
            };
            &&& r is Ok
            &&& r->Ok_0 is Some <==> fits
            &&& r->Ok_0 matches Some(k) ==> k.key@ == keys.key@ && k.hash_key@ == keys.hash_key@
        },
{
    if let Some(c) = p.checksum {
        lemma_check_law(keys.password_check@, c@);
        lemma_absent_law(c@);
    }
}

/// The headers of an archive open with the key of the password that its record
/// was made for. A password with another check value is wrong, and without one
/// nothing is tried.
pub proof fn lemma_header_key_law(
    f: EncrFields,
    keys: DerivedKeys,
    password: Seq<char>,
    with: RarResult<[u8; 32]>,
    without: RarResult<[u8; 32]>,
)
    requires
        f.valid(),
        f.check is Some,
        keys.derived_from(password, f.salt, f.strength),
        sha256_of(keys.password_check@).len() >= 4,
        header_key(archive_record_body(f), Some(password), with),
        header_key(archive_record_body(f), None, without),
    ensures
        without matches Err(RarError::Encrypted(_)),
        ({
            let c = f.check->Some_0;
            let fits = (forall|i: int| 0 <= i < 8 ==> c[i] == keys.password_check@[i]) && (forall|
                i: int,
            |
                0 <= i < 4 ==> #[trigger] c[8 + i] == sha256_of(keys.password_check@)[i]);
            &&& fits ==> with is Ok && with->Ok_0@ == keys.key@
            &&& !fits ==> (with matches Err(RarError::WrongPassword))
        }),
{
    lemma_archive_record_roundtrip(f);
    lemma_check_law(keys.password_check@, f.check->Some_0);
}

// ── The RAR 1.3 cipher ─────────────────────────────────────────────────────

/// Keys as a password's bytes make them: from zero, the first is the sum of the
/// bytes, the second their exclusive or, the third turned by a bit after each
/// is added.
pub open spec fn are_folded(password: Seq<u8>, keys: Seq<Seq<u8>>) -> bool {
    &&& keys.len() == password.len() + 1
    &&& keys[0] == seq![0u8, 0u8, 0u8]
    &&& forall|i: int|
        0 <= i < password.len() ==> {
            let k = #[trigger] keys[i + 1];
            let sum = (keys[i][2] + password[i]) % 256;
            &&& k.len() == 3
            &&& k[0] == (keys[i][0] + password[i]) % 256
            &&& k[1] == keys[i][1] ^ password[i]
            &&& k[2] == if sum < 128 {
                2 * sum
            } else {
                2 * sum - 255
            }
        }
}

#[verifier::rlimit(40)]
#[verifier::spinoff_prover]
proof fn lemma_folded_upto(password: Seq<u8>, keys: Seq<Seq<u8>>, n: int)
    requires
        are_folded(password, keys),
        0 <= n <= password.len(),
    ensures
        password_key(password.take(n)) == keys[n],
    decreases n,
{
    if n > 0 {
        lemma_folded_upto(password, keys, n - 1);
        assert(password.take(n).drop_last() =~= password.take(n - 1));
        let k = keys[n - 1 + 1];
        let prev = keys[n - 1];
        let b = password[n - 1];
        assert(password.take(n).last() == b);
        let sum = (prev[2] + b) % 256;
        assert(0 <= sum < 256);
        assert((2 * sum) % 256 + sum / 128 == if sum < 128 {
            2 * sum
        } else {
            2 * sum - 255
        });
        assert(crate::crypto::rar13::fold_byte(prev, b)[2] == k[2]);
        assert(crate::crypto::rar13::fold_byte(prev, b) =~= k);
    }
}

/// The key of a password is what its bytes make one after the other.
pub proof fn lemma_rar13_key_law(password: Seq<u8>, keys: Seq<Seq<u8>>)
    requires
        are_folded(password, keys),
    ensures
        password_key(password) == keys.last(),
{
    lemma_folded_upto(password, keys, password.len() as int);
    assert(password.take(password.len() as int) =~= password);
}

/// Keys as the stream goes on: the third is added to the second, and the sum to
/// the first.
pub open spec fn are_advanced(keys: Seq<Seq<u8>>) -> bool {
    forall|i: int|
        0 <= i < keys.len() - 1 ==> {
            let k = #[trigger] keys[i + 1];
            &&& k.len() == 3
            &&& k[2] == keys[i][2]
            &&& k[1] == (keys[i][1] + keys[i][2]) % 256
            &&& k[0] == (keys[i][0] + k[1]) % 256
        }
}

proof fn lemma_advanced_upto(keys: Seq<Seq<u8>>, n: nat)
    requires
        are_advanced(keys),
        n < keys.len(),
        keys[0].len() == 3,
    ensures
        key_after(keys[0], n) == keys[n as int],
    decreases n,
{
    if n > 0 {
        lemma_advanced_upto(keys, (n - 1) as nat);
        let k = keys[n - 1 + 1];
        assert(key_after(keys[0], n) =~= k);
    }
}

/// Each byte is encrypted by adding the first byte of the key one step further,
/// and decrypted by taking it off.
pub proof fn lemma_rar13_stream_law(keys: Seq<Seq<u8>>, data: Seq<u8>, i: int)
    requires
        keys.len() == data.len() + 1,
        keys[0].len() == 3,
        are_advanced(keys),
        0 <= i < data.len(),
    ensures
        rar13_encrypted(keys[0], data).len() == data.len(),
        rar13_decrypted(keys[0], data).len() == data.len(),
        rar13_encrypted(keys[0], data)[i] == (data[i] + keys[i + 1][0]) % 256,
        rar13_decrypted(keys[0], data)[i] == (data[i] - keys[i + 1][0]) % 256,
{
    lemma_advanced_upto(keys, (i + 1) as nat);
}

} // verus!
