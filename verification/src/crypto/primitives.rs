//! The outside primitives: AES-256, HMAC-SHA256, SHA-256, random bytes and
//! wiping.

use aes::cipher::{BlockCipherDecrypt, BlockCipherEncrypt, KeyInit};
use hmac::Mac;
use sha2::Digest;
use vstd::prelude::*;
use zeroize::Zeroize;

verus! {

/// The HMAC-SHA256 of `data` under `key`.
pub uninterp spec fn hmac_sha256_of(key: Seq<u8>, data: Seq<u8>) -> Seq<u8>;

/// The SHA-256 digest of `data`.
pub uninterp spec fn sha256_of(data: Seq<u8>) -> Seq<u8>;

/// One block encrypted by AES-256 under `key`.
pub uninterp spec fn aes256_encrypted(key: Seq<u8>, block: Seq<u8>) -> Seq<u8>;

/// One block decrypted by AES-256 under `key`.
pub uninterp spec fn aes256_decrypted(key: Seq<u8>, block: Seq<u8>) -> Seq<u8>;

/// One block encrypted by AES-128 under `key`.
pub uninterp spec fn aes128_encrypted(key: Seq<u8>, block: Seq<u8>) -> Seq<u8>;

/// One block decrypted by AES-128 under `key`.
pub uninterp spec fn aes128_decrypted(key: Seq<u8>, block: Seq<u8>) -> Seq<u8>;

/// `hmac::Hmac<sha2::Sha256>`, made from the key, fed once and finished: the
/// result is a function of key and data. Keys of every length are accepted.
#[verifier::external_body]
pub(crate) fn hmac_sha256(key: &[u8], data: &[u8]) -> (r: [u8; 32])
    ensures
        r@ == hmac_sha256_of(key@, data@),
{
    let made = <hmac::Hmac<sha2::Sha256> as KeyInit>::new_from_slice(key);
    let mut mac = made.expect("HMAC accepts any key length");
    mac.update(data);
    mac.finalize().into_bytes().into()
}

/// `sha2::Sha256::digest`: the result is a function of the data.
#[verifier::external_body]
pub(crate) fn sha256(data: &[u8]) -> (r: [u8; 32])
    ensures
        r@ == sha256_of(data@),
{
    sha2::Sha256::digest(data).into()
}

/// `aes::Aes256::encrypt_block` under `key`: the result is a function of key
/// and block, and `decrypt_block` under the same key takes it back.
#[verifier::external_body]
pub(crate) fn aes256_encrypt_block(key: &[u8; 32], block: &[u8; 16]) -> (r: [u8; 16])
    ensures
        r@ == aes256_encrypted(key@, block@),
        aes256_decrypted(key@, r@) == block@,
{
    let cipher = aes::Aes256::new(key.into());
    let mut out: aes::Block = (*block).into();
    cipher.encrypt_block(&mut out);
    out.into()
}

/// `aes::Aes256::decrypt_block` under `key`: the result is a function of key
/// and block.
#[verifier::external_body]
pub(crate) fn aes256_decrypt_block(key: &[u8; 32], block: &[u8; 16]) -> (r: [u8; 16])
    ensures
        r@ == aes256_decrypted(key@, block@),
{
    let cipher = aes::Aes256::new(key.into());
    let mut out: aes::Block = (*block).into();
    cipher.decrypt_block(&mut out);
    out.into()
}

/// `aes::Aes128::encrypt_block` under `key`: the result is a function of key
/// and block, and `decrypt_block` under the same key takes it back.
#[verifier::external_body]
pub(crate) fn aes128_encrypt_block(key: &[u8; 16], block: &[u8; 16]) -> (r: [u8; 16])
    ensures
        r@ == aes128_encrypted(key@, block@),
        aes128_decrypted(key@, r@) == block@,
{
    let cipher = aes::Aes128::new(key.into());
    let mut out: aes::Block = (*block).into();
    cipher.encrypt_block(&mut out);
    out.into()
}

/// `aes::Aes128::decrypt_block` under `key`: the result is a function of key
/// and block.
#[verifier::external_body]
pub(crate) fn aes128_decrypt_block(key: &[u8; 16], block: &[u8; 16]) -> (r: [u8; 16])
    ensures
        r@ == aes128_decrypted(key@, block@),
{
    let cipher = aes::Aes128::new(key.into());
    let mut out: aes::Block = (*block).into();
    cipher.decrypt_block(&mut out);
    out.into()
}

/// `rand::fill`: every byte is replaced by a random one. Nothing is claimed
/// of their values.
#[verifier::external_body]
pub(crate) fn random_fill(bytes: &mut [u8])
    ensures
        final(bytes)@.len() == old(bytes)@.len(),
{
    rand::fill(bytes);
}

/// `zeroize::Zeroize::zeroize` of an array: every byte becomes zero.
#[verifier::external_body]
pub(crate) fn wipe(bytes: &mut [u8; 32])
    ensures
        forall|i: int| 0 <= i < 32 ==> final(bytes)@[i] == 0,
{
    bytes.zeroize();
}

} // verus!
