//! RAR 1.3/1.4 member and comment cipher.
//!
//! A three-byte key drives a byte-at-a-time additive stream; every password
//! character folds into the key and the stream advance.

use crate::crypto::{clamp_password, clamped};
use vstd::prelude::*;

verus! {

/// The sum of two bytes, modulo 256.
pub open spec fn byte_sum(a: u8, b: u8) -> u8 {
    ((a + b) % 256) as u8
}

/// The difference of two bytes, modulo 256.
pub open spec fn byte_difference(a: u8, b: u8) -> u8 {
    ((a - b) % 256) as u8
}

/// The byte with its bits moved up by one, the highest becoming the lowest.
pub open spec fn rotated(a: u8) -> u8 {
    ((2 * a) % 256 + a / 128) as u8
}

/// The key after one more password byte.
pub open spec fn fold_byte(key: Seq<u8>, byte: u8) -> Seq<u8> {
    seq![byte_sum(key[0], byte), key[1] ^ byte, rotated(byte_sum(key[2], byte))]
}

/// The key that a password makes, from the zero key.
pub open spec fn password_key(password: Seq<u8>) -> Seq<u8>
    decreases password.len(),
{
    if password.len() == 0 {
        seq![0u8, 0u8, 0u8]
    } else {
        fold_byte(password_key(password.drop_last()), password.last())
    }
}

/// The key one byte further down the stream.
pub open spec fn advanced(key: Seq<u8>) -> Seq<u8> {
    let second = byte_sum(key[1], key[2]);
    seq![byte_sum(key[0], second), second, key[2]]
}

/// The key `n` bytes further down the stream.
pub open spec fn key_after(key: Seq<u8>, n: nat) -> Seq<u8>
    decreases n,
{
    if n == 0 {
        key
    } else {
        advanced(key_after(key, (n - 1) as nat))
    }
}

/// `data` encrypted by the stream that starts at `key`.
pub open spec fn rar13_encrypted(key: Seq<u8>, data: Seq<u8>) -> Seq<u8> {
    Seq::new(data.len(), |i: int| byte_sum(data[i], key_after(key, (i + 1) as nat)[0]))
}

/// `data` decrypted by the stream that starts at `key`.
pub open spec fn rar13_decrypted(key: Seq<u8>, data: Seq<u8>) -> Seq<u8> {
    Seq::new(data.len(), |i: int| byte_difference(data[i], key_after(key, (i + 1) as nat)[0]))
}

/// Decrypting with the key that encrypted gives the data back.
pub proof fn lemma_rar13_roundtrip(key: Seq<u8>, data: Seq<u8>)
    ensures
        rar13_decrypted(key, rar13_encrypted(key, data)) == data,
        rar13_encrypted(key, rar13_decrypted(key, data)) == data,
{
    assert(rar13_decrypted(key, rar13_encrypted(key, data)) =~= data);
    assert(rar13_encrypted(key, rar13_decrypted(key, data)) =~= data);
}

/// RAR 1.3/1.4 stream cipher.
#[derive(Clone)]
pub struct Rar13Cipher {
    key: [u8; 3],
}

impl View for Rar13Cipher {
    type V = Seq<u8>;

    closed spec fn view(&self) -> Seq<u8> {
        self.key@
    }
}

/// The byte with its bits moved up by one, the highest becoming the lowest.
fn rotate(a: u8) -> (r: u8)
    ensures
        r == rotated(a),
{
    if a >= 128 {
        (a - 128) * 2 + 1
    } else {
        a * 2
    }
}

/// The key after one more password byte.
fn folded(key: &[u8; 3], byte: u8) -> (r: [u8; 3])
    ensures
        r@ == fold_byte(key@, byte),
{
    let first = key[0].wrapping_add(byte);
    let second = key[1] ^ byte;
    let third = rotate(key[2].wrapping_add(byte));
    let r: [u8; 3] = [first, second, third];
    assert(r@ =~= fold_byte(key@, byte));
    r
}

impl Rar13Cipher {
    /// The cipher of a member password.
    pub fn new(password: &[u8]) -> (r: Rar13Cipher)
        ensures
            r@ == password_key(clamped(password@)),
    {
        let password = clamp_password(password);
        let mut key: [u8; 3] = [0u8; 3];
        let mut i: usize = 0;
        proof {
            assert(key@ =~= password_key(password@.take(0)));
        }
        while i < password.len()
            invariant
                i <= password@.len(),
                key@ == password_key(password@.take(i as int)),
            decreases password@.len() - i,
        {
            let byte = password[i];
            proof {
                assert(password@.take(i + 1).drop_last() =~= password@.take(i as int));
            }
            key = folded(&key, byte);
            i += 1;
        }
        proof {
            assert(password@.take(i as int) =~= password@);
        }
        Rar13Cipher { key }
    }

    /// The fixed key of packed archive comments.
    pub fn new_comment() -> (r: Rar13Cipher)
        ensures
            r@ == seq![0u8, 7u8, 77u8],
    {
        let r = Rar13Cipher { key: [0, 7, 77] };
        assert(r@ =~= seq![0u8, 7u8, 77u8]);
        r
    }

    /// Decrypt a whole buffer in place.
    pub fn decrypt_in_place(self, data: &mut [u8])
        ensures
            final(data)@ == rar13_decrypted(self@, old(data)@),
    {
        let mut cipher = self;
        let mut i: usize = 0;
        let ghost input = data@;
        let ghost output = rar13_decrypted(self@, input);
        while i < data.len()
            invariant
                i <= data@.len(),
                data@.len() == input.len(),
                output == rar13_decrypted(self@, input),
                cipher@ == key_after(self@, i as nat),
                forall|j: int| 0 <= j < i ==> data@[j] == output[j],
                forall|j: int| i <= j < input.len() ==> data@[j] == input[j],
            decreases data@.len() - i,
        {
            let b = cipher.decrypt_byte(data[i]);
            data[i] = b;
            i += 1;
        }
        proof {
            assert(data@ =~= output);
        }
    }

    /// Encrypt a whole buffer in place.
    pub fn encrypt_in_place(self, data: &mut [u8])
        ensures
            final(data)@ == rar13_encrypted(self@, old(data)@),
    {
        let mut cipher = self;
        let mut i: usize = 0;
        let ghost input = data@;
        let ghost output = rar13_encrypted(self@, input);
        while i < data.len()
            invariant
                i <= data@.len(),
                data@.len() == input.len(),
                output == rar13_encrypted(self@, input),
                cipher@ == key_after(self@, i as nat),
                forall|j: int| 0 <= j < i ==> data@[j] == output[j],
                forall|j: int| i <= j < input.len() ==> data@[j] == input[j],
            decreases data@.len() - i,
        {
            let b = cipher.encrypt_byte(data[i]);
            data[i] = b;
            i += 1;
        }
        proof {
            assert(data@ =~= output);
        }
    }

    /// Decrypt one byte, advancing the stream.
    pub fn decrypt_byte(&mut self, byte: u8) -> (r: u8)
        ensures
            final(self)@ == advanced(old(self)@),
            r == byte_difference(byte, final(self)@[0]),
    {
        self.advance();
        byte.wrapping_sub(self.key[0])
    }

    /// Encrypt one byte, advancing the stream.
    pub fn encrypt_byte(&mut self, byte: u8) -> (r: u8)
        ensures
            final(self)@ == advanced(old(self)@),
            r == byte_sum(byte, final(self)@[0]),
    {
        self.advance();
        byte.wrapping_add(self.key[0])
    }

    fn advance(&mut self)
        ensures
            final(self)@ == advanced(old(self)@),
    {
        let ghost before = self@;
        self.key[1] = self.key[1].wrapping_add(self.key[2]);
        self.key[0] = self.key[0].wrapping_add(self.key[1]);
        assert(self@ =~= advanced(before));
    }
}

} // verus!
