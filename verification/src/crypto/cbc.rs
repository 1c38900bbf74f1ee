//! AES in CBC mode with zero-fill padding.

use crate::crypto::primitives::{
    aes128_decrypt_block, aes128_decrypted, aes128_encrypt_block, aes128_encrypted,
    aes256_decrypt_block, aes256_decrypted, aes256_encrypt_block, aes256_encrypted,
};
use crate::error::{is_format, RarError, RarResult};
use crate::text::{decimal, with_number};
use vstd::prelude::*;
use vstd::string::*;

verus! {

/// Byte-wise exclusive or.
pub open spec fn xor_bytes(a: Seq<u8>, b: Seq<u8>) -> Seq<u8> {
    Seq::new(a.len(), |i: int| a[i] ^ b[i])
}

/// One block encrypted by AES, with 128 or 256 bits as the key has them.
pub open spec fn block_encrypted(key: Seq<u8>, block: Seq<u8>) -> Seq<u8> {
    if key.len() == 16 {
        aes128_encrypted(key, block)
    } else {
        aes256_encrypted(key, block)
    }
}

/// One block decrypted by AES, with 128 or 256 bits as the key has them.
pub open spec fn block_decrypted(key: Seq<u8>, block: Seq<u8>) -> Seq<u8> {
    if key.len() == 16 {
        aes128_decrypted(key, block)
    } else {
        aes256_decrypted(key, block)
    }
}

/// The whole blocks of `data`, chained and encrypted.
pub open spec fn cbc_encrypted(key: Seq<u8>, iv: Seq<u8>, data: Seq<u8>) -> Seq<u8>
    decreases data.len(),
{
    if data.len() < 16 {
        Seq::empty()
    } else {
        let block = block_encrypted(key, xor_bytes(data.take(16), iv));
        block + cbc_encrypted(key, block, data.skip(16))
    }
}

/// The vector that chains what follows `data` to it.
pub open spec fn cbc_next_iv(key: Seq<u8>, iv: Seq<u8>, data: Seq<u8>) -> Seq<u8>
    decreases data.len(),
{
    if data.len() < 16 {
        iv
    } else {
        cbc_next_iv(key, block_encrypted(key, xor_bytes(data.take(16), iv)), data.skip(16))
    }
}

/// The whole blocks of `data`, decrypted and unchained.
pub open spec fn cbc_decrypted(key: Seq<u8>, iv: Seq<u8>, data: Seq<u8>) -> Seq<u8>
    decreases data.len(),
{
    if data.len() < 16 {
        Seq::empty()
    } else {
        xor_bytes(block_decrypted(key, data.take(16)), iv) + cbc_decrypted(
            key,
            data.take(16),
            data.skip(16),
        )
    }
}

/// Every prefix of whole blocks of `cipher` decrypts to that of `plain`.
pub open spec fn prefixes_decrypt(
    key: Seq<u8>,
    iv: Seq<u8>,
    cipher: Seq<u8>,
    plain: Seq<u8>,
) -> bool {
    forall|k: int|
        0 <= k <= cipher.len() && k % 16 == 0 ==> #[trigger] cbc_decrypted(key, iv, cipher.take(k))
            == plain.take(k)
}

/// The vector behind whole blocks is their last ciphertext block, where every
/// ciphertext block has its size.
pub proof fn lemma_next_iv_is_last(key: Seq<u8>, iv: Seq<u8>, data: Seq<u8>, cipher: Seq<u8>)
    requires
        data.len() >= 16,
        data.len() % 16 == 0,
        cipher == cbc_encrypted(key, iv, data),
        blocks_whole(key, iv, data),
    ensures
        cipher.len() == data.len(),
        cbc_next_iv(key, iv, data) == cipher.subrange(cipher.len() - 16, cipher.len() as int),
    decreases data.len(),
{
    let block = block_encrypted(key, xor_bytes(data.take(16), iv));
    let rest = data.skip(16);
    let tail = cbc_encrypted(key, block, rest);
    if rest.len() == 0 {
        assert(tail =~= Seq::<u8>::empty());
        assert(cipher.subrange(0, 16) =~= block);
        assert(cbc_next_iv(key, block, rest) == block);
    } else {
        lemma_next_iv_is_last(key, block, rest, tail);
        assert(cipher.subrange(cipher.len() - 16, cipher.len() as int) =~= tail.subrange(
            tail.len() - 16,
            tail.len() as int,
        ));
    }
}

/// Every ciphertext block of `data` has the size of a block.
pub open spec fn blocks_whole(key: Seq<u8>, iv: Seq<u8>, data: Seq<u8>) -> bool
    decreases data.len(),
{
    data.len() < 16 || {
        let block = block_encrypted(key, xor_bytes(data.take(16), iv));
        block.len() == 16 && blocks_whole(key, block, data.skip(16))
    }
}

/// `data` with zeros up to the next block boundary, one block at least.
pub open spec fn zero_padded(data: Seq<u8>) -> Seq<u8> {
    data + Seq::new((spec_zero_padded_len(data.len()) - data.len()) as nat, |i: int| 0u8)
}

/// Length of `n` bytes padded to whole blocks, one block at least.
pub open spec fn spec_zero_padded_len(n: nat) -> nat {
    if n == 0 {
        16
    } else {
        ((n + 15) / 16) * 16
    }
}

/// Encrypting in pieces of whole blocks, each chained to the one before, is
/// encrypting at once.
pub proof fn lemma_cbc_concat(key: Seq<u8>, iv: Seq<u8>, a: Seq<u8>, b: Seq<u8>)
    requires
        a.len() % 16 == 0,
    ensures
        cbc_encrypted(key, iv, a + b) == cbc_encrypted(key, iv, a) + cbc_encrypted(
            key,
            cbc_next_iv(key, iv, a),
            b,
        ),
        cbc_next_iv(key, iv, a + b) == cbc_next_iv(key, cbc_next_iv(key, iv, a), b),
    decreases a.len(),
{
    if a.len() < 16 {
        assert(a + b =~= b);
        assert(cbc_encrypted(key, iv, a + b) =~= cbc_encrypted(key, iv, a) + cbc_encrypted(
            key,
            cbc_next_iv(key, iv, a),
            b,
        ));
    } else {
        assert((a + b).take(16) =~= a.take(16));
        assert((a + b).skip(16) =~= a.skip(16) + b);
        let block = block_encrypted(key, xor_bytes(a.take(16), iv));
        lemma_cbc_concat(key, block, a.skip(16), b);
        assert(cbc_encrypted(key, iv, a + b) =~= cbc_encrypted(key, iv, a) + cbc_encrypted(
            key,
            cbc_next_iv(key, iv, a),
            b,
        ));
    }
}

proof fn lemma_xor_twice(a: Seq<u8>, b: Seq<u8>)
    ensures
        xor_bytes(xor_bytes(a, b), b) == a,
{
    assert forall|i: int| 0 <= i < a.len() implies xor_bytes(xor_bytes(a, b), b)[i] == a[i] by {
        let x = a[i];
        let y = b[i];
        assert((x ^ y) ^ y == x) by (bit_vector);
    }
    assert(xor_bytes(xor_bytes(a, b), b) =~= a);
}

/// The block of `data` at `at`, combined with `other`.
fn xored_block(data: &[u8], at: usize, other: &[u8; 16]) -> (r: [u8; 16])
    requires
        at + 16 <= data@.len(),
    ensures
        r@ == xor_bytes(data@.subrange(at as int, at + 16), other@),
{
    let mut r: [u8; 16] = [0u8; 16];
    let mut i: usize = 0;
    let total = data.len();
    while i < 16
        invariant
            i <= 16,
            at + 16 <= total,
            total == data@.len(),
            forall|j: int| 0 <= j < i ==> r@[j] == data@[at + j] ^ other@[j],
        decreases 16 - i,
    {
        r[i] = data[at + i] ^ other[i];
        i += 1;
    }
    assert(r@ =~= xor_bytes(data@.subrange(at as int, at + 16), other@));
    r
}

/// `N` bytes of `data` from `at` on.
pub(crate) fn array_at<const N: usize>(data: &[u8], at: usize) -> (r: [u8; N])
    requires
        at + N <= data@.len(),
    ensures
        r@ == data@.subrange(at as int, at + N),
{
    let mut r: [u8; N] = [0u8; N];
    let mut i: usize = 0;
    let total = data.len();
    while i < N
        invariant
            i <= N,
            at + N <= total,
            total == data@.len(),
            forall|j: int| 0 <= j < i ==> r@[j] == data@[at + j],
        decreases N - i,
    {
        r[i] = data[at + i];
        i += 1;
    }
    assert(r@ =~= data@.subrange(at as int, at + N));
    r
}

fn store_block(data: &mut [u8], at: usize, block: &[u8; 16])
    requires
        at + 16 <= old(data)@.len(),
    ensures
        final(data)@ == old(data)@.take(at as int) + block@ + old(data)@.skip(at + 16),
{
    let ghost before = data@;
    let mut i: usize = 0;
    let total = data.len();
    while i < 16
        invariant
            i <= 16,
            at + 16 <= total,
            total == data@.len(),
            data@.len() == before.len(),
            forall|j: int| 0 <= j < i ==> data@[at + j] == block@[j],
            forall|j: int|
                0 <= j < before.len() && !(at <= j < at + i) ==> data@[j] == before[j],
        decreases 16 - i,
    {
        data[at + i] = block[i];
        i += 1;
    }
    proof {
        let want = before.take(at as int) + block@ + before.skip(at + 16);
        assert forall|j: int| 0 <= j < before.len() implies data@[j] == want[j] by {
            if at <= j < at + 16 {
                let k = j - at;
                assert(data@[at + k] == block@[k]);
            }
        }
        assert(data@ =~= want);
    }
}

/// An AES key.
enum CipherKey {
    Short([u8; 16]),
    Long([u8; 32]),
}

impl View for CipherKey {
    type V = Seq<u8>;

    closed spec fn view(&self) -> Seq<u8> {
        match self {
            CipherKey::Short(k) => k@,
            CipherKey::Long(k) => k@,
        }
    }
}

impl CipherKey {
    fn encrypt_block(&self, block: &[u8; 16]) -> (r: [u8; 16])
        ensures
            r@ == block_encrypted(self@, block@),
            block_decrypted(self@, r@) == block@,
    {
        match self {
            CipherKey::Short(k) => aes128_encrypt_block(k, block),
            CipherKey::Long(k) => aes256_encrypt_block(k, block),
        }
    }

    fn decrypt_block(&self, block: &[u8; 16]) -> (r: [u8; 16])
        ensures
            r@ == block_decrypted(self@, block@),
    {
        match self {
            CipherKey::Short(k) => aes128_decrypt_block(k, block),
            CipherKey::Long(k) => aes256_decrypt_block(k, block),
        }
    }
}

/// CBC state, whose vector advances block by block. Padding is the caller's.
struct AesCbc {
    key: CipherKey,
    iv: [u8; 16],
}

impl AesCbc {
    fn new(key: &[u8; 32], iv: &[u8; 16]) -> (r: AesCbc)
        ensures
            r.key@ == key@,
            r.iv@ == iv@,
    {
        AesCbc { key: CipherKey::Long(*key), iv: *iv }
    }

    fn new_short(key: &[u8; 16], iv: &[u8; 16]) -> (r: AesCbc)
        ensures
            r.key@ == key@,
            r.iv@ == iv@,
    {
        AesCbc { key: CipherKey::Short(*key), iv: *iv }
    }

    fn encrypt_in_place(&mut self, data: &mut [u8]) -> (r: RarResult<()>)
        ensures
            final(self).key == old(self).key,
            old(data)@.len() % 16 != 0 ==> {
                &&& r is Err
                &&& is_format(
                    r->Err_0,
                    "plaintext length "@ + decimal(old(data)@.len()) + " is not a multiple of 16"@,
                )
                &&& final(data)@ == old(data)@
                &&& final(self).iv == old(self).iv
            },
            old(data)@.len() % 16 == 0 ==> {
                &&& r is Ok
                &&& final(data)@ == cbc_encrypted(old(self).key@, old(self).iv@, old(data)@)
                &&& final(data)@.len() == old(data)@.len()
                &&& final(self).iv@ == cbc_next_iv(old(self).key@, old(self).iv@, old(data)@)
                &&& cbc_decrypted(old(self).key@, old(self).iv@, final(data)@) == old(data)@
                &&& prefixes_decrypt(old(self).key@, old(self).iv@, final(data)@, old(data)@)
                &&& blocks_whole(old(self).key@, old(self).iv@, old(data)@)
            },
    {
        let n = data.len();
        if n % 16 != 0 {
            let text = with_number("plaintext length ", n as u64, " is not a multiple of 16");
            return Err(RarError::Format(text));
        }
        let ghost key = self.key@;
        let ghost iv = self.iv@;
        let ghost input = data@;
        let mut at: usize = 0;
        proof {
            assert(input.skip(0) =~= input);
            assert(data@.take(0) =~= Seq::<u8>::empty());
            assert(data@.take(0) + cbc_encrypted(key, iv, input.skip(0)) =~= cbc_encrypted(
                key,
                iv,
                input,
            ));
            assert forall|k: int|
                0 <= k <= 0 && k % 16 == 0 implies #[trigger] cbc_decrypted(
                key,
                iv,
                data@.take(0).take(k),
            ) == input.take(0).take(k) by {
                assert(data@.take(0).take(k) =~= Seq::<u8>::empty());
                assert(input.take(0).take(k) =~= Seq::<u8>::empty());
            }
            assert forall|t: Seq<u8>|
                #![trigger cbc_decrypted(key, iv, data@.take(0) + t)]
                cbc_decrypted(key, iv, data@.take(0) + t) == input.take(0) + cbc_decrypted(
                    key,
                    self.iv@,
                    t,
                ) by {
                assert(data@.take(0) + t =~= t);
                assert(input.take(0) + cbc_decrypted(key, iv, t) =~= cbc_decrypted(key, iv, t));
            }
        }
        while at < n
            invariant
                at <= n,
                at % 16 == 0,
                n % 16 == 0,
                n == data@.len(),
                n == input.len(),
                self.key == old(self).key,
                key == self.key@,
                data@.skip(at as int) == input.skip(at as int),
                data@.take(at as int) + cbc_encrypted(key, self.iv@, input.skip(at as int))
                    == cbc_encrypted(key, iv, input),
                cbc_next_iv(key, iv, input) == cbc_next_iv(key, self.iv@, input.skip(at as int)),
                prefixes_decrypt(key, iv, data@.take(at as int), input.take(at as int)),
                blocks_whole(key, self.iv@, input.skip(at as int)) ==> blocks_whole(key, iv, input),
                forall|t: Seq<u8>|
                    #![trigger cbc_decrypted(key, iv, data@.take(at as int) + t)]
                    cbc_decrypted(key, iv, data@.take(at as int) + t) == input.take(at as int)
                        + cbc_decrypted(key, self.iv@, t),
            decreases n - at,
        {
            let mixed = xored_block(data, at, &self.iv);
            let block = self.key.encrypt_block(&mixed);
            let ghost before = data@;
            let ghost chain = self.iv@;
            store_block(data, at, &block);
            self.iv = block;
            proof {
                let plain = input.skip(at as int).take(16);
                let rest = input.skip(at + 16);
                assert(before.subrange(at as int, at + 16) =~= before.skip(at as int).take(16));
                assert(input.skip(at as int).skip(16) =~= rest);
                assert(data@.skip(at + 16) =~= before.skip(at as int).skip(16));
                assert(data@.take(at + 16) =~= before.take(at as int) + block@);
                assert(data@.take(at + 16) + cbc_encrypted(key, block@, rest) =~= before.take(
                    at as int,
                ) + cbc_encrypted(key, chain, input.skip(at as int)));
                lemma_xor_twice(plain, chain);
                assert forall|t: Seq<u8>|
                    #![trigger cbc_decrypted(key, iv, data@.take(at + 16) + t)]
                    cbc_decrypted(key, iv, data@.take(at + 16) + t) == input.take(at + 16)
                        + cbc_decrypted(key, block@, t) by {
                    let u = block@ + t;
                    assert(data@.take(at + 16) + t =~= before.take(at as int) + u);
                    assert(u.take(16) =~= block@);
                    assert(u.skip(16) =~= t);
                    assert(cbc_decrypted(key, chain, u) == plain + cbc_decrypted(key, block@, t));
                    assert(input.take(at + 16) =~= input.take(at as int) + plain);
                    assert(input.take(at as int) + (plain + cbc_decrypted(key, block@, t))
                        =~= input.take(at + 16) + cbc_decrypted(key, block@, t));
                }
                let none = Seq::<u8>::empty();
                assert(data@.take(at + 16) + none =~= data@.take(at + 16));
                assert(input.take(at + 16) + cbc_decrypted(key, block@, none) =~= input.take(
                    at + 16,
                ));
                assert forall|k: int|
                    0 <= k <= at + 16 && k % 16 == 0 implies #[trigger] cbc_decrypted(
                    key,
                    iv,
                    data@.take(at + 16).take(k),
                ) == input.take(at + 16).take(k) by {
                    if k <= at {
                        assert(data@.take(at + 16).take(k) =~= before.take(at as int).take(k));
                        assert(input.take(at + 16).take(k) =~= input.take(at as int).take(k));
                    } else {
                        assert(k == at + 16);
                        assert(data@.take(at + 16).take(k) =~= data@.take(at + 16));
                        assert(input.take(at + 16).take(k) =~= input.take(at + 16));
                    }
                }
            }
            at += 16;
        }
        proof {
            assert(input.skip(at as int) =~= Seq::<u8>::empty());
            assert(data@.take(at as int) + cbc_encrypted(key, self.iv@, input.skip(at as int))
                =~= data@);
            let t = Seq::<u8>::empty();
            assert(data@.take(at as int) =~= data@);
            assert(input.take(at as int) =~= input);
            assert(data@.take(at as int) + t =~= data@);
            assert(input.take(at as int) + cbc_decrypted(key, self.iv@, t) =~= input);
        }
        Ok(())
    }

    fn decrypt_in_place(&mut self, data: &mut [u8]) -> (r: RarResult<()>)
        ensures
            old(data)@.len() % 16 != 0 ==> {
                &&& r is Err
                &&& is_format(
                    r->Err_0,
                    "ciphertext length "@ + decimal(old(data)@.len()) + " is not a multiple of 16"@,
                )
                &&& final(data)@ == old(data)@
            },
            old(data)@.len() % 16 == 0 ==> r is Ok && final(data)@ == cbc_decrypted(
                old(self).key@,
                old(self).iv@,
                old(data)@,
            ) && final(data)@.len() == old(data)@.len(),
    {
        let n = data.len();
        if n % 16 != 0 {
            let text = with_number("ciphertext length ", n as u64, " is not a multiple of 16");
            return Err(RarError::Format(text));
        }
        let ghost key = self.key@;
        let ghost iv = self.iv@;
        let ghost input = data@;
        let mut at: usize = 0;
        proof {
            assert(input.skip(0) =~= input);
            assert(data@.take(0) + cbc_decrypted(key, iv, input) =~= cbc_decrypted(key, iv, input));
        }
        while at < n
            invariant
                at <= n,
                at % 16 == 0,
                n % 16 == 0,
                n == data@.len(),
                n == input.len(),
                key == self.key@,
                data@.skip(at as int) == input.skip(at as int),
                data@.take(at as int) + cbc_decrypted(key, self.iv@, input.skip(at as int))
                    == cbc_decrypted(key, iv, input),
            decreases n - at,
        {
            let block: [u8; 16] = array_at(data, at);
            let plain = self.key.decrypt_block(&block);
            let ghost before = data@;
            let ghost chain = self.iv@;
            let mixed = xored_block(plain.as_slice(), 0, &self.iv);
            store_block(data, at, &mixed);
            self.iv = block;
            proof {
                let rest = input.skip(at + 16);
                assert(block@ =~= input.skip(at as int).take(16)) by {
                    assert(before.subrange(at as int, at + 16) =~= before.skip(at as int).take(16));
                }
                assert(plain@.subrange(0, 16) =~= plain@);
                assert(input.skip(at as int).skip(16) =~= rest);
                assert(data@.skip(at + 16) =~= before.skip(at as int).skip(16));
                assert(data@.take(at + 16) =~= before.take(at as int) + mixed@);
                assert(data@.take(at + 16) + cbc_decrypted(key, block@, rest) =~= before.take(
                    at as int,
                ) + cbc_decrypted(key, chain, input.skip(at as int)));
            }
            at += 16;
        }
        proof {
            assert(data@.take(at as int) + cbc_decrypted(key, self.iv@, input.skip(at as int))
                =~= data@);
        }
        Ok(())
    }
}

/// Length of `plain_len` bytes padded to a 16-byte AES block boundary, one
/// block at least.
pub fn zero_padded_len(plain_len: u64) -> (r: u64)
    requires
        plain_len <= u64::MAX - 15,
    ensures
        r as nat == spec_zero_padded_len(plain_len as nat),
        r >= plain_len,
        r % 16 == 0,
{
    if plain_len == 0 {
        16
    } else {
        ((plain_len + 15) / 16) * 16
    }
}

/// Encrypt `plaintext` with AES-256-CBC and zero-fill padding. Decrypting the
/// result gives the padded plaintext back.
pub fn encrypt_data(plaintext: &[u8], key: &[u8; 32], iv: &[u8; 16]) -> (r: Vec<u8>)
    requires
        plaintext@.len() <= usize::MAX - 15,
    ensures
        r@ == cbc_encrypted(key@, iv@, zero_padded(plaintext@)),
        r@.len() == spec_zero_padded_len(plaintext@.len()),
        cbc_decrypted(key@, iv@, r@) == zero_padded(plaintext@),
{
    let padded = zero_padded_len(plaintext.len() as u64) as usize;
    let mut buf: Vec<u8> = Vec::new();
    buf.extend_from_slice(plaintext);
    while buf.len() < padded
        invariant
            plaintext@.len() <= buf@.len() <= padded,
            padded == spec_zero_padded_len(plaintext@.len()),
            buf@ =~= plaintext@ + Seq::new((buf@.len() - plaintext@.len()) as nat, |i: int| 0u8),
        decreases padded - buf.len(),
    {
        buf.push(0);
    }
    assert(buf@ =~= zero_padded(plaintext@));
    let mut cipher = AesCbc::new(key, iv);
    let _done = cipher.encrypt_in_place(&mut buf);
    buf
}

/// Streaming AES-256-CBC encryptor for one member.
///
/// The chain carries across calls, so a member's ciphertext can be produced
/// in bounded chunks. The padding of the final block is the caller's.
pub struct Aes256CbcStream {
    inner: AesCbc,
}

impl Aes256CbcStream {
    /// The key.
    pub closed spec fn key(&self) -> Seq<u8> {
        self.inner.key@
    }

    /// The vector that the next block is chained to.
    pub closed spec fn iv(&self) -> Seq<u8> {
        self.inner.iv@
    }

    /// A stream that starts at `iv`.
    pub fn new(key: &[u8; 32], iv: &[u8; 16]) -> (r: Aes256CbcStream)
        ensures
            r.key() == key@,
            r.iv() == iv@,
    {
        Aes256CbcStream { inner: AesCbc::new(key, iv) }
    }

    /// Encrypt `data` in place and advance the chain. Only whole blocks are
    /// accepted.
    pub fn encrypt_in_place(&mut self, data: &mut [u8]) -> (r: RarResult<()>)
        ensures
            final(self).key() == old(self).key(),
            old(data)@.len() % 16 != 0 ==> {
                &&& r is Err
                &&& is_format(
                    r->Err_0,
                    "plaintext length "@ + decimal(old(data)@.len()) + " is not a multiple of 16"@,
                )
                &&& final(data)@ == old(data)@
                &&& final(self).iv() == old(self).iv()
            },
            old(data)@.len() % 16 == 0 ==> {
                &&& r is Ok
                &&& final(data)@ == cbc_encrypted(old(self).key(), old(self).iv(), old(data)@)
                &&& final(data)@.len() == old(data)@.len()
                &&& final(self).iv() == cbc_next_iv(old(self).key(), old(self).iv(), old(data)@)
                &&& cbc_decrypted(old(self).key(), old(self).iv(), final(data)@) == old(data)@
            },
    {
        self.inner.encrypt_in_place(data)
    }
}

/// Decrypt AES-256-CBC ciphertext, padding included; the caller cuts it to
/// the known unpacked size.
pub fn decrypt_data(ciphertext: &[u8], key: &[u8; 32], iv: &[u8; 16]) -> (r: RarResult<Vec<u8>>)
    ensures
        ciphertext@.len() % 16 != 0 ==> r is Err && is_format(
            r->Err_0,
            "ciphertext length "@ + decimal(ciphertext@.len()) + " is not a multiple of 16"@,
        ),
        ciphertext@.len() % 16 == 0 ==> r is Ok && r->Ok_0@ == cbc_decrypted(
            key@,
            iv@,
            ciphertext@,
        ) && r->Ok_0@.len() == ciphertext@.len(),
{
    let mut buf: Vec<u8> = Vec::new();
    buf.extend_from_slice(ciphertext);
    assert(buf@ =~= ciphertext@);
    let mut cipher = AesCbc::new(key, iv);
    match cipher.decrypt_in_place(&mut buf) {
        Ok(_) => Ok(buf),
        Err(e) => Err(e),
    }
}

/// AES-128-CBC over whole blocks, in place.
pub fn encrypt_blocks_128(data: &mut Vec<u8>, key: &[u8; 16], iv: &[u8; 16])
    requires
        old(data)@.len() % 16 == 0,
    ensures
        final(data)@ == cbc_encrypted(key@, iv@, old(data)@),
        final(data)@.len() == old(data)@.len(),
        cbc_decrypted(key@, iv@, final(data)@) == old(data)@,
        prefixes_decrypt(key@, iv@, final(data)@, old(data)@),
        blocks_whole(key@, iv@, old(data)@),
{
    let mut cipher = AesCbc::new_short(key, iv);
    let _done = cipher.encrypt_in_place(data);
}

/// AES-128-CBC decryption of whole blocks, in place.
pub fn decrypt_blocks_128(data: &mut Vec<u8>, key: &[u8; 16], iv: &[u8; 16])
    requires
        old(data)@.len() % 16 == 0,
    ensures
        final(data)@ == cbc_decrypted(key@, iv@, old(data)@),
        final(data)@.len() == old(data)@.len(),
{
    let mut cipher = AesCbc::new_short(key, iv);
    let _done = cipher.decrypt_in_place(data);
}

} // verus!
