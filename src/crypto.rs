//! Authenticated encryption of short secrets (access tokens sealed into
//! cookies): AES-256 in counter mode with a GHASH-style tag.
//!
//! A sealed message is the 12-byte nonce, then the ciphertext, then the
//! 16-byte tag, big-endian. Block numbers are 128-bit integers; the counter
//! lives in their low 32 bits.
use aes::cipher::{BlockEncrypt, KeyInit};
use base64::Engine;
use rand::TryRngCore;
use vstd::prelude::*;

verus! {

/// What AES-256 makes of `block` under `key`.
pub uninterp spec fn aes256_block(key: Seq<u8>, block: u128) -> u128;

/// The standard Base64 text of `bytes`.
pub uninterp spec fn base64_of(bytes: Seq<u8>) -> Seq<char>;

/// Relies on the aes crate: `Aes256::encrypt_block` on one 16-byte block
/// (big-endian) under a 32-byte key; the result depends on the two alone.
#[verifier::external_body]
fn aes_encrypt_block(key: &[u8; 32], block: u128) -> (r: u128)
    ensures
        r == aes256_block(key@, block),
{
    let cipher = aes::Aes256::new(aes::cipher::generic_array::GenericArray::from_slice(key));
    let mut bytes = aes::cipher::generic_array::GenericArray::clone_from_slice(&block.to_be_bytes());
    cipher.encrypt_block(&mut bytes);
    u128::from_be_bytes(bytes.into())
}

/// Relies on rand's `OsRng::try_fill_bytes`: `n` bytes from the operating
/// system's random source, or `None` when the source fails. Nothing is known
/// of the bytes but their number.
#[verifier::external_body]
pub(crate) fn random_bytes(n: usize) -> (r: Option<Vec<u8>>)
    ensures
        r matches Some(v) ==> v@.len() == n,
{
    let mut bytes = vec![0u8; n];
    match rand::rngs::OsRng.try_fill_bytes(&mut bytes) {
        Ok(()) => Some(bytes),
        Err(_) => None,
    }
}

/// Twelve random bytes for a nonce, or `None` when the source fails.
fn random_nonce() -> (r: Option<[u8; 12]>) {
    match random_bytes(12) {
        None => None,
        Some(v) => Some([v[0], v[1], v[2], v[3], v[4], v[5], v[6], v[7], v[8], v[9], v[10], v[11]]),
    }
}

/// Relies on base64's `STANDARD` engine `encode`: the padded standard Base64
/// text of the bytes.
#[verifier::external_body]
fn base64_encode(bytes: &Vec<u8>) -> (r: String)
    ensures
        r@ == base64_of(bytes@),
{
    base64::engine::general_purpose::STANDARD.encode(bytes)
}

#[derive(Clone, Copy, Debug, PartialEq, Eq)]
pub enum DecryptError {
    /// The tag does not match the ciphertext.
    InvalidTag,
    /// Too short to hold a nonce and a tag.
    InvalidMessage,
}

/// AES-256 sealing under one key.
pub struct Aes256Gcm {
    key: [u8; 32],
}

pub const NONCE_LEN: usize = 12;

pub const TAG_LEN: usize = 16;

// ----- blocks -----

/// Adds one to the low 32 bits of a block, wrapping, and keeps the rest.
pub open spec fn inc32(b: u128) -> u128 {
    (b & !0xFFFF_FFFFu128) | ((((b & 0xFFFF_FFFFu128) as u32) as u64 + 1) % 0x1_0000_0000) as u128
}

/// `inc32` applied `n` times.
pub open spec fn inc32_n(b: u128, n: nat) -> u128
    decreases n,
{
    if n == 0 {
        b
    } else {
        inc32(inc32_n(b, (n - 1) as nat))
    }
}

/// The block whose big-endian bytes start with `s` (at most 16 bytes), the
/// rest being zero.
pub open spec fn be_fold(s: Seq<u8>) -> u128
    decreases s.len(),
{
    if s.len() == 0 {
        0
    } else {
        (be_fold(s.drop_last()) << 8u128) | (s.last() as u128)
    }
}

pub open spec fn zeros(n: nat) -> Seq<u8> {
    Seq::new(n, |i: int| 0u8)
}

/// The block of a chunk of at most 16 bytes, padded with zero bytes.
pub open spec fn block_of(chunk: Seq<u8>) -> u128 {
    be_fold(chunk + zeros((16 - chunk.len()) as nat))
}

/// Byte `i` (0 to 15) of a block, big-endian.
pub open spec fn be_byte(v: u128, i: int) -> u8 {
    ((v >> (8 * (15 - i)) as u128) & 0xFFu128) as u8
}

pub open spec fn be_bytes(v: u128) -> Seq<u8> {
    Seq::new(16, |i: int| be_byte(v, i))
}

/// The first block of a message under `nonce`: the nonce, then a counter of 1.
pub open spec fn pre_counter_block(nonce: Seq<u8>) -> u128 {
    be_fold(nonce + seq![0u8, 0u8, 0u8, 1u8])
}

// ----- multiplication in GF(2^128) -----

pub open spec fn gf_step(a: u128, b: u128, res: u128) -> (u128, u128, u128) {
    let res2 = if b & 1 != 0 {
        res ^ a
    } else {
        res
    };
    let carry = (a >> 127u128) & 1;
    let shifted = a << 1u128;
    let a2 = if carry != 0 {
        shifted ^ 0x87
    } else {
        shifted
    };
    (a2, b >> 1u128, res2)
}

pub open spec fn gf_rounds(a: u128, b: u128, res: u128, n: nat) -> u128
    decreases n,
{
    if n == 0 {
        res
    } else {
        let (a2, b2, r2) = gf_step(a, b, res);
        gf_rounds(a2, b2, r2, (n - 1) as nat)
    }
}

/// Shift-and-add multiplication over 128 rounds, reducing by 0x87.
pub open spec fn gf_mul(a: u128, b: u128) -> u128 {
    gf_rounds(a, b, 0, 128)
}

/// Folds the 16-byte chunks of `data` into `x`, multiplying by `h` after each.
pub open spec fn ghash_blocks(h: u128, data: Seq<u8>, x: u128) -> u128
    decreases data.len(),
{
    if data.len() == 0 {
        x
    } else if data.len() <= 16 {
        gf_mul(x ^ block_of(data), h)
    } else {
        ghash_blocks(h, data.skip(16), gf_mul(x ^ block_of(data.take(16)), h))
    }
}

/// The hash of `data` under hash key `h`; its length closes it.
pub open spec fn ghash_spec(h: u128, data: Seq<u8>) -> u128 {
    gf_mul(ghash_blocks(h, data, 0) ^ (data.len() as u128), h)
}

/// Counter-mode encryption: byte `i` is masked by byte `i % 16` of the
/// encryption of the counter block advanced `i / 16 + 1` times.
pub open spec fn gctr_spec(key: Seq<u8>, counter: u128, p: Seq<u8>) -> Seq<u8> {
    Seq::new(
        p.len(),
        |i: int| p[i] ^ be_byte(aes256_block(key, inc32_n(counter, (i / 16 + 1) as nat)), i % 16),
    )
}

/// The tag of a ciphertext under `nonce`.
pub open spec fn tag_spec(key: Seq<u8>, nonce: Seq<u8>, ciphertext: Seq<u8>) -> u128 {
    ghash_spec(aes256_block(key, 0), ciphertext) ^ aes256_block(key, pre_counter_block(nonce))
}

/// The ciphertext of `p` under `nonce`.
pub open spec fn cipher_spec(key: Seq<u8>, nonce: Seq<u8>, p: Seq<u8>) -> Seq<u8> {
    gctr_spec(key, inc32(pre_counter_block(nonce)), p)
}

/// The sealed form of `p` under `nonce`: nonce, ciphertext, tag.
pub open spec fn sealed(key: Seq<u8>, nonce: Seq<u8>, p: Seq<u8>) -> Seq<u8> {
    let c = cipher_spec(key, nonce, p);
    nonce + c + be_bytes(tag_spec(key, nonce, c))
}

/// What opening `v` gives: the plaintext, or why it cannot be opened.
pub open spec fn open_spec(key: Seq<u8>, v: Seq<u8>) -> Result<Seq<u8>, DecryptError> {
    if v.len() < 28 {
        Err(DecryptError::InvalidMessage)
    } else {
        let nonce = v.take(12);
        let c = v.subrange(12, v.len() - 16);
        let tag = be_fold(v.skip(v.len() - 16));
        if tag_spec(key, nonce, c) != tag {
            Err(DecryptError::InvalidTag)
        } else {
            Ok(gctr_spec(key, inc32(pre_counter_block(nonce)), c))
        }
    }
}

// ----- executable pieces -----

fn next_counter(block: u128) -> (r: u128)
    ensures
        r == inc32(block),
{
    let low: u64 = ((block & 0xFFFF_FFFFu128) as u32) as u64 + 1;
    (block & !0xFFFF_FFFFu128) | (low % 0x1_0000_0000) as u128
}

fn gf_multiply(a0: u128, b0: u128) -> (r: u128)
    ensures
        r == gf_mul(a0, b0),
{
    let mut a = a0;
    let mut b = b0;
    let mut result: u128 = 0;
    let mut i: u32 = 0;
    while i < 128
        invariant
            i <= 128,
            gf_rounds(a, b, result, (128 - i) as nat) == gf_mul(a0, b0),
        decreases 128 - i,
    {
        if (b & 1) != 0 {
            result = result ^ a;
        }
        let carry = (a >> 127u128) & 1;
        a = a << 1u128;
        if carry != 0 {
            a = a ^ 0x87;
        }
        b = b >> 1u128;
        i = i + 1;
    }
    result
}

/// The block of `data[start..start + len]`, padded with zero bytes.
fn block_from(data: &[u8], start: usize, len: usize) -> (r: u128)
    requires
        len <= 16,
        start + len <= data@.len(),
    ensures
        r == block_of(data@.subrange(start as int, start + len)),
{
    let ghost padded = data@.subrange(start as int, start + len) + zeros((16 - len) as nat);
    let total = data.len();
    let mut acc: u128 = 0;
    let mut i: usize = 0;
    assert(padded.take(0) =~= Seq::<u8>::empty());
    while i < 16
        invariant
            i <= 16,
            len <= 16,
            start + len <= data@.len(),
            total == data@.len(),
            padded == data@.subrange(start as int, start + len) + zeros((16 - len) as nat),
            acc == be_fold(padded.take(i as int)),
        decreases 16 - i,
    {
        let byte: u8 = if i < len {
            data[start + i]
        } else {
            0
        };
        assert(padded[i as int] == byte);
        assert(padded.take(i + 1).drop_last() =~= padded.take(i as int));
        acc = (acc << 8u128) | (byte as u128);
        i = i + 1;
    }
    assert(padded.take(16) =~= padded);
    acc
}

fn be_byte_of(v: u128, i: u32) -> (r: u8)
    requires
        i < 16,
    ensures
        r == be_byte(v, i as int),
{
    ((v >> (8 * (15 - i)) as u128) & 0xFFu128) as u8
}

proof fn lemma_chunk_index(pos: int, k: int, j: int)
    requires
        pos == 16 * k,
        0 <= k,
        pos <= j < pos + 16,
    ensures
        j / 16 == k,
        j % 16 == j - pos,
{
    assert(j / 16 == k && j % 16 == j - pos) by (nonlinear_arith)
        requires
            pos == 16 * k,
            0 <= k,
            pos <= j < pos + 16,
    ;
}

impl Aes256Gcm {
    pub fn new(key: [u8; 32]) -> (r: Self)
        ensures
            r.key() == key@,
    {
        Aes256Gcm { key }
    }

    pub closed spec fn key(&self) -> Seq<u8> {
        self.key@
    }

    fn gctr(&self, counter0: u128, p: &[u8]) -> (r: Vec<u8>)
        ensures
            r@ == gctr_spec(self.key(), counter0, p@),
    {
        let ghost g = gctr_spec(self.key@, counter0, p@);
        let mut out: Vec<u8> = Vec::new();
        let mut counter = counter0;
        let mut pos: usize = 0;
        let mut k: usize = 0;
        while pos < p.len()
            invariant
                pos <= p@.len(),
                g == gctr_spec(self.key@, counter0, p@),
                pos < p@.len() ==> pos == 16 * k,
                counter == inc32_n(counter0, k as nat),
                out@ == g.take(pos as int),
            decreases p@.len() - pos,
        {
            counter = next_counter(counter);
            let stream = aes_encrypt_block(&self.key, counter);
            let end = if p.len() - pos < 16 {
                p.len()
            } else {
                pos + 16
            };
            let mut j = pos;
            while j < end
                invariant
                    pos <= j <= end <= p@.len(),
                    end <= pos + 16,
                    pos == 16 * k,
                    g == gctr_spec(self.key@, counter0, p@),
                    counter == inc32_n(counter0, (k + 1) as nat),
                    stream == aes256_block(self.key@, counter),
                    out@ == g.take(j as int),
                decreases end - j,
            {
                proof {
                    lemma_chunk_index(pos as int, k as int, j as int);
                }
                let m = be_byte_of(stream, (j - pos) as u32);
                out.push(p[j] ^ m);
                assert(out@ =~= g.take(j + 1));
                j = j + 1;
            }
            pos = end;
            k = k + 1;
        }
        assert(g.take(p@.len() as int) =~= g);
        out
    }

    fn ghash(&self, data: &[u8]) -> (r: u128)
        ensures
            r == ghash_spec(aes256_block(self.key(), 0), data@),
    {
        let h = aes_encrypt_block(&self.key, 0);
        let mut x: u128 = 0;
        let mut pos: usize = 0;
        assert(data@.skip(0) =~= data@);
        while pos < data.len()
            invariant
                pos <= data@.len(),
                h == aes256_block(self.key@, 0),
                ghash_blocks(h, data@, 0) == ghash_blocks(h, data@.skip(pos as int), x),
            decreases data@.len() - pos,
        {
            let n = if data.len() - pos < 16 {
                data.len() - pos
            } else {
                16
            };
            let b = block_from(data, pos, n);
            proof {
                let rest = data@.skip(pos as int);
                if rest.len() <= 16 {
                    assert(rest =~= data@.subrange(pos as int, pos + n));
                    assert(data@.skip(pos + n) =~= Seq::<u8>::empty());
                } else {
                    assert(rest.take(16) =~= data@.subrange(pos as int, pos + n));
                    assert(rest.skip(16) =~= data@.skip(pos + n));
                }
            }
            x = gf_multiply(x ^ b, h);
            pos = pos + n;
        }
        gf_multiply(x ^ (data.len() as u128), h)
    }

    /// Seals `plaintext` under the given nonce.
    pub fn encrypt_with_nonce(&self, nonce: &[u8; 12], plaintext: &[u8]) -> (r: Vec<u8>)
        ensures
            r@ == sealed(self.key(), nonce@, plaintext@),
    {
        let mut first: Vec<u8> = Vec::new();
        let mut i: usize = 0;
        while i < 12
            invariant
                i <= 12,
                first@ == nonce@.take(i as int),
            decreases 12 - i,
        {
            first.push(nonce[i]);
            assert(first@ =~= nonce@.take(i + 1));
            i = i + 1;
        }
        first.push(0);
        first.push(0);
        first.push(0);
        first.push(1);
        let j0 = block_from(first.as_slice(), 0, 16);
        proof {
            assert(nonce@.take(12) =~= nonce@);
            assert(first@.subrange(0, 16) + zeros(0) =~= nonce@ + seq![0u8, 0u8, 0u8, 1u8]);
        }
        let ciphertext = self.gctr(next_counter(j0), plaintext);
        let tag = self.ghash(ciphertext.as_slice()) ^ aes_encrypt_block(&self.key, j0);
        let mut out: Vec<u8> = Vec::new();
        let mut i: usize = 0;
        while i < 12
            invariant
                i <= 12,
                out@ == nonce@.take(i as int),
            decreases 12 - i,
        {
            out.push(nonce[i]);
            assert(out@ =~= nonce@.take(i + 1));
            i = i + 1;
        }
        let ghost head = out@;
        let mut i: usize = 0;
        while i < ciphertext.len()
            invariant
                i <= ciphertext@.len(),
                out@ == head + ciphertext@.take(i as int),
            decreases ciphertext@.len() - i,
        {
            out.push(ciphertext[i]);
            assert(out@ =~= head + ciphertext@.take(i + 1));
            i = i + 1;
        }
        let ghost body = out@;
        let mut i: u32 = 0;
        while i < 16
            invariant
                i <= 16,
                out@ == body + be_bytes(tag).take(i as int),
            decreases 16 - i,
        {
            out.push(be_byte_of(tag, i));
            assert(out@ =~= body + be_bytes(tag).take(i + 1));
            i = i + 1;
        }
        assert(out@ =~= sealed(self.key@, nonce@, plaintext@));
        out
    }

    /// Seals `plaintext` under a fresh random nonce; `None` when no random
    /// nonce could be had.
    pub fn encrypt(&self, plaintext: &[u8]) -> (r: Option<Vec<u8>>)
        ensures
            r matches Some(v) ==> exists|nonce: Seq<u8>|
                nonce.len() == 12 && v@ == sealed(self.key(), nonce, plaintext@),
    {
        match random_nonce() {
            None => None,
            Some(nonce) => {
                let v = self.encrypt_with_nonce(&nonce, plaintext);
                assert(nonce@.len() == 12);
                Some(v)
            },
        }
    }

    /// The Base64 text of a fresh sealing of `plaintext`.
    pub fn encrypt_base64(&self, plaintext: &[u8]) -> (r: Option<String>)
        ensures
            r matches Some(s) ==> exists|nonce: Seq<u8>|
                nonce.len() == 12 && s@ == base64_of(sealed(self.key(), nonce, plaintext@)),
    {
        match self.encrypt(plaintext) {
            None => None,
            Some(v) => Some(base64_encode(&v)),
        }
    }

    /// Opens a sealed message: checks its tag, then gives the plaintext.
    pub fn decrypt(&self, value: &[u8]) -> (r: Result<Vec<u8>, DecryptError>)
        ensures
            match open_spec(self.key(), value@) {
                Ok(p) => r matches Ok(v) && v@ == p,
                Err(e) => r == Err::<Vec<u8>, DecryptError>(e),
            },
    {
        if value.len() < NONCE_LEN + TAG_LEN {
            return Err(DecryptError::InvalidMessage);
        }
        let len = value.len();
        let mut first: Vec<u8> = Vec::new();
        let mut i: usize = 0;
        while i < 12
            invariant
                i <= 12,
                len == value@.len(),
                len >= 28,
                first@ == value@.take(i as int),
            decreases 12 - i,
        {
            first.push(value[i]);
            assert(first@ =~= value@.take(i + 1));
            i = i + 1;
        }
        let ghost nonce = value@.take(12);
        first.push(0);
        first.push(0);
        first.push(0);
        first.push(1);
        let j0 = block_from(first.as_slice(), 0, 16);
        proof {
            assert(first@.subrange(0, 16) + zeros(0) =~= nonce + seq![0u8, 0u8, 0u8, 1u8]);
        }
        let mut ciphertext: Vec<u8> = Vec::new();
        let mut i: usize = 12;
        while i < len - 16
            invariant
                12 <= i <= len - 16,
                len == value@.len(),
                len >= 28,
                ciphertext@ == value@.subrange(12, i as int),
            decreases len - 16 - i,
        {
            ciphertext.push(value[i]);
            assert(ciphertext@ =~= value@.subrange(12, i + 1));
            i = i + 1;
        }
        let tag = block_from(value, len - 16, 16);
        proof {
            assert(value@.subrange(len - 16, len as int) + zeros(0) =~= value@.skip(len - 16));
        }
        let expected = self.ghash(ciphertext.as_slice()) ^ aes_encrypt_block(&self.key, j0);
        if expected != tag {
            return Err(DecryptError::InvalidTag);
        }
        Ok(self.gctr(next_counter(j0), ciphertext.as_slice()))
    }
}

// ----- round trip -----

proof fn lemma_be_fold_prefix(t: u128, k: nat)
    requires
        k <= 16,
    ensures
        be_fold(be_bytes(t).take(k as int)) == (if k == 0 {
            0u128
        } else {
            t >> (8 * (16 - k)) as u128
        }),
    decreases k,
{
    let s = be_bytes(t).take(k as int);
    if k > 0 {
        lemma_be_fold_prefix(t, (k - 1) as nat);
        assert(s.drop_last() =~= be_bytes(t).take(k - 1));
        let b = be_byte(t, k - 1);
        let prev = be_fold(s.drop_last());
        let sh = (8 * (16 - k)) as u128;
        if k == 1 {
            assert(((0u128 << 8u128) | (b as u128)) == t >> 120u128) by {
                assert(b == ((t >> 120u128) & 0xFFu128) as u8);
                assert(((0u128 << 8u128) | ((((t >> 120u128) & 0xFFu128) as u8) as u128)) == t
                    >> 120u128) by (bit_vector);
            }
        } else {
            let sh1 = (8 * (16 - (k - 1))) as u128;
            assert(prev == t >> sh1);
            assert(b == ((t >> sh) & 0xFFu128) as u8);
            assert(sh1 == sh + 8 && sh <= 112);
            assert(((t >> (sh + 8)) << 8u128) | ((((t >> sh) & 0xFFu128) as u8) as u128) == t >> sh)
                by (bit_vector)
                requires
                    sh <= 112,
            ;
        }
    }
}

proof fn lemma_gctr_involution(key: Seq<u8>, counter: u128, p: Seq<u8>)
    ensures
        gctr_spec(key, counter, gctr_spec(key, counter, p)) == p,
{
    let c = gctr_spec(key, counter, p);
    let q = gctr_spec(key, counter, c);
    assert forall|i: int| 0 <= i < p.len() implies q[i] == p[i] by {
        let m = be_byte(aes256_block(key, inc32_n(counter, (i / 16 + 1) as nat)), i % 16);
        let x = p[i];
        assert((x ^ m) ^ m == x) by (bit_vector);
    }
    assert(q =~= p);
}

/// Opening what was sealed under a 12-byte nonce gives the plaintext back.
pub proof fn law_open_sealed(key: Seq<u8>, nonce: Seq<u8>, p: Seq<u8>)
    requires
        nonce.len() == 12,
    ensures
        open_spec(key, sealed(key, nonce, p)) == Ok::<Seq<u8>, DecryptError>(p),
{
    let c = cipher_spec(key, nonce, p);
    let t = tag_spec(key, nonce, c);
    let v = sealed(key, nonce, p);
    assert(v.take(12) =~= nonce);
    assert(v.subrange(12, v.len() - 16) =~= c);
    assert(v.skip(v.len() - 16) =~= be_bytes(t));
    lemma_be_fold_prefix(t, 16);
    assert(be_bytes(t).take(16) =~= be_bytes(t));
    assert(t >> 0u128 == t) by (bit_vector);
    lemma_gctr_involution(key, inc32(pre_counter_block(nonce)), p);
}

} // verus!
