//! The block-cipher pipeline: a 16-byte key derived by hashing a passphrase,
//! PKCS-style byte padding, and AES-128 encryption of 16-byte blocks chained
//! in cipher-block-chaining mode under a caller-supplied initialization
//! vector.
//!
//! The default initialization vector is a fixed process-wide value kept for
//! behavioural compatibility; identical plaintexts under the same passphrase
//! then always produce identical ciphertext prefixes, so callers wanting
//! confidentiality should pass a fresh vector instead.

use vstd::prelude::*;
use vstd::arithmetic::div_mod::{lemma_fundamental_div_mod, lemma_mod_multiples_vanish};
use crate::error::CipherError;
use crate::otp::{lemma_combine_self_inverse, xor_combine};
use aes::Aes128;
use aes::cipher::{Array, BlockCipherDecrypt, BlockCipherEncrypt, KeyInit};
use sha2::{Digest, Sha256};

verus! {

/// What `aes::Aes128` returns when it encrypts `block` under `key`.
pub uninterp spec fn aes128_encrypt_result(key: Seq<u8>, block: Seq<u8>) -> Seq<u8>;

/// What `aes::Aes128` returns when it decrypts `block` under `key`.
pub uninterp spec fn aes128_decrypt_result(key: Seq<u8>, block: Seq<u8>) -> Seq<u8>;

/// What `sha2::Sha256` returns as the digest of `data`.
pub uninterp spec fn sha256_result(data: Seq<u8>) -> Seq<u8>;

/// The AES-128 encryption of a 16-byte block, pinned to 16 bytes.
pub open spec fn aes_enc_block(key: Seq<u8>, block: Seq<u8>) -> Seq<u8> {
    Seq::new(16, |k: int| aes128_encrypt_result(key, block)[k])
}

/// The AES-128 decryption of a 16-byte block, pinned to 16 bytes.
pub open spec fn aes_dec_block(key: Seq<u8>, block: Seq<u8>) -> Seq<u8> {
    Seq::new(16, |k: int| aes128_decrypt_result(key, block)[k])
}

/// The key derived from a passphrase: the first 16 bytes of its SHA-256
/// digest.
pub open spec fn derived_key(passphrase: Seq<u8>) -> Seq<u8> {
    Seq::new(16, |k: int| sha256_result(passphrase)[k])
}

/// Relies on `aes::Aes128` through `BlockCipherEncrypt::encrypt_block`: the
/// encryption of a 16-byte block under a 16-byte key, a 16-byte result
/// determined by the key and the block alone.
#[verifier::external_body]
fn aes128_encrypt_block(key: &[u8; 16], block: &[u8; 16]) -> (r: [u8; 16])
    ensures
        r@ == aes128_encrypt_result(key@, block@),
        r@ == aes_enc_block(key@, block@),
{
    let cipher = Aes128::new(&Array::from(*key));
    let mut b = Array::from(*block);
    cipher.encrypt_block(&mut b);
    b.into()
}

/// Relies on `aes::Aes128` through `BlockCipherDecrypt::decrypt_block`: the
/// inverse of `encrypt_block`, so the result encrypts back to `block`, and
/// any 16-byte block that encrypts to `block` is exactly the result.
#[verifier::external_body]
fn aes128_decrypt_block(key: &[u8; 16], block: &[u8; 16]) -> (r: [u8; 16])
    ensures
        r@ == aes128_decrypt_result(key@, block@),
        r@ == aes_dec_block(key@, block@),
        aes_enc_block(key@, r@) == block@,
        forall|p: Seq<u8>| p.len() == 16 && aes_enc_block(key@, p) == block@ ==> r@ == p,
{
    let cipher = Aes128::new(&Array::from(*key));
    let mut b = Array::from(*block);
    cipher.decrypt_block(&mut b);
    b.into()
}

/// Relies on `sha2::Sha256` through `Digest::digest`: a 32-byte digest
/// determined by the input bytes alone.
#[verifier::external_body]
fn sha256_digest(data: &[u8]) -> (r: Vec<u8>)
    ensures
        r@ == sha256_result(data@),
        r@.len() == 32,
{
    Sha256::digest(data).to_vec()
}

/// Derive the block-cipher key from a passphrase's bytes: hash them with
/// SHA-256 and keep the first 16 bytes.
pub fn derive_key(passphrase: &[u8]) -> (key: [u8; 16])
    ensures
        key@ == derived_key(passphrase@),
{
    let digest = sha256_digest(passphrase);
    let mut key: [u8; 16] = [0u8; 16];
    let mut k: usize = 0;
    while k < 16
        invariant
            k <= 16,
            digest@ == sha256_result(passphrase@),
            digest@.len() == 32,
            key@.len() == 16,
            forall|i: int| 0 <= i < k ==> key@[i] == sha256_result(passphrase@)[i],
        decreases 16 - k,
    {
        key[k] = digest[k];
        k = k + 1;
    }
    assert(key@ =~= derived_key(passphrase@));
    key
}

/// The bytes of the ASCII text "unique init vect".
pub open spec fn default_iv_spec() -> Seq<u8> {
    seq![117u8, 110, 105, 113, 117, 101, 32, 105, 110, 105, 116, 32, 118, 101, 99, 116]
}

/// The default initialization vector, kept for behavioural compatibility:
/// the bytes of the ASCII text "unique init vect".
pub fn default_iv() -> (iv: [u8; 16])
    ensures
        iv@ == default_iv_spec(),
{
    let iv: [u8; 16] = [117, 110, 105, 113, 117, 101, 32, 105, 110, 105, 116, 32, 118, 101, 99,
        116];
    assert(iv@ =~= default_iv_spec());
    iv
}

/// The number of bytes PKCS-style padding appends: in [1, 16], bringing the
/// length up to the next multiple of 16.
pub open spec fn pad_len(n: nat) -> int {
    16 - (n % 16)
}

/// `data` extended with `pad_len` bytes, each holding the value `pad_len`.
pub open spec fn pkcs_pad(data: Seq<u8>) -> Seq<u8> {
    data + Seq::new(pad_len(data.len()) as nat, |k: int| pad_len(data.len()) as u8)
}

/// Validate and strip PKCS-style padding: the last byte declares the count
/// `p` in [1, 16], and the last `p` bytes must all hold `p`. `None` when the
/// buffer is empty, not a multiple of 16 long, or padded otherwise.
pub open spec fn pkcs_unpad(data: Seq<u8>) -> Option<Seq<u8>> {
    if data.len() == 0 || data.len() % 16 != 0 {
        None
    } else {
        let p = data.last() as int;
        if 1 <= p && p <= 16 && (forall|k: int|
            data.len() - p <= k < data.len() ==> data[k] == data.last()) {
            Some(data.take(data.len() - p))
        } else {
            None
        }
    }
}

/// Padding then unpadding gives back the original buffer.
pub proof fn lemma_pad_round_trip(data: Seq<u8>)
    ensures
        pkcs_unpad(pkcs_pad(data)) == Some(data),
{
    let padded = pkcs_pad(data);
    let p = pad_len(data.len());
    assert(padded.len() == data.len() + p);
    assert(padded.last() == p as u8);
    assert(forall|k: int| padded.len() - p <= k < padded.len() ==> padded[k] == padded.last());
    assert(padded.take(padded.len() - p) =~= data);
}

/// The padded length is a positive multiple of 16, at most 16 over the
/// original length.
pub proof fn lemma_pad_len_props(data: Seq<u8>)
    ensures
        pkcs_pad(data).len() % 16 == 0,
        data.len() < pkcs_pad(data).len() <= data.len() + 16,
{
    lemma_fundamental_div_mod(data.len() as int, 16);
    vstd::arithmetic::div_mod::lemma_mod_bound(data.len() as int, 16);
    vstd::arithmetic::div_mod::lemma_small_mod(0, 16);
    lemma_mod_multiples_vanish(data.len() as int / 16 + 1, 0, 16);
}

/// A chained ciphertext is exactly as long as the padded plaintext.
pub proof fn lemma_cbc_encrypt_len(key: Seq<u8>, iv: Seq<u8>, plain: Seq<u8>)
    requires
        plain.len() % 16 == 0,
    ensures
        cbc_encrypt_spec(key, iv, plain).len() == plain.len(),
    decreases plain.len(),
{
    if plain.len() >= 16 {
        lemma_mod_multiples_vanish(1, plain.len() - 16, 16);
        let c0 = aes_enc_block(key, xor_combine(plain.take(16), iv));
        lemma_cbc_encrypt_len(key, c0, plain.skip(16));
    }
}

/// Cipher-block-chaining over 16-byte blocks: each plaintext block is XORed
/// with the previous ciphertext block — the initialization vector for the
/// first — and encrypted.
pub open spec fn cbc_encrypt_spec(key: Seq<u8>, iv: Seq<u8>, plain: Seq<u8>) -> Seq<u8>
    recommends
        plain.len() % 16 == 0,
    decreases plain.len(),
{
    if plain.len() < 16 {
        Seq::empty()
    } else {
        let c0 = aes_enc_block(key, xor_combine(plain.take(16), iv));
        c0 + cbc_encrypt_spec(key, c0, plain.skip(16))
    }
}

/// The inverse chaining: each ciphertext block is decrypted and XORed with
/// the previous ciphertext block — the initialization vector for the first.
pub open spec fn cbc_decrypt_spec(key: Seq<u8>, iv: Seq<u8>, cipher: Seq<u8>) -> Seq<u8>
    recommends
        cipher.len() % 16 == 0,
    decreases cipher.len(),
{
    if cipher.len() < 16 {
        Seq::empty()
    } else {
        let c0 = cipher.take(16);
        xor_combine(aes_dec_block(key, c0), iv) + cbc_decrypt_spec(key, c0, cipher.skip(16))
    }
}

/// Encrypt `plain` under cipher-block-chaining with PKCS-style padding. The
/// output length is the input length rounded up to the next multiple of 16,
/// always strictly greater than the input length.
pub fn encrypt(plain: &[u8], key: &[u8; 16], iv: &[u8; 16]) -> (c: Vec<u8>)
    requires
        plain@.len() + 16 <= usize::MAX,
    ensures
        c@ == cbc_encrypt_spec(key@, iv@, pkcs_pad(plain@)),
        c@.len() == pkcs_pad(plain@).len(),
        c@.len() % 16 == 0,
        plain@.len() < c@.len() && c@.len() <= plain@.len() + 16,
{
    let mut padded: Vec<u8> = Vec::new();
    let mut k: usize = 0;
    while k < plain.len()
        invariant
            k <= plain@.len(),
            padded@.len() == k,
            forall|i: int| 0 <= i < k ==> padded@[i] == plain@[i],
        decreases plain@.len() - k,
    {
        padded.push(plain[k]);
        k = k + 1;
    }
    let p: u8 = (16 - plain.len() % 16) as u8;
    assert(p as int == pad_len(plain@.len()));
    let mut k: usize = 0;
    while k < p as usize
        invariant
            k <= p as usize,
            p as int == pad_len(plain@.len()),
            padded@.len() == plain@.len() + k,
            forall|i: int| 0 <= i < plain@.len() ==> padded@[i] == plain@[i],
            forall|i: int| plain@.len() <= i < plain@.len() + k ==> padded@[i] == p,
        decreases p as int - k,
    {
        padded.push(p);
        k = k + 1;
    }
    assert(padded@ =~= pkcs_pad(plain@));
    proof {
        lemma_fundamental_div_mod(plain@.len() as int, 16);
        lemma_mod_multiples_vanish(plain@.len() as int / 16 + 1, 0, 16);
        assert(padded@.len() % 16 == 0);
    }
    let nblocks: usize = padded.len() / 16;
    proof {
        lemma_fundamental_div_mod(padded@.len() as int, 16);
        assert(16 * nblocks == padded@.len());
    }
    let mut c: Vec<u8> = Vec::new();
    let mut prev: [u8; 16] = *iv;
    let mut b: usize = 0;
    assert(padded@.skip(0) =~= padded@);
    assert(Seq::<u8>::empty() + cbc_encrypt_spec(key@, iv@, padded@) =~= cbc_encrypt_spec(
        key@,
        iv@,
        padded@,
    ));
    while b < nblocks
        invariant
            b <= nblocks,
            16 * nblocks == padded@.len(),
            16 * b <= padded@.len(),
            c@.len() == 16 * b,
            prev@.len() == 16,
            cbc_encrypt_spec(key@, iv@, padded@) == c@ + cbc_encrypt_spec(
                key@,
                prev@,
                padded@.skip(16 * b),
            ),
        decreases nblocks - b,
    {
        let ghost rest = padded@.skip(16 * b);
        let plen: usize = padded.len();
        assert(16 * b + 16 <= plen);
        let base: usize = 16 * b;
        let mut x: [u8; 16] = [0u8; 16];
        let mut i: usize = 0;
        while i < 16
            invariant
                i <= 16,
                base == 16 * b,
                base + 16 <= padded@.len(),
                x@.len() == 16,
                prev@.len() == 16,
                forall|m: int| 0 <= m < i ==> x@[m] == (padded@[16 * b + m] ^ prev@[m]),
            decreases 16 - i,
        {
            x[i] = padded[base + i] ^ prev[i];
            i = i + 1;
        }
        assert(x@ =~= xor_combine(rest.take(16), prev@)) by {
            assert(forall|m: int| 0 <= m < 16 ==> rest.take(16)[m] == padded@[16 * b + m]);
        }
        let e = aes128_encrypt_block(key, &x);
        let ghost c_old = c@;
        c.extend_from_slice(e.as_slice());
        proof {
            assert(cbc_encrypt_spec(key@, prev@, rest) == e@ + cbc_encrypt_spec(
                key@,
                e@,
                rest.skip(16),
            ));
            assert(rest.skip(16) =~= padded@.skip(16 * (b + 1)));
            assert(c_old + (e@ + cbc_encrypt_spec(key@, e@, rest.skip(16))) =~= (c_old + e@)
                + cbc_encrypt_spec(key@, e@, rest.skip(16)));
        }
        prev = e;
        b = b + 1;
    }
    proof {
        assert(padded@.skip(16 * nblocks) =~= Seq::<u8>::empty());
        assert(c@ + Seq::<u8>::empty() =~= c@);
        lemma_fundamental_div_mod(c@.len() as int, 16);
        lemma_mod_multiples_vanish(nblocks as int, 0, 16);
    }
    c
}

/// Validate and strip the trailing padding of `data`, following
/// `pkcs_unpad`.
fn pkcs_unpad_exec(data: &Vec<u8>) -> (r: Option<Vec<u8>>)
    ensures
        r is Some <==> pkcs_unpad(data@) is Some,
        r is Some ==> r->0@ == pkcs_unpad(data@)->0,
{
    if data.len() == 0 || data.len() % 16 != 0 {
        return None;
    }
    let p: u8 = data[data.len() - 1];
    assert(p == data@.last());
    if p < 1 || p > 16 {
        return None;
    }
    let start: usize = data.len() - p as usize;
    let mut k: usize = start;
    while k < data.len()
        invariant
            start <= k <= data@.len(),
            start == data@.len() - p,
            1 <= p <= 16,
            p == data@.last(),
            data@.len() % 16 == 0,
            data@.len() > 0,
            forall|i: int| start <= i < k ==> data@[i] == p,
        decreases data@.len() - k,
    {
        if data[k] != p {
            assert(data@[k as int] != data@.last());
            return None;
        }
        k = k + 1;
    }
    let mut out: Vec<u8> = Vec::new();
    let mut i: usize = 0;
    while i < start
        invariant
            i <= start <= data@.len(),
            out@.len() == i,
            forall|m: int| 0 <= m < i ==> out@[m] == data@[m],
        decreases start - i,
    {
        out.push(data[i]);
        i = i + 1;
    }
    assert(out@ =~= data@.take(data@.len() - p));
    Some(out)
}

/// Decrypt a cipher-block-chaining ciphertext and strip the padding. Fails
/// with `MalformedPadding` when the length is not a positive multiple of 16
/// or the recovered trailing bytes do not follow the padding contract; on a
/// ciphertext that `encrypt` produced under the same key and vector it
/// returns exactly the plaintext that was encrypted.
pub fn decrypt(cipher: &[u8], key: &[u8; 16], iv: &[u8; 16]) -> (r: Result<Vec<u8>, CipherError>)
    ensures
        r is Ok <==> (cipher@.len() % 16 == 0 && cipher@.len() > 0 && pkcs_unpad(
            cbc_decrypt_spec(key@, iv@, cipher@),
        ) is Some),
        r is Ok ==> r->Ok_0@ == pkcs_unpad(cbc_decrypt_spec(key@, iv@, cipher@))->0,
        r is Err ==> r->Err_0 == CipherError::MalformedPadding,
        forall|p: Seq<u8>|
            (#[trigger] cbc_encrypt_spec(key@, iv@, pkcs_pad(p))) == cipher@ ==> r is Ok
                && r->Ok_0@ == p,
{
    if cipher.len() % 16 != 0 || cipher.len() == 0 {
        proof {
            assert forall|p: Seq<u8>|
                (#[trigger] cbc_encrypt_spec(key@, iv@, pkcs_pad(p))) == cipher@ implies false by {
                lemma_pad_len_props(p);
                lemma_cbc_encrypt_len(key@, iv@, pkcs_pad(p));
            }
        }
        return Err(CipherError::MalformedPadding);
    }
    let nblocks: usize = cipher.len() / 16;
    proof {
        lemma_fundamental_div_mod(cipher@.len() as int, 16);
        assert(16 * nblocks == cipher@.len());
    }
    let mut d: Vec<u8> = Vec::new();
    let mut prev: [u8; 16] = *iv;
    let mut b: usize = 0;
    assert(cipher@.skip(0) =~= cipher@);
    assert(Seq::<u8>::empty() + cbc_decrypt_spec(key@, iv@, cipher@) =~= cbc_decrypt_spec(
        key@,
        iv@,
        cipher@,
    ));
    proof {
        assert forall|q: Seq<u8>|
            q.len() == cipher@.len() && (#[trigger] cbc_encrypt_spec(key@, iv@, q))
                == cipher@ implies d@ == q.take(0int) && cbc_encrypt_spec(
                key@,
                prev@,
                q.skip(0int),
            ) == cipher@.skip(0int) by {
            assert(d@ =~= q.take(0));
            assert(q.skip(0) =~= q);
        }
    }
    while b < nblocks
        invariant
            b <= nblocks,
            16 * nblocks == cipher@.len(),
            16 * b <= cipher@.len(),
            cipher@.len() > 0,
            cipher@.len() % 16 == 0,
            d@.len() == 16 * b,
            prev@.len() == 16,
            cbc_decrypt_spec(key@, iv@, cipher@) == d@ + cbc_decrypt_spec(
                key@,
                prev@,
                cipher@.skip(16 * b),
            ),
            forall|q: Seq<u8>|
                q.len() == cipher@.len() && (#[trigger] cbc_encrypt_spec(key@, iv@, q))
                    == cipher@ ==> d@ == q.take(16 * b) && cbc_encrypt_spec(
                    key@,
                    prev@,
                    q.skip(16 * b),
                ) == cipher@.skip(16 * b),
        decreases nblocks - b,
    {
        let ghost rest = cipher@.skip(16 * b);
        let plen: usize = cipher.len();
        assert(16 * b + 16 <= plen);
        let base: usize = 16 * b;
        let mut cb: [u8; 16] = [0u8; 16];
        let mut i: usize = 0;
        while i < 16
            invariant
                i <= 16,
                base == 16 * b,
                base + 16 <= cipher@.len(),
                cb@.len() == 16,
                forall|m: int| 0 <= m < i ==> cb@[m] == cipher@[base + m],
            decreases 16 - i,
        {
            cb[i] = cipher[base + i];
            i = i + 1;
        }
        assert(cb@ =~= rest.take(16));
        let dec = aes128_decrypt_block(key, &cb);
        let mut x: [u8; 16] = [0u8; 16];
        let mut i: usize = 0;
        while i < 16
            invariant
                i <= 16,
                x@.len() == 16,
                dec@.len() == 16,
                prev@.len() == 16,
                forall|m: int| 0 <= m < i ==> x@[m] == (dec@[m] ^ prev@[m]),
            decreases 16 - i,
        {
            x[i] = dec[i] ^ prev[i];
            i = i + 1;
        }
        assert(x@ =~= xor_combine(dec@, prev@));
        let ghost d_old = d@;
        let ghost prev_old = prev@;
        d.extend_from_slice(x.as_slice());
        proof {
            assert(rest.len() >= 16);
            assert(cbc_decrypt_spec(key@, prev_old, rest) == xor_combine(
                aes_dec_block(key@, rest.take(16)),
                prev_old,
            ) + cbc_decrypt_spec(key@, rest.take(16), rest.skip(16)));
            assert(rest.skip(16) =~= cipher@.skip(16 * (b + 1)));
            assert(d_old + (x@ + cbc_decrypt_spec(key@, cb@, rest.skip(16))) =~= (d_old + x@)
                + cbc_decrypt_spec(key@, cb@, rest.skip(16)));
            assert forall|q: Seq<u8>|
                q.len() == cipher@.len() && (#[trigger] cbc_encrypt_spec(key@, iv@, q))
                    == cipher@ implies (d_old + x@) == q.take(16 * (b + 1)) && cbc_encrypt_spec(
                    key@,
                    cb@,
                    q.skip(16 * (b + 1)),
                ) == cipher@.skip(16 * (b + 1)) by {
                assert(d_old == q.take(16 * b));
                let rq = q.skip(16 * b);
                assert(cbc_encrypt_spec(key@, prev_old, rq) == cipher@.skip(16 * b));
                assert(rq.len() >= 16);
                let pb = xor_combine(rq.take(16), prev_old);
                let c0 = aes_enc_block(key@, pb);
                assert(cbc_encrypt_spec(key@, prev_old, rq) == c0 + cbc_encrypt_spec(
                    key@,
                    c0,
                    rq.skip(16),
                ));
                let tail = cbc_encrypt_spec(key@, c0, rq.skip(16));
                assert(c0.len() == 16);
                assert forall|m: int| 0 <= m < 16 implies c0[m] == rest[m] by {
                    assert((c0 + tail)[m] == c0[m]);
                }
                assert(c0 =~= cb@);
                assert(pb.len() == 16);
                assert(dec@ == pb);
                lemma_combine_self_inverse(rq.take(16), prev_old);
                assert(x@ == rq.take(16));
                assert(d_old + x@ =~= q.take(16 * (b + 1)));
                assert(tail.len() == rest.len() - 16);
                assert forall|m: int| 0 <= m < tail.len() implies tail[m] == rest[m + 16] by {
                    assert((c0 + tail)[m + 16] == tail[m]);
                }
                assert(tail =~= cipher@.skip(16 * (b + 1)));
                assert(rq.skip(16) =~= q.skip(16 * (b + 1)));
            }
        }
        prev = cb;
        b = b + 1;
    }
    proof {
        assert(cipher@.skip(16 * nblocks) =~= Seq::<u8>::empty());
        assert(d@ + Seq::<u8>::empty() =~= d@);
        assert(d@ == cbc_decrypt_spec(key@, iv@, cipher@));
    }
    match pkcs_unpad_exec(&d) {
        Some(out) => {
            proof {
                assert forall|p: Seq<u8>|
                    (#[trigger] cbc_encrypt_spec(key@, iv@, pkcs_pad(p))) == cipher@ implies out@
                    == p by {
                    let q = pkcs_pad(p);
                    lemma_pad_len_props(p);
                    lemma_cbc_encrypt_len(key@, iv@, q);
                    assert(d@ == q.take(16 * nblocks));
                    assert(q.take(16 * nblocks) =~= q);
                    lemma_pad_round_trip(p);
                }
            }
            Ok(out)
        },
        None => {
            proof {
                assert forall|p: Seq<u8>|
                    (#[trigger] cbc_encrypt_spec(key@, iv@, pkcs_pad(p))) == cipher@
                    implies false by {
                    let q = pkcs_pad(p);
                    lemma_pad_len_props(p);
                    lemma_cbc_encrypt_len(key@, iv@, q);
                    assert(d@ == q.take(16 * nblocks));
                    assert(q.take(16 * nblocks) =~= q);
                    lemma_pad_round_trip(p);
                }
            }
            Err(CipherError::MalformedPadding)
        },
    }
}

} // verus!
