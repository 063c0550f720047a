use vstd::prelude::*;
use openssl::error::ErrorStack;
use openssl::symm::{Cipher, Crypter, Mode};
use crate::error::CryptoError;
use crate::padding::{padded, pkcs7, PAD_BYTE};

verus! {

/// The bytes of `b` XOR-ed with `key` repeated end to end.
pub open spec fn repeating_xor(b: Seq<u8>, key: Seq<u8>) -> Seq<u8> {
    Seq::new(b.len(), |i: int| b[i] ^ key[i % (key.len() as int)])
}

/// XORs each byte of `cipher` with the byte of `key` at the same position
/// modulo the key's length.
pub fn xor(cipher: &[u8], key: &[u8]) -> (r: Vec<u8>)
    requires
        key@.len() > 0 || cipher@.len() == 0,
    ensures
        r@ == repeating_xor(cipher@, key@),
{
    let mut out: Vec<u8> = Vec::new();
    for i in 0..cipher.len()
        invariant
            key@.len() > 0 || cipher@.len() == 0,
            out@ == repeating_xor(cipher@.take(i as int), key@),
    {
        out.push(cipher[i] ^ key[i % key.len()]);
        proof {
            assert(out@ =~= repeating_xor(cipher@.take(i + 1), key@));
        }
    }
    proof {
        assert(cipher@.take(cipher@.len() as int) =~= cipher@);
    }
    out
}


/// The block size of AES-128, in bytes, and the length of its key.
pub const BLOCK_SIZE: usize = 16;

#[verifier::external_type_specification]
#[verifier::external_body]
pub struct ExErrorStack(ErrorStack);

/// The AES-128 encryption of one block under `key`.
pub uninterp spec fn aes128_encrypt_of(key: Seq<u8>, block: Seq<u8>) -> Seq<u8>;

/// The AES-128 decryption of one block under `key`.
pub uninterp spec fn aes128_decrypt_of(key: Seq<u8>, block: Seq<u8>) -> Seq<u8>;

/// Relies on openssl's `Crypter` for AES-128-ECB with padding turned off:
/// one 16-byte block under a 16-byte key encrypts to one 16-byte block.
#[verifier::external_body]
fn encrypt_block(key: &[u8], block: &[u8]) -> (r: Result<Vec<u8>, ErrorStack>)
    requires
        key@.len() == BLOCK_SIZE,
        block@.len() == BLOCK_SIZE,
    ensures
        r is Ok ==> r->Ok_0@ == aes128_encrypt_of(key@, block@) && r->Ok_0@.len() == BLOCK_SIZE,
{
    let mut c = Crypter::new(Cipher::aes_128_ecb(), Mode::Encrypt, key, None)?;
    c.pad(false);
    let mut out = vec![0u8; 2 * BLOCK_SIZE];
    let n = c.update(block, &mut out)?;
    out.truncate(n);
    Ok(out)
}

/// Relies on openssl's `Crypter` for AES-128-ECB with padding turned off:
/// one 16-byte block under a 16-byte key decrypts to one 16-byte block.
#[verifier::external_body]
fn decrypt_block(key: &[u8], block: &[u8]) -> (r: Result<Vec<u8>, ErrorStack>)
    requires
        key@.len() == BLOCK_SIZE,
        block@.len() == BLOCK_SIZE,
    ensures
        r is Ok ==> r->Ok_0@ == aes128_decrypt_of(key@, block@) && r->Ok_0@.len() == BLOCK_SIZE,
{
    let mut c = Crypter::new(Cipher::aes_128_ecb(), Mode::Decrypt, key, None)?;
    c.pad(false);
    let mut out = vec![0u8; 2 * BLOCK_SIZE];
    let n = c.update(block, &mut out)?;
    out.truncate(n);
    Ok(out)
}

/// Block `j` of `s`.
pub open spec fn block(s: Seq<u8>, j: int) -> Seq<u8> {
    s.subrange(16 * j, 16 * j + 16)
}

/// The byte-wise XOR of two blocks.
pub open spec fn xor_block(a: Seq<u8>, b: Seq<u8>) -> Seq<u8> {
    Seq::new(16, |i: int| a[i] ^ b[i])
}

/// The all-zero block that chaining starts from.
pub open spec fn zero_block() -> Seq<u8> {
    Seq::new(16, |i: int| 0u8)
}

/// Ciphertext block `j` of the CBC encryption of `p` with the block function `e`.
pub open spec fn cbc_encrypted_block(p: Seq<u8>, e: spec_fn(Seq<u8>) -> Seq<u8>, j: nat) -> Seq<u8>
    decreases j,
{
    let prev = if j == 0 { zero_block() } else { cbc_encrypted_block(p, e, (j - 1) as nat) };
    e(xor_block(block(p, j as int), prev))
}

/// The first `n` ciphertext blocks of the CBC encryption of `p`.
pub open spec fn cbc_encrypt_upto(p: Seq<u8>, e: spec_fn(Seq<u8>) -> Seq<u8>, n: nat) -> Seq<u8>
    decreases n,
{
    if n == 0 {
        Seq::empty()
    } else {
        cbc_encrypt_upto(p, e, (n - 1) as nat) + cbc_encrypted_block(p, e, (n - 1) as nat)
    }
}

/// The CBC encryption, with a zero IV, of the block-aligned `p` under `e`.
pub open spec fn cbc_encrypt_with(p: Seq<u8>, e: spec_fn(Seq<u8>) -> Seq<u8>) -> Seq<u8> {
    cbc_encrypt_upto(p, e, p.len() / 16)
}

/// Plaintext block `j` of the CBC decryption of `c` with the block function `d`.
pub open spec fn cbc_decrypted_block(c: Seq<u8>, d: spec_fn(Seq<u8>) -> Seq<u8>, j: nat) -> Seq<u8> {
    let prev = if j == 0 { zero_block() } else { block(c, j - 1) };
    xor_block(d(block(c, j as int)), prev)
}

/// The first `n` plaintext blocks of the CBC decryption of `c`.
pub open spec fn cbc_decrypt_upto(c: Seq<u8>, d: spec_fn(Seq<u8>) -> Seq<u8>, n: nat) -> Seq<u8>
    decreases n,
{
    if n == 0 {
        Seq::empty()
    } else {
        cbc_decrypt_upto(c, d, (n - 1) as nat) + cbc_decrypted_block(c, d, (n - 1) as nat)
    }
}

/// The CBC decryption, with a zero IV, of the block-aligned `c` under `d`.
pub open spec fn cbc_decrypt_with(c: Seq<u8>, d: spec_fn(Seq<u8>) -> Seq<u8>) -> Seq<u8> {
    cbc_decrypt_upto(c, d, c.len() / 16)
}

/// `s` without its trailing run of padding bytes.
pub open spec fn strip_padding(s: Seq<u8>) -> Seq<u8>
    decreases s.len(),
{
    if s.len() > 0 && s.last() == PAD_BYTE {
        strip_padding(s.drop_last())
    } else {
        s
    }
}

/// AES-128 encryption under `key`, as a block function.
pub open spec fn aes128_encryptor(key: Seq<u8>) -> spec_fn(Seq<u8>) -> Seq<u8> {
    |b: Seq<u8>| aes128_encrypt_of(key, b)
}

/// AES-128 decryption under `key`, as a block function.
pub open spec fn aes128_decryptor(key: Seq<u8>) -> spec_fn(Seq<u8>) -> Seq<u8> {
    |b: Seq<u8>| aes128_decrypt_of(key, b)
}

/// Block `j` of `s` XOR-ed with `iv`.
fn xor_with_block(s: &Vec<u8>, j: usize, iv: &Vec<u8>) -> (r: Vec<u8>)
    requires
        16 * j + 16 <= s@.len(),
        iv@.len() == 16,
    ensures
        r@ == xor_block(block(s@, j as int), iv@),
        r@.len() == 16,
{
    // The length of `s` fits a usize, so the offsets below do too.
    let len = s.len();
    proof {
        assert(16 * j + 16 <= len);
    }
    let base = 16 * j;
    let mut r: Vec<u8> = Vec::new();
    for t in 0..BLOCK_SIZE
        invariant
            16 * j + 16 <= s@.len(),
            base == 16 * j,
            iv@.len() == 16,
            r@ =~= Seq::new(t as nat, |i: int| block(s@, j as int)[i] ^ iv@[i]),
    {
        r.push(s[base + t] ^ iv[t]);
    }
    r
}

/// The bytes of block `j` of `s`.
fn block_of(s: &[u8], j: usize) -> (r: Vec<u8>)
    requires
        16 * j + 16 <= s@.len(),
    ensures
        r@ == block(s@, j as int),
{
    // The length of `s` fits a usize, so the offsets below do too.
    let len = s.len();
    proof {
        assert(16 * j + 16 <= len);
    }
    let base = 16 * j;
    let mut r: Vec<u8> = Vec::new();
    for t in 0..BLOCK_SIZE
        invariant
            16 * j + 16 <= s@.len(),
            base == 16 * j,
            r@ =~= block(s@, j as int).take(t as int),
    {
        r.push(s[base + t]);
    }
    r
}

/// Encrypts `input` with AES-128 in CBC mode under `key`, with a zero IV,
/// after padding it to a multiple of the block size.
pub fn encrypt(input: &[u8], key: &[u8]) -> (r: Result<Vec<u8>, CryptoError>)
    ensures
        key@.len() != BLOCK_SIZE <==> r == Err::<Vec<u8>, CryptoError>(CryptoError::InvalidKeyLength),
        r is Ok ==> r->Ok_0@ == cbc_encrypt_with(padded(input@, 16), aes128_encryptor(key@)),
        r is Ok ==> r->Ok_0@.len() == padded(input@, 16).len(),
        r is Err ==> r == Err::<Vec<u8>, CryptoError>(CryptoError::InvalidKeyLength) || r
            == Err::<Vec<u8>, CryptoError>(CryptoError::CipherFailure),
        r == Err::<Vec<u8>, CryptoError>(CryptoError::CipherFailure) ==> key@.len() == BLOCK_SIZE
            && input@.len() > 0,
        key@.len() == BLOCK_SIZE && input@.len() == 0 ==> r is Ok && r->Ok_0@.len() == 0,
{
    if key.len() != BLOCK_SIZE {
        return Err(CryptoError::InvalidKeyLength);
    }
    let input_padded = pkcs7(input, 16);
    let ghost p = input_padded@;
    let ghost e = aes128_encryptor(key@);
    let nblocks = input_padded.len() / BLOCK_SIZE;
    proof {
        if input@.len() == 0 {
            assert(p == input@);
        }
    }
    let mut cipher: Vec<u8> = Vec::new();
    let mut iv: Vec<u8> = Vec::new();
    for t in 0..BLOCK_SIZE
        invariant
            iv@ =~= Seq::new(t as nat, |i: int| 0u8),
    {
        iv.push(0);
    }
    for j in 0..nblocks
        invariant
            p == input_padded@,
            input@.len() == 0 ==> nblocks == 0,
            e == aes128_encryptor(key@),
            key@.len() == 16,
            nblocks == p.len() / 16,
            p.len() % 16 == 0,
            iv@.len() == 16,
            iv@ == if j == 0 { zero_block() } else { cbc_encrypted_block(p, e, (j - 1) as nat) },
            cipher@ == cbc_encrypt_upto(p, e, j as nat),
            cipher@.len() == 16 * j,
    {
        proof {
            assert(16 * j + 16 <= p.len()) by (nonlinear_arith)
                requires j < nblocks, nblocks == p.len() / 16;
        }
        let x = xor_with_block(&input_padded, j, &iv);
        match encrypt_block(key, x.as_slice()) {
            Ok(c) => {
                cipher.extend_from_slice(c.as_slice());
                iv = c;
            },
            Err(_) => {
                return Err(CryptoError::CipherFailure);
            },
        }
    }
    proof {
        assert(cipher@.len() == p.len()) by (nonlinear_arith)
            requires cipher@.len() == 16 * nblocks, nblocks == p.len() / 16, p.len() % 16 == 0;
    }
    Ok(cipher)
}

/// Decrypts the AES-128 CBC ciphertext `cipher` under `key`, with a zero IV,
/// and strips the trailing padding bytes.
pub fn decrypt(cipher: &[u8], key: &[u8]) -> (r: Result<Vec<u8>, CryptoError>)
    ensures
        key@.len() != BLOCK_SIZE <==> r == Err::<Vec<u8>, CryptoError>(CryptoError::InvalidKeyLength),
        key@.len() == BLOCK_SIZE && cipher@.len() % 16 != 0 <==> r
            == Err::<Vec<u8>, CryptoError>(CryptoError::MisalignedCiphertext),
        r is Ok ==> r->Ok_0@ == strip_padding(cbc_decrypt_with(cipher@, aes128_decryptor(key@))),
        r is Err ==> r == Err::<Vec<u8>, CryptoError>(CryptoError::InvalidKeyLength) || r
            == Err::<Vec<u8>, CryptoError>(CryptoError::MisalignedCiphertext) || r
            == Err::<Vec<u8>, CryptoError>(CryptoError::CipherFailure),
        r == Err::<Vec<u8>, CryptoError>(CryptoError::CipherFailure) ==> cipher@.len() > 0,
        key@.len() == BLOCK_SIZE && cipher@.len() == 0 ==> r is Ok && r->Ok_0@.len() == 0,
{
    if key.len() != BLOCK_SIZE {
        return Err(CryptoError::InvalidKeyLength);
    }
    if cipher.len() % BLOCK_SIZE != 0 {
        return Err(CryptoError::MisalignedCiphertext);
    }
    let ghost c = cipher@;
    let ghost d = aes128_decryptor(key@);
    let nblocks = cipher.len() / BLOCK_SIZE;
    let mut plain: Vec<u8> = Vec::new();
    for j in 0..nblocks
        invariant
            c == cipher@,
            d == aes128_decryptor(key@),
            key@.len() == 16,
            nblocks == c.len() / 16,
            c.len() % 16 == 0,
            c.len() == 0 ==> nblocks == 0,
            plain@ == cbc_decrypt_upto(c, d, j as nat),
    {
        proof {
            assert(16 * j + 16 <= c.len()) by (nonlinear_arith)
                requires j < nblocks, nblocks == c.len() / 16;
        }
        let blk = block_of(cipher, j);
        match decrypt_block(key, blk.as_slice()) {
            Ok(dec) => {
                let iv = if j == 0 {
                    let mut z: Vec<u8> = Vec::new();
                    for t in 0..BLOCK_SIZE
                        invariant
                            z@ =~= Seq::new(t as nat, |i: int| 0u8),
                    {
                        z.push(0);
                    }
                    z
                } else {
                    block_of(cipher, j - 1)
                };
                let x = xor_with_block(&dec, 0, &iv);
                proof {
                    assert(block(dec@, 0) =~= dec@);
                }
                plain.extend_from_slice(x.as_slice());
            },
            Err(_) => {
                return Err(CryptoError::CipherFailure);
            },
        }
    }
    proof {
        if c.len() == 0 {
            assert(plain@ == Seq::<u8>::empty());
        }
    }
    Ok(strip_trailing_padding(plain))
}

/// Removes the trailing run of padding bytes from `s`.
fn strip_trailing_padding(s: Vec<u8>) -> (r: Vec<u8>)
    ensures
        r@ == strip_padding(s@),
{
    let mut r = s;
    while r.len() > 0 && r[r.len() - 1] == PAD_BYTE
        invariant
            strip_padding(r@) == strip_padding(s@),
        decreases r@.len(),
    {
        let ghost before = r@;
        r.pop();
        proof {
            assert(r@ =~= before.drop_last());
        }
    }
    r
}

/// `d` undoes `e` on blocks, and `e` maps blocks to blocks.
pub open spec fn inverts_blocks(e: spec_fn(Seq<u8>) -> Seq<u8>, d: spec_fn(Seq<u8>) -> Seq<u8>) -> bool {
    forall|x: Seq<u8>| x.len() == 16 ==> (#[trigger] e(x)).len() == 16 && d(e(x)) == x
}

/// The first `n` ciphertext blocks take `16 * n` bytes, block `j` of them
/// being ciphertext block `j`.
proof fn lemma_encrypt_upto_blocks(p: Seq<u8>, e: spec_fn(Seq<u8>) -> Seq<u8>, n: nat)
    requires
        forall|x: Seq<u8>| x.len() == 16 ==> (#[trigger] e(x)).len() == 16,
    ensures
        cbc_encrypt_upto(p, e, n).len() == 16 * n,
        forall|j: int|
            0 <= j < n ==> #[trigger] block(cbc_encrypt_upto(p, e, n), j) == cbc_encrypted_block(
                p,
                e,
                j as nat,
            ),
    decreases n,
{
    if n > 0 {
        let m = (n - 1) as nat;
        lemma_encrypt_upto_blocks(p, e, m);
        let prev = cbc_encrypt_upto(p, e, m);
        let last = cbc_encrypted_block(p, e, m);
        let x = xor_block(block(p, m as int), if m == 0 { zero_block() } else { cbc_encrypted_block(p, e, (m - 1) as nat) });
        assert(last == e(x));
        assert(last.len() == 16);
        assert forall|j: int| 0 <= j < n implies #[trigger] block(prev + last, j) == cbc_encrypted_block(p, e, j as nat) by {
            if j < m {
                assert(block(prev + last, j) =~= block(prev, j));
            } else {
                assert(block(prev + last, j) =~= last);
            }
        }
    }
}

/// XOR-ing a block twice with the same block gives it back.
proof fn lemma_xor_block_twice(a: Seq<u8>, b: Seq<u8>)
    requires
        a.len() == 16,
    ensures
        xor_block(xor_block(a, b), b) == a,
{
    assert forall|i: int| 0 <= i < 16 implies #[trigger] xor_block(xor_block(a, b), b)[i] == a[i] by {
        let x = a[i];
        let y = b[i];
        assert((x ^ y) ^ y == x) by (bit_vector);
    }
    assert(xor_block(xor_block(a, b), b) =~= a);
}

/// Decrypting the first `n` blocks of a CBC ciphertext gives back the first
/// `n` plaintext blocks.
proof fn lemma_decrypt_upto_encrypted(
    p: Seq<u8>,
    e: spec_fn(Seq<u8>) -> Seq<u8>,
    d: spec_fn(Seq<u8>) -> Seq<u8>,
    n: nat,
)
    requires
        inverts_blocks(e, d),
        p.len() % 16 == 0,
        n <= p.len() / 16,
    ensures
        cbc_decrypt_upto(cbc_encrypt_with(p, e), d, n) == p.take((16 * n) as int),
    decreases n,
{
    let c = cbc_encrypt_with(p, e);
    let m = p.len() / 16;
    lemma_encrypt_upto_blocks(p, e, m);
    if n > 0 {
        let k = (n - 1) as nat;
        lemma_decrypt_upto_encrypted(p, e, d, k);
        let prev = if k == 0 { zero_block() } else { cbc_encrypted_block(p, e, (k - 1) as nat) };
        let x = xor_block(block(p, k as int), prev);
        assert(block(c, k as int) == cbc_encrypted_block(p, e, k));
        assert(x.len() == 16);
        assert(d(e(x)) == x);
        if k > 0 {
            assert(block(c, k - 1) == cbc_encrypted_block(p, e, (k - 1) as nat));
        }
        assert(16 * k + 16 <= p.len());
        assert(block(p, k as int).len() == 16);
        lemma_xor_block_twice(block(p, k as int), prev);
        assert(cbc_decrypted_block(c, d, k) == block(p, k as int));
        assert(p.take((16 * k) as int) + block(p, k as int) =~= p.take((16 * n) as int));
    }
}

/// `padded` adds nothing but padding bytes, so stripping them from a padded
/// text that did not end in one gives the text back.
proof fn lemma_strip_padded(p: Seq<u8>, extra: nat)
    requires
        p.len() == 0 || p.last() != PAD_BYTE,
    ensures
        strip_padding(p + Seq::new(extra, |i: int| PAD_BYTE)) == p,
    decreases extra,
{
    let s = p + Seq::new(extra, |i: int| PAD_BYTE);
    if extra == 0 {
        assert(s =~= p);
    } else {
        assert(s.drop_last() =~= p + Seq::new((extra - 1) as nat, |i: int| PAD_BYTE));
        lemma_strip_padded(p, (extra - 1) as nat);
    }
}

/// CBC decryption undoes CBC encryption: for a block function `d` that undoes
/// the block function `e`, decrypting the encryption of the padded `p` and
/// stripping the padding gives `p` back, whenever `p` does not itself end in
/// a padding byte. In particular a block-aligned `p` is not padded at all.
pub proof fn lemma_cbc_round_trip(
    p: Seq<u8>,
    e: spec_fn(Seq<u8>) -> Seq<u8>,
    d: spec_fn(Seq<u8>) -> Seq<u8>,
)
    requires
        inverts_blocks(e, d),
        p.len() == 0 || p.last() != PAD_BYTE,
    ensures
        strip_padding(cbc_decrypt_with(cbc_encrypt_with(padded(p, 16), e), d)) == p,
        p.len() % 16 == 0 ==> padded(p, 16) == p,
{
    let q = padded(p, 16);
    assert(q.len() % 16 == 0) by {
        let len = p.len() as int;
        assert((len + (16 - len % 16)) % 16 == 0);
    }
    let c = cbc_encrypt_with(q, e);
    lemma_encrypt_upto_blocks(q, e, q.len() / 16);
    assert(c.len() / 16 == q.len() / 16);
    lemma_decrypt_upto_encrypted(q, e, d, q.len() / 16);
    assert(q.take((16 * (q.len() / 16)) as int) =~= q);
    if p.len() % 16 == 0 {
        lemma_strip_padded(p, 0);
        assert(p + Seq::new(0, |i: int| PAD_BYTE) =~= p);
    } else {
        lemma_strip_padded(p, (16 - p.len() % 16) as nat);
    }
}

/// A plaintext shorter than one block pads to exactly one block, whose CBC
/// encryption under a block function `e` is one 16-byte block; decrypting it
/// with a `d` that undoes `e` and stripping the padding gives the plaintext
/// back, when it does not itself end in a padding byte.
pub proof fn lemma_short_plaintext_one_block(
    p: Seq<u8>,
    e: spec_fn(Seq<u8>) -> Seq<u8>,
    d: spec_fn(Seq<u8>) -> Seq<u8>,
)
    requires
        0 < p.len() < 16,
        inverts_blocks(e, d),
        p.last() != PAD_BYTE,
    ensures
        padded(p, 16).len() == 16,
        cbc_encrypt_with(padded(p, 16), e).len() == 16,
        strip_padding(cbc_decrypt_with(cbc_encrypt_with(padded(p, 16), e), d)) == p,
{
    let q = padded(p, 16);
    assert(q.len() == 16);
    lemma_encrypt_upto_blocks(q, e, 1);
    lemma_cbc_round_trip(p, e, d);
}

/// What openssl's one-shot AES-128-ECB decryption, with PKCS#7 padding
/// removed, makes of `data` under `key`.
pub uninterp spec fn aes128_ecb_decrypt_of(key: Seq<u8>, data: Seq<u8>) -> Seq<u8>;

/// Relies on `openssl::symm::decrypt` with `Cipher::aes_128_ecb()` and no IV:
/// on success, the ECB decryption of `data` with its PKCS#7 padding removed.
#[verifier::external_body]
fn ecb_decrypt_padded(key: &[u8], data: &[u8]) -> (r: Result<Vec<u8>, ErrorStack>)
    requires
        key@.len() == BLOCK_SIZE,
    ensures
        r is Ok ==> r->Ok_0@ == aes128_ecb_decrypt_of(key@, data@),
{
    openssl::symm::decrypt(Cipher::aes_128_ecb(), key, None, data)
}

/// Decrypts `cipher` with AES-128 in ECB mode under `key` and removes its
/// PKCS#7 padding.
pub fn ecb_decrypt(cipher: &[u8], key: &[u8]) -> (r: Result<Vec<u8>, CryptoError>)
    ensures
        key@.len() != BLOCK_SIZE <==> r == Err::<Vec<u8>, CryptoError>(CryptoError::InvalidKeyLength),
        r is Ok ==> r->Ok_0@ == aes128_ecb_decrypt_of(key@, cipher@),
        r is Err ==> r == Err::<Vec<u8>, CryptoError>(CryptoError::InvalidKeyLength) || r
            == Err::<Vec<u8>, CryptoError>(CryptoError::CipherFailure),
{
    if key.len() != BLOCK_SIZE {
        return Err(CryptoError::InvalidKeyLength);
    }
    match ecb_decrypt_padded(key, cipher) {
        Ok(plain) => Ok(plain),
        Err(_) => Err(CryptoError::CipherFailure),
    }
}

} // verus!
