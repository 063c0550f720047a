use cryptopals::cbc::{decrypt, ecb_decrypt, encrypt, xor};
use cryptopals::error::CryptoError;

const KEY: &[u8] = b"YELLOW SUBMARINE";

#[test]
fn cbc_encrypts_and_decrypts_single_block() {
    const SOURCE: &[u8] = b"YELLOW_SUBMARINE";
    let cipher = encrypt(SOURCE, KEY).unwrap();
    assert_eq!(decrypt(cipher.as_slice(), KEY).unwrap().len(), SOURCE.len());
    assert_eq!(decrypt(cipher.as_slice(), KEY).unwrap(), SOURCE);
}

#[test]
fn encrypts_and_decrypts_single_nonconforming_block() {
    const SOURCE: &[u8] = b"YELLOW";
    let cipher = encrypt(SOURCE, KEY).unwrap();
    assert_eq!(decrypt(cipher.as_slice(), KEY).unwrap(), SOURCE);
}

#[test]
fn encrypts_and_decrypts_multiple_nonconforming_blocks() {
    const SOURCE: &[u8] = b"YELLOW SUBMARINE YELLOW SUBMARINE";
    let cipher = encrypt(SOURCE, KEY).unwrap();
    assert_eq!(decrypt(cipher.as_slice(), KEY).unwrap(), SOURCE);
}

#[test]
fn short_plaintext_gives_one_block() {
    let cipher = encrypt(b"YELLOW", KEY).unwrap();
    assert_eq!(cipher.len(), 16);
    assert_eq!(decrypt(&cipher, KEY).unwrap(), b"YELLOW".to_vec());
}

#[test]
fn ciphertext_is_not_the_plaintext() {
    let source = b"YELLOW SUBMARINEYELLOW SUBMARINE";
    let cipher = encrypt(source, KEY).unwrap();
    assert_eq!(cipher.len(), 32);
    assert_ne!(&cipher[..], &source[..]);
    // Equal plaintext blocks encrypt differently once chained.
    assert_ne!(&cipher[..16], &cipher[16..]);
}

#[test]
fn first_block_is_aes_of_the_plaintext_block() {
    // FIPS-197 appendix C.1 (AES-128), with a zero IV the first CBC block is
    // the plain AES encryption of the first plaintext block.
    let key = hex::decode("000102030405060708090a0b0c0d0e0f").unwrap();
    let plain = hex::decode("00112233445566778899aabbccddeeff").unwrap();
    let cipher = encrypt(&plain, &key).unwrap();
    assert_eq!(hex::encode(&cipher), "69c4e0d86a7b0430d8cdb78070b4c55a");
    assert_eq!(decrypt(&cipher, &key).unwrap(), plain);
}

#[test]
fn aligned_round_trip() {
    let p: Vec<u8> = (0u8..64).map(|b| b.wrapping_mul(7).wrapping_add(1)).filter(|b| *b != 4).take(48).collect();
    assert_eq!(p.len() % 16, 0);
    let c = encrypt(&p, KEY).unwrap();
    assert_eq!(c.len(), p.len());
    assert_eq!(decrypt(&c, KEY).unwrap(), p);
}

#[test]
fn empty_plaintext_gives_empty_ciphertext() {
    assert_eq!(encrypt(b"", KEY).unwrap(), Vec::<u8>::new());
    assert_eq!(decrypt(b"", KEY).unwrap(), Vec::<u8>::new());
}

#[test]
fn encrypt_rejects_wrong_key_length() {
    assert_eq!(encrypt(b"YELLOW", b"SHORT"), Err(CryptoError::InvalidKeyLength));
}

#[test]
fn decrypt_rejects_wrong_key_length() {
    assert_eq!(decrypt(&[0u8; 16], b"SHORT"), Err(CryptoError::InvalidKeyLength));
}

#[test]
fn decrypt_rejects_misaligned_ciphertext() {
    assert_eq!(decrypt(&[0u8; 15], KEY), Err(CryptoError::MisalignedCiphertext));
}

#[test]
fn xor_cycles_the_key() {
    assert_eq!(xor(&[1, 2, 3, 4, 5], &[1, 2]), vec![0, 0, 2, 6, 4]);
    assert_eq!(xor(&[], &[]), Vec::<u8>::new());
}

#[test]
fn ecb_decrypt_removes_padding() {
    let cipher = openssl::symm::encrypt(openssl::symm::Cipher::aes_128_ecb(), KEY, None, b"hello, ecb")
        .unwrap();
    assert_eq!(cipher.len(), 16);
    assert_eq!(ecb_decrypt(&cipher, KEY).unwrap(), b"hello, ecb".to_vec());
}

#[test]
fn ecb_decrypt_rejects_wrong_key_length() {
    assert_eq!(ecb_decrypt(&[0u8; 16], b"SHORT"), Err(CryptoError::InvalidKeyLength));
}

#[test]
fn ecb_decrypt_reports_bad_padding() {
    // A block of zeros under this key does not end in valid PKCS#7 padding.
    let block = openssl::symm::encrypt(openssl::symm::Cipher::aes_128_ecb(), KEY, None, &[0u8; 16])
        .unwrap();
    assert_eq!(ecb_decrypt(&block[..16], KEY), Err(CryptoError::CipherFailure));
}
