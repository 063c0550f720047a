use cryptopals::error::CryptoError;
use cryptopals::xor::{
    best_decryption, decrypt, do_key_speculation, do_single_letter_key_speculation, frequency_score,
    hamming_distance, score,
};
use hex::FromHex;

#[test]
fn test_hamming_distance() {
    let dist = hamming_distance(vec![0], vec![1]);
    assert_eq!(dist, Ok(1));
}

#[test]
fn test_crypto_example() {
    let s1 = Vec::from("this is a test");
    let s2 = Vec::from("wokka wokka!!!");
    assert_eq!(hamming_distance(s1, s2), Ok(37));
}

#[test]
fn test_decrypt_is_reversible() {
    let source = "hello i am a fake phrase";
    let phrase = decrypt(&Vec::from(source), "z");
    assert_eq!(decrypt(&Vec::from(phrase), "z"), source.as_bytes());
}

#[test]
fn test_scoring_can_guess_key() {
    let source = "hello i am a fake phrase";
    let phrase = decrypt(&Vec::from(source), "z");
    // Can derive encryption key using scoring algorithm.
    assert_eq!(do_single_letter_key_speculation(Vec::from(phrase)).key, 'z');
}

#[test]
fn test_scoring_can_guess_uppercase_key() {
    let source = "hello i am a FAKE phrase";
    let phrase = decrypt(&Vec::from(source), "I");
    // Can derive encryption key using scoring algorithm.
    assert_eq!(do_single_letter_key_speculation(Vec::from(phrase)).key, 'I');
}

#[test]
fn test_do_key_speculation() {
    // Encrypted with "ICE".
    const CIPHER: &'static str = "0b3637272a2b2e63622c2e69692a23693a2a3c6324202d623d63343c2a26226324272765272a282b2f20430a652e2c652a3124333a653e2b2027630c692b20283165286326302e27282f";
    let key = do_key_speculation(&Vec::from_hex(CIPHER).unwrap(), 3);
    assert_eq!(key.into_iter().collect::<String>().as_str(), "ICE");
}

#[test]
fn hamming_distance_rejects_unequal_lengths() {
    assert_eq!(hamming_distance(vec![0, 1], vec![0]), Err(CryptoError::LengthMismatch));
    assert_eq!(hamming_distance(vec![0], vec![0, 1]), Err(CryptoError::LengthMismatch));
}

#[test]
fn hamming_distance_of_empty_and_full_bytes() {
    assert_eq!(hamming_distance(vec![], vec![]), Ok(0));
    assert_eq!(hamming_distance(vec![0xff, 0x0f], vec![0x00, 0x00]), Ok(12));
}

#[test]
fn decrypt_twice_with_every_single_byte_key_is_identity() {
    let b: Vec<u8> = (0u8..=255).collect();
    for k in 0x20u8..=0x7e {
        let key = String::from_utf8(vec![k]).unwrap();
        let once = decrypt(&b, &key);
        assert_ne!(once, b);
        assert_eq!(decrypt(&once, &key), b);
    }
}

#[test]
fn decrypt_cycles_a_multibyte_key() {
    assert_eq!(decrypt(&vec![0, 0, 0, 0], "ab"), vec![b'a', b'b', b'a', b'b']);
    assert_eq!(decrypt(&vec![], ""), Vec::<u8>::new());
}

#[test]
fn score_exact_values() {
    assert_eq!(score(""), 0);
    assert_eq!(score("a"), 1957);
    assert_eq!(score("hello world"), 1156);
    assert_eq!(score("!!"), 2120);
    // Two bytes, one character outside the letters.
    assert_eq!(score("é"), 1620);
}

#[test]
fn score_lowercases_and_penalises_capitals() {
    // Five capitals in eleven bytes is not more than half: no penalty.
    assert_eq!(score("HELLO world"), 1156);
    // Six capitals are: the divergence doubles.
    assert_eq!(score("HELLO World"), 2312);
    assert_eq!(score("A"), 3914);
}

#[test]
fn frequency_score_exact_values() {
    assert_eq!(frequency_score("a", 0, 1), 1957);
    assert_eq!(frequency_score("a", 1, 1), 3914);
    assert_eq!(frequency_score("hello world", 6, 11), 2312);
    assert_eq!(frequency_score("abc", 3, 0), 0);
}

#[test]
fn english_scores_lower_than_noise() {
    assert!(score("the quick brown fox jumps over the lazy dog") < score("qzxj#@!kqz*&%vvxq$$^^zz"));
}

#[test]
fn recovers_single_byte_key_of_english_text() {
    let source = "now that the party is jumping";
    let c = decrypt(&Vec::from(source), "X");
    let g = do_single_letter_key_speculation(c);
    assert_eq!(g.key, 'X');
    assert_eq!(g.phrase, source);
    assert_eq!(g.score, score(source));
}

#[test]
fn undecodable_candidates_score_worst() {
    // 0xff XOR any printable byte has its top bit set: no candidate is UTF-8.
    let g = do_single_letter_key_speculation(vec![0xff]);
    assert_eq!(g.key, ' ');
    assert_eq!(g.phrase, "");
    assert_eq!(g.score, u64::MAX);
}

#[test]
fn recovers_repeating_key_ice() {
    let text = "Burning 'em, if you ain't quick and nimble I go crazy when I hear a cymbal";
    let c = decrypt(&Vec::from(text), "ICE");
    let key: String = do_key_speculation(&c, 3).into_iter().collect();
    assert_eq!(key, "ICE");
}

#[test]
fn key_speculation_of_zero_length() {
    assert!(do_key_speculation(&vec![1, 2, 3], 0).is_empty());
}

#[test]
fn best_decryption_picks_lowest_scoring_plaintext() {
    let text = "a plain english sentence with common letters";
    let c = decrypt(&Vec::from(text), "key");
    let keys = vec![b"kez".to_vec(), b"key".to_vec(), b"q".to_vec()];
    assert_eq!(best_decryption(&c, &keys), Some(Vec::from(text)));
    assert_eq!(best_decryption(&c, &vec![]), None);
}
