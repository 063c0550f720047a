use cryptopals::padding::pkcs7;

#[test]
fn test_pkcs7_pads_block_underflow() {
    // Len 16, padded by 4.
    let test = b"YELLOW SUBMARINE";
    let padded_block = pkcs7(test, 20);
    assert_eq!(padded_block.len(), 20);
}

#[test]
fn test_pkcs7_pads_block_overflow() {
    // Len 32, padded by 8.
    let test = b"YELLOW SUBMARINE YELLOW SUBMARINE";
    let padded_block = pkcs7(test, 40);
    assert_eq!(padded_block.len(), 40);
}

#[test]
fn test_pkcs7_nopad_matching_blocksize() {
    let test = b"YELLOW SUBMARINE YELLOW SUBMARINE YELLOW";
    let padded_block = pkcs7(test, 40);
    assert_eq!(padded_block.len(), 40);
    assert!(!padded_block.contains(&b'\x04'));
}

#[test]
fn pkcs7_appends_padding_bytes() {
    assert_eq!(pkcs7(b"YELLOW", 8), b"YELLOW\x04\x04".to_vec());
}

#[test]
fn pkcs7_length_is_a_multiple_and_aligned_input_is_kept() {
    for n in 1u8..=20 {
        for len in 0usize..45 {
            let b: Vec<u8> = (0..len).map(|i| i as u8).collect();
            let p = pkcs7(&b, n);
            assert_eq!(p.len() % n as usize, 0);
            assert!(p.len() < len + n as usize);
            assert_eq!(&p[..len], &b[..]);
            if len % n as usize == 0 {
                assert_eq!(p, b);
            }
        }
    }
}

#[test]
fn pkcs7_of_empty_buffer_is_empty() {
    assert!(pkcs7(b"", 16).is_empty());
}
