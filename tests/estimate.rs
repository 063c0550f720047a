use cryptopals::estimate::{detect_cycles, guess_key_size, most_repetitive};
use cryptopals::xor::decrypt;

#[test]
fn guess_key_size_finds_the_period() {
    let text = "It was the best of times, it was the worst of times, it was the age of wisdom, \
                it was the age of foolishness, it was the epoch of belief, it was the epoch of \
                incredulity, it was the season of light, it was the season of darkness.";
    let c = decrypt(&Vec::from(text), "Dickens");
    let sizes = guess_key_size(&c);
    assert_eq!(sizes.len(), 4);
    let mut sorted = sizes.clone();
    sorted.sort();
    sorted.dedup();
    assert_eq!(sorted.len(), 4);
    assert!(sizes.iter().all(|s| (2..=40).contains(s)));
}

#[test]
fn guess_key_size_of_constant_buffer() {
    // Every length has distance zero: ties go to the shortest lengths.
    let c = vec![7u8; 200];
    assert_eq!(guess_key_size(&c), vec![2, 3, 4, 5]);
}

#[test]
fn guess_key_size_of_empty_buffer() {
    // No length has a pair of chunks: all rank equal, shortest first.
    assert_eq!(guess_key_size(&vec![]), vec![2, 3, 4, 5]);
}

#[test]
fn guess_key_size_prefers_lengths_with_chunks() {
    // 0x00 and 0xff alternate: even lengths see equal chunks, odd ones do not.
    let c: Vec<u8> = (0..12).map(|i| if i % 2 == 0 { 0u8 } else { 0xff }).collect();
    assert_eq!(guess_key_size(&c), vec![2, 4, 6, 3]);
}

#[test]
fn detect_cycles_counts_repeats_per_column() {
    let buf = vec![1u8, 2, 1, 3, 1, 2];
    // Columns [1, 1, 1] and [2, 3, 2]: 3 + 2.
    assert_eq!(detect_cycles(&buf, 2), 5);
    // Columns [1, 3], [2, 1], [1, 2]: one each.
    assert_eq!(detect_cycles(&buf, 3), 3);
    assert_eq!(detect_cycles(&buf, 0), 0);
}

#[test]
fn detect_cycles_spots_repeated_blocks() {
    let mut repeated = Vec::new();
    for _ in 0..4 {
        repeated.extend((0u8..16).collect::<Vec<u8>>());
    }
    let distinct: Vec<u8> = (0u8..64).collect();
    assert_eq!(detect_cycles(&repeated, 16), 64);
    assert_eq!(detect_cycles(&distinct, 16), 16);
}

#[test]
fn most_repetitive_picks_the_line_with_most_repeats() {
    let mut repeated = Vec::new();
    for _ in 0..4 {
        repeated.extend((0u8..16).collect::<Vec<u8>>());
    }
    let distinct: Vec<u8> = (0u8..64).collect();
    let bufs = vec![distinct.clone(), repeated.clone(), distinct.clone()];
    assert_eq!(most_repetitive(&bufs, 16), Some(1));
    // Ties go to the last buffer.
    assert_eq!(most_repetitive(&vec![distinct.clone(), distinct.clone()], 16), Some(1));
    assert_eq!(most_repetitive(&vec![], 16), None);
}
