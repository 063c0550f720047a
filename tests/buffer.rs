use cryptopals::buffer::chunk_by_size;

#[test]
fn test_chunk_buffer_symmetric() {
    let t = vec![b'A', b'B', b'C', b'A', b'B', b'C'];
    let chunks = chunk_by_size(&t, 3);
    assert_eq!(*chunks.get(0).unwrap(), vec!(b'A', b'A'));
    assert_eq!(*chunks.get(1).unwrap(), vec!(b'B', b'B'));
    assert_eq!(*chunks.get(2).unwrap(), vec!(b'C', b'C'));
}

#[test]
fn test_chunk_buffer_asymmetric() {
    let t = vec![b'A', b'B', b'C', b'A'];
    let chunks = chunk_by_size(&t, 3);
    assert_eq!(*chunks.get(0).unwrap(), vec!(b'A', b'A'));
    assert_eq!(*chunks.get(1).unwrap(), vec!(b'B'));
    assert_eq!(*chunks.get(2).unwrap(), vec!(b'C'));
}

#[test]
fn chunk_size_larger_than_buffer_leaves_empty_columns() {
    let t = vec![1u8, 2];
    let chunks = chunk_by_size(&t, 4);
    assert_eq!(chunks, vec![vec![1u8], vec![2u8], vec![], vec![]]);
}

#[test]
fn chunk_size_zero_gives_no_columns() {
    let t = vec![1u8, 2, 3];
    assert!(chunk_by_size(&t, 0).is_empty());
}

#[test]
fn chunk_of_empty_buffer() {
    let t: Vec<u8> = vec![];
    assert_eq!(chunk_by_size(&t, 2), vec![Vec::<u8>::new(), Vec::new()]);
}
