use bff::bloom::BloomFilter;
use bff::codec::{FilterFileError, MAGIC, VERSION};

fn sample() -> BloomFilter {
    let mut f = BloomFilter::with_seeds(32, vec![[1, 2, 3, 4], [0xffff_ffff_ffff_ffff, 6, 7, 8]]);
    f.insert(&["a", "b"]);
    f.insert_hashes(&vec![0, 33, 255]);
    f
}

fn words_of(f: &BloomFilter) -> Vec<u32> {
    (0..f.num_words()).map(|i| f.word(i)).collect()
}

fn seeds_of(f: &BloomFilter) -> Vec<[u64; 4]> {
    (0..f.num_hashers()).map(|i| f.seed(i)).collect()
}

#[test]
fn file_layout_is_little_endian() {
    let mut f = BloomFilter::with_seeds(8, vec![[1, 2, 3, 0x0102_0304_0506_0708]]);
    f.insert_hashes(&vec![33]);
    let bytes = f.to_bytes().unwrap();
    let mut expected: Vec<u8> = Vec::new();
    expected.extend_from_slice(&[0x17, 0xF1, 0xF0, 0x81]);
    expected.extend_from_slice(&[1, 0, 0, 0]);
    expected.extend_from_slice(&[1, 0, 0, 0]);
    expected.extend_from_slice(&[1, 0, 0, 0, 0, 0, 0, 0]);
    expected.extend_from_slice(&[2, 0, 0, 0, 0, 0, 0, 0]);
    expected.extend_from_slice(&[3, 0, 0, 0, 0, 0, 0, 0]);
    expected.extend_from_slice(&[8, 7, 6, 5, 4, 3, 2, 1]);
    expected.extend_from_slice(&[2, 0, 0, 0, 0, 0, 0, 0]);
    expected.extend_from_slice(&[0, 0, 0, 0]);
    expected.extend_from_slice(&[2, 0, 0, 0]);
    assert_eq!(bytes, expected);
    assert_eq!(MAGIC, 0x81F0_F117);
    assert_eq!(VERSION, 1);
}

#[test]
fn written_filter_reads_back_the_same() {
    let f = sample();
    let bytes = f.to_bytes().unwrap();
    assert_eq!(bytes.len(), 20 + 32 * 2 + 4 * 8);
    let g = BloomFilter::from_bytes(&bytes).unwrap();
    assert_eq!(seeds_of(&g), seeds_of(&f));
    assert_eq!(g.num_hashers(), f.num_hashers());
    assert_eq!(words_of(&g), words_of(&f));
    assert!(g.contains(&["a", "b"]));
    assert!(!g.contains(&["b", "a"]));
}

#[test]
fn empty_filter_round_trips() {
    let f = BloomFilter::with_seeds(0, Vec::new());
    let bytes = f.to_bytes().unwrap();
    assert_eq!(bytes.len(), 20);
    let g = BloomFilter::from_bytes(&bytes).unwrap();
    assert_eq!(g.num_words(), 0);
    assert_eq!(g.num_hashers(), 0);
}

#[test]
fn bad_magic_is_invalid() {
    let mut bytes = sample().to_bytes().unwrap();
    bytes[0] ^= 1;
    assert_eq!(BloomFilter::from_bytes(&bytes).err(), Some(FilterFileError::InvalidFile));
    assert_eq!(BloomFilter::from_bytes(&bytes[..4]).err(), Some(FilterFileError::InvalidFile));
}

#[test]
fn bad_version_is_invalid() {
    let mut bytes = sample().to_bytes().unwrap();
    bytes[4] = 2;
    assert_eq!(BloomFilter::from_bytes(&bytes).err(), Some(FilterFileError::InvalidFile));
}

#[test]
fn short_files_end_unexpectedly() {
    let bytes = sample().to_bytes().unwrap();
    for cut in [0, 3, 4, 7, 8, 11, 12, 50, 83, 84, bytes.len() - 1] {
        assert_eq!(
            BloomFilter::from_bytes(&bytes[..cut]).err(),
            Some(FilterFileError::UnexpectedEof),
            "cut at {}",
            cut
        );
    }
}

#[test]
fn bytes_behind_the_filter_are_ignored() {
    let f = sample();
    let mut bytes = f.to_bytes().unwrap();
    bytes.extend_from_slice(&[9, 9, 9]);
    let g = BloomFilter::from_bytes(&bytes).unwrap();
    assert_eq!(words_of(&g), words_of(&f));
}
