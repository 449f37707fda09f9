use bff::bloom::{count_ones, BloomFilter};
use bff::sizing::number_of_hashers;

fn seeds() -> Vec<[u64; 4]> {
    vec![[1, 2, 3, 4], [5, 6, 7, 8], [9, 10, 11, 12]]
}

#[test]
fn fresh_filter_is_empty() {
    let filter = BloomFilter::with_seeds(64, seeds());
    assert_eq!(filter.num_words(), 16);
    assert_eq!(filter.num_hashers(), 3);
    assert_eq!(filter.size_in_bytes(), 64);
    assert_eq!(filter.count_set_bits(), 0);
    assert!(!filter.contains(&["a", "b", "c"]));
}

#[test]
fn size_is_rounded_down_to_whole_words() {
    let filter = BloomFilter::with_seeds(67, seeds());
    assert_eq!(filter.size_in_bytes(), 64);
}

#[test]
fn inserted_ngrams_are_contained() {
    let mut filter = BloomFilter::with_seeds(4096, seeds());
    let grams: Vec<Vec<&str>> = vec![vec!["a", "b", "c"], vec!["b", "c", "d"], vec!["x"], vec![]];
    for g in &grams {
        filter.insert(g);
    }
    for g in &grams {
        assert!(filter.contains(g));
    }
}

#[test]
fn insert_hashes_sets_word_and_bit() {
    let mut filter = BloomFilter::with_seeds(16, seeds());
    // 4 words: hash 70 selects word (70 / 32) % 4 = 2, bit 70 % 32 = 6.
    filter.insert_hashes(&vec![70]);
    assert_eq!(filter.word(2), 1 << 6);
    assert_eq!(filter.word(0), 0);
    assert_eq!(filter.count_set_bits(), 1);
    assert!(filter.contains_hashes(&vec![70]));
    assert!(!filter.contains_hashes(&vec![70, 71]));
    // 32 * 4 + 70 selects the same bit.
    assert!(filter.contains_hashes(&vec![198]));
}

#[test]
fn no_hash_is_always_contained() {
    let filter = BloomFilter::with_seeds(16, Vec::new());
    assert!(filter.contains_hashes(&Vec::new()));
    assert!(filter.contains(&["anything"]));
}

#[test]
fn hashes_depend_on_seed_and_tokens() {
    let filter = BloomFilter::with_seeds(16, seeds());
    let a = filter.hashes(&["a", "b"]);
    let b = filter.hashes(&["a", "b"]);
    let c = filter.hashes(&["b", "a"]);
    assert_eq!(a.len(), 3);
    assert_eq!(a, b);
    assert_ne!(a, c);
    assert_ne!(a[0], a[1]);
}

#[test]
fn new_filter_has_random_seeds() {
    let filter = BloomFilter::new(128, 5);
    assert_eq!(filter.num_hashers(), 5);
    assert_eq!(filter.num_words(), 32);
    assert_eq!(filter.count_set_bits(), 0);
}

#[test]
fn random_seeds_differ() {
    let a = BloomFilter::new(64, 4);
    let b = BloomFilter::new(64, 4);
    let seeds_a: Vec<[u64; 4]> = (0..4).map(|i| a.seed(i)).collect();
    let seeds_b: Vec<[u64; 4]> = (0..4).map(|i| b.seed(i)).collect();
    assert_ne!(seeds_a, seeds_b);
    assert_ne!(seeds_a[0], seeds_a[1]);
}

#[test]
fn inserts_never_clear_a_bit() {
    let mut f = BloomFilter::with_seeds(64, seeds());
    let mut inserted: Vec<Vec<u64>> = Vec::new();
    let mut set_bits = 0;
    for i in 0..200u64 {
        let batch = vec![i * 7919, i * 104729 + 13, u64::MAX - i];
        f.insert_hashes(&batch);
        inserted.push(batch);
        assert!(f.count_set_bits() >= set_bits);
        set_bits = f.count_set_bits();
        for earlier in &inserted {
            assert!(f.contains_hashes(earlier));
        }
    }
}

#[test]
fn set_bits_of_a_word_are_counted() {
    assert_eq!(count_ones(0), 0);
    assert_eq!(count_ones(1), 1);
    assert_eq!(count_ones(0x8000_0000), 1);
    assert_eq!(count_ones(0xf0f0_00ff), 16);
    assert_eq!(count_ones(u32::MAX), 32);
    for word in [3u32, 0x1234_5678, 0xdead_beef, 0x7fff_ffff] {
        assert_eq!(count_ones(word), word.count_ones());
    }
}

#[test]
fn a_number_of_hashers_that_was_asked_for_stands() {
    assert_eq!(number_of_hashers(0, 7), 7);
    assert_eq!(number_of_hashers(3, 7), 3);
    assert_eq!(number_of_hashers(0, 0), 0);
    assert_eq!(number_of_hashers(12, 0), 12);
}
