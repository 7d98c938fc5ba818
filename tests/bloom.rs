use melt_rs::bloom::{estimate_parameters, BloomFilter, DEFAULT_RATIO};
use melt_rs::bucket::Bucket;

#[test]
fn test_new() {
    let num_bits = 100;
    let hashes = 5;
    let bf = BloomFilter::new(num_bits, hashes);
    assert_eq!(bf.num_bits(), num_bits);
    assert_eq!(bf.hashes(), hashes);
    assert_eq!(bf.get_bitset().len(), (num_bits + 127) / 128);
}

#[test]
fn test_add() {
    let mut bf = BloomFilter::new(100, 5);
    bf.add(&"hello");
    let bitset = bf.get_bitset();
    assert_ne!(bitset[0], 0);
}

#[test]
fn bloom_lengths_round_up_to_words() {
    assert_eq!(BloomFilter::new(0, 1).get_bitset().len(), 0);
    assert_eq!(BloomFilter::new(128, 1).get_bitset().len(), 1);
    assert_eq!(BloomFilter::new(129, 1).get_bitset().len(), 2);
}

#[test]
fn bloom_add_is_deterministic_and_bounded() {
    let mut a = BloomFilter::new(200, 3);
    let mut b = BloomFilter::new(200, 3);
    a.add("feature");
    b.add("feature");
    assert_eq!(a.get_bitset(), b.get_bitset());
    let ones: u32 = a.get_bitset().iter().map(|w| w.count_ones()).sum();
    assert!(ones >= 1 && ones <= 3);
    // no bit at or past position 200 is set
    assert_eq!(a.get_bitset()[1] >> 72, 0);
}

#[test]
fn estimator_values() {
    assert_eq!(estimate_parameters(1, DEFAULT_RATIO), Some((1, 2)));
    assert_eq!(estimate_parameters(2, DEFAULT_RATIO), Some((1, 2)));
    assert_eq!(estimate_parameters(3, DEFAULT_RATIO), Some((1, 1)));
    assert_eq!(estimate_parameters(36, DEFAULT_RATIO), Some((1, 1)));
    assert_eq!(estimate_parameters(1000, DEFAULT_RATIO), Some((9, 1)));
    assert_eq!(estimate_parameters(100000, DEFAULT_RATIO), Some((831, 1)));
    // p = 0.01
    assert_eq!(estimate_parameters(100, 9_585_058_377), Some((8, 7)));
}

#[test]
fn estimator_rejects_parameters_that_cannot_be_held() {
    assert_eq!(estimate_parameters(usize::MAX, u64::MAX), None);
}

#[test]
fn bucket_fills_and_searches() {
    let mut b = Bucket::new(1, 2);
    assert!(!b.is_full());
    let feats = vec!["abc".to_string(), "bcd".to_string()];
    for key in 0..128usize {
        b.add_message(&feats, key + 10);
    }
    assert!(b.is_full());
    assert_eq!(b.len(), 128);
    let mut filter = BloomFilter::new(128, 2);
    filter.add("abc");
    let word = filter.get_bitset()[0];
    let bits: Vec<u128> = (0..128u128).filter(|j| word & (1u128 << j) != 0).collect();
    let hits = b.search(&bits);
    assert_eq!(hits, (10..138).collect::<Vec<usize>>());
    let any = b.search_or(&bits);
    assert_eq!(any.len(), 128);
    assert!(b.search_or(&[]).is_empty());
}
