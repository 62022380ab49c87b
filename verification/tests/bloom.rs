use peer_discovery_center::bloom::BloomFilter;

/// A filter for `expected` items of which a share of `rate` that were not inserted may seem to have
/// been.
fn filter_for(expected: usize, rate: f64) -> BloomFilter {
    let ln2 = std::f64::consts::LN_2;
    let num_bits = (-(expected as f64) * rate.ln() / (ln2 * ln2)).ceil() as usize;
    let num_bits = num_bits.max(64);
    let num_hashes = ((num_bits as f64 / expected as f64) * ln2).round() as usize;
    BloomFilter::with_size(num_bits, num_hashes)
}

#[test]
fn test_basic_insert_contains() {
    let mut bf = filter_for(1000, 0.01);
    let item = [1u8; 20];

    assert!(!bf.contains(&item));
    bf.insert(&item);
    assert!(bf.contains(&item));
}

#[test]
fn test_insert_and_check() {
    let mut bf = filter_for(1000, 0.01);
    let item = [1u8; 20];

    assert!(bf.insert_and_check(&item));
    assert!(!bf.insert_and_check(&item));
}

#[test]
fn test_false_positive_rate() {
    let mut bf = filter_for(10000, 0.01);

    for i in 0..10000u32 {
        let mut item = [0u8; 20];
        item[0..4].copy_from_slice(&i.to_be_bytes());
        bf.insert(&item);
    }

    let mut false_positives = 0;
    let total = 1000;
    for i in 10000..11000u32 {
        let mut item = [0u8; 20];
        item[0..4].copy_from_slice(&i.to_be_bytes());
        if bf.contains(&item) {
            false_positives += 1;
        }
    }

    let rate = false_positives as f64 / total as f64;
    assert!(rate < 0.05, "{}", rate);
}

#[test]
fn test_memory_usage() {
    let bf = filter_for(1_000_000, 0.01);
    assert!(bf.memory_usage() > 100_000);
    assert!(bf.memory_usage() < 5_000_000);
}

#[test]
fn test_clear() {
    let mut bf = filter_for(1000, 0.01);
    bf.insert(&[1u8; 20]);
    assert_eq!(bf.len(), 1);

    bf.clear();
    assert_eq!(bf.len(), 0);
    assert!(!bf.contains(&[1u8; 20]));
}

#[test]
fn test_merge() {
    let mut bf1 = filter_for(1000, 0.01);
    let mut bf2 = filter_for(1000, 0.01);

    bf1.insert(&[1u8; 20]);
    bf2.insert(&[2u8; 20]);

    bf1.merge(&bf2);

    assert!(bf1.contains(&[1u8; 20]));
    assert!(bf1.contains(&[2u8; 20]));
}

#[test]
fn test_default() {
    let bf = BloomFilter::default();
    assert!(bf.is_empty());
    assert!(bf.memory_usage() > 0);
}

#[test]
fn test_infohash_dedup() {
    let mut bf = filter_for(100000, 0.001);
    let mut new_count = 0;

    for i in 0..1000u32 {
        let mut ih = [0u8; 20];
        ih[0..4].copy_from_slice(&i.to_be_bytes());
        if bf.insert_and_check(&ih) {
            new_count += 1;
        }
    }

    for i in 0..1000u32 {
        let mut ih = [0u8; 20];
        ih[0..4].copy_from_slice(&i.to_be_bytes());
        if bf.insert_and_check(&ih) {
            new_count += 1;
        }
    }

    assert_eq!(new_count, 1000);
}

#[test]
fn a_cleared_filter_is_as_good_as_new() {
    let mut bf = BloomFilter::with_size(100, 3);
    assert_eq!(bf.memory_usage(), 16);
    bf.insert(&[1u8; 20]);
    bf.clear();
    assert!(bf.is_empty());
    assert_eq!(bf.memory_usage(), 16);
    for i in 0..255u8 {
        assert!(!bf.contains(&[i; 20]));
    }
}
