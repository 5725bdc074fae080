use apbf::filter::APBF;
use apbf::hash::{Hashers, Hashes};
use apbf::km::KMHashers;
use rand::rngs::StdRng;
use rand::{Rng, SeedableRng};
use std::collections::hash_map::RandomState;

#[test]
fn test_insert() {
    let k = 10;
    let l = 20;
    let m = 256;
    let mut apbf: APBF<usize, _> = APBF::new(k, l, m);

    let value = 42usize;
    apbf.insert(&value);

    for i in 0..k {
        assert_eq!(apbf.slice_count_ones(i), 1);
    }

    for i in k..(k + l) {
        assert_eq!(apbf.slice_count_ones(i), 0);
    }
}

#[test]
fn test_shift() {
    let k = 10;
    let l = 20;
    let m = 256;
    let mut apbf: APBF<u64, _> = APBF::new(k, l, m);

    let mut rng = StdRng::from_seed([0u8; 32]);
    for _ in 0..apbf.generation() {
        apbf.insert(&rng.gen::<u64>());
    }
    assert_eq!(apbf.head_index(), 0);

    apbf.insert(&rng.gen::<u64>());
    assert_eq!(apbf.head_index(), k + l - 1);
}

#[test]
fn test_contains_immediately() {
    let mut apbf: APBF<usize, _> = APBF::new(10, 20, 64);
    let value = 42usize;
    apbf.insert(&value);
    assert!(apbf.contains(&value));
}

#[test]
fn test_contains_in_window() {
    let mut apbf: APBF<usize, _> = APBF::new(10, 20, 64);
    let value = 42usize;

    apbf.insert(&value);
    let mut rng = StdRng::from_seed([0u8; 32]);
    let w = apbf.window();
    for i in 0..w {
        apbf.insert(&rng.gen::<usize>());
        assert!(
            apbf.contains(&value),
            "apbf with window of size {} should remember a value after {} insertions",
            w,
            i
        );
    }
}

#[test]
fn test_contains_forget() {
    let mut apbf: APBF<usize, _> = APBF::new(10, 20, 64);
    let value = 42usize;

    apbf.insert(&value);
    let mut rng = StdRng::from_seed([0u8; 32]);
    let w = apbf.window();
    let s = apbf.slack();

    for _ in 0..(w + s) {
        apbf.insert(&rng.gen::<usize>());
    }
    assert!(!apbf.contains(&value));
}

#[test]
fn test_configuration_identities() {
    let apbf: APBF<u64, _> = APBF::new(10, 20, 256);
    // g = floor(256 * ln 2 / 10) = 17
    assert_eq!(apbf.generation(), 17);
    assert_eq!(apbf.window(), 20 * 17);
    assert_eq!(apbf.slack(), 10 * 17);

    let small: APBF<u64, _> = APBF::new(10, 20, 64);
    // g = floor(64 * ln 2 / 10) = 4
    assert_eq!(small.generation(), 4);
    assert_eq!(small.window(), 20 * 4);
    assert_eq!(small.slack(), 10 * 4);
}

#[test]
fn test_empty_filter_negatives() {
    let apbf: APBF<u64, _> = APBF::new(10, 20, 256);
    for v in 0u64..100 {
        assert!(!apbf.contains(&v));
    }
}

#[test]
fn test_insert_twice_sets_no_new_bits() {
    let mut apbf: APBF<usize, _> = APBF::new(10, 20, 256);
    let value = 42usize;
    apbf.insert(&value);
    let counts: Vec<usize> = (0..30).map(|i| apbf.slice_count_ones(i)).collect();
    apbf.insert(&value);
    let counts_again: Vec<usize> = (0..30).map(|i| apbf.slice_count_ones(i)).collect();
    assert_eq!(counts, counts_again);
    let total: usize = counts.iter().sum();
    assert_eq!(total, 10);
}

#[test]
fn test_counter_and_rotation_boundary() {
    let mut apbf: APBF<u64, _> = APBF::new(3, 4, 128);
    assert_eq!(apbf.current_count(), 0);
    let g = apbf.generation();
    let mut rng = StdRng::from_seed([7u8; 32]);
    for t in 0..g {
        apbf.insert(&rng.gen::<u64>());
        assert_eq!(apbf.current_count(), t + 1);
        assert_eq!(apbf.head_index(), 0);
    }
    apbf.insert(&rng.gen::<u64>());
    assert_eq!(apbf.current_count(), 1);
    assert_eq!(apbf.head_index(), apbf.slices() - 1);
}

#[test]
fn test_probe_positions_stay_below_width() {
    let hashers = KMHashers::new(64);
    let hashes = hashers.hash(&12345u64);
    for i in 0..40u64 {
        assert!(hashes.get(i) < 64);
    }
}

#[test]
fn test_with_build_hashers_round_trip() {
    let hashers = KMHashers::with_build_hashers(256, RandomState::new(), RandomState::new());
    let mut apbf: APBF<u64, _> = APBF::with_hashers(10, 20, 256, hashers);
    apbf.insert(&99u64);
    assert!(apbf.contains(&99u64));
}

#[test]
fn test_insert_hashes_then_contains_hashes() {
    let hashers = KMHashers::new(64);
    let mut apbf: APBF<u64, _> =
        APBF::with_hashers(10, 20, 64, KMHashers::new(64));
    let probe = hashers.hash(&5u64);
    assert!(!apbf.contains_hashes(&probe));
    apbf.insert_hashes(&probe);
    assert!(apbf.contains_hashes(&probe));
}
