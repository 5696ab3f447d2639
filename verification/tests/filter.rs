//! Membership filters.

use blaze::storage::filter::{clamp_filter_bits, overlay_key, BlockedFilter, FilterError, DEFAULT_FILTER_BITS};

#[test]
fn every_member_is_reported_present() {
    let keys: Vec<u64> = (0..50_000).map(|i| i * 7 + 3).collect();
    let f = BlockedFilter::build(&keys, keys.len(), DEFAULT_FILTER_BITS);
    for k in &keys {
        assert!(f.may_contain(*k), "false negative on {k}");
    }
}

#[test]
fn false_positive_rate_is_low_enough_to_be_worth_it() {
    let keys: Vec<u64> = (0..100_000u64).map(|i| i * 3).collect();
    let f = BlockedFilter::build(&keys, keys.len(), DEFAULT_FILTER_BITS);
    let mut fp = 0;
    let trials = 100_000;
    for i in 0..trials {
        let probe = i * 3 + 1;
        if f.may_contain(probe) {
            fp += 1;
        }
    }
    let rate = fp as f64 / trials as f64;
    assert!(
        rate < 0.06,
        "false positive rate {rate:.3} too high to pay for"
    );
    assert!(
        f.heap_bytes() <= keys.len() * 2,
        "filter is larger than sized"
    );
}

#[test]
fn fewer_bits_trade_accuracy_for_heap_and_never_correctness() {
    let keys: Vec<u64> = (0..50_000u64).map(|i| i * 7 + 3).collect();
    let mut sizes = Vec::new();
    for bits in [4usize, 8, 16] {
        let f = BlockedFilter::build_with(&keys, keys.len(), bits)
            .expect("nonzero bits builds a filter");
        for k in &keys {
            assert!(f.may_contain(*k), "false negative at {bits} bits on {k}");
        }
        sizes.push(f.heap_bytes());
    }
    assert!(
        sizes[0] < sizes[1] && sizes[1] < sizes[2],
        "heap must scale with bits per key, got {sizes:?}"
    );

    assert!(BlockedFilter::build_with(&keys, keys.len(), 0).is_none());
}

#[test]
fn roundtrips_through_bytes() {
    let keys: Vec<u64> = (0..5_000).map(|i| i * 11).collect();
    let f = BlockedFilter::build(&keys, keys.len(), DEFAULT_FILTER_BITS);
    let back = BlockedFilter::decode(&f.encode()).unwrap();
    for k in &keys {
        assert!(back.may_contain(*k));
    }
    assert_eq!(back.heap_bytes(), f.heap_bytes());
}

#[test]
fn rejects_corrupt_blobs() {
    assert!(BlockedFilter::decode(&[1, 2, 3]).is_err());
    let f = BlockedFilter::build(&[1u64, 2, 3], 3, DEFAULT_FILTER_BITS);
    let mut bad = f.encode().to_vec();
    bad.truncate(bad.len() - 1);
    assert!(BlockedFilter::decode(&bad).is_err());
    let mut wrong_magic = f.encode().to_vec();
    wrong_magic[0] ^= 0xFF;
    assert!(BlockedFilter::decode(&wrong_magic).is_err());
}

#[test]
fn overlay_keys_separate_scopes() {
    let f = BlockedFilter::build(
        &(1..=200u32).map(|s| overlay_key(s, 42)).collect::<Vec<u64>>(),
        200,
        DEFAULT_FILTER_BITS,
    );
    for s in 1..=200u32 {
        assert!(f.may_contain(overlay_key(s, 42)));
    }
    let misses = (10_000..10_500u32)
        .filter(|&s| !f.may_contain(overlay_key(s, 42)))
        .count();
    assert!(
        misses > 400,
        "scope is not discriminating: {misses}/500 missed"
    );
}

#[test]
fn filters_say_why_they_do_not_decode() {
    assert!(matches!(BlockedFilter::decode(&[1, 2, 3]), Err(FilterError::Truncated)));
    let f = BlockedFilter::build(&[5u64], 1, 8);
    let mut bytes = f.encode().to_vec();
    assert_eq!(bytes.len(), 8 + 64);
    assert_eq!(f.heap_bytes(), 64);
    let mut long = bytes.clone();
    long.push(0);
    assert!(matches!(BlockedFilter::decode(&long), Err(FilterError::LengthMismatch)));
    bytes[0] ^= 1;
    assert!(matches!(BlockedFilter::decode(&bytes), Err(FilterError::WrongMagic(_))));
}

#[test]
fn filter_bits_are_clamped() {
    assert_eq!(clamp_filter_bits(0), 0);
    assert_eq!(clamp_filter_bits(8), 8);
    assert_eq!(clamp_filter_bits(1_000_000), 64);
}

#[test]
fn an_overlay_key_is_not_its_node() {
    assert_eq!(overlay_key(0, 42), 0xbdd7_3226_2feb_6e95);
    assert_eq!(overlay_key(1, 42), 0x1a33_a47a_007d_3196);
    assert_eq!(overlay_key(200, 42), 0x82d4_4e85_4b05_eff6);
    assert_eq!(overlay_key(0xff_ffff, 42), 0x9a85_a429_2a71_975b);
    assert_eq!(overlay_key(0x100_0001, 42), 0x8be8_7a10_895d_47f3);
    assert_ne!(overlay_key(0, 42), 42);
    assert_ne!(overlay_key(1, 42), overlay_key(2, 42));
    // Scopes that differ in their highest bits alone.
    assert_ne!(overlay_key(1, 42), overlay_key(0x100_0001, 42));
    assert_ne!(overlay_key(0, 42), overlay_key(0x8000_0000, 42));
    assert_ne!(overlay_key(1, 42), overlay_key(1, 43));
}
