use log_codec::{logs_bloom, Bloom, Log};

/// The reference accumulator from the canonical primitives crate.
fn reference_m3_2048(inputs: &[&[u8]]) -> Vec<u8> {
    let mut bloom = alloy_primitives::Bloom::ZERO;
    for input in inputs {
        bloom.m3_2048(input);
    }
    bloom.as_slice().to_vec()
}

#[test]
fn empty_filter_is_all_zero() {
    let bloom = Bloom::new();
    assert_eq!(bloom.bytes(), &vec![0u8; 256]);
    for i in 0..2048usize {
        assert!(!bloom.bit_at(i));
    }
}

#[test]
fn accrue_matches_reference_accumulator() {
    let mut bloom = Bloom::new();
    bloom.accrue(b"hello world");
    assert_eq!(bloom.bytes(), &reference_m3_2048(&[b"hello world"]));

    let mut bloom2 = Bloom::new();
    bloom2.accrue(&[0u8; 20]);
    bloom2.accrue(&[0xFFu8; 32]);
    bloom2.accrue(b"");
    assert_eq!(bloom2.bytes(), &reference_m3_2048(&[&[0u8; 20], &[0xFFu8; 32], b""]));
}

#[test]
fn derived_bits_are_set() {
    let input = b"an indexed event";
    let mut bloom = Bloom::new();
    bloom.accrue(input);
    let hash = alloy_primitives::keccak256(input);
    for j in 0..3usize {
        let bit = ((hash[2 * j] as usize) * 256 + hash[2 * j + 1] as usize) % 2048;
        assert!(bloom.bit_at(bit));
    }
}

#[test]
fn accrue_sets_at_most_three_bits() {
    let mut bloom = Bloom::new();
    bloom.accrue(b"one input");
    let set: Vec<usize> = (0..2048usize).filter(|&i| bloom.bit_at(i)).collect();
    assert!(!set.is_empty());
    assert!(set.len() <= 3);
}

#[test]
fn accrue_is_idempotent() {
    let mut bloom = Bloom::new();
    bloom.accrue(b"repeated input");
    let once = bloom.bytes().clone();
    bloom.accrue(b"repeated input");
    assert_eq!(bloom.bytes(), &once);
}

#[test]
fn accrue_is_commutative() {
    let a = b"first input".as_slice();
    let b = b"second input".as_slice();
    let mut forward = Bloom::new();
    forward.accrue(a);
    forward.accrue(b);
    let mut backward = Bloom::new();
    backward.accrue(b);
    backward.accrue(a);
    assert_eq!(forward.bytes(), backward.bytes());
}

#[test]
fn accrue_is_monotone() {
    let mut bloom = Bloom::new();
    bloom.accrue(b"earlier");
    let before: Vec<usize> = (0..2048usize).filter(|&i| bloom.bit_at(i)).collect();
    bloom.accrue(b"later");
    bloom.accrue(b"even later");
    for i in before {
        assert!(bloom.bit_at(i));
    }
}

#[test]
fn logs_bloom_matches_reference() {
    let logs = vec![
        Log {
            address: vec![0x11u8; 20],
            topics: vec![vec![0xA1u8; 32], vec![0xA2u8; 32]],
            data: vec![1, 2, 3],
        },
        Log { address: vec![0x22u8; 20], topics: vec![], data: vec![] },
        Log { address: vec![0x33u8; 20], topics: vec![vec![0xB1u8; 32]], data: vec![9] },
    ];
    let bloom = logs_bloom(&logs);

    let mut reference = alloy_primitives::Bloom::ZERO;
    for log in &logs {
        reference.m3_2048(&log.address);
        for topic in &log.topics {
            reference.m3_2048(topic);
        }
    }
    assert_eq!(bloom.bytes().as_slice(), reference.as_slice());
}

#[test]
fn logs_bloom_of_no_records_is_empty() {
    let bloom = logs_bloom(&Vec::new());
    assert_eq!(bloom.bytes(), &vec![0u8; 256]);
}

#[test]
fn logs_bloom_ignores_payload_bytes() {
    let with_payload =
        vec![Log { address: vec![0x44u8; 20], topics: vec![vec![0x55u8; 32]], data: vec![1; 64] }];
    let without_payload =
        vec![Log { address: vec![0x44u8; 20], topics: vec![vec![0x55u8; 32]], data: vec![] }];
    assert_eq!(logs_bloom(&with_payload).bytes(), logs_bloom(&without_payload).bytes());
}
