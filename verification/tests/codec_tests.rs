use log_codec::{DecodeError, Log};

fn sample_log() -> Log {
    Log {
        address: vec![0x11u8; 20],
        topics: vec![vec![0xAAu8; 32], vec![0xBBu8; 32], vec![0xCCu8; 32]],
        data: vec![1, 2, 3, 4, 5],
    }
}

#[test]
fn round_trip_basic() {
    let log = sample_log();
    let mut buf: Vec<u8> = Vec::new();
    let n = log.to_compact(&mut buf);
    assert_eq!(n, buf.len());
    let (decoded, consumed) = Log::from_compact(&buf, n).unwrap();
    assert_eq!(decoded, log);
    assert_eq!(consumed, n);
}

#[test]
fn round_trip_empty_topics_and_payload() {
    let log = Log { address: vec![0x22u8; 20], topics: vec![], data: vec![] };
    let mut buf: Vec<u8> = Vec::new();
    let n = log.to_compact(&mut buf);
    assert_eq!(n, 21);
    let (decoded, consumed) = Log::from_compact(&buf, n).unwrap();
    assert_eq!(decoded, log);
    assert_eq!(consumed, 21);
    assert!(decoded.topics.is_empty());
    assert!(decoded.data.is_empty());
}

#[test]
fn minimal_encoding_is_address_plus_zero_count() {
    let log = Log { address: vec![0u8; 20], topics: vec![], data: vec![] };
    let mut buf: Vec<u8> = Vec::new();
    let n = log.to_compact(&mut buf);
    assert_eq!(n, 21);
    assert_eq!(buf, vec![0u8; 21]);
    let (decoded, _) = Log::from_compact(&buf, 21).unwrap();
    assert_eq!(decoded, log);
}

#[test]
fn topic_order_is_preserved() {
    let t1 = vec![1u8; 32];
    let t2 = vec![2u8; 32];
    let t3 = vec![3u8; 32];
    let log = Log {
        address: vec![9u8; 20],
        topics: vec![t1.clone(), t2.clone(), t3.clone()],
        data: vec![],
    };
    let mut buf: Vec<u8> = Vec::new();
    let n = log.to_compact(&mut buf);
    let (decoded, _) = Log::from_compact(&buf, n).unwrap();
    assert_eq!(decoded.topics, vec![t1, t2, t3]);
}

#[test]
fn length_accounting_with_prefilled_buffer() {
    let log = sample_log();
    let mut buf: Vec<u8> = vec![0xEE; 7];
    let n = log.to_compact(&mut buf);
    assert_eq!(buf.len(), 7 + n);
    assert_eq!(&buf[..7], &[0xEE; 7][..]);
    let (decoded, consumed) = Log::from_compact(&buf[7..], n).unwrap();
    assert_eq!(decoded, log);
    assert_eq!(consumed, n);
}

#[test]
fn trailing_bytes_are_left_untouched() {
    let log = sample_log();
    let mut buf: Vec<u8> = Vec::new();
    let n = log.to_compact(&mut buf);
    buf.extend_from_slice(&[0xDE, 0xAD, 0xBE, 0xEF]);
    let (decoded, consumed) = Log::from_compact(&buf, n).unwrap();
    assert_eq!(decoded, log);
    assert_eq!(consumed, n);
    assert_eq!(&buf[consumed..], &[0xDE, 0xAD, 0xBE, 0xEF][..]);
}

#[test]
fn two_records_packed_back_to_back() {
    let first = sample_log();
    let second = Log { address: vec![0x33u8; 20], topics: vec![vec![0x44u8; 32]], data: vec![7, 8] };
    let mut buf: Vec<u8> = Vec::new();
    let n1 = first.to_compact(&mut buf);
    let n2 = second.to_compact(&mut buf);
    assert_eq!(buf.len(), n1 + n2);
    let (d1, c1) = Log::from_compact(&buf, n1).unwrap();
    assert_eq!(d1, first);
    let (d2, c2) = Log::from_compact(&buf[c1..], n2).unwrap();
    assert_eq!(d2, second);
    assert_eq!(c2, n2);
}

#[test]
fn many_topics_use_two_byte_count() {
    let topics: Vec<Vec<u8>> = (0..200u32).map(|i| vec![(i % 251) as u8; 32]).collect();
    let log = Log { address: vec![5u8; 20], topics, data: vec![42] };
    let mut buf: Vec<u8> = Vec::new();
    let n = log.to_compact(&mut buf);
    // 200 = 0b1100_1000: low seven bits with the continuation marker, then 1.
    assert_eq!(buf[20], (200 % 128 + 128) as u8);
    assert_eq!(buf[21], 1);
    assert_eq!(n, 20 + 2 + 200 * 32 + 1);
    let (decoded, _) = Log::from_compact(&buf, n).unwrap();
    assert_eq!(decoded, log);
}

#[test]
fn truncated_address_fails() {
    let buf = vec![0u8; 19];
    assert_eq!(Log::from_compact(&buf, 19), Err(DecodeError::TruncatedInput));
}

#[test]
fn missing_topic_count_fails() {
    let buf = vec![0u8; 20];
    assert_eq!(Log::from_compact(&buf, 20), Err(DecodeError::TruncatedInput));
}

#[test]
fn declared_length_beyond_buffer_fails() {
    let log = sample_log();
    let mut buf: Vec<u8> = Vec::new();
    let n = log.to_compact(&mut buf);
    assert_eq!(Log::from_compact(&buf, n + 1), Err(DecodeError::TruncatedInput));
}

#[test]
fn truncated_topics_fail() {
    // Address, a count of two topics, but bytes for only one.
    let mut buf = vec![0x77u8; 20];
    buf.push(2);
    buf.extend_from_slice(&[0x55u8; 32]);
    let len = buf.len();
    assert_eq!(Log::from_compact(&buf, len), Err(DecodeError::TruncatedInput));
}

#[test]
fn truncation_cannot_zero_pad() {
    // A full record cut one byte short must fail rather than decode a
    // shortened payload-less record: the declared length is authoritative.
    let log = Log { address: vec![0x66u8; 20], topics: vec![vec![0x10u8; 32]], data: vec![] };
    let mut buf: Vec<u8> = Vec::new();
    let n = log.to_compact(&mut buf);
    buf.pop();
    assert_eq!(Log::from_compact(&buf, n), Err(DecodeError::TruncatedInput));
}
