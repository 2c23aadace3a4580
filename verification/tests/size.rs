use tickpack::size::{decode, encode, encode_with};
use tickpack::DecodeError;

#[test]
fn extremes_roundtrip_across_blocks() {
    let v = vec![i64::MIN, i64::MAX, 0, -1, 100, 100, 200, i64::MAX, i64::MIN];
    for bs in 1..=10 {
        assert_eq!(decode(&encode_with(&v, bs)).unwrap(), v, "block size {bs}");
    }
}

#[test]
fn frame_of_reference_shrinks_round_lots() {
    let v: Vec<i64> = (0..1000).map(|i| 1_000_000 + (i % 5) * 100).collect();
    let enc = encode(&v);
    // Offsets up to 400 take two bytes; without the reference each value
    // would take three.
    assert!(enc.len() < 2 * v.len() + 16, "{} bytes", enc.len());
    assert_eq!(decode(&enc).unwrap(), v);
}

#[test]
fn empty_and_truncated() {
    assert_eq!(decode(&encode(&[])).unwrap(), Vec::<i64>::new());
    let enc = encode(&[5, 6, 7]);
    for cut in 0..enc.len() {
        assert!(decode(&enc[..cut]).is_err());
    }
    let mut extra = enc.clone();
    extra.push(0);
    assert!(decode(&extra).is_err());
}

#[test]
fn size_bytes_are_counts_minimum_and_offsets() {
    assert_eq!(encode_with(&[5, 6, 7], 2), vec![3, 2, 10, 0, 1, 14, 0]);
}

#[test]
fn size_errors_name_their_reason() {
    assert_eq!(
        decode(&[1, 0]),
        Err(DecodeError::Corrupt("zero block size"))
    );
    let mut extra = encode(&[5, 6, 7]);
    extra.push(0);
    assert_eq!(
        decode(&extra),
        Err(DecodeError::Corrupt("trailing bytes after size column"))
    );
    assert_eq!(decode(&[3]), Err(DecodeError::UnexpectedEof));
}
