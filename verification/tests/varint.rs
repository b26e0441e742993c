use ivfpq::error::{Error, ErrorKind};
use ivfpq::varint::{
    decode_delta_varint_ids, decode_varint, encode_delta_varint_ids, encode_varint,
};

#[test]
fn test_varint_roundtrip() {
    let mut buf = Vec::new();
    encode_varint(0, &mut buf);
    encode_varint(127, &mut buf);
    encode_varint(128, &mut buf);
    encode_varint(16383, &mut buf);
    encode_varint(1_000_000, &mut buf);

    let mut pos = 0;
    assert_eq!(decode_varint(&buf, &mut pos).unwrap(), 0);
    assert_eq!(decode_varint(&buf, &mut pos).unwrap(), 127);
    assert_eq!(decode_varint(&buf, &mut pos).unwrap(), 128);
    assert_eq!(decode_varint(&buf, &mut pos).unwrap(), 16383);
    assert_eq!(decode_varint(&buf, &mut pos).unwrap(), 1_000_000);
}

#[test]
fn test_varint_above_u64_max_returns_error() {
    let mut bytes = vec![0xFFu8; 9];
    bytes.push(0x02); // 10th byte with payload > 1 at shift=63
    let mut pos = 0;
    assert!(decode_varint(&bytes, &mut pos).is_err());
}

#[test]
fn test_delta_varint_ids_roundtrip() {
    let ids = vec![3i64, 7, 12, 15, 23, 100, 200];
    let (base, encoded) = encode_delta_varint_ids(&ids);
    let decoded = decode_delta_varint_ids(base, &encoded, ids.len()).unwrap();
    assert_eq!(decoded, ids);
    // Delta-varint should be much smaller than raw int64
    assert!(encoded.len() < ids.len() * 8);
}

#[test]
fn test_large_gap_ids_roundtrip() {
    let ids = vec![i64::MIN, 0, i64::MAX];
    let (base, encoded) = encode_delta_varint_ids(&ids);
    let decoded = decode_delta_varint_ids(base, &encoded, ids.len()).unwrap();
    assert_eq!(decoded, ids);
}

#[test]
fn test_delta_ids_wraparound_returns_error() {
    // base_id = i64::MAX, delta = 1 would wrap to i64::MIN (non-monotonic)
    let mut id_bytes = Vec::new();
    encode_varint(1, &mut id_bytes);
    let result = decode_delta_varint_ids(i64::MAX, &id_bytes, 1);
    assert!(
        result.is_err(),
        "wrapped delta IDs should be rejected as non-monotonic"
    );
}

#[test]
fn varint_bytes_are_seven_bits_each() {
    let mut buf = Vec::new();
    encode_varint(300, &mut buf);
    assert_eq!(buf, vec![0xAC, 0x02]);

    let mut buf = Vec::new();
    encode_varint(u64::MAX, &mut buf);
    assert_eq!(buf.len(), 10);
    let mut pos = 0;
    assert_eq!(decode_varint(&buf, &mut pos), Ok(u64::MAX));
    assert_eq!(pos, 10);
}

#[test]
fn each_varint_error_has_an_input() {
    let mut pos = 0;
    assert_eq!(decode_varint(&[0x80, 0x80], &mut pos), Err(Error::TruncatedVarint));
    assert_eq!(pos, 2);

    let mut pos = 5;
    assert_eq!(decode_varint(&[1, 2], &mut pos), Err(Error::TruncatedVarint));
    assert_eq!(pos, 5);

    let mut bytes = vec![0x80u8; 9];
    bytes.push(0x02);
    let mut pos = 0;
    assert_eq!(decode_varint(&bytes, &mut pos), Err(Error::VarintOutOfRange));
    assert_eq!(pos, 10);

    let mut bytes = vec![0x80u8; 9];
    bytes.push(0x81);
    bytes.push(0x00);
    let mut pos = 0;
    assert_eq!(decode_varint(&bytes, &mut pos), Err(Error::VarintTooLong));
    assert_eq!(Error::VarintTooLong.kind(), ErrorKind::InvalidData);
}

#[test]
fn unsorted_ids_are_refused_when_read() {
    let (base, encoded) = encode_delta_varint_ids(&[5, 9, 7]);
    assert_eq!(base, 5);
    assert_eq!(
        decode_delta_varint_ids(base, &encoded, 3),
        Err(Error::IdsNotMonotonic)
    );
    assert_eq!(decode_delta_varint_ids(base, &encoded, 2), Ok(vec![5, 9]));
}

#[test]
fn no_ids_take_no_bytes() {
    let (base, encoded) = encode_delta_varint_ids(&[]);
    assert_eq!(base, 0);
    assert!(encoded.is_empty());
    assert_eq!(decode_delta_varint_ids(base, &encoded, 0), Ok(vec![]));
}

#[test]
fn equal_ids_are_in_order() {
    let ids = vec![-4i64, -4, -4, 2];
    let (base, encoded) = encode_delta_varint_ids(&ids);
    assert_eq!(encoded, vec![0, 0, 0, 6]);
    assert_eq!(decode_delta_varint_ids(base, &encoded, 4), Ok(ids));
}
