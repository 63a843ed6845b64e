use trixel::codec::{decode_length, encode_length, CodecError, MockCodec, TernaryCodec, LENGTH_PREFIX_TRITS};

#[test]
fn codec_roundtrip() {
    let data = b"Hello, Trixel!";
    let trits = MockCodec::encode_bytes(data).unwrap();
    let decoded = MockCodec::decode_trits(&trits).unwrap();
    assert_eq!(decoded, data);
}

#[test]
fn codec_all_byte_values() {
    let data: Vec<u8> = (0..=255).collect();
    let trits = MockCodec::encode_bytes(&data).unwrap();
    let decoded = MockCodec::decode_trits(&trits).unwrap();
    assert_eq!(decoded, data);
}

#[test]
fn codec_invalid_trit() {
    let bad = vec![0, 1, 5, 0, 0, 0];
    assert!(MockCodec::decode_trits(&bad).is_err());
}

#[test]
fn codec_bad_length() {
    let bad = vec![0, 1, 2];
    assert!(MockCodec::decode_trits(&bad).is_err());
}

#[test]
fn codec_encodes_byte_as_six_digits() {
    // 200 = 2·81 + 1·27 + 1·9 + 0·3 + 2 = 0b... in base 3: 21102
    let trits = MockCodec::encode_bytes(&[200]).unwrap();
    assert_eq!(trits, vec![2, 0, 1, 1, 2, 0]);
}

#[test]
fn codec_error_variants() {
    assert_eq!(MockCodec::decode_trits(&[0, 1, 2]), Err(CodecError::BadLength(3)));
    assert_eq!(MockCodec::decode_trits(&[0, 0, 0, 0, 0, 0, 0, 1, 5, 0, 0, 0]), Err(CodecError::InvalidTrit(5, 8)));
    // 2 + 2·3 + 2·9 + 2·27 + 2·81 + 2·243 = 728 > 255
    assert_eq!(MockCodec::decode_trits(&[2, 2, 2, 2, 2, 2]), Err(CodecError::Overflow(728)));
    // 255 = 0 + 1·3 + 1·9 + 0·27 + 0·81 + 1·243 is the largest byte
    assert_eq!(MockCodec::decode_trits(&[0, 1, 1, 0, 0, 1]), Ok(vec![255]));
    assert_eq!(MockCodec::decode_trits(&[1, 1, 1, 0, 0, 1]), Err(CodecError::Overflow(256)));
}

#[test]
fn length_prefix_roundtrip() {
    assert_eq!(LENGTH_PREFIX_TRITS, 12);
    for &n in &[0usize, 1, 2, 3, 728, 729, 12345, 531440] {
        let t = encode_length(n);
        assert!(t.iter().all(|&d| d < 3));
        assert_eq!(decode_length(&t), n);
    }
    assert_eq!(encode_length(5), [2, 1, 0, 0, 0, 0, 0, 0, 0, 0, 0, 0]);
    // values of 3^12 and more keep only their low digits
    assert_eq!(decode_length(&encode_length(531441 + 7)), 7);
    // shorter prefixes read what is there
    assert_eq!(decode_length(&[1, 2]), 7);
}
