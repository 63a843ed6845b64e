use trixel::codec::{encode_length, MockCodec, TernaryCodec};
use trixel::ecc::{EccError, MockEcc, RsEcc};

fn mock_total(payload_len: usize, ecc_capacity: f32) -> usize {
    let prefixed = 12 + payload_len;
    if ecc_capacity < 1.0 {
        (prefixed as f32 / (1.0 - ecc_capacity)).ceil() as usize
    } else {
        prefixed * 2
    }
}

fn rs_total(payload_len: usize, ecc_capacity: f32) -> usize {
    let msg = RsEcc::message_symbols(payload_len);
    if ecc_capacity < 1.0 {
        (msg as f32 / (1.0 - ecc_capacity)).ceil() as usize
    } else {
        msg * 2
    }
}

#[test]
fn mock_ecc_roundtrip() {
    let payload = vec![0, 1, 2, 2, 1, 0, 1];
    let total = mock_total(payload.len(), 0.3);
    let framed = MockEcc::apply_parity_total(&payload, total).unwrap();
    assert_eq!(framed.len(), total);
    assert_eq!(&framed[..12], &encode_length(payload.len())[..]);
    assert_eq!(&framed[12..19], &payload[..]);
    assert!(framed[19..].iter().all(|&t| t == 0));
    assert_eq!(MockEcc::correct_errors(&framed).unwrap(), payload);
}

#[test]
fn mock_ecc_errors() {
    assert_eq!(MockEcc::apply_parity_total(&[], 40), Err(EccError::EmptyPayload));
    assert_eq!(MockEcc::correct_errors(&[0; 11]), Err(EccError::EmptyPayload));
    // the prefix claims 5 trits but only 3 follow
    let mut raw = encode_length(5).to_vec();
    raw.extend_from_slice(&[1, 1, 1]);
    assert_eq!(MockEcc::correct_errors(&raw), Err(EccError::Unrecoverable { errors: 0, erasures: 0, capacity: 3 }));
}

#[test]
fn rs_ecc_roundtrip_clean() {
    let data = b"Reed-Solomon";
    let trits = MockCodec::encode_bytes(data).unwrap();
    let framed = RsEcc::apply_parity_total(&trits, rs_total(trits.len(), 0.3)).unwrap();
    let recovered = RsEcc::correct_errors(&framed).unwrap();
    assert_eq!(MockCodec::decode_trits(&recovered).unwrap(), data);
}

#[test]
fn rs_ecc_corrects_symbol_errors() {
    // seven bytes: a message of ten symbols, so the parity (ten) is at most
    // half the codeword, where the decoder looks for it
    let data = b"fix me!";
    let trits = MockCodec::encode_bytes(data).unwrap();
    let framed = RsEcc::apply_parity_total(&trits, rs_total(trits.len(), 0.5)).unwrap();
    let mut damaged = framed.clone();
    // flip one trit in each of two data symbols
    damaged[12 + 6 * 12] = (damaged[12 + 6 * 12] + 1) % 3;
    damaged[12 + 6 * 14 + 3] = (damaged[12 + 6 * 14 + 3] + 2) % 3;
    assert_ne!(damaged, framed);
    let recovered = RsEcc::correct_errors(&damaged).unwrap();
    assert_eq!(MockCodec::decode_trits(&recovered).unwrap(), data);
}

#[test]
fn rs_ecc_corrects_erasures() {
    let data = b"erased!";
    let trits = MockCodec::encode_bytes(data).unwrap();
    let framed = RsEcc::apply_parity_total(&trits, rs_total(trits.len(), 0.5)).unwrap();
    let mut damaged = framed.clone();
    for k in [13usize, 15, 16] {
        damaged[12 + 6 * k + 1] = 3;
    }
    let recovered = RsEcc::correct_errors(&damaged).unwrap();
    assert_eq!(MockCodec::decode_trits(&recovered).unwrap(), data);
}

#[test]
fn rs_ecc_frame_layout() {
    let payload = vec![1u8; 6];
    // message: 3 header symbols + 1 data symbol; total 10 → 6 parity
    let framed = RsEcc::apply_parity_total(&payload, 10).unwrap();
    assert_eq!(framed.len(), 12 + 60);
    assert_eq!(&framed[..12], &encode_length(60)[..]);
    // data part of the codeword: [6 % 729, 6 / 729, 6, 1+3+9+27+81+243]
    let sym = |k: usize| -> usize { (0..6).map(|i| framed[12 + 6 * k + i] as usize * 3usize.pow(i as u32)).sum() };
    assert_eq!(sym(6), 6);
    assert_eq!(sym(7), 0);
    assert_eq!(sym(8), 6);
    assert_eq!(sym(9), 364);
    // parity is at least 2 and even, at most 728
    let small = RsEcc::apply_parity_total(&payload, 0).unwrap();
    assert_eq!(small.len(), 12 + 6 * (4 + 2));
    let odd = RsEcc::apply_parity_total(&payload, 7).unwrap();
    assert_eq!(odd.len(), 12 + 6 * (4 + 4));
}

#[test]
fn rs_ecc_errors() {
    assert_eq!(RsEcc::apply_parity_total(&[], 10), Err(EccError::EmptyPayload));
    assert_eq!(RsEcc::correct_errors(&[0; 5]), Err(EccError::EmptyPayload));
    // a zero length prefix
    assert_eq!(RsEcc::correct_errors(&[0; 20]), Err(EccError::EmptyPayload));
    // a prefix longer than the stream
    let mut raw = encode_length(30).to_vec();
    raw.extend_from_slice(&[0; 6]);
    assert_eq!(RsEcc::correct_errors(&raw), Err(EccError::EmptyPayload));
    // an all-zero codeword has zero syndromes but no valid header
    let mut raw = encode_length(60).to_vec();
    raw.extend_from_slice(&[0; 60]);
    assert_eq!(RsEcc::correct_errors(&raw), Err(EccError::Unrecoverable { errors: 0, erasures: 0, capacity: 0 }));
    // erasures are counted in the error
    let mut raw = encode_length(60).to_vec();
    raw.extend_from_slice(&[0; 60]);
    raw[12 + 6] = 3;
    assert_eq!(RsEcc::correct_errors(&raw), Err(EccError::Unrecoverable { errors: 0, erasures: 1, capacity: 0 }));
}

#[test]
fn rs_ecc_parity_beyond_half_the_codeword_is_not_found() {
    // six bytes: a message of nine symbols and ten parity symbols; the
    // decoder only tries parity counts up to half the codeword (nine)
    let data = b"fix me";
    let trits = MockCodec::encode_bytes(data).unwrap();
    let framed = RsEcc::apply_parity_total(&trits, rs_total(trits.len(), 0.5)).unwrap();
    assert_eq!(framed.len(), 12 + 6 * 19);
    assert_eq!(RsEcc::correct_errors(&framed), Err(EccError::Unrecoverable { errors: 0, erasures: 0, capacity: 0 }));
}
