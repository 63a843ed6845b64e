use trixel::gf3::GF3;
use trixel::rs::{poly_degree, poly_eval, poly_mul, poly_trim, ReedSolomon, RsError};

#[test]
fn rs_encode_places_data_after_parity() {
    let gf = GF3::new();
    let rs = ReedSolomon::new(&gf, 4);
    assert_eq!(rs.parity_count, 4);
    let data = vec![5u16, 700, 0, 13];
    let cw = rs.encode(&gf, &data);
    assert_eq!(cw.len(), 8);
    assert_eq!(&cw[4..], &data[..]);
    // the codeword vanishes at α¹..α⁴
    for i in 1..=4 {
        assert_eq!(poly_eval(&gf, &cw, gf.exp(i)), 0);
    }
}

#[test]
fn rs_decode_clean_and_corrupted() {
    let gf = GF3::new();
    let rs = ReedSolomon::new(&gf, 6);
    let data: Vec<u16> = (0..10).map(|i| (i * 77 + 5) % 729).collect();
    let cw = rs.encode(&gf, &data);
    assert_eq!(rs.decode(&gf, &cw, &[]), Ok(data.clone()));
    // three symbol errors
    let mut bad = cw.clone();
    bad[1] = gf.add(bad[1], 100);
    bad[7] = gf.add(bad[7], 1);
    bad[12] = gf.add(bad[12], 500);
    assert_eq!(rs.decode(&gf, &bad, &[]), Ok(data.clone()));
    // six erasures
    let mut erased = cw.clone();
    let pos = [0usize, 3, 5, 8, 11, 15];
    for &p in &pos {
        erased[p] = 0;
    }
    assert_eq!(rs.decode(&gf, &erased, &pos), Ok(data.clone()));
    // too many erasures
    let many: Vec<usize> = (0..7).collect();
    assert_eq!(rs.decode(&gf, &erased, &many), Err(RsError::TooManyErasures { erasures: 7, capacity: 6 }));
}

#[test]
fn rs_decode_reports_excess_errors() {
    let gf = GF3::new();
    let rs = ReedSolomon::new(&gf, 2);
    let data = vec![1u16, 2, 3];
    let cw = rs.encode(&gf, &data);
    let mut bad = cw.clone();
    bad[2] = gf.add(bad[2], 9);
    bad[3] = gf.add(bad[3], 4);
    let r = rs.decode(&gf, &bad, &[]);
    assert_ne!(r, Ok(data));
}

#[test]
fn poly_helpers() {
    let gf = GF3::new();
    // (1 + x)(1 + x) = 1 + 2x + x²
    assert_eq!(poly_mul(&gf, &[1, 1], &[1, 1]), vec![1, 2, 1]);
    assert_eq!(poly_mul(&gf, &[], &[1, 1]), Vec::<u16>::new());
    assert_eq!(poly_trim(&[3, 0, 4, 0, 0]), vec![3, 0, 4]);
    assert_eq!(poly_trim(&[0, 0]), vec![0]);
    assert_eq!(poly_degree(&[3, 0, 4, 0, 0]), 2);
    assert_eq!(poly_degree(&[0, 0]), 0);
    // p(x) = 2 + x at x = 1 is 3 (the symbol x + 0 = digit pattern [0,1] → 3)
    assert_eq!(poly_eval(&gf, &[2, 1], 1), gf.add(2, 1));
}

#[test]
fn rs_clean_codeword_decodes_whatever_erasures_are_reported() {
    let gf = GF3::new();
    for p in [2usize, 4, 7, 10] {
        let rs = ReedSolomon::new(&gf, p);
        let data: Vec<u16> = (0..9).map(|i| (i * 131 + 17) % 729).collect();
        let cw = rs.encode(&gf, &data);
        for i in 1..=p {
            assert_eq!(poly_eval(&gf, &cw, gf.exp(i)), 0);
        }
        assert_eq!(rs.decode(&gf, &cw, &[]), Ok(data.clone()));
        assert_eq!(rs.decode(&gf, &cw, &[0, 3]), Ok(data.clone()));
    }
}

fn sample_codeword(gf: &GF3, rs: &ReedSolomon) -> (Vec<u16>, Vec<u16>) {
    let data: Vec<u16> = (0..8).map(|i| (i * 97 + 11) % 729).collect();
    let cw = rs.encode(gf, &data);
    (data, cw)
}

#[test]
fn rs_three_errors_beyond_two_parity_pairs_fail_the_chien_search() {
    let gf = GF3::new();
    let rs = ReedSolomon::new(&gf, 4);
    let (_, cw) = sample_codeword(&gf, &rs);
    let mut bad = cw.clone();
    for k in 0..3usize {
        bad[k * 2 + 1] = gf.add(bad[k * 2 + 1], (k as u16) * 50 + 7);
    }
    assert_eq!(rs.decode(&gf, &bad, &[]), Err(RsError::ChienSearchFailed { expected: 2, found: 0 }));
}

#[test]
fn rs_erasures_plus_an_error_over_capacity_are_too_many_errors() {
    let gf = GF3::new();
    let rs = ReedSolomon::new(&gf, 4);
    let (_, cw) = sample_codeword(&gf, &rs);
    let er = [0usize, 2, 4];
    let mut bad = cw.clone();
    for &e in &er {
        bad[e] = 0;
    }
    let last = bad.len() - 1;
    bad[last] = gf.add(bad[last], 5);
    assert_eq!(
        rs.decode(&gf, &bad, &er),
        Err(RsError::TooManyErrors { errors: 1, erasures: 3, capacity: 4 })
    );
}

#[test]
fn rs_erasures_plus_an_error_within_capacity_are_corrected() {
    let gf = GF3::new();
    let rs = ReedSolomon::new(&gf, 6);
    let (data, cw) = sample_codeword(&gf, &rs);
    let er = [0usize, 2, 4];
    let mut bad = cw.clone();
    for &e in &er {
        bad[e] = 0;
    }
    let last = bad.len() - 1;
    bad[last] = gf.add(bad[last], 5);
    assert_eq!(rs.decode(&gf, &bad, &er), Ok(data));
}

/// A small deterministic generator for test patterns.
struct Lcg(u64);

impl Lcg {
    fn next(&mut self, bound: usize) -> usize {
        self.0 = self.0.wrapping_mul(6364136223846793005).wrapping_add(1442695040888963407);
        ((self.0 >> 33) as usize) % bound
    }
}

#[test]
fn rs_corrects_every_pattern_within_capacity() {
    let gf = GF3::new();
    let mut rng = Lcg(7);
    for &p in &[2usize, 4, 6, 8, 10] {
        let rs = ReedSolomon::new(&gf, p);
        for round in 0..60 {
            let k = 1 + rng.next(20);
            let data: Vec<u16> = (0..k).map(|_| rng.next(729) as u16).collect();
            let cw = rs.encode(&gf, &data);
            let n = cw.len();
            // choose e errors and E erasures with 2e + E <= p, all at distinct positions
            let erasures = rng.next(p + 1).min(n);
            let errors = ((p - erasures) / 2).min(n - erasures);
            let mut positions: Vec<usize> = (0..n).collect();
            for i in 0..n {
                let j = i + rng.next(n - i);
                positions.swap(i, j);
            }
            let mut bad = cw.clone();
            let er: Vec<usize> = positions[..erasures].to_vec();
            for &e in &er {
                bad[e] = rng.next(729) as u16;
            }
            for &e in &positions[erasures..erasures + errors] {
                bad[e] = gf.add(bad[e], 1 + rng.next(728) as u16);
            }
            let got = rs.decode(&gf, &bad, &er);
            assert_eq!(got, Ok(data.clone()), "p={p} round={round} n={n} erasures={er:?} errors at {:?}", &positions[erasures..erasures + errors]);
        }
    }
}
