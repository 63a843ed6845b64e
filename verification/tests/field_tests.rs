use trixel::gf3::GF3;

#[test]
fn field_addition_laws() {
    let gf = GF3::new();
    for &(a, b, c) in &[(0u16, 0u16, 0u16), (5, 700, 13), (728, 728, 1), (243, 81, 364)] {
        assert_eq!(gf.add(a, b), gf.add(b, a));
        assert_eq!(gf.add(gf.add(a, b), c), gf.add(a, gf.add(b, c)));
        assert_eq!(gf.add(a, 0), a);
        assert_eq!(gf.add(a, gf.sub(0, a)), 0);
        assert_eq!(gf.sub(a, b), gf.add(a, gf.sub(0, b)));
    }
}

#[test]
fn field_multiplication_laws() {
    let gf = GF3::new();
    let samples = [0u16, 1, 2, 3, 7, 100, 242, 243, 500, 727, 728];
    for &a in &samples {
        assert_eq!(gf.mul(a, 1), a);
        assert_eq!(gf.mul(a, 0), 0);
        for &b in &samples {
            assert_eq!(gf.mul(a, b), gf.mul(b, a));
            for &c in &samples {
                assert_eq!(gf.mul(gf.mul(a, b), c), gf.mul(a, gf.mul(b, c)));
                assert_eq!(gf.mul(a, gf.add(b, c)), gf.add(gf.mul(a, b), gf.mul(a, c)));
            }
        }
    }
}

#[test]
fn field_alpha_powers() {
    let gf = GF3::new();
    // α = x is the symbol 3; α⁶ = 2x + 1 is the symbol 1 + 2·3 = 7
    assert_eq!(gf.exp(1), 3);
    assert_eq!(gf.exp(6), 7);
    assert_eq!(gf.mul(gf.exp(5), gf.exp(1)), gf.exp(6));
    assert_eq!(gf.exp(728), 1);
    assert_eq!(gf.exp(0), 1);
}
