use cplib::precalc::Precalc;

#[test]
fn test_fact() {
    let pc = Precalc::new(20);
    assert_eq!(pc.fact(0), 1);
    assert_eq!(pc.fact(1), 1);
    assert_eq!(pc.fact(2), 2);
    assert_eq!(pc.fact(3), 6);
    assert_eq!(pc.fact(4), 24);
    assert_eq!(pc.fact(20), 146_326_063)
}

#[test]
fn precalc_test_inv() {
    let pc = Precalc::new(20);
    assert_eq!(pc.inv(1), 1);
    assert_eq!(pc.inv(2), 500_000_004);
    assert_eq!(pc.inv(3), 333_333_336);
    assert_eq!(pc.inv(20), 850_000_006)
}

#[test]
fn test_ifact() {
    let pc = Precalc::new(20);
    assert_eq!(pc.ifact(0), 1);
    assert_eq!(pc.ifact(1), 1);
    assert_eq!(pc.ifact(2), 500_000_004);
    assert_eq!(pc.ifact(3), 166_666_668);
    assert_eq!(pc.ifact(20), 120_104_394)
}

#[test]
fn test_comb() {
    let pc = Precalc::new(20);
    assert_eq!(pc.comb(0, 0), 1);
    assert_eq!(pc.comb(1, 0), 1);
    assert_eq!(pc.comb(1, 1), 1);
    assert_eq!(pc.comb(2, 1), 2);
    assert_eq!(pc.comb(2, 2), 1);
    assert_eq!(pc.comb(5, 1), 5);
    assert_eq!(pc.comb(5, 2), 10);
    assert_eq!(pc.comb(5, 3), 10);
    assert_eq!(pc.comb(20, 10), 184_756);

    // n < k
    assert_eq!(pc.comb(2, 5), 0);
}
