use cplib::mint::Mint;

#[test]
fn mint_test_add() {
    let l = Mint::new(10);
    let r = Mint::new(15);
    let ans = l + r;
    assert_eq!(ans.value, 25);

    let l = Mint::new(Mint::MODULUS - 10);
    let r = Mint::new(15);
    let ans = l + r;
    assert_eq!(ans.value, 5);
}

#[test]
fn mint_test_add_assign() {
    let mut l = Mint::new(10);
    let r = Mint::new(15);
    l = l + r;
    assert_eq!(l.value, 25);

    let mut l = Mint::new(Mint::MODULUS - 10);
    let r = Mint::new(15);
    l = l + r;
    assert_eq!(l.value, 5);
}

#[test]
fn mint_test_sub() {
    let l = Mint::new(15);
    let r = Mint::new(10);
    let ans = l - r;
    assert_eq!(ans.value, 5);

    let l = Mint::new(Mint::MODULUS - 10);
    let r = Mint::new(Mint::MODULUS - 15);
    let ans = l - r;
    assert_eq!(ans.value, 5);

    let l = Mint::new(Mint::MODULUS - 15);
    let r = Mint::new(Mint::MODULUS - 10);
    let ans = l - r;
    assert_eq!(ans.value, Mint::MODULUS - 5);
}

#[test]
fn mint_test_sub_assign() {
    let mut l = Mint::new(15);
    let r = Mint::new(10);
    l = l - r;
    assert_eq!(l.value, 5);

    let mut l = Mint::new(Mint::MODULUS - 10);
    let r = Mint::new(Mint::MODULUS - 15);
    l = l - r;
    assert_eq!(l.value, 5);

    let mut l = Mint::new(Mint::MODULUS - 15);
    let r = Mint::new(Mint::MODULUS - 10);
    l = l - r;
    assert_eq!(l.value, Mint::MODULUS - 5);
}

#[test]
fn mint_test_mul() {
    let l = Mint::new(5);
    let r = Mint::new(10);
    let ans = l * r;
    assert_eq!(ans.value, 50);

    let l = Mint::new(Mint::MODULUS - 5);
    let r = Mint::new(Mint::MODULUS - 10);
    let ans = l * r;
    assert_eq!(ans.value, 50);
}

#[test]
fn mint_test_mul_assign() {
    let mut l = Mint::new(5);
    let r = Mint::new(10);
    l = l * r;
    assert_eq!(l.value, 50);

    let mut l = Mint::new(Mint::MODULUS - 5);
    let r = Mint::new(Mint::MODULUS - 10);
    l = l * r;
    assert_eq!(l.value, 50);
}

#[test]
fn mint_test_neg() {
    let v = Mint::new(0);
    let ans = -v;
    assert_eq!(ans.value, 0);

    let v = Mint::new(100);
    let ans = -v;
    assert_eq!(ans.value, Mint::MODULUS - 100);
}

#[test]
fn mint_test_format() {
    assert_eq!(Mint::new(1).to_string(), "1");
    assert_eq!(Mint::new(Mint::MODULUS - 1).to_string(), "1000000006");
}

#[test]
fn mint_test_from_usize() {
    assert_eq!(Mint::from(500).value, 500);
    assert_eq!(Mint::from((Mint::MODULUS + 1) as usize).value, 1);
    assert_eq!(Mint::from(u32::MAX as usize + 1).value, 294_967_268);
}

#[test]
fn mint_test_partial_eq_self() {
    assert!(Mint::new(10) == Mint::new(10));
    assert!(Mint::new(10) != Mint::new(7));
}

#[test]
fn mint_test_partial_eq_u32() {
    assert!(Mint::new(10) == 10);
    assert!(Mint::new(10) != 7);
}

#[test]
fn mint_test_new() {
    assert_eq!(Mint::new(10).value, 10);
    assert_eq!(Mint::new(u32::MAX).value, 294_967_267);
}

#[test]
fn mint_test_pow() {
    let l = Mint::new(1);
    let ans = l.pow(100);
    assert_eq!(ans.value, 1);

    let l = Mint::new(5);
    let ans = l.pow(3);
    assert_eq!(ans.value, 125);

    let l = Mint::new(294_967_267);
    let ans = l.pow(294_967_267);
    assert_eq!(ans.value, 756_289_898);
}

#[test]
fn mint_test_inv() {
    let l = Mint::new(1);
    let ans = l.inv();
    assert_eq!(ans.value, 1);

    let l = Mint::new(500_000_004);
    let ans = l.inv();
    assert_eq!(ans.value, 2);
}

#[test]
fn mint_test_value() {
    let m = Mint::new(1);
    assert_eq!(m.value(), 1);

    let m = Mint::new(Mint::MODULUS);
    assert_eq!(m.value(), 0);

    let m = Mint::new(Mint::MODULUS - 1);
    assert_eq!(m.value(), 1_000_000_006);
}
