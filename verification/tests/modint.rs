use cplib::modint::ModInt;

#[test]
fn modint_test_add() {
    let l = ModInt::new(10);
    let r = ModInt::new(15);
    let ans = l + r;
    assert_eq!(ans.value, 25);

    let l = ModInt::new(ModInt::MODULUS - 10);
    let r = ModInt::new(15);
    let ans = l + r;
    assert_eq!(ans.value, 5);
}

#[test]
fn modint_test_add_assign() {
    let mut l = ModInt::new(10);
    let r = ModInt::new(15);
    l = l + r;
    assert_eq!(l.value, 25);

    let mut l = ModInt::new(ModInt::MODULUS - 10);
    let r = ModInt::new(15);
    l = l + r;
    assert_eq!(l.value, 5);
}

#[test]
fn modint_test_sub() {
    let l = ModInt::new(15);
    let r = ModInt::new(10);
    let ans = l - r;
    assert_eq!(ans.value, 5);

    let l = ModInt::new(ModInt::MODULUS - 10);
    let r = ModInt::new(ModInt::MODULUS - 15);
    let ans = l - r;
    assert_eq!(ans.value, 5);

    let l = ModInt::new(ModInt::MODULUS - 15);
    let r = ModInt::new(ModInt::MODULUS - 10);
    let ans = l - r;
    assert_eq!(ans.value, ModInt::MODULUS - 5);
}

#[test]
fn modint_test_sub_assign() {
    let mut l = ModInt::new(15);
    let r = ModInt::new(10);
    l = l - r;
    assert_eq!(l.value, 5);

    let mut l = ModInt::new(ModInt::MODULUS - 10);
    let r = ModInt::new(ModInt::MODULUS - 15);
    l = l - r;
    assert_eq!(l.value, 5);

    let mut l = ModInt::new(ModInt::MODULUS - 15);
    let r = ModInt::new(ModInt::MODULUS - 10);
    l = l - r;
    assert_eq!(l.value, ModInt::MODULUS - 5);
}

#[test]
fn modint_test_mul() {
    let l = ModInt::new(5);
    let r = ModInt::new(10);
    let ans = l * r;
    assert_eq!(ans.value, 50);

    let l = ModInt::new(ModInt::MODULUS - 5);
    let r = ModInt::new(ModInt::MODULUS - 10);
    let ans = l * r;
    assert_eq!(ans.value, 50);
}

#[test]
fn modint_test_mul_assign() {
    let mut l = ModInt::new(5);
    let r = ModInt::new(10);
    l = l * r;
    assert_eq!(l.value, 50);

    let mut l = ModInt::new(ModInt::MODULUS - 5);
    let r = ModInt::new(ModInt::MODULUS - 10);
    l = l * r;
    assert_eq!(l.value, 50);
}

#[test]
fn modint_test_neg() {
    let v = ModInt::new(0);
    let ans = -v;
    assert_eq!(ans.value, 0);

    let v = ModInt::new(100);
    let ans = -v;
    assert_eq!(ans.value, ModInt::MODULUS - 100);
}

#[test]
fn modint_test_format() {
    assert_eq!(ModInt::new(1).to_string(), "1");
    assert_eq!(ModInt::new(ModInt::MODULUS - 1).to_string(), "1000000006");
}

#[test]
fn modint_test_from_usize() {
    assert_eq!(ModInt::from(500).value, 500);
    assert_eq!(ModInt::from((ModInt::MODULUS + 1) as usize).value, 1);
    assert_eq!(ModInt::from(u32::MAX as usize + 1).value, 294_967_268);
}

#[test]
fn modint_test_partial_eq_self() {
    assert!(ModInt::new(10) == ModInt::new(10));
    assert!(ModInt::new(10) != ModInt::new(7));
}

#[test]
fn modint_test_partial_eq_u32() {
    assert!(ModInt::new(10) == 10);
    assert!(ModInt::new(10) != 7);
}

#[test]
fn modint_test_new() {
    assert_eq!(ModInt::new(10).value, 10);
    assert_eq!(ModInt::new(u32::MAX).value, 294_967_267);
}

#[test]
fn modint_test_pow() {
    let l = ModInt::new(1);
    let ans = l.pow(100);
    assert_eq!(ans.value, 1);

    let l = ModInt::new(5);
    let ans = l.pow(3);
    assert_eq!(ans.value, 125);

    let l = ModInt::new(294_967_267);
    let ans = l.pow(294_967_267);
    assert_eq!(ans.value, 756_289_898);
}

#[test]
fn modint_test_inv() {
    let l = ModInt::new(1);
    let ans = l.inv();
    assert_eq!(ans.value, 1);

    let l = ModInt::new(500_000_004);
    let ans = l.inv();
    assert_eq!(ans.value, 2);
}

#[test]
fn modint_test_value() {
    let m = ModInt::new(1);
    assert_eq!(m.value(), 1);

    let m = ModInt::new(ModInt::MODULUS);
    assert_eq!(m.value(), 0);

    let m = ModInt::new(ModInt::MODULUS - 1);
    assert_eq!(m.value(), 1_000_000_006);
}

#[test]
fn test_zero() {
    assert_eq!(ModInt::zero().value, 0);
}

#[test]
fn test_one() {
    assert_eq!(ModInt::one().value, 1);
}
