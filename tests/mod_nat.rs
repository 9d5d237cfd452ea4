use algo_lib::mod_nat::Mod;

#[test]
fn test_new_modulation() {
    let a: Mod<7> = Mod::new(10);
    assert_eq!(a.value, 3);
}

#[test]
fn test_pow_zero_exponent() {
    let a: Mod<7> = Mod::new(3);
    let b = a.pow(0);
    assert_eq!(b.value, 1);
}

#[test]
fn test_pow_small_exponent() {
    let a: Mod<13> = Mod::new(2);
    let b = a.pow(3);
    assert_eq!(b.value, 8);
}

#[test]
fn test_pow_large_exponent() {
    let a: Mod<1_000_003> = Mod::new(7);
    let b = a.pow(100);
    let mut expected = 1;
    for _ in 0..100 {
        expected = (expected * 7) % 1_000_003;
    }
    assert_eq!(b.value, expected);
}

#[test]
fn pow_of_an_unreduced_value() {
    let a: Mod<11> = Mod { value: 25 };
    assert_eq!(a.pow(2).value, 625 % 11);
    assert_eq!(a.pow(1).value, 3);
}

#[test]
fn pow_with_a_large_modulus_does_not_overflow() {
    let m: usize = 4_294_967_311;
    let a: Mod<4_294_967_311> = Mod::new(m - 1);
    assert_eq!(a.pow(2).value, 1);
    assert_eq!(a.pow(3).value, m - 1);
}

#[test]
fn test_add() {
    let a: Mod<7> = Mod::new(3);
    let b: Mod<7> = Mod::new(5);
    let c = a + b;
    assert_eq!(c.value, 1);
}

#[test]
fn test_add_assign() {
    let mut a: Mod<7> = Mod::new(3);
    let b: Mod<7> = Mod::new(5);
    a += b;
    assert_eq!(a.value, 1);
}

#[test]
fn test_mul() {
    let a: Mod<7> = Mod::new(3);
    let b: Mod<7> = Mod::new(5);
    let c = a * b;
    assert_eq!(c.value, 1);
}

#[test]
fn test_mul_assign() {
    let mut a: Mod<7> = Mod::new(3);
    let b: Mod<7> = Mod::new(5);
    a *= b;
    assert_eq!(a.value, 1);
}

#[test]
fn test_display() {
    let a: Mod<7> = Mod::new(10);
    assert_eq!(a.to_string(), "3");
}

#[test]
fn decimal_of_a_large_residue() {
    let a: Mod<1_000_000_007> = Mod::new(1_000_000_006);
    assert_eq!(a.to_string(), "1000000006");
    let z: Mod<5> = Mod::new(10);
    assert_eq!(z.to_string(), "0");
}

#[test]
fn products_of_large_residues_reduce() {
    let a: Mod<4_294_967_311> = Mod::new(4_294_967_310);
    let b = a * a;
    assert_eq!(b.value, 1);
    let c = a + a;
    assert_eq!(c.value, 4_294_967_309);
}

#[test]
fn equal_residues_compare_equal() {
    let a: Mod<7> = Mod::new(10);
    let b: Mod<7> = Mod::new(3);
    assert!(a == b);
}
