use algo_lib::mod_usize::Mod;

#[test]
fn plain_mod_reduces_and_raises() {
    let a: Mod<7> = Mod::new(10);
    assert_eq!(a.value, 3);
    assert_eq!(a.pow(0).value, 1);
    assert_eq!(a.pow(2).value, 2);
    let b: Mod<1_000_000_007> = Mod::new(2);
    assert_eq!(b.pow(30).value, 73741817);
}

#[test]
fn plain_mod_operators() {
    let a: Mod<7> = Mod::new(3);
    let b: Mod<7> = Mod::new(5);
    assert_eq!((a + b).value, 1);
    assert_eq!((a * b).value, 1);
    let mut c = a;
    c += b;
    assert_eq!(c.value, 1);
    c *= b;
    assert_eq!(c.value, 5);
}
