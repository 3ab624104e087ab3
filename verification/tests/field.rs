use r1cs_qap::field::{Fp, MODULUS};

fn f(x: i64) -> Fp {
    Fp::from_i64(x)
}

#[test]
fn modulus_is_the_mersenne_prime() {
    assert_eq!(MODULUS, (1u64 << 31) - 1);
}

#[test]
fn new_reduces_modulo_the_modulus() {
    assert_eq!(Fp::new(MODULUS).value(), 0);
    assert_eq!(Fp::new(MODULUS + 5).value(), 5);
    assert_eq!(Fp::new(u64::MAX).value(), u64::MAX % MODULUS);
    assert_eq!(Fp::new(7).value(), 7);
}

#[test]
fn negative_integers_wrap_around() {
    assert_eq!(f(-1).value(), MODULUS - 1);
    assert_eq!(f(-(MODULUS as i64)).value(), 0);
    assert_eq!(f(i64::MIN).value(), 2147483645);
    assert_eq!(f(i64::MAX).value(), 1);
    assert_eq!(f(-1).to_i64(), -1);
    assert_eq!(f(1073741823).to_i64(), 1073741823);
    assert_eq!(f(1073741824).to_i64(), -1073741823);
}

#[test]
fn zero_and_one() {
    assert_eq!(Fp::zero(), f(0));
    assert_eq!(Fp::one(), f(1));
    assert!(Fp::zero().is_zero());
    assert!(!Fp::one().is_zero());
    assert!(Fp::new(MODULUS).is_zero());
}

#[test]
fn ring_operations_are_exact() {
    assert_eq!(f(3).add(&f(4)), f(7));
    assert_eq!(f(-3).add(&f(3)), f(0));
    assert_eq!(Fp::new(MODULUS - 1).add(&f(2)), f(1));
    assert_eq!(f(3).sub(&f(4)), f(-1));
    assert_eq!(f(0).sub(&f(1)).value(), MODULUS - 1);
    assert_eq!(f(6).mul(&f(7)), f(42));
    assert_eq!(f(-1).mul(&f(-1)), f(1));
    assert_eq!(Fp::new(MODULUS - 1).mul(&Fp::new(MODULUS - 1)), f(1));
    assert_eq!(f(65536).mul(&f(65536)).value(), 2);
    assert_eq!(f(5).neg(), f(-5));
    assert_eq!(f(0).neg(), f(0));
}

#[test]
fn every_element_but_zero_has_an_inverse() {
    assert_eq!(f(0).inv(), None);
    assert_eq!(f(1).inv(), Some(f(1)));
    assert_eq!(f(2).inv(), Some(f(1073741824)));
    assert_eq!(f(-1).inv(), Some(f(-1)));
    for x in [2i64, 3, 5, 1000, 46341, 65536, 2147483646, 1234567] {
        let inverse = f(x).inv().unwrap();
        assert_eq!(f(x).mul(&inverse), f(1));
    }
}

#[test]
fn division_undoes_multiplication() {
    assert_eq!(f(12).div(&f(4)), Some(f(3)));
    assert_eq!(f(12).div(&f(0)), None);
    assert_eq!(f(0).div(&f(0)), None);
    assert_eq!(f(0).div(&f(5)), Some(f(0)));
    let half = f(1).div(&f(2)).unwrap();
    assert_eq!(half.add(&half), f(1));
    assert_eq!(half.value(), 1073741824);
    let q = f(7).div(&f(3)).unwrap();
    assert_eq!(q.mul(&f(3)), f(7));
}

#[test]
fn elements_read_in_decimal() {
    assert_eq!(f(0).to_text(), "0");
    assert_eq!(f(9).to_text(), "9");
    assert_eq!(f(10).to_text(), "10");
    assert_eq!(f(1905).to_text(), "1905");
    assert_eq!(f(-1).to_text(), "2147483646");
}
