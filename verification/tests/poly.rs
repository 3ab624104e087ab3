use r1cs_qap::field::Fp;
use r1cs_qap::poly::{add_polys, div_polys, eval_poly, mul_polys, sub_polys};
use r1cs_qap::Error;

fn f(x: i64) -> Fp {
    Fp::from_i64(x)
}

fn p(xs: &[i64]) -> Vec<Fp> {
    xs.iter().map(|x| f(*x)).collect()
}

#[test]
fn add_is_as_long_as_the_longer_argument() {
    assert_eq!(add_polys(&p(&[1, 2, 3]), &p(&[10, 20])), p(&[11, 22, 3]));
    assert_eq!(add_polys(&p(&[10, 20]), &p(&[1, 2, 3])), p(&[11, 22, 3]));
    assert_eq!(add_polys(&p(&[]), &p(&[4, 5])), p(&[4, 5]));
    assert_eq!(add_polys(&p(&[]), &p(&[])), p(&[]));
}

#[test]
fn add_does_not_trim() {
    assert_eq!(add_polys(&p(&[1, 2, 3]), &p(&[0, 0, -3])), p(&[1, 2, 0]));
}

#[test]
fn add_commutes() {
    let a = p(&[3, -1, 4, 1, -5]);
    let b = p(&[9, 2, -6]);
    assert_eq!(add_polys(&a, &b), add_polys(&b, &a));
}

#[test]
fn sub_is_coefficient_by_coefficient() {
    assert_eq!(sub_polys(&p(&[1, 2, 3]), &p(&[10, 20])), p(&[-9, -18, 3]));
    assert_eq!(sub_polys(&p(&[10, 20]), &p(&[1, 2, 3])), p(&[9, 18, -3]));
    assert_eq!(sub_polys(&p(&[]), &p(&[4])), p(&[-4]));
}

#[test]
fn sub_of_itself_is_zero_of_the_same_length() {
    let a = p(&[3, -1, 4, 1, -5]);
    assert_eq!(sub_polys(&a, &a), p(&[0, 0, 0, 0, 0]));
}

#[test]
fn mul_is_the_convolution() {
    assert_eq!(mul_polys(&p(&[1, 2]), &p(&[3, 1])), p(&[3, 7, 2]));
    assert_eq!(mul_polys(&p(&[-1, 1]), &p(&[1, 1])), p(&[-1, 0, 1]));
    assert_eq!(mul_polys(&p(&[5]), &p(&[1, 2, 3])), p(&[5, 10, 15]));
    assert_eq!(mul_polys(&p(&[1, 2, 3]), &p(&[5])), p(&[5, 10, 15]));
    assert_eq!(mul_polys(&p(&[1, 2, 3]), &p(&[4, 5, 6])), p(&[4, 13, 28, 27, 18]));
}

#[test]
fn mul_has_the_sum_of_the_lengths_less_one() {
    assert_eq!(mul_polys(&p(&[1, 1, 1, 1]), &p(&[1, 1, 1])).len(), 6);
    assert_eq!(mul_polys(&p(&[7]), &p(&[])), p(&[]));
    assert_eq!(mul_polys(&p(&[]), &p(&[7, 8])), p(&[0]));
}

#[test]
fn mul_by_zero_is_zero() {
    let a = p(&[3, -1, 4]);
    assert_eq!(mul_polys(&a, &p(&[0])), p(&[0, 0, 0]));
    assert_eq!(mul_polys(&p(&[0]), &a), p(&[0, 0, 0]));
    assert_eq!(mul_polys(&a, &p(&[0, 0])), p(&[0, 0, 0, 0]));
}

#[test]
fn div_without_remainder() {
    let (q, r) = div_polys(&p(&[-1, 0, 1]), &p(&[-1, 1])).unwrap();
    assert_eq!(q, p(&[1, 1]));
    assert_eq!(r, p(&[0]));
}

#[test]
fn div_with_remainder() {
    let (q, r) = div_polys(&p(&[1, 0, 1]), &p(&[-1, 1])).unwrap();
    assert_eq!(q, p(&[1, 1]));
    assert_eq!(r, p(&[2]));
    let (q, r) = div_polys(&p(&[5, 4, 3, 2]), &p(&[1, 0, 2])).unwrap();
    assert_eq!(q.len(), 2);
    assert_eq!(r.len(), 2);
    assert_eq!(add_polys(&mul_polys(&q, &p(&[1, 0, 2])), &r), p(&[5, 4, 3, 2]));
    assert_eq!(q, vec![f(3).div(&f(2)).unwrap(), f(1)]);
}

#[test]
fn div_by_a_constant() {
    let (q, r) = div_polys(&p(&[2, 4, 6]), &p(&[2])).unwrap();
    assert_eq!(q, p(&[1, 2, 3]));
    assert_eq!(r, p(&[]));
}

#[test]
fn div_of_equal_lengths() {
    let (q, r) = div_polys(&p(&[3, 6]), &p(&[1, 2])).unwrap();
    assert_eq!(q, p(&[3]));
    assert_eq!(r, p(&[0]));
}

#[test]
fn div_of_a_product_gives_the_other_factor() {
    let a = p(&[3, -1, 4, 1]);
    let b = p(&[2, 7, -5]);
    let (q, r) = div_polys(&mul_polys(&a, &b), &b).unwrap();
    assert_eq!(q, a);
    assert_eq!(r, p(&[0, 0]));
    let (q, r) = div_polys(&mul_polys(&a, &b), &a).unwrap();
    assert_eq!(q, b);
    assert_eq!(r, p(&[0, 0, 0]));
}

#[test]
fn div_keeps_a_leading_zero_of_the_dividend() {
    let (q, r) = div_polys(&p(&[1, 1, 0]), &p(&[1, 1])).unwrap();
    assert_eq!(q, p(&[1, 0]));
    assert_eq!(r, p(&[0]));
}

#[test]
fn div_refuses_a_longer_divisor() {
    assert_eq!(div_polys(&p(&[1, 2]), &p(&[1, 2, 3])), Err(Error::DivisionByZeroPoly));
    assert_eq!(div_polys(&p(&[]), &p(&[1])), Err(Error::DivisionByZeroPoly));
}

#[test]
fn div_refuses_a_zero_leading_coefficient() {
    assert_eq!(div_polys(&p(&[1, 2, 3]), &p(&[1, 0])), Err(Error::DivisionByZeroPoly));
    assert_eq!(div_polys(&p(&[1, 2, 3]), &p(&[0])), Err(Error::DivisionByZeroPoly));
}

#[test]
fn div_refuses_an_empty_divisor() {
    assert_eq!(div_polys(&p(&[1, 2, 3]), &p(&[])), Err(Error::DivisionByZeroPoly));
    assert_eq!(div_polys(&p(&[]), &p(&[])), Err(Error::DivisionByZeroPoly));
}

#[test]
fn eval_sums_the_terms() {
    assert_eq!(eval_poly(&p(&[1, 0, 1]), &f(3)), f(10));
    assert_eq!(eval_poly(&p(&[7]), &f(1000)), f(7));
    assert_eq!(eval_poly(&p(&[]), &f(5)), f(0));
    assert_eq!(eval_poly(&p(&[4, 3, 2, 1]), &f(0)), f(4));
    assert_eq!(eval_poly(&p(&[4, 3, 2, 1]), &f(-1)), f(2));
}

#[test]
fn eval_turns_products_into_products() {
    let a = p(&[3, -1, 4, 1]);
    let b = p(&[2, 7, -5]);
    for x in [0i64, 1, 2, -3, 1000] {
        let x = f(x);
        assert_eq!(
            eval_poly(&mul_polys(&a, &b), &x),
            eval_poly(&a, &x).mul(&eval_poly(&b, &x))
        );
        assert_eq!(
            eval_poly(&add_polys(&a, &b), &x),
            eval_poly(&a, &x).add(&eval_poly(&b, &x))
        );
        assert_eq!(
            eval_poly(&sub_polys(&a, &b), &x),
            eval_poly(&a, &x).sub(&eval_poly(&b, &x))
        );
    }
}
