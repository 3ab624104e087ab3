use r1cs_qap::field::Fp;
use r1cs_qap::poly::eval_poly;
use r1cs_qap::qap::{
    create_divisor_polynomial, create_solution_polynomials, lagrange_interop, mk_singleton,
    r1cs_to_qap, transpose,
};
use r1cs_qap::r1cs::{flatcode_to_r1cs, Operand, Operation, Operator};
use r1cs_qap::witness::assign_variables;
use r1cs_qap::Error;

fn f(x: i64) -> Fp {
    Fp::from_i64(x)
}

fn row(xs: &[i64]) -> Vec<Fp> {
    xs.iter().map(|x| f(*x)).collect()
}

fn names(xs: &[&str]) -> Vec<String> {
    xs.iter().map(|x| x.to_string()).collect()
}

fn id(name: &str) -> Operand {
    Operand::Identifier(name.to_string())
}

fn num(x: i64) -> Operand {
    Operand::Number(f(x))
}

fn op(target: &str, left: Operand, operator: Operator, right: Operand) -> Operation {
    Operation { target: target.to_string(), operator, left, right }
}

fn cubic() -> (Vec<String>, Vec<Operation>) {
    (
        names(&["x"]),
        vec![
            op("sym_1", id("x"), Operator::Multiply, id("x")),
            op("y", id("sym_1"), Operator::Multiply, id("x")),
            op("sym_2", id("y"), Operator::Plus, id("x")),
            op("~out", id("sym_2"), Operator::Plus, num(5)),
        ],
    )
}

#[test]
fn transpose_swaps_rows_and_columns() {
    let m = vec![row(&[1, 2, 3]), row(&[4, 5, 6])];
    assert_eq!(transpose(&m), vec![row(&[1, 4]), row(&[2, 5]), row(&[3, 6])]);
    assert_eq!(transpose(&vec![]), Vec::<Vec<Fp>>::new());
    assert_eq!(transpose(&vec![row(&[]), row(&[])]), Vec::<Vec<Fp>>::new());
    assert_eq!(transpose(&transpose(&m)), m);
}

#[test]
fn singleton_has_its_height_at_its_point_only() {
    let p = mk_singleton(2, &f(5), 3);
    assert_eq!(p, row(&[-15, 20, -5]));
    assert_eq!(eval_poly(&p, &f(1)), f(0));
    assert_eq!(eval_poly(&p, &f(2)), f(5));
    assert_eq!(eval_poly(&p, &f(3)), f(0));
}

#[test]
fn singleton_divides_by_the_product_of_the_differences() {
    // (x - 2)(x - 3)(x - 4) / ((1 - 2)(1 - 3)(1 - 4)) = (x^3 - 9x^2 + 26x - 24) / -6
    let p = mk_singleton(1, &f(6), 4);
    assert_eq!(p, row(&[24, -26, 9, -1]));
    let q = mk_singleton(4, &f(6), 4);
    assert_eq!(q, row(&[-6, 11, -6, 1]));
}

#[test]
fn singleton_of_a_single_point_is_the_constant() {
    assert_eq!(mk_singleton(1, &f(7), 1), row(&[7]));
}

#[test]
fn singleton_of_height_zero_is_zero() {
    assert_eq!(mk_singleton(3, &f(0), 4), row(&[0, 0, 0, 0]));
}

#[test]
fn lagrange_passes_through_the_samples() {
    let samples = row(&[7, -3, 0, 12, 5, 5]);
    let p = lagrange_interop(&samples);
    assert_eq!(p.len(), samples.len());
    for (i, s) in samples.iter().enumerate() {
        assert_eq!(eval_poly(&p, &f(i as i64 + 1)), *s);
    }
}

#[test]
fn lagrange_of_a_line() {
    assert_eq!(lagrange_interop(&row(&[3, 5])), row(&[1, 2]));
    assert_eq!(lagrange_interop(&row(&[3, 5, 7])), row(&[1, 2, 0]));
}

#[test]
fn lagrange_of_nothing_is_the_zero_constant() {
    assert_eq!(lagrange_interop(&row(&[])), row(&[0]));
    assert_eq!(lagrange_interop(&row(&[9])), row(&[9]));
}

#[test]
fn column_polynomials_pass_through_the_matrix() {
    let (inputs, code) = cubic();
    let (a, b, c) = flatcode_to_r1cs(&inputs, &code).unwrap();
    let (ap, bp, cp, _) = r1cs_to_qap(&a, &b, &c);
    for (m, polys) in [(&a, &ap), (&b, &bp), (&c, &cp)] {
        assert_eq!(polys.len(), m[0].len());
        for (j, p) in polys.iter().enumerate() {
            assert_eq!(p.len(), m.len());
            for (i, r) in m.iter().enumerate() {
                assert_eq!(eval_poly(p, &f(i as i64 + 1)), r[j]);
            }
        }
    }
}

#[test]
fn the_target_polynomial_has_one_root_less_than_there_are_rows() {
    let one_row = vec![row(&[1, 2])];
    let (_, _, _, z) = r1cs_to_qap(&one_row, &one_row, &one_row);
    assert_eq!(z, row(&[1]));
    let (inputs, code) = cubic();
    let (a, b, c) = flatcode_to_r1cs(&inputs, &code).unwrap();
    let (_, _, _, z) = r1cs_to_qap(&a, &b, &c);
    assert_eq!(z, row(&[-6, 11, -6, 1]));
    assert_eq!(eval_poly(&z, &f(1)), f(0));
    assert_eq!(eval_poly(&z, &f(2)), f(0));
    assert_eq!(eval_poly(&z, &f(3)), f(0));
    assert_eq!(eval_poly(&z, &f(4)), f(6));
}

#[test]
fn qap_of_no_rows() {
    let (ap, bp, cp, z) = r1cs_to_qap(&vec![], &vec![], &vec![]);
    assert!(ap.is_empty() && bp.is_empty() && cp.is_empty());
    assert_eq!(z, row(&[1]));
}

#[test]
fn solution_polynomials_weigh_the_columns_by_the_witness() {
    let r = row(&[2, 3]);
    let a_p = vec![row(&[1, 1]), row(&[0, 1])];
    let b_p = vec![row(&[1]), row(&[1, 0, 1])];
    let c_p = vec![row(&[4]), row(&[0, 0, 0, 1])];
    let (a, b, c, t) = create_solution_polynomials(&r, a_p, b_p, c_p);
    assert_eq!(a, row(&[2, 5]));
    assert_eq!(b, row(&[5, 0, 3]));
    assert_eq!(c, row(&[8, 0, 0, 3]));
    // (2 + 5x)(5 + 3x^2) - (8 + 3x^3) = 2 + 25x + 6x^2 + 12x^3
    assert_eq!(t, row(&[2, 25, 6, 12]));
}

#[test]
fn solution_polynomials_pair_as_far_as_both_go() {
    let r = row(&[2]);
    let polys = vec![row(&[1, 1]), row(&[100, 100])];
    let (a, _, _, _) = create_solution_polynomials(&r, polys.clone(), polys.clone(), polys);
    assert_eq!(a, row(&[2, 2]));
    let r = row(&[2, 3, 4]);
    let polys = vec![row(&[1, 1])];
    let (a, _, _, _) = create_solution_polynomials(&r, polys.clone(), polys.clone(), polys);
    assert_eq!(a, row(&[2, 2]));
}

#[test]
fn a_satisfying_witness_leaves_no_remainder() {
    let (inputs, code) = cubic();
    let (a, b, c) = flatcode_to_r1cs(&inputs, &code).unwrap();
    let (ap, bp, cp, z) = r1cs_to_qap(&a, &b, &c);
    for x in [3i64, 0, -7, 100000] {
        let w = assign_variables(&inputs, &row(&[x]), &code).unwrap();
        let (_, _, _, t) =
            create_solution_polynomials(&w, ap.clone(), bp.clone(), cp.clone());
        assert_eq!(t.len(), 7);
        for i in 1..=4 {
            assert_eq!(eval_poly(&t, &f(i)), f(0));
        }
        let (h, rem) = create_divisor_polynomial(t, z.clone()).unwrap();
        assert_eq!(h.len(), 4);
        assert_eq!(rem, row(&[0, 0, 0]));
    }
}

#[test]
fn a_wrong_witness_leaves_a_remainder() {
    let (inputs, code) = cubic();
    let (a, b, c) = flatcode_to_r1cs(&inputs, &code).unwrap();
    let (ap, bp, cp, z) = r1cs_to_qap(&a, &b, &c);
    let w = row(&[1, 3, 35, 9, 27, 31]);
    let (_, _, _, t) = create_solution_polynomials(&w, ap, bp, cp);
    let (_, rem) = create_divisor_polynomial(t, z).unwrap();
    assert_ne!(rem, row(&[0, 0, 0]));
}

#[test]
fn the_divisor_is_refused_where_the_target_is_longer() {
    assert_eq!(
        create_divisor_polynomial(row(&[1, 2]), row(&[2, -3, 1])),
        Err(Error::DivisionByZeroPoly)
    );
    assert_eq!(
        create_divisor_polynomial(row(&[1, 2, 3]), row(&[2, 0])),
        Err(Error::DivisionByZeroPoly)
    );
}
