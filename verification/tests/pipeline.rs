use r1cs_qap::field::Fp;
use r1cs_qap::poly::eval_poly;
use r1cs_qap::qap::{
    create_divisor_polynomial, create_solution_polynomials, lagrange_interop, r1cs_to_qap,
};
use r1cs_qap::r1cs::{flatcode_to_r1cs, get_var_placement, Operand, Operation, Operator};
use r1cs_qap::witness::{assign_variables, is_satisfied};

fn f(x: i64) -> Fp {
    Fp::from_i64(x)
}

fn row(xs: &[i64]) -> Vec<Fp> {
    xs.iter().map(|x| f(*x)).collect()
}

fn names(xs: &[&str]) -> Vec<String> {
    xs.iter().map(|x| x.to_string()).collect()
}

fn id(name: &str) -> Operand {
    Operand::Identifier(name.to_string())
}

fn num(x: i64) -> Operand {
    Operand::Number(f(x))
}

fn op(target: &str, left: Operand, operator: Operator, right: Operand) -> Operation {
    Operation { target: target.to_string(), operator, left, right }
}

#[test]
fn pure_multiply() {
    let inputs = names(&["x"]);
    let code = vec![op("y", id("x"), Operator::Multiply, id("x"))];
    assert_eq!(get_var_placement(&inputs, &code), names(&["~one", "x", "~out", "y"]));
    let (a, b, c) = flatcode_to_r1cs(&inputs, &code).unwrap();
    assert_eq!(a, vec![row(&[0, 1, 0, 0])]);
    assert_eq!(b, vec![row(&[0, 1, 0, 0])]);
    assert_eq!(c, vec![row(&[0, 0, 0, 1])]);
    let w = assign_variables(&inputs, &row(&[3]), &code).unwrap();
    assert_eq!(w, row(&[1, 3, 0, 9]));
    assert!(is_satisfied(&a, &b, &c, &w));
}

#[test]
fn additive_constant() {
    let inputs = names(&[]);
    let code = vec![op("t", num(2), Operator::Plus, num(3))];
    assert_eq!(get_var_placement(&inputs, &code), names(&["~one", "~out", "t"]));
    let (a, b, c) = flatcode_to_r1cs(&inputs, &code).unwrap();
    assert_eq!(a, vec![row(&[5, 0, 0])]);
    assert_eq!(b, vec![row(&[1, 0, 0])]);
    assert_eq!(c, vec![row(&[0, 0, 1])]);
    let w = assign_variables(&inputs, &row(&[]), &code).unwrap();
    assert_eq!(w, row(&[1, 0, 5]));
    assert!(is_satisfied(&a, &b, &c, &w));
}

#[test]
fn set_copies_the_left_operand() {
    let inputs = names(&["a"]);
    let code = vec![op("b", id("a"), Operator::Assign, num(0))];
    assert_eq!(get_var_placement(&inputs, &code), names(&["~one", "a", "~out", "b"]));
    let (a, b, c) = flatcode_to_r1cs(&inputs, &code).unwrap();
    assert_eq!(a, vec![row(&[0, -1, 0, 1])]);
    assert_eq!(b, vec![row(&[1, 0, 0, 0])]);
    assert_eq!(c, vec![row(&[0, 0, 0, 0])]);
    let w = assign_variables(&inputs, &row(&[7]), &code).unwrap();
    assert_eq!(w, row(&[1, 7, 0, 7]));
    assert!(is_satisfied(&a, &b, &c, &w));
}

#[test]
fn division_is_rearranged() {
    let inputs = names(&["p", "q"]);
    let code = vec![op("r", id("p"), Operator::Divide, id("q"))];
    let (a, b, c) = flatcode_to_r1cs(&inputs, &code).unwrap();
    assert_eq!(a, vec![row(&[0, 0, 0, 0, 1])]);
    assert_eq!(b, vec![row(&[0, 0, 1, 0, 0])]);
    assert_eq!(c, vec![row(&[0, 1, 0, 0, 0])]);
    let w = assign_variables(&inputs, &row(&[12, 4]), &code).unwrap();
    assert_eq!(w, row(&[1, 12, 4, 0, 3]));
    assert!(is_satisfied(&a, &b, &c, &w));
}

#[test]
fn lagrange_on_a_single_column() {
    let p = lagrange_interop(&row(&[2, 5, 10]));
    assert_eq!(eval_poly(&p, &f(1)), f(2));
    assert_eq!(eval_poly(&p, &f(2)), f(5));
    assert_eq!(eval_poly(&p, &f(3)), f(10));
    assert_eq!(p, row(&[1, 0, 1]));
}

#[test]
fn full_pipeline_is_satisfiable() {
    let inputs = names(&["x"]);
    let code = vec![
        op("y", id("x"), Operator::Multiply, id("x")),
        op("z", id("y"), Operator::Plus, id("x")),
        op("~out", id("z"), Operator::Plus, num(5)),
    ];
    let (a, b, c) = flatcode_to_r1cs(&inputs, &code).unwrap();
    let w = assign_variables(&inputs, &row(&[3]), &code).unwrap();
    assert_eq!(w, row(&[1, 3, 17, 9, 12]));
    assert!(is_satisfied(&a, &b, &c, &w));
    let (ap, bp, cp, z) = r1cs_to_qap(&a, &b, &c);
    assert_eq!(z, row(&[2, -3, 1]));
    let (_, _, _, t) = create_solution_polynomials(&w, ap, bp, cp);
    let (_, rem) = create_divisor_polynomial(t, z).unwrap();
    assert_eq!(rem, row(&[0, 0]));
}
