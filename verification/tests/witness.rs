use r1cs_qap::field::Fp;
use r1cs_qap::r1cs::{flatcode_to_r1cs, Operand, Operation, Operator};
use r1cs_qap::witness::{assign_variables, dot_product, is_satisfied};
use r1cs_qap::Error;

fn f(x: i64) -> Fp {
    Fp::from_i64(x)
}

fn row(xs: &[i64]) -> Vec<Fp> {
    xs.iter().map(|x| f(*x)).collect()
}

fn names(xs: &[&str]) -> Vec<String> {
    xs.iter().map(|x| x.to_string()).collect()
}

fn id(name: &str) -> Operand {
    Operand::Identifier(name.to_string())
}

fn num(x: i64) -> Operand {
    Operand::Number(f(x))
}

fn op(target: &str, left: Operand, operator: Operator, right: Operand) -> Operation {
    Operation { target: target.to_string(), operator, left, right }
}

#[test]
fn the_assignment_starts_with_one_and_the_inputs() {
    let w = assign_variables(&names(&["a", "b"]), &row(&[5, 6]), &vec![]).unwrap();
    assert_eq!(w, row(&[1, 5, 6, 0]));
}

#[test]
fn each_operator_computes_its_value() {
    // columns: ~one x y ~out a b c d
    let inputs = names(&["x", "y"]);
    let code = vec![
        op("a", id("x"), Operator::Multiply, num(3)),
        op("b", id("a"), Operator::Plus, num(7)),
        op("c", num(2), Operator::Minus, id("x")),
        op("d", id("c"), Operator::Divide, id("y")),
        op("~out", id("d"), Operator::Assign, id("nowhere")),
    ];
    let w = assign_variables(&inputs, &row(&[10, 4]), &code).unwrap();
    assert_eq!(w, row(&[1, 10, 4, -2, 30, 37, -8, -2]));
    let (a, b, c) = flatcode_to_r1cs(&inputs, &code).unwrap();
    assert!(is_satisfied(&a, &b, &c, &w));
}

#[test]
fn a_quotient_that_is_no_integer_is_still_exact() {
    let inputs = names(&["p", "q"]);
    let code = vec![
        op("r", id("p"), Operator::Divide, id("q")),
        op("s", id("r"), Operator::Multiply, id("q")),
    ];
    let w = assign_variables(&inputs, &row(&[7, 3]), &code).unwrap();
    assert_eq!(w[4], f(7).div(&f(3)).unwrap());
    assert_eq!(w[5], f(7));
    let (a, b, c) = flatcode_to_r1cs(&inputs, &code).unwrap();
    assert!(is_satisfied(&a, &b, &c, &w));
}

#[test]
fn the_witness_satisfies_every_row() {
    let inputs = names(&["x"]);
    let code = vec![
        op("sym_1", id("x"), Operator::Multiply, id("x")),
        op("y", id("sym_1"), Operator::Multiply, id("x")),
        op("sym_2", id("y"), Operator::Plus, id("x")),
        op("~out", id("sym_2"), Operator::Plus, num(5)),
    ];
    let (a, b, c) = flatcode_to_r1cs(&inputs, &code).unwrap();
    for x in [0i64, 1, 3, -2, 123456789] {
        let w = assign_variables(&inputs, &row(&[x]), &code).unwrap();
        assert_eq!(w[2], f(x).mul(&f(x)).mul(&f(x)).add(&f(x)).add(&f(5)));
        assert!(is_satisfied(&a, &b, &c, &w));
    }
    let w = assign_variables(&inputs, &row(&[3]), &code).unwrap();
    assert_eq!(w, row(&[1, 3, 35, 9, 27, 30]));
}

#[test]
fn a_wrong_assignment_does_not_satisfy() {
    let inputs = names(&["x"]);
    let code = vec![op("y", id("x"), Operator::Multiply, id("x"))];
    let (a, b, c) = flatcode_to_r1cs(&inputs, &code).unwrap();
    assert!(is_satisfied(&a, &b, &c, &row(&[1, 3, 0, 9])));
    assert!(!is_satisfied(&a, &b, &c, &row(&[1, 3, 0, 10])));
    assert!(!is_satisfied(&a, &b, &c, &row(&[1, 3, 0])));
}

#[test]
fn a_name_that_is_written_twice_breaks_the_earlier_row() {
    let inputs = names(&["x"]);
    let code = vec![
        op("y", id("x"), Operator::Multiply, id("x")),
        op("y", id("x"), Operator::Plus, id("x")),
    ];
    let (a, b, c) = flatcode_to_r1cs(&inputs, &code).unwrap();
    let w = assign_variables(&inputs, &row(&[3]), &code).unwrap();
    assert_eq!(w, row(&[1, 3, 0, 6]));
    assert!(!is_satisfied(&a, &b, &c, &w));
}

#[test]
fn is_satisfied_wants_matrices_of_the_same_height() {
    let a = vec![row(&[0, 1])];
    let c = vec![row(&[0, 0])];
    let w = row(&[1, 0]);
    assert!(is_satisfied(&a, &a, &c, &w));
    assert!(!is_satisfied(&a, &vec![], &c, &w));
    assert!(!is_satisfied(&a, &a, &vec![], &w));
    assert!(is_satisfied(&vec![], &vec![], &vec![], &w));
}

#[test]
fn dot_product_reads_zero_beyond_the_assignment() {
    assert_eq!(dot_product(&row(&[1, 2, 3]), &row(&[4, 5, 6])), f(32));
    assert_eq!(dot_product(&row(&[1, 2, 3]), &row(&[4, 5])), f(14));
    assert_eq!(dot_product(&row(&[1, 2]), &row(&[4, 5, 6])), f(14));
    assert_eq!(dot_product(&row(&[]), &row(&[4, 5, 6])), f(0));
}

#[test]
fn a_column_that_nothing_has_written_reads_as_zero() {
    let code = vec![op("t", id("~out"), Operator::Plus, num(4))];
    let w = assign_variables(&names(&[]), &row(&[]), &code).unwrap();
    assert_eq!(w, row(&[1, 0, 4]));
}

#[test]
fn the_constant_column_can_be_read_by_name() {
    let code = vec![op("t", id("~one"), Operator::Plus, id("~one"))];
    let w = assign_variables(&names(&[]), &row(&[]), &code).unwrap();
    assert_eq!(w, row(&[1, 0, 2]));
}

#[test]
fn the_number_of_values_must_be_the_number_of_inputs() {
    let code = vec![op("y", id("x"), Operator::Multiply, id("x"))];
    assert_eq!(assign_variables(&names(&["x"]), &row(&[]), &code), Err(Error::ArityMismatch));
    assert_eq!(
        assign_variables(&names(&["x"]), &row(&[1, 2]), &code),
        Err(Error::ArityMismatch)
    );
    assert_eq!(assign_variables(&names(&[]), &row(&[1]), &vec![]), Err(Error::ArityMismatch));
}

#[test]
fn reading_a_name_without_a_column_is_not_found() {
    let code = vec![op("y", id("x"), Operator::Multiply, id("z"))];
    assert_eq!(
        assign_variables(&names(&["x"]), &row(&[2]), &code),
        Err(Error::OperationTargetNotFound("z".to_string()))
    );
    let code = vec![op("y", id("w"), Operator::Multiply, id("z"))];
    assert_eq!(
        assign_variables(&names(&["x"]), &row(&[2]), &code),
        Err(Error::OperationTargetNotFound("w".to_string()))
    );
}

#[test]
fn dividing_by_zero_is_refused() {
    let inputs = names(&["p", "q"]);
    let code = vec![op("r", id("p"), Operator::Divide, id("q"))];
    assert_eq!(assign_variables(&inputs, &row(&[12, 0]), &code), Err(Error::DivisionByZero));
    let code = vec![
        op("z", id("q"), Operator::Minus, id("q")),
        op("r", id("p"), Operator::Divide, id("z")),
    ];
    assert_eq!(assign_variables(&inputs, &row(&[12, 5]), &code), Err(Error::DivisionByZero));
}

#[test]
fn the_first_fault_is_reported() {
    let inputs = names(&["p"]);
    let code = vec![
        op("r", id("p"), Operator::Divide, num(0)),
        op("s", id("nowhere"), Operator::Plus, num(1)),
    ];
    assert_eq!(assign_variables(&inputs, &row(&[1]), &code), Err(Error::DivisionByZero));
    let code = vec![
        op("s", id("nowhere"), Operator::Plus, num(1)),
        op("r", id("p"), Operator::Divide, num(0)),
    ];
    assert_eq!(
        assign_variables(&inputs, &row(&[1]), &code),
        Err(Error::OperationTargetNotFound("nowhere".to_string()))
    );
}
