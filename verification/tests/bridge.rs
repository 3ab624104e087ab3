use r1cs_qap::bridge::{
    decode_flatcode, decode_name, decode_names, decode_number, decode_numbers, decode_operation,
    decode_operator, parse_operand,
};
use r1cs_qap::field::Fp;
use r1cs_qap::r1cs::{Operand, Operation, Operator};
use r1cs_qap::text::decimal_text;
use r1cs_qap::{code_to_r1cs, Error, JsValueType};

fn f(x: i64) -> Fp {
    Fp::from_i64(x)
}

fn row(xs: &[i64]) -> Vec<Fp> {
    xs.iter().map(|x| f(*x)).collect()
}

fn s(text: &str) -> JsValueType {
    JsValueType::String(text.to_string())
}

fn n(x: i64) -> JsValueType {
    JsValueType::Number(x)
}

fn invalid(t: JsValueType) -> Error {
    Error::InvalidOperandType(t)
}

#[test]
fn operators_have_five_texts() {
    assert_eq!(Operator::from_text(&"+".to_string()), Ok(Operator::Plus));
    assert_eq!(Operator::from_text(&"-".to_string()), Ok(Operator::Minus));
    assert_eq!(Operator::from_text(&"*".to_string()), Ok(Operator::Multiply));
    assert_eq!(Operator::from_text(&"/".to_string()), Ok(Operator::Divide));
    assert_eq!(Operator::from_text(&"set".to_string()), Ok(Operator::Assign));
    for operator in [
        Operator::Plus,
        Operator::Minus,
        Operator::Multiply,
        Operator::Divide,
        Operator::Assign,
    ] {
        assert_eq!(Operator::from_text(&operator.to_text()), Ok(operator));
    }
}

#[test]
fn any_other_text_is_an_unknown_operator() {
    for text in ["", "%", "++", "plus", "Set", " +", "**"] {
        assert_eq!(
            Operator::from_text(&text.to_string()),
            Err(Error::UnknownOperator(text.to_string()))
        );
    }
}

#[test]
fn an_operand_is_a_number_or_a_name() {
    assert_eq!(parse_operand(&n(5)), Ok(Operand::Number(f(5))));
    assert_eq!(parse_operand(&n(-1)), Ok(Operand::Number(f(-1))));
    assert_eq!(parse_operand(&s("x")), Ok(Operand::Identifier("x".to_string())));
    assert_eq!(parse_operand(&s("~out")), Ok(Operand::Identifier("~out".to_string())));
}

#[test]
fn anything_else_is_an_invalid_operand() {
    for t in [
        JsValueType::Null,
        JsValueType::Undefined,
        JsValueType::Function,
        JsValueType::Compound,
        s(""),
    ] {
        assert_eq!(parse_operand(&t), Err(invalid(t.clone())));
    }
}

#[test]
fn names_and_numbers_decode_one_by_one() {
    assert_eq!(decode_name(&s("x")), Ok("x".to_string()));
    assert_eq!(decode_name(&s("")), Err(invalid(s(""))));
    assert_eq!(decode_name(&n(1)), Err(invalid(n(1))));
    assert_eq!(decode_number(&n(-2)), Ok(f(-2)));
    assert_eq!(decode_number(&s("2")), Err(invalid(s("2"))));
    assert_eq!(decode_operator(&s("*")), Ok(Operator::Multiply));
    assert_eq!(decode_operator(&s("x")), Err(Error::UnknownOperator("x".to_string())));
    assert_eq!(decode_operator(&n(3)), Err(invalid(n(3))));
    assert_eq!(decode_operator(&JsValueType::Null), Err(invalid(JsValueType::Null)));
}

#[test]
fn lists_refuse_their_first_bad_token() {
    assert_eq!(decode_names(&vec![s("a"), s("b")]), Ok(vec!["a".to_string(), "b".to_string()]));
    assert_eq!(decode_names(&vec![]), Ok(vec![]));
    assert_eq!(
        decode_names(&vec![s("a"), n(1), JsValueType::Null]),
        Err(invalid(n(1)))
    );
    assert_eq!(decode_numbers(&vec![n(1), n(-1)]), Ok(row(&[1, -1])));
    assert_eq!(
        decode_numbers(&vec![n(1), JsValueType::Undefined, s("x")]),
        Err(invalid(JsValueType::Undefined))
    );
}

#[test]
fn four_tokens_make_an_operation() {
    assert_eq!(
        decode_operation(&s("*"), &s("y"), &s("x"), &n(2)),
        Ok(Operation {
            target: "y".to_string(),
            operator: Operator::Multiply,
            left: Operand::Identifier("x".to_string()),
            right: Operand::Number(f(2)),
        })
    );
}

#[test]
fn an_operation_is_refused_operands_first() {
    let bad = JsValueType::Null;
    assert_eq!(
        decode_operation(&s("?"), &n(0), &bad, &JsValueType::Function),
        Err(invalid(JsValueType::Null))
    );
    assert_eq!(
        decode_operation(&s("?"), &n(0), &s("x"), &JsValueType::Function),
        Err(invalid(JsValueType::Function))
    );
    assert_eq!(
        decode_operation(&s("?"), &n(0), &s("x"), &n(1)),
        Err(Error::UnknownOperator("?".to_string()))
    );
    assert_eq!(decode_operation(&n(7), &n(0), &s("x"), &n(1)), Err(invalid(n(7))));
    assert_eq!(decode_operation(&s("+"), &n(0), &s("x"), &n(1)), Err(invalid(n(0))));
    assert_eq!(decode_operation(&s("+"), &s(""), &s("x"), &n(1)), Err(invalid(s(""))));
}

#[test]
fn a_stream_holds_four_tokens_per_operation() {
    let stream = vec![s("*"), s("y"), s("x"), s("x"), s("+"), s("~out"), s("y"), n(5)];
    let code = decode_flatcode(&stream).unwrap();
    assert_eq!(code.len(), 2);
    assert_eq!(code[0].to_text(), "y = x * x");
    assert_eq!(code[1].to_text(), "~out = y + 5");
    assert_eq!(decode_flatcode(&vec![]), Ok(vec![]));
    let stream = vec![s("*"), s("y"), s("x"), s("x"), s("^"), s("~out"), s("y"), n(5)];
    assert_eq!(decode_flatcode(&stream), Err(Error::UnknownOperator("^".to_string())));
}

#[test]
fn a_request_compiles_and_runs() {
    let out = code_to_r1cs(
        &vec![s("x")],
        &vec![s("*"), s("y"), s("x"), s("x"), s("+"), s("~out"), s("y"), n(5)],
        &vec![n(3)],
    )
    .unwrap();
    assert_eq!(out.placement, vec!["~one", "x", "~out", "y"]);
    assert_eq!(out.a, vec![row(&[0, 1, 0, 0]), row(&[5, 0, 0, 1])]);
    assert_eq!(out.b, vec![row(&[0, 1, 0, 0]), row(&[1, 0, 0, 0])]);
    assert_eq!(out.c, vec![row(&[0, 0, 0, 1]), row(&[0, 0, 1, 0])]);
    assert_eq!(out.witness, row(&[1, 3, 14, 9]));
}

fn refusal(input: Vec<JsValueType>, ops: Vec<JsValueType>, vars: Vec<JsValueType>) -> Error {
    code_to_r1cs(&input, &ops, &vars).unwrap_err()
}

#[test]
fn a_request_is_refused_stage_by_stage() {
    let good = vec![s("*"), s("y"), s("x"), s("x")];
    let undefined = vec![s("*"), s("y"), s("z"), s("x")];
    let garbled = vec![s("*"), s("y"), JsValueType::Null, s("x")];
    let by_zero = vec![s("/"), s("y"), s("x"), n(0)];
    // the input values come first
    assert_eq!(refusal(vec![n(1)], garbled.clone(), vec![s("3")]), invalid(s("3")));
    // then the inputs
    assert_eq!(refusal(vec![n(1)], garbled.clone(), vec![n(3)]), invalid(n(1)));
    assert_eq!(refusal(vec![s("")], good.clone(), vec![n(3)]), invalid(s("")));
    // then the program
    assert_eq!(refusal(vec![s("x")], garbled, vec![]), invalid(JsValueType::Null));
    // then the lowering
    assert_eq!(
        refusal(vec![s("x")], undefined, vec![]),
        Error::UseBeforeSet("z".to_string())
    );
    // then the run
    assert_eq!(refusal(vec![s("x")], good.clone(), vec![]), Error::ArityMismatch);
    assert_eq!(refusal(vec![s("x")], good, vec![n(1), n(2)]), Error::ArityMismatch);
    assert_eq!(refusal(vec![s("x")], by_zero, vec![n(1)]), Error::DivisionByZero);
}

#[test]
fn tokens_name_their_kind() {
    assert_eq!(s("x").to_text(), "string");
    assert_eq!(n(1).to_text(), "number");
    assert_eq!(JsValueType::Null.to_text(), "null");
    assert_eq!(JsValueType::Undefined.to_text(), "undefined");
    assert_eq!(JsValueType::Function.to_text(), "function");
    assert_eq!(JsValueType::Compound.to_text(), "compound");
    assert_eq!(s("x").duplicate(), s("x"));
    assert_eq!(n(4).duplicate(), n(4));
}

#[test]
fn errors_read_as_sentences() {
    assert_eq!(invalid(JsValueType::Null).to_text(), "invalid type: `null`");
    assert_eq!(invalid(s("")).to_text(), "invalid type: `string`");
    assert_eq!(
        Error::UnknownOperator("%".to_string()).to_text(),
        "unknown operator: `%`"
    );
    assert_eq!(
        Error::OperationTargetNotFound("t".to_string()).to_text(),
        "operation target not found: `t`"
    );
    assert_eq!(
        Error::UseBeforeSet("v".to_string()).to_text(),
        "using a variable before it is set: `v`"
    );
    assert_eq!(
        Error::ArityMismatch.to_text(),
        "the number of input values differs from the number of inputs"
    );
    assert_eq!(Error::DivisionByZero.to_text(), "division by zero");
    assert_eq!(Error::DivisionByZeroPoly.to_text(), "polynomial division by zero");
}

#[test]
fn operations_read_as_assignments() {
    let op = Operation {
        target: "t".to_string(),
        operator: Operator::Assign,
        left: Operand::Number(f(-1)),
        right: Operand::Identifier("unused".to_string()),
    };
    assert_eq!(op.to_text(), "t = 2147483646 set unused");
    assert_eq!(op.left.to_text(), "2147483646");
    assert_eq!(op.right.to_text(), "unused");
    assert_eq!(Operator::Divide.to_text(), "/");
}

#[test]
fn numbers_read_in_decimal() {
    assert_eq!(decimal_text(0), "0");
    assert_eq!(decimal_text(7), "7");
    assert_eq!(decimal_text(1234567890), "1234567890");
    assert_eq!(decimal_text(u64::MAX), "18446744073709551615");
}
