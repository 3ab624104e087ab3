//! Decoding what the host hands over: names, numbers, and the flat stream of
//! tokens that encodes a program, four tokens per operation.

use vstd::prelude::*;
use vstd::string::StringExecFns;
use crate::field::{Fp, felt};
use crate::r1cs::{Name, Operand, OperandView, Operation, OperationView, Operator};
use crate::vecs::lemma_deep_view_push;
use crate::{Error, JsValueType};

verus! {

// ---------------------------------------------------------------------------
// What a token stands for
// ---------------------------------------------------------------------------

/// The name that a token carries: a string that is not empty.
pub open spec fn name_of(t: JsValueType) -> Option<Name> {
    match t {
        JsValueType::String(s) => if s@.len() > 0 {
            Some(s@)
        } else {
            None
        },
        _ => None,
    }
}

/// The field element that a token carries: a number.
pub open spec fn number_of(t: JsValueType) -> Option<int> {
    match t {
        JsValueType::Number(x) => Some(felt(x as int)),
        _ => None,
    }
}

/// The operand that a token carries: a number, or a name.
pub open spec fn operand_of(t: JsValueType) -> Option<OperandView> {
    match t {
        JsValueType::Number(x) => Some(OperandView::Number(felt(x as int))),
        JsValueType::String(s) => if s@.len() > 0 {
            Some(OperandView::Identifier(s@))
        } else {
            None
        },
        _ => None,
    }
}

/// The text of an operator.
pub open spec fn symbol_of(operator: Operator) -> Seq<char> {
    match operator {
        Operator::Plus => "+"@,
        Operator::Minus => "-"@,
        Operator::Multiply => "*"@,
        Operator::Divide => "/"@,
        Operator::Assign => "set"@,
    }
}

/// The operator that a text names.
pub open spec fn operator_named(text: Seq<char>) -> Option<Operator> {
    if text == "+"@ {
        Some(Operator::Plus)
    } else if text == "-"@ {
        Some(Operator::Minus)
    } else if text == "*"@ {
        Some(Operator::Multiply)
    } else if text == "/"@ {
        Some(Operator::Divide)
    } else if text == "set"@ {
        Some(Operator::Assign)
    } else {
        None
    }
}

/// The operator that a token carries.
pub open spec fn operator_of(t: JsValueType) -> Option<Operator> {
    match t {
        JsValueType::String(s) => operator_named(s@),
        _ => None,
    }
}

/// The operation that four tokens encode, in the order operator, target,
/// left operand, right operand.
pub open spec fn operation_of(
    o: JsValueType,
    t: JsValueType,
    l: JsValueType,
    r: JsValueType,
) -> Option<OperationView> {
    if operand_of(l) is Some && operand_of(r) is Some && operator_of(o) is Some && name_of(t)
        is Some {
        Some(
            OperationView {
                target: name_of(t).unwrap(),
                operator: operator_of(o).unwrap(),
                left: operand_of(l).unwrap(),
                right: operand_of(r).unwrap(),
            },
        )
    } else {
        None
    }
}

/// The error that four tokens are refused with. The operands are looked at
/// first, then the operator, then the target.
pub open spec fn operation_error(
    o: JsValueType,
    t: JsValueType,
    l: JsValueType,
    r: JsValueType,
    e: Error,
) -> bool {
    if operand_of(l) is None {
        e == Error::InvalidOperandType(l)
    } else if operand_of(r) is None {
        e == Error::InvalidOperandType(r)
    } else if !(o is String) {
        e == Error::InvalidOperandType(o)
    } else if operator_of(o) is None {
        e == Error::UnknownOperator(o->String_0)
    } else {
        name_of(t) is None && e == Error::InvalidOperandType(t)
    }
}

/// Operation `i` of a token stream, if its four tokens encode one.
pub open spec fn chunk_of(tokens: Seq<JsValueType>, i: int) -> Option<OperationView> {
    operation_of(tokens[4 * i], tokens[4 * i + 1], tokens[4 * i + 2], tokens[4 * i + 3])
}

/// Every four tokens encode an operation.
pub open spec fn is_flatcode(tokens: Seq<JsValueType>) -> bool {
    forall|i: int| 0 <= i < tokens.len() / 4 ==> (#[trigger] chunk_of(tokens, i)) is Some
}

/// The program that a token stream encodes.
pub open spec fn flatcode_of(tokens: Seq<JsValueType>) -> Seq<OperationView> {
    Seq::new((tokens.len() / 4) as nat, |i: int| chunk_of(tokens, i).unwrap())
}

/// Every token carries a name.
pub open spec fn are_names(tokens: Seq<JsValueType>) -> bool {
    forall|i: int| 0 <= i < tokens.len() ==> name_of(#[trigger] tokens[i]) is Some
}

/// The names that the tokens carry.
pub open spec fn names_of(tokens: Seq<JsValueType>) -> Seq<Name> {
    Seq::new(tokens.len(), |i: int| name_of(tokens[i]).unwrap())
}

/// Every token carries a number.
pub open spec fn are_numbers(tokens: Seq<JsValueType>) -> bool {
    forall|i: int| 0 <= i < tokens.len() ==> number_of(#[trigger] tokens[i]) is Some
}

/// The field elements that the tokens carry.
pub open spec fn numbers_of(tokens: Seq<JsValueType>) -> Seq<int> {
    Seq::new(tokens.len(), |i: int| number_of(tokens[i]).unwrap())
}

/// `e` refuses the first token that carries no name.
pub open spec fn refuses_names(tokens: Seq<JsValueType>, e: Error) -> bool {
    exists|i: int|
        {
            &&& 0 <= i < tokens.len()
            &&& forall|j: int| 0 <= j < i ==> name_of(#[trigger] tokens[j]) is Some
            &&& name_of(tokens[i]) is None
            &&& e == Error::InvalidOperandType(tokens[i])
        }
}

/// `e` refuses the first token that carries no number.
pub open spec fn refuses_numbers(tokens: Seq<JsValueType>, e: Error) -> bool {
    exists|i: int|
        {
            &&& 0 <= i < tokens.len()
            &&& forall|j: int| 0 <= j < i ==> number_of(#[trigger] tokens[j]) is Some
            &&& number_of(tokens[i]) is None
            &&& e == Error::InvalidOperandType(tokens[i])
        }
}

/// `e` refuses the first four tokens that encode no operation.
pub open spec fn refuses_flatcode(tokens: Seq<JsValueType>, e: Error) -> bool {
    exists|i: int|
        {
            &&& 0 <= i < tokens.len() / 4
            &&& forall|j: int| 0 <= j < i ==> (#[trigger] chunk_of(tokens, j)) is Some
            &&& chunk_of(tokens, i) is None
            &&& operation_error(
                tokens[4 * i],
                tokens[4 * i + 1],
                tokens[4 * i + 2],
                tokens[4 * i + 3],
                e,
            )
        }
}

/// The operators have five different texts, so each text names its operator.
pub proof fn lemma_symbols_name_their_operators(operator: Operator)
    ensures
        operator_named(symbol_of(operator)) == Some(operator),
{
    reveal_strlit("+");
    reveal_strlit("-");
    reveal_strlit("*");
    reveal_strlit("/");
    reveal_strlit("set");
    assert("+"@[0] == '+');
    assert("-"@[0] == '-');
    assert("*"@[0] == '*');
    assert("/"@[0] == '/');
    assert("set"@.len() == 3);
}

// ---------------------------------------------------------------------------
// Decoding
// ---------------------------------------------------------------------------

fn is_text(text: &String, literal: &str) -> (r: bool)
    ensures
        r == (text@ == literal@),
{
    let other = String::from_str(literal);
    *text == other
}

impl Operator {
    /// The operator that a text names; any text but `+ - * / set` is refused.
    pub fn from_text(text: &String) -> (r: Result<Operator, Error>)
        ensures
            match r {
                Ok(operator) => operator_named(text@) == Some(operator),
                Err(e) => operator_named(text@) is None && e == Error::UnknownOperator(*text),
            },
    {
        if is_text(text, "+") {
            Ok(Operator::Plus)
        } else if is_text(text, "-") {
            Ok(Operator::Minus)
        } else if is_text(text, "*") {
            Ok(Operator::Multiply)
        } else if is_text(text, "/") {
            Ok(Operator::Divide)
        } else if is_text(text, "set") {
            Ok(Operator::Assign)
        } else {
            Err(Error::UnknownOperator(text.clone()))
        }
    }

    /// The text of the operator.
    pub fn to_text(&self) -> (r: String)
        ensures
            r@ == symbol_of(*self),
    {
        match self {
            Operator::Plus => String::from_str("+"),
            Operator::Minus => String::from_str("-"),
            Operator::Multiply => String::from_str("*"),
            Operator::Divide => String::from_str("/"),
            Operator::Assign => String::from_str("set"),
        }
    }
}

impl JsValueType {
    /// A copy of the token.
    pub fn duplicate(&self) -> (r: JsValueType)
        ensures
            r == *self,
    {
        match self {
            JsValueType::String(s) => JsValueType::String(s.clone()),
            JsValueType::Number(x) => JsValueType::Number(*x),
            JsValueType::Null => JsValueType::Null,
            JsValueType::Undefined => JsValueType::Undefined,
            JsValueType::Function => JsValueType::Function,
            JsValueType::Compound => JsValueType::Compound,
        }
    }
}

/// The name that a token carries.
pub fn decode_name(token: &JsValueType) -> (r: Result<String, Error>)
    ensures
        match r {
            Ok(name) => name_of(*token) == Some(name@),
            Err(e) => name_of(*token) is None && e == Error::InvalidOperandType(*token),
        },
{
    match token {
        JsValueType::String(s) => {
            if s.as_str().is_empty() {
                Err(Error::InvalidOperandType(token.duplicate()))
            } else {
                Ok(s.clone())
            }
        },
        _ => Err(Error::InvalidOperandType(token.duplicate())),
    }
}

/// The field element that a token carries.
pub fn decode_number(token: &JsValueType) -> (r: Result<Fp, Error>)
    ensures
        match r {
            Ok(x) => number_of(*token) == Some(x@),
            Err(e) => number_of(*token) is None && e == Error::InvalidOperandType(*token),
        },
{
    match token {
        JsValueType::Number(x) => Ok(Fp::from_i64(*x)),
        _ => Err(Error::InvalidOperandType(token.duplicate())),
    }
}

/// The operator that a token carries.
pub fn decode_operator(token: &JsValueType) -> (r: Result<Operator, Error>)
    ensures
        match r {
            Ok(operator) => operator_of(*token) == Some(operator),
            Err(e) => operator_of(*token) is None && if *token is String {
                e == Error::UnknownOperator(token->String_0)
            } else {
                e == Error::InvalidOperandType(*token)
            },
        },
{
    match token {
        JsValueType::String(s) => Operator::from_text(s),
        _ => Err(Error::InvalidOperandType(token.duplicate())),
    }
}

/// The operand that a token carries: a number, or a name that is not empty.
pub fn parse_operand(js_operand: &JsValueType) -> (r: Result<Operand, Error>)
    ensures
        match r {
            Ok(operand) => operand_of(*js_operand) == Some(operand@),
            Err(e) => operand_of(*js_operand) is None && e == Error::InvalidOperandType(
                *js_operand,
            ),
        },
{
    match js_operand {
        JsValueType::String(s) => {
            if s.as_str().is_empty() {
                Err(Error::InvalidOperandType(js_operand.duplicate()))
            } else {
                Ok(Operand::Identifier(s.clone()))
            }
        },
        JsValueType::Number(x) => Ok(Operand::Number(Fp::from_i64(*x))),
        _ => Err(Error::InvalidOperandType(js_operand.duplicate())),
    }
}

/// The operation that four tokens encode.
pub fn decode_operation(
    o: &JsValueType,
    t: &JsValueType,
    l: &JsValueType,
    r: &JsValueType,
) -> (res: Result<Operation, Error>)
    ensures
        match res {
            Ok(op) => operation_of(*o, *t, *l, *r) == Some(op@),
            Err(e) => operation_of(*o, *t, *l, *r) is None && operation_error(*o, *t, *l, *r, e),
        },
{
    let left = parse_operand(l)?;
    let right = parse_operand(r)?;
    let operator = decode_operator(o)?;
    let target = decode_name(t)?;
    Ok(Operation { target, operator, left, right })
}

/// The names that the tokens carry; the first token that carries none is refused.
pub fn decode_names(tokens: &Vec<JsValueType>) -> (r: Result<Vec<String>, Error>)
    ensures
        match r {
            Ok(names) => are_names(tokens@) && names.deep_view() == names_of(tokens@),
            Err(e) => refuses_names(tokens@, e),
        },
{
    let mut names: Vec<String> = Vec::new();
    let mut i: usize = 0;
    while i < tokens.len()
        invariant
            i <= tokens.len(),
            forall|j: int| 0 <= j < i ==> name_of(#[trigger] tokens@[j]) is Some,
            names.deep_view() == Seq::new(i as nat, |j: int| name_of(tokens@[j]).unwrap()),
        decreases tokens.len() - i,
    {
        let name = decode_name(&tokens[i])?;
        let ghost before = names;
        names.push(name);
        proof {
            lemma_deep_view_push(before, names, name);
            assert(names.deep_view() =~= Seq::new(
                (i + 1) as nat,
                |j: int| name_of(tokens@[j]).unwrap(),
            ));
        }
        i += 1;
    }
    Ok(names)
}

/// The field elements that the tokens carry; the first token that carries
/// none is refused.
pub fn decode_numbers(tokens: &Vec<JsValueType>) -> (r: Result<Vec<Fp>, Error>)
    ensures
        match r {
            Ok(numbers) => are_numbers(tokens@) && numbers.deep_view() == numbers_of(tokens@),
            Err(e) => refuses_numbers(tokens@, e),
        },
{
    let mut numbers: Vec<Fp> = Vec::new();
    let mut i: usize = 0;
    while i < tokens.len()
        invariant
            i <= tokens.len(),
            forall|j: int| 0 <= j < i ==> number_of(#[trigger] tokens@[j]) is Some,
            numbers.deep_view() == Seq::new(i as nat, |j: int| number_of(tokens@[j]).unwrap()),
        decreases tokens.len() - i,
    {
        let x = decode_number(&tokens[i])?;
        let ghost before = numbers;
        numbers.push(x);
        proof {
            lemma_deep_view_push(before, numbers, x);
            assert(numbers.deep_view() =~= Seq::new(
                (i + 1) as nat,
                |j: int| number_of(tokens@[j]).unwrap(),
            ));
        }
        i += 1;
    }
    Ok(numbers)
}

/// The program that a token stream encodes, four tokens per operation; the
/// first four tokens that encode none are refused.
pub fn decode_flatcode(tokens: &Vec<JsValueType>) -> (r: Result<Vec<Operation>, Error>)
    requires
        tokens.len() % 4 == 0,
    ensures
        match r {
            Ok(code) => is_flatcode(tokens@) && code.deep_view() == flatcode_of(tokens@),
            Err(e) => refuses_flatcode(tokens@, e),
        },
{
    let count = tokens.len() / 4;
    let mut code: Vec<Operation> = Vec::new();
    let mut i: usize = 0;
    while i < count
        invariant
            i <= count,
            count == tokens.len() / 4,
            forall|j: int| 0 <= j < i ==> (#[trigger] chunk_of(tokens@, j)) is Some,
            code.deep_view() == Seq::new(i as nat, |j: int| chunk_of(tokens@, j).unwrap()),
        decreases count - i,
    {
        let at = 4 * i;
        let op = match decode_operation(
            &tokens[at],
            &tokens[at + 1],
            &tokens[at + 2],
            &tokens[at + 3],
        ) {
            Ok(op) => op,
            Err(e) => {
                assert(chunk_of(tokens@, i as int) is None);
                assert(operation_error(
                    tokens@[4 * i],
                    tokens@[4 * i + 1],
                    tokens@[4 * i + 2],
                    tokens@[4 * i + 3],
                    e,
                ));
                return Err(e);
            },
        };
        let ghost before = code;
        code.push(op);
        proof {
            lemma_deep_view_push(before, code, op);
            assert(code.deep_view() =~= Seq::new(
                (i + 1) as nat,
                |j: int| chunk_of(tokens@, j).unwrap(),
            ));
        }
        i += 1;
    }
    Ok(code)
}

} // verus!
