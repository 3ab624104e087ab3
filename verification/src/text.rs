//! How values read when they are written out.

use vstd::prelude::*;
use vstd::string::StringExecFns;
use crate::bridge::symbol_of;
use crate::field::Fp;
use crate::r1cs::{Operand, OperandView, Operation, OperationView};
use crate::{Error, JsValueType};

verus! {

/// The character of a decimal digit.
pub open spec fn digit(d: nat) -> char {
    if d == 0 {
        '0'
    } else if d == 1 {
        '1'
    } else if d == 2 {
        '2'
    } else if d == 3 {
        '3'
    } else if d == 4 {
        '4'
    } else if d == 5 {
        '5'
    } else if d == 6 {
        '6'
    } else if d == 7 {
        '7'
    } else if d == 8 {
        '8'
    } else {
        '9'
    }
}

/// A natural number in decimal, without leading zeros.
pub open spec fn decimal(n: nat) -> Seq<char>
    decreases n,
{
    if n < 10 {
        seq![digit(n)]
    } else {
        decimal(n / 10).push(digit(n % 10))
    }
}

/// An operand written out: a name as it is, a number in decimal.
pub open spec fn operand_text(operand: OperandView) -> Seq<char> {
    match operand {
        OperandView::Identifier(name) => name,
        OperandView::Number(v) => decimal(v as nat),
    }
}

/// An operation written out as `target = left operator right`.
pub open spec fn operation_text(op: OperationView) -> Seq<char> {
    op.target + " = "@ + operand_text(op.left) + " "@ + symbol_of(op.operator) + " "@
        + operand_text(op.right)
}

/// The name of the kind of a token.
pub open spec fn kind_name(t: JsValueType) -> Seq<char> {
    match t {
        JsValueType::String(_) => "string"@,
        JsValueType::Number(_) => "number"@,
        JsValueType::Null => "null"@,
        JsValueType::Undefined => "undefined"@,
        JsValueType::Function => "function"@,
        JsValueType::Compound => "compound"@,
    }
}

/// An error written out.
pub open spec fn error_text(e: Error) -> Seq<char> {
    match e {
        Error::InvalidOperandType(t) => "invalid type: `"@ + kind_name(t) + "`"@,
        Error::UnknownOperator(text) => "unknown operator: `"@ + text@ + "`"@,
        Error::OperationTargetNotFound(name) => "operation target not found: `"@ + name@ + "`"@,
        Error::UseBeforeSet(name) => "using a variable before it is set: `"@ + name@ + "`"@,
        Error::ArityMismatch => "the number of input values differs from the number of inputs"@,
        Error::DivisionByZero => "division by zero"@,
        Error::DivisionByZeroPoly => "polynomial division by zero"@,
    }
}

fn digit_text(d: u64) -> (r: &'static str)
    requires
        d < 10,
    ensures
        r@ == seq![digit(d as nat)],
{
    proof {
        reveal_strlit("0");
        reveal_strlit("1");
        reveal_strlit("2");
        reveal_strlit("3");
        reveal_strlit("4");
        reveal_strlit("5");
        reveal_strlit("6");
        reveal_strlit("7");
        reveal_strlit("8");
        reveal_strlit("9");
        assert("0"@ =~= seq!['0']);
        assert("1"@ =~= seq!['1']);
        assert("2"@ =~= seq!['2']);
        assert("3"@ =~= seq!['3']);
        assert("4"@ =~= seq!['4']);
        assert("5"@ =~= seq!['5']);
        assert("6"@ =~= seq!['6']);
        assert("7"@ =~= seq!['7']);
        assert("8"@ =~= seq!['8']);
        assert("9"@ =~= seq!['9']);
    }
    if d == 0 {
        "0"
    } else if d == 1 {
        "1"
    } else if d == 2 {
        "2"
    } else if d == 3 {
        "3"
    } else if d == 4 {
        "4"
    } else if d == 5 {
        "5"
    } else if d == 6 {
        "6"
    } else if d == 7 {
        "7"
    } else if d == 8 {
        "8"
    } else {
        "9"
    }
}

/// A number in decimal.
pub fn decimal_text(n: u64) -> (r: String)
    ensures
        r@ == decimal(n as nat),
    decreases n,
{
    if n < 10 {
        String::from_str(digit_text(n))
    } else {
        let head = decimal_text(n / 10);
        let r = head.concat(digit_text(n % 10));
        assert(r@ =~= decimal((n / 10) as nat).push(digit((n % 10) as nat)));
        r
    }
}

impl Fp {
    /// The canonical representative in decimal.
    pub fn to_text(&self) -> (r: String)
        ensures
            r@ == decimal(self@ as nat),
    {
        decimal_text(self.value())
    }
}

impl Operand {
    /// The operand written out: a name as it is, a number in decimal.
    pub fn to_text(&self) -> (r: String)
        ensures
            r@ == operand_text(self@),
    {
        match self {
            Operand::Identifier(name) => name.clone(),
            Operand::Number(v) => v.to_text(),
        }
    }
}

impl Operation {
    /// The operation written out as `target = left operator right`.
    pub fn to_text(&self) -> (r: String)
        ensures
            r@ == operation_text(self@),
    {
        let left = self.left.to_text();
        let operator = self.operator.to_text();
        let right = self.right.to_text();
        self.target.clone().concat(" = ").concat(left.as_str()).concat(" ").concat(
            operator.as_str(),
        ).concat(" ").concat(right.as_str())
    }
}

impl JsValueType {
    /// The name of the token's kind.
    pub fn to_text(&self) -> (r: String)
        ensures
            r@ == kind_name(*self),
    {
        match self {
            JsValueType::String(_) => String::from_str("string"),
            JsValueType::Number(_) => String::from_str("number"),
            JsValueType::Null => String::from_str("null"),
            JsValueType::Undefined => String::from_str("undefined"),
            JsValueType::Function => String::from_str("function"),
            JsValueType::Compound => String::from_str("compound"),
        }
    }
}

impl Error {
    /// The error written out.
    pub fn to_text(&self) -> (r: String)
        ensures
            r@ == error_text(*self),
    {
        match self {
            Error::InvalidOperandType(t) => {
                let kind = t.to_text();
                String::from_str("invalid type: `").concat(kind.as_str()).concat("`")
            },
            Error::UnknownOperator(text) => String::from_str("unknown operator: `").concat(
                text.as_str(),
            ).concat("`"),
            Error::OperationTargetNotFound(name) => String::from_str(
                "operation target not found: `",
            ).concat(name.as_str()).concat("`"),
            Error::UseBeforeSet(name) => String::from_str(
                "using a variable before it is set: `",
            ).concat(name.as_str()).concat("`"),
            Error::ArityMismatch => String::from_str(
                "the number of input values differs from the number of inputs",
            ),
            Error::DivisionByZero => String::from_str("division by zero"),
            Error::DivisionByZeroPoly => String::from_str("polynomial division by zero"),
        }
    }
}

} // verus!
