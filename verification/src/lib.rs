//! A compiler from three-address flatcode to rank-1 constraint systems (R1CS)
//! and quadratic arithmetic programs (QAP), the front end of a zk-SNARK
//! pipeline.
//!
//! A program is a list of operations `target = left operator right`. The
//! library
//!
//! * lays the program's variables out in columns ([`r1cs::get_var_placement`]),
//! * lowers every operation to one row of each of three matrices A, B and C
//!   ([`r1cs::flatcode_to_r1cs`]),
//! * runs the program on input values to get the witness, a value for every
//!   column ([`witness::assign_variables`]),
//! * interpolates the columns of the matrices into polynomials
//!   ([`qap::r1cs_to_qap`]), weighs them by the witness
//!   ([`qap::create_solution_polynomials`]) and divides the result by the target
//!   polynomial ([`qap::create_divisor_polynomial`]).
//!
//! All numbers are elements of the prime field of [`field`], so every step is
//! exact: a witness satisfies a constraint or it does not, and a remainder is
//! zero or it is not. [`poly`] holds the polynomial arithmetic, [`bridge`]
//! decodes what a host hands over, and [`text`] writes values out.
//!
//! The contracts of the executable functions are stated over mathematical
//! models: a field element is an `int` below the modulus, a polynomial or a
//! row a `Seq<int>`, a name a `Seq<char>`. What holds between the functions is
//! proved in [`soundness`] (the witness satisfies the constraints),
//! [`poly_laws`], [`evaluation`] and [`qap_laws`] (the column polynomials pass
//! through the matrices, and a satisfying witness leaves no remainder).

use vstd::prelude::*;
use crate::bridge::{
    are_names, are_numbers, decode_flatcode, decode_names, decode_numbers, flatcode_of,
    is_flatcode, names_of, numbers_of, refuses_flatcode, refuses_names, refuses_numbers,
};
use crate::field::Fp;
use crate::r1cs::{
    flatcode_to_r1cs, get_var_placement, is_first_violation, lowers, r1cs_a,
    r1cs_b, r1cs_c, var_placement,
};
use crate::witness::{Fault, assign_variables, witness};

pub mod bridge;
pub mod evaluation;
pub mod field;
pub mod poly;
pub mod poly_laws;
pub mod qap;
pub mod qap_laws;
pub mod r1cs;
pub mod soundness;
pub mod text;
pub mod vecs;
pub mod witness;

verus! {

/// The kind of a value handed over by the host, with its payload where it has one.
#[derive(Clone, Debug, PartialEq)]
pub enum JsValueType {
    String(String),
    Number(i64),
    Null,
    Undefined,
    Function,
    Compound,
}

/// What can go wrong anywhere in the pipeline.
#[derive(Clone, Debug, PartialEq)]
pub enum Error {
    /// An operand was neither a number nor a non-empty string.
    InvalidOperandType(JsValueType),
    /// An operator text outside `+ - * / set`.
    UnknownOperator(String),
    /// A name that should have a column in the placement has none.
    OperationTargetNotFound(String),
    /// An identifier was read before any operation defined it.
    UseBeforeSet(String),
    /// The number of input values differs from the number of inputs.
    ArityMismatch,
    /// A witness computation divided by zero.
    DivisionByZero,
    /// Polynomial division by a divisor that is longer than the dividend
    /// or whose leading coefficient is zero.
    DivisionByZeroPoly,
}

/// What compiling a program and running it on input values yields.
#[derive(Debug)]
pub struct Compiled {
    /// The name of every column.
    pub placement: Vec<String>,
    /// The matrix A, one row per operation.
    pub a: Vec<Vec<Fp>>,
    /// The matrix B.
    pub b: Vec<Vec<Fp>>,
    /// The matrix C.
    pub c: Vec<Vec<Fp>>,
    /// The value of every column.
    pub witness: Vec<Fp>,
}

/// `e` is the error that a request is refused with. The input values are
/// decoded first, then the inputs, then the program; a program that decodes
/// is lowered, and then run.
pub open spec fn is_refusal(
    input: Seq<JsValueType>,
    ops: Seq<JsValueType>,
    input_vars: Seq<JsValueType>,
    e: Error,
) -> bool {
    let inputs = names_of(input);
    let values = numbers_of(input_vars);
    let flatcode = flatcode_of(ops);
    if !are_numbers(input_vars) {
        refuses_numbers(input_vars, e)
    } else if !are_names(input) {
        refuses_names(input, e)
    } else if !is_flatcode(ops) {
        refuses_flatcode(ops, e)
    } else if !lowers(inputs, flatcode) {
        e is UseBeforeSet && exists|i: int|
            is_first_violation(inputs, flatcode, i, e->UseBeforeSet_0@)
    } else if input_vars.len() != input.len() {
        e == Error::ArityMismatch
    } else {
        match witness(inputs, values, flatcode) {
            Ok(_) => false,
            Err(Fault::NotFound(name)) => e is OperationTargetNotFound
                && e->OperationTargetNotFound_0@ == name,
            Err(Fault::DivisionByZero) => e == Error::DivisionByZero,
        }
    }
}

/// Decodes a request of the host, lowers the program to R1CS and computes
/// the witness. `ops` holds four tokens per operation: operator, target,
/// left operand, right operand.
pub fn code_to_r1cs(
    input: &Vec<JsValueType>,
    ops: &Vec<JsValueType>,
    input_vars: &Vec<JsValueType>,
) -> (r: Result<Compiled, Error>)
    requires
        ops.len() % 4 == 0,
    ensures
        match r {
            Ok(out) => {
                let inputs = names_of(input@);
                let values = numbers_of(input_vars@);
                let flatcode = flatcode_of(ops@);
                &&& are_numbers(input_vars@)
                &&& are_names(input@)
                &&& is_flatcode(ops@)
                &&& lowers(inputs, flatcode)
                &&& input_vars.len() == input.len()
                &&& out.placement.deep_view() == var_placement(inputs, flatcode)
                &&& out.a.deep_view() == r1cs_a(inputs, flatcode)
                &&& out.b.deep_view() == r1cs_b(inputs, flatcode)
                &&& out.c.deep_view() == r1cs_c(inputs, flatcode)
                &&& witness(inputs, values, flatcode) == Ok::<Seq<int>, Fault>(
                    out.witness.deep_view(),
                )
            },
            Err(e) => is_refusal(input@, ops@, input_vars@, e),
        },
{
    let values = decode_numbers(input_vars)?;
    let inputs = decode_names(input)?;
    let flatcode = decode_flatcode(ops)?;
    let placement = get_var_placement(&inputs, &flatcode);
    let (a, b, c) = flatcode_to_r1cs(&inputs, &flatcode)?;
    proof {
        assert(inputs.deep_view().len() == inputs.len());
        assert(values.deep_view().len() == values.len());
        assert(inputs.len() == input.len());
        assert(values.len() == input_vars.len());
    }
    let witness = assign_variables(&inputs, &values, &flatcode)?;
    Ok(Compiled { placement, a, b, c, witness })
}

} // verus!
