//! The witness: a value for every column of the placement, computed by running
//! the program on the input values.

use vstd::prelude::*;
use crate::field::{Fp, fadd, fdiv, fmul, fsub, lemma_view_is_felt};
use crate::poly::coeff;
use crate::r1cs::{
    Name, Operand, OperandView, Operation, OperationView, Operator, get_var_placement, index_of,
    lemma_placement_contains, lowers, r1cs_a, r1cs_b, r1cs_c, var_placement,
};
use crate::soundness::{lemma_flatcode_numbers_are_felt, lemma_witness_sound, writes_once};
use crate::vecs::{lemma_deep_view_update, lemma_vec_is_felt, zero_vec};
use crate::Error;

verus! {

broadcast use lemma_view_is_felt;

/// Why a program cannot be run to its end.
pub enum Fault {
    /// A name that is read or written has no column.
    NotFound(Name),
    /// An operation divides by zero.
    DivisionByZero,
}

/// The assignment before the first operation: one in column 0, the input
/// values in the columns after it, zero everywhere else.
pub open spec fn initial_assignment(width: nat, input_vars: Seq<int>) -> Seq<int> {
    Seq::new(
        width,
        |c: int|
            if c == 0 {
                1
            } else if c <= input_vars.len() {
                input_vars[c - 1]
            } else {
                0
            },
    )
}

/// The value of an operand under the assignment `w`.
pub open spec fn grab(names: Seq<Name>, w: Seq<int>, operand: OperandView) -> Result<int, Fault> {
    match operand {
        OperandView::Number(v) => Ok(v),
        OperandView::Identifier(name) => match names.index_of_first(name) {
            Some(c) => Ok(w[c]),
            None => Err(Fault::NotFound(name)),
        },
    }
}

/// The result of a binary operator.
pub open spec fn apply(operator: Operator, l: int, r: int) -> Result<int, Fault> {
    match operator {
        Operator::Plus => Ok(fadd(l, r)),
        Operator::Minus => Ok(fsub(l, r)),
        Operator::Multiply => Ok(fmul(l, r)),
        Operator::Divide => if r == 0 {
            Err(Fault::DivisionByZero)
        } else {
            Ok(fdiv(l, r))
        },
        Operator::Assign => Ok(l),
    }
}

/// The value that an operation computes under the assignment `w`. The left
/// operand is fetched first; an assignment never fetches its right operand.
pub open spec fn op_value(names: Seq<Name>, w: Seq<int>, op: OperationView) -> Result<int, Fault> {
    match grab(names, w, op.left) {
        Err(f) => Err(f),
        Ok(l) => if op.operator == Operator::Assign {
            Ok(l)
        } else {
            match grab(names, w, op.right) {
                Err(f) => Err(f),
                Ok(r) => apply(op.operator, l, r),
            }
        },
    }
}

/// The assignment after one operation: its value stands in the target's column.
pub open spec fn step(names: Seq<Name>, w: Seq<int>, op: OperationView) -> Result<
    Seq<int>,
    Fault,
> {
    match op_value(names, w, op) {
        Err(f) => Err(f),
        Ok(v) => match names.index_of_first(op.target) {
            Some(t) => Ok(w.update(t, v)),
            None => Err(Fault::NotFound(op.target)),
        },
    }
}

/// The assignment after the first `k` operations, or the first fault among them.
pub open spec fn run(names: Seq<Name>, w0: Seq<int>, flatcode: Seq<OperationView>, k: nat) -> Result<
    Seq<int>,
    Fault,
>
    decreases k,
{
    if k == 0 {
        Ok(w0)
    } else {
        match run(names, w0, flatcode, (k - 1) as nat) {
            Err(f) => Err(f),
            Ok(w) => step(names, w, flatcode[k - 1]),
        }
    }
}

/// A fault among the first `j` operations is the fault of every longer run.
pub proof fn lemma_fault_stays(
    names: Seq<Name>,
    w0: Seq<int>,
    flatcode: Seq<OperationView>,
    j: nat,
    k: nat,
)
    requires
        j <= k,
        run(names, w0, flatcode, j) is Err,
    ensures
        run(names, w0, flatcode, k) == run(names, w0, flatcode, j),
    decreases k,
{
    if j < k {
        lemma_fault_stays(names, w0, flatcode, j, (k - 1) as nat);
    }
}

/// The witness of a program on given input values.
pub open spec fn witness(inputs: Seq<Name>, input_vars: Seq<int>, flatcode: Seq<OperationView>) -> Result<
    Seq<int>,
    Fault,
> {
    let names = var_placement(inputs, flatcode);
    run(names, initial_assignment(names.len(), input_vars), flatcode, flatcode.len())
}

/// Fetches the value of an operand.
fn grab_value(names: &Vec<String>, w: &Vec<Fp>, operand: &Operand) -> (r: Result<Fp, Error>)
    requires
        w.len() == names.len(),
    ensures
        match r {
            Ok(v) => grab(names.deep_view(), w.deep_view(), operand@) == Ok::<int, Fault>(v@),
            Err(Error::OperationTargetNotFound(n)) => grab(
                names.deep_view(),
                w.deep_view(),
                operand@,
            ) == Err::<int, Fault>(Fault::NotFound(n@)),
            Err(_) => false,
        },
{
    match operand {
        Operand::Number(v) => Ok(*v),
        Operand::Identifier(name) => {
            proof {
                names.deep_view().index_of_first_ensures(name@);
            }
            match index_of(names, name) {
                Some(c) => Ok(w[c]),
                None => Err(Error::OperationTargetNotFound(name.clone())),
            }
        },
    }
}

/// Computes the value of one operation.
fn compute(names: &Vec<String>, w: &Vec<Fp>, op: &Operation) -> (r: Result<Fp, Error>)
    requires
        w.len() == names.len(),
    ensures
        match r {
            Ok(v) => op_value(names.deep_view(), w.deep_view(), op@) == Ok::<int, Fault>(v@),
            Err(Error::OperationTargetNotFound(n)) => op_value(
                names.deep_view(),
                w.deep_view(),
                op@,
            ) == Err::<int, Fault>(Fault::NotFound(n@)),
            Err(Error::DivisionByZero) => op_value(names.deep_view(), w.deep_view(), op@) == Err::<
                int,
                Fault,
            >(Fault::DivisionByZero),
            Err(_) => false,
        },
{
    let l = grab_value(names, w, &op.left)?;
    match op.operator {
        Operator::Assign => Ok(l),
        Operator::Plus => {
            let r = grab_value(names, w, &op.right)?;
            Ok(l.add(&r))
        },
        Operator::Minus => {
            let r = grab_value(names, w, &op.right)?;
            Ok(l.sub(&r))
        },
        Operator::Multiply => {
            let r = grab_value(names, w, &op.right)?;
            Ok(l.mul(&r))
        },
        Operator::Divide => {
            let r = grab_value(names, w, &op.right)?;
            match l.div(&r) {
                Some(v) => Ok(v),
                None => Err(Error::DivisionByZero),
            }
        },
    }
}

/// Runs the program on the input values and returns the value of every column.
///
/// The number of values must be the number of inputs. A column that no
/// operation has written yet reads as zero. Where the program can be lowered
/// and writes every name once, the values satisfy every constraint of the
/// lowered program.
pub fn assign_variables(inputs: &Vec<String>, input_vars: &Vec<Fp>, flatcode: &Vec<Operation>) -> (r:
    Result<Vec<Fp>, Error>)
    ensures
        match r {
            Ok(w) => {
                &&& input_vars.len() == inputs.len()
                &&& witness(inputs.deep_view(), input_vars.deep_view(), flatcode.deep_view())
                    == Ok::<Seq<int>, Fault>(w.deep_view())
                &&& lowers(inputs.deep_view(), flatcode.deep_view()) && writes_once(
                    flatcode.deep_view(),
                ) ==> satisfies(
                    r1cs_a(inputs.deep_view(), flatcode.deep_view()),
                    r1cs_b(inputs.deep_view(), flatcode.deep_view()),
                    r1cs_c(inputs.deep_view(), flatcode.deep_view()),
                    w.deep_view(),
                )
            },
            Err(Error::ArityMismatch) => input_vars.len() != inputs.len(),
            Err(Error::OperationTargetNotFound(n)) => {
                &&& input_vars.len() == inputs.len()
                &&& witness(inputs.deep_view(), input_vars.deep_view(), flatcode.deep_view())
                    == Err::<Seq<int>, Fault>(Fault::NotFound(n@))
            },
            Err(Error::DivisionByZero) => {
                &&& input_vars.len() == inputs.len()
                &&& witness(inputs.deep_view(), input_vars.deep_view(), flatcode.deep_view())
                    == Err::<Seq<int>, Fault>(Fault::DivisionByZero)
            },
            Err(_) => false,
        },
{
    if input_vars.len() != inputs.len() {
        return Err(Error::ArityMismatch);
    }
    let names = get_var_placement(inputs, flatcode);
    let ghost iv = inputs.deep_view();
    let ghost vv = input_vars.deep_view();
    let ghost fv = flatcode.deep_view();
    let ghost nv = names.deep_view();
    proof {
        lemma_placement_contains(iv, fv, fv.len());
    }
    let width = names.len();
    let mut w = zero_vec(width);
    proof {
        assert forall|c: int| 0 <= c < width implies (#[trigger] w@[c])@ == 0 by {
            assert(w.deep_view()[c] == 0);
        }
    }
    w.set(0, Fp::one());
    let mut i: usize = 0;
    while i < input_vars.len()
        invariant
            i <= input_vars.len(),
            input_vars.len() + 2 <= width,
            w.len() == width,
            vv == input_vars.deep_view(),
            forall|c: int|
                0 <= c < width ==> (#[trigger] w@[c])@ == if c == 0 {
                    1
                } else if c <= i {
                    vv[c - 1]
                } else {
                    0
                },
        decreases input_vars.len() - i,
    {
        w.set(i + 1, input_vars[i]);
        i += 1;
    }
    assert(w.deep_view() =~= initial_assignment(width as nat, vv));
    let mut k: usize = 0;
    while k < flatcode.len()
        invariant
            k <= flatcode.len(),
            w.len() == width,
            width == names.len(),
            iv == inputs.deep_view(),
            vv == input_vars.deep_view(),
            input_vars.len() == inputs.len(),
            nv == names.deep_view(),
            fv == flatcode.deep_view(),
            nv == var_placement(iv, fv),
            run(nv, initial_assignment(width as nat, vv), fv, k as nat) == Ok::<Seq<int>, Fault>(
                w.deep_view(),
            ),
        decreases flatcode.len() - k,
    {
        let op = &flatcode[k];
        assert(op@ == fv[k as int]);
        let v = match compute(&names, &w, op) {
            Ok(v) => v,
            Err(e) => {
                proof {
                    lemma_fault_stays(
                        nv,
                        initial_assignment(width as nat, vv),
                        fv,
                        (k + 1) as nat,
                        fv.len(),
                    );
                }
                return Err(e);
            },
        };
        proof {
            lemma_placement_contains(iv, fv, fv.len());
            assert(nv.contains(fv[k as int].target));
            nv.index_of_first_ensures(op.target@);
        }
        let t = match index_of(&names, &op.target) {
            Some(t) => t,
            None => { return Err(Error::OperationTargetNotFound(op.target.clone())); },
        };
        let ghost before = w;
        w.set(t, v);
        proof {
            lemma_deep_view_update(before, w, t as int, v);
        }
        k += 1;
    }
    proof {
        if lowers(iv, fv) && writes_once(fv) {
            lemma_vec_is_felt(*input_vars);
            lemma_flatcode_numbers_are_felt(*flatcode);
            lemma_witness_sound(iv, vv, fv);
        }
    }
    Ok(w)
}

// ---------------------------------------------------------------------------
// Checking an assignment against the constraints
// ---------------------------------------------------------------------------

/// The sum of `row[j] * w[j]` over `j < n`; `w` reads as zero beyond its end.
pub open spec fn dot(row: Seq<int>, w: Seq<int>, n: nat) -> int
    decreases n,
{
    if n == 0 {
        0
    } else {
        fadd(dot(row, w, (n - 1) as nat), fmul(row[n - 1], coeff(w, n - 1)))
    }
}

/// The value of a row under the assignment `w`.
pub open spec fn row_value(row: Seq<int>, w: Seq<int>) -> int {
    dot(row, w, row.len())
}

/// The constraint of one row holds: `(A_i . w) * (B_i . w) = C_i . w`.
pub open spec fn row_holds(a: Seq<int>, b: Seq<int>, c: Seq<int>, w: Seq<int>) -> bool {
    fmul(row_value(a, w), row_value(b, w)) == row_value(c, w)
}

/// The three matrices have the same number of rows and `w` satisfies every row.
pub open spec fn satisfies(
    a: Seq<Seq<int>>,
    b: Seq<Seq<int>>,
    c: Seq<Seq<int>>,
    w: Seq<int>,
) -> bool {
    &&& a.len() == b.len()
    &&& a.len() == c.len()
    &&& forall|i: int| 0 <= i < a.len() ==> #[trigger] row_holds(a[i], b[i], c[i], w)
}

/// The value of a row under the assignment `w`.
pub fn dot_product(row: &Vec<Fp>, w: &Vec<Fp>) -> (v: Fp)
    ensures
        v@ == row_value(row.deep_view(), w.deep_view()),
{
    let mut acc = Fp::zero();
    let mut j: usize = 0;
    while j < row.len()
        invariant
            j <= row.len(),
            acc@ == dot(row.deep_view(), w.deep_view(), j as nat),
        decreases row.len() - j,
    {
        let wj = if j < w.len() {
            w[j]
        } else {
            Fp::zero()
        };
        acc = acc.add(&row[j].mul(&wj));
        j += 1;
    }
    acc
}

/// Whether the assignment `w` satisfies every row of the constraint system.
pub fn is_satisfied(a: &Vec<Vec<Fp>>, b: &Vec<Vec<Fp>>, c: &Vec<Vec<Fp>>, w: &Vec<Fp>) -> (r: bool)
    ensures
        r == satisfies(a.deep_view(), b.deep_view(), c.deep_view(), w.deep_view()),
{
    if a.len() != b.len() || a.len() != c.len() {
        return false;
    }
    let mut i: usize = 0;
    while i < a.len()
        invariant
            i <= a.len(),
            a.len() == b.len(),
            a.len() == c.len(),
            forall|k: int|
                0 <= k < i ==> #[trigger] row_holds(
                    a.deep_view()[k],
                    b.deep_view()[k],
                    c.deep_view()[k],
                    w.deep_view(),
                ),
        decreases a.len() - i,
    {
        assert(a.deep_view()[i as int] == a@[i as int].deep_view());
        assert(b.deep_view()[i as int] == b@[i as int].deep_view());
        assert(c.deep_view()[i as int] == c@[i as int].deep_view());
        let left = dot_product(&a[i], w).mul(&dot_product(&b[i], w));
        let right = dot_product(&c[i], w);
        if left != right {
            assert(!row_holds(
                a.deep_view()[i as int],
                b.deep_view()[i as int],
                c.deep_view()[i as int],
                w.deep_view(),
            ));
            return false;
        }
        i += 1;
    }
    true
}

} // verus!
