//! Witness soundness: the assignment that running a program computes
//! satisfies the constraints that lowering the program emits.

use vstd::prelude::*;
use crate::field::{
    fadd, fmul, fsub, is_felt, lemma_fadd_assoc, lemma_fadd_comm, lemma_fadd_felt,
    lemma_fadd_zero, lemma_fdiv_fmul, lemma_fmul_fadd, lemma_fmul_fneg,
    lemma_fmul_one, lemma_fmul_zero, lemma_fsub_is_fadd_fneg, lemma_fsub_self,
    lemma_view_is_felt,
};
use crate::poly::coeff;
use crate::r1cs::{
    Name, Operand, OperandView, Operation, OperationView, Operator, bump, encode_row, is_usable, lemma_placement_contains, lemma_r1cs_shape, lowers, one_name, place, r1cs_a, r1cs_b, r1cs_c,
    row_violation, signed, var_placement,
};
use crate::vecs::{all_felt, zero_row};
use crate::witness::{
    Fault, dot, grab, initial_assignment, lemma_fault_stays, op_value, row_holds,
    row_value, run, satisfies, step, witness,
};

verus! {

// ---------------------------------------------------------------------------
// What the law asks of a program
// ---------------------------------------------------------------------------

/// A number operand is a canonical representative.
pub open spec fn operand_is_felt(operand: OperandView) -> bool {
    operand matches OperandView::Number(v) ==> is_felt(v)
}

/// Every number in the program is a canonical representative.
pub open spec fn numbers_are_felt(flatcode: Seq<OperationView>) -> bool {
    forall|i: int|
        0 <= i < flatcode.len() ==> operand_is_felt((#[trigger] flatcode[i]).left)
            && operand_is_felt(flatcode[i].right)
}

/// The operation fetches the value of `name`.
pub open spec fn reads(op: OperationView, name: Name) -> bool {
    ||| op.left == OperandView::Identifier(name)
    ||| (op.operator != Operator::Assign && op.right == OperandView::Identifier(name))
}

/// No operation writes the constant column, and none writes a name that an
/// earlier operation has written or read.
pub open spec fn writes_once(flatcode: Seq<OperationView>) -> bool {
    &&& forall|j: int| 0 <= j < flatcode.len() ==> (#[trigger] flatcode[j]).target != one_name()
    &&& forall|i: int, j: int|
        0 <= i < j < flatcode.len() ==> (#[trigger] flatcode[j]).target != (
        #[trigger] flatcode[i]).target && !reads(flatcode[i], flatcode[j].target)
}

/// The numbers of a program that was built from field elements are canonical.
pub proof fn lemma_flatcode_numbers_are_felt(flatcode: Vec<Operation>)
    ensures
        numbers_are_felt(flatcode.deep_view()),
{
    assert forall|i: int| 0 <= i < flatcode.deep_view().len() implies operand_is_felt(
        (#[trigger] flatcode.deep_view()[i]).left,
    ) && operand_is_felt(flatcode.deep_view()[i].right) by {
        let op = flatcode@[i];
        if let Operand::Number(x) = op.left {
            lemma_view_is_felt(x);
        }
        if let Operand::Number(x) = op.right {
            lemma_view_is_felt(x);
        }
    }
}

// ---------------------------------------------------------------------------
// Row values
// ---------------------------------------------------------------------------

proof fn lemma_dot_zero(len: nat, w: Seq<int>, n: nat)
    requires
        n <= len,
    ensures
        dot(zero_row(len), w, n) == 0,
    decreases n,
{
    if n > 0 {
        lemma_dot_zero(len, w, (n - 1) as nat);
        lemma_fmul_zero(coeff(w, n - 1));
    }
}

/// Adding `d` to entry `c` of a row adds `d * w[c]` to the row's value.
proof fn lemma_dot_bump(row: Seq<int>, w: Seq<int>, c: int, d: int, n: nat)
    requires
        0 <= c < row.len(),
        n <= row.len(),
    ensures
        dot(bump(row, c, d), w, n) == if c < n {
            fadd(dot(row, w, n), fmul(d, coeff(w, c)))
        } else {
            dot(row, w, n)
        },
    decreases n,
{
    if n > 0 {
        let m = (n - 1) as nat;
        lemma_dot_bump(row, w, c, d, m);
        let e = fmul(d, coeff(w, c));
        if c == m {
            lemma_fmul_fadd(coeff(w, c), row[c], d);
            lemma_fadd_assoc(dot(row, w, m), fmul(row[c], coeff(w, c)), e);
        } else if c < m {
            let term = fmul(row[m as int], coeff(w, m as int));
            lemma_fadd_assoc(dot(row, w, m), e, term);
            lemma_fadd_comm(e, term);
            lemma_fadd_assoc(dot(row, w, m), term, e);
        }
    }
}

/// The value of a row after `d` was added to its entry `c`.
proof fn lemma_bump_value(row: Seq<int>, w: Seq<int>, c: int, d: int)
    requires
        0 <= c < row.len(),
        w.len() == row.len(),
    ensures
        bump(row, c, d).len() == row.len(),
        row_value(bump(row, c, d), w) == fadd(row_value(row, w), fmul(d, w[c])),
{
    lemma_dot_bump(row, w, c, d, row.len());
}

/// The value of a row of zeros with a single one at `c` is `w[c]`.
proof fn lemma_unit_value(len: nat, w: Seq<int>, c: int)
    requires
        0 <= c < len,
        w.len() == len,
        is_felt(w[c]),
    ensures
        row_value(zero_row(len).update(c, 1), w) == w[c],
        row_value(bump(zero_row(len), c, 1), w) == w[c],
        row_value(zero_row(len), w) == 0,
{
    let z = zero_row(len);
    assert(z.update(c, 1) =~= bump(z, c, 1));
    lemma_bump_value(z, w, c, 1);
    lemma_dot_zero(len, w, len);
    lemma_fmul_one(w[c]);
    lemma_fadd_zero(w[c]);
}

/// Placing an operand adds its value, with the sign asked for, to the row's value.
proof fn lemma_place_value(
    row: Seq<int>,
    names: Seq<Name>,
    w: Seq<int>,
    operand: OperandView,
    reverse: bool,
    g: int,
)
    requires
        names.len() > 0,
        row.len() == names.len(),
        w.len() == names.len(),
        w[0] == 1,
        all_felt(w),
        operand_is_felt(operand),
        grab(names, w, operand) == Ok::<int, Fault>(g),
    ensures
        place(row, names, operand, reverse).len() == row.len(),
        is_felt(g),
        row_value(place(row, names, operand, reverse), w) == fadd(
            row_value(row, w),
            signed(g, reverse),
        ),
{
    match operand {
        OperandView::Identifier(name) => {
            names.index_of_first_ensures(name);
            let c = names.index_of_first(name).unwrap();
            lemma_bump_value(row, w, c, signed(1, reverse));
            lemma_fmul_one(w[c]);
            lemma_fmul_fneg(w[c], 1);
        },
        OperandView::Number(v) => {
            lemma_bump_value(row, w, 0, signed(v, reverse));
            lemma_fadd_felt(v, 0);
            lemma_fmul_one(signed(v, reverse));
        },
    }
}

/// Where the target's column holds what the operation computes from the
/// assignment, the operation's row holds.
pub proof fn lemma_row_holds(names: Seq<Name>, w: Seq<int>, op: OperationView)
    requires
        names.len() > 0,
        w.len() == names.len(),
        w[0] == 1,
        all_felt(w),
        names.contains(op.target),
        operand_is_felt(op.left),
        operand_is_felt(op.right),
        op_value(names, w, op) == Ok::<int, Fault>(w[names.index_of_first(op.target).unwrap()]),
    ensures
        row_holds(encode_row(names, op).0, encode_row(names, op).1, encode_row(names, op).2, w),
{
    let len = names.len();
    let z = zero_row(len);
    names.index_of_first_ensures(op.target);
    let t = names.index_of_first(op.target).unwrap();
    let rows = encode_row(names, op);
    let l = grab(names, w, op.left)->Ok_0;
    lemma_unit_value(len, w, t);
    lemma_unit_value(len, w, 0);
    lemma_fmul_one(w[t]);
    lemma_fadd_felt(0, 0);
    match op.operator {
        Operator::Assign => {
            let a0 = bump(z, t, 1);
            lemma_place_value(a0, names, w, op.left, true, l);
            lemma_fsub_is_fadd_fneg(w[t], l);
            lemma_fsub_self(l);
            lemma_fmul_one(0);
        },
        Operator::Plus => {
            let r = grab(names, w, op.right)->Ok_0;
            lemma_place_value(z, names, w, op.left, false, l);
            lemma_place_value(place(z, names, op.left, false), names, w, op.right, false, r);
            lemma_fadd_zero(l);
            lemma_fadd_felt(l, r);
            lemma_fmul_one(fadd(l, r));
        },
        Operator::Minus => {
            let r = grab(names, w, op.right)->Ok_0;
            lemma_place_value(z, names, w, op.left, false, l);
            lemma_place_value(place(z, names, op.left, false), names, w, op.right, true, r);
            lemma_fadd_zero(l);
            lemma_fsub_is_fadd_fneg(l, r);
            lemma_fadd_felt(l, r);
            lemma_fmul_one(fsub(l, r));
        },
        Operator::Multiply => {
            let r = grab(names, w, op.right)->Ok_0;
            lemma_place_value(z, names, w, op.left, false, l);
            lemma_place_value(z, names, w, op.right, false, r);
            lemma_fadd_zero(l);
            lemma_fadd_zero(r);
        },
        Operator::Divide => {
            let r = grab(names, w, op.right)->Ok_0;
            lemma_place_value(z, names, w, op.left, false, l);
            lemma_place_value(z, names, w, op.right, false, r);
            lemma_fadd_zero(l);
            lemma_fadd_zero(r);
            lemma_fdiv_fmul(l, r);
        },
    }
}

// ---------------------------------------------------------------------------
// Runs
// ---------------------------------------------------------------------------

/// What a run starts from: a placement that begins with `~one`, an assignment
/// of its width that holds one in column 0, canonical values throughout, and
/// a program that never writes the constant column.
pub open spec fn can_start(names: Seq<Name>, w0: Seq<int>, flatcode: Seq<OperationView>) -> bool {
    &&& names.len() > 0
    &&& names[0] == one_name()
    &&& w0.len() == names.len()
    &&& w0[0] == 1
    &&& all_felt(w0)
    &&& numbers_are_felt(flatcode)
    &&& forall|j: int| 0 <= j < flatcode.len() ==> (#[trigger] flatcode[j]).target != one_name()
}

proof fn lemma_op_value_felt(names: Seq<Name>, w: Seq<int>, op: OperationView)
    requires
        w.len() == names.len(),
        all_felt(w),
        operand_is_felt(op.left),
        operand_is_felt(op.right),
        op_value(names, w, op) is Ok,
    ensures
        is_felt(op_value(names, w, op)->Ok_0),
{
    if let OperandView::Identifier(name) = op.left {
        names.index_of_first_ensures(name);
    }
    if let OperandView::Identifier(name) = op.right {
        names.index_of_first_ensures(name);
    }
    let l = grab(names, w, op.left)->Ok_0;
    if op.operator != Operator::Assign {
        let r = grab(names, w, op.right)->Ok_0;
        lemma_fadd_felt(l, r);
        lemma_fadd_felt(l, crate::field::finv(r));
    }
}

/// A run that ends well has ended well after each of its operations.
pub proof fn lemma_prefix_runs(
    names: Seq<Name>,
    w0: Seq<int>,
    flatcode: Seq<OperationView>,
    k: nat,
    n: nat,
)
    requires
        k <= n,
        run(names, w0, flatcode, n) is Ok,
    ensures
        run(names, w0, flatcode, k) is Ok,
{
    if run(names, w0, flatcode, k) is Err {
        lemma_fault_stays(names, w0, flatcode, k, n);
    }
}

proof fn lemma_run_shape(names: Seq<Name>, w0: Seq<int>, flatcode: Seq<OperationView>, k: nat)
    requires
        k <= flatcode.len(),
        can_start(names, w0, flatcode),
        run(names, w0, flatcode, k) is Ok,
    ensures
        run(names, w0, flatcode, k)->Ok_0.len() == names.len(),
        run(names, w0, flatcode, k)->Ok_0[0] == 1,
        all_felt(run(names, w0, flatcode, k)->Ok_0),
    decreases k,
{
    if k > 0 {
        lemma_run_shape(names, w0, flatcode, (k - 1) as nat);
        let w = run(names, w0, flatcode, (k - 1) as nat)->Ok_0;
        let op = flatcode[k - 1];
        names.index_of_first_ensures(op.target);
        lemma_op_value_felt(names, w, op);
    }
}

/// A column that no operation from `i` on writes keeps its value.
proof fn lemma_column_persists(
    names: Seq<Name>,
    w0: Seq<int>,
    flatcode: Seq<OperationView>,
    i: nat,
    k: nat,
    c: int,
)
    requires
        i <= k <= flatcode.len(),
        0 <= c < names.len(),
        can_start(names, w0, flatcode),
        run(names, w0, flatcode, k) is Ok,
        forall|j: int| i <= j < k ==> names.index_of_first(#[trigger] flatcode[j].target) != Some(c),
    ensures
        run(names, w0, flatcode, i) is Ok,
        run(names, w0, flatcode, k)->Ok_0[c] == run(names, w0, flatcode, i)->Ok_0[c],
    decreases k,
{
    if i < k {
        lemma_column_persists(names, w0, flatcode, i, (k - 1) as nat, c);
        lemma_run_shape(names, w0, flatcode, (k - 1) as nat);
        let op = flatcode[k - 1];
        names.index_of_first_ensures(op.target);
    }
}

/// An operand that later operations do not write has, at the end, the value
/// that it had when operation `i` fetched it.
proof fn lemma_operand_persists(
    names: Seq<Name>,
    w0: Seq<int>,
    flatcode: Seq<OperationView>,
    i: nat,
    operand: OperandView,
)
    requires
        i < flatcode.len(),
        can_start(names, w0, flatcode),
        run(names, w0, flatcode, flatcode.len()) is Ok,
        operand matches OperandView::Identifier(name) ==> forall|j: int|
            i <= j < flatcode.len() ==> (#[trigger] flatcode[j]).target != name,
    ensures
        run(names, w0, flatcode, i) is Ok,
        grab(names, run(names, w0, flatcode, flatcode.len())->Ok_0, operand) == grab(
            names,
            run(names, w0, flatcode, i)->Ok_0,
            operand,
        ),
{
    lemma_prefix_runs(names, w0, flatcode, i, flatcode.len());
    if let OperandView::Identifier(name) = operand {
        names.index_of_first_ensures(name);
        if let Some(c) = names.index_of_first(name) {
            assert forall|j: int| i <= j < flatcode.len() implies names.index_of_first(
                #[trigger] flatcode[j].target,
            ) != Some(c) by {
                names.index_of_first_ensures(flatcode[j].target);
            }
            lemma_column_persists(names, w0, flatcode, i, flatcode.len(), c);
        }
    }
}

/// The witness of a program with canonical numbers holds canonical values and
/// has one value per column.
pub proof fn lemma_witness_is_felt(
    inputs: Seq<Name>,
    input_vars: Seq<int>,
    flatcode: Seq<OperationView>,
)
    requires
        all_felt(input_vars),
        numbers_are_felt(flatcode),
        writes_once(flatcode),
        witness(inputs, input_vars, flatcode) is Ok,
    ensures
        all_felt(witness(inputs, input_vars, flatcode)->Ok_0),
        witness(inputs, input_vars, flatcode)->Ok_0.len() == var_placement(inputs, flatcode).len(),
{
    let names = var_placement(inputs, flatcode);
    let w0 = initial_assignment(names.len(), input_vars);
    lemma_placement_contains(inputs, flatcode, flatcode.len());
    assert forall|c: int| 0 <= c < w0.len() implies is_felt(#[trigger] w0[c]) by {
        if 1 <= c <= input_vars.len() {
            assert(is_felt(input_vars[c - 1]));
        }
    }
    lemma_run_shape(names, w0, flatcode, flatcode.len());
}

/// Witness soundness. Take a program whose lowering succeeds and whose run on
/// the input values ends well. If no operation writes the constant column or
/// a name that an earlier operation has written or read, the witness
/// satisfies every row: `(A_i . w) * (B_i . w) = C_i . w`.
pub proof fn lemma_witness_sound(
    inputs: Seq<Name>,
    input_vars: Seq<int>,
    flatcode: Seq<OperationView>,
)
    requires
        input_vars.len() == inputs.len(),
        all_felt(input_vars),
        numbers_are_felt(flatcode),
        lowers(inputs, flatcode),
        writes_once(flatcode),
        witness(inputs, input_vars, flatcode) is Ok,
    ensures
        satisfies(
            r1cs_a(inputs, flatcode),
            r1cs_b(inputs, flatcode),
            r1cs_c(inputs, flatcode),
            witness(inputs, input_vars, flatcode)->Ok_0,
        ),
{
    let names = var_placement(inputs, flatcode);
    let n = flatcode.len();
    let w0 = initial_assignment(names.len(), input_vars);
    let w = witness(inputs, input_vars, flatcode)->Ok_0;
    lemma_placement_contains(inputs, flatcode, n);
    lemma_r1cs_shape(inputs, flatcode);
    assert(all_felt(w0)) by {
        assert forall|c: int| 0 <= c < w0.len() implies is_felt(#[trigger] w0[c]) by {
            if 1 <= c <= input_vars.len() {
                assert(is_felt(input_vars[c - 1]));
            }
        }
    }
    assert(can_start(names, w0, flatcode));
    lemma_run_shape(names, w0, flatcode, n);
    assert forall|i: int| 0 <= i < n implies #[trigger] row_holds(
        r1cs_a(inputs, flatcode)[i],
        r1cs_b(inputs, flatcode)[i],
        r1cs_c(inputs, flatcode)[i],
        w,
    ) by {
        let op = flatcode[i];
        lemma_prefix_runs(names, w0, flatcode, (i + 1) as nat, n);
        lemma_prefix_runs(names, w0, flatcode, i as nat, n);
        let wi = run(names, w0, flatcode, i as nat)->Ok_0;
        lemma_run_shape(names, w0, flatcode, i as nat);
        names.index_of_first_ensures(op.target);
        let t = names.index_of_first(op.target).unwrap();
        let v = op_value(names, wi, op)->Ok_0;
        assert(run(names, w0, flatcode, (i + 1) as nat) == step(names, wi, op));
        // the target keeps the value that the operation gave it
        assert forall|j: int| i + 1 <= j < n implies names.index_of_first(
            #[trigger] flatcode[j].target,
        ) != Some(t) by {
            names.index_of_first_ensures(flatcode[j].target);
        }
        lemma_column_persists(names, w0, flatcode, (i + 1) as nat, n, t);
        assert(w[t] == v);
        // the operands keep the values that the operation fetched
        assert(row_violation(inputs, flatcode, i) is None);
        assert forall|name: Name| reads(op, name) implies forall|j: int|
            i <= j < n ==> (#[trigger] flatcode[j]).target != name by {
            assert(is_usable(inputs, flatcode, i, name));
        }
        if let OperandView::Identifier(name) = op.left {
            assert(reads(op, name));
        }
        lemma_operand_persists(names, w0, flatcode, i as nat, op.left);
        if op.operator != Operator::Assign {
            if let OperandView::Identifier(name) = op.right {
                assert(reads(op, name));
            }
            lemma_operand_persists(names, w0, flatcode, i as nat, op.right);
        }
        assert(op_value(names, w, op) == Ok::<int, Fault>(v));
        lemma_row_holds(names, w, op);
    }
}

} // verus!
