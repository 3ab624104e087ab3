//! Flatcode, the canonical variable placement, and the lowering to R1CS rows.

use vstd::prelude::*;
use vstd::string::*;
use crate::field::{Fp, fadd, fneg};
use crate::vecs::{lemma_deep_view_push, lemma_deep_view_update, zero_row, zero_vec};
use crate::Error;

verus! {

/// A variable name as contracts see it.
pub type Name = Seq<char>;

/// What an operation does with its operands.
#[derive(Clone, Copy, Debug, PartialEq, Eq, Structural)]
pub enum Operator {
    Plus,
    Minus,
    Multiply,
    Divide,
    /// Unary assignment, written `set`: the target takes the left operand's value.
    Assign,
}

/// An operand: a number, or the name of a variable.
#[derive(Clone, Debug, PartialEq)]
pub enum Operand {
    Number(Fp),
    Identifier(String),
}

/// One line of three-address code: `target = left operator right`.
#[derive(Clone, Debug, PartialEq)]
pub struct Operation {
    pub target: String,
    pub operator: Operator,
    pub left: Operand,
    pub right: Operand,
}

/// The model of an `Operand`.
pub enum OperandView {
    Number(int),
    Identifier(Name),
}

/// The model of an `Operation`.
pub struct OperationView {
    pub target: Name,
    pub operator: Operator,
    pub left: OperandView,
    pub right: OperandView,
}

impl View for Operand {
    type V = OperandView;

    open spec fn view(&self) -> OperandView {
        match self {
            Operand::Number(x) => OperandView::Number(x@),
            Operand::Identifier(s) => OperandView::Identifier(s@),
        }
    }
}

impl DeepView for Operand {
    type V = OperandView;

    open spec fn deep_view(&self) -> OperandView {
        self@
    }
}

impl View for Operation {
    type V = OperationView;

    open spec fn view(&self) -> OperationView {
        OperationView {
            target: self.target@,
            operator: self.operator,
            left: self.left@,
            right: self.right@,
        }
    }
}

impl DeepView for Operation {
    type V = OperationView;

    open spec fn deep_view(&self) -> OperationView {
        self@
    }
}

// ---------------------------------------------------------------------------
// Variable placement
// ---------------------------------------------------------------------------

/// The name of the column that always holds the constant one.
pub open spec fn one_name() -> Name {
    "~one"@
}

/// The name of the output column.
pub open spec fn out_name() -> Name {
    "~out"@
}

/// The targets of the operations, in order.
pub open spec fn targets(flatcode: Seq<OperationView>) -> Seq<Name> {
    Seq::new(flatcode.len(), |i: int| flatcode[i].target)
}

/// The columns that exist before any operation is looked at:
/// `~one`, the inputs, `~out`.
pub open spec fn base_placement(inputs: Seq<Name>) -> Seq<Name> {
    seq![one_name()] + inputs + seq![out_name()]
}

/// The placement after the first `k` operations: each target that has no
/// column yet is appended.
pub open spec fn placement_upto(inputs: Seq<Name>, flatcode: Seq<OperationView>, k: nat) -> Seq<
    Name,
>
    decreases k,
{
    if k == 0 {
        base_placement(inputs)
    } else {
        let prev = placement_upto(inputs, flatcode, (k - 1) as nat);
        let t = flatcode[k - 1].target;
        if prev.contains(t) {
            prev
        } else {
            prev.push(t)
        }
    }
}

/// The canonical column layout of a program.
pub open spec fn var_placement(inputs: Seq<Name>, flatcode: Seq<OperationView>) -> Seq<Name> {
    placement_upto(inputs, flatcode, flatcode.len())
}

/// Whether `names` holds `name`.
pub fn contains_name(names: &Vec<String>, name: &String) -> (r: bool)
    ensures
        r == names.deep_view().contains(name@),
{
    let mut i: usize = 0;
    while i < names.len()
        invariant
            i <= names.len(),
            forall|j: int| 0 <= j < i ==> names.deep_view()[j] != name@,
        decreases names.len() - i,
    {
        if names[i] == *name {
            assert(names.deep_view()[i as int] == name@);
            return true;
        }
        i += 1;
    }
    false
}

/// The first column that carries `name`, if any.
pub fn index_of(names: &Vec<String>, name: &String) -> (r: Option<usize>)
    ensures
        match r {
            Some(i) => names.deep_view().index_of_first(name@) == Some(i as int),
            None => names.deep_view().index_of_first(name@) is None,
        },
{
    let mut i: usize = 0;
    while i < names.len()
        invariant
            i <= names.len(),
            forall|j: int| 0 <= j < i ==> names.deep_view()[j] != name@,
        decreases names.len() - i,
    {
        if names[i] == *name {
            proof {
                let s = names.deep_view();
                s.index_of_first_ensures(name@);
                assert(s[i as int] == name@);
            }
            return Some(i);
        }
        i += 1;
    }
    proof {
        names.deep_view().index_of_first_ensures(name@);
    }
    None
}

/// Returns the order of variable names: `~one`, the inputs, `~out`, then every
/// target that has no column yet, in the order of first assignment.
pub fn get_var_placement(inputs: &Vec<String>, flatcode: &Vec<Operation>) -> (names: Vec<String>)
    ensures
        names.deep_view() == var_placement(inputs.deep_view(), flatcode.deep_view()),
        is_canonical(names.deep_view(), inputs.deep_view(), flatcode.deep_view()),
        inputs.deep_view().no_duplicates() && !inputs.deep_view().contains(one_name())
            && !inputs.deep_view().contains(out_name()) ==> names.deep_view().no_duplicates(),
{
    let mut names: Vec<String> = Vec::new();
    let one = String::from_str("~one");
    let ghost before = names;
    names.push(one);
    proof {
        lemma_deep_view_push(before, names, one);
        assert(names.deep_view() =~= seq![one_name()] + inputs.deep_view().subrange(0, 0));
    }
    let mut i: usize = 0;
    while i < inputs.len()
        invariant
            i <= inputs.len(),
            names.deep_view() == seq![one_name()] + inputs.deep_view().subrange(0, i as int),
        decreases inputs.len() - i,
    {
        let ghost before = names;
        let name = inputs[i].clone();
        names.push(name);
        proof {
            lemma_deep_view_push(before, names, name);
            assert(names.deep_view() =~= seq![one_name()] + inputs.deep_view().subrange(
                0,
                i + 1,
            ));
        }
        i += 1;
    }
    let out = String::from_str("~out");
    let ghost before = names;
    names.push(out);
    proof {
        lemma_deep_view_push(before, names, out);
        assert(inputs.deep_view().subrange(0, i as int) =~= inputs.deep_view());
        assert(names.deep_view() =~= base_placement(inputs.deep_view()));
    }
    let mut k: usize = 0;
    while k < flatcode.len()
        invariant
            k <= flatcode.len(),
            names.deep_view() == placement_upto(
                inputs.deep_view(),
                flatcode.deep_view(),
                k as nat,
            ),
        decreases flatcode.len() - k,
    {
        if !contains_name(&names, &flatcode[k].target) {
            let ghost before = names;
            let name = flatcode[k].target.clone();
            names.push(name);
            proof {
                lemma_deep_view_push(before, names, name);
            }
        }
        k += 1;
    }
    proof {
        lemma_placement_canonical(inputs.deep_view(), flatcode.deep_view());
        if inputs.deep_view().no_duplicates() && !inputs.deep_view().contains(one_name())
            && !inputs.deep_view().contains(out_name()) {
            lemma_placement_no_duplicates(inputs.deep_view(), flatcode.deep_view());
        }
    }
    names
}

// ---------------------------------------------------------------------------
// Facts about the placement
// ---------------------------------------------------------------------------

/// The placement only grows: what stands after `j` operations still stands,
/// column by column, after `k >= j` operations.
pub proof fn lemma_placement_grows(
    inputs: Seq<Name>,
    flatcode: Seq<OperationView>,
    j: nat,
    k: nat,
)
    requires
        j <= k,
    ensures
        placement_upto(inputs, flatcode, j).len() <= placement_upto(inputs, flatcode, k).len(),
        forall|c: int|
            0 <= c < placement_upto(inputs, flatcode, j).len() ==> placement_upto(
                inputs,
                flatcode,
                k,
            )[c] == #[trigger] placement_upto(inputs, flatcode, j)[c],
    decreases k,
{
    if j < k {
        lemma_placement_grows(inputs, flatcode, j, (k - 1) as nat);
    }
}

/// The placement holds every input and the target of every operation looked at.
pub proof fn lemma_placement_contains(inputs: Seq<Name>, flatcode: Seq<OperationView>, k: nat)
    requires
        k <= flatcode.len(),
    ensures
        placement_upto(inputs, flatcode, k).len() >= inputs.len() + 2,
        placement_upto(inputs, flatcode, k)[0] == one_name(),
        forall|i: int|
            0 <= i < inputs.len() ==> placement_upto(inputs, flatcode, k)[i + 1] == inputs[i],
        placement_upto(inputs, flatcode, k)[inputs.len() as int + 1] == out_name(),
        forall|i: int|
            0 <= i < inputs.len() ==> placement_upto(inputs, flatcode, k).contains(
                #[trigger] inputs[i],
            ),
        forall|j: int|
            0 <= j < k ==> placement_upto(inputs, flatcode, k).contains(
                #[trigger] flatcode[j].target,
            ),
    decreases k,
{
    let base = base_placement(inputs);
    let p = placement_upto(inputs, flatcode, k);
    lemma_placement_grows(inputs, flatcode, 0, k);
    assert(base.len() == inputs.len() + 2);
    assert(p[0] == base[0]);
    assert(p[inputs.len() as int + 1] == base[inputs.len() as int + 1]);
    assert forall|i: int| 0 <= i < inputs.len() implies p[i + 1] == inputs[i] && p.contains(
        #[trigger] inputs[i],
    ) by {
        assert(p[i + 1] == base[i + 1]);
    }
    if k > 0 {
        let prev = placement_upto(inputs, flatcode, (k - 1) as nat);
        lemma_placement_contains(inputs, flatcode, (k - 1) as nat);
        lemma_placement_grows(inputs, flatcode, (k - 1) as nat, k);
        assert forall|j: int| 0 <= j < k implies p.contains(#[trigger] flatcode[j].target) by {
            let t = flatcode[j].target;
            if j < k - 1 {
                let c = choose|c: int| 0 <= c < prev.len() && prev[c] == t;
                assert(p[c] == prev[c]);
            } else if prev.contains(t) {
            } else {
                assert(p[prev.len() as int] == t);
            }
        }
    }
}

/// Column `c` of `p` holds a target that was placed when it was first written:
/// no earlier column carries its name, and every target that was written
/// before it stands in an earlier column.
pub open spec fn placed_on_first_write(p: Seq<Name>, flatcode: Seq<OperationView>, c: int) -> bool {
    let ts = targets(flatcode);
    &&& ts.contains(p[c])
    &&& !p.subrange(0, c).contains(p[c])
    &&& forall|j: int|
        0 <= j < ts.index_of_first(p[c]).unwrap() ==> p.subrange(0, c).contains(#[trigger] ts[j])
}

proof fn lemma_tail_placed(inputs: Seq<Name>, flatcode: Seq<OperationView>, k: nat)
    requires
        k <= flatcode.len(),
    ensures
        forall|c: int|
            inputs.len() + 2 <= c < placement_upto(inputs, flatcode, k).len()
                ==> #[trigger] placed_on_first_write(
                placement_upto(inputs, flatcode, k),
                flatcode,
                c,
            ) && targets(flatcode).index_of_first(placement_upto(inputs, flatcode, k)[c]).unwrap()
                < k,
    decreases k,
{
    let p = placement_upto(inputs, flatcode, k);
    let ts = targets(flatcode);
    if k > 0 {
        let prev = placement_upto(inputs, flatcode, (k - 1) as nat);
        let t = flatcode[k - 1].target;
        lemma_tail_placed(inputs, flatcode, (k - 1) as nat);
        lemma_placement_contains(inputs, flatcode, (k - 1) as nat);
        lemma_placement_grows(inputs, flatcode, (k - 1) as nat, k);
        assert forall|c: int| inputs.len() + 2 <= c < p.len() implies #[trigger] placed_on_first_write(
            p,
            flatcode,
            c,
        ) && ts.index_of_first(p[c]).unwrap() < k by {
            if c < prev.len() {
                assert(placed_on_first_write(prev, flatcode, c));
                assert(p.subrange(0, c) =~= prev.subrange(0, c));
                assert(p[c] == prev[c]);
            } else {
                assert(p == prev.push(t));
                assert(c == prev.len());
                assert(p.subrange(0, c) =~= prev);
                assert(ts[k - 1] == t);
                ts.index_of_first_ensures(t);
                let first = ts.index_of_first(t).unwrap();
                if first < k - 1 {
                    assert(prev.contains(flatcode[first].target));
                }
                assert(first == k - 1);
                assert forall|j: int| 0 <= j < first implies p.subrange(0, c).contains(
                    #[trigger] ts[j],
                ) by {
                    assert(prev.contains(flatcode[j].target));
                }
            }
        }
    }
}

/// The reserved names are two different names.
pub proof fn lemma_reserved_names_differ()
    ensures
        one_name() != out_name(),
{
    reveal_strlit("~one");
    reveal_strlit("~out");
    assert("~one"@[2] != "~out"@[2]);
}

/// `p` is the canonical placement of a program: column 0 is `~one`, the
/// inputs follow in their order, then `~out`; the columns after that hold
/// exactly the targets that the first columns do not hold, each once, in the
/// order of their first writes.
pub open spec fn is_canonical(
    p: Seq<Name>,
    inputs: Seq<Name>,
    flatcode: Seq<OperationView>,
) -> bool {
    let ts = targets(flatcode);
    let base = inputs.len() + 2;
    &&& p.len() >= base
    &&& p[0] == one_name()
    &&& forall|i: int| 0 <= i < inputs.len() ==> p[i + 1] == inputs[i]
    &&& p[inputs.len() as int + 1] == out_name()
    &&& p.subrange(0, base as int) == base_placement(inputs)
    &&& p.subrange(base as int, p.len() as int).no_duplicates()
    &&& forall|n: Name|
        p.subrange(base as int, p.len() as int).contains(n) <==> ts.contains(n)
            && !base_placement(inputs).contains(n)
    &&& forall|c1: int, c2: int|
        base <= c1 < c2 < p.len() ==> ts.index_of_first(p[c1]).unwrap() < ts.index_of_first(
            p[c2],
        ).unwrap()
}

/// Placement canonicality: the placement of every program is canonical.
pub proof fn lemma_placement_canonical(inputs: Seq<Name>, flatcode: Seq<OperationView>)
    ensures
        is_canonical(var_placement(inputs, flatcode), inputs, flatcode),
{
    let p = var_placement(inputs, flatcode);
    let ts = targets(flatcode);
    let base = (inputs.len() + 2) as int;
    let bp = base_placement(inputs);
    let tail = p.subrange(base, p.len() as int);
    lemma_placement_contains(inputs, flatcode, flatcode.len());
    lemma_placement_grows(inputs, flatcode, 0, flatcode.len());
    lemma_tail_placed(inputs, flatcode, flatcode.len());
    assert(p.subrange(0, base) =~= bp);
    assert forall|c: int| base <= c < p.len() implies !bp.contains(p[c]) && ts.contains(p[c]) by {
        assert(placed_on_first_write(p, flatcode, c));
        if bp.contains(p[c]) {
            let b = choose|b: int| 0 <= b < bp.len() && bp[b] == p[c];
            assert(p.subrange(0, c)[b] == p[c]);
        }
    }
    assert forall|i: int, j: int| 0 <= i < j < tail.len() implies tail[i] != tail[j] by {
        assert(placed_on_first_write(p, flatcode, base + j));
        assert(p.subrange(0, base + j)[base + i] == tail[i]);
    }
    assert forall|n: Name| tail.contains(n) <==> ts.contains(n) && !bp.contains(n) by {
        if tail.contains(n) {
            let c = choose|c: int| 0 <= c < tail.len() && tail[c] == n;
            assert(p[base + c] == n);
        }
        if ts.contains(n) && !bp.contains(n) {
            let j = choose|j: int| 0 <= j < ts.len() && ts[j] == n;
            assert(p.contains(flatcode[j].target));
            let c = choose|c: int| 0 <= c < p.len() && p[c] == n;
            if c < base {
                assert(bp[c] == n);
            }
            assert(tail[c - base] == n);
        }
    }
    assert forall|c1: int, c2: int| base <= c1 < c2 < p.len() implies ts.index_of_first(
        p[c1],
    ).unwrap() < ts.index_of_first(p[c2]).unwrap() by {
        assert(placed_on_first_write(p, flatcode, c1));
        assert(placed_on_first_write(p, flatcode, c2));
        ts.index_of_first_ensures(p[c1]);
        ts.index_of_first_ensures(p[c2]);
        let j1 = ts.index_of_first(p[c1]).unwrap();
        let j2 = ts.index_of_first(p[c2]).unwrap();
        assert(p.subrange(0, c2)[c1] == p[c1]);
        if j2 < j1 {
            assert(p.subrange(0, c1).contains(ts[j2]));
            let b = choose|b: int| 0 <= b < c1 && p.subrange(0, c1)[b] == ts[j2];
            assert(p.subrange(0, c2)[b] == p[c2]);
        }
    }
}

/// Where the inputs are distinct and none of them is a reserved name, no name
/// has two columns.
pub proof fn lemma_placement_no_duplicates(inputs: Seq<Name>, flatcode: Seq<OperationView>)
    requires
        inputs.no_duplicates(),
        !inputs.contains(one_name()),
        !inputs.contains(out_name()),
    ensures
        var_placement(inputs, flatcode).no_duplicates(),
{
    let p = var_placement(inputs, flatcode);
    let base = (inputs.len() + 2) as int;
    let bp = base_placement(inputs);
    lemma_placement_canonical(inputs, flatcode);
    lemma_tail_placed(inputs, flatcode, flatcode.len());
    lemma_reserved_names_differ();
    assert forall|i: int, j: int| 0 <= i < j < p.len() implies p[i] != p[j] by {
        if j < base {
            assert(bp[i] == p.subrange(0, base)[i]);
            assert(bp[j] == p.subrange(0, base)[j]);
            if 1 <= i && j <= inputs.len() {
                assert(inputs[i - 1] != inputs[j - 1]);
            }
        } else {
            assert(placed_on_first_write(p, flatcode, j));
            assert(p.subrange(0, j)[i] == p[i]);
        }
    }
}

// ---------------------------------------------------------------------------
// Row encoding
// ---------------------------------------------------------------------------

/// `row` with `v` added to entry `i`.
pub open spec fn bump(row: Seq<int>, i: int, v: int) -> Seq<int> {
    row.update(i, fadd(row[i], v))
}

/// `v`, or its negation where `reverse` is set.
pub open spec fn signed(v: int, reverse: bool) -> int {
    if reverse {
        fneg(v)
    } else {
        v
    }
}

/// `row` after an operand is placed into it: an identifier adds one to its own
/// column, a number adds itself to the `~one` column; `reverse` flips the sign.
pub open spec fn place(row: Seq<int>, names: Seq<Name>, operand: OperandView, reverse: bool) -> Seq<
    int,
> {
    match operand {
        OperandView::Identifier(name) => match names.index_of_first(name) {
            Some(i) => bump(row, i, signed(1, reverse)),
            None => row,
        },
        OperandView::Number(v) => bump(row, 0, signed(v, reverse)),
    }
}

/// The rows of A, B and C that one operation contributes.
pub open spec fn encode_row(names: Seq<Name>, op: OperationView) -> (Seq<int>, Seq<int>, Seq<int>) {
    let z = zero_row(names.len());
    let t = names.index_of_first(op.target).unwrap();
    match op.operator {
        Operator::Assign => (place(bump(z, t, 1), names, op.left, true), z.update(0, 1), z),
        Operator::Plus => (
            place(place(z, names, op.left, false), names, op.right, false),
            z.update(0, 1),
            z.update(t, 1),
        ),
        Operator::Minus => (
            place(place(z, names, op.left, false), names, op.right, true),
            z.update(0, 1),
            z.update(t, 1),
        ),
        Operator::Multiply => (
            place(z, names, op.left, false),
            place(z, names, op.right, false),
            z.update(t, 1),
        ),
        Operator::Divide => (
            z.update(t, 1),
            place(z, names, op.right, false),
            place(z, names, op.left, false),
        ),
    }
}

/// Operation `i` may read `name`: it is an input or the target of an earlier
/// operation, and it is not the operation's own target.
pub open spec fn is_usable(
    inputs: Seq<Name>,
    flatcode: Seq<OperationView>,
    i: int,
    name: Name,
) -> bool {
    &&& name != flatcode[i].target
    &&& (inputs.contains(name) || targets(flatcode).subrange(0, i).contains(name))
}

/// The first name that operation `i` reads although it may not, if there is one.
pub open spec fn row_violation(inputs: Seq<Name>, flatcode: Seq<OperationView>, i: int) -> Option<
    Name,
> {
    op_violation(Set::new(|n: Name| is_usable(inputs, flatcode, i, n)), flatcode[i])
}

/// Every operation reads only what was defined before it.
pub open spec fn lowers(inputs: Seq<Name>, flatcode: Seq<OperationView>) -> bool {
    forall|i: int| 0 <= i < flatcode.len() ==> (#[trigger] row_violation(inputs, flatcode, i)) is None
}

/// Operation `i` is the first that reads a name without leave, and `name` is that name.
pub open spec fn is_first_violation(
    inputs: Seq<Name>,
    flatcode: Seq<OperationView>,
    i: int,
    name: Name,
) -> bool {
    &&& 0 <= i < flatcode.len()
    &&& row_violation(inputs, flatcode, i) == Some(name)
    &&& forall|j: int| 0 <= j < i ==> (#[trigger] row_violation(inputs, flatcode, j)) is None
}

/// The first `k` rows of A.
pub open spec fn rows_a(names: Seq<Name>, flatcode: Seq<OperationView>, k: nat) -> Seq<Seq<int>> {
    Seq::new(k, |i: int| encode_row(names, flatcode[i]).0)
}

/// The first `k` rows of B.
pub open spec fn rows_b(names: Seq<Name>, flatcode: Seq<OperationView>, k: nat) -> Seq<Seq<int>> {
    Seq::new(k, |i: int| encode_row(names, flatcode[i]).1)
}

/// The first `k` rows of C.
pub open spec fn rows_c(names: Seq<Name>, flatcode: Seq<OperationView>, k: nat) -> Seq<Seq<int>> {
    Seq::new(k, |i: int| encode_row(names, flatcode[i]).2)
}

/// The matrix A of a program: one row per operation, one column per placement entry.
pub open spec fn r1cs_a(inputs: Seq<Name>, flatcode: Seq<OperationView>) -> Seq<Seq<int>> {
    rows_a(var_placement(inputs, flatcode), flatcode, flatcode.len())
}

/// The matrix B of a program.
pub open spec fn r1cs_b(inputs: Seq<Name>, flatcode: Seq<OperationView>) -> Seq<Seq<int>> {
    rows_b(var_placement(inputs, flatcode), flatcode, flatcode.len())
}

/// The matrix C of a program.
pub open spec fn r1cs_c(inputs: Seq<Name>, flatcode: Seq<OperationView>) -> Seq<Seq<int>> {
    rows_c(var_placement(inputs, flatcode), flatcode, flatcode.len())
}

/// Adds `delta` to entry `i` of `row`.
fn bump_entry(row: &mut Vec<Fp>, i: usize, delta: &Fp)
    requires
        i < old(row).len(),
    ensures
        final(row).len() == old(row).len(),
        final(row).deep_view() == bump(old(row).deep_view(), i as int, delta@),
{
    let ghost before = *row;
    let x = row[i].add(delta);
    row.set(i, x);
    proof {
        lemma_deep_view_update(before, *row, i as int, x);
    }
}

/// Sets entry `i` of `row` to one.
fn set_one(row: &mut Vec<Fp>, i: usize)
    requires
        i < old(row).len(),
    ensures
        final(row).len() == old(row).len(),
        final(row).deep_view() == old(row).deep_view().update(i as int, 1),
{
    let ghost before = *row;
    let x = Fp::one();
    row.set(i, x);
    proof {
        lemma_deep_view_update(before, *row, i as int, x);
    }
}

/// Adds a variable or number into one of the rows: a variable adds one to the
/// column of that variable, a number adds itself to the `~one` column, negated
/// where `reverse` is set. A variable outside `used` is refused.
pub fn insert_var(
    arr: &mut Vec<Fp>,
    varz: &Vec<String>,
    variable: &Operand,
    used: &Vec<String>,
    reverse: bool,
) -> (r: Result<(), Error>)
    requires
        old(arr).len() == varz.len(),
        varz.len() > 0,
    ensures
        final(arr).len() == varz.len(),
        match r {
            Ok(_) => {
                &&& final(arr).deep_view() == place(
                    old(arr).deep_view(),
                    varz.deep_view(),
                    variable@,
                    reverse,
                )
                &&& variable@ matches OperandView::Identifier(name) ==> used.deep_view().contains(
                    name,
                ) && varz.deep_view().contains(name)
            },
            Err(Error::UseBeforeSet(n)) => {
                &&& variable@ == OperandView::Identifier(n@)
                &&& !used.deep_view().contains(n@)
                &&& *final(arr) == *old(arr)
            },
            Err(Error::OperationTargetNotFound(n)) => {
                &&& variable@ == OperandView::Identifier(n@)
                &&& used.deep_view().contains(n@)
                &&& !varz.deep_view().contains(n@)
                &&& *final(arr) == *old(arr)
            },
            Err(_) => false,
        },
{
    match variable {
        Operand::Identifier(identifier) => {
            if !contains_name(used, identifier) {
                return Err(Error::UseBeforeSet(identifier.clone()));
            }
            proof {
                varz.deep_view().index_of_first_ensures(identifier@);
            }
            match index_of(varz, identifier) {
                Some(var_index) => {
                    let delta = if reverse {
                        Fp::one().neg()
                    } else {
                        Fp::one()
                    };
                    bump_entry(arr, var_index, &delta);
                    Ok(())
                },
                None => Err(Error::OperationTargetNotFound(identifier.clone())),
            }
        },
        Operand::Number(value) => {
            let delta = if reverse {
                value.neg()
            } else {
                *value
            };
            bump_entry(arr, 0, &delta);
            Ok(())
        },
    }
}

/// R1CS shape: each of the three matrices has one row per operation, and every
/// row has one entry per column of the placement.
pub proof fn lemma_r1cs_shape(inputs: Seq<Name>, flatcode: Seq<OperationView>)
    ensures
        r1cs_a(inputs, flatcode).len() == flatcode.len(),
        r1cs_b(inputs, flatcode).len() == flatcode.len(),
        r1cs_c(inputs, flatcode).len() == flatcode.len(),
        forall|i: int|
            0 <= i < flatcode.len() ==> (#[trigger] r1cs_a(inputs, flatcode)[i]).len()
                == var_placement(inputs, flatcode).len(),
        forall|i: int|
            0 <= i < flatcode.len() ==> (#[trigger] r1cs_b(inputs, flatcode)[i]).len()
                == var_placement(inputs, flatcode).len(),
        forall|i: int|
            0 <= i < flatcode.len() ==> (#[trigger] r1cs_c(inputs, flatcode)[i]).len()
                == var_placement(inputs, flatcode).len(),
{
    let names = var_placement(inputs, flatcode);
    lemma_placement_contains(inputs, flatcode, flatcode.len());
    assert forall|i: int| 0 <= i < flatcode.len() implies (#[trigger] r1cs_a(inputs, flatcode)[i]).len()
        == names.len() by {
        lemma_encode_row_len(names, flatcode[i]);
    }
    assert forall|i: int| 0 <= i < flatcode.len() implies (#[trigger] r1cs_b(inputs, flatcode)[i]).len()
        == names.len() by {
        lemma_encode_row_len(names, flatcode[i]);
    }
    assert forall|i: int| 0 <= i < flatcode.len() implies (#[trigger] r1cs_c(inputs, flatcode)[i]).len()
        == names.len() by {
        lemma_encode_row_len(names, flatcode[i]);
    }
}

/// Placing an operand keeps the length of the row.
pub proof fn lemma_place_len(row: Seq<int>, names: Seq<Name>, operand: OperandView, reverse: bool)
    requires
        row.len() == names.len(),
        names.len() > 0,
    ensures
        place(row, names, operand, reverse).len() == row.len(),
{
    if let OperandView::Identifier(name) = operand {
        names.index_of_first_ensures(name);
    }
}

/// The three rows of an operation are as long as the placement.
pub proof fn lemma_encode_row_len(names: Seq<Name>, op: OperationView)
    requires
        names.len() > 0,
        names.contains(op.target),
    ensures
        encode_row(names, op).0.len() == names.len(),
        encode_row(names, op).1.len() == names.len(),
        encode_row(names, op).2.len() == names.len(),
{
    let z = zero_row(names.len());
    names.index_of_first_ensures(op.target);
    let t = names.index_of_first(op.target).unwrap();
    lemma_place_len(z, names, op.left, false);
    lemma_place_len(z, names, op.right, false);
    lemma_place_len(bump(z, t, 1), names, op.left, true);
    lemma_place_len(place(z, names, op.left, false), names, op.right, false);
    lemma_place_len(place(z, names, op.left, false), names, op.right, true);
}

/// The name that `operand` reads outside `usable`, if it does.
pub open spec fn unread(usable: Set<Name>, operand: OperandView) -> Option<Name> {
    match operand {
        OperandView::Identifier(name) => if usable.contains(name) {
            None
        } else {
            Some(name)
        },
        OperandView::Number(_) => None,
    }
}

/// The first name that `op` reads outside `usable`: the left operand is placed
/// first, and an assignment never looks at its right operand.
pub open spec fn op_violation(usable: Set<Name>, op: OperationView) -> Option<Name> {
    match unread(usable, op.left) {
        Some(name) => Some(name),
        None => if op.operator == Operator::Assign {
            None
        } else {
            unread(usable, op.right)
        },
    }
}

/// Removing one element keeps every other element.
proof fn lemma_remove_contains<A>(s: Seq<A>, j: int, x: A)
    requires
        0 <= j < s.len(),
        x != s[j],
    ensures
        s.remove(j).contains(x) <==> s.contains(x),
{
    let r = s.remove(j);
    if s.contains(x) {
        let k = choose|k: int| 0 <= k < s.len() && s[k] == x;
        if k < j {
            assert(r[k] == x);
        } else {
            assert(r[k - 1] == x);
        }
    }
    if r.contains(x) {
        let k = choose|k: int| 0 <= k < r.len() && r[k] == x;
        if k < j {
            assert(s[k] == x);
        } else {
            assert(s[k + 1] == x);
        }
    }
}

/// Takes every occurrence of `name` out of `used`.
fn forget(used: &mut Vec<String>, name: &String)
    ensures
        forall|n: Name| #[trigger]
            final(used).deep_view().contains(n) <==> old(used).deep_view().contains(n) && n
                != name@,
{
    let mut found = index_of(used, name);
    while found.is_some()
        invariant
            forall|n: Name|
                n != name@ ==> (#[trigger] used.deep_view().contains(n) <==> old(
                    used,
                ).deep_view().contains(n)),
            match found {
                Some(j) => used.deep_view().index_of_first(name@) == Some(j as int),
                None => used.deep_view().index_of_first(name@) is None,
            },
        decreases used.len(),
    {
        let j = found.unwrap();
        let ghost before = *used;
        proof {
            before.deep_view().index_of_first_ensures(name@);
        }
        used.remove(j);
        proof {
            assert(used.deep_view() =~= before.deep_view().remove(j as int));
            assert forall|n: Name| n != name@ implies (#[trigger] used.deep_view().contains(n)
                <==> before.deep_view().contains(n)) by {
                lemma_remove_contains(before.deep_view(), j as int, n);
            }
        }
        found = index_of(used, name);
    }
    proof {
        used.deep_view().index_of_first_ensures(name@);
    }
}

/// The three rows of one operation, where every name in `used` and the
/// operation's target have a column.
fn encode_operation(varz: &Vec<String>, op: &Operation, used: &Vec<String>) -> (r: Result<
    (Vec<Fp>, Vec<Fp>, Vec<Fp>),
    Error,
>)
    requires
        varz.len() > 0,
        varz.deep_view().contains(op.target@),
        forall|n: Name| used.deep_view().contains(n) ==> varz.deep_view().contains(n),
    ensures
        match r {
            Ok(rows) => {
                &&& op_violation(used.deep_view().to_set(), op@) is None
                &&& (rows.0.deep_view(), rows.1.deep_view(), rows.2.deep_view()) == encode_row(
                    varz.deep_view(),
                    op@,
                )
                &&& rows.0.len() == varz.len()
                &&& rows.1.len() == varz.len()
                &&& rows.2.len() == varz.len()
            },
            Err(Error::UseBeforeSet(n)) => op_violation(used.deep_view().to_set(), op@) == Some(
                n@,
            ),
            Err(_) => false,
        },
{
    let n = varz.len();
    let mut a_temp = zero_vec(n);
    let mut b_temp = zero_vec(n);
    let mut c_temp = zero_vec(n);
    proof {
        varz.deep_view().index_of_first_ensures(op.target@);
    }
    let target_index = match index_of(varz, &op.target) {
        Some(t) => t,
        None => { return Err(Error::OperationTargetNotFound(op.target.clone())); },
    };
    match op.operator {
        Operator::Assign => {
            bump_entry(&mut a_temp, target_index, &Fp::one());
            insert_var(&mut a_temp, varz, &op.left, used, true)?;
            set_one(&mut b_temp, 0);
        },
        Operator::Plus => {
            set_one(&mut c_temp, target_index);
            insert_var(&mut a_temp, varz, &op.left, used, false)?;
            insert_var(&mut a_temp, varz, &op.right, used, false)?;
            set_one(&mut b_temp, 0);
        },
        Operator::Minus => {
            set_one(&mut c_temp, target_index);
            insert_var(&mut a_temp, varz, &op.left, used, false)?;
            insert_var(&mut a_temp, varz, &op.right, used, true)?;
            set_one(&mut b_temp, 0);
        },
        Operator::Multiply => {
            set_one(&mut c_temp, target_index);
            insert_var(&mut a_temp, varz, &op.left, used, false)?;
            insert_var(&mut b_temp, varz, &op.right, used, false)?;
        },
        Operator::Divide => {
            insert_var(&mut c_temp, varz, &op.left, used, false)?;
            set_one(&mut a_temp, target_index);
            insert_var(&mut b_temp, varz, &op.right, used, false)?;
        },
    }
    Ok((a_temp, b_temp, c_temp))
}

/// Lowers a program to its three R1CS matrices, one row per operation and one
/// column per placement entry. An operation that reads a name which is neither
/// an input nor the target of an earlier operation, or which is its own target,
/// is refused with `UseBeforeSet`.
pub fn flatcode_to_r1cs(inputs: &Vec<String>, flatcode: &Vec<Operation>) -> (r: Result<
    (Vec<Vec<Fp>>, Vec<Vec<Fp>>, Vec<Vec<Fp>>),
    Error,
>)
    ensures
        match r {
            Ok(m) => {
                &&& lowers(inputs.deep_view(), flatcode.deep_view())
                &&& m.0.deep_view() == r1cs_a(inputs.deep_view(), flatcode.deep_view())
                &&& m.1.deep_view() == r1cs_b(inputs.deep_view(), flatcode.deep_view())
                &&& m.2.deep_view() == r1cs_c(inputs.deep_view(), flatcode.deep_view())
                &&& m.0.len() == flatcode.len()
                &&& m.1.len() == flatcode.len()
                &&& m.2.len() == flatcode.len()
                &&& forall|i: int|
                    0 <= i < flatcode.len() ==> (#[trigger] m.0@[i]).len() == var_placement(
                        inputs.deep_view(),
                        flatcode.deep_view(),
                    ).len()
                &&& forall|i: int|
                    0 <= i < flatcode.len() ==> (#[trigger] m.1@[i]).len() == var_placement(
                        inputs.deep_view(),
                        flatcode.deep_view(),
                    ).len()
                &&& forall|i: int|
                    0 <= i < flatcode.len() ==> (#[trigger] m.2@[i]).len() == var_placement(
                        inputs.deep_view(),
                        flatcode.deep_view(),
                    ).len()
            },
            Err(Error::UseBeforeSet(n)) => exists|i: int|
                is_first_violation(inputs.deep_view(), flatcode.deep_view(), i, n@),
            Err(_) => false,
        },
{
    let varz = get_var_placement(inputs, flatcode);
    let ghost iv = inputs.deep_view();
    let ghost fv = flatcode.deep_view();
    let mut a: Vec<Vec<Fp>> = Vec::new();
    let mut b: Vec<Vec<Fp>> = Vec::new();
    let mut c: Vec<Vec<Fp>> = Vec::new();
    let mut used: Vec<String> = Vec::new();
    let mut k: usize = 0;
    while k < inputs.len()
        invariant
            k <= inputs.len(),
            used.deep_view() == inputs.deep_view().subrange(0, k as int),
        decreases inputs.len() - k,
    {
        let ghost before = used;
        let name = inputs[k].clone();
        used.push(name);
        proof {
            lemma_deep_view_push(before, used, name);
            assert(used.deep_view() =~= inputs.deep_view().subrange(0, k + 1));
        }
        k += 1;
    }
    proof {
        assert(inputs.deep_view().subrange(0, k as int) =~= iv);
        assert(targets(fv).subrange(0, 0) =~= Seq::<Name>::empty());
        assert(a.deep_view() =~= rows_a(varz.deep_view(), fv, 0));
        assert(b.deep_view() =~= rows_b(varz.deep_view(), fv, 0));
        assert(c.deep_view() =~= rows_c(varz.deep_view(), fv, 0));
    }
    let mut i: usize = 0;
    while i < flatcode.len()
        invariant
            i <= flatcode.len(),
            iv == inputs.deep_view(),
            fv == flatcode.deep_view(),
            varz.deep_view() == var_placement(iv, fv),
            a.deep_view() == rows_a(varz.deep_view(), fv, i as nat),
            b.deep_view() == rows_b(varz.deep_view(), fv, i as nat),
            c.deep_view() == rows_c(varz.deep_view(), fv, i as nat),
            a.len() == i,
            b.len() == i,
            c.len() == i,
            forall|n: Name| #[trigger]
                used.deep_view().contains(n) <==> iv.contains(n) || targets(fv).subrange(
                    0,
                    i as int,
                ).contains(n),
            forall|j: int| 0 <= j < i ==> (#[trigger] row_violation(iv, fv, j)) is None,
        decreases flatcode.len() - i,
    {
        let op = &flatcode[i];
        let ghost used_before = used.deep_view();
        forget(&mut used, &op.target);
        proof {
            lemma_placement_contains(iv, fv, fv.len());
            assert(op@ == fv[i as int]);
            assert(varz.deep_view().contains(fv[i as int].target));
            assert forall|n: Name| used.deep_view().contains(n) implies varz.deep_view().contains(
                n,
            ) by {
                assert(used_before.contains(n));
                if iv.contains(n) {
                    let k = choose|k: int| 0 <= k < iv.len() && iv[k] == n;
                    assert(varz.deep_view().contains(iv[k]));
                } else {
                    let ts = targets(fv).subrange(0, i as int);
                    let k = choose|k: int| 0 <= k < ts.len() && ts[k] == n;
                    assert(varz.deep_view().contains(fv[k].target));
                }
            }
            assert(used.deep_view().to_set() =~= Set::new(
                |n: Name| is_usable(iv, fv, i as int, n),
            ));
        }
        let rows = match encode_operation(&varz, op, &used) {
            Ok(rows) => rows,
            Err(e) => {
                proof {
                    assert(e is UseBeforeSet);
                    let name = e->UseBeforeSet_0@;
                    assert(row_violation(iv, fv, i as int) == Some(name));
                    assert(is_first_violation(iv, fv, i as int, name));
                }
                return Err(e);
            },
        };
        let ghost before_a = a;
        let ghost before_b = b;
        let ghost before_c = c;
        let ghost before_used = used;
        let target = op.target.clone();
        a.push(rows.0);
        b.push(rows.1);
        c.push(rows.2);
        used.push(target);
        proof {
            lemma_deep_view_push(before_a, a, rows.0);
            lemma_deep_view_push(before_b, b, rows.1);
            lemma_deep_view_push(before_c, c, rows.2);
            lemma_deep_view_push(before_used, used, target);
            assert(a.deep_view() =~= rows_a(varz.deep_view(), fv, (i + 1) as nat));
            assert(b.deep_view() =~= rows_b(varz.deep_view(), fv, (i + 1) as nat));
            assert(c.deep_view() =~= rows_c(varz.deep_view(), fv, (i + 1) as nat));
            let ts0 = targets(fv).subrange(0, i as int);
            let ts1 = targets(fv).subrange(0, i + 1);
            assert(ts1 =~= ts0.push(target@));
            assert forall|n: Name| #[trigger]
                used.deep_view().contains(n) <==> iv.contains(n) || ts1.contains(n) by {
                if n == target@ {
                    assert(used.deep_view()[before_used.len() as int] == n);
                    assert(ts1[i as int] == n);
                } else {
                    if used.deep_view().contains(n) {
                        let k = choose|k: int|
                            0 <= k < used.deep_view().len() && used.deep_view()[k] == n;
                        assert(before_used.deep_view()[k] == n);
                    }
                    if before_used.deep_view().contains(n) {
                        let k = choose|k: int|
                            0 <= k < before_used.deep_view().len() && before_used.deep_view()[k]
                                == n;
                        assert(used.deep_view()[k] == n);
                    }
                    if ts1.contains(n) {
                        let k = choose|k: int| 0 <= k < ts1.len() && ts1[k] == n;
                        assert(ts0[k] == n);
                    }
                    if ts0.contains(n) {
                        let k = choose|k: int| 0 <= k < ts0.len() && ts0[k] == n;
                        assert(ts1[k] == n);
                    }
                }
            }
        }
        i += 1;
    }
    proof {
        lemma_r1cs_shape(iv, fv);
        assert forall|i: int| 0 <= i < flatcode.len() implies (#[trigger] a@[i]).len()
            == var_placement(iv, fv).len() by {
            assert(a.deep_view()[i] == a@[i].deep_view());
        }
        assert forall|i: int| 0 <= i < flatcode.len() implies (#[trigger] b@[i]).len()
            == var_placement(iv, fv).len() by {
            assert(b.deep_view()[i] == b@[i].deep_view());
        }
        assert forall|i: int| 0 <= i < flatcode.len() implies (#[trigger] c@[i]).len()
            == var_placement(iv, fv).len() by {
            assert(c.deep_view()[i] == c@[i].deep_view());
        }
    }
    Ok((a, b, c))
}

} // verus!
