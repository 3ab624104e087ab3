//! Laws of the QAP: the interpolated polynomials pass through their samples,
//! and a satisfying witness makes the solution polynomial divisible by the
//! target polynomial.

use vstd::prelude::*;
use crate::evaluation::{
    lemma_eval_add, lemma_eval_agrees, lemma_eval_beyond, lemma_eval_constant, lemma_eval_felt,
    lemma_eval_mul, lemma_eval_scaled_product, lemma_eval_sub,
};
use crate::field::{
    fadd, fdiv, felt, fmul, fsub, is_felt, lemma_fadd_felt, lemma_fadd_zero, lemma_fdiv_fmul,
    lemma_felt_arguments, lemma_finv, lemma_fmul_comm, lemma_fmul_one, lemma_fmul_zero,
    lemma_fsub_self, lemma_fsub_zero_eq, lemma_no_zero_divisors, modulus,
};
use crate::poly::{
    coeff, conv, is_division, lemma_conv_felt, lemma_conv_vanishes,
    poly_eval, poly_mul, poly_sub,
};
use crate::poly_laws::lemma_poly_mul_zero;
use crate::qap::{
    column_polys, combine, is_rectangular, is_satisfied_solution, lagrange, lagrange_upto, lemma_product_at_nonzero,
    lemma_scaled_product_len, linear_factor, pairs, product_at, scaled_product, singleton,
    solution_poly, target_poly, transposed, width,
};
use crate::r1cs::{
    Name, OperandView, OperationView, bump, encode_row, lemma_place_len, lemma_placement_contains,
    lemma_r1cs_shape, lowers, place, r1cs_a, r1cs_b, r1cs_c, signed, var_placement,
};
use crate::soundness::{
    lemma_witness_is_felt, lemma_witness_sound, numbers_are_felt, writes_once,
};
use crate::vecs::{all_felt, matrix_is_felt, zero_row};
use crate::witness::{dot, row_holds, row_value, satisfies, witness};

verus! {

// ---------------------------------------------------------------------------
// Products of linear factors
// ---------------------------------------------------------------------------

proof fn lemma_felt_is_felt(a: int)
    ensures
        is_felt(felt(a)),
{
    lemma_fadd_felt(a, 0);
}

/// The product does not tell an integer from the element it stands for.
proof fn lemma_product_at_felt(x: int, n: nat, skip: int)
    ensures
        product_at(felt(x), n, skip) == product_at(x, n, skip),
    decreases n,
{
    if n > 0 {
        lemma_product_at_felt(x, (n - 1) as nat, skip);
        lemma_felt_arguments(x, n as int);
    }
}

/// The product vanishes at every point that it has a factor for.
proof fn lemma_product_at_root(i: int, n: nat, skip: int)
    requires
        1 <= i <= n,
        i != skip,
    ensures
        product_at(i, n, skip) == 0,
    decreases n,
{
    if n == i {
        lemma_fsub_self(i);
        lemma_fmul_zero(product_at(i, (n - 1) as nat, skip));
    } else {
        lemma_product_at_root(i, (n - 1) as nat, skip);
        lemma_fmul_zero(fsub(i, n as int));
    }
}

proof fn lemma_scaled_product_felt(c: int, n: nat, skip: int)
    requires
        is_felt(c),
    ensures
        all_felt(scaled_product(c, n, skip)),
    decreases n,
{
    if n > 0 {
        lemma_scaled_product_felt(c, (n - 1) as nat, skip);
        if n != skip {
            let prev = scaled_product(c, (n - 1) as nat, skip);
            let p = scaled_product(c, n, skip);
            lemma_scaled_product_len(c, (n - 1) as nat, skip);
            assert forall|k: int| 0 <= k < p.len() implies is_felt(#[trigger] p[k]) by {
                lemma_conv_felt(prev, linear_factor(n as int), k, prev.len());
            }
        }
    }
}

/// The leading coefficient of a scaled product of all factors is the scale.
proof fn lemma_scaled_product_lead(c: int, n: nat)
    requires
        is_felt(c),
    ensures
        scaled_product(c, n, 0).len() == n + 1,
        scaled_product(c, n, 0)[n as int] == c,
    decreases n,
{
    lemma_scaled_product_len(c, n, 0);
    if n > 0 {
        let prev = scaled_product(c, (n - 1) as nat, 0);
        let lin = linear_factor(n as int);
        lemma_scaled_product_lead(c, (n - 1) as nat);
        lemma_conv_vanishes(prev, lin, n as int, (n - 1) as nat);
        lemma_fmul_one(c);
        lemma_fadd_zero(c);
        assert(conv(prev, lin, n as int, n) == fadd(
            conv(prev, lin, n as int, (n - 1) as nat),
            fmul(prev[n - 1], coeff(lin, n - (n - 1))),
        ));
    }
}

/// Scaled by zero, the product is the zero polynomial.
proof fn lemma_scaled_product_zero(n: nat)
    ensures
        scaled_product(0, n, 0) == zero_row(n + 1),
    decreases n,
{
    if n == 0 {
        assert(scaled_product(0, 0, 0) =~= zero_row(1));
    } else {
        lemma_scaled_product_zero((n - 1) as nat);
        lemma_poly_mul_zero(linear_factor(n as int), n);
    }
}

// ---------------------------------------------------------------------------
// Lagrange fidelity
// ---------------------------------------------------------------------------

/// A singleton is its height at its own point and zero at the other points.
pub proof fn lemma_singleton_eval(point_loc: int, height: int, total_pts: nat, i: int)
    requires
        1 <= point_loc <= total_pts,
        1 <= i <= total_pts,
        total_pts <= modulus(),
        is_felt(height),
    ensures
        poly_eval(singleton(point_loc, height, total_pts), felt(i)) == if i == point_loc {
            height
        } else {
            0
        },
{
    let f = product_at(point_loc, total_pts, point_loc);
    lemma_product_at_nonzero(point_loc, total_pts, point_loc);
    lemma_finv(f);
    let c = fdiv(height, f);
    lemma_fadd_felt(height, crate::field::finv(f));
    lemma_felt_is_felt(i);
    lemma_eval_scaled_product(c, total_pts, point_loc, felt(i));
    lemma_product_at_felt(i, total_pts, point_loc);
    if i == point_loc {
        lemma_fdiv_fmul(height, f);
    } else {
        lemma_product_at_root(i, total_pts, point_loc);
        lemma_fmul_zero(c);
    }
}

proof fn lemma_lagrange_upto_eval(samples: Seq<int>, k: nat, i: int)
    requires
        all_felt(samples),
        samples.len() <= modulus(),
        k <= samples.len(),
        1 <= i <= samples.len(),
    ensures
        poly_eval(lagrange_upto(samples, k), felt(i)) == if i <= k {
            samples[i - 1]
        } else {
            0
        },
    decreases k,
{
    if k == 0 {
        lemma_eval_constant(0, felt(i));
    } else {
        let prev = lagrange_upto(samples, (k - 1) as nat);
        let single = singleton(k as int, samples[k - 1], samples.len());
        lemma_lagrange_upto_eval(samples, (k - 1) as nat, i);
        lemma_singleton_eval(k as int, samples[k - 1], samples.len(), i);
        lemma_eval_add(prev, single, felt(i));
        lemma_fadd_zero(samples[i - 1]);
        lemma_fadd_zero(0);
    }
}

/// Lagrange fidelity for one list of samples: the interpolated polynomial
/// takes the value of sample `i` at the point `i`.
pub proof fn lemma_lagrange_fidelity(samples: Seq<int>, i: int)
    requires
        all_felt(samples),
        samples.len() <= modulus(),
        1 <= i <= samples.len(),
    ensures
        poly_eval(lagrange(samples), felt(i)) == samples[i - 1],
{
    lemma_lagrange_upto_eval(samples, samples.len(), i);
}

/// Lagrange fidelity: the polynomial of column `j` of a matrix takes, at the
/// point `i`, the entry of row `i` (counted from 1) in that column.
pub proof fn lemma_column_fidelity(m: Seq<Seq<int>>, j: int, i: int)
    requires
        is_rectangular(m),
        matrix_is_felt(m),
        m.len() <= modulus(),
        0 <= j < width(m),
        1 <= i <= m.len(),
    ensures
        poly_eval(column_polys(m)[j], felt(i)) == m[i - 1][j],
{
    let column = transposed(m)[j];
    assert forall|r: int| 0 <= r < column.len() implies is_felt(#[trigger] column[r]) by {
        assert(all_felt(m[r]));
        assert(m[r].len() == m[0].len());
    }
    lemma_lagrange_fidelity(column, i);
}

/// An interpolated polynomial has one coefficient per sample, and at least one.
pub proof fn lemma_lagrange_len(samples: Seq<int>, k: nat)
    requires
        k <= samples.len(),
    ensures
        lagrange_upto(samples, k).len() == if k == 0 {
            1
        } else {
            samples.len()
        },
    decreases k,
{
    if k > 0 {
        lemma_lagrange_len(samples, (k - 1) as nat);
        lemma_scaled_product_len(
            fdiv(samples[k - 1], product_at(k as int, samples.len(), k as int)),
            samples.len(),
            k as int,
        );
    }
}

// ---------------------------------------------------------------------------
// Roots
// ---------------------------------------------------------------------------

/// A polynomial with `n` coefficients that vanishes at the `n` points
/// `1, 2, .., n` is the zero polynomial.
pub proof fn lemma_roots_force_zero(p: Seq<int>)
    requires
        all_felt(p),
        p.len() <= modulus(),
        forall|i: int| 1 <= i <= p.len() ==> poly_eval(p, #[trigger] felt(i)) == 0,
    ensures
        p == zero_row(p.len()),
    decreases p.len(),
{
    let n = p.len();
    if n == 0 {
        assert(p =~= zero_row(0));
    } else {
        let top = (n - 1) as nat;
        let c = p[n - 1];
        let sp = scaled_product(c, top, 0);
        lemma_scaled_product_lead(c, top);
        lemma_scaled_product_felt(c, top, 0);
        let g = poly_sub(p, sp);
        let g1 = g.subrange(0, n - 1);
        lemma_fsub_self(c);
        assert(g[n - 1] == 0);
        assert forall|k: int| 0 <= k < g1.len() implies is_felt(#[trigger] g1[k]) by {
            lemma_fadd_felt(p[k], sp[k]);
        }
        assert forall|i: int| 1 <= i <= g1.len() implies poly_eval(g1, #[trigger] felt(i))
            == 0 by {
            let x = felt(i);
            lemma_felt_is_felt(i);
            lemma_eval_agrees(g1, g, x, n);
            lemma_eval_beyond(g1, x, n);
            lemma_eval_sub(p, sp, x);
            lemma_eval_scaled_product(c, top, 0, x);
            lemma_product_at_felt(i, top, 0);
            lemma_product_at_root(i, top, 0);
            lemma_fmul_zero(c);
            lemma_fsub_self(0);
        }
        lemma_roots_force_zero(g1);
        assert forall|k: int| 0 <= k < n implies p[k] == sp[k] by {
            if k < n - 1 {
                assert(g1[k] == 0);
            }
            assert(g[k] == fsub(p[k], sp[k]));
            lemma_fsub_zero_eq(p[k], sp[k]);
        }
        assert(p =~= sp);
        // the value at the point n pins the leading coefficient to zero
        let x = felt(n as int);
        lemma_felt_is_felt(n as int);
        lemma_eval_scaled_product(c, top, 0, x);
        lemma_product_at_felt(n as int, top, 0);
        lemma_product_at_nonzero(n as int, top, 0);
        lemma_no_zero_divisors(c, product_at(n as int, top, 0));
        lemma_scaled_product_zero(top);
    }
}

// ---------------------------------------------------------------------------
// The solution polynomials at the evaluation points
// ---------------------------------------------------------------------------

/// The sum of `r[j] * polys[j](x)` over `j < k`.
pub open spec fn weighted_values(r: Seq<int>, polys: Seq<Seq<int>>, k: nat, x: int) -> int
    decreases k,
{
    if k == 0 {
        0
    } else {
        fadd(weighted_values(r, polys, (k - 1) as nat, x), fmul(r[k - 1], poly_eval(polys[k - 1], x)))
    }
}

proof fn lemma_combine_eval(r: Seq<int>, polys: Seq<Seq<int>>, k: nat, x: int)
    requires
        k <= r.len(),
        k <= polys.len(),
        all_felt(r),
    ensures
        poly_eval(combine(r, polys, k), x) == weighted_values(r, polys, k, x),
    decreases k,
{
    if k > 0 {
        lemma_combine_eval(r, polys, (k - 1) as nat, x);
        let term = poly_mul(seq![r[k - 1]], polys[k - 1]);
        lemma_eval_add(combine(r, polys, (k - 1) as nat), term, x);
        lemma_eval_mul(seq![r[k - 1]], polys[k - 1], x);
        lemma_eval_constant(r[k - 1], x);
    }
}

proof fn lemma_weighted_is_dot(m: Seq<Seq<int>>, r: Seq<int>, k: nat, i: int)
    requires
        is_rectangular(m),
        matrix_is_felt(m),
        m.len() <= modulus(),
        1 <= i <= m.len(),
        k <= r.len(),
        k <= width(m),
    ensures
        weighted_values(r, column_polys(m), k, felt(i)) == dot(m[i - 1], r, k),
    decreases k,
{
    if k > 0 {
        lemma_weighted_is_dot(m, r, (k - 1) as nat, i);
        lemma_column_fidelity(m, k - 1, i);
        lemma_fmul_comm(r[k - 1], m[i - 1][k - 1]);
    }
}

proof fn lemma_dot_beyond(row: Seq<int>, r: Seq<int>, k: nat, n: nat)
    requires
        r.len() <= k <= n,
    ensures
        dot(row, r, n) == dot(row, r, k),
    decreases n,
{
    if k < n {
        lemma_dot_beyond(row, r, k, (n - 1) as nat);
        lemma_fmul_zero(row[n - 1]);
        lemma_dot_is_felt(row, r, (n - 1) as nat);
        lemma_fadd_zero(dot(row, r, (n - 1) as nat));
    }
}

proof fn lemma_dot_is_felt(row: Seq<int>, r: Seq<int>, n: nat)
    ensures
        is_felt(dot(row, r, n)),
    decreases n,
{
    if n > 0 {
        lemma_fadd_felt(dot(row, r, (n - 1) as nat), fmul(row[n - 1], coeff(r, n - 1)));
    }
}

/// At the point `i`, the solution polynomial of a matrix has the value of
/// row `i` (counted from 1) under the witness.
pub proof fn lemma_solution_poly_eval(m: Seq<Seq<int>>, r: Seq<int>, i: int)
    requires
        is_rectangular(m),
        matrix_is_felt(m),
        m.len() <= modulus(),
        all_felt(r),
        1 <= i <= m.len(),
    ensures
        poly_eval(solution_poly(r, column_polys(m)), felt(i)) == row_value(m[i - 1], r),
{
    let polys = column_polys(m);
    let k = pairs(r, polys);
    lemma_combine_eval(r, polys, k, felt(i));
    lemma_weighted_is_dot(m, r, k, i);
    assert(m[i - 1].len() == m[0].len());
    if k < m[i - 1].len() {
        lemma_dot_beyond(m[i - 1], r, k, m[i - 1].len());
    }
}

/// QAP divisibility. For a witness that satisfies every constraint, dividing
/// `T = A * B - C` by the target polynomial leaves a remainder of zeros.
pub proof fn lemma_qap_divisible(
    t: Seq<int>,
    z: Seq<int>,
    a: Seq<Seq<int>>,
    b: Seq<Seq<int>>,
    c: Seq<Seq<int>>,
    w: Seq<int>,
    h: Seq<int>,
    rem: Seq<int>,
)
    requires
        is_satisfied_solution(t, z, a, b, c, w),
        is_division(t, z, h, rem),
    ensures
        rem == zero_row(rem.len()),
{
    let rows = a.len();
    let pa = solution_poly(w, column_polys(a));
    let pb = solution_poly(w, column_polys(b));
    let pc = solution_poly(w, column_polys(c));
    let top: nat = if rows == 0 {
        0
    } else {
        (rows - 1) as nat
    };
    lemma_scaled_product_len(1, top, 0);
    assert(rem.len() == top);
    assert forall|i: int| 1 <= i <= rem.len() implies poly_eval(rem, #[trigger] felt(i)) == 0 by {
        let x = felt(i);
        lemma_felt_is_felt(i);
        // T vanishes at the point i
        lemma_solution_poly_eval(a, w, i);
        lemma_solution_poly_eval(b, w, i);
        lemma_solution_poly_eval(c, w, i);
        lemma_eval_mul(pa, pb, x);
        lemma_eval_sub(poly_mul(pa, pb), pc, x);
        assert(row_holds(a[i - 1], b[i - 1], c[i - 1], w));
        lemma_fsub_self(row_value(c[i - 1], w));
        assert(poly_eval(t, x) == 0);
        // so does the target polynomial
        lemma_eval_scaled_product(1, top, 0, x);
        lemma_product_at_felt(i, top, 0);
        lemma_product_at_root(i, top, 0);
        lemma_fmul_zero(1);
        // and therefore the remainder
        lemma_eval_add(poly_mul(h, z), rem, x);
        lemma_eval_mul(h, z, x);
        lemma_fmul_zero(poly_eval(h, x));
        lemma_eval_felt(rem, x, rem.len());
        lemma_fadd_zero(poly_eval(rem, x));
    }
    lemma_roots_force_zero(rem);
}

// ---------------------------------------------------------------------------
// From a program to its divisor polynomial
// ---------------------------------------------------------------------------

proof fn lemma_place_is_felt(row: Seq<int>, names: Seq<Name>, operand: OperandView, reverse: bool)
    requires
        all_felt(row),
        row.len() == names.len(),
        names.len() > 0,
    ensures
        all_felt(place(row, names, operand, reverse)),
{
    match operand {
        OperandView::Identifier(name) => {
            names.index_of_first_ensures(name);
            if let Some(c) = names.index_of_first(name) {
                lemma_fadd_felt(row[c], signed(1, reverse));
            }
        },
        OperandView::Number(v) => {
            lemma_fadd_felt(row[0], signed(v, reverse));
        },
    }
}

/// The matrices of a program are rectangular, as wide as the placement, and
/// hold canonical representatives only.
pub proof fn lemma_r1cs_is_matrix(inputs: Seq<Name>, flatcode: Seq<OperationView>)
    ensures
        is_rectangular(r1cs_a(inputs, flatcode)),
        is_rectangular(r1cs_b(inputs, flatcode)),
        is_rectangular(r1cs_c(inputs, flatcode)),
        matrix_is_felt(r1cs_a(inputs, flatcode)),
        matrix_is_felt(r1cs_b(inputs, flatcode)),
        matrix_is_felt(r1cs_c(inputs, flatcode)),
{
    let names = var_placement(inputs, flatcode);
    let z = zero_row(names.len());
    lemma_r1cs_shape(inputs, flatcode);
    lemma_placement_contains(inputs, flatcode, flatcode.len());
    assert forall|i: int| 0 <= i < flatcode.len() implies all_felt(
        #[trigger] r1cs_a(inputs, flatcode)[i],
    ) by {
        lemma_encoded_rows_are_felt(names, flatcode[i]);
    }
    assert forall|i: int| 0 <= i < flatcode.len() implies all_felt(
        #[trigger] r1cs_b(inputs, flatcode)[i],
    ) by {
        lemma_encoded_rows_are_felt(names, flatcode[i]);
    }
    assert forall|i: int| 0 <= i < flatcode.len() implies all_felt(
        #[trigger] r1cs_c(inputs, flatcode)[i],
    ) by {
        lemma_encoded_rows_are_felt(names, flatcode[i]);
    }
}

proof fn lemma_encoded_rows_are_felt(names: Seq<Name>, op: OperationView)
    requires
        names.len() > 0,
        names.contains(op.target),
    ensures
        all_felt(encode_row(names, op).0),
        all_felt(encode_row(names, op).1),
        all_felt(encode_row(names, op).2),
{
    let z = zero_row(names.len());
    names.index_of_first_ensures(op.target);
    let t = names.index_of_first(op.target).unwrap();
    lemma_fadd_felt(0, 1);
    lemma_place_len(z, names, op.left, false);
    lemma_place_is_felt(z, names, op.left, false);
    lemma_place_is_felt(z, names, op.right, false);
    lemma_place_is_felt(bump(z, t, 1), names, op.left, true);
    lemma_place_is_felt(place(z, names, op.left, false), names, op.right, false);
    lemma_place_is_felt(place(z, names, op.left, false), names, op.right, true);
}

/// From a program to its divisor polynomial. Take a program that meets what
/// witness soundness asks for, with no more rows than the field has elements.
/// Whatever divides its solution polynomial `T = A * B - C` by the target
/// polynomial leaves a remainder of zeros.
pub proof fn lemma_program_is_divisible(
    inputs: Seq<Name>,
    input_vars: Seq<int>,
    flatcode: Seq<OperationView>,
    h: Seq<int>,
    rem: Seq<int>,
)
    requires
        input_vars.len() == inputs.len(),
        all_felt(input_vars),
        numbers_are_felt(flatcode),
        lowers(inputs, flatcode),
        writes_once(flatcode),
        witness(inputs, input_vars, flatcode) is Ok,
        flatcode.len() <= modulus(),
        is_division(
            poly_sub(
                poly_mul(
                    solution_poly(
                        witness(inputs, input_vars, flatcode)->Ok_0,
                        column_polys(r1cs_a(inputs, flatcode)),
                    ),
                    solution_poly(
                        witness(inputs, input_vars, flatcode)->Ok_0,
                        column_polys(r1cs_b(inputs, flatcode)),
                    ),
                ),
                solution_poly(
                    witness(inputs, input_vars, flatcode)->Ok_0,
                    column_polys(r1cs_c(inputs, flatcode)),
                ),
            ),
            target_poly(flatcode.len()),
            h,
            rem,
        ),
    ensures
        rem == zero_row(rem.len()),
{
    let w = witness(inputs, input_vars, flatcode)->Ok_0;
    let a = r1cs_a(inputs, flatcode);
    let b = r1cs_b(inputs, flatcode);
    lemma_witness_sound(inputs, input_vars, flatcode);
    lemma_witness_is_felt(inputs, input_vars, flatcode);
    lemma_r1cs_is_matrix(inputs, flatcode);
    lemma_r1cs_shape(inputs, flatcode);
    lemma_placement_contains(inputs, flatcode, flatcode.len());
    if flatcode.len() == 0 {
        let z = target_poly(0);
        lemma_scaled_product_len(1, 0, 0);
        assert(rem =~= zero_row(0));
    } else {
        assert(a[0].len() == var_placement(inputs, flatcode).len());
        lemma_solution_poly_len(w, a);
        let c = r1cs_c(inputs, flatcode);
        lemma_qap_divisible(
            poly_sub(
                poly_mul(solution_poly(w, column_polys(a)), solution_poly(w, column_polys(b))),
                solution_poly(w, column_polys(c)),
            ),
            target_poly(flatcode.len()),
            a,
            b,
            c,
            w,
            h,
            rem,
        );
    }
}

/// The solution polynomial of a matrix with rows and columns has one
/// coefficient per row, where the witness is not empty.
pub proof fn lemma_solution_poly_len(r: Seq<int>, m: Seq<Seq<int>>)
    requires
        m.len() > 0,
        width(m) > 0,
        r.len() > 0,
    ensures
        solution_poly(r, column_polys(m)).len() == m.len(),
{
    lemma_combine_len(r, m, pairs(r, column_polys(m)));
}

proof fn lemma_combine_len(r: Seq<int>, m: Seq<Seq<int>>, k: nat)
    requires
        m.len() > 0,
        k <= width(m),
    ensures
        combine(r, column_polys(m), k).len() == if k == 0 {
            0
        } else {
            m.len()
        },
    decreases k,
{
    if k > 0 {
        lemma_combine_len(r, m, (k - 1) as nat);
        lemma_lagrange_len(transposed(m)[k - 1], m.len());
    }
}

} // verus!
