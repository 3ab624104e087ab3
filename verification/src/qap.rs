//! From R1CS to a quadratic arithmetic program: every column of a matrix is
//! interpolated into a polynomial over the evaluation points `1, 2, .., m`.

use vstd::prelude::*;
use crate::field::{
    Fp, fdiv, felt, fmul, fneg, fsub, is_felt, lemma_fadd_felt, lemma_felt_arguments,
    lemma_no_zero_divisors, lemma_view_is_felt, modulus,
};
use crate::poly::{
    add_polys, div_polys, divisible, is_division, mul_polys, poly_add, poly_eval, poly_mul,
    poly_sub, sub_polys,
};
use crate::qap_laws::{
    lemma_column_fidelity, lemma_lagrange_fidelity, lemma_lagrange_len, lemma_qap_divisible,
    lemma_singleton_eval,
};
use crate::vecs::{
    all_felt, lemma_deep_view_push, lemma_matrix_is_felt, lemma_vec_is_felt, matrix_is_felt,
    zero_row,
};
use crate::witness::satisfies;
use crate::Error;

verus! {

broadcast use lemma_view_is_felt;

// ---------------------------------------------------------------------------
// Models
// ---------------------------------------------------------------------------

/// Every row is as long as the first.
pub open spec fn is_rectangular(m: Seq<Seq<int>>) -> bool {
    forall|i: int| 0 <= i < m.len() ==> (#[trigger] m[i]).len() == m[0].len()
}

/// The number of columns; a matrix without rows has none.
pub open spec fn width(m: Seq<Seq<int>>) -> nat {
    if m.len() == 0 {
        0
    } else {
        m[0].len()
    }
}

/// The transposed matrix: its row `j` is column `j` of `m`.
pub open spec fn transposed(m: Seq<Seq<int>>) -> Seq<Seq<int>> {
    Seq::new(width(m), |j: int| Seq::new(m.len(), |i: int| m[i][j]))
}

/// The polynomial `x - i`.
pub open spec fn linear_factor(i: int) -> Seq<int> {
    seq![fneg(i), 1]
}

/// The constant `c` times the product of `x - i` over `i` in `1..=n` other than `skip`.
pub open spec fn scaled_product(c: int, n: nat, skip: int) -> Seq<int>
    decreases n,
{
    if n == 0 {
        seq![c]
    } else if n == skip {
        scaled_product(c, (n - 1) as nat, skip)
    } else {
        poly_mul(scaled_product(c, (n - 1) as nat, skip), linear_factor(n as int))
    }
}

/// The product of `x - i` over `i` in `1..=n` other than `skip`, as a value.
pub open spec fn product_at(x: int, n: nat, skip: int) -> int
    decreases n,
{
    if n == 0 {
        1
    } else if n == skip {
        product_at(x, (n - 1) as nat, skip)
    } else {
        fmul(product_at(x, (n - 1) as nat, skip), fsub(x, n as int))
    }
}

/// The polynomial that is `height` at `point_loc` and zero at every other
/// point of `1..=total_pts`.
pub open spec fn singleton(point_loc: int, height: int, total_pts: nat) -> Seq<int> {
    scaled_product(
        fdiv(height, product_at(point_loc, total_pts, point_loc)),
        total_pts,
        point_loc,
    )
}

/// The sum of the singletons of the first `k` samples, starting from `[0]`.
pub open spec fn lagrange_upto(samples: Seq<int>, k: nat) -> Seq<int>
    decreases k,
{
    if k == 0 {
        seq![0int]
    } else {
        poly_add(
            lagrange_upto(samples, (k - 1) as nat),
            singleton(k as int, samples[k - 1], samples.len()),
        )
    }
}

/// The polynomial through the samples, taken at the points `1, 2, .., |samples|`.
pub open spec fn lagrange(samples: Seq<int>) -> Seq<int> {
    lagrange_upto(samples, samples.len())
}

/// One interpolated polynomial per column of `m`.
pub open spec fn column_polys(m: Seq<Seq<int>>) -> Seq<Seq<int>> {
    Seq::new(width(m), |j: int| lagrange(transposed(m)[j]))
}

/// The target polynomial for `rows` constraints: the product of `x - i`
/// over `i` in `1..rows`.
///
/// The columns are interpolated at the points `1..=rows`, so the last point
/// is no root of the target polynomial: a solution polynomial that the target
/// divides vanishes at every point but, possibly, the last.
pub open spec fn target_poly(rows: nat) -> Seq<int> {
    scaled_product(1, if rows == 0 { 0 } else { (rows - 1) as nat }, 0)
}

/// The sum of `r[j] * polys[j]` over `j < k`, starting from the empty polynomial.
pub open spec fn combine(r: Seq<int>, polys: Seq<Seq<int>>, k: nat) -> Seq<int>
    decreases k,
{
    if k == 0 {
        Seq::<int>::empty()
    } else {
        poly_add(combine(r, polys, (k - 1) as nat), poly_mul(seq![r[k - 1]], polys[k - 1]))
    }
}

/// The number of pairs that a witness and a list of polynomials make.
pub open spec fn pairs(r: Seq<int>, polys: Seq<Seq<int>>) -> nat {
    if r.len() <= polys.len() {
        r.len()
    } else {
        polys.len()
    }
}

/// The polynomials of one matrix, weighted by the witness and summed.
pub open spec fn solution_poly(r: Seq<int>, polys: Seq<Seq<int>>) -> Seq<int> {
    combine(r, polys, pairs(r, polys))
}

/// `t` is the solution polynomial `A * B - C`, and `z` the target polynomial,
/// of a constraint system with the matrices `a`, `b` and `c` and a witness `w`
/// that satisfies it.
pub open spec fn is_satisfied_solution(
    t: Seq<int>,
    z: Seq<int>,
    a: Seq<Seq<int>>,
    b: Seq<Seq<int>>,
    c: Seq<Seq<int>>,
    w: Seq<int>,
) -> bool {
    &&& is_rectangular(a)
    &&& is_rectangular(b)
    &&& is_rectangular(c)
    &&& matrix_is_felt(a)
    &&& matrix_is_felt(b)
    &&& matrix_is_felt(c)
    &&& all_felt(w)
    &&& a.len() <= modulus()
    &&& satisfies(a, b, c, w)
    &&& solution_poly(w, column_polys(a)).len() + solution_poly(w, column_polys(b)).len() >= 1
    &&& t == poly_sub(
        poly_mul(solution_poly(w, column_polys(a)), solution_poly(w, column_polys(b))),
        solution_poly(w, column_polys(c)),
    )
    &&& z == target_poly(a.len())
}

// ---------------------------------------------------------------------------
// Facts that the executable code needs
// ---------------------------------------------------------------------------

/// A scaled product has one coefficient more than it has factors.
pub proof fn lemma_scaled_product_len(c: int, n: nat, skip: int)
    ensures
        1 <= scaled_product(c, n, skip).len() <= n + 1,
        !(1 <= skip <= n) ==> scaled_product(c, n, skip).len() == n + 1,
        1 <= skip <= n ==> scaled_product(c, n, skip).len() == n,
    decreases n,
{
    if n > 0 {
        lemma_scaled_product_len(c, (n - 1) as nat, skip);
    }
}

/// Between distinct points of `1..=modulus()` the product of differences is not zero.
pub proof fn lemma_product_at_nonzero(x: int, n: nat, skip: int)
    requires
        1 <= x <= modulus(),
        n <= modulus(),
        x == skip || n < x,
    ensures
        is_felt(product_at(x, n, skip)),
        product_at(x, n, skip) != 0,
    decreases n,
{
    if n > 0 {
        lemma_product_at_nonzero(x, (n - 1) as nat, skip);
    }
    if n > 0 && n != skip {
        let prev = product_at(x, (n - 1) as nat, skip);
        let d = fsub(x, n as int);
        lemma_fadd_felt(x, n as int);
        lemma_fadd_felt(prev, d);
        assert(d != 0) by {
            if x > n {
                vstd::arithmetic::div_mod::lemma_small_mod((x - n) as nat, modulus() as nat);
            } else {
                vstd::arithmetic::div_mod::lemma_mod_add_multiples_vanish(x - n, modulus());
                vstd::arithmetic::div_mod::lemma_small_mod(
                    (x - n + modulus()) as nat,
                    modulus() as nat,
                );
            }
        }
        if fmul(prev, d) == 0 {
            lemma_no_zero_divisors(prev, d);
        }
    }
}

// ---------------------------------------------------------------------------
// Executable code
// ---------------------------------------------------------------------------

/// Transposes a matrix. Its rows must all have the same length.
pub fn transpose(m: &Vec<Vec<Fp>>) -> (t: Vec<Vec<Fp>>)
    requires
        is_rectangular(m.deep_view()),
    ensures
        t.deep_view() == transposed(m.deep_view()),
        t.len() == width(m.deep_view()),
        forall|j: int| 0 <= j < t.len() ==> (#[trigger] t@[j]).len() == m.len(),
{
    let ghost mv = m.deep_view();
    let rows = m.len();
    let cols = if rows == 0 {
        0
    } else {
        m[0].len()
    };
    let mut t: Vec<Vec<Fp>> = Vec::new();
    let mut j: usize = 0;
    while j < cols
        invariant
            j <= cols,
            rows == m.len(),
            cols == width(mv),
            mv == m.deep_view(),
            is_rectangular(mv),
            t.len() == j,
            forall|jj: int| 0 <= jj < j ==> (#[trigger] t@[jj]).len() == rows,
            forall|jj: int|
                0 <= jj < j ==> (#[trigger] t@[jj]).deep_view() == Seq::new(
                    rows as nat,
                    |i: int| mv[i][jj],
                ),
        decreases cols - j,
    {
        let mut col: Vec<Fp> = Vec::new();
        let mut i: usize = 0;
        while i < rows
            invariant
                i <= rows,
                j < cols,
                rows == m.len(),
                cols == width(mv),
                mv == m.deep_view(),
                is_rectangular(mv),
                col.len() == i,
                forall|ii: int| 0 <= ii < i ==> (#[trigger] col@[ii])@ == mv[ii][j as int],
            decreases rows - i,
        {
            assert(mv[i as int].len() == mv[0].len());
            assert(mv[i as int] == m@[i as int].deep_view());
            let row = &m[i];
            assert(mv[i as int][j as int] == row@[j as int]@);
            col.push(row[j]);
            i += 1;
        }
        assert(col.deep_view() =~= Seq::new(rows as nat, |i: int| mv[i][j as int]));
        t.push(col);
        j += 1;
    }
    assert(t.deep_view() =~= transposed(mv));
    t
}

/// The polynomial `x - i`.
fn linear(i: i32) -> (p: Vec<Fp>)
    ensures
        p.deep_view() == linear_factor(i as int),
{
    let mut p: Vec<Fp> = Vec::new();
    p.push(Fp::from_i64(i as i64).neg());
    p.push(Fp::one());
    proof {
        lemma_felt_arguments(i as int, 0);
        assert(p.deep_view() =~= linear_factor(i as int));
    }
    p
}

/// `c` times the product of `x - i` over `i` in `1..=n` other than `skip`.
fn scaled_product_poly(c: Fp, n: i32, skip: i32) -> (p: Vec<Fp>)
    requires
        0 <= n,
    ensures
        p.deep_view() == scaled_product(c@, n as nat, skip as int),
{
    let mut o: Vec<Fp> = Vec::new();
    o.push(c);
    assert(o.deep_view() =~= scaled_product(c@, 0, skip as int));
    let mut i: i32 = 0;
    while i < n
        invariant
            0 <= i <= n,
            o.deep_view() == scaled_product(c@, i as nat, skip as int),
        decreases n - i,
    {
        i += 1;
        if i != skip {
            proof {
                lemma_scaled_product_len(c@, (i - 1) as nat, skip as int);
                assert(o.len() == o.deep_view().len());
            }
            let factor = linear(i);
            assert(factor.len() == factor.deep_view().len());
            o = mul_polys(&o, &factor);
        }
    }
    o
}

/// Make a polynomial which is zero at `1, 2, .., total_pts`, except for
/// `point_loc` where the value is `height`. The point must be one of
/// `1, 2, .., total_pts`.
pub fn mk_singleton(point_loc: i32, height: &Fp, total_pts: i32) -> (p: Vec<Fp>)
    requires
        1 <= point_loc <= total_pts,
    ensures
        p.deep_view() == singleton(point_loc as int, height@, total_pts as nat),
        p.len() == total_pts,
        forall|i: int|
            1 <= i <= total_pts ==> poly_eval(p.deep_view(), #[trigger] felt(i)) == if i
                == point_loc {
                height@
            } else {
                0
            },
{
    let x = Fp::from_i64(point_loc as i64);
    let mut fac = Fp::one();
    let mut i: i32 = 0;
    while i < total_pts
        invariant
            0 <= i <= total_pts,
            x@ == felt(point_loc as int),
            fac@ == product_at(point_loc as int, i as nat, point_loc as int),
        decreases total_pts - i,
    {
        i += 1;
        if i != point_loc {
            proof {
                lemma_felt_arguments(point_loc as int, i as int);
            }
            fac = fac.mul(&x.sub(&Fp::from_i64(i as i64)));
        }
    }
    proof {
        lemma_product_at_nonzero(point_loc as int, total_pts as nat, point_loc as int);
    }
    let scale = match height.div(&fac) {
        Some(s) => s,
        None => { return Vec::new(); },
    };
    proof {
        lemma_scaled_product_len(scale@, total_pts as nat, point_loc as int);
        assert forall|i: int| 1 <= i <= total_pts implies poly_eval(
            singleton(point_loc as int, height@, total_pts as nat),
            #[trigger] felt(i),
        ) == if i == point_loc {
            height@
        } else {
            0
        } by {
            lemma_singleton_eval(point_loc as int, height@, total_pts as nat, i);
        }
    }
    let p = scaled_product_poly(scale, total_pts, point_loc);
    assert(p.len() == p.deep_view().len());
    p
}

/// Interpolates the samples, taken at the points `1, 2, .., |vec|`, as the sum
/// of one singleton per sample. There must be no more samples than the field
/// has elements.
pub fn lagrange_interop(vec: &Vec<Fp>) -> (p: Vec<Fp>)
    requires
        vec.len() <= i32::MAX,
    ensures
        p.deep_view() == lagrange(vec.deep_view()),
        p.len() == if vec.len() == 0 {
            1
        } else {
            vec.len()
        },
        forall|i: int|
            1 <= i <= vec.len() ==> poly_eval(p.deep_view(), #[trigger] felt(i))
                == vec.deep_view()[i - 1],
{
    let ghost sv = vec.deep_view();
    let total = vec.len();
    let mut acc: Vec<Fp> = Vec::new();
    acc.push(Fp::zero());
    assert(acc.deep_view() =~= lagrange_upto(sv, 0));
    let mut i: usize = 0;
    while i < total
        invariant
            i <= total,
            total == vec.len(),
            total <= i32::MAX,
            sv == vec.deep_view(),
            acc.deep_view() == lagrange_upto(sv, i as nat),
        decreases total - i,
    {
        assert(sv[i as int] == vec@[i as int]@);
        let single = mk_singleton((i + 1) as i32, &vec[i], total as i32);
        acc = add_polys(&acc, &single);
        i += 1;
    }
    proof {
        lemma_vec_is_felt(*vec);
        lemma_lagrange_len(sv, sv.len());
        assert(acc.len() == acc.deep_view().len());
        assert forall|i: int| 1 <= i <= vec.len() implies poly_eval(
            lagrange(sv),
            #[trigger] felt(i),
        ) == sv[i - 1] by {
            lemma_lagrange_fidelity(sv, i);
        }
    }
    acc
}

/// Interpolates every row of `rows`.
fn interpolate_rows(rows: &Vec<Vec<Fp>>) -> (polys: Vec<Vec<Fp>>)
    requires
        forall|j: int| 0 <= j < rows.len() ==> (#[trigger] rows@[j]).len() <= i32::MAX,
    ensures
        polys.deep_view() == Seq::new(
            rows.len() as nat,
            |j: int| lagrange(rows.deep_view()[j]),
        ),
{
    let mut polys: Vec<Vec<Fp>> = Vec::new();
    let mut j: usize = 0;
    while j < rows.len()
        invariant
            j <= rows.len(),
            forall|j: int| 0 <= j < rows.len() ==> (#[trigger] rows@[j]).len() <= i32::MAX,
            polys.deep_view() == Seq::new(j as nat, |jj: int| lagrange(rows.deep_view()[jj])),
        decreases rows.len() - j,
    {
        let ghost before = polys;
        let p = lagrange_interop(&rows[j]);
        polys.push(p);
        proof {
            lemma_deep_view_push(before, polys, p);
            assert(rows.deep_view()[j as int] == rows@[j as int].deep_view());
            assert(polys.deep_view() =~= Seq::new(
                (j + 1) as nat,
                |jj: int| lagrange(rows.deep_view()[jj]),
            ));
        }
        j += 1;
    }
    polys
}

/// Turns the three matrices of an R1CS into the three lists of column
/// polynomials of a QAP, and adds the target polynomial for the rows of `a`.
///
/// Each matrix must be rectangular and have no more rows than the field has
/// elements. The polynomial of a column passes through the column: at the
/// point `i` it takes the entry of row `i`, counted from 1.
pub fn r1cs_to_qap(a: &Vec<Vec<Fp>>, b: &Vec<Vec<Fp>>, c: &Vec<Vec<Fp>>) -> (qap: (
    Vec<Vec<Fp>>,
    Vec<Vec<Fp>>,
    Vec<Vec<Fp>>,
    Vec<Fp>,
))
    requires
        is_rectangular(a.deep_view()),
        is_rectangular(b.deep_view()),
        is_rectangular(c.deep_view()),
        a.len() <= i32::MAX,
        b.len() <= i32::MAX,
        c.len() <= i32::MAX,
    ensures
        qap.0.deep_view() == column_polys(a.deep_view()),
        qap.1.deep_view() == column_polys(b.deep_view()),
        qap.2.deep_view() == column_polys(c.deep_view()),
        qap.3.deep_view() == target_poly(a.len() as nat),
        forall|j: int, i: int|
            0 <= j < width(a.deep_view()) && 1 <= i <= a.len() ==> poly_eval(
                #[trigger] qap.0.deep_view()[j],
                #[trigger] felt(i),
            ) == a.deep_view()[i - 1][j],
        forall|j: int, i: int|
            0 <= j < width(b.deep_view()) && 1 <= i <= b.len() ==> poly_eval(
                #[trigger] qap.1.deep_view()[j],
                #[trigger] felt(i),
            ) == b.deep_view()[i - 1][j],
        forall|j: int, i: int|
            0 <= j < width(c.deep_view()) && 1 <= i <= c.len() ==> poly_eval(
                #[trigger] qap.2.deep_view()[j],
                #[trigger] felt(i),
            ) == c.deep_view()[i - 1][j],
{
    let ta = transpose(a);
    let tb = transpose(b);
    let tc = transpose(c);
    let pa = interpolate_rows(&ta);
    let pb = interpolate_rows(&tb);
    let pc = interpolate_rows(&tc);
    proof {
        assert(pa.deep_view() =~= column_polys(a.deep_view()));
        assert(pb.deep_view() =~= column_polys(b.deep_view()));
        assert(pc.deep_view() =~= column_polys(c.deep_view()));
        lemma_matrix_is_felt(*a);
        lemma_matrix_is_felt(*b);
        lemma_matrix_is_felt(*c);
        assert forall|j: int, i: int|
            0 <= j < width(a.deep_view()) && 1 <= i <= a.len() implies poly_eval(
            #[trigger] pa.deep_view()[j],
            #[trigger] felt(i),
        ) == a.deep_view()[i - 1][j] by {
            lemma_column_fidelity(a.deep_view(), j, i);
        }
        assert forall|j: int, i: int|
            0 <= j < width(b.deep_view()) && 1 <= i <= b.len() implies poly_eval(
            #[trigger] pb.deep_view()[j],
            #[trigger] felt(i),
        ) == b.deep_view()[i - 1][j] by {
            lemma_column_fidelity(b.deep_view(), j, i);
        }
        assert forall|j: int, i: int|
            0 <= j < width(c.deep_view()) && 1 <= i <= c.len() implies poly_eval(
            #[trigger] pc.deep_view()[j],
            #[trigger] felt(i),
        ) == c.deep_view()[i - 1][j] by {
            lemma_column_fidelity(c.deep_view(), j, i);
        }
    }
    let rows = a.len();
    let top: i32 = if rows == 0 {
        0
    } else {
        (rows - 1) as i32
    };
    let z = scaled_product_poly(Fp::one(), top, 0);
    (pa, pb, pc, z)
}

/// Sums `r[j] * polys[j]` over the pairs of `r` and `polys`.
fn weighted_sum(r: &Vec<Fp>, polys: &Vec<Vec<Fp>>) -> (p: Vec<Fp>)
    ensures
        p.deep_view() == solution_poly(r.deep_view(), polys.deep_view()),
{
    let count = if r.len() <= polys.len() {
        r.len()
    } else {
        polys.len()
    };
    let ghost rv = r.deep_view();
    let ghost pv = polys.deep_view();
    let mut acc: Vec<Fp> = Vec::new();
    assert(acc.deep_view() =~= combine(rv, pv, 0));
    let mut j: usize = 0;
    while j < count
        invariant
            j <= count,
            count == pairs(rv, pv),
            rv == r.deep_view(),
            pv == polys.deep_view(),
            acc.deep_view() == combine(rv, pv, j as nat),
        decreases count - j,
    {
        let mut scalar: Vec<Fp> = Vec::new();
        scalar.push(r[j]);
        assert(scalar.deep_view() =~= seq![rv[j as int]]);
        assert(pv[j as int] == polys@[j as int].deep_view());
        let term = mul_polys(&scalar, &polys[j]);
        acc = add_polys(&acc, &term);
        j += 1;
    }
    acc
}

/// Weights the polynomials of each matrix by the witness `r` and sums them,
/// and returns the three sums with `T = A * B - C`.
///
/// A witness coordinate without a polynomial, or a polynomial without a
/// coordinate, is left out. The sums for A and B must not both be empty.
pub fn create_solution_polynomials(
    r: &Vec<Fp>,
    a_p: Vec<Vec<Fp>>,
    b_p: Vec<Vec<Fp>>,
    c_p: Vec<Vec<Fp>>,
) -> (sol: (Vec<Fp>, Vec<Fp>, Vec<Fp>, Vec<Fp>))
    requires
        solution_poly(r.deep_view(), a_p.deep_view()).len() + solution_poly(
            r.deep_view(),
            b_p.deep_view(),
        ).len() >= 1,
        solution_poly(r.deep_view(), a_p.deep_view()).len() + solution_poly(
            r.deep_view(),
            b_p.deep_view(),
        ).len() - 1 <= usize::MAX,
    ensures
        sol.0.deep_view() == solution_poly(r.deep_view(), a_p.deep_view()),
        sol.1.deep_view() == solution_poly(r.deep_view(), b_p.deep_view()),
        sol.2.deep_view() == solution_poly(r.deep_view(), c_p.deep_view()),
        sol.3.deep_view() == poly_sub(
            poly_mul(sol.0.deep_view(), sol.1.deep_view()),
            sol.2.deep_view(),
        ),
{
    let a_poly = weighted_sum(r, &a_p);
    let b_poly = weighted_sum(r, &b_p);
    let c_poly = weighted_sum(r, &c_p);
    assert(a_poly.len() == a_poly.deep_view().len());
    assert(b_poly.len() == b_poly.deep_view().len());
    let product = mul_polys(&a_poly, &b_poly);
    let o = sub_polys(&product, &c_poly);
    (a_poly, b_poly, c_poly, o)
}

/// Divides the solution polynomial by the target polynomial: quotient `H`
/// and remainder. Where `sol` and `z` come from a constraint system and a
/// witness that satisfies it, the remainder is zero.
pub fn create_divisor_polynomial(sol: Vec<Fp>, z: Vec<Fp>) -> (r: Result<(Vec<Fp>, Vec<Fp>), Error>)
    ensures
        match r {
            Ok(qr) => {
                &&& divisible(sol.deep_view(), z.deep_view())
                &&& is_division(
                    sol.deep_view(),
                    z.deep_view(),
                    qr.0.deep_view(),
                    qr.1.deep_view(),
                )
                &&& forall|a: Seq<Seq<int>>, b: Seq<Seq<int>>, c: Seq<Seq<int>>, w: Seq<int>| #[trigger]
                    is_satisfied_solution(sol.deep_view(), z.deep_view(), a, b, c, w)
                        ==> qr.1.deep_view() == zero_row(qr.1.len() as nat)
            },
            Err(Error::DivisionByZeroPoly) => !divisible(sol.deep_view(), z.deep_view()),
            Err(_) => false,
        },
{
    let r = div_polys(&sol, &z);
    proof {
        if r is Ok {
            let qr = r->Ok_0;
            assert forall|a: Seq<Seq<int>>, b: Seq<Seq<int>>, c: Seq<Seq<int>>, w: Seq<int>| #[trigger]
                is_satisfied_solution(
                    sol.deep_view(),
                    z.deep_view(),
                    a,
                    b,
                    c,
                    w,
                ) implies qr.1.deep_view() == zero_row(qr.1.len() as nat) by {
                lemma_qap_divisible(
                    sol.deep_view(),
                    z.deep_view(),
                    a,
                    b,
                    c,
                    w,
                    qr.0.deep_view(),
                    qr.1.deep_view(),
                );
            }
        }
    }
    r
}

} // verus!
