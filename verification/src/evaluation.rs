//! Evaluation of polynomials: it turns sums into sums and products into products.

use vstd::prelude::*;
use vstd::arithmetic::div_mod::{lemma_add_mod_noop, lemma_sub_mod_noop};
use crate::field::{
    fadd, fmul, fneg, fpow, fsub, is_felt, lemma_fadd_felt, lemma_fadd_zero, lemma_fmul_assoc,
    lemma_fmul_comm, lemma_fmul_fadd, lemma_fmul_fsub, lemma_fmul_one, lemma_fmul_zero,
    lemma_fsub_is_fadd_fneg, modulus,
};
use crate::poly::{
    coeff, conv, eval_upto, lemma_conv_vanishes, poly_add, poly_eval, poly_mul, poly_sub,
};
use crate::qap::{linear_factor, product_at, scaled_product};
use crate::vecs::zero_row;

verus! {

// ---------------------------------------------------------------------------
// Rearrangements
// ---------------------------------------------------------------------------

/// `(a + b) + (c + d) = (a + c) + (b + d)`.
pub proof fn lemma_fadd_interchange(a: int, b: int, c: int, d: int)
    ensures
        fadd(fadd(a, b), fadd(c, d)) == fadd(fadd(a, c), fadd(b, d)),
{
    lemma_add_mod_noop(a + b, c + d, modulus());
    lemma_add_mod_noop(a + c, b + d, modulus());
}

/// `(a - b) + (c - d) = (a + c) - (b + d)`.
pub proof fn lemma_fsub_interchange(a: int, b: int, c: int, d: int)
    ensures
        fadd(fsub(a, b), fsub(c, d)) == fsub(fadd(a, c), fadd(b, d)),
{
    lemma_add_mod_noop(a - b, c - d, modulus());
    lemma_sub_mod_noop(a + c, b + d, modulus());
}

/// `(a * b) * (c * d) = (a * c) * (b * d)`.
pub proof fn lemma_fmul_interchange(a: int, b: int, c: int, d: int)
    ensures
        fmul(fmul(a, b), fmul(c, d)) == fmul(fmul(a, c), fmul(b, d)),
{
    lemma_fmul_assoc(a, b, fmul(c, d));
    lemma_fmul_assoc(b, c, d);
    lemma_fmul_comm(b, c);
    lemma_fmul_assoc(c, b, d);
    lemma_fmul_assoc(a, c, fmul(b, d));
}

// ---------------------------------------------------------------------------
// Powers
// ---------------------------------------------------------------------------

/// A power is a canonical representative.
pub proof fn lemma_fpow_felt(x: int, n: nat)
    ensures
        is_felt(fpow(x, n)),
    decreases n,
{
    if n > 0 {
        lemma_fadd_felt(fpow(x, (n - 1) as nat), x);
    }
}

/// `x^(m + n) = x^m * x^n`.
pub proof fn lemma_fpow_add(x: int, m: nat, n: nat)
    ensures
        fpow(x, m + n) == fmul(fpow(x, m), fpow(x, n)),
    decreases n,
{
    if n == 0 {
        lemma_fpow_felt(x, m);
        lemma_fmul_one(fpow(x, m));
    } else {
        lemma_fpow_add(x, m, (n - 1) as nat);
        lemma_fmul_assoc(fpow(x, m), fpow(x, (n - 1) as nat), x);
    }
}

// ---------------------------------------------------------------------------
// Sums of terms
// ---------------------------------------------------------------------------

/// A value is a canonical representative.
pub proof fn lemma_eval_felt(p: Seq<int>, x: int, n: nat)
    ensures
        is_felt(eval_upto(p, x, n)),
    decreases n,
{
    if n > 0 {
        lemma_fadd_felt(
            eval_upto(p, x, (n - 1) as nat),
            fmul(coeff(p, n - 1), fpow(x, (n - 1) as nat)),
        );
    }
}

/// Terms beyond the end of the polynomial add nothing.
pub proof fn lemma_eval_beyond(p: Seq<int>, x: int, n: nat)
    requires
        n >= p.len(),
    ensures
        eval_upto(p, x, n) == poly_eval(p, x),
    decreases n,
{
    if n > p.len() {
        lemma_eval_beyond(p, x, (n - 1) as nat);
        lemma_fmul_zero(fpow(x, (n - 1) as nat));
        lemma_eval_felt(p, x, (n - 1) as nat);
        lemma_fadd_zero(eval_upto(p, x, (n - 1) as nat));
    }
}

/// The value only depends on the coefficients.
pub proof fn lemma_eval_agrees(p: Seq<int>, q: Seq<int>, x: int, n: nat)
    requires
        forall|i: int| 0 <= i < n ==> coeff(p, i) == coeff(q, i),
    ensures
        eval_upto(p, x, n) == eval_upto(q, x, n),
    decreases n,
{
    if n > 0 {
        lemma_eval_agrees(p, q, x, (n - 1) as nat);
    }
}

/// A polynomial of zeros is zero everywhere.
pub proof fn lemma_eval_zero(len: nat, x: int, n: nat)
    ensures
        eval_upto(zero_row(len), x, n) == 0,
    decreases n,
{
    if n > 0 {
        lemma_eval_zero(len, x, (n - 1) as nat);
        lemma_fmul_zero(fpow(x, (n - 1) as nat));
    }
}

proof fn lemma_eval_upto_add(a: Seq<int>, b: Seq<int>, x: int, n: nat)
    ensures
        eval_upto(poly_add(a, b), x, n) == fadd(eval_upto(a, x, n), eval_upto(b, x, n)),
    decreases n,
{
    if n > 0 {
        let m = (n - 1) as nat;
        lemma_eval_upto_add(a, b, x, m);
        let pw = fpow(x, m);
        lemma_fmul_fadd(pw, coeff(a, m as int), coeff(b, m as int));
        lemma_fadd_interchange(
            eval_upto(a, x, m),
            eval_upto(b, x, m),
            fmul(coeff(a, m as int), pw),
            fmul(coeff(b, m as int), pw),
        );
    }
}

proof fn lemma_eval_upto_sub(a: Seq<int>, b: Seq<int>, x: int, n: nat)
    ensures
        eval_upto(poly_sub(a, b), x, n) == fsub(eval_upto(a, x, n), eval_upto(b, x, n)),
    decreases n,
{
    if n > 0 {
        let m = (n - 1) as nat;
        lemma_eval_upto_sub(a, b, x, m);
        let pw = fpow(x, m);
        lemma_fmul_fsub(pw, coeff(a, m as int), coeff(b, m as int));
        lemma_fsub_interchange(
            eval_upto(a, x, m),
            eval_upto(b, x, m),
            fmul(coeff(a, m as int), pw),
            fmul(coeff(b, m as int), pw),
        );
    }
}

/// The value of a sum is the sum of the values.
pub proof fn lemma_eval_add(a: Seq<int>, b: Seq<int>, x: int)
    ensures
        poly_eval(poly_add(a, b), x) == fadd(poly_eval(a, x), poly_eval(b, x)),
{
    let n = poly_add(a, b).len();
    lemma_eval_upto_add(a, b, x, n);
    lemma_eval_beyond(a, x, n);
    lemma_eval_beyond(b, x, n);
}

/// The value of a difference is the difference of the values.
pub proof fn lemma_eval_sub(a: Seq<int>, b: Seq<int>, x: int)
    ensures
        poly_eval(poly_sub(a, b), x) == fsub(poly_eval(a, x), poly_eval(b, x)),
{
    let n = poly_sub(a, b).len();
    lemma_eval_upto_sub(a, b, x, n);
    lemma_eval_beyond(a, x, n);
    lemma_eval_beyond(b, x, n);
}

// ---------------------------------------------------------------------------
// Products
// ---------------------------------------------------------------------------

/// The product as far as the first `n` coefficients of `a` contribute to it.
pub open spec fn partial_product(a: Seq<int>, b: Seq<int>, n: nat) -> Seq<int> {
    Seq::new((a.len() + b.len() - 1) as nat, |k: int| conv(a, b, k, n))
}

/// `c * x^s * b`, cut or padded to `len` coefficients.
pub open spec fn shifted(c: int, s: int, b: Seq<int>, len: nat) -> Seq<int> {
    Seq::new(len, |k: int| fmul(c, coeff(b, k - s)))
}

proof fn lemma_eval_shifted(c: int, s: nat, b: Seq<int>, len: nat, x: int, n: nat)
    requires
        n <= len,
    ensures
        eval_upto(shifted(c, s as int, b, len), x, n) == if n <= s {
            0
        } else {
            fmul(fmul(c, fpow(x, s)), eval_upto(b, x, (n - s) as nat))
        },
    decreases n,
{
    if n > 0 {
        let k = (n - 1) as nat;
        lemma_eval_shifted(c, s, b, len, x, k);
        let sh = shifted(c, s as int, b, len);
        let cxs = fmul(c, fpow(x, s));
        if n <= s {
            lemma_fmul_zero(c);
            lemma_fmul_zero(fpow(x, k));
        } else {
            let j = (k - s) as nat;
            let bj = coeff(b, j as int);
            lemma_fpow_add(x, s, j);
            lemma_fmul_interchange(c, bj, fpow(x, s), fpow(x, j));
            assert(fmul(coeff(sh, k as int), fpow(x, k)) == fmul(cxs, fmul(bj, fpow(x, j))));
            lemma_fmul_fadd(cxs, eval_upto(b, x, j), fmul(bj, fpow(x, j)));
            if k == s {
                lemma_fmul_zero(cxs);
            }
        }
    }
}

proof fn lemma_eval_partial_product(a: Seq<int>, b: Seq<int>, x: int, n: nat)
    requires
        n <= a.len(),
        b.len() >= 1,
    ensures
        poly_eval(partial_product(a, b, n), x) == fmul(eval_upto(a, x, n), poly_eval(b, x)),
    decreases n,
{
    let len = (a.len() + b.len() - 1) as nat;
    let eb = poly_eval(b, x);
    if n == 0 {
        assert(partial_product(a, b, 0) =~= zero_row(len));
        lemma_eval_zero(len, x, len);
        lemma_fmul_zero(eb);
    } else {
        let m = (n - 1) as nat;
        lemma_eval_partial_product(a, b, x, m);
        let sh = shifted(a[m as int], m as int, b, len);
        assert(partial_product(a, b, n) =~= poly_add(partial_product(a, b, m), sh));
        lemma_eval_add(partial_product(a, b, m), sh, x);
        lemma_eval_shifted(a[m as int], m, b, len, x, len);
        lemma_eval_beyond(b, x, (len - m) as nat);
        lemma_fmul_fadd(eb, eval_upto(a, x, m), fmul(a[m as int], fpow(x, m)));
    }
}

/// The value of a product is the product of the values.
pub proof fn lemma_eval_mul(a: Seq<int>, b: Seq<int>, x: int)
    requires
        a.len() + b.len() >= 1,
    ensures
        poly_eval(poly_mul(a, b), x) == fmul(poly_eval(a, x), poly_eval(b, x)),
{
    if b.len() == 0 {
        let len = (a.len() - 1) as nat;
        assert forall|k: int| 0 <= k < len implies poly_mul(a, b)[k] == 0 by {
            lemma_conv_vanishes(a, b, k, a.len());
        }
        assert(poly_mul(a, b) =~= zero_row(len));
        lemma_eval_zero(len, x, len);
        lemma_fmul_zero(poly_eval(a, x));
    } else {
        assert(poly_mul(a, b) =~= partial_product(a, b, a.len()));
        lemma_eval_partial_product(a, b, x, a.len());
    }
}

// ---------------------------------------------------------------------------
// Constants, linear factors and their products
// ---------------------------------------------------------------------------

/// A constant polynomial has its constant as value.
pub proof fn lemma_eval_constant(c: int, x: int)
    requires
        is_felt(c),
    ensures
        poly_eval(seq![c], x) == c,
{
    let p = seq![c];
    assert(eval_upto(p, x, 1) == fadd(eval_upto(p, x, 0), fmul(coeff(p, 0), fpow(x, 0))));
    lemma_fmul_one(c);
    lemma_fadd_zero(c);
}

/// The value of `x - i`.
pub proof fn lemma_eval_linear(i: int, x: int)
    requires
        is_felt(x),
    ensures
        poly_eval(linear_factor(i), x) == fsub(x, i),
{
    let p = linear_factor(i);
    assert(eval_upto(p, x, 1) == fadd(eval_upto(p, x, 0), fmul(coeff(p, 0), fpow(x, 0))));
    assert(eval_upto(p, x, 2) == fadd(eval_upto(p, x, 1), fmul(coeff(p, 1), fpow(x, 1))));
    assert(fpow(x, 1) == fmul(fpow(x, 0), x));
    lemma_fmul_one(x);
    lemma_fadd_felt(i, 0);
    lemma_fmul_one(fneg(i));
    lemma_fadd_zero(fneg(i));
    lemma_fsub_is_fadd_fneg(x, i);
}

/// The value of a scaled product of linear factors.
pub proof fn lemma_eval_scaled_product(c: int, n: nat, skip: int, x: int)
    requires
        is_felt(c),
        is_felt(x),
    ensures
        poly_eval(scaled_product(c, n, skip), x) == fmul(c, product_at(x, n, skip)),
    decreases n,
{
    if n == 0 {
        lemma_eval_constant(c, x);
        lemma_fmul_one(c);
    } else {
        lemma_eval_scaled_product(c, (n - 1) as nat, skip, x);
        if n != skip {
            let prev = scaled_product(c, (n - 1) as nat, skip);
            lemma_eval_mul(prev, linear_factor(n as int), x);
            lemma_eval_linear(n as int, x);
            lemma_fmul_assoc(c, product_at(x, (n - 1) as nat, skip), fsub(x, n as int));
        }
    }
}

} // verus!
