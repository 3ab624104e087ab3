//! Dense univariate polynomials over the field: coefficient sequences in
//! ascending order of degree, with no trimming of leading zeros.

use vstd::prelude::*;
use crate::field::{
    Fp, fadd, fdiv, fmul, fpow, fsub, is_felt, lemma_fadd_assoc, lemma_fadd_comm, lemma_fadd_felt,
    lemma_fadd_fsub_cancel, lemma_fadd_zero, lemma_fdiv_fmul, lemma_fmul_zero, lemma_fsub_self,
    lemma_view_is_felt,
};
use crate::poly_laws::lemma_remainder_zero_iff_multiple;
use crate::vecs::{all_felt, zero_row, zero_vec};
use crate::Error;

verus! {

broadcast use lemma_view_is_felt;

// ---------------------------------------------------------------------------
// Models
// ---------------------------------------------------------------------------

/// The coefficient of `x^i`, zero outside the sequence.
pub open spec fn coeff(p: Seq<int>, i: int) -> int {
    if 0 <= i < p.len() {
        p[i]
    } else {
        0
    }
}

/// The longer of two lengths.
pub open spec fn longer(m: nat, n: nat) -> nat {
    if m >= n {
        m
    } else {
        n
    }
}

/// The sum: as long as the longer argument, coefficient by coefficient.
pub open spec fn poly_add(a: Seq<int>, b: Seq<int>) -> Seq<int> {
    Seq::new(longer(a.len(), b.len()), |i: int| fadd(coeff(a, i), coeff(b, i)))
}

/// The difference: as long as the longer argument, coefficient by coefficient.
pub open spec fn poly_sub(a: Seq<int>, b: Seq<int>) -> Seq<int> {
    Seq::new(longer(a.len(), b.len()), |i: int| fsub(coeff(a, i), coeff(b, i)))
}

/// The sum of `a[i] * b[k - i]` over `i < n`: what the first `n` coefficients
/// of `a` contribute to the coefficient of `x^k` in the product.
pub open spec fn conv(a: Seq<int>, b: Seq<int>, k: int, n: nat) -> int
    decreases n,
{
    if n == 0 {
        0
    } else {
        fadd(conv(a, b, k, (n - 1) as nat), fmul(a[n - 1], coeff(b, k - (n - 1))))
    }
}

/// The product, of length `|a| + |b| - 1`.
pub open spec fn poly_mul(a: Seq<int>, b: Seq<int>) -> Seq<int> {
    Seq::new((a.len() + b.len() - 1) as nat, |k: int| conv(a, b, k, a.len()))
}

/// `b` can divide `a`: it is not longer than `a` and its leading coefficient is not zero.
pub open spec fn divisible(a: Seq<int>, b: Seq<int>) -> bool {
    &&& b.len() > 0
    &&& a.len() >= b.len()
    &&& b.last() != 0
}

/// `q` and `r` are quotient and remainder of `a` by `b`: `a = q * b + r`, the
/// quotient has `|a| - |b| + 1` coefficients and the remainder `|b| - 1`.
pub open spec fn is_division(a: Seq<int>, b: Seq<int>, q: Seq<int>, r: Seq<int>) -> bool {
    &&& q.len() == a.len() - b.len() + 1
    &&& r.len() == b.len() - 1
    &&& all_felt(q)
    &&& all_felt(r)
    &&& poly_add(poly_mul(q, b), r) == a
}

/// The sum of `p[i] * x^i` over `i < n`.
pub open spec fn eval_upto(p: Seq<int>, x: int, n: nat) -> int
    decreases n,
{
    if n == 0 {
        0
    } else {
        fadd(eval_upto(p, x, (n - 1) as nat), fmul(coeff(p, n - 1), fpow(x, (n - 1) as nat)))
    }
}

/// The value of the polynomial at `x`.
pub open spec fn poly_eval(p: Seq<int>, x: int) -> int {
    eval_upto(p, x, p.len())
}

// ---------------------------------------------------------------------------
// Facts about the convolution sum
// ---------------------------------------------------------------------------

/// A convolution sum is a canonical representative.
pub proof fn lemma_conv_felt(a: Seq<int>, b: Seq<int>, k: int, n: nat)
    ensures
        is_felt(conv(a, b, k, n)),
    decreases n,
{
    if n > 0 {
        lemma_fadd_felt(conv(a, b, k, (n - 1) as nat), fmul(a[n - 1], coeff(b, k - (n - 1))));
    }
}

/// Terms whose factor from `a` or from `b` is zero add nothing.
pub proof fn lemma_conv_vanishes(a: Seq<int>, b: Seq<int>, k: int, n: nat)
    requires
        forall|i: int| 0 <= i < n ==> a[i] == 0 || coeff(b, k - i) == 0,
    ensures
        conv(a, b, k, n) == 0,
    decreases n,
{
    if n > 0 {
        lemma_conv_vanishes(a, b, k, (n - 1) as nat);
        lemma_fmul_zero(a[n - 1]);
        lemma_fmul_zero(coeff(b, k - (n - 1)));
    }
}

/// `(c + t) + (r - t) = c + r`.
pub proof fn lemma_move_term(c: int, r: int, t: int)
    requires
        is_felt(c),
        is_felt(r),
    ensures
        fadd(fadd(c, t), fsub(r, t)) == fadd(c, r),
{
    lemma_fadd_comm(c, t);
    lemma_fadd_assoc(t, c, fsub(r, t));
    lemma_fadd_comm(c, fsub(r, t));
    lemma_fadd_assoc(t, fsub(r, t), c);
    lemma_fadd_comm(t, fsub(r, t));
    lemma_fadd_fsub_cancel(r, t);
    lemma_fadd_comm(r, c);
}

/// Writing `f` over a zero coefficient at `pos` adds `f * b[k - pos]` to the sum.
pub proof fn lemma_conv_update(q: Seq<int>, b: Seq<int>, k: int, n: nat, pos: int, f: int)
    requires
        0 <= pos < q.len(),
        n <= q.len(),
        q[pos] == 0,
    ensures
        conv(q.update(pos, f), b, k, n) == if pos < n {
            fadd(conv(q, b, k, n), fmul(f, coeff(b, k - pos)))
        } else {
            conv(q, b, k, n)
        },
    decreases n,
{
    let q2 = q.update(pos, f);
    if n > 0 {
        let m = (n - 1) as nat;
        lemma_conv_update(q, b, k, m, pos, f);
        lemma_conv_felt(q, b, k, m);
        let t = fmul(f, coeff(b, k - pos));
        if pos == m {
            lemma_fmul_zero(coeff(b, k - m));
            lemma_fadd_zero(conv(q, b, k, m));
        } else if pos < m {
            let last = fmul(q[m as int], coeff(b, k - m));
            lemma_fadd_assoc(conv(q, b, k, m), t, last);
            lemma_fadd_comm(t, last);
            lemma_fadd_assoc(conv(q, b, k, m), last, t);
        }
    }
}

// ---------------------------------------------------------------------------
// The kernel
// ---------------------------------------------------------------------------

fn coeff_at(p: &Vec<Fp>, i: usize) -> (c: Fp)
    ensures
        c@ == coeff(p.deep_view(), i as int),
{
    if i < p.len() {
        p[i]
    } else {
        Fp::zero()
    }
}

/// The value of the polynomial at `x`.
pub fn eval_poly(p: &Vec<Fp>, x: &Fp) -> (y: Fp)
    ensures
        y@ == poly_eval(p.deep_view(), x@),
{
    let mut acc = Fp::zero();
    let mut power = Fp::one();
    let mut i: usize = 0;
    while i < p.len()
        invariant
            i <= p.len(),
            acc@ == eval_upto(p.deep_view(), x@, i as nat),
            power@ == fpow(x@, i as nat),
        decreases p.len() - i,
    {
        acc = acc.add(&p[i].mul(&power));
        power = power.mul(x);
        i += 1;
    }
    acc
}

/// The sum of two polynomials.
pub fn add_polys(a: &Vec<Fp>, b: &Vec<Fp>) -> (c: Vec<Fp>)
    ensures
        c.deep_view() == poly_add(a.deep_view(), b.deep_view()),
{
    let n = if a.len() >= b.len() {
        a.len()
    } else {
        b.len()
    };
    let mut o: Vec<Fp> = Vec::new();
    let mut i: usize = 0;
    while i < n
        invariant
            i <= n,
            n == longer(a.len() as nat, b.len() as nat),
            o.len() == i,
            forall|k: int|
                0 <= k < i ==> (#[trigger] o@[k])@ == fadd(
                    coeff(a.deep_view(), k),
                    coeff(b.deep_view(), k),
                ),
        decreases n - i,
    {
        let x = coeff_at(a, i).add(&coeff_at(b, i));
        o.push(x);
        i += 1;
    }
    assert(o.deep_view() =~= poly_add(a.deep_view(), b.deep_view()));
    o
}

/// The difference of two polynomials.
pub fn sub_polys(a: &Vec<Fp>, b: &Vec<Fp>) -> (c: Vec<Fp>)
    ensures
        c.deep_view() == poly_sub(a.deep_view(), b.deep_view()),
{
    let n = if a.len() >= b.len() {
        a.len()
    } else {
        b.len()
    };
    let mut o: Vec<Fp> = Vec::new();
    let mut i: usize = 0;
    while i < n
        invariant
            i <= n,
            n == longer(a.len() as nat, b.len() as nat),
            o.len() == i,
            forall|k: int|
                0 <= k < i ==> (#[trigger] o@[k])@ == fsub(
                    coeff(a.deep_view(), k),
                    coeff(b.deep_view(), k),
                ),
        decreases n - i,
    {
        let x = coeff_at(a, i).sub(&coeff_at(b, i));
        o.push(x);
        i += 1;
    }
    assert(o.deep_view() =~= poly_sub(a.deep_view(), b.deep_view()));
    o
}

/// The product of two polynomials, of which at least one is not empty.
pub fn mul_polys(a: &Vec<Fp>, b: &Vec<Fp>) -> (c: Vec<Fp>)
    requires
        a.len() + b.len() >= 1,
        a.len() + b.len() - 1 <= usize::MAX,
    ensures
        c.deep_view() == poly_mul(a.deep_view(), b.deep_view()),
{
    let n = if a.len() == 0 {
        b.len() - 1
    } else {
        a.len() - 1 + b.len()
    };
    let ghost av = a.deep_view();
    let ghost bv = b.deep_view();
    let mut o = zero_vec(n);
    proof {
        assert forall|k: int| 0 <= k < n implies (#[trigger] o@[k])@ == 0 by {
            assert(o.deep_view()[k] == 0);
        }
    }
    let mut i: usize = 0;
    while i < a.len()
        invariant
            i <= a.len(),
            n == a.len() + b.len() - 1,
            av == a.deep_view(),
            bv == b.deep_view(),
            o.len() == n,
            forall|k: int| 0 <= k < n ==> (#[trigger] o@[k])@ == conv(av, bv, k, i as nat),
        decreases a.len() - i,
    {
        let mut j: usize = 0;
        while j < b.len()
            invariant
                i < a.len(),
                j <= b.len(),
                n == a.len() + b.len() - 1,
                av == a.deep_view(),
                bv == b.deep_view(),
                o.len() == n,
                forall|k: int|
                    0 <= k < n ==> (#[trigger] o@[k])@ == if i <= k < i + j {
                        conv(av, bv, k, (i + 1) as nat)
                    } else {
                        conv(av, bv, k, i as nat)
                    },
            decreases b.len() - j,
        {
            let x = o[i + j].add(&a[i].mul(&b[j]));
            o.set(i + j, x);
            j += 1;
        }
        proof {
            assert forall|k: int| 0 <= k < n implies (#[trigger] o@[k])@ == conv(
                av,
                bv,
                k,
                (i + 1) as nat,
            ) by {
                if !(i <= k < i + b.len()) {
                    lemma_fmul_zero(av[i as int]);
                    lemma_conv_felt(av, bv, k, i as nat);
                    lemma_fadd_zero(conv(av, bv, k, i as nat));
                }
            }
        }
        i += 1;
    }
    assert(o.deep_view() =~= poly_mul(av, bv));
    o
}

/// Divides `a` by `b`, returning quotient and remainder.
///
/// The division is refused where the divisor is empty, longer than the
/// dividend, or has a zero leading coefficient. The remainder is zero exactly
/// where `a` is a multiple of `b`.
pub fn div_polys(a: &Vec<Fp>, b: &Vec<Fp>) -> (r: Result<(Vec<Fp>, Vec<Fp>), Error>)
    ensures
        match r {
            Ok(qr) => {
                &&& divisible(a.deep_view(), b.deep_view())
                &&& is_division(
                    a.deep_view(),
                    b.deep_view(),
                    qr.0.deep_view(),
                    qr.1.deep_view(),
                )
                &&& qr.1.deep_view() == zero_row(qr.1.len() as nat) <==> exists|x: Seq<int>|
                    all_felt(x) && x.len() == qr.0.len() && #[trigger] poly_mul(
                        x,
                        b.deep_view(),
                    ) == a.deep_view()
            },
            Err(Error::DivisionByZeroPoly) => !divisible(a.deep_view(), b.deep_view()),
            Err(_) => false,
        },
{
    let lb = b.len();
    let la = a.len();
    if lb == 0 || la < lb {
        return Err(Error::DivisionByZeroPoly);
    }
    let lead_inv = match b[lb - 1].inv() {
        Some(x) => x,
        None => { return Err(Error::DivisionByZeroPoly); },
    };
    let ghost av = a.deep_view();
    let ghost bv = b.deep_view();
    let lq = la - lb + 1;
    let mut q = zero_vec(lq);
    proof {
        assert forall|p: int| 0 <= p < lq implies (#[trigger] q@[p])@ == 0 by {
            assert(q.deep_view()[p] == 0);
        }
    }
    let mut rem: Vec<Fp> = Vec::new();
    let mut i: usize = 0;
    while i < la
        invariant
            i <= la,
            la == a.len(),
            rem.len() == i,
            forall|k: int| 0 <= k < i ==> #[trigger] rem@[k] == a@[k],
        decreases la - i,
    {
        rem.push(a[i]);
        i += 1;
    }
    proof {
        assert forall|k: int| 0 <= k < la implies av[k] == fadd(
            conv(q.deep_view(), bv, k, lq as nat),
            coeff(rem.deep_view(), k),
        ) by {
            lemma_conv_vanishes(q.deep_view(), bv, k, lq as nat);
            lemma_fadd_zero(av[k]);
        }
    }
    while rem.len() >= lb
        invariant
            lb == b.len(),
            la == a.len(),
            1 <= lb <= la,
            lq == la - lb + 1,
            av == a.deep_view(),
            bv == b.deep_view(),
            bv.last() != 0,
            lead_inv@ == crate::field::finv(bv.last()),
            lb - 1 <= rem.len() <= la,
            q.len() == lq,
            forall|p: int| 0 <= p <= rem.len() - lb ==> (#[trigger] q@[p])@ == 0,
            forall|k: int|
                0 <= k < la ==> #[trigger] av[k] == fadd(
                    conv(q.deep_view(), bv, k, lq as nat),
                    coeff(rem.deep_view(), k),
                ),
        decreases rem.len(),
    {
        let n = rem.len();
        let pos = n - lb;
        let f = rem[n - 1].mul(&lead_inv);
        let ghost q0 = q.deep_view();
        let ghost rem0 = rem.deep_view();
        q.set(pos, f);
        let mut j: usize = 0;
        while j < lb
            invariant
                j <= lb,
                lb == b.len(),
                n == pos + lb,
                rem.len() == n,
                rem0.len() == n,
                bv == b.deep_view(),
                forall|k: int|
                    0 <= k < n ==> (#[trigger] rem@[k])@ == if pos <= k < pos + j {
                        fsub(rem0[k], fmul(f@, bv[k - pos]))
                    } else {
                        rem0[k]
                    },
            decreases lb - j,
        {
            let x = rem[pos + j].sub(&f.mul(&b[j]));
            rem.set(pos + j, x);
            j += 1;
        }
        rem.pop();
        proof {
            let q1 = q.deep_view();
            let rem1 = rem.deep_view();
            assert(q1 =~= q0.update(pos as int, f@));
            assert(f@ == fdiv(rem0[n - 1], bv.last()));
            lemma_fdiv_fmul(rem0[n - 1], bv.last());
            lemma_fsub_self(rem0[n - 1]);
            assert forall|k: int| 0 <= k < la implies #[trigger] av[k] == fadd(
                conv(q1, bv, k, lq as nat),
                coeff(rem1, k),
            ) by {
                let c0 = conv(q0, bv, k, lq as nat);
                let t = fmul(f@, coeff(bv, k - pos));
                lemma_conv_update(q0, bv, k, lq as nat, pos as int, f@);
                lemma_conv_felt(q0, bv, k, lq as nat);
                assert(av[k] == fadd(c0, coeff(rem0, k)));
                if pos <= k < n {
                    lemma_move_term(c0, rem0[k], t);
                } else {
                    lemma_fmul_zero(f@);
                    lemma_fadd_zero(c0);
                }
            }
        }
    }
    proof {
        let qv = q.deep_view();
        let rv = rem.deep_view();
        assert forall|k: int| 0 <= k < la implies poly_add(poly_mul(qv, bv), rv)[k] == av[k] by {
            assert(poly_mul(qv, bv)[k] == conv(qv, bv, k, lq as nat));
        }
        assert(poly_add(poly_mul(qv, bv), rv) =~= av);
        lemma_remainder_zero_iff_multiple(av, bv, qv, rv);
    }
    Ok((q, rem))
}

} // verus!
