//! Laws of the polynomial kernel.

use vstd::prelude::*;
use crate::field::{
    fadd, fmul, is_felt, lemma_fadd_assoc, lemma_fadd_comm, lemma_fadd_felt,
    lemma_fadd_fsub_cancel, lemma_fadd_zero, lemma_fdiv_fmul, lemma_fsub_self,
};
use crate::poly::{
    coeff, conv, divisible, is_division, lemma_conv_felt,
    lemma_conv_vanishes, poly_add, poly_mul, poly_sub,
};
use crate::vecs::{all_felt, zero_row};

verus! {

/// Addition commutes.
pub proof fn lemma_poly_add_comm(a: Seq<int>, b: Seq<int>)
    ensures
        poly_add(a, b) == poly_add(b, a),
{
    assert(poly_add(a, b) =~= poly_add(b, a));
}

/// A polynomial minus itself is the zero polynomial of the same length.
pub proof fn lemma_poly_sub_self(a: Seq<int>)
    ensures
        poly_sub(a, a) == zero_row(a.len()),
{
    assert forall|i: int| 0 <= i < a.len() implies poly_sub(a, a)[i] == 0 by {
        lemma_fsub_self(a[i]);
    }
    assert(poly_sub(a, a) =~= zero_row(a.len()));
}

/// The product with a zero polynomial, on either side, is the zero polynomial.
pub proof fn lemma_poly_mul_zero(a: Seq<int>, n: nat)
    requires
        a.len() + n >= 1,
    ensures
        poly_mul(a, zero_row(n)) == zero_row((a.len() + n - 1) as nat),
        poly_mul(zero_row(n), a) == zero_row((a.len() + n - 1) as nat),
{
    let z = zero_row(n);
    assert forall|k: int| 0 <= k < a.len() + n - 1 implies poly_mul(a, z)[k] == 0 && poly_mul(
        z,
        a,
    )[k] == 0 by {
        lemma_conv_vanishes(a, z, k, a.len());
        lemma_conv_vanishes(z, a, k, n);
    }
    assert(poly_mul(a, z) =~= zero_row((a.len() + n - 1) as nat));
    assert(poly_mul(z, a) =~= zero_row((a.len() + n - 1) as nat));
}

/// What is added to the same element and gives the same sum is the same.
pub proof fn lemma_fadd_cancel(x: int, y: int, t: int)
    requires
        is_felt(x),
        is_felt(y),
        fadd(x, t) == fadd(y, t),
    ensures
        x == y,
{
    lemma_fadd_fsub_cancel(x, t);
    lemma_fadd_fsub_cancel(y, t);
}

/// The sum of `a[i] * b[k - i]` over `lo <= i < n`.
pub open spec fn conv_from(a: Seq<int>, b: Seq<int>, k: int, lo: nat, n: nat) -> int
    decreases n,
{
    if n <= lo {
        0
    } else {
        fadd(conv_from(a, b, k, lo, (n - 1) as nat), fmul(a[n - 1], coeff(b, k - (n - 1))))
    }
}

/// The sum over `i < n` is the sum over `i < lo` plus the sum over `lo <= i < n`.
pub proof fn lemma_conv_split(a: Seq<int>, b: Seq<int>, k: int, lo: nat, n: nat)
    requires
        lo <= n,
    ensures
        conv(a, b, k, n) == fadd(conv(a, b, k, lo), conv_from(a, b, k, lo, n)),
    decreases n,
{
    if n == lo {
        lemma_conv_felt(a, b, k, lo);
        lemma_fadd_zero(conv(a, b, k, lo));
    } else {
        lemma_conv_split(a, b, k, lo, (n - 1) as nat);
        lemma_fadd_assoc(
            conv(a, b, k, lo),
            conv_from(a, b, k, lo, (n - 1) as nat),
            fmul(a[n - 1], coeff(b, k - (n - 1))),
        );
    }
}

proof fn lemma_conv_from_agrees(a1: Seq<int>, a2: Seq<int>, b: Seq<int>, k: int, lo: nat, n: nat)
    requires
        forall|i: int| lo <= i < n ==> a1[i] == a2[i],
    ensures
        conv_from(a1, b, k, lo, n) == conv_from(a2, b, k, lo, n),
    decreases n,
{
    if n > lo {
        lemma_conv_from_agrees(a1, a2, b, k, lo, (n - 1) as nat);
    }
}

proof fn lemma_quotients_agree_from(
    a: Seq<int>,
    b: Seq<int>,
    q1: Seq<int>,
    r1: Seq<int>,
    q2: Seq<int>,
    r2: Seq<int>,
    m: nat,
)
    requires
        divisible(a, b),
        is_felt(b.last()),
        is_division(a, b, q1, r1),
        is_division(a, b, q2, r2),
        m <= q1.len(),
    ensures
        forall|i: int| m <= i < q1.len() ==> q1[i] == q2[i],
    decreases q1.len() - m,
{
    let lq = q1.len();
    let lb = b.len();
    if m < lq {
        lemma_quotients_agree_from(a, b, q1, r1, q2, r2, m + 1);
        let k = m + lb - 1;
        let top = b.last();
        // the coefficient of x^k in both products
        let c1 = conv(q1, b, k, lq);
        let c2 = conv(q2, b, k, lq);
        assert(poly_add(poly_mul(q1, b), r1)[k] == a[k]);
        assert(poly_add(poly_mul(q2, b), r2)[k] == a[k]);
        assert(poly_mul(q1, b)[k] == c1);
        assert(poly_mul(q2, b)[k] == c2);
        lemma_conv_felt(q1, b, k, lq);
        lemma_conv_felt(q2, b, k, lq);
        lemma_fadd_zero(c1);
        lemma_fadd_zero(c2);
        assert(c1 == c2);
        // split each at m + 1
        lemma_conv_split(q1, b, k, m + 1, lq);
        lemma_conv_split(q2, b, k, m + 1, lq);
        lemma_conv_from_agrees(q1, q2, b, k, m + 1, lq);
        lemma_conv_vanishes(q1, b, k, m);
        lemma_conv_vanishes(q2, b, k, m);
        let x1 = fmul(q1[m as int], top);
        let x2 = fmul(q2[m as int], top);
        lemma_fadd_felt(0, x1);
        lemma_fadd_felt(0, x2);
        lemma_fadd_felt(q1[m as int], top);
        lemma_fadd_felt(q2[m as int], top);
        lemma_fadd_zero(x1);
        lemma_fadd_zero(x2);
        assert(conv(q1, b, k, m + 1) == x1);
        assert(conv(q2, b, k, m + 1) == x2);
        lemma_fadd_cancel(x1, x2, conv_from(q1, b, k, m + 1, lq));
        lemma_fdiv_fmul(q1[m as int], top);
        lemma_fdiv_fmul(q2[m as int], top);
    }
}

/// Quotient and remainder are unique: two divisions of `a` by `b` are the same.
pub proof fn lemma_division_unique(
    a: Seq<int>,
    b: Seq<int>,
    q1: Seq<int>,
    r1: Seq<int>,
    q2: Seq<int>,
    r2: Seq<int>,
)
    requires
        divisible(a, b),
        is_felt(b.last()),
        is_division(a, b, q1, r1),
        is_division(a, b, q2, r2),
    ensures
        q1 == q2,
        r1 == r2,
{
    lemma_quotients_agree_from(a, b, q1, r1, q2, r2, 0);
    assert(q1 =~= q2);
    assert forall|k: int| 0 <= k < r1.len() implies r1[k] == r2[k] by {
        let c = conv(q1, b, k, q1.len());
        assert(poly_add(poly_mul(q1, b), r1)[k] == a[k]);
        assert(poly_add(poly_mul(q2, b), r2)[k] == a[k]);
        assert(poly_mul(q1, b)[k] == c);
        lemma_fadd_comm(c, r1[k]);
        lemma_fadd_comm(c, r2[k]);
        lemma_fadd_cancel(r1[k], r2[k], c);
    }
    assert(r1 =~= r2);
}

/// Dividing a product by one of its factors gives back the other factor, with
/// a zero remainder: whatever divides `a * b` by `b` has quotient `a` and a
/// remainder of zeros.
pub proof fn lemma_div_of_product(a: Seq<int>, b: Seq<int>, q: Seq<int>, r: Seq<int>)
    requires
        a.len() >= 1,
        b.len() >= 1,
        all_felt(a),
        is_felt(b.last()),
        b.last() != 0,
        is_division(poly_mul(a, b), b, q, r),
    ensures
        q == a,
        r == zero_row((b.len() - 1) as nat),
{
    let p = poly_mul(a, b);
    let z = zero_row((b.len() - 1) as nat);
    assert forall|k: int| 0 <= k < p.len() implies poly_add(poly_mul(a, b), z)[k] == p[k] by {
        lemma_conv_felt(a, b, k, a.len());
        lemma_fadd_zero(p[k]);
    }
    assert(poly_add(poly_mul(a, b), z) =~= p);
    assert(is_division(p, b, a, z));
    lemma_division_unique(p, b, q, r, a, z);
}

/// The remainder is zero exactly where the dividend is a multiple of the divisor.
pub proof fn lemma_remainder_zero_iff_multiple(a: Seq<int>, b: Seq<int>, q: Seq<int>, r: Seq<int>)
    requires
        divisible(a, b),
        is_felt(b.last()),
        is_division(a, b, q, r),
    ensures
        r == zero_row(r.len()) <==> exists|x: Seq<int>|
            all_felt(x) && x.len() == q.len() && #[trigger] poly_mul(x, b) == a,
{
    let z = zero_row(r.len());
    if r == z {
        assert forall|k: int| 0 <= k < a.len() implies poly_mul(q, b)[k] == a[k] by {
            assert(poly_add(poly_mul(q, b), r)[k] == a[k]);
            lemma_conv_felt(q, b, k, q.len());
            lemma_fadd_zero(poly_mul(q, b)[k]);
        }
        assert(poly_mul(q, b) =~= a);
    }
    if exists|x: Seq<int>| all_felt(x) && x.len() == q.len() && #[trigger] poly_mul(x, b) == a {
        let x = choose|x: Seq<int>|
            all_felt(x) && x.len() == q.len() && #[trigger] poly_mul(x, b) == a;
        assert forall|k: int| 0 <= k < a.len() implies poly_add(poly_mul(x, b), z)[k] == a[k] by {
            lemma_conv_felt(x, b, k, x.len());
            lemma_fadd_zero(poly_mul(x, b)[k]);
        }
        assert(poly_add(poly_mul(x, b), z) =~= a);
        lemma_division_unique(a, b, q, r, x, z);
    }
}

} // verus!
