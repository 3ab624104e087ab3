//! The scalar field of the library: integers modulo the Mersenne prime 2^31 - 1.
//!
//! Every coefficient, witness value and polynomial coefficient of the pipeline is
//! an element of this field, so that all arithmetic is exact. The mathematical
//! model of an element is its canonical representative, an `int` in `0..modulus()`.

use vstd::prelude::*;
use vstd::arithmetic::div_mod::*;
use vstd::arithmetic::mul::*;
use vstd::std_specs::cmp::PartialEqSpecImpl;

verus! {

/// The field's modulus, the prime 2^31 - 1.
pub const MODULUS: u64 = 2147483647;

/// The modulus as a mathematical integer.
pub open spec fn modulus() -> int {
    2147483647
}

/// `a` is a canonical representative.
pub open spec fn is_felt(a: int) -> bool {
    0 <= a < modulus()
}

/// Sum in the field.
pub open spec fn fadd(a: int, b: int) -> int {
    (a + b) % modulus()
}

/// Difference in the field.
pub open spec fn fsub(a: int, b: int) -> int {
    (a - b) % modulus()
}

/// Additive inverse in the field.
pub open spec fn fneg(a: int) -> int {
    (-a) % modulus()
}

/// Product in the field.
pub open spec fn fmul(a: int, b: int) -> int {
    (a * b) % modulus()
}

/// `x` is the multiplicative inverse of `a`.
pub open spec fn is_inverse(a: int, x: int) -> bool {
    is_felt(x) && fmul(a, x) == 1
}

/// The multiplicative inverse of a non-zero element (see `lemma_finv`).
pub open spec fn finv(a: int) -> int {
    choose|x: int| is_inverse(a, x)
}

/// Quotient in the field: `a` times the inverse of `b`.
pub open spec fn fdiv(a: int, b: int) -> int {
    fmul(a, finv(b))
}

/// The field element that an integer stands for.
pub open spec fn felt(a: int) -> int {
    a % modulus()
}

/// `x` to the power `n`.
pub open spec fn fpow(x: int, n: nat) -> int
    decreases n,
{
    if n == 0 {
        1
    } else {
        fmul(fpow(x, (n - 1) as nat), x)
    }
}

// ---------------------------------------------------------------------------
// Ring laws
// ---------------------------------------------------------------------------

/// The operations do not tell an integer from the element it stands for.
pub proof fn lemma_felt_arguments(a: int, b: int)
    ensures
        fadd(felt(a), felt(b)) == fadd(a, b),
        fsub(felt(a), felt(b)) == fsub(a, b),
        fmul(felt(a), felt(b)) == fmul(a, b),
        fneg(felt(a)) == fneg(a),
        fadd(a, felt(b)) == fadd(a, b),
        fsub(a, felt(b)) == fsub(a, b),
        fmul(a, felt(b)) == fmul(a, b),
        fadd(felt(a), b) == fadd(a, b),
        fsub(felt(a), b) == fsub(a, b),
        fmul(felt(a), b) == fmul(a, b),
{
    lemma_add_mod_noop(a, b, modulus());
    lemma_sub_mod_noop(a, b, modulus());
    lemma_mul_mod_noop(a, b, modulus());
    lemma_sub_mod_noop_right(0, a, modulus());
    lemma_add_mod_noop_right(a, b, modulus());
    lemma_sub_mod_noop_right(a, b, modulus());
    lemma_mul_mod_noop_right(a, b, modulus());
    lemma_add_mod_noop_right(b, a, modulus());
    lemma_mul_mod_noop_left(a, b, modulus());
    lemma_sub_mod_noop(a, b, modulus());
    lemma_mod_twice(a, modulus());
    lemma_mod_twice(b, modulus());
    lemma_sub_mod_noop(felt(a), b, modulus());
}

/// The results of the operations are canonical representatives.
pub proof fn lemma_fadd_felt(a: int, b: int)
    ensures
        is_felt(fadd(a, b)),
        is_felt(fsub(a, b)),
        is_felt(fmul(a, b)),
        is_felt(fneg(a)),
{
    lemma_mod_bound(a + b, modulus());
    lemma_mod_bound(a - b, modulus());
    lemma_mod_bound(a * b, modulus());
    lemma_mod_bound(-a, modulus());
}

/// `a + b = b + a`.
pub proof fn lemma_fadd_comm(a: int, b: int)
    ensures
        fadd(a, b) == fadd(b, a),
{
}

/// `(a + b) + c = a + (b + c)`.
pub proof fn lemma_fadd_assoc(a: int, b: int, c: int)
    ensures
        fadd(fadd(a, b), c) == fadd(a, fadd(b, c)),
{
    lemma_add_mod_noop_right(c, a + b, modulus());
    lemma_add_mod_noop_right(a, b + c, modulus());
    assert(c + (a + b) == a + (b + c));
}

/// `a + 0 = a`, `0 + a = a` and `a - 0 = a`.
pub proof fn lemma_fadd_zero(a: int)
    requires
        is_felt(a),
    ensures
        fadd(a, 0) == a,
        fadd(0, a) == a,
        fsub(a, 0) == a,
{
    lemma_small_mod(a as nat, modulus() as nat);
}

/// `a * b = b * a`.
pub proof fn lemma_fmul_comm(a: int, b: int)
    ensures
        fmul(a, b) == fmul(b, a),
{
    lemma_mul_is_commutative(a, b);
}

/// `(a * b) * c = a * (b * c)`.
pub proof fn lemma_fmul_assoc(a: int, b: int, c: int)
    ensures
        fmul(fmul(a, b), c) == fmul(a, fmul(b, c)),
{
    lemma_mul_mod_noop_left(a * b, c, modulus());
    lemma_mul_mod_noop_right(a, b * c, modulus());
    lemma_mul_is_associative(a, b, c);
}

/// `a * 1 = a` and `1 * a = a`.
pub proof fn lemma_fmul_one(a: int)
    requires
        is_felt(a),
    ensures
        fmul(a, 1) == a,
        fmul(1, a) == a,
{
    lemma_small_mod(a as nat, modulus() as nat);
    assert(a * 1 == a);
    assert(1 * a == a);
}

/// `a * 0 = 0` and `0 * a = 0`.
pub proof fn lemma_fmul_zero(a: int)
    ensures
        fmul(a, 0) == 0,
        fmul(0, a) == 0,
{
    assert(a * 0 == 0);
    assert(0 * a == 0);
}

/// `a * (b + c) = a * b + a * c`, from either side.
pub proof fn lemma_fmul_fadd(a: int, b: int, c: int)
    ensures
        fmul(a, fadd(b, c)) == fadd(fmul(a, b), fmul(a, c)),
        fmul(fadd(b, c), a) == fadd(fmul(b, a), fmul(c, a)),
{
    lemma_mul_mod_noop_right(a, b + c, modulus());
    lemma_mul_is_distributive_add(a, b, c);
    lemma_add_mod_noop(a * b, a * c, modulus());
    lemma_fmul_comm(a, fadd(b, c));
    lemma_fmul_comm(a, b);
    lemma_fmul_comm(a, c);
}

/// `a * (b - c) = a * b - a * c`, from either side.
pub proof fn lemma_fmul_fsub(a: int, b: int, c: int)
    ensures
        fmul(a, fsub(b, c)) == fsub(fmul(a, b), fmul(a, c)),
        fmul(fsub(b, c), a) == fsub(fmul(b, a), fmul(c, a)),
{
    lemma_mul_mod_noop_right(a, b - c, modulus());
    lemma_mul_is_distributive_sub(a, b, c);
    lemma_sub_mod_noop(a * b, a * c, modulus());
    lemma_fmul_comm(a, fsub(b, c));
    lemma_fmul_comm(a, b);
    lemma_fmul_comm(a, c);
}

/// `a * (-b) = -(a * b)`, from either side.
pub proof fn lemma_fmul_fneg(a: int, b: int)
    ensures
        fmul(a, fneg(b)) == fneg(fmul(a, b)),
        fmul(fneg(b), a) == fneg(fmul(a, b)),
{
    lemma_mul_mod_noop_right(a, -b, modulus());
    lemma_sub_mod_noop_right(0, a * b, modulus());
    assert(a * (-b) == -(a * b)) by (nonlinear_arith);
    lemma_fmul_comm(a, fneg(b));
}

/// Subtracting is adding the negation.
pub proof fn lemma_fsub_is_fadd_fneg(a: int, b: int)
    ensures
        fsub(a, b) == fadd(a, fneg(b)),
{
    lemma_add_mod_noop_right(a, -b, modulus());
}

/// `a - a = 0` and `a + (-a) = 0`.
pub proof fn lemma_fsub_self(a: int)
    ensures
        fsub(a, a) == 0,
        fadd(a, fneg(a)) == 0,
{
    lemma_fsub_is_fadd_fneg(a, a);
}

/// Adding and then subtracting the same element changes nothing.
pub proof fn lemma_fadd_fsub_cancel(a: int, b: int)
    requires
        is_felt(a),
    ensures
        fsub(fadd(a, b), b) == a,
        fadd(fsub(a, b), b) == a,
{
    lemma_sub_mod_noop(a + b, b, modulus());
    lemma_mod_twice(a + b, modulus());
    lemma_sub_mod_noop(a + b, b, modulus());
    lemma_add_mod_noop(a - b, b, modulus());
    lemma_mod_twice(a - b, modulus());
    lemma_small_mod(a as nat, modulus() as nat);
    assert((a + b) - b == a);
    assert((a - b) + b == a);
    lemma_sub_mod_noop_right(fadd(a, b), b, modulus());
    lemma_add_mod_noop_right(fsub(a, b), b, modulus());
    lemma_add_mod_noop_right(-b, a + b, modulus());
    lemma_add_mod_noop_right(b, a - b, modulus());
}

/// If `a - b` is zero in the field then `a` and `b` are the same element.
pub proof fn lemma_fsub_zero_eq(a: int, b: int)
    requires
        is_felt(a),
        is_felt(b),
        fsub(a, b) == 0,
    ensures
        a == b,
{
    lemma_fadd_fsub_cancel(a, b);
    lemma_fadd_zero(b);
}

// ---------------------------------------------------------------------------
// Primality of the modulus and multiplicative inverses
// ---------------------------------------------------------------------------

#[verifier::rlimit(100)]
proof fn lemma_no_factor_pair(d: u64, e: u64)
    requires
        1 < d < 65536,
        1 < e < 2147483647,
    ensures
        d * e != 2147483647,
{
    assert(1 < d && d < 65536 && 1 < e && e < 2147483647 ==> d * e != 2147483647)
        by (bit_vector);
}

/// The modulus is prime: nothing strictly between 1 and the modulus divides it.
pub proof fn lemma_modulus_prime(d: int)
    requires
        1 < d < modulus(),
    ensures
        modulus() % d != 0,
{
    if modulus() % d == 0 {
        let e = modulus() / d;
        lemma_fundamental_div_mod(modulus(), d);
        assert(modulus() == d * e);
        assert(1 < e < modulus()) by (nonlinear_arith)
            requires
                1 < d < 2147483647,
                d * e == 2147483647,
        ;
        if d < 65536 {
            lemma_no_factor_pair(d as u64, e as u64);
        } else {
            assert(e < 65536) by (nonlinear_arith)
                requires
                    65536 <= d,
                    0 < e,
                    d * e == 2147483647,
            ;
            lemma_mul_is_commutative(d, e);
            lemma_no_factor_pair(e as u64, d as u64);
        }
    }
}

/// Greatest common divisor, by Euclid's recursion.
pub open spec fn gcd(a: nat, b: nat) -> nat
    decreases b,
{
    if b == 0 {
        a
    } else {
        gcd(b, a % b)
    }
}

proof fn lemma_gcd_divides(a: nat, b: nat)
    requires
        a > 0 || b > 0,
    ensures
        gcd(a, b) > 0,
        a % gcd(a, b) == 0,
        b % gcd(a, b) == 0,
    decreases b,
{
    if b == 0 {
        lemma_mod_self_0(a as int);
        lemma_small_mod(0, a);
    } else {
        lemma_mod_bound(a as int, b as int);
        lemma_gcd_divides(b, a % b);
        let g = gcd(a, b) as int;
        let k = (b as int) / g;
        lemma_fundamental_div_mod(b as int, g);
        lemma_fundamental_div_mod(a as int, b as int);
        let q = (a as int) / (b as int);
        assert(b * q == g * (k * q)) by {
            lemma_mul_is_associative(g, k, q);
        }
        lemma_mod_multiples_vanish(k * q, (a % b) as int, g);
        assert(a as int == g * (k * q) + (a % b) as int);
    }
}

proof fn lemma_gcd_with_modulus(a: int)
    requires
        is_felt(a),
        a != 0,
    ensures
        gcd(modulus() as nat, a as nat) == 1,
{
    let g = gcd(modulus() as nat, a as nat) as int;
    lemma_gcd_divides(modulus() as nat, a as nat);
    if g > a {
        lemma_small_mod(a as nat, g as nat);
    }
    if g > 1 {
        lemma_modulus_prime(g);
    }
}

/// The coefficient that the extended Euclidean algorithm carries for the
/// remainder `r0`, reduced into the field at every step.
pub closed spec fn euclid_coeff(r0: nat, r1: nat, s0: int, s1: int) -> int
    decreases r1,
{
    if r1 == 0 {
        s0
    } else {
        euclid_coeff(r1, r0 % r1, s1, fsub(s0, fmul((r0 / r1) as int, s1)))
    }
}

proof fn lemma_euclid_step(a: int, r0: nat, r1: nat, s0: int, s1: int)
    requires
        r1 > 0,
        fmul(a, s0) == (r0 as int) % modulus(),
        fmul(a, s1) == (r1 as int) % modulus(),
    ensures
        fmul(a, fsub(s0, fmul((r0 / r1) as int, s1))) == ((r0 % r1) as int) % modulus(),
{
    let q = (r0 / r1) as int;
    lemma_fmul_fsub(a, s0, fmul(q, s1));
    lemma_fmul_assoc(a, q, s1);
    lemma_fmul_comm(a, q);
    lemma_fmul_assoc(q, a, s1);
    assert(fmul(a, fmul(q, s1)) == fmul(q, fmul(a, s1)));
    lemma_mul_mod_noop_right(q, r1 as int, modulus());
    lemma_sub_mod_noop(r0 as int, q * r1, modulus());
    lemma_fundamental_div_mod(r0 as int, r1 as int);
    lemma_mul_is_commutative(q, r1 as int);
}

proof fn lemma_euclid(a: int, r0: nat, r1: nat, s0: int, s1: int)
    requires
        is_felt(s0),
        is_felt(s1),
        fmul(a, s0) == (r0 as int) % modulus(),
        fmul(a, s1) == (r1 as int) % modulus(),
    ensures
        is_felt(euclid_coeff(r0, r1, s0, s1)),
        fmul(a, euclid_coeff(r0, r1, s0, s1)) == (gcd(r0, r1) as int) % modulus(),
    decreases r1,
{
    if r1 != 0 {
        let s2 = fsub(s0, fmul((r0 / r1) as int, s1));
        lemma_euclid_step(a, r0, r1, s0, s1);
        lemma_fadd_felt(s0, fmul((r0 / r1) as int, s1));
        lemma_mod_bound(r0 as int, r1 as int);
        lemma_euclid(a, r1, r0 % r1, s1, s2);
    }
}

proof fn lemma_euclid_inverse(a: int)
    requires
        is_felt(a),
        a != 0,
    ensures
        is_inverse(a, euclid_coeff(modulus() as nat, a as nat, 0, 1)),
{
    lemma_fmul_zero(a);
    lemma_fmul_one(a);
    lemma_mod_self_0(modulus());
    lemma_small_mod(a as nat, modulus() as nat);
    lemma_euclid(a, modulus() as nat, a as nat, 0, 1);
    lemma_gcd_with_modulus(a);
    lemma_small_mod(1, modulus() as nat);
}

/// An element has at most one inverse.
pub proof fn lemma_inverse_unique(a: int, x: int, y: int)
    requires
        is_inverse(a, x),
        is_inverse(a, y),
    ensures
        x == y,
{
    lemma_fmul_one(x);
    lemma_fmul_one(y);
    lemma_fmul_assoc(x, a, y);
    lemma_fmul_comm(x, a);
}

/// Every non-zero element has an inverse, and `finv` is it.
pub proof fn lemma_finv(a: int)
    requires
        is_felt(a),
        a != 0,
    ensures
        is_felt(finv(a)),
        fmul(a, finv(a)) == 1,
        fmul(finv(a), a) == 1,
{
    lemma_euclid_inverse(a);
    lemma_fmul_comm(a, finv(a));
}

/// Dividing by a non-zero element undoes multiplying by it, and the other way round.
pub proof fn lemma_fdiv_fmul(a: int, b: int)
    requires
        is_felt(a),
        is_felt(b),
        b != 0,
    ensures
        fmul(fdiv(a, b), b) == a,
        fdiv(fmul(a, b), b) == a,
{
    lemma_finv(b);
    lemma_fmul_assoc(a, finv(b), b);
    lemma_fmul_assoc(a, b, finv(b));
    lemma_fmul_one(a);
}

/// The field has no zero divisors.
pub proof fn lemma_no_zero_divisors(a: int, b: int)
    requires
        is_felt(a),
        is_felt(b),
        fmul(a, b) == 0,
    ensures
        a == 0 || b == 0,
{
    if b != 0 {
        lemma_fdiv_fmul(a, b);
        lemma_fmul_zero(finv(b));
    }
}

// ---------------------------------------------------------------------------
// The executable element type
// ---------------------------------------------------------------------------

/// An element of the field. Its view is the canonical representative.
#[derive(Clone, Copy, Debug)]
pub struct Fp {
    v: u64,
}

impl View for Fp {
    type V = int;

    closed spec fn view(&self) -> int {
        (self.v as int) % modulus()
    }
}

impl DeepView for Fp {
    type V = int;

    open spec fn deep_view(&self) -> int {
        self@
    }
}

/// The view of an element is always a canonical representative.
pub broadcast proof fn lemma_view_is_felt(x: Fp)
    ensures
        is_felt(#[trigger] x.view()),
{
    lemma_mod_bound(x.v as int, modulus());
}

impl PartialEq for Fp {
    fn eq(&self, other: &Self) -> (r: bool) {
        self.v % MODULUS == other.v % MODULUS
    }
}

impl PartialEqSpecImpl for Fp {
    open spec fn obeys_eq_spec() -> bool {
        true
    }

    open spec fn eq_spec(&self, other: &Self) -> bool {
        self@ == other@
    }
}

impl Fp {
    /// The element that `v` reduces to.
    pub fn new(v: u64) -> (r: Fp)
        ensures
            r@ == (v as int) % modulus(),
    {
        Fp { v: v % MODULUS }
    }

    /// The element that a signed integer reduces to; `-1` becomes `modulus() - 1`.
    pub fn from_i64(x: i64) -> (r: Fp)
        ensures
            r@ == (x as int) % modulus(),
    {
        let m: i64 = 2147483647;
        let t: i64 = x % m;
        let u: i64 = if t < 0 {
            t + m
        } else {
            t
        };
        proof {
            lemma_small_mod(u as nat, modulus() as nat);
            if x >= 0 {
                assert(t == (x as int) % modulus());
            } else {
                assert(t == -((-(x as int)) % modulus()));
                lemma_fundamental_div_mod(-(x as int), modulus());
                let q = (-(x as int)) / modulus();
                if t < 0 {
                    lemma_fundamental_div_mod_converse_mod(x as int, modulus(), -q - 1, u as int);
                } else {
                    lemma_fundamental_div_mod_converse_mod(x as int, modulus(), -q, u as int);
                }
            }
        }
        Fp { v: u as u64 }
    }

    /// The additive identity.
    pub fn zero() -> (r: Fp)
        ensures
            r@ == 0,
    {
        Fp { v: 0 }
    }

    /// The multiplicative identity.
    pub fn one() -> (r: Fp)
        ensures
            r@ == 1,
    {
        Fp { v: 1 }
    }

    /// The canonical representative, below the modulus.
    pub fn value(&self) -> (r: u64)
        ensures
            r as int == self@,
    {
        self.v % MODULUS
    }

    /// The representative of least absolute value: elements above half the
    /// modulus read as negative numbers.
    pub fn to_i64(&self) -> (r: i64)
        ensures
            felt(r as int) == self@,
            -(modulus() / 2) <= r <= modulus() / 2,
    {
        let v: u64 = self.v % MODULUS;
        if v > MODULUS / 2 {
            let r: i64 = (v as i64) - (MODULUS as i64);
            proof {
                lemma_mod_add_multiples_vanish(r as int, modulus());
                lemma_small_mod(v as nat, modulus() as nat);
            }
            r
        } else {
            proof {
                lemma_small_mod(v as nat, modulus() as nat);
            }
            v as i64
        }
    }

    /// Whether the element is zero.
    pub fn is_zero(&self) -> (r: bool)
        ensures
            r == (self@ == 0),
    {
        self.v % MODULUS == 0
    }

    /// The sum.
    pub fn add(&self, rhs: &Fp) -> (r: Fp)
        ensures
            r@ == fadd(self@, rhs@),
    {
        let a: u64 = self.v % MODULUS;
        let b: u64 = rhs.v % MODULUS;
        let c: u64 = (a + b) % MODULUS;
        proof {
            lemma_mod_twice(a as int + b as int, modulus());
        }
        Fp { v: c }
    }

    /// The difference.
    pub fn sub(&self, rhs: &Fp) -> (r: Fp)
        ensures
            r@ == fsub(self@, rhs@),
    {
        let a: u64 = self.v % MODULUS;
        let b: u64 = rhs.v % MODULUS;
        let c: u64 = (a + (MODULUS - b)) % MODULUS;
        proof {
            lemma_mod_twice(a as int + (modulus() - b as int), modulus());
            lemma_mod_add_multiples_vanish(a as int - b as int, modulus());
        }
        Fp { v: c }
    }

    /// The additive inverse.
    pub fn neg(&self) -> (r: Fp)
        ensures
            r@ == fneg(self@),
    {
        let a: u64 = self.v % MODULUS;
        let c: u64 = (MODULUS - a) % MODULUS;
        proof {
            lemma_mod_twice(modulus() - a as int, modulus());
            lemma_mod_add_multiples_vanish(-(a as int), modulus());
        }
        Fp { v: c }
    }

    /// The product.
    pub fn mul(&self, rhs: &Fp) -> (r: Fp)
        ensures
            r@ == fmul(self@, rhs@),
    {
        let a: u64 = self.v % MODULUS;
        let b: u64 = rhs.v % MODULUS;
        assert(a * b < 0x4000_0000_0000_0000) by (nonlinear_arith)
            requires
                a < 0x8000_0000,
                b < 0x8000_0000,
        ;
        let c: u64 = (a * b) % MODULUS;
        proof {
            lemma_mod_twice(a as int * b as int, modulus());
        }
        Fp { v: c }
    }

    /// The multiplicative inverse; zero has none.
    pub fn inv(&self) -> (r: Option<Fp>)
        ensures
            r is None <==> self@ == 0,
            r is Some ==> r->Some_0@ == finv(self@),
    {
        let a: u64 = self.v % MODULUS;
        if a == 0 {
            return None;
        }
        let mut r0: u64 = MODULUS;
        let mut r1: u64 = a;
        let mut s0: Fp = Fp::zero();
        let mut s1: Fp = Fp::one();
        while r1 != 0
            invariant
                a as int == self@,
                euclid_coeff(r0 as nat, r1 as nat, s0@, s1@) == euclid_coeff(
                    modulus() as nat,
                    a as nat,
                    0,
                    1,
                ),
            decreases r1,
        {
            let q: u64 = r0 / r1;
            let r2: u64 = r0 % r1;
            let s2 = s0.sub(&Fp::new(q).mul(&s1));
            proof {
                lemma_mul_mod_noop_left(q as int, s1@, modulus());
            }
            r0 = r1;
            r1 = r2;
            s0 = s1;
            s1 = s2;
        }
        proof {
            lemma_euclid_inverse(a as int);
            lemma_finv(a as int);
            lemma_view_is_felt(s0);
            lemma_inverse_unique(a as int, s0@, finv(a as int));
        }
        Some(s0)
    }

    /// The quotient; dividing by zero gives `None`.
    pub fn div(&self, rhs: &Fp) -> (r: Option<Fp>)
        ensures
            r is None <==> rhs@ == 0,
            r is Some ==> r->Some_0@ == fdiv(self@, rhs@),
    {
        match rhs.inv() {
            Some(i) => Some(self.mul(&i)),
            None => None,
        }
    }
}

} // verus!
