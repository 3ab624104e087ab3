use r1cs_qap::field::{Fp, MODULUS};
use r1cs_qap::poly::{add_polys, div_polys, eval_poly, mul_polys, sub_polys};
use r1cs_qap::qap::{
    create_divisor_polynomial, create_solution_polynomials, lagrange_interop, r1cs_to_qap,
};
use r1cs_qap::r1cs::{flatcode_to_r1cs, get_var_placement, Operand, Operation, Operator};
use r1cs_qap::witness::{assign_variables, is_satisfied};
use r1cs_qap::Error;

/// A small generator of numbers that looks random and is the same in every run.
struct Numbers(u64);

impl Numbers {
    fn next(&mut self) -> u64 {
        self.0 = self.0.wrapping_mul(6364136223846793005).wrapping_add(1442695040888963407);
        self.0 >> 33
    }

    fn below(&mut self, n: u64) -> u64 {
        self.next() % n
    }

    fn element(&mut self) -> Fp {
        Fp::new(self.next())
    }

    fn poly(&mut self, len: usize) -> Vec<Fp> {
        (0..len).map(|_| self.element()).collect()
    }
}

fn zeros(n: usize) -> Vec<Fp> {
    vec![Fp::zero(); n]
}

#[test]
fn inverses_multiply_to_one() {
    let mut numbers = Numbers(1);
    for _ in 0..2000 {
        let x = numbers.element();
        match x.inv() {
            Some(y) => {
                assert!(y.value() < MODULUS);
                assert_eq!(x.mul(&y), Fp::one());
                assert_eq!(y.inv(), Some(x));
            }
            None => assert!(x.is_zero()),
        }
    }
}

#[test]
fn the_field_laws_hold() {
    let mut numbers = Numbers(2);
    for _ in 0..2000 {
        let (a, b, c) = (numbers.element(), numbers.element(), numbers.element());
        assert_eq!(a.add(&b), b.add(&a));
        assert_eq!(a.mul(&b), b.mul(&a));
        assert_eq!(a.add(&b).add(&c), a.add(&b.add(&c)));
        assert_eq!(a.mul(&b).mul(&c), a.mul(&b.mul(&c)));
        assert_eq!(a.mul(&b.add(&c)), a.mul(&b).add(&a.mul(&c)));
        assert_eq!(a.sub(&b).add(&b), a);
        assert_eq!(a.add(&a.neg()), Fp::zero());
        assert_eq!(Fp::from_i64(a.to_i64()), a);
    }
}

#[test]
fn the_polynomial_laws_hold() {
    let mut numbers = Numbers(3);
    for _ in 0..200 {
        let la = 1 + numbers.below(8) as usize;
        let lb = 1 + numbers.below(8) as usize;
        let a = numbers.poly(la);
        let mut b = numbers.poly(lb);
        if b[lb - 1].is_zero() {
            b[lb - 1] = Fp::one();
        }
        assert_eq!(add_polys(&a, &b), add_polys(&b, &a));
        assert_eq!(sub_polys(&a, &a), zeros(la));
        assert_eq!(mul_polys(&a, &zeros(1)), zeros(la));
        assert_eq!(mul_polys(&a, &b).len(), la + lb - 1);
        assert_eq!(div_polys(&mul_polys(&a, &b), &b), Ok((a.clone(), zeros(lb - 1))));
        assert_eq!(sub_polys(&add_polys(&a, &b), &b).len(), la.max(lb));
    }
}

#[test]
fn division_gives_back_the_dividend() {
    let mut numbers = Numbers(4);
    for _ in 0..200 {
        let lb = 1 + numbers.below(6) as usize;
        let la = lb + numbers.below(6) as usize;
        let a = numbers.poly(la);
        let mut b = numbers.poly(lb);
        if b[lb - 1].is_zero() {
            b[lb - 1] = Fp::one();
        }
        let (q, r) = div_polys(&a, &b).unwrap();
        assert_eq!(q.len(), la - lb + 1);
        assert_eq!(r.len(), lb - 1);
        assert_eq!(add_polys(&mul_polys(&q, &b), &r), a);
        b[lb - 1] = Fp::zero();
        assert_eq!(div_polys(&a, &b), Err(Error::DivisionByZeroPoly));
    }
}

#[test]
fn interpolation_passes_through_every_sample() {
    let mut numbers = Numbers(5);
    for n in 0..24usize {
        let samples = numbers.poly(n);
        let p = lagrange_interop(&samples);
        assert_eq!(p.len(), n.max(1));
        for (i, s) in samples.iter().enumerate() {
            assert_eq!(eval_poly(&p, &Fp::new(i as u64 + 1)), *s);
        }
    }
}

/// A program of `len` operations in which every operation writes a new name and
/// reads inputs or names that were written before.
fn program(numbers: &mut Numbers, inputs: &[String], len: usize) -> Vec<Operation> {
    let mut known: Vec<String> = inputs.to_vec();
    let mut code = Vec::new();
    for k in 0..len {
        let operand = |numbers: &mut Numbers, known: &Vec<String>| {
            if known.is_empty() || numbers.below(4) == 0 {
                Operand::Number(Fp::new(1 + numbers.below(1000)))
            } else {
                Operand::Identifier(known[numbers.below(known.len() as u64) as usize].clone())
            }
        };
        let left = operand(numbers, &known);
        let right = operand(numbers, &known);
        let operator = match numbers.below(5) {
            0 => Operator::Plus,
            1 => Operator::Minus,
            2 => Operator::Multiply,
            3 => Operator::Divide,
            _ => Operator::Assign,
        };
        let target = if k + 1 == len { "~out".to_string() } else { format!("t{}", k) };
        code.push(Operation { target: target.clone(), operator, left, right });
        known.push(target);
    }
    code
}

#[test]
fn witnesses_of_programs_satisfy_and_leave_no_remainder() {
    let mut numbers = Numbers(6);
    let mut ran = 0;
    for round in 0..60 {
        let inputs: Vec<String> = (0..numbers.below(4)).map(|i| format!("in{}", i)).collect();
        let values = numbers.poly(inputs.len());
        let len = 1 + (round % 9);
        let code = program(&mut numbers, &inputs, len);
        let placement = get_var_placement(&inputs, &code);
        assert_eq!(placement.len(), inputs.len() + 1 + len + if len == 0 { 1 } else { 0 });
        let (a, b, c) = flatcode_to_r1cs(&inputs, &code).unwrap();
        let w = match assign_variables(&inputs, &values, &code) {
            Ok(w) => w,
            Err(e) => {
                assert_eq!(e, Error::DivisionByZero);
                continue;
            }
        };
        ran += 1;
        assert!(is_satisfied(&a, &b, &c, &w));
        let (ap, bp, cp, z) = r1cs_to_qap(&a, &b, &c);
        assert_eq!(z.len(), len);
        let (_, _, _, t) = create_solution_polynomials(&w, ap, bp, cp);
        for i in 1..=len {
            assert!(eval_poly(&t, &Fp::new(i as u64)).is_zero());
        }
        let (h, rem) = create_divisor_polynomial(t.clone(), z.clone()).unwrap();
        assert_eq!(rem, zeros(len - 1));
        assert_eq!(mul_polys(&h, &z), t);
    }
    assert!(ran > 30);
}
