//! Tests for the scalar field and the polynomial engine.

use pikachu::{Polynomial, Scalar};
use pikachu::poly::DivisionError;

fn poly(cs: &[u64]) -> Polynomial {
    let v: Vec<Scalar> = cs.iter().map(|&c| Scalar::from_u64(c)).collect();
    Polynomial::from_coeffs(v)
}

fn assert_poly_eq(p: &Polynomial, cs: &[u64]) {
    let q = poly(cs);
    let n = if p.len() > q.len() { p.len() } else { q.len() };
    for i in 0..n {
        assert!(p.coefficient(i).equals(&q.coefficient(i)), "coefficient {} differs", i);
    }
}

#[test]
fn field_arithmetic() {
    let a = Scalar::from_u64(7);
    let b = Scalar::from_u64(5);
    assert!(a.add(&b).equals(&Scalar::from_u64(12)));
    assert!(a.sub(&b).equals(&Scalar::from_u64(2)));
    assert!(a.mul(&b).equals(&Scalar::from_u64(35)));
    // subtraction wraps into the field
    let neg = b.sub(&a);
    assert!(neg.add(&a).equals(&b));
}

#[test]
fn field_inverse() {
    let a = Scalar::from_u64(1234567);
    let inv = a.inverse().unwrap();
    assert!(a.mul(&inv).equals(&Scalar::from_u64(1)));
    assert!(Scalar::from_u64(0).inverse().is_none());
}

#[test]
fn polynomial_add_and_sub() {
    let p = poly(&[1, 2, 3]);
    let q = poly(&[4, 5]);
    assert_poly_eq(&p.add(&q), &[5, 7, 3]);
    // (p - q) + q == p, coefficient for coefficient
    let r = p.sub(&q).add(&q);
    assert_poly_eq(&r, &[1, 2, 3]);
    // 1 - 4 wraps: adding 3 brings it back to zero
    let d = p.sub(&q);
    assert!(d.coefficient(0).add(&Scalar::from_u64(3)).equals(&Scalar::from_u64(0)));
}

#[test]
fn polynomial_multiply() {
    // (1 + x)(2 + x) = 2 + 3x + x^2
    let p = poly(&[1, 1]);
    let q = poly(&[2, 1]);
    assert_poly_eq(&p.multiply(&q), &[2, 3, 1]);
}

#[test]
fn polynomial_evaluate_horner() {
    // 3 + 2x + x^2 at x = 4: 3 + 8 + 16 = 27
    let p = poly(&[3, 2, 1]);
    let v = p.evaluate(&Scalar::from_u64(4));
    assert!(v.equals(&Scalar::from_u64(27)));
}

#[test]
fn division_with_remainder() {
    // x^2 + 3x + 2 = (x + 1)(x + 2): dividing by (x + 1) leaves no
    // remainder
    let dividend = poly(&[2, 3, 1]);
    let divisor = poly(&[1, 1]);
    let (q, r) = dividend.divide_with_remainder(&divisor).unwrap();
    assert_poly_eq(&q, &[2, 1]);
    for i in 0..r.len() {
        assert!(r.coefficient(i).equals(&Scalar::from_u64(0)));
    }
    // x^2 + 1 divided by x + 1 leaves remainder 2
    let d2 = poly(&[1, 0, 1]);
    let (q2, r2) = d2.divide_with_remainder(&divisor).unwrap();
    // check the identity d2 == q2 * divisor + r2
    let back = q2.multiply(&divisor).add(&r2);
    for i in 0..d2.len() {
        assert!(back.coefficient(i).equals(&d2.coefficient(i)));
    }
    assert!(r2.len() < 2);
    assert!(r2.coefficient(0).equals(&Scalar::from_u64(2)));
}

#[test]
fn division_by_zero_polynomial() {
    let dividend = poly(&[1, 2]);
    let zero = poly(&[0, 0]);
    let e = dividend.divide_with_remainder(&zero).unwrap_err();
    assert_eq!(e, DivisionError::ZeroDivisor);
    let empty = Polynomial::zero();
    let e2 = dividend.divide_with_remainder(&empty).unwrap_err();
    assert_eq!(e2, DivisionError::ZeroDivisor);
}
