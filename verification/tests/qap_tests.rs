//! Tests for QAP derivation: interpolation, selector points and the
//! vanishing polynomial.

use pikachu::{
    compute_op_points, compute_op_polynomial, compute_vanishing_polynomial,
    lagrange_interpolation_polynomial, parse_circuit, FieldError, Scalar, WireType,
};

#[test]
fn lagrange_interpolation_test() {
    let x0 = Scalar::from_u64(1);
    let y0 = Scalar::from_u64(2);
    let x1 = Scalar::from_u64(2);
    let y1 = Scalar::from_u64(3);
    let x2 = Scalar::from_u64(3);
    let y2 = Scalar::from_u64(5);
    let points = vec![(x0, y0), (x1, y1), (x2, y2)];
    let polynomial = lagrange_interpolation_polynomial(&points).unwrap();
    let tx1 = Scalar::from_u64(4);
    let ty1 = Scalar::from_u64(8);
    let tx2 = Scalar::from_u64(5);
    let ty2 = Scalar::from_u64(12);
    let tx3 = Scalar::from_u64(6);
    let ty3 = Scalar::from_u64(17);
    let testing_data = vec![
        (Scalar::from_u64(1), Scalar::from_u64(2)),
        (Scalar::from_u64(2), Scalar::from_u64(3)),
        (Scalar::from_u64(3), Scalar::from_u64(5)),
        (tx1, ty1),
        (tx2, ty2),
        (tx3, ty3),
    ];
    for (x, y) in &testing_data {
        let y_interp = polynomial.evaluate(x);
        assert!(y.equals(&y_interp), "Interpolation failed");
    }
}

#[test]
fn interpolation_degree_is_bounded() {
    let points = vec![
        (Scalar::from_u64(1), Scalar::from_u64(7)),
        (Scalar::from_u64(2), Scalar::from_u64(7)),
        (Scalar::from_u64(3), Scalar::from_u64(7)),
    ];
    let p = lagrange_interpolation_polynomial(&points).unwrap();
    assert!(p.len() <= 3);
}

#[test]
fn interpolation_rejects_coincident_points() {
    let points = vec![
        (Scalar::from_u64(1), Scalar::from_u64(2)),
        (Scalar::from_u64(1), Scalar::from_u64(3)),
    ];
    let e = lagrange_interpolation_polynomial(&points).unwrap_err();
    assert_eq!(e, FieldError::ZeroInverse);
}

#[test]
fn vanishing_polynomial_has_gate_roots() {
    let z = compute_vanishing_polynomial(3);
    assert_eq!(z.len(), 4);
    let zero = Scalar::from_u64(0);
    for i in 1..=3u64 {
        assert!(z.evaluate(&Scalar::from_u64(i)).equals(&zero));
    }
    // (4-1)(4-2)(4-3) = 6
    assert!(z.evaluate(&Scalar::from_u64(4)).equals(&Scalar::from_u64(6)));
}

#[test]
fn occurrence_lists_follow_first_occurrence_order() {
    let gates = parse_circuit("x*y==u\r\nu*x==w").unwrap();
    let (left_pts, left_vars) = compute_op_points(&gates, WireType::Left);
    let (_, right_vars) = compute_op_points(&gates, WireType::Right);
    let (_, out_vars) = compute_op_points(&gates, WireType::Output);
    assert_eq!(left_vars, vec!["x".to_string(), "u".to_string()]);
    assert_eq!(right_vars, vec!["y".to_string(), "x".to_string()]);
    assert_eq!(out_vars, vec!["u".to_string(), "w".to_string()]);
    // x occurs on the left of gate 1 only: points (1,1), (2,0)
    assert_eq!(left_pts.len(), 2);
    assert_eq!(left_pts[0].len(), 2);
    assert_eq!(left_pts[0][0].0, 1);
    assert!(left_pts[0][0].1.equals(&Scalar::from_u64(1)));
    assert_eq!(left_pts[0][1].0, 2);
    assert!(left_pts[0][1].1.equals(&Scalar::from_u64(0)));
}

#[test]
fn selector_polynomials_hit_their_points() {
    let gates = parse_circuit("[2]a*b==c\r\na+b==d").unwrap();
    let (pts, vars) = compute_op_points(&gates, WireType::Left);
    assert_eq!(vars, vec!["a".to_string()]);
    let (polys, _sum) = compute_op_polynomial(&pts).unwrap();
    assert_eq!(polys.len(), 1);
    // a has coefficient -2 in gate 1 and 1 in gate 2
    let minus_two = Scalar::from_u64(0).sub(&Scalar::from_u64(2));
    assert!(polys[0].evaluate(&Scalar::from_u64(1)).equals(&minus_two));
    assert!(polys[0].evaluate(&Scalar::from_u64(2)).equals(&Scalar::from_u64(1)));
}

#[test]
fn setup_and_prover_derive_identical_qap() {
    // both stages compile the same circuit text independently
    let src = "x*y==u\r\nu*z==w";
    let g1 = parse_circuit(src).unwrap();
    let g2 = parse_circuit(src).unwrap();
    let q1 = pikachu::qap::compile_qap(&g1);
    let q2 = pikachu::qap::compile_qap(&g2);
    assert_eq!(q1.left_polys.len(), q2.left_polys.len());
    for (p1, p2) in q1.left_polys.iter().zip(q2.left_polys.iter()) {
        assert_eq!(p1.len(), p2.len());
        for i in 0..p1.len() {
            assert!(p1.coefficient(i).equals(&p2.coefficient(i)));
        }
    }
    assert_eq!(q1.vanishing.len(), q2.vanishing.len());
    for i in 0..q1.vanishing.len() {
        assert!(q1.vanishing.coefficient(i).equals(&q2.vanishing.coefficient(i)));
    }
    assert_eq!(q1.left_vars, q2.left_vars);
    assert_eq!(q1.right_vars, q2.right_vars);
    assert_eq!(q1.out_vars, q2.out_vars);
}

#[test]
fn qap_divisibility_for_satisfying_witness() {
    // x*y==z with x=3, y=4, z=12: L·R - O is divisible by Z
    let gates = parse_circuit("x*y==z").unwrap();
    let qap = pikachu::qap::compile_qap(&gates);
    let witness = vec![
        ("x".to_string(), 3u64),
        ("y".to_string(), 4u64),
        ("z".to_string(), 12u64),
    ];
    let l = pikachu::compute_final_polynomial(&witness, &qap.left_polys, &qap.left_vars).unwrap();
    let r = pikachu::compute_final_polynomial(&witness, &qap.right_polys, &qap.right_vars)
        .unwrap();
    let o = pikachu::compute_final_polynomial(&witness, &qap.out_polys, &qap.out_vars).unwrap();
    let p = l.multiply(&r).sub(&o);
    let (_q, rem) = p.divide_with_remainder(&qap.vanishing).unwrap();
    for i in 0..rem.len() {
        assert!(rem.coefficient(i).equals(&Scalar::from_u64(0)));
    }
}

#[test]
fn qap_divisibility_fails_for_violating_witness() {
    // x*y==z with z=13 violates its one gate: the remainder is non-zero
    let gates = parse_circuit("x*y==z").unwrap();
    let qap = pikachu::qap::compile_qap(&gates);
    let witness = vec![
        ("x".to_string(), 3u64),
        ("y".to_string(), 4u64),
        ("z".to_string(), 13u64),
    ];
    let l = pikachu::compute_final_polynomial(&witness, &qap.left_polys, &qap.left_vars).unwrap();
    let r = pikachu::compute_final_polynomial(&witness, &qap.right_polys, &qap.right_vars)
        .unwrap();
    let o = pikachu::compute_final_polynomial(&witness, &qap.out_polys, &qap.out_vars).unwrap();
    let p = l.multiply(&r).sub(&o);
    let (_q, rem) = p.divide_with_remainder(&qap.vanishing).unwrap();
    let mut any_nonzero = false;
    for i in 0..rem.len() {
        if !rem.coefficient(i).equals(&Scalar::from_u64(0)) {
            any_nonzero = true;
        }
    }
    assert!(any_nonzero);
}

#[test]
fn get_s_k_computes_powers() {
    let s = Scalar::from_u64(3);
    assert!(pikachu::get_s_k(&s, 0).equals(&Scalar::from_u64(1)));
    assert!(pikachu::get_s_k(&s, 4).equals(&Scalar::from_u64(81)));
}
