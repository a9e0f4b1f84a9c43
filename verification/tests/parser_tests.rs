//! Tests for the circuit parser and the operand decomposition.

use pikachu::{parse_circuit, shield_brack_parser, GateOp, ParseError, Scalar};

fn scalar_eq(a: &Scalar, b: &Scalar) -> bool {
    a.equals(b)
}

#[test]
fn bracket_coefficient_parsing() {
    // line "[2]a+b==c": left coefficient -2 on a, right default 1 on b,
    // output c
    let gates = parse_circuit("[2]a+b==c").unwrap();
    assert_eq!(gates.len(), 1);
    let g = &gates[0];
    assert!(matches!(g.op, GateOp::Add));
    let minus_two = Scalar::from_u64(0).sub(&Scalar::from_u64(2));
    assert!(scalar_eq(&g.left_coeff, &minus_two));
    assert_eq!(g.left_var, "a");
    assert!(scalar_eq(&g.right_coeff, &Scalar::from_u64(1)));
    assert_eq!(g.right_var, "b");
    assert_eq!(g.out_var, "c");
}

#[test]
fn multiple_operators_rejected() {
    let e = parse_circuit("a*b*c==d").unwrap_err();
    assert_eq!(e, ParseError::MultipleOperators);
}

#[test]
fn missing_operator_rejected() {
    let e = parse_circuit("abc==d").unwrap_err();
    assert_eq!(e, ParseError::MissingOperand);
}

#[test]
fn empty_operand_rejected() {
    let e = parse_circuit("*b==c").unwrap_err();
    assert_eq!(e, ParseError::EmptyOperand);
    let e2 = parse_circuit("a*==c").unwrap_err();
    assert_eq!(e2, ParseError::EmptyOperand);
    let e3 = parse_circuit("a*b==3").unwrap_err();
    assert_eq!(e3, ParseError::EmptyOperand);
}

#[test]
fn operator_inside_brackets_is_shielded() {
    // the only unshielded operator is '+'
    let gates = parse_circuit("[2]a+b==c").unwrap();
    assert!(matches!(gates[0].op, GateOp::Add));
    // an operator hidden inside brackets does not count
    let e = parse_circuit("[a*b]==c").unwrap_err();
    assert_eq!(e, ParseError::MissingOperand);
}

#[test]
fn whitespace_is_stripped() {
    let gates = parse_circuit("  x *  y == z ").unwrap();
    assert_eq!(gates.len(), 1);
    assert!(matches!(gates[0].op, GateOp::Mul));
    assert_eq!(gates[0].left_var, "x");
    assert_eq!(gates[0].right_var, "y");
    assert_eq!(gates[0].out_var, "z");
}

#[test]
fn crlf_separated_lines() {
    let gates = parse_circuit("x*y==u\r\nu*z==w").unwrap();
    assert_eq!(gates.len(), 2);
    assert_eq!(gates[0].out_var, "u");
    assert_eq!(gates[1].left_var, "u");
    assert_eq!(gates[1].out_var, "w");
}

#[test]
fn empty_lines_are_skipped() {
    let gates = parse_circuit("x*y==z\r\n\r\n").unwrap();
    assert_eq!(gates.len(), 1);
}

#[test]
fn double_equals_takes_last_segment() {
    let gates = parse_circuit("a*b==c==d").unwrap();
    assert_eq!(gates[0].right_var, "b");
    assert_eq!(gates[0].out_var, "d");
}

#[test]
fn shield_brack_parser_splits_operands() {
    let (coeff, var) = shield_brack_parser("[2]a");
    assert_eq!(coeff, "-2");
    assert_eq!(var, "a");
    let (coeff2, var2) = shield_brack_parser("12ab");
    assert_eq!(coeff2, "12");
    assert_eq!(var2, "ab");
    let (coeff3, var3) = shield_brack_parser("x");
    assert_eq!(coeff3, "");
    assert_eq!(var3, "x");
}

#[test]
fn output_coefficient_is_ignored() {
    let gates = parse_circuit("a*b==[5]c").unwrap();
    assert_eq!(gates[0].out_var, "c");
}

#[test]
fn division_operator_is_recognized() {
    let gates = parse_circuit("a/b==c").unwrap();
    assert!(matches!(gates[0].op, GateOp::Div));
    let gates2 = parse_circuit("a-b==c").unwrap();
    assert!(matches!(gates2[0].op, GateOp::Sub));
}
