//! Tests for the group layer: generator encodings and element algebra.

use pikachu::group::{g1_generator, g2_generator, g1_add, g1_smul, pairing, G1Elem};
use pikachu::Scalar;

#[test]
fn g1_generator_encoding_is_one_two_one() {
    let g = g1_generator();
    let bytes = g.to_bytes();
    assert_eq!(bytes.len(), 96);
    let mut expected = vec![0u8; 96];
    expected[0] = 1;
    expected[32] = 2;
    expected[64] = 1;
    assert_eq!(bytes, expected);
}

#[test]
fn g2_generator_encoding_matches_curve_constants() {
    let g = g2_generator();
    let bytes = g.to_bytes();
    let expected: Vec<u8> = vec![237, 246, 146, 217, 92, 189, 222, 70, 221, 218, 94, 247, 212, 34, 67, 103, 121, 68, 92, 94, 102, 0, 106, 66, 118, 30, 31, 18, 239, 222, 0, 24, 194, 18, 243, 174, 183, 133, 228, 151, 18, 231, 169, 53, 51, 73, 170, 241, 37, 93, 251, 49, 183, 191, 96, 114, 58, 72, 13, 146, 147, 147, 142, 25, 170, 125, 250, 102, 1, 204, 230, 76, 123, 211, 67, 12, 105, 231, 209, 227, 143, 64, 203, 141, 128, 113, 171, 74, 235, 109, 140, 219, 165, 94, 200, 18, 91, 151, 34, 209, 220, 218, 172, 85, 243, 142, 179, 112, 51, 49, 75, 188, 149, 51, 12, 105, 173, 153, 158, 236, 117, 240, 95, 88, 208, 137, 6, 9, 1, 0, 0, 0, 0, 0, 0, 0, 0, 0, 0, 0, 0, 0, 0, 0, 0, 0, 0, 0, 0, 0, 0, 0, 0, 0, 0, 0, 0, 0, 0, 0, 0, 0, 0, 0, 0, 0, 0, 0, 0, 0, 0, 0, 0, 0, 0, 0, 0, 0, 0, 0, 0, 0, 0, 0, 0, 0, 0, 0, 0, 0, 0, 0];
    assert_eq!(bytes, expected);
}

#[test]
fn scalar_multiples_add_up() {
    // g·2 + g·3 equals g·5 as a group element: their projective
    // representatives may differ, so compare through a pairing
    let g = g1_generator();
    let h = g2_generator();
    let a = g1_smul(&g, &Scalar::from_u64(2));
    let b = g1_smul(&g, &Scalar::from_u64(3));
    let sum = g1_add(&a, &b);
    let direct = g1_smul(&g, &Scalar::from_u64(5));
    assert!(pairing(&sum, &h).equals(&pairing(&direct, &h)));
    let other = g1_smul(&g, &Scalar::from_u64(6));
    assert!(!pairing(&sum, &h).equals(&pairing(&other, &h)));
}

#[test]
fn from_coords_validates_ranges() {
    let x = vec![1u8; 32];
    let y = vec![2u8; 32];
    let z = vec![0u8; 32];
    assert!(G1Elem::from_coords(&x, &y, &z).is_some());
    // a coordinate at or above the base-field order is rejected
    let too_big = vec![0xffu8; 32];
    assert!(G1Elem::from_coords(&too_big, &y, &z).is_none());
    // wrong length is rejected
    let short = vec![1u8; 31];
    assert!(G1Elem::from_coords(&short, &y, &z).is_none());
}
