//! End-to-end tests: setup, prove, verify, the codec round trip, and
//! tamper detection.

use pikachu::{
    build_proof, decode_key, encode_key, generate_proof_string, parse_proof, prove,
    trusted_setup, verify_proof, ProverError, Scalar, WitnessError,
};

const CIRCUIT: &str = "x*y==z";

fn witness(z: u64) -> Vec<(String, u64)> {
    vec![
        ("x".to_string(), 3u64),
        ("y".to_string(), 4u64),
        ("z".to_string(), z),
    ]
}

#[test]
fn end_to_end_accept() {
    let keys = trusted_setup(CIRCUIT).unwrap();
    let pk_bytes = encode_key(&keys.proving_key);
    let vk_bytes = encode_key(&keys.verification_key);
    let pk = decode_key(&pk_bytes, keys.pk_boundary).unwrap();
    let (proof, _) = prove(&pk, CIRCUIT, &witness(12)).unwrap();
    let token = generate_proof_string(&proof);
    let accepted = verify_proof(&token, &vk_bytes).unwrap();
    assert!(accepted);
}

#[test]
fn end_to_end_reject() {
    // a dishonest prover may proceed on an unsatisfied witness; the
    // verifier rejects, without crashing
    let keys = trusted_setup(CIRCUIT).unwrap();
    let pk_bytes = encode_key(&keys.proving_key);
    let vk_bytes = encode_key(&keys.verification_key);
    let pk = decode_key(&pk_bytes, keys.pk_boundary).unwrap();
    let (proof, _) = build_proof(&pk, CIRCUIT, &witness(13)).unwrap();
    let token = generate_proof_string(&proof);
    let accepted = verify_proof(&token, &vk_bytes).unwrap();
    assert!(!accepted);
}

#[test]
fn honest_prover_refuses_unsatisfied_witness() {
    let keys = trusted_setup(CIRCUIT).unwrap();
    let pk_bytes = encode_key(&keys.proving_key);
    let pk = decode_key(&pk_bytes, keys.pk_boundary).unwrap();
    let e = match prove(&pk, CIRCUIT, &witness(13)) {
        Err(e) => e,
        Ok(_) => panic!("an unsatisfied witness must be refused"),
    };
    assert_eq!(e, ProverError::Witness(WitnessError::UnsatisfiedCircuit));
}

#[test]
fn missing_witness_variable_is_reported() {
    let keys = trusted_setup(CIRCUIT).unwrap();
    let pk_bytes = encode_key(&keys.proving_key);
    let pk = decode_key(&pk_bytes, keys.pk_boundary).unwrap();
    let partial = vec![("x".to_string(), 3u64), ("y".to_string(), 4u64)];
    let e = match prove(&pk, CIRCUIT, &partial) {
        Err(e) => e,
        Ok(_) => panic!("a missing variable must be refused"),
    };
    assert_eq!(e, ProverError::Witness(WitnessError::MissingVariable));
}

#[test]
fn codec_round_trip_reproduces_keys() {
    let keys = trusted_setup(CIRCUIT).unwrap();
    let pk_bytes = encode_key(&keys.proving_key);
    let vk_bytes = encode_key(&keys.verification_key);
    let pk2 = decode_key(&pk_bytes, keys.pk_boundary).unwrap();
    let vk2 = decode_key(&vk_bytes, 4).unwrap();
    // re-encoding the decoded keys gives the same byte streams
    assert_eq!(encode_key(&pk2), pk_bytes);
    assert_eq!(encode_key(&vk2), vk_bytes);
}

#[test]
fn proof_token_round_trip() {
    let keys = trusted_setup(CIRCUIT).unwrap();
    let pk_bytes = encode_key(&keys.proving_key);
    let pk = decode_key(&pk_bytes, keys.pk_boundary).unwrap();
    let (proof, _) = prove(&pk, CIRCUIT, &witness(12)).unwrap();
    let token = generate_proof_string(&proof);
    let parsed = parse_proof(&token).unwrap();
    assert_eq!(generate_proof_string(&parsed), token);
}

#[test]
fn truncated_key_stream_is_rejected() {
    let keys = trusted_setup(CIRCUIT).unwrap();
    let mut pk_bytes = encode_key(&keys.proving_key);
    pk_bytes.pop();
    assert!(decode_key(&pk_bytes, keys.pk_boundary).is_err());
}

#[test]
fn malformed_proof_token_is_rejected() {
    let keys = trusted_setup(CIRCUIT).unwrap();
    let vk_bytes = encode_key(&keys.verification_key);
    assert!(verify_proof("not base64!!!", &vk_bytes).is_err());
    assert!(verify_proof("QUJDRA==", &vk_bytes).is_err());
}

#[test]
fn tamper_detection() {
    // flipping a byte of the token makes the verifier fail decoding or
    // reject at a pairing check, never crash
    let keys = trusted_setup(CIRCUIT).unwrap();
    let pk_bytes = encode_key(&keys.proving_key);
    let vk_bytes = encode_key(&keys.verification_key);
    let pk = decode_key(&pk_bytes, keys.pk_boundary).unwrap();
    let (proof, _) = prove(&pk, CIRCUIT, &witness(12)).unwrap();
    let token = generate_proof_string(&proof);
    let bytes = token.as_bytes();
    // pairing checks are costly, so sample a few byte positions
    let positions = [0usize, bytes.len() / 2, bytes.len() - 1];
    for &pos in positions.iter() {
        let mut tampered = bytes.to_vec();
        // flip within the ASCII range so the token stays valid text
        tampered[pos] ^= 0x01;
        if tampered[pos] != bytes[pos] {
            let tampered_str = String::from_utf8(tampered).unwrap();
            if tampered_str != token {
                match verify_proof(&tampered_str, &vk_bytes) {
                    Ok(accepted) => assert!(!accepted, "tampered token accepted at {}", pos),
                    Err(_) => {}
                }
            }
        }
    }
}

#[test]
fn wrong_key_file_is_rejected() {
    // handing the proving key where the verification key belongs fails
    // decoding or the shape check, never crashes
    let keys = trusted_setup(CIRCUIT).unwrap();
    let pk_bytes = encode_key(&keys.proving_key);
    let pk = decode_key(&pk_bytes, keys.pk_boundary).unwrap();
    let (proof, _) = prove(&pk, CIRCUIT, &witness(12)).unwrap();
    let token = generate_proof_string(&proof);
    assert!(verify_proof(&token, &pk_bytes).is_err());
}

#[test]
fn check_witness_reports_satisfaction() {
    let gates = pikachu::parse_circuit(CIRCUIT).unwrap();
    assert!(pikachu::check_witness(&gates, &witness(12)).unwrap());
    assert!(!pikachu::check_witness(&gates, &witness(13)).unwrap());
    let partial = vec![("x".to_string(), 3u64)];
    let e = pikachu::check_witness(&gates, &partial).unwrap_err();
    assert_eq!(e, WitnessError::MissingVariable);
}

#[test]
fn bad_proving_key_shape_is_reported() {
    let keys = trusted_setup(CIRCUIT).unwrap();
    let vk_bytes = encode_key(&keys.verification_key);
    // a verification key is far too short to serve as a proving key
    let vk = decode_key(&vk_bytes, 4).unwrap();
    let e = match pikachu::build_proof(&vk, CIRCUIT, &witness(12)) {
        Err(e) => e,
        Ok(_) => panic!("a mis-shaped key must be refused"),
    };
    assert_eq!(e, ProverError::BadKey);
}

#[test]
fn end_to_end_accept_two_gates() {
    // x*y==u, u*z==w with x=2, y=3, u=6, z=4, w=24
    let src = "x*y==u\r\nu*z==w";
    let keys = trusted_setup(src).unwrap();
    let pk_bytes = encode_key(&keys.proving_key);
    let vk_bytes = encode_key(&keys.verification_key);
    let pk = decode_key(&pk_bytes, keys.pk_boundary).unwrap();
    let w = vec![
        ("x".to_string(), 2u64),
        ("y".to_string(), 3u64),
        ("u".to_string(), 6u64),
        ("z".to_string(), 4u64),
        ("w".to_string(), 24u64),
    ];
    let (proof, _) = prove(&pk, src, &w).unwrap();
    let token = generate_proof_string(&proof);
    assert!(verify_proof(&token, &vk_bytes).unwrap());
}
