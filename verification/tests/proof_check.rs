use cex_core::decimal::Decimal;
use cex_core::proof_check::{
    hash_to_hex, parse_decimal, parse_hash_hex, verify_proof_payload, ProofPayload, ProofStepPayload,
    PublicInputsPayload,
};

fn text(d: &Decimal) -> String {
    rust_decimal::Decimal::from_i128_with_scale(d.mantissa, d.scale).to_string()
}

fn leaf_hash(user_id: u64, balance: &Decimal) -> Result<[u8; 32], String> {
    let mut h = blake3::Hasher::new();
    h.update(b"leaf");
    h.update(&user_id.to_le_bytes());
    h.update(text(balance).as_bytes());
    Ok(*h.finalize().as_bytes())
}

fn node_hash(left: &[u8; 32], right: &[u8; 32], lb: &Decimal, rb: &Decimal) -> Result<[u8; 32], String> {
    let mut h = blake3::Hasher::new();
    h.update(b"node");
    h.update(left);
    h.update(right);
    h.update(text(lb).as_bytes());
    h.update(text(rb).as_bytes());
    Ok(*h.finalize().as_bytes())
}

fn verify(proof: &ProofPayload, inputs: &PublicInputsPayload) -> bool {
    verify_proof_payload(proof, inputs, leaf_hash, node_hash).unwrap_or(false)
}

#[test]
fn verify_proof_json_rejects_tampered_root_hash() {
    let proof = ProofPayload {
        user_id: 7,
        leaf_balance: "10".to_string(),
        root_hash: "00".repeat(32),
        root_balance: "10".to_string(),
        merkle_path: vec![],
    };
    let inputs = PublicInputsPayload {
        expected_root_hash: "11".repeat(32),
        expected_root_balance: "10".to_string(),
        expected_user_id: Some(7),
    };
    assert!(!verify(&proof, &inputs));
}

fn two_leaf_proof() -> (ProofPayload, PublicInputsPayload) {
    let b1 = Decimal::new(10, 0);
    let b2 = Decimal::new(75, 1);
    let h1 = leaf_hash(1, &b1).unwrap();
    let h2 = leaf_hash(2, &b2).unwrap();
    let root = node_hash(&h1, &h2, &b1, &b2).unwrap();
    let proof = ProofPayload {
        user_id: 2,
        leaf_balance: "7.5".to_string(),
        root_hash: hash_to_hex(&root),
        root_balance: "17.5".to_string(),
        merkle_path: vec![ProofStepPayload {
            sibling_hash: hash_to_hex(&h1),
            sibling_balance: "10".to_string(),
            sibling_is_left: true,
        }],
    };
    let inputs = PublicInputsPayload {
        expected_root_hash: hash_to_hex(&root),
        expected_root_balance: "17.5".to_string(),
        expected_user_id: Some(2),
    };
    (proof, inputs)
}

#[test]
fn valid_path_is_accepted() {
    let (proof, inputs) = two_leaf_proof();
    assert_eq!(verify_proof_payload(&proof, &inputs, leaf_hash, node_hash), Ok(true));
}

#[test]
fn wrong_user_is_rejected_without_error() {
    let (proof, mut inputs) = two_leaf_proof();
    inputs.expected_user_id = Some(3);
    assert_eq!(verify_proof_payload(&proof, &inputs, leaf_hash, node_hash), Ok(false));
}

#[test]
fn missing_expected_user_skips_the_user_check() {
    let (proof, mut inputs) = two_leaf_proof();
    inputs.expected_user_id = None;
    assert_eq!(verify_proof_payload(&proof, &inputs, leaf_hash, node_hash), Ok(true));
}

#[test]
fn wrong_sibling_side_is_rejected() {
    let (mut proof, inputs) = two_leaf_proof();
    proof.merkle_path[0].sibling_is_left = false;
    assert_eq!(verify_proof_payload(&proof, &inputs, leaf_hash, node_hash), Ok(false));
}

#[test]
fn wrong_root_balance_is_rejected() {
    let (mut proof, mut inputs) = two_leaf_proof();
    proof.root_balance = "18".to_string();
    inputs.expected_root_balance = "18".to_string();
    assert_eq!(verify_proof_payload(&proof, &inputs, leaf_hash, node_hash), Ok(false));
}

#[test]
fn negative_sibling_balance_is_rejected() {
    let (mut proof, inputs) = two_leaf_proof();
    proof.merkle_path[0].sibling_balance = "-1".to_string();
    assert_eq!(verify_proof_payload(&proof, &inputs, leaf_hash, node_hash), Ok(false));
}

#[test]
fn unparsable_balance_is_an_error() {
    let (mut proof, inputs) = two_leaf_proof();
    proof.leaf_balance = "ten".to_string();
    assert_eq!(
        verify_proof_payload(&proof, &inputs, leaf_hash, node_hash),
        Err("invalid decimal value: ten".to_string())
    );
}

#[test]
fn failing_leaf_hash_is_passed_on() {
    let (proof, inputs) = two_leaf_proof();
    let failing = |_: u64, _: &Decimal| -> Result<[u8; 32], String> { Err("field overflow".to_string()) };
    assert_eq!(
        verify_proof_payload(&proof, &inputs, failing, node_hash),
        Err("field overflow".to_string())
    );
}

#[test]
fn short_hash_is_an_error() {
    assert_eq!(parse_hash_hex("abcd"), Err("hash must be 64 hex chars".to_string()));
}

#[test]
fn non_hex_hash_is_an_error() {
    let text = format!("zz{}", "00".repeat(31));
    assert_eq!(parse_hash_hex(&text), Err("invalid hex hash".to_string()));
}

#[test]
fn hash_hex_round_trip() {
    let mut bytes = [0u8; 32];
    for (i, b) in bytes.iter_mut().enumerate() {
        *b = (i as u8).wrapping_mul(37);
    }
    let text = hash_to_hex(&bytes);
    assert_eq!(text.len(), 64);
    assert!(text.starts_with("00254a6f"));
    assert_eq!(parse_hash_hex(&format!("  {}\n", text.to_uppercase())), Ok(bytes));
}

#[test]
fn decimal_fields_parse_exactly() {
    assert_eq!(parse_decimal("3.25"), Ok(Decimal::new(325, 2)));
    assert_eq!(parse_decimal("x"), Err("invalid decimal value: x".to_string()));
}
