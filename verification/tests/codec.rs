use vcp_witness::field::{hex_to_field, uint_to_field, FieldElement};

#[test]
fn hex_zero_literal_is_identity() {
    let f = hex_to_field("0x0").expect("0x0 must parse");
    assert!(f.limbs().is_empty());
}

#[test]
fn uint_zero_is_identity() {
    let f = uint_to_field(0);
    assert!(f.limbs().is_empty());
    let z = FieldElement::zero();
    assert_eq!(f.limbs(), z.limbs());
}

#[test]
fn uint_embeds_directly() {
    let f = uint_to_field(200);
    assert_eq!(f.limbs(), &vec![200u32]);
}

#[test]
fn hex_parses_prefixed_value() {
    let f = hex_to_field("0xAB").expect("0xAB must parse");
    assert_eq!(f.limbs(), &vec![0xABu32]);
}

#[test]
fn hex_parses_unprefixed_value() {
    let f = hex_to_field("ff").expect("ff must parse");
    assert_eq!(f.limbs(), &vec![0xFFu32]);
}

#[test]
fn hex_case_insensitive() {
    let a = hex_to_field("0xDeadBeef").expect("must parse");
    let b = hex_to_field("0xdeadbeef").expect("must parse");
    assert_eq!(a.limbs(), b.limbs());
    assert_eq!(a.limbs(), &vec![0xdead_beefu32]);
}

#[test]
fn hex_round_trip_of_formatted_value() {
    // hex_to_field(to_hex(n)) reproduces n for values below the prime
    let n: u64 = 0x1234_5678_9abc_def0;
    let s = format!("0x{:x}", n);
    let f = hex_to_field(&s).expect("formatted hex must parse");
    assert_eq!(f.limbs(), &vec![0x9abc_def0u32, 0x1234_5678u32]);
}

#[test]
fn hex_rejects_malformed() {
    assert!(hex_to_field("0xZZ").is_none());
    assert!(hex_to_field("").is_none());
    assert!(hex_to_field("0x").is_none());
    assert!(hex_to_field("12g4").is_none());
    assert!(hex_to_field("+12").is_none());
    assert!(hex_to_field("1_2").is_none());
}

#[test]
fn hex_reduces_modulo_prime() {
    // the field's prime itself reduces to the additive identity
    let p = "0x30644e72e131a029b85045b68181585d2833e84879b9709143e1f593f0000001";
    let f = hex_to_field(p).expect("the prime must parse");
    assert!(f.limbs().is_empty());
    // one above the prime reduces to one
    let p1 = "0x30644e72e131a029b85045b68181585d2833e84879b9709143e1f593f0000002";
    let g = hex_to_field(p1).expect("prime + 1 must parse");
    assert_eq!(g.limbs(), &vec![1u32]);
}

#[test]
fn values_below_prime_stay_canonical() {
    let f = hex_to_field("0x30644e72e131a029b85045b68181585d2833e84879b9709143e1f593f0000000")
        .expect("prime - 1 must parse");
    assert_eq!(
        f.limbs(),
        &vec![
            0xf0000000u32,
            0x43e1f593u32,
            0x79b97091u32,
            0x2833e848u32,
            0x8181585du32,
            0xb85045b6u32,
            0xe131a029u32,
            0x30644e72u32,
        ]
    );
}

#[test]
fn artifact_paths_are_fixed() {
    let writes =
        vcp_witness::artifacts::save_proof_and_vk("../circuits/vcp_generation", vec![1, 2], vec![3]);
    assert_eq!(writes.len(), 2);
    assert_eq!(writes[0].path, "../circuits/vcp_generation/proofs/myproof.proof");
    assert_eq!(writes[0].contents, vec![1, 2]);
    assert_eq!(writes[1].path, "../circuits/vcp_generation/proofs/myvk.vk");
    assert_eq!(writes[1].contents, vec![3]);
    let (proof_path, vk_path) = vcp_witness::artifacts::read_proof_and_vk("c");
    assert_eq!(proof_path, "c/proofs/myproof.proof");
    assert_eq!(vk_path, "c/proofs/myvk.vk");
}
