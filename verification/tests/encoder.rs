use vcp_witness::encoder::{encode, encode_credentials, EncodeError, Layout, LayoutParam, WitnessPath};
use vcp_witness::model::{
    AccessControlCriteria, Claim, Condition, Credential, ExclusionMerkleTreeProof, Input, Issuer,
    Point, Signature,
};
use vcp_witness::witness::WitnessMap;

fn empty_criteria() -> AccessControlCriteria {
    AccessControlCriteria { predicates: Vec::new(), conditions: Vec::new() }
}

fn empty_input() -> Input {
    Input {
        proving_time: 0,
        revocation_roots: Vec::new(),
        criteria: empty_criteria(),
        credentials: Vec::new(),
        public_keys: Vec::new(),
    }
}

fn sig(s: &str, x: &str, y: &str) -> Signature {
    Signature { s: String::from(s), r8: Point { x: String::from(x), y: String::from(y) } }
}

fn plain_credential() -> Credential {
    Credential {
        subject_code: String::from("0x11"),
        claims: Vec::new(),
        expired_date: 9,
        signature: sig("0x21", "0x22", "0x23"),
        non_revocation_proof: ExclusionMerkleTreeProof {
            siblings: Vec::new(),
            old_item: String::from("0x31"),
            is_old_0: 1,
        },
        issuer_index: 2,
    }
}

fn param(name: &str, start: u32) -> LayoutParam {
    LayoutParam { name: String::from(name), start }
}

fn limbs_at(w: &WitnessMap, index: u32) -> Vec<u32> {
    w.get(index).expect("index must be written").limbs().clone()
}

#[test]
fn scenario_one_credential_zero_claims() {
    // one credential, zero claims, zero siblings, start = 100
    let mut input = empty_input();
    input.credentials.push(plain_credential());
    let layout = Layout { params: vec![param("credentials", 100)] };
    let w = encode(&input, &layout).expect("encoding must succeed");
    assert_eq!(w.len(), 8);
    assert_eq!(limbs_at(&w, 100), vec![0x11]); // subject_code
    assert_eq!(limbs_at(&w, 101), vec![9]); // expired_date
    assert_eq!(limbs_at(&w, 102), vec![0x21]); // signature s
    assert_eq!(limbs_at(&w, 103), vec![0x22]); // signature r8.x
    assert_eq!(limbs_at(&w, 104), vec![0x23]); // signature r8.y
    assert_eq!(limbs_at(&w, 105), vec![0x31]); // old_item
    assert_eq!(limbs_at(&w, 106), vec![1]); // is_old_0
    assert_eq!(limbs_at(&w, 139), vec![2]); // issuer_index
    assert!(w.get(107).is_none()); // rest of the zone unused
    assert!(w.get(138).is_none());
}

#[test]
fn scenario_credential_cursor_advances_by_stride() {
    // final cursor after the credentials equals start + sum of 40 + 2*claims
    let mut creds = Vec::new();
    let mut with_claims = plain_credential();
    with_claims.claims.push(Claim { code: String::from("0x41"), value: 5 });
    with_claims.claims.push(Claim { code: String::from("0x42"), value: 6 });
    creds.push(plain_credential());
    creds.push(with_claims);
    let mut w = WitnessMap::new();
    let cur = encode_credentials(&mut w, &creds, 100).expect("encoding must succeed");
    assert_eq!(cur, 100 + 40 + 44);
}

#[test]
fn scenario_revocation_roots() {
    // revocation_roots = ["0xAB", "0x0"], start = 0
    let mut input = empty_input();
    input.revocation_roots.push(String::from("0xAB"));
    input.revocation_roots.push(String::from("0x0"));
    let layout = Layout { params: vec![param("revocation_roots", 0)] };
    let w = encode(&input, &layout).expect("encoding must succeed");
    assert_eq!(w.len(), 2);
    assert_eq!(limbs_at(&w, 0), vec![0xAB]);
    assert!(limbs_at(&w, 1).is_empty()); // the additive identity
}

#[test]
fn scenario_condition_with_two_issuer_codes() {
    // one condition with 2 issuer codes at start = 50
    let mut input = empty_input();
    input.criteria.conditions.push(Condition {
        attr_code: String::from("0x61"),
        operator: 3,
        value: 7,
        issuer_codes: vec![String::from("0x71"), String::from("0x72")],
    });
    let layout = Layout { params: vec![param("criteria", 50)] };
    let w = encode(&input, &layout).expect("encoding must succeed");
    assert_eq!(limbs_at(&w, 50), vec![0x61]);
    assert_eq!(limbs_at(&w, 51), vec![3]);
    assert_eq!(limbs_at(&w, 52), vec![7]);
    assert_eq!(limbs_at(&w, 53), vec![0x71]);
    assert_eq!(limbs_at(&w, 54), vec![0x72]);
}

#[test]
fn scenario_second_condition_collision_detected() {
    // the second issuer code of condition 0 lands on condition 1's base
    // index: the encoder reports the collision instead of overwriting
    let mut input = empty_input();
    input.criteria.conditions.push(Condition {
        attr_code: String::from("0x61"),
        operator: 3,
        value: 7,
        issuer_codes: vec![String::from("0x71"), String::from("0x72")],
    });
    input.criteria.conditions.push(Condition {
        attr_code: String::from("0x62"),
        operator: 1,
        value: 2,
        issuer_codes: Vec::new(),
    });
    let layout = Layout { params: vec![param("criteria", 50)] };
    match encode(&input, &layout) {
        Err(e) => assert_eq!(e, EncodeError::IndexCollision(54)),
        Ok(_) => panic!("the overlapping write must be reported"),
    }
}

#[test]
fn predicates_follow_condition_strides() {
    let mut input = empty_input();
    input.criteria.conditions.push(Condition {
        attr_code: String::from("0x61"),
        operator: 3,
        value: 7,
        issuer_codes: vec![String::from("0x71")],
    });
    input.criteria.predicates.push(11);
    input.criteria.predicates.push(12);
    let layout = Layout { params: vec![param("criteria", 50)] };
    let w = encode(&input, &layout).expect("encoding must succeed");
    assert_eq!(limbs_at(&w, 54), vec![11]); // 50 + 4*1 + 0
    assert_eq!(limbs_at(&w, 55), vec![12]);
}

#[test]
fn public_keys_three_slots_each() {
    let mut input = empty_input();
    input.public_keys.push(Issuer {
        issuer_code: String::from("0x81"),
        public_key: Point { x: String::from("0x82"), y: String::from("0x83") },
    });
    input.public_keys.push(Issuer {
        issuer_code: String::from("0x91"),
        public_key: Point { x: String::from("0x92"), y: String::from("0x93") },
    });
    let layout = Layout { params: vec![param("public_keys", 10)] };
    let w = encode(&input, &layout).expect("encoding must succeed");
    assert_eq!(limbs_at(&w, 10), vec![0x81]);
    assert_eq!(limbs_at(&w, 11), vec![0x82]);
    assert_eq!(limbs_at(&w, 12), vec![0x83]);
    assert_eq!(limbs_at(&w, 13), vec![0x91]);
    assert_eq!(limbs_at(&w, 14), vec![0x92]);
    assert_eq!(limbs_at(&w, 15), vec![0x93]);
}

#[test]
fn proving_time_single_scalar() {
    let mut input = empty_input();
    input.proving_time = 42;
    let layout = Layout { params: vec![param("proving_time", 7)] };
    let w = encode(&input, &layout).expect("encoding must succeed");
    assert_eq!(w.len(), 1);
    assert_eq!(limbs_at(&w, 7), vec![42]);
}

#[test]
fn unknown_names_are_ignored() {
    // unknown ABI field names are skipped without raising an error
    let mut input = empty_input();
    input.proving_time = 5;
    let layout = Layout {
        params: vec![param("mystery_field", 3), param("proving_time", 0), param("return", 9)],
    };
    let w = encode(&input, &layout).expect("unknown names must not fail the pass");
    assert_eq!(w.len(), 1);
    assert_eq!(limbs_at(&w, 0), vec![5]);
    assert!(w.get(3).is_none());
    assert!(w.get(9).is_none());
}

#[test]
fn encoding_is_deterministic() {
    let mut input = empty_input();
    input.proving_time = 3;
    input.revocation_roots.push(String::from("0xAB"));
    input.credentials.push(plain_credential());
    let layout = Layout {
        params: vec![
            param("proving_time", 0),
            param("revocation_roots", 1),
            param("credentials", 10),
        ],
    };
    let w1 = encode(&input, &layout).expect("first pass must succeed");
    let w2 = encode(&input, &layout).expect("second pass must succeed");
    assert_eq!(w1.len(), w2.len());
    let mut i = 0;
    while i < w1.len() {
        assert_eq!(w1.index_at(i), w2.index_at(i));
        assert_eq!(w1.element_at(i).limbs(), w2.element_at(i).limbs());
        i += 1;
    }
}

#[test]
fn cross_segment_collision_detected() {
    let mut input = empty_input();
    input.proving_time = 1;
    input.revocation_roots.push(String::from("0x5"));
    let layout = Layout {
        params: vec![param("proving_time", 5), param("revocation_roots", 5)],
    };
    match encode(&input, &layout) {
        Err(e) => assert_eq!(e, EncodeError::IndexCollision(5)),
        Ok(_) => panic!("the overlapping write must be reported"),
    }
}

#[test]
fn sibling_capacity_is_enforced() {
    let mut cred = plain_credential();
    let mut j = 0;
    while j < 33 {
        cred.non_revocation_proof.siblings.push(String::from("0x1"));
        j += 1;
    }
    let mut input = empty_input();
    input.credentials.push(cred);
    let layout = Layout { params: vec![param("credentials", 0)] };
    match encode(&input, &layout) {
        Err(e) => assert_eq!(e, EncodeError::CapacityExceeded(0)),
        Ok(_) => panic!("the oversized zone must be reported"),
    }
}

#[test]
fn thirty_two_siblings_fill_the_zone() {
    let mut cred = plain_credential();
    let mut j = 0;
    while j < 32 {
        cred.non_revocation_proof.siblings.push(String::from("0x1"));
        j += 1;
    }
    let mut input = empty_input();
    input.credentials.push(cred);
    let layout = Layout { params: vec![param("credentials", 0)] };
    let w = encode(&input, &layout).expect("a full zone must still encode");
    assert_eq!(limbs_at(&w, 36), vec![1]); // last sibling at 5 + 31
    assert_eq!(limbs_at(&w, 37), vec![0x31]); // old_item right after
    assert_eq!(limbs_at(&w, 38), vec![1]); // is_old_0
    assert_eq!(limbs_at(&w, 39), vec![2]); // issuer_index at 5 + 34
}

#[test]
fn malformed_root_reports_its_path() {
    let mut input = empty_input();
    input.revocation_roots.push(String::from("0x5"));
    input.revocation_roots.push(String::from("nope!"));
    let layout = Layout { params: vec![param("revocation_roots", 0)] };
    match encode(&input, &layout) {
        Err(e) => assert_eq!(e, EncodeError::MalformedHex(WitnessPath::RevocationRoot(1))),
        Ok(_) => panic!("the malformed value must be reported"),
    }
}

#[test]
fn malformed_claim_reports_its_path() {
    let mut cred = plain_credential();
    cred.claims.push(Claim { code: String::from("0xGG"), value: 1 });
    let mut input = empty_input();
    input.credentials.push(cred);
    let layout = Layout { params: vec![param("credentials", 0)] };
    match encode(&input, &layout) {
        Err(e) => assert_eq!(e, EncodeError::MalformedHex(WitnessPath::ClaimCode(0, 0))),
        Ok(_) => panic!("the malformed value must be reported"),
    }
}

#[test]
fn index_overflow_detected() {
    let mut input = empty_input();
    input.revocation_roots.push(String::from("0x1"));
    input.revocation_roots.push(String::from("0x2"));
    let layout = Layout { params: vec![param("revocation_roots", u32::MAX)] };
    match encode(&input, &layout) {
        Err(e) => assert_eq!(e, EncodeError::IndexOverflow),
        Ok(_) => panic!("the overflowing index must be reported"),
    }
}

#[test]
fn full_layout_spot_checks() {
    let mut input = empty_input();
    input.proving_time = 77;
    input.revocation_roots.push(String::from("0xAA"));
    input.public_keys.push(Issuer {
        issuer_code: String::from("0x81"),
        public_key: Point { x: String::from("0x82"), y: String::from("0x83") },
    });
    input.criteria.conditions.push(Condition {
        attr_code: String::from("0x61"),
        operator: 1,
        value: 2,
        issuer_codes: vec![String::from("0x71")],
    });
    input.criteria.predicates.push(4);
    let mut cred = plain_credential();
    cred.claims.push(Claim { code: String::from("0x41"), value: 6 });
    input.credentials.push(cred);
    let layout = Layout {
        params: vec![
            param("proving_time", 0),
            param("revocation_roots", 1),
            param("public_keys", 2),
            param("criteria", 5),
            param("credentials", 10),
        ],
    };
    let w = encode(&input, &layout).expect("encoding must succeed");
    // 1 + 1 + 3 + (4 + 1) + (8 + 2)
    assert_eq!(w.len(), 20);
    assert_eq!(limbs_at(&w, 0), vec![77]);
    assert_eq!(limbs_at(&w, 1), vec![0xAA]);
    assert_eq!(limbs_at(&w, 4), vec![0x83]);
    assert_eq!(limbs_at(&w, 9), vec![4]); // predicate after 5 + 4*1
    assert_eq!(limbs_at(&w, 10), vec![0x11]); // subject
    assert_eq!(limbs_at(&w, 11), vec![0x41]); // claim code
    assert_eq!(limbs_at(&w, 12), vec![6]); // claim value
    assert_eq!(limbs_at(&w, 13), vec![9]); // expired
    assert_eq!(limbs_at(&w, 51), vec![2]); // issuer_index at 10 + 39 + 2
}
