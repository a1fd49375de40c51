//! The structured input document: credentials, claims, signatures,
//! non-revocation proofs and the access-control policy, exactly as the
//! prover's input file carries them.  Hexadecimal values stay strings here;
//! the encoder turns them into field elements.

use vstd::prelude::*;

verus! {

/// An elliptic-curve point: a coordinate pair of hexadecimal strings.
pub struct Point {
    pub x: String,
    pub y: String,
}

/// A signature: scalar `s` and point `r8`, three logical field values.
pub struct Signature {
    pub s: String,
    pub r8: Point,
}

/// One policy predicate atom.
pub struct Condition {
    pub attr_code: String,
    pub operator: u8,
    pub value: u8,
    pub issuer_codes: Vec<String>,
}

/// The access-control policy: predicates over conditions.
pub struct AccessControlCriteria {
    pub predicates: Vec<u8>,
    pub conditions: Vec<Condition>,
}

/// One attribute assertion inside a credential.
pub struct Claim {
    pub code: String,
    pub value: u8,
}

/// A Merkle exclusion proof against a revocation accumulator.
pub struct ExclusionMerkleTreeProof {
    pub siblings: Vec<String>,
    pub old_item: String,
    pub is_old_0: u8,
}

/// One verifiable credential.
pub struct Credential {
    pub subject_code: String,
    pub claims: Vec<Claim>,
    pub expired_date: u8,
    pub signature: Signature,
    pub non_revocation_proof: ExclusionMerkleTreeProof,
    pub issuer_index: u8,
}

/// An issuer: its code and public key.
pub struct Issuer {
    pub issuer_code: String,
    pub public_key: Point,
}

/// The root input document.
pub struct Input {
    pub proving_time: u8,
    pub revocation_roots: Vec<String>,
    pub criteria: AccessControlCriteria,
    pub credentials: Vec<Credential>,
    pub public_keys: Vec<Issuer>,
}

} // verus!
