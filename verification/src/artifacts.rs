//! The artifact store's file plan: where a circuit directory keeps the proof
//! and the verifying key, and what is written there.  The paths and contents
//! are computed and pinned down here; performing the actual file reads and
//! writes is the caller's part, outside the library.

use vstd::prelude::*;
use vstd::string::StringExecFns;

verus! {

/// One planned file write: the full path and the bytes that belong there.
pub struct ArtifactWrite {
    pub path: String,
    pub contents: Vec<u8>,
}

/// The path of the persisted proof inside a circuit directory.
pub open spec fn proof_path_of(circuit_directory: Seq<char>) -> Seq<char> {
    circuit_directory + "/proofs/myproof.proof"@
}

/// The path of the persisted verifying key inside a circuit directory.
pub open spec fn vk_path_of(circuit_directory: Seq<char>) -> Seq<char> {
    circuit_directory + "/proofs/myvk.vk"@
}

/// The two writes that persist a proof and its verifying key under the
/// circuit's `proofs` directory: first the proof, then the verifying key,
/// each under its fixed file name, with the bytes passed through unchanged.
pub fn save_proof_and_vk(circuit_directory: &str, proof: Vec<u8>, vk: Vec<u8>) -> (r: Vec<
    ArtifactWrite,
>)
    ensures
        r@.len() == 2,
        r@[0].path@ == proof_path_of(circuit_directory@),
        r@[0].contents@ == proof@,
        r@[1].path@ == vk_path_of(circuit_directory@),
        r@[1].contents@ == vk@,
{
    let mut proof_path = String::from_str(circuit_directory);
    proof_path.append("/proofs/myproof.proof");
    let mut vk_path = String::from_str(circuit_directory);
    vk_path.append("/proofs/myvk.vk");
    let mut writes: Vec<ArtifactWrite> = Vec::new();
    writes.push(ArtifactWrite { path: proof_path, contents: proof });
    writes.push(ArtifactWrite { path: vk_path, contents: vk });
    writes
}

/// The two paths a proof and its verifying key are read back from: the same
/// fixed file names under the circuit's `proofs` directory, proof first.
pub fn read_proof_and_vk(circuit_directory: &str) -> (r: (String, String))
    ensures
        r.0@ == proof_path_of(circuit_directory@),
        r.1@ == vk_path_of(circuit_directory@),
{
    let mut proof_path = String::from_str(circuit_directory);
    proof_path.append("/proofs/myproof.proof");
    let mut vk_path = String::from_str(circuit_directory);
    vk_path.append("/proofs/myvk.vk");
    (proof_path, vk_path)
}

} // verus!
