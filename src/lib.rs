pub mod util;
pub mod primitives;
pub mod accumulator;
pub mod gate;
pub mod sha256;
pub mod aes_ctr;
pub mod eval;
pub mod compiler;
pub mod circuits;
pub mod encryption;
pub mod commitment;
pub mod protocol;
pub mod simple_operations;
pub mod trace;

pub use protocol::{
    check_precontract, check_received_ct_key, compute_precontract_values_v2, compute_proof_right_v2,
    compute_proofs_left_v2, compute_proofs_v2, evaluate_circuit_v2_wasm, hpre_v2, CheckCtResult,
    CheckPrecontractResult, EvaluatedCircuitV2, FinalStepComponentsV2, Precontract,
};
