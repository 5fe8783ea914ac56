use crypto_lib::accumulator::{acc, acc_fixed64, concat_and_hash, hash_block64, prove, prove_ext, verify, verify_ext, verify_previous};
use rand::seq::SliceRandom;
use rand::Rng;

fn hash(v: &Vec<u8>) -> Vec<u8> {
    hash_block64(v)
}

fn random_values(num_bytes: u32) -> Vec<Vec<u8>> {
    let mut rng = rand::rng();
    (0..num_bytes).map(|_| (0..1).map(|_| rng.random_range(0..=255)).collect()).collect()
}

#[test]
fn test_acc_simple_root() {
    let values = vec![vec![0xde, 0xad], vec![0xbe, 0xef]];
    let expected_root = concat_and_hash(&hash(&values[0]), &hash(&values[1]));
    let root = acc(&values);
    assert_eq!(expected_root, root);
}

#[test]
fn test_proof_simple_tree() {
    let values = vec![vec![0xde, 0xad], vec![0xbe, 0xef]];
    let indices = vec![0];
    let expected_proof = vec![vec![hash(&values[1])]];
    let proof = prove(&values, &indices);
    assert_eq!(expected_proof, proof);
}

#[test]
fn multi_leaf_proofs_verify_for_random_subsets() {
    let mut rng = rand::rng();
    for i in 1..100u32 {
        let values: Vec<Vec<u8>> = random_values(i);
        let h = acc(&values);
        let num_indices = rng.random_range(1..=i as usize);
        let mut indices: Vec<u32> = (0..i).collect();
        indices.shuffle(&mut rng);
        indices.truncate(num_indices);
        indices.sort();
        let proof_values: Vec<Vec<u8>> = indices.iter().map(|&idx| values[idx as usize].clone()).collect();
        let proof = prove(&values, &indices);
        assert!(verify(&h, &indices, &proof_values, &proof), "Verification failed for i = {}", 1);
    }
}

#[test]
fn extension_proofs_verify_for_every_prefix() {
    for i in 2..100u32 {
        let values: Vec<Vec<u8>> = random_values(i);
        let prev_h = acc(&values[..(i - 1) as usize]);
        let curr_h = acc(&values);
        let proof = prove_ext(&values);
        assert!(verify_ext(i - 1, &prev_h, &curr_h, values.last().unwrap(), &proof), "Verification failed for i = {}", i);
    }
}

#[test]
fn acc_and_acc_fixed64_agree_on_64_byte_leaves() {
    for n in 1..40usize {
        let values: Vec<Vec<u8>> = (0..n).map(|i| vec![(i * 7 + 1) as u8; 64]).collect();
        assert_eq!(acc(&values), acc_fixed64(&values));
        assert_eq!(acc_fixed64(&values), acc_fixed64(&values));
    }
}

#[test]
fn acc_of_empty_sequence_is_empty() {
    let values: Vec<Vec<u8>> = vec![];
    assert!(acc(&values).is_empty());
    assert!(acc_fixed64(&values).is_empty());
}

#[test]
fn acc_promotes_odd_node_unchanged() {
    let values = vec![vec![1u8], vec![2u8], vec![3u8]];
    let left = concat_and_hash(&hash(&values[0]), &hash(&values[1]));
    let expected = concat_and_hash(&left, &hash(&values[2]));
    assert_eq!(acc(&values), expected);
}

#[test]
fn leaf_hash_pads_and_truncates_to_64_bytes() {
    let short = vec![0xAAu8; 3];
    let mut padded = short.clone();
    padded.resize(64, 0);
    assert_eq!(hash_block64(&short), hash_block64(&padded));
    let long = vec![0x55u8; 80];
    assert_eq!(hash_block64(&long), hash_block64(&long[..64]));
    assert_ne!(hash_block64(&short), short);
    assert_eq!(hash_block64(&short).len(), 32);
}

#[test]
fn prove_with_unsorted_indices_matches_sorted() {
    let values = random_values(37);
    let a = prove(&values, &[30, 2, 17]);
    let b = prove(&values, &[2, 17, 30]);
    assert_eq!(a, b);
    let proof_values: Vec<Vec<u8>> = vec![values[2].clone(), values[17].clone(), values[30].clone()];
    assert!(verify(&acc(&values), &vec![2, 17, 30], &proof_values, &b));
    assert!(verify(&acc(&values), &vec![30, 2, 17], &vec![values[30].clone(), values[2].clone(), values[17].clone()], &a));
}

#[test]
fn verify_rejects_wrong_root_value_or_count() {
    let values = random_values(9);
    let root = acc(&values);
    let proof = prove(&values, &[4]);
    assert!(verify(&root, &vec![4], &[values[4].clone()], &proof));
    let mut other = values[4].clone();
    other[0] ^= 0xFF;
    assert!(!verify(&root, &vec![4], &[other], &proof));
    let mut bad_root = root.clone();
    bad_root[0] ^= 1;
    assert!(!verify(&bad_root, &vec![4], &[values[4].clone()], &proof));
    assert!(!verify(&root, &vec![4, 5], &[values[4].clone()], &proof));
    assert!(!verify(&root, &vec![], &[], &proof));
}

#[test]
fn extension_proof_of_five_values() {
    let values: Vec<Vec<u8>> = (0..5u8).map(|i| vec![i; 3]).collect();
    let proof = prove_ext(&values);
    let prev = acc(&values[..4]);
    assert!(verify_previous(&prev, &proof));
    assert!(verify_ext(4, &prev, &acc(&values), &values[4], &proof));
    assert!(!verify_ext(4, &acc(&values[..3]), &acc(&values), &values[4], &proof));
}

#[test]
fn prove_on_empty_claim_is_empty() {
    let values = random_values(5);
    assert!(prove(&values, &[]).is_empty());
    let one = random_values(1);
    assert!(prove(&one, &[0]).is_empty());
}

use crypto_lib::compiler::compile_circuit_v2;
use crypto_lib::encryption::encrypt_with_iv;
use crypto_lib::primitives::sha256;
use crypto_lib::protocol::{
    acc_ct, compute_proof_right_v2, compute_proofs_left_v2, compute_proofs_v2, evaluate_circuit_v2_wasm, hpre_v2,
};

#[test]
fn dispute_round_on_ten_block_file() {
    let pt = vec![0xCCu8; 640];
    let key = [0xAAu8; 16];
    let iv = [0x01u8; 16];
    let ct = encrypt_with_iv(&pt, &key, &iv);
    let circuit = compile_circuit_v2(&ct, &sha256(&pt));
    let num_blocks = circuit.num_blocks as usize;
    let num_gates = circuit.gates.len();
    assert_eq!(num_blocks, 10);
    assert_eq!(num_gates, 10 + 2 + 11 + 1 + 1);
    let evaluated = evaluate_circuit_v2_wasm(&circuit, &ct, &key);
    assert_eq!(evaluated.values.last().unwrap()[0], 1);
    assert_eq!(&evaluated.values[num_blocks][..64], &[0xCCu8; 64][..]);
    let outputs = evaluated.values[num_blocks..].to_vec();
    let i = num_gates / 2;
    let h_i = hpre_v2(&evaluated, num_blocks, i);
    assert_eq!(h_i, acc(&outputs[..i]));
    let h_prev = hpre_v2(&evaluated, num_blocks, i - 1);
    let bundle = compute_proofs_v2(&circuit, &evaluated, &ct, i as u32);
    assert_eq!(bundle.curr_acc, h_i);
    assert!(verify_ext((i - 1) as u32, &h_prev, &bundle.curr_acc, &outputs[i - 1], &bundle.proof_ext));
    let encoded: Vec<Vec<u8>> = circuit.gates.iter().map(|g| g.encode()).collect();
    let h_circuit = acc(&encoded);
    assert_eq!(bundle.gate_bytes, circuit.gates[i - 1].encode());
    assert!(verify(&h_circuit, &vec![(i - 1) as u32], &[bundle.gate_bytes.clone()], &bundle.proof1));
    let g = &circuit.gates[i - 1];
    let positive: Vec<u32> = g.sons.iter().filter(|&&s| s > 0).map(|&s| (s - 1) as u32).collect();
    let pos_values: Vec<Vec<u8>> = positive.iter().map(|&p| outputs[p as usize].clone()).collect();
    let h_prefix = acc(&outputs[..i - 1]);
    assert!(verify(&h_prefix, &positive, &pos_values, &bundle.proof3));
}

#[test]
fn dispute_first_gate_proves_ciphertext_block() {
    let pt = b"Hello, World!".to_vec();
    let key = [0x11u8; 16];
    let iv = [0x22u8; 16];
    let ct = encrypt_with_iv(&pt, &key, &iv);
    let circuit = compile_circuit_v2(&ct, &sha256(&pt));
    let evaluated = evaluate_circuit_v2_wasm(&circuit, &ct, &key);
    let bundle = compute_proofs_left_v2(&circuit, &evaluated, &ct, 1);
    assert!(bundle.proof3.is_empty());
    assert_eq!(bundle.values.len(), 1);
    let h_ct = acc_ct(&ct, 64);
    let mut block = ct[16..].to_vec();
    block.resize(64, 0);
    assert_eq!(bundle.values[0], block);
    assert!(verify(&h_ct, &vec![1], &[block], &bundle.proof2));
    let first = evaluated.values[circuit.num_blocks as usize].clone();
    assert_eq!(bundle.curr_acc, acc(&[first.clone()]));
    assert!(verify(&bundle.curr_acc, &vec![0], &[first], &bundle.proof_ext));
}

#[test]
fn dispute_last_step_proves_final_output() {
    let pt = vec![0x5Au8; 130];
    let key = [0x33u8; 16];
    let iv = [0x44u8; 16];
    let ct = encrypt_with_iv(&pt, &key, &iv);
    let circuit = compile_circuit_v2(&ct, &sha256(&pt));
    let evaluated = evaluate_circuit_v2_wasm(&circuit, &ct, &key);
    let nb = circuit.num_blocks;
    let ng = circuit.gates.len() as u32;
    let proof = compute_proof_right_v2(&evaluated, nb, ng);
    let outputs = evaluated.values[nb as usize..].to_vec();
    let root = acc(&outputs);
    assert!(verify(&root, &vec![ng - 1], &[outputs[(ng - 1) as usize].clone()], &proof));
    assert_eq!(outputs.last().unwrap()[0], 1);
}

#[test]
fn hpre_past_the_end_accumulates_to_the_end() {
    let pt = vec![0x01u8; 10];
    let key = [0x02u8; 16];
    let ct = encrypt_with_iv(&pt, &key, &[0u8; 16]);
    let circuit = compile_circuit_v2(&ct, &sha256(&pt));
    let evaluated = evaluate_circuit_v2_wasm(&circuit, &ct, &key);
    let nb = circuit.num_blocks as usize;
    let all = acc(&evaluated.values[nb..]);
    assert_eq!(hpre_v2(&evaluated, nb, circuit.gates.len() + 5), all);
    assert!(hpre_v2(&evaluated, evaluated.values.len(), 1).is_empty());
}
