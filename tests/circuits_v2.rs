use crypto_lib::accumulator::{hash_block64, normalize_64};
use crypto_lib::aes_ctr;
use crypto_lib::compiler::{compile_circuit_v2, increment_iv};
use crypto_lib::eval::evaluate_circuit_v2;
use crypto_lib::gate::{GateV2, OPCODE_AES_CTR, OPCODE_COMP, OPCODE_CONST, OPCODE_SHA2, OPCODE_XOR};
use crypto_lib::primitives::sha256;
use crypto_lib::sha256::sha256_compress;

fn build_ct(pt: &[u8], key: &[u8], iv: &[u8]) -> Vec<u8> {
    let mut ct = iv.to_vec();
    let mut offset = 0usize;
    while offset < pt.len() {
        let chunk = &pt[offset..usize::min(offset + 64, pt.len())];
        let block_idx = offset / 64;
        let ctr = increment_iv(iv, (block_idx * 4) as u64).to_vec();
        let keystream = aes_ctr::encrypt_block(&vec![&key.to_vec(), &vec![0u8; chunk.len()], &ctr]);
        let ct_block: Vec<u8> = chunk.iter().zip(keystream.iter()).map(|(p, k)| p ^ k).collect();
        ct.extend_from_slice(&ct_block);
        offset += 64;
    }
    ct
}

fn slice_ciphertext_blocks(ct: &[u8]) -> Vec<Vec<u8>> {
    let mut v = Vec::new();
    let mut start = 16;
    while start < ct.len() {
        let end = usize::min(start + 64, ct.len());
        v.push(ct[start..end].to_vec());
        start = end;
    }
    v
}

#[test]
fn test_encode_gate_size() {
    let g = GateV2 { opcode: OPCODE_CONST, sons: vec![1], params: vec![0xAB; 32] };
    let enc = g.encode();
    assert_eq!(enc.len(), 64);
    assert_eq!(enc[0], OPCODE_CONST);
}

#[test]
fn test_eval_const_xor_comp() {
    let g1 = GateV2 { opcode: OPCODE_CONST, sons: vec![], params: vec![1u8; 32] };
    let g2 = GateV2 { opcode: OPCODE_CONST, sons: vec![], params: vec![2u8; 32] };
    let g3 = GateV2 { opcode: OPCODE_XOR, sons: vec![1, 2], params: vec![] };
    let g4 = GateV2 { opcode: OPCODE_COMP, sons: vec![3, 3], params: vec![] };
    let values = evaluate_circuit_v2(&[g1, g2, g3, g4], &[], &[0u8; 16]);
    assert_eq!(values[0][0], 1);
    assert_eq!(values[1][0], 2);
    assert_eq!(values[2][0], 1 ^ 2);
    assert_eq!(values[3][0], 1);
}

#[test]
fn test_circuit_v2_end_to_end_single_block() {
    let key = vec![0u8; 16];
    let iv = vec![0u8; 16];
    let pt = b"hello world";
    let keystream = aes_ctr::encrypt_block(&vec![&key, &vec![0u8; pt.len()], &iv]);
    let ct_block: Vec<u8> = pt.iter().zip(keystream.iter()).map(|(p, k)| p ^ k).collect();
    let mut ct = iv.clone();
    ct.extend_from_slice(&ct_block);
    let description = sha256(pt);
    let circuit = compile_circuit_v2(&ct, &description);
    let inputs = vec![ct[16..].to_vec()];
    for (idx, g) in circuit.gates.iter().enumerate() {
        let current_gate_num = (idx + 1) as i64;
        for &s in &g.sons {
            if s > 0 {
                assert!(
                    s < current_gate_num,
                    "gate g_{} references future gate g_{} (must be <= g_{})",
                    current_gate_num,
                    s,
                    current_gate_num - 1
                );
            } else if s == 0 {
                panic!("Gate index cannot be 0 (gates are 1-indexed)");
            }
        }
    }
    let values = evaluate_circuit_v2(&circuit.gates, &inputs, &key);
    let padded_manual = {
        let mut blk = vec![0u8; 64];
        blk[..pt.len()].copy_from_slice(pt);
        blk[pt.len()] = 0x80;
        blk[56..].copy_from_slice(&(pt.len() as u64 * 8).to_be_bytes());
        blk
    };
    assert_eq!(values[3], padded_manual, "padded block mismatch (AES+padding)");
    let res = values.last().unwrap();
    let final_hash_gate_num = match circuit.gates.last().unwrap().sons[0] {
        s if s > 0 => s,
        _ => unreachable!(),
    };
    let final_hash_idx = (final_hash_gate_num - 1) as usize;
    assert_eq!(&values[final_hash_idx][..32], sha256(pt).as_slice(), "hash mismatch");
    assert_eq!(res[0], 1, "final comparison should succeed");
}

#[test]
fn test_circuit_v2_end_to_end_multi_block() {
    let key = vec![1u8; 16];
    let iv = vec![2u8; 16];
    let pt = vec![0xAB; 80];
    let mut ct = iv.clone();
    let mut offset = 0usize;
    while offset < pt.len() {
        let chunk = &pt[offset..usize::min(offset + 64, pt.len())];
        let block_idx = offset / 64;
        let counter = increment_iv(&iv, (block_idx * 4) as u64).to_vec();
        let keystream = aes_ctr::encrypt_block(&vec![&key, &vec![0u8; chunk.len()], &counter]);
        let ct_block: Vec<u8> = chunk.iter().zip(keystream.iter()).map(|(p, k)| p ^ k).collect();
        ct.extend_from_slice(&ct_block);
        offset += 64;
    }
    let description = sha256(&pt);
    let circuit = compile_circuit_v2(&ct, &description);
    let inputs = {
        let mut v = Vec::new();
        let mut start = 16;
        while start < ct.len() {
            let end = usize::min(start + 64, ct.len());
            v.push(ct[start..end].to_vec());
            start = end;
        }
        v
    };
    let values = evaluate_circuit_v2(&circuit.gates, &inputs, &key);
    assert_eq!(&values[0][..64], &pt[..64], "block0 plaintext mismatch");
    assert_eq!(&values[1][..16], &pt[64..], "block1 plaintext mismatch");
    let padded_manual = {
        let mut blk = vec![0u8; 64];
        blk[..16].copy_from_slice(&pt[64..]);
        blk[16] = 0x80;
        blk[56..].copy_from_slice(&(pt.len() as u64 * 8).to_be_bytes());
        blk
    };
    assert_eq!(values[4], padded_manual, "padded last block mismatch");
    let res = values.last().unwrap();
    let hash_gate_num = match circuit.gates.last().unwrap().sons[0] {
        s if s > 0 => s,
        _ => unreachable!(),
    };
    let hash_idx = (hash_gate_num - 1) as usize;
    assert_eq!(&values[hash_idx][..32], sha256(&pt).as_slice(), "hash mismatch on multi-block");
    assert_eq!(res[0], 1, "final comparison should succeed on multi-block");
}

fn run_and_check(pt: &[u8], key: &[u8], iv: &[u8]) -> u8 {
    let ct = build_ct(pt, key, iv);
    let description = sha256(pt);
    let circuit = compile_circuit_v2(&ct, &description);
    let inputs = slice_ciphertext_blocks(&ct);
    let values = evaluate_circuit_v2(&circuit.gates, &inputs, key);
    values.last().unwrap()[0]
}

#[test]
fn test_circuit_v2_end_to_end_extra_padding_block() {
    let key = vec![3u8; 16];
    let iv = vec![4u8; 16];
    let pt = vec![0x11; 120];
    assert_eq!(run_and_check(&pt, &key, &iv), 1, "final comparison should succeed with extra pad");
}

#[test]
fn test_circuit_v2_end_to_end_wrong_description() {
    let key = vec![5u8; 16];
    let iv = vec![6u8; 16];
    let pt = b"wrong hash case";
    let ct = build_ct(pt, &key, &iv);
    let bogus_desc = sha256(b"something else");
    let circuit = compile_circuit_v2(&ct, &bogus_desc);
    let inputs = slice_ciphertext_blocks(&ct);
    let values = evaluate_circuit_v2(&circuit.gates, &inputs, &key);
    let res = values.last().unwrap();
    assert_eq!(res[0], 0, "comparison should fail with wrong hash");
}

#[test]
fn test_circuit_v2_single_byte() {
    assert_eq!(run_and_check(&[0xAB], &[0x12u8; 16], &[0x34u8; 16]), 1, "single byte should verify correctly");
}

#[test]
fn test_circuit_v2_exactly_64_bytes() {
    assert_eq!(run_and_check(&[0xCD; 64], &[0x56u8; 16], &[0x78u8; 16]), 1, "exactly 64 bytes should verify correctly");
}

#[test]
fn test_circuit_v2_exactly_55_bytes() {
    assert_eq!(run_and_check(&[0xEF; 55], &[0x9Au8; 16], &[0xBCu8; 16]), 1, "exactly 55 bytes should verify correctly");
}

#[test]
fn test_circuit_v2_exactly_56_bytes() {
    assert_eq!(run_and_check(&[0x12; 56], &[0xDEu8; 16], &[0xF0u8; 16]), 1, "exactly 56 bytes should verify correctly");
}

#[test]
fn test_circuit_v2_three_blocks() {
    assert_eq!(run_and_check(&[0x33; 192], &[0x11u8; 16], &[0x22u8; 16]), 1, "three blocks should verify correctly");
}

#[test]
fn test_circuit_v2_large_file() {
    assert_eq!(run_and_check(&[0xCC; 640], &[0xAAu8; 16], &[0xBBu8; 16]), 1, "large file (10 blocks) should verify correctly");
}

#[test]
fn test_circuit_v2_random_data() {
    let pt: Vec<u8> = (0..200).map(|i| (i * 3 + 7) as u8).collect();
    assert_eq!(run_and_check(&pt, &[0x42u8; 16], &[0x84u8; 16]), 1, "random data should verify correctly");
}

#[test]
fn test_circuit_v2_different_keys() {
    let key1 = vec![0x11u8; 16];
    let key2 = vec![0x22u8; 16];
    let iv = vec![0x33u8; 16];
    let pt = b"test data";
    let ct1 = build_ct(pt, &key1, &iv);
    let ct2 = build_ct(pt, &key2, &iv);
    assert_ne!(ct1[16..], ct2[16..], "different keys should produce different ciphertexts");
    let description = sha256(pt);
    let circuit1 = compile_circuit_v2(&ct1, &description);
    let circuit2 = compile_circuit_v2(&ct2, &description);
    let inputs1 = slice_ciphertext_blocks(&ct1);
    let inputs2 = slice_ciphertext_blocks(&ct2);
    let values1 = evaluate_circuit_v2(&circuit1.gates, &inputs1, &key1);
    let values2 = evaluate_circuit_v2(&circuit2.gates, &inputs2, &key2);
    assert_eq!(values1.last().unwrap()[0], 1, "key1 should verify correctly");
    assert_eq!(values2.last().unwrap()[0], 1, "key2 should verify correctly");
}

#[test]
fn test_circuit_v2_gate_references() {
    let key = vec![0x55u8; 16];
    let iv = vec![0x66u8; 16];
    let pt = vec![0x77; 150];
    let ct = build_ct(&pt, &key, &iv);
    let description = sha256(&pt);
    let circuit = compile_circuit_v2(&ct, &description);
    for (idx, gate) in circuit.gates.iter().enumerate() {
        let current_gate_num = (idx + 1) as i64;
        for &son_idx in &gate.sons {
            if son_idx > 0 {
                assert!(
                    son_idx < current_gate_num,
                    "gate g_{} references future gate g_{} (must be < g_{})",
                    current_gate_num,
                    son_idx,
                    current_gate_num
                );
                assert_ne!(son_idx, 0, "gate index cannot be 0 (gates are 1-indexed)");
            } else if son_idx < 0 {
                let input_idx = (-son_idx - 1) as usize;
                let num_inputs = circuit.num_blocks as usize;
                assert!(
                    input_idx < num_inputs,
                    "gate g_{} references invalid dummy gate g_{} (max: g_{{{}}})",
                    current_gate_num,
                    son_idx,
                    num_inputs
                );
            }
        }
    }
}

#[test]
fn test_circuit_v2_all_opcodes_used() {
    let key = vec![0x88u8; 16];
    let iv = vec![0x99u8; 16];
    let pt = vec![0xAA; 100];
    let ct = build_ct(&pt, &key, &iv);
    let description = sha256(&pt);
    let circuit = compile_circuit_v2(&ct, &description);
    let mut opcodes_used = std::collections::HashSet::new();
    for gate in &circuit.gates {
        opcodes_used.insert(gate.opcode);
    }
    assert!(opcodes_used.contains(&OPCODE_AES_CTR), "AES_CTR opcode should be used");
    assert!(opcodes_used.contains(&OPCODE_SHA2), "SHA2 opcode should be used");
    assert!(opcodes_used.contains(&OPCODE_CONST), "CONST opcode should be used");
    assert!(opcodes_used.contains(&OPCODE_XOR), "XOR opcode should be used");
    assert!(opcodes_used.contains(&OPCODE_COMP), "COMP opcode should be used");
}

#[test]
fn test_circuit_v2_hash_chain_correctness() {
    let key = vec![0x11u8; 16];
    let iv = vec![0x22u8; 16];
    let pt = vec![0x33; 80];
    let ct = build_ct(&pt, &key, &iv);
    let description = sha256(&pt);
    let circuit = compile_circuit_v2(&ct, &description);
    let inputs = slice_ciphertext_blocks(&ct);
    let values = evaluate_circuit_v2(&circuit.gates, &inputs, &key);
    let final_hash_gate_num = match circuit.gates.last().unwrap().sons[0] {
        s if s > 0 => s,
        _ => unreachable!(),
    };
    let final_hash_idx = (final_hash_gate_num - 1) as usize;
    let computed_hash = &values[final_hash_idx][..32];
    let expected_hash = sha256(&pt);
    assert_eq!(computed_hash, expected_hash.as_slice(), "computed hash should match expected SHA256 hash");
}

#[test]
fn test_circuit_v2_padding_preserves_data() {
    let key = vec![0x44u8; 16];
    let iv = vec![0x55u8; 16];
    let pt = b"Hello, World! This is a test message.";
    let ct = build_ct(pt, &key, &iv);
    let description = sha256(pt);
    let circuit = compile_circuit_v2(&ct, &description);
    let inputs = slice_ciphertext_blocks(&ct);
    let values = evaluate_circuit_v2(&circuit.gates, &inputs, &key);
    assert_eq!(&values[0][..pt.len()], pt, "decrypted first block should match original plaintext");
}

#[test]
fn test_circuit_v2_multiple_verifications() {
    let key = vec![0x66u8; 16];
    let iv = vec![0x77u8; 16];
    let pt = vec![0x88; 100];
    let ct = build_ct(&pt, &key, &iv);
    let description = sha256(&pt);
    let circuit = compile_circuit_v2(&ct, &description);
    let inputs = slice_ciphertext_blocks(&ct);
    for _ in 0..5 {
        let values = evaluate_circuit_v2(&circuit.gates, &inputs, &key);
        let res = values.last().unwrap();
        assert_eq!(res[0], 1, "circuit should verify correctly on multiple evaluations");
    }
}

#[test]
fn test_circuit_v2_explicit_values() {
    let plaintext = b"Hello, World!";
    let key: Vec<u8> = vec![
        0x00, 0x01, 0x02, 0x03, 0x04, 0x05, 0x06, 0x07, 0x08, 0x09, 0x0A, 0x0B, 0x0C, 0x0D, 0x0E, 0x0F,
    ];
    let iv: Vec<u8> = vec![
        0x10, 0x11, 0x12, 0x13, 0x14, 0x15, 0x16, 0x17, 0x18, 0x19, 0x1A, 0x1B, 0x1C, 0x1D, 0x1E, 0x1F,
    ];
    let keystream = aes_ctr::encrypt_block(&vec![&key, &vec![0u8; plaintext.len()], &iv]);
    let ct_block: Vec<u8> = plaintext.iter().zip(keystream.iter()).map(|(p, k)| p ^ k).collect();
    let mut ciphertext = iv.clone();
    ciphertext.extend_from_slice(&ct_block);
    let description = sha256(plaintext);
    let circuit = compile_circuit_v2(&ciphertext, &description);
    let inputs = slice_ciphertext_blocks(&ciphertext);
    let values = evaluate_circuit_v2(&circuit.gates, &inputs, &key);
    let decrypted_pt = &values[0][..plaintext.len()];
    assert_eq!(decrypted_pt, plaintext, "Decrypted plaintext should match original");
    let final_hash_gate_num = match circuit.gates.last().unwrap().sons[0] {
        s if s > 0 => s,
        _ => unreachable!(),
    };
    let final_hash_idx = (final_hash_gate_num - 1) as usize;
    let computed_hash = &values[final_hash_idx][..32];
    assert_eq!(computed_hash, description.as_slice(), "Computed hash should match description");
    let final_result = values.last().unwrap();
    assert_eq!(final_result[0], 1, "Final comparison should succeed (hash matches description)");
    let wrong_description = sha256(b"Wrong message");
    let circuit_wrong = compile_circuit_v2(&ciphertext, &wrong_description);
    let values_wrong = evaluate_circuit_v2(&circuit_wrong.gates, &inputs, &key);
    assert_eq!(values_wrong.last().unwrap()[0], 0, "Final comparison should fail with wrong description");
    let wrong_key: Vec<u8> = vec![0xFFu8; 16];
    let values_wrong_key = evaluate_circuit_v2(&circuit.gates, &inputs, &wrong_key);
    assert_eq!(values_wrong_key.last().unwrap()[0], 0, "Final comparison should fail with wrong key");
}

#[test]
fn test_evaluate_circuit_v2_full_scenario_verification() {
    let plaintext = b"This is a test message for circuit evaluation. It contains multiple blocks to test the full pipeline.";
    let key: Vec<u8> = vec![
        0x2B, 0x7E, 0x15, 0x16, 0x28, 0xAE, 0xD2, 0xA6, 0xAB, 0xF7, 0x15, 0x88, 0x09, 0xCF, 0x4F, 0x3C,
    ];
    let iv: Vec<u8> = vec![
        0xF0, 0xF1, 0xF2, 0xF3, 0xF4, 0xF5, 0xF6, 0xF7, 0xF8, 0xF9, 0xFA, 0xFB, 0xFC, 0xFD, 0xFE, 0xFF,
    ];
    let expected_description = sha256(plaintext);
    let ciphertext = build_ct(plaintext, &key, &iv);
    let circuit = compile_circuit_v2(&ciphertext, &expected_description);
    let mut aes_count = 0;
    let mut sha_count = 0;
    let mut const_count = 0;
    for gate in &circuit.gates {
        match gate.opcode {
            OPCODE_AES_CTR => aes_count += 1,
            OPCODE_SHA2 => sha_count += 1,
            OPCODE_CONST => const_count += 1,
            _ => {}
        }
    }
    let inputs = slice_ciphertext_blocks(&ciphertext);
    assert_eq!(inputs.len(), circuit.num_blocks as usize, "Number of input blocks should match circuit.num_blocks");
    let values = evaluate_circuit_v2(&circuit.gates, &inputs, &key);
    assert_eq!(values.len(), circuit.gates.len(), "Number of gate outputs should match number of gates");
    let mut expected_plaintext_blocks: Vec<Vec<u8>> = Vec::new();
    for i in 0..circuit.num_blocks as usize {
        let pt_start = i * 64;
        let pt_end = usize::min(pt_start + 64, plaintext.len());
        if pt_start < plaintext.len() {
            let mut block = vec![0u8; 64];
            block[..(pt_end - pt_start)].copy_from_slice(&plaintext[pt_start..pt_end]);
            expected_plaintext_blocks.push(block);
        } else {
            expected_plaintext_blocks.push(vec![0u8; 64]);
        }
    }
    let mut aes_idx = 0;
    let mut sha_idx = 0;
    let mut const_idx = 0;
    for (gate_idx, gate) in circuit.gates.iter().enumerate() {
        let gate_num = gate_idx + 1;
        let gate_output = &values[gate_idx];
        match gate.opcode {
            OPCODE_AES_CTR => {
                if aes_idx < expected_plaintext_blocks.len() {
                    let expected_pt = &expected_plaintext_blocks[aes_idx];
                    let actual_pt = &gate_output[..expected_pt.len().min(64)];
                    let expected_pt_slice = &expected_pt[..actual_pt.len()];
                    assert_eq!(
                        actual_pt,
                        expected_pt_slice,
                        "Gate g_{} (AES gate {}) should decrypt to plaintext block {}",
                        gate_num,
                        aes_idx + 1,
                        aes_idx
                    );
                }
                aes_idx += 1;
            }
            OPCODE_SHA2 => {
                assert!(
                    gate_output.len() == 32 || gate_output.len() == 64,
                    "Gate g_{} (SHA2 gate {}) should output 32 or 64 bytes, got {}",
                    gate_num,
                    sha_idx + 1,
                    gate_output.len()
                );
                let hash = if gate_output.len() == 32 { gate_output.to_vec() } else { gate_output[..32].to_vec() };
                let expected_hash = if gate.sons.len() == 1 {
                    let block_idx = (gate.sons[0] - 1) as usize;
                    let block_value = if block_idx < values.len() {
                        normalize_64(&values[block_idx])
                    } else {
                        normalize_64(&inputs[(-gate.sons[0] - 1) as usize])
                    };
                    sha256_compress(&vec![&block_value])
                } else {
                    let prev_hash_idx = (gate.sons[0] - 1) as usize;
                    let block_idx = (gate.sons[1] - 1) as usize;
                    let prev_hash_val = normalize_64(&values[prev_hash_idx]);
                    let block_val = normalize_64(&values[block_idx]);
                    sha256_compress(&vec![&prev_hash_val[..32].to_vec(), &block_val])
                };
                assert_eq!(
                    &hash,
                    &expected_hash,
                    "Gate g_{} (SHA2 gate {}) should output manually computed hash",
                    gate_num,
                    sha_idx + 1
                );
                if sha_idx == sha_count - 1 {
                    assert_eq!(
                        &hash,
                        expected_description.as_slice(),
                        "Gate g_{} (last SHA2) should output the final hash matching description",
                        gate_num
                    );
                }
                sha_idx += 1;
            }
            OPCODE_CONST => {
                if const_idx == const_count - 1 {
                    assert_eq!(
                        &gate_output[..32],
                        expected_description.as_slice(),
                        "Gate g_{} (description CONST) should output description",
                        gate_num
                    );
                    assert_eq!(
                        &gate.params[..32],
                        expected_description.as_slice(),
                        "Gate g_{} (description CONST) params should contain description",
                        gate_num
                    );
                }
                const_idx += 1;
            }
            OPCODE_XOR => {
                assert_eq!(gate_output.len(), 64, "Gate g_{} (XOR) should output 64 bytes", gate_num);
            }
            OPCODE_COMP => {
                assert_eq!(gate_output[0], 1u8, "Gate g_{} (COMP final) should return 1 (success)", gate_num);
                assert_eq!(&gate_output[1..], &[0u8; 63], "Gate g_{} (COMP final) should have zeros after first byte", gate_num);
            }
            _ => {
                panic!("Unknown opcode {} in gate g_{}", gate.opcode, gate_num);
            }
        }
    }
    for i in 0..aes_count {
        let decrypted_block = &values[i];
        let pt_start = i * 64;
        let pt_end = usize::min(pt_start + 64, plaintext.len());
        if pt_start < plaintext.len() {
            let expected_plaintext = &plaintext[pt_start..pt_end];
            let actual_plaintext = &decrypted_block[..(pt_end - pt_start)];
            assert_eq!(actual_plaintext, expected_plaintext, "AES gate {} should decrypt block {} correctly", i + 1, i);
        }
    }
    let comp_gate = circuit.gates.last().unwrap();
    assert_eq!(comp_gate.opcode, OPCODE_COMP, "Last gate should be COMP");
    let final_hash_gate_num = comp_gate.sons[0];
    assert!(final_hash_gate_num > 0, "Final hash gate number should be positive");
    let final_hash_idx = (final_hash_gate_num - 1) as usize;
    let computed_hash = &values[final_hash_idx][..32];
    assert_eq!(computed_hash, expected_description.as_slice(), "Computed SHA256 hash should match expected description");
    let desc_gate_num = comp_gate.sons[1];
    assert!(desc_gate_num > 0, "Description gate number should be positive");
    let desc_gate_idx = (desc_gate_num - 1) as usize;
    let desc_gate = &circuit.gates[desc_gate_idx];
    assert_eq!(desc_gate.opcode, OPCODE_CONST, "Description gate should be CONST");
    assert_eq!(desc_gate.params.len(), 32, "Description gate params should be 32 bytes");
    assert_eq!(&desc_gate.params[..32], expected_description.as_slice(), "Description gate params should contain expected description");
    let desc_output = &values[desc_gate_idx];
    assert_eq!(&desc_output[..32], expected_description.as_slice(), "Description gate output should match expected description");
    let comp_output = values.last().unwrap();
    assert_eq!(comp_output[0], 1u8, "Final COMP gate should return 1 (hash matches description)");
    let mut first_sha_idx = None;
    for (idx, gate) in circuit.gates.iter().enumerate() {
        if gate.opcode == OPCODE_SHA2 {
            first_sha_idx = Some(idx);
            break;
        }
    }
    let first_sha_idx = first_sha_idx.expect("Should have at least one SHA2 gate");
    for i in 0..sha_count {
        let sha_gate = &circuit.gates[first_sha_idx + i];
        assert_eq!(sha_gate.opcode, OPCODE_SHA2, "Gate should be SHA2");
        if i != 0 {
            assert_eq!(sha_gate.sons.len(), 2, "Subsequent SHA2 gates should have arity 2 (prev_hash || block)");
        }
        let sha_output = &values[first_sha_idx + i];
        if sha_output.len() == 64 {
            assert_eq!(&sha_output[32..], &[0u8; 32], "SHA2 output last 32B should be zeros if normalized");
        } else if sha_output.len() != 32 {
            panic!("SHA2 output should be 32 or 64 bytes, got {}", sha_output.len());
        }
        let hash = if sha_output.len() == 32 { &sha_output[..] } else { &sha_output[..32] };
        if i == sha_count - 1 {
            assert_eq!(hash, expected_description.as_slice(), "Last SHA2 hash should match description");
        }
    }
    for (idx, (gate, value)) in circuit.gates.iter().zip(values.iter()).enumerate() {
        if gate.opcode == OPCODE_SHA2 {
            assert!(
                value.len() == 32 || value.len() == 64,
                "SHA2 gate g_{} output should be 32 or 64 bytes, got {} bytes",
                idx + 1,
                value.len()
            );
        }
    }
}

#[test]
fn test_gate_hash_for_solidity_comparison() {
    let gates = vec![
        GateV2 {
            opcode: 0x01,
            sons: vec![-1i64],
            params: {
                let mut p = vec![0u8; 18];
                p[16] = 0x00;
                p[17] = 0x40;
                p
            },
        },
        GateV2 { opcode: 0x02, sons: vec![1i64], params: vec![] },
        GateV2 {
            opcode: 0x03,
            sons: vec![],
            params: {
                let mut p = vec![0u8; 32];
                p[0] = 0x80;
                p
            },
        },
    ];
    for (i, gate) in gates.iter().enumerate() {
        let encoded = gate.encode();
        let hash = hash_block64(&encoded);
        println!("Gate {}:", i + 1);
        println!("  Opcode: 0x{:02x}", gate.opcode);
        println!("  Sons: {:?}", gate.sons);
        println!("  Encoded (64 bytes): {}", hex::encode(&encoded));
        println!("  Hash (Rust): {}", hex::encode(&hash));
    }
}
