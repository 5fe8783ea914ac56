use crypto_lib::accumulator::acc;
use crypto_lib::aes_ctr::{decrypt_block, encrypt_block};
use crypto_lib::circuits::{array_idx_to_constant_idx, constant_idx_to_array_idx, get_evaluated_sons, is_constant_idx, Gate};
use crypto_lib::commitment::{commit_hashes, commit_with, open_commitment_internal};
use crypto_lib::compiler::{acc_circuit_v2, compile_circuit_v2, increment_iv};
use crypto_lib::encryption::encrypt_with_iv;
use crypto_lib::eval::{evaluate_circuit_v2, xor64};
use crypto_lib::gate::{decode_gate_v2, encode_gate_v2, GateV2, OPCODE_AES_CTR, OPCODE_COMP, OPCODE_CONST, OPCODE_SHA2, OPCODE_XOR};
use crypto_lib::primitives::sha256;
use sha3::Digest;
use crypto_lib::protocol::{
    acc_ct, check_precontract, check_received_ct_key, compute_precontract_values_v2, evaluate_circuit_v2_wasm,
    split_ct_blocks,
};
use crypto_lib::sha256::{sha256_compress, sha256_compress_final, sha256_padding, u32_array_to_u8_vec, u8_array_to_u32_array};
use crypto_lib::simple_operations::{binary_add, binary_mult, concat_bytes, equal};

fn final_byte(pt: &[u8], key: &[u8; 16], iv: &[u8; 16], eval_key: &[u8; 16], desc: &[u8]) -> u8 {
    let ct = encrypt_with_iv(pt, key, iv);
    let circuit = compile_circuit_v2(&ct, desc);
    let evaluated = evaluate_circuit_v2_wasm(&circuit, &ct, eval_key);
    evaluated.values.last().unwrap()[0]
}

#[test]
fn hello_world_single_block() {
    let pt = b"Hello, World!";
    let key: [u8; 16] = [0, 1, 2, 3, 4, 5, 6, 7, 8, 9, 10, 11, 12, 13, 14, 15];
    let iv: [u8; 16] = [0x10, 0x11, 0x12, 0x13, 0x14, 0x15, 0x16, 0x17, 0x18, 0x19, 0x1A, 0x1B, 0x1C, 0x1D, 0x1E, 0x1F];
    let desc = sha256(pt);
    assert_eq!(final_byte(pt, &key, &iv, &key, &desc), 1);
    assert_eq!(final_byte(pt, &key, &iv, &[0xFF; 16], &desc), 0);
    let ct = encrypt_with_iv(pt, &key, &iv);
    let circuit = compile_circuit_v2(&ct, &desc);
    let evaluated = evaluate_circuit_v2_wasm(&circuit, &ct, &key);
    let comp = circuit.gates.last().unwrap();
    let sha_idx = circuit.num_blocks as usize + (comp.sons[0] - 1) as usize;
    assert_eq!(&evaluated.values[sha_idx][..32], desc.as_slice());
}

#[test]
fn boundary_fifty_five_bytes_needs_no_extra_block() {
    let pt = [0xEFu8; 55];
    let ct = encrypt_with_iv(&pt, &[0x9A; 16], &[0xBC; 16]);
    let circuit = compile_circuit_v2(&ct, &sha256(&pt));
    let sha = circuit.gates.iter().filter(|g| g.opcode == OPCODE_SHA2).count();
    assert_eq!(sha, 1);
    assert_eq!(final_byte(&pt, &[0x9A; 16], &[0xBC; 16], &[0x9A; 16], &sha256(&pt)), 1);
}

#[test]
fn boundary_fifty_six_bytes_adds_length_block() {
    let pt = [0x12u8; 56];
    let ct = encrypt_with_iv(&pt, &[0xDE; 16], &[0xF0; 16]);
    let circuit = compile_circuit_v2(&ct, &sha256(&pt));
    let sha = circuit.gates.iter().filter(|g| g.opcode == OPCODE_SHA2).count();
    assert_eq!(sha, 2);
    let mask_head = &circuit.gates[1].params;
    assert_eq!(mask_head.as_slice(), &[0u8; 32][..]);
    let mut tail = vec![0u8; 32];
    tail[24] = 0x80;
    assert_eq!(circuit.gates[2].params, tail);
    assert_eq!(final_byte(&pt, &[0xDE; 16], &[0xF0; 16], &[0xDE; 16], &sha256(&pt)), 1);
}

#[test]
fn boundary_sixty_four_bytes_adds_padding_block() {
    let pt = [0xCDu8; 64];
    let ct = encrypt_with_iv(&pt, &[0x56; 16], &[0x78; 16]);
    let circuit = compile_circuit_v2(&ct, &sha256(&pt));
    assert_eq!(circuit.gates[1].opcode, OPCODE_CONST);
    let mut head = vec![0u8; 32];
    head[0] = 0x80;
    assert_eq!(circuit.gates[1].params, head);
    let mut tail = vec![0u8; 32];
    tail[24..].copy_from_slice(&512u64.to_be_bytes());
    assert_eq!(circuit.gates[2].params, tail);
    assert_eq!(circuit.gates[2].sons, vec![2]);
    assert_eq!(final_byte(&pt, &[0x56; 16], &[0x78; 16], &[0x56; 16], &sha256(&pt)), 1);
}

#[test]
fn multi_block_ten_blocks() {
    let pt = [0xCCu8; 640];
    let key = [0xAA; 16];
    let ct = encrypt_with_iv(&pt, &key, &[0u8; 16]);
    let circuit = compile_circuit_v2(&ct, &sha256(&pt));
    assert_eq!(circuit.num_blocks, 10);
    assert_eq!(circuit.gates.iter().filter(|g| g.opcode == OPCODE_SHA2).count(), 11);
    assert_eq!(circuit.gates.iter().filter(|g| g.opcode == OPCODE_AES_CTR).count(), 10);
    let evaluated = evaluate_circuit_v2_wasm(&circuit, &ct, &key);
    assert_eq!(evaluated.values.last().unwrap()[0], 1);
    assert_eq!(evaluated.values[10], vec![0xCCu8; 64]);
}

#[test]
fn wrong_description_gives_zero() {
    let pt = b"some file";
    let mut bad = sha256(pt);
    bad[0] ^= 1;
    assert_eq!(final_byte(pt, &[3; 16], &[4; 16], &[3; 16], &bad), 0);
}

#[test]
fn aes_gate_counters_step_by_four() {
    let iv = [0u8; 16];
    assert_eq!(increment_iv(&iv, 4)[15], 4);
    let mut top = [0xFFu8; 16];
    top[0] = 0xFF;
    assert_eq!(increment_iv(&top, 1), [0u8; 16]);
    let ct = encrypt_with_iv(&[0u8; 200], &[1; 16], &iv);
    let circuit = compile_circuit_v2(&ct, &[0u8; 32]);
    assert_eq!(&circuit.gates[1].params[..16], &increment_iv(&iv, 4)[..]);
    assert_eq!(&circuit.gates[3].params[16..], &[0x00, 64][..]);
    assert_eq!(&circuit.gates[0].params[16..], &[0x02, 0x00][..]);
}

#[test]
fn gate_encoding_round_trips() {
    let g = GateV2 { opcode: OPCODE_SHA2, sons: vec![-5, 0x7FFF_FFFF_FFFF, -0x8000_0000_0000], params: vec![9, 8, 7] };
    let enc = g.encode();
    assert_eq!(&enc[1..7], &[0xFF, 0xFF, 0xFF, 0xFF, 0xFF, 0xFB]);
    let back = decode_gate_v2(&enc, 3, 3);
    assert_eq!(back.opcode, g.opcode);
    assert_eq!(back.sons, g.sons);
    assert_eq!(back.params, g.params);
    assert_eq!(encode_gate_v2(g.opcode, &g.sons, &g.params), enc);
    let mut buf = [0xEEu8; 64];
    g.encode_into(&mut buf);
    assert_eq!(buf.to_vec(), enc);
}

#[test]
fn xor_keeps_longer_tail() {
    assert_eq!(xor64(&vec![1, 2, 3], &vec![1]), vec![0, 2, 3]);
}

#[test]
fn const_and_comp_gates() {
    let g1 = GateV2 { opcode: OPCODE_CONST, sons: vec![], params: vec![5u8; 32] };
    let g2 = GateV2 { opcode: OPCODE_CONST, sons: vec![1], params: vec![6u8; 32] };
    let g3 = GateV2 { opcode: OPCODE_COMP, sons: vec![1, 2], params: vec![] };
    let g4 = GateV2 { opcode: OPCODE_XOR, sons: vec![2, -1], params: vec![] };
    let values = evaluate_circuit_v2(&[g1, g2, g3, g4], &[vec![0xFF; 64]], &[0u8; 16]);
    let mut expected = vec![5u8; 32];
    expected.extend_from_slice(&[6u8; 32]);
    assert_eq!(values[1], expected);
    assert_eq!(values[2][0], 1);
    assert_eq!(values[3][0], 5 ^ 0xFF);
}

#[test]
fn sha2_gate_matches_sha256_of_padded_block() {
    let mut block = vec![0u8; 64];
    block[0] = 0x80;
    let h = sha256_compress(&vec![&block]);
    assert_eq!(h, sha256(b""));
}

#[test]
fn word_conversions_round_trip() {
    let bytes: Vec<u8> = (0..32).collect();
    let words = u8_array_to_u32_array(&bytes);
    assert_eq!(words[0], 0x00010203);
    assert_eq!(u32_array_to_u8_vec(&words), bytes);
}

#[test]
fn precontract_is_accepted_by_buyer() {
    let mut file = b"the file to sell".to_vec();
    let original = file.clone();
    let key = [0x21u8; 16];
    let p = compute_precontract_values_v2(&mut file, &key);
    assert_eq!(p.description, sha256(&original));
    assert_eq!(p.num_blocks, 1);
    assert_eq!(p.num_gates as usize, p.circuit.gates.len());
    assert_eq!(p.h_ct, acc_ct(&p.ct, 64));
    assert_eq!(p.h_circuit, acc_circuit_v2(&p.circuit.gates));
    assert_eq!(p.commitment.c, sha3::Keccak256::digest(&p.commitment.o).to_vec());
    let res = check_precontract(&p.description, &p.commitment.c, &p.commitment.o, &p.ct);
    assert!(res.success);
    let mut tampered = p.commitment.o.clone();
    tampered[0] ^= 1;
    assert!(!check_precontract(&p.description, &p.commitment.c, &tampered, &p.ct).success);
    assert!(!check_precontract(&[0u8; 32], &p.commitment.c, &p.commitment.o, &p.ct).success);
    let ok = check_received_ct_key(&p.ct, &key, &p.description);
    assert!(ok.success);
    assert_eq!(ok.decrypted_file, original);
    assert!(!check_received_ct_key(&p.ct, &[0u8; 16], &p.description).success);
}

#[test]
fn commitment_opening() {
    let cm = commit_with(b"payload", &[7u8; 16]);
    assert_eq!(cm.o.len(), 7 + 16);
    assert_eq!(open_commitment_internal(&cm.c, &cm.o), Ok(b"payload".to_vec()));
    assert_eq!(open_commitment_internal(&vec![0u8; 32], &cm.o), Err("The commitments do not match"));
    let ch = commit_hashes(&[1u8; 32], &[2u8; 32]);
    assert_eq!(ch.o.len(), 80);
    assert_eq!(&ch.o[..32], &[1u8; 32]);
}

#[test]
fn ciphertext_split_and_accumulator() {
    let ct: Vec<u8> = (0..100u8).collect();
    let blocks = split_ct_blocks(&ct, 64);
    assert_eq!(blocks.len(), 3);
    assert_eq!(blocks[0], ct[..16].to_vec());
    assert_eq!(blocks[1], ct[16..80].to_vec());
    assert_eq!(blocks[2], ct[80..].to_vec());
    let blocks = split_ct_blocks(&ct, 32);
    assert_eq!(blocks.len(), 4);
    assert_eq!(blocks[3], ct[80..].to_vec());
    assert_eq!(acc_ct(&ct, 64), acc(&split_ct_blocks(&ct, 64)));
}

#[test]
fn aes_block_encrypt_decrypt() {
    let key = vec![9u8; 16];
    let ctr = vec![3u8; 16];
    let data = vec![0x10u8; 40];
    let ct = encrypt_block(&vec![&key, &data, &ctr]);
    assert_ne!(ct, data);
    assert_eq!(decrypt_block(&vec![&key, &ct, &ctr]), data);
    assert!(encrypt_block(&vec![&key, &vec![], &ctr]).is_empty());
}

#[test]
fn simple_operations_on_bytes() {
    assert_eq!(equal(&vec![&vec![1, 2], &vec![1, 2], &vec![1, 2]]), vec![1]);
    assert_eq!(equal(&vec![&vec![1, 2], &vec![1, 3]]), vec![0]);
    assert_eq!(equal(&vec![&vec![1, 2], &vec![1, 2, 3]]), vec![0]);
    let mut sum = vec![0u8; 16];
    sum[14] = 0x01;
    sum[15] = 0x02;
    assert_eq!(binary_add(&vec![&vec![0xFF], &vec![0x03]]), sum);
    let mut prod = vec![0u8; 16];
    prod[14] = 0x01;
    prod[15] = 0x00;
    assert_eq!(binary_mult(&vec![&vec![0x10], &vec![0x10]]), prod);
    assert_eq!(concat_bytes(&vec![&vec![1], &vec![], &vec![2, 3]]), vec![1, 2, 3]);
    assert!(concat_bytes(&vec![]).is_empty());
}

#[test]
fn legacy_gate_helpers() {
    let g = Gate { opcode: 5, sons: vec![1, 2] };
    assert_eq!(g.flatten(), vec![5, 1, 2]);
    assert!(Gate::dummy().is_dummy());
    assert!(!g.is_dummy());
    assert!(is_constant_idx(0x8000_0003));
    assert!(!is_constant_idx(3));
    assert_eq!(array_idx_to_constant_idx(3), 0x8000_0003);
    assert_eq!(constant_idx_to_array_idx(0x8000_0003), 3);
}

#[test]
fn final_compression_matches_one_shot_sha256() {
    let msg = b"abc".to_vec();
    let len = 3u64.to_be_bytes().to_vec();
    assert_eq!(sha256_compress_final(&vec![&msg, &len]), sha256(b"abc"));
    let long = vec![0x61u8; 60];
    let len = 60u64.to_be_bytes().to_vec();
    assert_eq!(sha256_compress_final(&vec![&long, &len]), sha256(&long));
    let first = vec![0x62u8; 64];
    let mut whole = first.clone();
    whole.extend_from_slice(b"tail");
    let state = sha256_compress(&vec![&first]);
    let tail = b"tail".to_vec();
    let len = 68u64.to_be_bytes().to_vec();
    assert_eq!(sha256_compress_final(&vec![&state, &tail, &len]), sha256(&whole));
}

#[test]
fn padding_of_short_and_long_final_blocks() {
    let p = sha256_padding(&vec![1, 2, 3], 3);
    assert_eq!(p.len(), 64);
    assert_eq!(&p[..4], &[1, 2, 3, 0x80]);
    assert_eq!(&p[56..], &24u64.to_be_bytes());
    let p = sha256_padding(&vec![7u8; 56], 56);
    assert_eq!(p.len(), 128);
    assert_eq!(p[56], 0x80);
    assert_eq!(&p[120..], &448u64.to_be_bytes());
}

use crypto_lib::circuits::CompiledCircuit;

#[test]
fn binding_constants() {
    let c = CompiledCircuit {
        circuit: vec![Gate::dummy(), Gate { opcode: 2, sons: vec![1, 0x8000_0000] }],
        constants: vec![Some(vec![4]), None, Some(vec![7, 7]), None],
        version: 0,
        block_size: 64,
        num_blocks: 2,
    };
    let all = c.bind_constants(vec![vec![1], vec![2], vec![3], vec![4]]);
    assert_eq!(all.constants, vec![vec![1], vec![2], vec![3], vec![4]]);
    assert_eq!(all.circuit.len(), 2);
    assert_eq!(all.circuit[1].sons, vec![1, 0x8000_0000]);
    let filled = c.bind_missing_constants(vec![vec![9], vec![8]]);
    assert_eq!(filled.constants, vec![vec![4], vec![9], vec![7, 7], vec![8]]);
    assert_eq!(filled.version, 0);
    assert_eq!(filled.block_size, 64);
}

#[test]
fn padded_blocks_equal_standard_padding() {
    for len in [1usize, 55, 56, 63, 64, 65, 119, 120, 128, 200] {
        let pt: Vec<u8> = (0..len).map(|i| (i * 13 + 5) as u8).collect();
        let key = [0x5Cu8; 16];
        let ct = encrypt_with_iv(&pt, &key, &[0x0Fu8; 16]);
        let circuit = compile_circuit_v2(&ct, &sha256(&pt));
        let evaluated = evaluate_circuit_v2_wasm(&circuit, &ct, &key);
        let mut padded = pt.clone();
        padded.push(0x80);
        while padded.len() % 64 != 56 {
            padded.push(0);
        }
        padded.extend_from_slice(&((len as u64) * 8).to_be_bytes());
        let nb = circuit.num_blocks as usize;
        let sha_gates: Vec<&GateV2> = circuit.gates.iter().filter(|g| g.opcode == OPCODE_SHA2).collect();
        assert_eq!(sha_gates.len(), padded.len() / 64);
        for (t, g) in sha_gates.iter().enumerate() {
            let block_gate = *g.sons.last().unwrap() as usize;
            let mut block = evaluated.values[nb + block_gate - 1].clone();
            block.resize(64, 0);
            assert_eq!(block, padded[64 * t..64 * t + 64].to_vec(), "len {} block {}", len, t);
        }
        assert_eq!(evaluated.values.last().unwrap()[0], 1);
    }
}

#[test]
fn legacy_son_lookup() {
    let evaluated = vec![vec![1u8], vec![2u8], vec![3u8]];
    let constants = vec![vec![9u8], vec![8u8]];
    let g = Gate { opcode: 3, sons: vec![2, 0x8000_0001, 0] };
    let sons = get_evaluated_sons(&g, &evaluated, &constants);
    assert_eq!(sons, vec![&vec![3u8], &vec![8u8], &vec![1u8]]);
    let none: Vec<Vec<u8>> = vec![];
    let sons = get_evaluated_sons(&g, &evaluated, &none);
    assert_eq!(sons, vec![&vec![3u8], &vec![1u8]]);
}
