use vstd::prelude::*;
use crate::accumulator::fit64;
use crate::compiler::{
    be64_bytes, block_count, block_bits, block_ref, compiled_as, const_pair_at, pad_pattern,
    padding_gate_count, sha_block_count, MAX_PLAINTEXT_LEN,
};
use crate::eval::{
    aes_gate_output, comp_gate_output, const_gate_output, eval_trace, gate_output,
    son_value, son_values, xor_bytes,
};
use crate::primitives::sha256_initial_state;
use crate::sha256::{compress_bytes, words_of};
use crate::gate::{GateV2, OPCODE_AES_CTR};

verus! {

/// The trace of the first `n` gates has `n` outputs.
pub proof fn lemma_trace_len(gates: Seq<GateV2>, inputs: Seq<Seq<u8>>, key: Seq<u8>, n: nat)
    ensures
        eval_trace(gates, inputs, key, n).len() == n,
    decreases n,
{
    if n > 0 {
        lemma_trace_len(gates, inputs, key, (n - 1) as nat);
    }
}

/// Output `j` of a trace is the output of gate `j` on the outputs before it, and a
/// longer trace keeps the outputs of a shorter one.
pub proof fn lemma_trace_at(gates: Seq<GateV2>, inputs: Seq<Seq<u8>>, key: Seq<u8>, n: nat, j: int)
    requires
        0 <= j < n,
    ensures
        eval_trace(gates, inputs, key, n)[j] == gate_output(
            gates[j].opcode,
            son_values(gates[j], inputs, eval_trace(gates, inputs, key, j as nat)),
            gates[j].params@,
            key,
        ),
        forall|i: int| 0 <= i < j ==> eval_trace(gates, inputs, key, n)[i] == #[trigger] eval_trace(gates, inputs, key, j as nat)[i],
    decreases n,
{
    lemma_trace_len(gates, inputs, key, n);
    lemma_trace_len(gates, inputs, key, j as nat);
    if n == j + 1 {
        lemma_trace_len(gates, inputs, key, (n - 1) as nat);
    } else {
        lemma_trace_at(gates, inputs, key, (n - 1) as nat, j);
        lemma_trace_len(gates, inputs, key, (n - 1) as nat);
    }
}

/// The plaintext that the AES-CTR outputs of a trace carry: byte `b` is byte `b % 64`
/// of output `b / 64`.
pub open spec fn recovered_plaintext(outs: Seq<Seq<u8>>, n: int) -> Seq<u8> {
    Seq::new(n as nat, |b: int| outs[b / 64][b % 64])
}

/// The standard SHA-256 padding of a message: the message, `0x80`, zeros, and the
/// bit length on the last 8 bytes of the last 64-byte block.
pub open spec fn sha256_pad(msg: Seq<u8>) -> Seq<u8> {
    let n = msg.len() as int;
    let t = 64 * sha_block_count(n);
    Seq::new(
        t as nat,
        |b: int|
            if b < n {
                msg[b]
            } else if b == n {
                0x80u8
            } else if b >= t - 8 {
                be64_bytes((8 * n) as u64)[b - (t - 8)]
            } else {
                0u8
            },
    )
}

/// Block `t` of the padded message.
pub open spec fn padded_block(msg: Seq<u8>, t: int) -> Seq<u8> {
    sha256_pad(msg).subrange(64 * t, 64 * t + 64)
}

/// Byte `j` of block `t` sits at `64 t + j`.
proof fn lemma_div64(t: int, j: int)
    requires
        0 <= t,
        0 <= j < 64,
    ensures
        (64 * t + j) / 64 == t,
        (64 * t + j) % 64 == j,
{
    assert((64 * t + j) / 64 == t && (64 * t + j) % 64 == j) by (nonlinear_arith)
        requires 0 <= t, 0 <= j < 64;
}

/// XOR with a zero byte keeps the other byte.
proof fn lemma_xor_zero(x: u8)
    ensures
        x ^ 0u8 == x,
        0u8 ^ x == x,
{
    assert(x ^ 0u8 == x && 0u8 ^ x == x) by (bit_vector);
}

/// Two CONST gates that synthesise a 64-byte pattern output that pattern.
proof fn lemma_const_pair_output(gates: Seq<GateV2>, inputs: Seq<Seq<u8>>, key: Seq<u8>, q: int, pat: Seq<u8>)
    requires
        0 <= q,
        q + 1 < gates.len(),
        q + 1 <= crate::gate::SON_MAX,
        pat.len() == 64,
        const_pair_at(gates, q, pat),
    ensures
        eval_trace(gates, inputs, key, gates.len())[q + 1] == pat,
{
    let nn = gates.len();
    let tr = eval_trace(gates, inputs, key, nn);
    lemma_trace_at(gates, inputs, key, nn, q + 1);
    lemma_trace_at(gates, inputs, key, nn, q);
    let prev = eval_trace(gates, inputs, key, (q + 1) as nat);
    assert(prev[q] == tr[q]);
    let g0 = gates[q];
    let g1 = gates[q + 1];
    assert(son_values(g0, inputs, eval_trace(gates, inputs, key, q as nat)) =~= Seq::<Seq<u8>>::empty());
    let head = pat.subrange(0, 32);
    assert(tr[q] == const_gate_output(Seq::empty(), head));
    assert(tr[q] =~= head + Seq::new(32, |i: int| 0u8)) by {
        assert(head.subrange(0, 32) =~= head);
    }
    assert(son_value((q + 1) as i64, inputs, prev) == prev[q]);
    assert(son_values(g1, inputs, prev) =~= seq![tr[q]]);
    assert(fit64(tr[q]).subrange(0, 32) =~= head);
    assert(pat.subrange(32, 64).subrange(0, 32) =~= pat.subrange(32, 64));
    assert(tr[q + 1] =~= pat);
}

/// The AES-CTR gates output the son block XORed with the keystream, masked.
proof fn lemma_aes_output(gates: Seq<GateV2>, inputs: Seq<Seq<u8>>, key: Seq<u8>, iv: Seq<u8>, n: int, desc: Seq<u8>, i: int)
    requires
        compiled_as(gates, iv, n, desc),
        1 <= n <= MAX_PLAINTEXT_LEN,
        0 <= i < block_count(n),
    ensures
        eval_trace(gates, inputs, key, gates.len())[i] == aes_gate_output(inputs[i], crate::compiler::aes_params(iv, n, i), key),
{
    let nn = gates.len();
    lemma_trace_at(gates, inputs, key, nn, i);
    let prev = eval_trace(gates, inputs, key, i as nat);
    let g = gates[i];
    assert(crate::compiler::is_gate(g, OPCODE_AES_CTR, seq![(-(i + 1)) as i64], crate::compiler::aes_params(iv, n, i)));
    assert(son_values(g, inputs, prev) =~= seq![inputs[i]]);
}

/// What the padding law assumes: a compiled circuit for a plaintext of `n` bytes,
/// evaluated on as many 64-byte input blocks as it reads.
pub open spec fn compiled_over(gates: Seq<GateV2>, inputs: Seq<Seq<u8>>, iv: Seq<u8>, n: int, desc: Seq<u8>) -> bool {
    &&& compiled_as(gates, iv, n, desc)
    &&& 1 <= n <= MAX_PLAINTEXT_LEN
    &&& inputs.len() == block_count(n)
    &&& forall|i: int| 0 <= i < inputs.len() ==> (#[trigger] inputs[i]).len() == 64
}

/// A data block that the plaintext fills is passed to the hash chain as it is.
proof fn lemma_block_aes(gates: Seq<GateV2>, inputs: Seq<Seq<u8>>, key: Seq<u8>, iv: Seq<u8>, n: int, desc: Seq<u8>, t: int)
    requires
        compiled_over(gates, inputs, iv, n, desc),
        0 <= t < block_count(n),
        64 * t + 64 <= n,
    ensures
        fit64(eval_trace(gates, inputs, key, gates.len())[t]) == padded_block(
            recovered_plaintext(eval_trace(gates, inputs, key, gates.len()), n),
            t,
        ),
{
    let tr = eval_trace(gates, inputs, key, gates.len());
    let pt = recovered_plaintext(tr, n);
    lemma_aes_output(gates, inputs, key, iv, n, desc, t);
    assert(inputs[t].len() == 64);
    assert(tr[t].len() >= 64);
    assert(sha_block_count(n) >= block_count(n));
    assert forall|j: int| 0 <= j < 64 implies #[trigger] fit64(tr[t])[j] == padded_block(pt, t)[j] by {
        lemma_div64(t, j);
        assert(sha256_pad(pt)[64 * t + j] == pt[64 * t + j]);
    }
    assert(fit64(tr[t]) =~= padded_block(pt, t));
}

/// The last data block, when the plaintext leaves it partly empty, is XORed with
/// the padding mask into its padded form.
proof fn lemma_block_masked(gates: Seq<GateV2>, inputs: Seq<Seq<u8>>, key: Seq<u8>, iv: Seq<u8>, n: int, desc: Seq<u8>)
    requires
        compiled_over(gates, inputs, iv, n, desc),
        n % 64 != 0,
    ensures
        fit64(eval_trace(gates, inputs, key, gates.len())[block_count(n) + 2]) == padded_block(
            recovered_plaintext(eval_trace(gates, inputs, key, gates.len()), n),
            block_count(n) - 1,
        ),
{
    let nn = gates.len();
    let tr = eval_trace(gates, inputs, key, nn);
    let pt = recovered_plaintext(tr, n);
    let m = block_count(n);
    let rem = n % 64;
    let lb = (8 * n) as u64;
    let pat = if rem <= 55 { pad_pattern(rem, true, lb) } else { pad_pattern(rem, false, lb) };
    assert(const_pair_at(gates, m, pat));
    lemma_const_pair_output(gates, inputs, key, m, pat);
    lemma_aes_output(gates, inputs, key, iv, n, desc, m - 1);
    assert(n - 64 * (m - 1) == rem);
    assert(block_bits(n, m - 1) == 8 * rem);
    assert(inputs[m - 1].len() == 64);
    let last = tr[m - 1];
    assert(last.len() >= 64);
    lemma_trace_at(gates, inputs, key, nn, m + 2);
    let prev = eval_trace(gates, inputs, key, (m + 2) as nat);
    assert(prev[m - 1] == last);
    assert(prev[m + 1] == tr[m + 1]);
    assert(son_values(gates[m + 2], inputs, prev) =~= seq![last, pat]);
    let x = tr[m + 2];
    assert(x == xor_bytes(last, pat));
    assert(sha_block_count(n) >= m);
    assert forall|j: int| 0 <= j < 64 implies #[trigger] fit64(x)[j] == padded_block(pt, m - 1)[j] by {
        lemma_div64(m - 1, j);
        let b = 64 * (m - 1) + j;
        lemma_xor_zero(last[j]);
        lemma_xor_zero(pat[j]);
        if j < rem {
            assert(pat[j] == 0u8);
            assert(sha256_pad(pt)[b] == pt[b]);
        } else {
            assert(last[j] == 0u8);
        }
    }
    assert(fit64(x) =~= padded_block(pt, m - 1));
}

/// The block after the data blocks, when the padding needs one, is the constant
/// padding block.
proof fn lemma_block_extra(gates: Seq<GateV2>, inputs: Seq<Seq<u8>>, key: Seq<u8>, iv: Seq<u8>, n: int, desc: Seq<u8>)
    requires
        compiled_over(gates, inputs, iv, n, desc),
        n % 64 == 0 || n % 64 > 55,
    ensures
        fit64(eval_trace(gates, inputs, key, gates.len())[block_ref(n, block_count(n)) - 1]) == padded_block(
            recovered_plaintext(eval_trace(gates, inputs, key, gates.len()), n),
            block_count(n),
        ),
{
    let tr = eval_trace(gates, inputs, key, gates.len());
    let pt = recovered_plaintext(tr, n);
    let m = block_count(n);
    let lb = (8 * n) as u64;
    let pat = if n % 64 == 0 { pad_pattern(0, true, lb) } else { pad_pattern(64, true, lb) };
    let q = if n % 64 == 0 { m } else { m + 3 };
    assert(const_pair_at(gates, q, pat));
    lemma_const_pair_output(gates, inputs, key, q, pat);
    assert(block_ref(n, m) - 1 == q + 1);
    assert(sha_block_count(n) == m + 1);
    assert forall|j: int| 0 <= j < 64 implies #[trigger] fit64(pat)[j] == padded_block(pt, m)[j] by {
        assert(sha256_pad(pt)[64 * m + j] == padded_block(pt, m)[j]);
    }
    assert(fit64(pat) =~= padded_block(pt, m));
}

/// Padding as gates: for a compiled circuit evaluated on its input blocks, each
/// block that the SHA-256 chain reads (brought to 64 bytes) is the matching block
/// of the standard SHA-256 padding of the plaintext that the AES-CTR outputs carry.
pub proof fn lemma_padding_blocks(gates: Seq<GateV2>, inputs: Seq<Seq<u8>>, key: Seq<u8>, iv: Seq<u8>, n: int, desc: Seq<u8>)
    requires
        compiled_over(gates, inputs, iv, n, desc),
    ensures
        forall|t: int|
            0 <= t < sha_block_count(n) ==> #[trigger] fit64(eval_trace(gates, inputs, key, gates.len())[block_ref(n, t) - 1])
                == padded_block(recovered_plaintext(eval_trace(gates, inputs, key, gates.len()), n), t),
{
    let m = block_count(n);
    assert forall|t: int| 0 <= t < sha_block_count(n) implies #[trigger] fit64(eval_trace(gates, inputs, key, gates.len())[block_ref(n, t) - 1])
        == padded_block(recovered_plaintext(eval_trace(gates, inputs, key, gates.len()), n), t) by {
        if t < m - 1 {
            assert(64 * t + 64 <= n);
            lemma_block_aes(gates, inputs, key, iv, n, desc, t);
        } else if t == m - 1 {
            if n % 64 == 0 {
                assert(64 * t + 64 <= n);
                lemma_block_aes(gates, inputs, key, iv, n, desc, t);
            } else {
                lemma_block_masked(gates, inputs, key, iv, n, desc);
            }
        } else {
            lemma_block_extra(gates, inputs, key, iv, n, desc);
        }
    }
}

/// The SHA-256 chaining values over the message blocks: the first block compressed
/// from the initial state, each next block from the first 32 bytes of the value before.
pub open spec fn md_chain(blocks: Seq<Seq<u8>>, t: nat) -> Seq<u8>
    decreases t,
{
    if t == 0 {
        compress_bytes(sha256_initial_state(), blocks[0])
    } else {
        compress_bytes(words_of(fit64(md_chain(blocks, (t - 1) as nat)).subrange(0, 32)), blocks[t as int])
    }
}

/// The blocks of the padded message.
pub open spec fn padded_blocks(msg: Seq<u8>) -> Seq<Seq<u8>> {
    Seq::new(sha_block_count(msg.len() as int) as nat, |t: int| padded_block(msg, t))
}

/// The SHA2 gate `t` of the chain outputs the chaining value after block `t`.
proof fn lemma_sha_gate(gates: Seq<GateV2>, inputs: Seq<Seq<u8>>, key: Seq<u8>, iv: Seq<u8>, n: int, desc: Seq<u8>, t: nat)
    requires
        compiled_over(gates, inputs, iv, n, desc),
        t < sha_block_count(n),
    ensures
        eval_trace(gates, inputs, key, gates.len())[block_count(n) + padding_gate_count(n) + t]
            == md_chain(padded_blocks(recovered_plaintext(eval_trace(gates, inputs, key, gates.len()), n)), t),
    decreases t,
{
    let nn = gates.len();
    let tr = eval_trace(gates, inputs, key, nn);
    let pt = recovered_plaintext(tr, n);
    let blocks = padded_blocks(pt);
    let p = block_count(n) + padding_gate_count(n);
    let j = p + t;
    lemma_padding_blocks(gates, inputs, key, iv, n, desc);
    lemma_trace_at(gates, inputs, key, nn, j);
    let prev = eval_trace(gates, inputs, key, j as nat);
    let g = gates[j];
    assert(crate::compiler::is_gate(g, crate::gate::OPCODE_SHA2, crate::compiler::sha_sons(n, p, t as int), Seq::empty()));
    let br = block_ref(n, t as int);
    assert(1 <= br <= p);
    assert(prev[br - 1] == tr[br - 1]);
    assert(fit64(tr[br - 1]) == blocks[t as int]);
    if t == 0 {
        assert(son_values(g, inputs, prev) =~= seq![tr[br - 1]]);
    } else {
        lemma_sha_gate(gates, inputs, key, iv, n, desc, (t - 1) as nat);
        assert(prev[j - 1] == tr[j - 1]);
        assert(son_values(g, inputs, prev) =~= seq![tr[j - 1], tr[br - 1]]);
    }
}

/// The circuit's outcome: the last output of the trace holds 1 in its first byte exactly when
/// the SHA-256 chaining value over the padded plaintext carried by the AES-CTR
/// outputs agrees, on its first 32 bytes, with the description.
pub proof fn lemma_circuit_outcome(gates: Seq<GateV2>, inputs: Seq<Seq<u8>>, key: Seq<u8>, iv: Seq<u8>, n: int, desc: Seq<u8>)
    requires
        compiled_over(gates, inputs, iv, n, desc),
    ensures
        ({
            let tr = eval_trace(gates, inputs, key, gates.len());
            let k = sha_block_count(n);
            let digest = md_chain(padded_blocks(recovered_plaintext(tr, n)), (k - 1) as nat);
            &&& tr[block_count(n) + padding_gate_count(n) + k - 1] == digest
            &&& tr[gates.len() - 1] == comp_gate_output(seq![digest, crate::compiler::desc32(desc) + Seq::new(32, |i: int| 0u8)])
        }),
{
    let nn = gates.len();
    let tr = eval_trace(gates, inputs, key, nn);
    let k = sha_block_count(n);
    let p = block_count(n) + padding_gate_count(n);
    let digest = md_chain(padded_blocks(recovered_plaintext(tr, n)), (k - 1) as nat);
    lemma_sha_gate(gates, inputs, key, iv, n, desc, (k - 1) as nat);
    lemma_trace_at(gates, inputs, key, nn, p + k);
    lemma_trace_at(gates, inputs, key, nn, p + k + 1);
    let dg = gates[p + k];
    assert(son_values(dg, inputs, eval_trace(gates, inputs, key, (p + k) as nat)) =~= Seq::<Seq<u8>>::empty());
    let dz = crate::compiler::desc32(desc) + Seq::new(32, |i: int| 0u8);
    assert(tr[p + k] =~= dz) by {
        assert(crate::compiler::desc32(desc).subrange(0, 32) =~= crate::compiler::desc32(desc));
    }
    let prev = eval_trace(gates, inputs, key, (p + k + 1) as nat);
    assert(prev[p + k - 1] == tr[p + k - 1]);
    assert(prev[p + k] == tr[p + k]);
    assert(son_values(gates[p + k + 1], inputs, prev) =~= seq![digest, dz]);
}

/// Two gate sequences agree, gate by gate, on opcode, sons and parameters over their
/// first `n` gates.
pub open spec fn same_prefix(g1: Seq<GateV2>, g2: Seq<GateV2>, n: int) -> bool {
    forall|j: int|
        0 <= j < n ==> (#[trigger] g1[j]).opcode == g2[j].opcode && g1[j].sons@ == g2[j].sons@ && g1[j].params@
            == g2[j].params@
}

/// Gates that agree give the same outputs.
proof fn lemma_trace_same_prefix(g1: Seq<GateV2>, g2: Seq<GateV2>, inputs: Seq<Seq<u8>>, key: Seq<u8>, n: nat)
    requires
        same_prefix(g1, g2, n as int),
    ensures
        eval_trace(g1, inputs, key, n) == eval_trace(g2, inputs, key, n),
    decreases n,
{
    if n > 0 {
        lemma_trace_same_prefix(g1, g2, inputs, key, (n - 1) as nat);
        let prev = eval_trace(g1, inputs, key, (n - 1) as nat);
        assert(son_values(g1[n - 1], inputs, prev) =~= son_values(g2[n - 1], inputs, prev));
    }
}

/// Circuits compiled from one ciphertext for two descriptions agree on every gate
/// before the description constant.
proof fn lemma_compiled_same_prefix(g1: Seq<GateV2>, g2: Seq<GateV2>, iv: Seq<u8>, n: int, d1: Seq<u8>, d2: Seq<u8>)
    requires
        compiled_as(g1, iv, n, d1),
        compiled_as(g2, iv, n, d2),
        1 <= n,
    ensures
        same_prefix(g1, g2, block_count(n) + padding_gate_count(n) + sha_block_count(n)),
{
    let m = block_count(n);
    let p = m + padding_gate_count(n);
    let k = sha_block_count(n);
    let rem = n % 64;
    assert forall|j: int| 0 <= j < p + k implies (#[trigger] g1[j]).opcode == g2[j].opcode && g1[j].sons@ == g2[j].sons@
        && g1[j].params@ == g2[j].params@ by {
        if j < m {
            assert(crate::compiler::is_gate(g1[j], OPCODE_AES_CTR, seq![(-(j + 1)) as i64], crate::compiler::aes_params(iv, n, j)));
            assert(crate::compiler::is_gate(g2[j], OPCODE_AES_CTR, seq![(-(j + 1)) as i64], crate::compiler::aes_params(iv, n, j)));
        } else if j >= p {
            assert(g1[p + (j - p)] == g1[j]);
            assert(g2[p + (j - p)] == g2[j]);
            assert(crate::compiler::is_gate(g1[p + (j - p)], crate::gate::OPCODE_SHA2, crate::compiler::sha_sons(n, p, j - p), Seq::empty()));
            assert(crate::compiler::is_gate(g2[p + (j - p)], crate::gate::OPCODE_SHA2, crate::compiler::sha_sons(n, p, j - p), Seq::empty()));
        } else if j == m || j == m + 1 {
        } else if j == m + 2 {
        } else {
            assert(rem > 55);
            assert(j == m + 3 || j == m + 4);
        }
    }
}

/// Distinct descriptions: for one ciphertext and one key, the circuits compiled for
/// two different 32-byte descriptions do not both end in 1.
pub proof fn lemma_descriptions_exclusive(
    g1: Seq<GateV2>,
    g2: Seq<GateV2>,
    inputs: Seq<Seq<u8>>,
    key: Seq<u8>,
    iv: Seq<u8>,
    n: int,
    d1: Seq<u8>,
    d2: Seq<u8>,
)
    requires
        compiled_over(g1, inputs, iv, n, d1),
        compiled_over(g2, inputs, iv, n, d2),
        d1.len() == 32,
        d2.len() == 32,
        d1 != d2,
    ensures
        !(eval_trace(g1, inputs, key, g1.len())[g1.len() - 1][0] == 1u8 && eval_trace(g2, inputs, key, g2.len())[g2.len()
            - 1][0] == 1u8),
{
    let m = block_count(n);
    let p = m + padding_gate_count(n);
    let k = sha_block_count(n);
    let t1 = eval_trace(g1, inputs, key, g1.len());
    let t2 = eval_trace(g2, inputs, key, g2.len());
    lemma_circuit_outcome(g1, inputs, key, iv, n, d1);
    lemma_circuit_outcome(g2, inputs, key, iv, n, d2);
    lemma_compiled_same_prefix(g1, g2, iv, n, d1, d2);
    lemma_trace_same_prefix(g1, g2, inputs, key, (p + k) as nat);
    lemma_trace_at(g1, inputs, key, g1.len(), p + k);
    lemma_trace_at(g2, inputs, key, g2.len(), p + k);
    let pre = (p + k) as nat;
    assert(t1[p + k - 1] == eval_trace(g1, inputs, key, pre)[p + k - 1]);
    assert(t2[p + k - 1] == eval_trace(g2, inputs, key, pre)[p + k - 1]);
    let digest = t1[p + k - 1];
    assert(t2[p + k - 1] == digest);
    let z = Seq::new(32, |i: int| 0u8);
    let e1 = crate::compiler::desc32(d1) + z;
    let e2 = crate::compiler::desc32(d2) + z;
    assert(crate::compiler::desc32(d1) =~= d1);
    assert(crate::compiler::desc32(d2) =~= d2);
    if t1[g1.len() - 1][0] == 1u8 && t2[g2.len() - 1][0] == 1u8 {
        assert(crate::eval::low32_equal(digest, e1));
        assert(crate::eval::low32_equal(digest, e2));
        assert(e1.subrange(0, 32) =~= d1);
        assert(e2.subrange(0, 32) =~= d2);
        assert(false);
    }
}

} // verus!
