use vstd::prelude::*;
use crate::accumulator::{fit64, normalize_64, views};
use crate::aes_ctr::encrypt_block;
use crate::gate::{encodable, GateV2, OPCODE_AES_CTR, OPCODE_COMP, OPCODE_CONST, OPCODE_SHA2, OPCODE_XOR};
use crate::primitives::{aes128_ctr_of, sha256_initial_state};
use crate::sha256::{compress_bytes, sha256_compress, words_of};
use crate::util::{sub_vec, zeros};

verus! {

/// Byte-wise XOR over the shorter length; the longer input's tail is kept.
pub open spec fn xor_bytes(a: Seq<u8>, b: Seq<u8>) -> Seq<u8> {
    Seq::new(
        if a.len() >= b.len() { a.len() } else { b.len() },
        |i: int|
            if i < a.len() && i < b.len() {
                a[i] ^ b[i]
            } else if i < a.len() {
                a[i]
            } else {
                b[i]
            },
    )
}

/// The byte whose `rem` high bits are set.
pub open spec fn high_mask(rem: int) -> u8 {
    ((0xffu32 << ((8 - rem) as u32)) & 0xffu32) as u8
}

/// `v` with every bit past the first `bits` cleared (nothing cleared from 512 on).
pub open spec fn mask_bits(v: Seq<u8>, bits: int) -> Seq<u8> {
    Seq::new(
        v.len(),
        |i: int|
            if bits >= 512 || i < bits / 8 {
                v[i]
            } else if i == bits / 8 && bits % 8 != 0 {
                v[i] & high_mask(bits % 8)
            } else {
                0u8
            },
    )
}

/// Sixty-four zero bytes.
pub open spec fn zero_block() -> Seq<u8> {
    Seq::new(64, |i: int| 0u8)
}

/// The valid bit length held in the last two parameter bytes of an AES-CTR gate.
pub open spec fn aes_valid_bits(params: Seq<u8>) -> int {
    params[16] as int * 256 + params[17] as int
}

/// Output of an AES-CTR gate: the son XORed with one 64-byte keystream block from the
/// counter in `params`, cleared past the valid bit length.
pub open spec fn aes_gate_output(son: Seq<u8>, params: Seq<u8>, key: Seq<u8>) -> Seq<u8> {
    mask_bits(
        xor_bytes(son, aes128_ctr_of(key, params.subrange(0, 16), zero_block())),
        aes_valid_bits(params),
    )
}

/// Output of a SHA2 gate: a compression from the standard initial state, or from the
/// first 32 bytes of the first son.
pub open spec fn sha2_gate_output(sons: Seq<Seq<u8>>) -> Seq<u8> {
    if sons.len() == 1 {
        compress_bytes(sha256_initial_state(), fit64(sons[0]))
    } else {
        compress_bytes(words_of(fit64(sons[0]).subrange(0, 32)), fit64(sons[1]))
    }
}

/// Output of a CONST gate: `params ‖ zero(32)`, or `truncate32(son) ‖ params`.
pub open spec fn const_gate_output(sons: Seq<Seq<u8>>, params: Seq<u8>) -> Seq<u8> {
    if sons.len() == 0 {
        params.subrange(0, 32) + Seq::new(32, |i: int| 0u8)
    } else {
        fit64(sons[0]).subrange(0, 32) + params.subrange(0, 32)
    }
}

/// Both values have at least 32 bytes and agree on the first 32.
pub open spec fn low32_equal(a: Seq<u8>, b: Seq<u8>) -> bool {
    a.len() >= 32 && b.len() >= 32 && a.subrange(0, 32) == b.subrange(0, 32)
}

/// Output of a COMP gate: first byte 1 when the low halves agree, else 0; then zeros.
pub open spec fn comp_gate_output(sons: Seq<Seq<u8>>) -> Seq<u8> {
    Seq::new(64, |i: int| if i == 0 && low32_equal(sons[0], sons[1]) { 1u8 } else { 0u8 })
}

/// The output of a gate of opcode `opcode` on the son values `sons`.
pub open spec fn gate_output(opcode: u8, sons: Seq<Seq<u8>>, params: Seq<u8>, key: Seq<u8>) -> Seq<u8> {
    if opcode == OPCODE_AES_CTR {
        aes_gate_output(sons[0], params, key)
    } else if opcode == OPCODE_SHA2 {
        sha2_gate_output(sons)
    } else if opcode == OPCODE_CONST {
        const_gate_output(sons, params)
    } else if opcode == OPCODE_XOR {
        xor_bytes(sons[0], sons[1])
    } else {
        comp_gate_output(sons)
    }
}

/// The opcode is known, with the arity and parameter length that it takes.
pub open spec fn opcode_ok(opcode: u8, arity: int, params: Seq<u8>) -> bool {
    ||| (opcode == OPCODE_AES_CTR && arity == 1 && params.len() == 18 && aes_valid_bits(params) <= 512)
    ||| (opcode == OPCODE_SHA2 && (arity == 1 || arity == 2))
    ||| (opcode == OPCODE_CONST && (arity == 0 || arity == 1) && params.len() == 32)
    ||| (opcode == OPCODE_XOR && arity == 2)
    ||| (opcode == OPCODE_COMP && arity == 2)
}

/// A son of this gate at 0-based position `j` in a circuit over `m` input blocks:
/// non-zero, an input block in `[-m, -1]` or an earlier gate in `[1, j]`.
pub open spec fn son_ok(s: i64, j: int, m: int) -> bool {
    &&& s != 0
    &&& s < 0 ==> -s <= m
    &&& s > 0 ==> s <= j
}

/// This gate at 0-based position `j` is well formed.
pub open spec fn gate_wf(g: GateV2, j: int, m: int) -> bool {
    &&& encodable(g)
    &&& opcode_ok(g.opcode, g.sons@.len() as int, g.params@)
    &&& forall|k: int| 0 <= k < g.sons@.len() ==> son_ok(#[trigger] g.sons@[k], j, m)
}

/// Every gate of the sequence is well formed over `m` input blocks.
pub open spec fn circuit_wf(gates: Seq<GateV2>, m: int) -> bool {
    forall|j: int| 0 <= j < gates.len() ==> gate_wf(#[trigger] gates[j], j, m)
}

/// The son-index convention: in a gate at 0-based position `j`, a positive son
/// names an earlier gate (`1 <= s <= j`), a negative son an input block
/// (`-m <= s <= -1`), and no son is zero.
pub open spec fn sons_follow_convention(gates: Seq<GateV2>, m: int) -> bool {
    forall|j: int, k: int|
        0 <= j < gates.len() && 0 <= k < gates[j].sons@.len() ==> {
            let s = #[trigger] gates[j].sons@[k];
            &&& s != 0
            &&& s > 0 ==> 1 <= s <= j
            &&& s < 0 ==> -m <= s <= -1
        }
}

/// A well-formed circuit follows the son-index convention.
pub proof fn lemma_wf_follows_convention(gates: Seq<GateV2>, m: int)
    requires
        circuit_wf(gates, m),
    ensures
        sons_follow_convention(gates, m),
{
    assert forall|j: int, k: int| 0 <= j < gates.len() && 0 <= k < gates[j].sons@.len() implies {
        let s = #[trigger] gates[j].sons@[k];
        &&& s != 0
        &&& s > 0 ==> 1 <= s <= j
        &&& s < 0 ==> -m <= s <= -1
    } by {
        assert(gate_wf(gates[j], j, m));
        assert(son_ok(gates[j].sons@[k], j, m));
    }
}

/// The value a son index names: an input block, or the output of an earlier gate.
pub open spec fn son_value(s: i64, inputs: Seq<Seq<u8>>, prev: Seq<Seq<u8>>) -> Seq<u8> {
    if s < 0 {
        inputs[-s - 1]
    } else {
        prev[s - 1]
    }
}

/// The values of the sons of `g`.
pub open spec fn son_values(g: GateV2, inputs: Seq<Seq<u8>>, prev: Seq<Seq<u8>>) -> Seq<Seq<u8>> {
    Seq::new(g.sons@.len(), |k: int| son_value(g.sons@[k], inputs, prev))
}

/// The outputs of the first `n` gates, in order.
pub open spec fn eval_trace(gates: Seq<GateV2>, inputs: Seq<Seq<u8>>, key: Seq<u8>, n: nat) -> Seq<Seq<u8>>
    decreases n,
{
    if n == 0 {
        Seq::empty()
    } else {
        let prev = eval_trace(gates, inputs, key, (n - 1) as nat);
        let g = gates[n - 1];
        prev.push(gate_output(g.opcode, son_values(g, inputs, prev), g.params@, key))
    }
}

/// Byte-wise XOR over the shorter length; the longer input's tail is kept.
pub fn xor64(a: &Vec<u8>, b: &Vec<u8>) -> (r: Vec<u8>)
    ensures
        r@ == xor_bytes(a@, b@),
{
    let n = if a.len() >= b.len() { a.len() } else { b.len() };
    let mut out: Vec<u8> = Vec::with_capacity(n);
    let mut i: usize = 0;
    while i < n
        invariant
            n == (if a@.len() >= b@.len() { a@.len() } else { b@.len() }),
            i <= n,
            out@.len() == i,
            forall|k: int| 0 <= k < i ==> #[trigger] out@[k] == xor_bytes(a@, b@)[k],
        decreases n - i,
    {
        if i < a.len() && i < b.len() {
            out.push(a[i] ^ b[i]);
        } else if i < a.len() {
            out.push(a[i]);
        } else {
            out.push(b[i]);
        }
        i = i + 1;
    }
    assert(out@ =~= xor_bytes(a@, b@));
    out
}

/// Clears every bit of `v` past the first `bits`.
fn mask_tail(v: &Vec<u8>, bits: usize) -> (r: Vec<u8>)
    requires
        bits <= 512,
    ensures
        r@ == mask_bits(v@, bits as int),
{
    let full = bits / 8;
    let rem = bits % 8;
    let mut out: Vec<u8> = Vec::with_capacity(v.len());
    let mut i: usize = 0;
    while i < v.len()
        invariant
            bits <= 512,
            full == bits / 8,
            rem == bits % 8,
            i <= v@.len(),
            out@.len() == i,
            forall|k: int| 0 <= k < i ==> #[trigger] out@[k] == mask_bits(v@, bits as int)[k],
        decreases v@.len() - i,
    {
        if bits >= 512 || i < full {
            out.push(v[i]);
        } else if i == full && rem != 0 {
            let m = ((0xffu32 << ((8 - rem) as u32)) & 0xffu32) as u8;
            out.push(v[i] & m);
        } else {
            out.push(0u8);
        }
        i = i + 1;
    }
    assert(out@ =~= mask_bits(v@, bits as int));
    out
}

/// AES-CTR gate: XOR of the son with one keystream block, masked to the valid bits.
pub fn eval_aes_ctr(sons: &[Vec<u8>], params: &[u8], key: &[u8]) -> (r: Vec<u8>)
    requires
        sons@.len() == 1,
        params@.len() == 18,
        aes_valid_bits(params@) <= 512,
        key@.len() == 16,
    ensures
        r@ == aes_gate_output(sons@[0]@, params@, key@),
{
    let ctr = sub_vec(params, 0, 16);
    let len_bits = (params[16] as usize) * 256 + (params[17] as usize);
    let key_v = crate::util::slice_to_vec(key);
    let z = zeros(64);
    let mut data: Vec<&Vec<u8>> = Vec::new();
    data.push(&key_v);
    data.push(&z);
    data.push(&ctr);
    let keystream = encrypt_block(&data);
    proof {
        assert(z@ =~= zero_block());
        assert(data@.map_values(|v: &Vec<u8>| v@)[1] == z@);
    }
    let out = xor64(&sons[0], &keystream);
    mask_tail(&out, len_bits)
}

/// SHA2 gate: one compression of the (64-byte) last son.
pub fn eval_sha2(sons: &[Vec<u8>]) -> (r: Vec<u8>)
    requires
        sons@.len() == 1 || sons@.len() == 2,
    ensures
        r@ == sha2_gate_output(views(sons@)),
        r@.len() == 32,
{
    if sons.len() == 1 {
        let b = normalize_64(sons[0].as_slice());
        let mut data: Vec<&Vec<u8>> = Vec::new();
        data.push(&b);
        let r = sha256_compress(&data);
        proof {
            assert(data@.map_values(|v: &Vec<u8>| v@)[0] == b@);
            assert(views(sons@)[0] == sons@[0]@);
        }
        r
    } else {
        let in1 = normalize_64(sons[0].as_slice());
        let in2 = normalize_64(sons[1].as_slice());
        let prev = sub_vec(in1.as_slice(), 0, 32);
        let mut data: Vec<&Vec<u8>> = Vec::new();
        data.push(&prev);
        data.push(&in2);
        let r = sha256_compress(&data);
        proof {
            let d = data@.map_values(|v: &Vec<u8>| v@);
            assert(d[0] == prev@);
            assert(d[1] == in2@);
            assert(views(sons@)[0] == sons@[0]@);
            assert(views(sons@)[1] == sons@[1]@);
        }
        r
    }
}

/// CONST gate: `params ‖ zero(32)` without a son, `truncate32(son) ‖ params` with one.
pub fn eval_const(sons: &[Vec<u8>], params: &[u8]) -> (r: Vec<u8>)
    requires
        sons@.len() == 0 || sons@.len() == 1,
        params@.len() == 32,
    ensures
        r@ == const_gate_output(views(sons@), params@),
        r@.len() == 64,
{
    let mut out: Vec<u8>;
    if sons.len() == 0 {
        out = sub_vec(params, 0, 32);
        let z = zeros(32);
        crate::util::extend_from(&mut out, z.as_slice());
    } else {
        let n = normalize_64(sons[0].as_slice());
        out = sub_vec(n.as_slice(), 0, 32);
        crate::util::extend_from(&mut out, params);
        proof {
            assert(views(sons@)[0] == sons@[0]@);
            assert(params@.subrange(0, 32) =~= params@);
        }
    }
    assert(out@ =~= const_gate_output(views(sons@), params@));
    out
}

/// XOR gate: byte-wise XOR of the two sons.
pub fn eval_xor(sons: &[Vec<u8>]) -> (r: Vec<u8>)
    requires
        sons@.len() == 2,
    ensures
        r@ == xor_bytes(sons@[0]@, sons@[1]@),
{
    xor64(&sons[0], &sons[1])
}

/// COMP gate: 1 when the low 32 bytes of the two sons agree, else 0, then 63 zeros.
pub fn eval_comp(sons: &[Vec<u8>]) -> (r: Vec<u8>)
    requires
        sons@.len() == 2,
    ensures
        r@ == comp_gate_output(views(sons@)),
        r@.len() == 64,
{
    let a = &sons[0];
    let b = &sons[1];
    let mut eq = a.len() >= 32 && b.len() >= 32;
    if eq {
        let mut i: usize = 0;
        while i < 32
            invariant
                a@.len() >= 32,
                b@.len() >= 32,
                i <= 32,
                eq == (forall|k: int| 0 <= k < i ==> a@[k] == b@[k]),
            decreases 32 - i,
        {
            if a[i] != b[i] {
                eq = false;
            }
            i = i + 1;
        }
        if eq {
            assert(a@.subrange(0, 32) =~= b@.subrange(0, 32));
        } else {
            assert(a@.subrange(0, 32) != b@.subrange(0, 32)) by {
                let k = choose|k: int| 0 <= k < 32 && a@[k] != b@[k];
                assert(a@.subrange(0, 32)[k] != b@.subrange(0, 32)[k]);
            }
        }
    }
    let mut out = zeros(64);
    if eq {
        out.set(0, 1u8);
    }
    proof {
        assert(views(sons@)[0] == a@);
        assert(views(sons@)[1] == b@);
    }
    assert(out@ =~= comp_gate_output(views(sons@)));
    out
}

/// The values of the sons of `gate`: input blocks for negative indices, outputs of
/// earlier gates for positive ones.
pub fn get_evaluated_sons_v2(gate: &GateV2, evaluated_values: &[Vec<u8>], inputs: &[Vec<u8>]) -> (r: Vec<Vec<u8>>)
    requires
        encodable(*gate),
        forall|k: int| 0 <= k < gate.sons@.len() ==> son_ok(#[trigger] gate.sons@[k], evaluated_values@.len() as int, inputs@.len() as int),
    ensures
        views(r@) == son_values(*gate, views(inputs@), views(evaluated_values@)),
        r@.len() == gate.sons@.len(),
{
    let mut sons: Vec<Vec<u8>> = Vec::with_capacity(gate.sons.len());
    let mut k: usize = 0;
    while k < gate.sons.len()
        invariant
            encodable(*gate),
            forall|t: int| 0 <= t < gate.sons@.len() ==> son_ok(#[trigger] gate.sons@[t], evaluated_values@.len() as int, inputs@.len() as int),
            k <= gate.sons@.len(),
            sons@.len() == k,
            forall|t: int| 0 <= t < k ==> #[trigger] sons@[t]@ == son_value(gate.sons@[t], views(inputs@), views(evaluated_values@)),
        decreases gate.sons@.len() - k,
    {
        let idx = gate.sons[k];
        assert(son_ok(gate.sons@[k as int], evaluated_values@.len() as int, inputs@.len() as int));
        if idx < 0 {
            let input_idx = (-idx - 1) as usize;
            sons.push(inputs[input_idx].clone());
        } else {
            let array_idx = (idx - 1) as usize;
            sons.push(evaluated_values[array_idx].clone());
        }
        k = k + 1;
    }
    assert(views(sons@) =~= son_values(*gate, views(inputs@), views(evaluated_values@)));
    sons
}

/// Evaluates the gates in order over the input blocks and the AES key; the result
/// holds one output per gate.
pub fn evaluate_circuit_v2(gates: &[GateV2], inputs: &[Vec<u8>], aes_key: &[u8]) -> (r: Vec<Vec<u8>>)
    requires
        aes_key@.len() == 16,
        circuit_wf(gates@, inputs@.len() as int),
    ensures
        views(r@) == eval_trace(gates@, views(inputs@), aes_key@, gates@.len()),
        r@.len() == gates@.len(),
{
    let mut values: Vec<Vec<u8>> = Vec::with_capacity(gates.len());
    let mut j: usize = 0;
    while j < gates.len()
        invariant
            aes_key@.len() == 16,
            circuit_wf(gates@, inputs@.len() as int),
            j <= gates@.len(),
            values@.len() == j,
            views(values@) == eval_trace(gates@, views(inputs@), aes_key@, j as nat),
        decreases gates@.len() - j,
    {
        let gate = &gates[j];
        assert(gate_wf(gates@[j as int], j as int, inputs@.len() as int));
        let sons = get_evaluated_sons_v2(gate, values.as_slice(), inputs);
        let ghost sv = son_values(*gate, views(inputs@), views(values@));
        proof {
            assert forall|k: int| 0 <= k < sons@.len() implies #[trigger] sons@[k]@ == sv[k] by {
                assert(views(sons@)[k] == sons@[k]@);
            }
        }
        let out = if gate.opcode == OPCODE_AES_CTR {
            eval_aes_ctr(sons.as_slice(), gate.params.as_slice(), aes_key)
        } else if gate.opcode == OPCODE_SHA2 {
            eval_sha2(sons.as_slice())
        } else if gate.opcode == OPCODE_CONST {
            eval_const(sons.as_slice(), gate.params.as_slice())
        } else if gate.opcode == OPCODE_XOR {
            eval_xor(sons.as_slice())
        } else {
            eval_comp(sons.as_slice())
        };
        proof {
            assert(out@ == gate_output(gate.opcode, sv, gate.params@, aes_key@));
        }
        let ghost before = values@;
        values.push(out);
        proof {
            assert(views(values@) =~= views(before).push(out@));
        }
        j = j + 1;
    }
    values
}

} // verus!
