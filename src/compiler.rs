use vstd::prelude::*;
use crate::eval::{aes_valid_bits, circuit_wf, gate_wf};
use crate::gate::{
    encodable, GateV2, OPCODE_AES_CTR, OPCODE_COMP, OPCODE_CONST, OPCODE_SHA2, OPCODE_XOR, SON_MAX,
};
use crate::util::{sub_vec, zeros};
use crate::accumulator::{acc_fixed64, acc_root, views};
use crate::gate::encode_spec;

verus! {

/// Largest plaintext length (in bytes) a circuit is compiled for: the block count
/// and the number of gates fit in 32 bits.
pub const MAX_PLAINTEXT_LEN: u64 = 0x1F_FFFF_FC00;

/// A compiled circuit of 64-byte gates over `num_blocks` ciphertext data blocks.
#[derive(Clone, Debug)]
pub struct CompiledCircuitV2 {
    pub version: u32,
    pub gates: Vec<GateV2>,
    pub block_size: u32,
    pub num_blocks: u32,
}

/// A 16-byte string read as a big-endian 128-bit integer.
pub open spec fn be_u128(s: Seq<u8>) -> u128
    decreases s.len(),
{
    if s.len() == 0 {
        0u128
    } else {
        ((be_u128(s.drop_last()) << 8u128) | (s.last() as u128)) as u128
    }
}

/// The 16 big-endian bytes of `v`.
pub open spec fn u128_bytes(v: u128) -> Seq<u8> {
    Seq::new(16, |j: int| ((v >> ((120 - 8 * j) as u128)) & 0xffu128) as u8)
}

/// The counter block `iv + inc`, with a big-endian 128-bit counter that wraps.
pub open spec fn counter_at(iv: Seq<u8>, inc: u64) -> Seq<u8> {
    u128_bytes(be_u128(iv).wrapping_add(inc as u128))
}

/// The 8 big-endian bytes of `x`.
pub open spec fn be64_bytes(x: u64) -> Seq<u8> {
    Seq::new(8, |j: int| ((x >> ((56 - 8 * j) as u64)) & 0xffu64) as u8)
}

/// The 2 big-endian bytes of `x` (below 65536).
pub open spec fn be16_bytes(x: int) -> Seq<u8> {
    seq![(x / 256) as u8, (x % 256) as u8]
}

/// Number of 64-byte blocks of a plaintext of `n` bytes.
pub open spec fn block_count(n: int) -> int {
    (n + 63) / 64
}

/// Valid bits of data block `i` of a plaintext of `n` bytes.
pub open spec fn block_bits(n: int, i: int) -> int {
    if (n - 64 * i) * 8 >= 512 { 512 } else { (n - 64 * i) * 8 }
}

/// Parameters of the AES-CTR gate of data block `i`.
pub open spec fn aes_params(iv: Seq<u8>, n: int, i: int) -> Seq<u8> {
    counter_at(iv, (4 * i) as u64) + be16_bytes(block_bits(n, i))
}

/// A 64-byte padding pattern: `0x80` at `marker` (none when it is 64), and when
/// `with_len` the 64-bit bit length `lb` in the last 8 bytes.
pub open spec fn pad_pattern(marker: int, with_len: bool, lb: u64) -> Seq<u8> {
    Seq::new(
        64,
        |i: int|
            if i == marker {
                0x80u8
            } else if with_len && i >= 56 {
                be64_bytes(lb)[i - 56]
            } else {
                0u8
            },
    )
}

/// The description brought to 32 bytes.
pub open spec fn desc32(d: Seq<u8>) -> Seq<u8> {
    Seq::new(32, |i: int| if i < d.len() { d[i] } else { 0u8 })
}

/// `g` has this opcode, these sons and these parameters.
pub open spec fn is_gate(g: GateV2, opcode: u8, sons: Seq<i64>, params: Seq<u8>) -> bool {
    g.opcode == opcode && g.sons@ == sons && g.params@ == params
}

/// Positions `q` and `q + 1` hold two CONST gates that synthesise the pattern `p`.
pub open spec fn const_pair_at(gates: Seq<GateV2>, q: int, p: Seq<u8>) -> bool {
    &&& is_gate(gates[q], OPCODE_CONST, Seq::empty(), p.subrange(0, 32))
    &&& is_gate(gates[q + 1], OPCODE_CONST, seq![(q + 1) as i64], p.subrange(32, 64))
}

/// Number of padding gates for a plaintext of `n` bytes.
pub open spec fn padding_gate_count(n: int) -> int {
    if n % 64 == 0 { 2 } else if n % 64 <= 55 { 3 } else { 5 }
}

/// Number of SHA-256 input blocks for a plaintext of `n` bytes.
pub open spec fn sha_block_count(n: int) -> int {
    if n % 64 == 0 || n % 64 > 55 { block_count(n) + 1 } else { block_count(n) }
}

/// Gate number (from 1) of the `t`-th SHA-256 input block.
pub open spec fn block_ref(n: int, t: int) -> int {
    let m = block_count(n);
    if t < m - 1 {
        t + 1
    } else if t == m - 1 {
        if n % 64 == 0 { m } else { m + 3 }
    } else {
        if n % 64 == 0 { m + 2 } else { m + 5 }
    }
}

/// Sons of the `t`-th SHA2 gate, whose gate number is `p + t + 1`.
pub open spec fn sha_sons(n: int, p: int, t: int) -> Seq<i64> {
    if t == 0 {
        seq![block_ref(n, 0) as i64]
    } else {
        seq![(p + t) as i64, block_ref(n, t) as i64]
    }
}

/// `gates` is the circuit for the IV `iv`, a plaintext of `n` bytes and the
/// description `desc`: the AES-CTR gates, the padding gates, the SHA-256 chain, the
/// description constant and the final comparison.
pub open spec fn compiled_as(gates: Seq<GateV2>, iv: Seq<u8>, n: int, desc: Seq<u8>) -> bool {
    let m = block_count(n);
    let rem = n % 64;
    let lb = (8 * n) as u64;
    let p = m + padding_gate_count(n);
    let k = sha_block_count(n);
    &&& gates.len() == p + k + 2
    &&& forall|i: int|
        0 <= i < m ==> is_gate(#[trigger] gates[i], OPCODE_AES_CTR, seq![(-(i + 1)) as i64], aes_params(iv, n, i))
    &&& rem == 0 ==> const_pair_at(gates, m, pad_pattern(0, true, lb))
    &&& 0 < rem <= 55 ==> const_pair_at(gates, m, pad_pattern(rem, true, lb))
    &&& rem > 55 ==> const_pair_at(gates, m, pad_pattern(rem, false, lb))
    &&& rem != 0 ==> is_gate(gates[m + 2], OPCODE_XOR, seq![m as i64, (m + 2) as i64], Seq::empty())
    &&& rem > 55 ==> const_pair_at(gates, m + 3, pad_pattern(64, true, lb))
    &&& forall|t: int| 0 <= t < k ==> is_gate(#[trigger] gates[p + t], OPCODE_SHA2, sha_sons(n, p, t), Seq::empty())
    &&& is_gate(gates[p + k], OPCODE_CONST, Seq::empty(), desc32(desc))
    &&& is_gate(gates[p + k + 1], OPCODE_COMP, seq![(p + k) as i64, (p + k + 1) as i64], Seq::empty())
}

/// The IV plus `inc`, as a big-endian 128-bit counter that wraps.
pub fn increment_iv(iv: &[u8], inc: u64) -> (r: [u8; 16])
    requires
        iv@.len() == 16,
    ensures
        r@ == counter_at(iv@, inc),
{
    let mut v: u128 = 0;
    let mut i: usize = 0;
    while i < 16
        invariant
            iv@.len() == 16,
            i <= 16,
            v == be_u128(iv@.subrange(0, i as int)),
        decreases 16 - i,
    {
        assert(iv@.subrange(0, i as int + 1).drop_last() =~= iv@.subrange(0, i as int));
        v = (v << 8u128) | (iv[i] as u128);
        i = i + 1;
    }
    assert(iv@.subrange(0, 16) =~= iv@);
    let c = v.wrapping_add(inc as u128);
    let mut r: [u8; 16] = [0u8; 16];
    let mut j: usize = 0;
    while j < 16
        invariant
            j <= 16,
            r@.len() == 16,
            forall|t: int| 0 <= t < j ==> #[trigger] r@[t] == u128_bytes(c)[t],
        decreases 16 - j,
    {
        r.set(j, ((c >> ((120 - 8 * j) as u128)) & 0xffu128) as u8);
        j = j + 1;
    }
    assert(r@ =~= counter_at(iv@, inc));
    r
}

/// The 8 big-endian bytes of `x`.
fn be64(x: u64) -> (r: Vec<u8>)
    ensures
        r@ == be64_bytes(x),
{
    let mut out: Vec<u8> = Vec::with_capacity(8);
    let mut j: usize = 0;
    while j < 8
        invariant
            j <= 8,
            out@.len() == j,
            forall|t: int| 0 <= t < j ==> #[trigger] out@[t] == be64_bytes(x)[t],
        decreases 8 - j,
    {
        out.push(((x >> ((56 - 8 * j) as u64)) & 0xffu64) as u8);
        j = j + 1;
    }
    assert(out@ =~= be64_bytes(x));
    out
}

/// The padding pattern with `0x80` at `marker` and, when `with_len`, the bit length.
fn make_pattern(marker: usize, with_len: bool, lb: u64) -> (r: Vec<u8>)
    requires
        marker <= 64,
    ensures
        r@ == pad_pattern(marker as int, with_len, lb),
{
    let len = be64(lb);
    let mut out: Vec<u8> = Vec::with_capacity(64);
    let mut i: usize = 0;
    while i < 64
        invariant
            i <= 64,
            len@ == be64_bytes(lb),
            out@.len() == i,
            forall|t: int| 0 <= t < i ==> #[trigger] out@[t] == pad_pattern(marker as int, with_len, lb)[t],
        decreases 64 - i,
    {
        if i == marker {
            out.push(0x80u8);
        } else if with_len && i >= 56 {
            out.push(len[i - 56]);
        } else {
            out.push(0u8);
        }
        i = i + 1;
    }
    assert(out@ =~= pad_pattern(marker as int, with_len, lb));
    out
}

/// Appends a gate, which must be well formed at its position.
fn push_gate(gates: &mut Vec<GateV2>, opcode: u8, sons: Vec<i64>, params: Vec<u8>, Ghost(m): Ghost<int>)
    requires
        circuit_wf(old(gates)@, m),
        gate_wf(GateV2 { opcode, sons, params }, old(gates)@.len() as int, m),
    ensures
        final(gates)@ == old(gates)@.push(GateV2 { opcode, sons, params }),
        circuit_wf(final(gates)@, m),
{
    let ghost g = GateV2 { opcode, sons, params };
    gates.push(GateV2 { opcode, sons, params });
    assert forall|j: int| 0 <= j < gates@.len() implies gate_wf(#[trigger] gates@[j], j, m) by {
        if j < gates@.len() - 1 {
            assert(gates@[j] == old(gates)@[j]);
        }
    }
}

/// Pushes the two CONST gates that synthesise a 64-byte pattern; returns the number
/// of the second gate.
fn push_const_pair(gates: &mut Vec<GateV2>, pattern: &Vec<u8>, Ghost(m): Ghost<int>) -> (r: i64)
    requires
        circuit_wf(old(gates)@, m),
        pattern@.len() == 64,
        old(gates)@.len() + 2 <= SON_MAX,
    ensures
        final(gates)@.len() == old(gates)@.len() + 2,
        r == final(gates)@.len(),
        forall|j: int| 0 <= j < old(gates)@.len() ==> #[trigger] final(gates)@[j] == old(gates)@[j],
        const_pair_at(final(gates)@, old(gates)@.len() as int, pattern@),
        circuit_wf(final(gates)@, m),
{
    let head = sub_vec(pattern.as_slice(), 0, 32);
    let tail = sub_vec(pattern.as_slice(), 32, 64);
    let first = gates.len() as i64 + 1;
    let ghost g0 = old(gates)@;
    push_gate(gates, OPCODE_CONST, Vec::new(), head, Ghost(m));
    let mut sons: Vec<i64> = Vec::new();
    sons.push(first);
    proof {
        assert(sons@ =~= seq![first]);
    }
    push_gate(gates, OPCODE_CONST, sons, tail, Ghost(m));
    proof {
        assert(gates@[g0.len() as int].sons@ =~= Seq::<i64>::empty());
    }
    (gates.len()) as i64
}

/// The description brought to 32 bytes: truncated, or right-padded with zeros.
fn description_params(description: &[u8]) -> (r: Vec<u8>)
    ensures
        r@ == desc32(description@),
{
    let mut out: Vec<u8> = Vec::with_capacity(32);
    let mut i: usize = 0;
    while i < 32
        invariant
            i <= 32,
            out@.len() == i,
            forall|t: int| 0 <= t < i ==> #[trigger] out@[t] == desc32(description@)[t],
        decreases 32 - i,
    {
        if i < description.len() {
            out.push(description[i]);
        } else {
            out.push(0u8);
        }
        i = i + 1;
    }
    assert(out@ =~= desc32(description@));
    out
}

/// Compiles the circuit that decrypts `ct` (a 16-byte IV, then the data) block by
/// block, applies SHA-256 padding as constant gates, chains the SHA-256 compressions
/// and compares the digest with `description`. The key is supplied at evaluation.
pub fn compile_circuit_v2(ct: &[u8], description: &[u8]) -> (r: CompiledCircuitV2)
    requires
        ct@.len() > 16,
        ct@.len() - 16 <= MAX_PLAINTEXT_LEN,
    ensures
        r.version == 1,
        r.block_size == 64,
        r.num_blocks == block_count(ct@.len() - 16),
        compiled_as(r.gates@, ct@.subrange(0, 16), ct@.len() - 16, description@),
        circuit_wf(r.gates@, r.num_blocks as int),
        crate::eval::sons_follow_convention(r.gates@, r.num_blocks as int),
        r.gates@[r.gates@.len() - 1].opcode == OPCODE_COMP,
{
    let iv = sub_vec(ct, 0, 16);
    let n = ct.len() - 16;
    let m = n / 64 + if n % 64 == 0 { 0 } else { 1 };
    let rem = n % 64;
    let lb = (n as u64) * 8;
    let ghost gm = m as int;
    let ghost ni = n as int;
    let mut gates: Vec<GateV2> = Vec::new();

    let mut i: usize = 0;
    while i < m
        invariant
            n == ct@.len() - 16,
            n <= MAX_PLAINTEXT_LEN,
            m == block_count(n as int),
            gm == m,
            iv@ == ct@.subrange(0, 16),
            i <= m,
            gates@.len() == i,
            circuit_wf(gates@, gm),
            forall|t: int| 0 <= t < i ==> is_gate(#[trigger] gates@[t], OPCODE_AES_CTR, seq![(-(t + 1)) as i64], aes_params(iv@, n as int, t)),
        decreases m - i,
    {
        let counter = increment_iv(iv.as_slice(), (i as u64) * 4);
        let bits: usize = if (n - 64 * i) >= 64 { 512 } else { (n - 64 * i) * 8 };
        let mut params = crate::util::slice_to_vec(counter.as_slice());
        params.push((bits / 256) as u8);
        params.push((bits % 256) as u8);
        let mut sons: Vec<i64> = Vec::new();
        sons.push(-(i as i64 + 1));
        proof {
            assert(params@ =~= aes_params(iv@, n as int, i as int));
            assert(sons@ =~= seq![(-(i + 1)) as i64]);
            assert(aes_valid_bits(params@) == bits);
        }
        let ghost before = gates@;
        push_gate(&mut gates, OPCODE_AES_CTR, sons, params, Ghost(gm));
        proof {
            assert forall|t: int| 0 <= t < i + 1 implies is_gate(#[trigger] gates@[t], OPCODE_AES_CTR, seq![(-(t + 1)) as i64], aes_params(iv@, n as int, t)) by {
                if t < i {
                    assert(gates@[t] == before[t]);
                }
            }
        }
        i = i + 1;
    }
    let ghost aes_part = gates@;

    let mut refs: Vec<i64> = Vec::new();
    let mut t: usize = 0;
    while t + 1 < m
        invariant
            m == block_count(n as int),
            n == ct@.len() - 16,
            n > 0,
            n <= MAX_PLAINTEXT_LEN,
            t < m,
            refs@.len() == t,
            forall|u: int| 0 <= u < t ==> #[trigger] refs@[u] == block_ref(n as int, u),
        decreases m - t,
    {
        refs.push(t as i64 + 1);
        t = t + 1;
    }
    let ghost lbs = (8 * n) as u64;
    assert(lb == lbs);
    if rem == 0 {
        let pat = make_pattern(0, true, lb);
        let extra = push_const_pair(&mut gates, &pat, Ghost(gm));
        refs.push(m as i64);
        refs.push(extra);
        proof {
            assert(const_pair_at(gates@, gm, pad_pattern(0, true, lbs)));
        }
    } else {
        let pat = if rem <= 55 { make_pattern(rem, true, lb) } else { make_pattern(rem, false, lb) };
        let mask = push_const_pair(&mut gates, &pat, Ghost(gm));
        let ghost after_mask = gates@;
        let mut sons: Vec<i64> = Vec::new();
        sons.push(m as i64);
        sons.push(mask);
        proof {
            assert(sons@ =~= seq![m as i64, (m + 2) as i64]);
        }
        push_gate(&mut gates, OPCODE_XOR, sons, Vec::new(), Ghost(gm));
        refs.push(m as i64 + 3);
        proof {
            assert(gates@[gm] == after_mask[gm]);
            assert(gates@[gm + 1] == after_mask[gm + 1]);
            assert(const_pair_at(gates@, gm, pat@));
            assert(is_gate(gates@[gm + 2], OPCODE_XOR, seq![m as i64, (m + 2) as i64], Seq::empty()));
        }
        if rem > 55 {
            let ghost after_xor = gates@;
            let pat2 = make_pattern(64, true, lb);
            let extra = push_const_pair(&mut gates, &pat2, Ghost(gm));
            refs.push(extra);
            proof {
                assert(gates@[gm] == after_xor[gm]);
                assert(gates@[gm + 1] == after_xor[gm + 1]);
                assert(gates@[gm + 2] == after_xor[gm + 2]);
            }
        }
    }
    proof {
        assert forall|u: int| 0 <= u < gm implies #[trigger] gates@[u] == aes_part[u] by {}
    }
    let ghost pad_part = gates@;
    let p = gates.len();
    let k = refs.len();
    assert(p == gm + padding_gate_count(n as int));
    assert(k == sha_block_count(n as int));
    assert forall|u: int| 0 <= u < k implies #[trigger] refs@[u] == block_ref(n as int, u) by {}

    let mut t: usize = 0;
    while t < k
        invariant
            m == block_count(n as int),
            gm == m,
            n == ct@.len() - 16,
            n > 0,
            n <= MAX_PLAINTEXT_LEN,
            p == gm + padding_gate_count(n as int),
            k == sha_block_count(n as int),
            k == refs@.len(),
            forall|u: int| 0 <= u < k ==> #[trigger] refs@[u] == block_ref(n as int, u),
            t <= k,
            gates@.len() == p + t,
            circuit_wf(gates@, gm),
            forall|u: int| 0 <= u < p ==> #[trigger] gates@[u] == pad_part[u],
            forall|u: int| 0 <= u < t ==> is_gate(#[trigger] gates@[p + u], OPCODE_SHA2, sha_sons(n as int, p as int, u), Seq::empty()),
        decreases k - t,
    {
        let mut sons: Vec<i64> = Vec::new();
        if t == 0 {
            sons.push(refs[0]);
        } else {
            sons.push((p + t) as i64);
            sons.push(refs[t]);
        }
        proof {
            assert(sons@ =~= sha_sons(n as int, p as int, t as int));
        }
        let ghost before = gates@;
        push_gate(&mut gates, OPCODE_SHA2, sons, Vec::new(), Ghost(gm));
        proof {
            assert forall|u: int| 0 <= u < t + 1 implies is_gate(#[trigger] gates@[p + u], OPCODE_SHA2, sha_sons(n as int, p as int, u), Seq::empty()) by {
                if u < t {
                    assert(gates@[p + u] == before[p + u]);
                }
            }
        }
        t = t + 1;
    }
    let ghost sha_part = gates@;
    let desc = description_params(description);
    push_gate(&mut gates, OPCODE_CONST, Vec::new(), desc, Ghost(gm));
    let mut sons: Vec<i64> = Vec::new();
    sons.push((p + k) as i64);
    sons.push((p + k + 1) as i64);
    proof {
        assert(sons@ =~= seq![(p + k) as i64, (p + k + 1) as i64]);
    }
    push_gate(&mut gates, OPCODE_COMP, sons, Vec::new(), Ghost(gm));
    proof {
        let g = gates@;
        assert forall|u: int| 0 <= u < p + k implies #[trigger] g[u] == sha_part[u] by {}
        assert forall|i: int| 0 <= i < gm implies is_gate(#[trigger] g[i], OPCODE_AES_CTR, seq![(-(i + 1)) as i64], aes_params(iv@, n as int, i)) by {
            assert(g[i] == pad_part[i]);
            assert(pad_part[i] == aes_part[i]);
        }
        assert forall|u: int| 0 <= u < k implies is_gate(#[trigger] g[p + u], OPCODE_SHA2, sha_sons(n as int, p as int, u), Seq::empty()) by {
            assert(g[p + u] == sha_part[p + u]);
        }
        assert(g[gm] == pad_part[gm]);
        assert(g[gm + 1] == pad_part[gm + 1]);
        if rem != 0 {
            assert(g[gm + 2] == pad_part[gm + 2]);
        }
        if rem > 55 {
            assert(g[gm + 3] == pad_part[gm + 3]);
            assert(g[gm + 4] == pad_part[gm + 4]);
        }
        assert(g[p + k].sons@ =~= Seq::<i64>::empty());
        crate::eval::lemma_wf_follows_convention(g, gm);
    }
    CompiledCircuitV2 { version: 1, gates, block_size: 64, num_blocks: m as u32 }
}

/// The encodings of a sequence of gates.
pub open spec fn gate_encodings(gates: Seq<GateV2>) -> Seq<Seq<u8>> {
    gates.map_values(|g: GateV2| encode_spec(g))
}

/// Every gate fits the 64-byte format.
pub open spec fn all_encodable(gates: Seq<GateV2>) -> bool {
    forall|j: int| 0 <= j < gates.len() ==> encodable(#[trigger] gates[j])
}

/// A circuit that is well formed has gates that fit the 64-byte format.
pub proof fn lemma_wf_encodable(gates: Seq<GateV2>, m: int)
    requires
        circuit_wf(gates, m),
    ensures
        all_encodable(gates),
{
    assert forall|j: int| 0 <= j < gates.len() implies encodable(#[trigger] gates[j]) by {
        assert(gate_wf(gates[j], j, m));
    }
}

/// The 64-byte encodings of the gates, in order.
pub fn encoded_gates(gates: &[GateV2]) -> (r: Vec<Vec<u8>>)
    requires
        all_encodable(gates@),
    ensures
        views(r@) == gate_encodings(gates@),
        r@.len() == gates@.len(),
{
    let mut out: Vec<Vec<u8>> = Vec::with_capacity(gates.len());
    let mut j: usize = 0;
    while j < gates.len()
        invariant
            all_encodable(gates@),
            j <= gates@.len(),
            out@.len() == j,
            forall|k: int| 0 <= k < j ==> #[trigger] out@[k]@ == encode_spec(gates@[k]),
        decreases gates@.len() - j,
    {
        assert(encodable(gates@[j as int]));
        out.push(gates[j].encode());
        j = j + 1;
    }
    assert(views(out@) =~= gate_encodings(gates@));
    out
}

/// The accumulator over the 64-byte encodings of the gates.
pub fn acc_circuit_v2(gates: &[GateV2]) -> (r: Vec<u8>)
    requires
        all_encodable(gates@),
    ensures
        r@ == acc_root(gate_encodings(gates@)),
        gates@.len() > 0 ==> r@.len() == 32,
{
    let enc = encoded_gates(gates);
    acc_fixed64(enc.as_slice())
}

impl CompiledCircuitV2 {
    /// The 64-byte encodings of the circuit's gates, in order.
    pub fn encoded_gates(&self) -> (r: Vec<Vec<u8>>)
        requires
            all_encodable(self.gates@),
        ensures
            views(r@) == gate_encodings(self.gates@),
    {
        encoded_gates(self.gates.as_slice())
    }
}

} // verus!
