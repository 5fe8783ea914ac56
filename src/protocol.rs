use vstd::prelude::*;
use crate::accumulator::{
    acc, acc_fixed64, acc_root, fit64, index_set, leaf_layer, normalize_64, proof_layers, proof_view,
    prove, prove_ext, prove_spec, sorted_of, views, distinct, as_ints,
};
use crate::compiler::{block_count, encoded_gates, gate_encodings, lemma_wf_encodable, CompiledCircuitV2};
use crate::eval::{circuit_wf, eval_trace, evaluate_circuit_v2, gate_wf, get_evaluated_sons_v2, son_ok, son_values};
use crate::gate::encode_spec;
use crate::util::{bytes_eq, extend_from, slice_to_vec, sub_vec};
use crate::commitment::{commit_hashes, commits_to, open_commitment_internal, open_spec, Commitment};
use crate::compiler::{acc_circuit_v2, compile_circuit_v2, compiled_as, MAX_PLAINTEXT_LEN};
use crate::encryption::{ciphertext_of, decrypt, encrypt_and_prepend_iv};
use crate::primitives::{aes128_ctr_of, sha256, sha256_of};

verus! {

/// `s` cut into consecutive pieces of `bs` bytes, the last one possibly shorter.
pub open spec fn chunks(s: Seq<u8>, bs: int) -> Seq<Seq<u8>>
    decreases s.len(),
{
    if s.len() == 0 || bs <= 0 {
        Seq::empty()
    } else if s.len() <= bs {
        seq![s]
    } else {
        seq![s.subrange(0, bs)] + chunks(s.subrange(bs, s.len() as int), bs)
    }
}

/// The ciphertext data blocks (after the 16-byte IV), each brought to 64 bytes.
pub open spec fn data_blocks(ct: Seq<u8>) -> Seq<Seq<u8>> {
    chunks(ct.subrange(16, ct.len() as int), 64).map_values(|b: Seq<u8>| fit64(b))
}

/// The ciphertext leaves: the IV, then the data blocks of `bs` bytes.
pub open spec fn ct_leaves(ct: Seq<u8>, bs: int) -> Seq<Seq<u8>> {
    seq![ct.subrange(0, 16)] + chunks(ct.subrange(16, ct.len() as int), bs)
}

/// There are `block_count(n)` chunks of 64 bytes in `n` bytes.
pub proof fn lemma_chunks_len(s: Seq<u8>)
    ensures
        chunks(s, 64).len() == block_count(s.len() as int),
    decreases s.len(),
{
    if s.len() > 64 {
        lemma_chunks_len(s.subrange(64, s.len() as int));
    }
}

/// `s[start..]` cut into pieces of `bs` bytes, appended to `out`.
fn push_chunks(out: &mut Vec<Vec<u8>>, s: &[u8], start: usize, bs: usize)
    requires
        start <= s@.len(),
        bs > 0,
    ensures
        views(final(out)@) == views(old(out)@) + chunks(s@.subrange(start as int, s@.len() as int), bs as int),
{
    let mut pos = start;
    proof {
        assert(views(out@) + chunks(s@.subrange(pos as int, s@.len() as int), bs as int) =~= views(old(out)@) + chunks(s@.subrange(start as int, s@.len() as int), bs as int));
    }
    while pos < s.len()
        invariant
            start <= pos <= s@.len(),
            bs > 0,
            views(out@) + chunks(s@.subrange(pos as int, s@.len() as int), bs as int) == views(old(out)@) + chunks(s@.subrange(start as int, s@.len() as int), bs as int),
        decreases s@.len() - pos,
    {
        let ghost rest = s@.subrange(pos as int, s@.len() as int);
        let end = if s.len() - pos > bs { pos + bs } else { s.len() };
        let piece = sub_vec(s, pos, end);
        let ghost before = out@;
        out.push(piece);
        proof {
            assert(views(out@) =~= views(before).push(piece@));
            if s@.len() - pos > bs {
                assert(piece@ =~= rest.subrange(0, bs as int));
                assert(rest.subrange(bs as int, rest.len() as int) =~= s@.subrange(end as int, s@.len() as int));
                assert(chunks(rest, bs as int) == seq![piece@] + chunks(s@.subrange(end as int, s@.len() as int), bs as int));
            } else {
                assert(piece@ =~= rest);
                assert(chunks(rest, bs as int) == seq![piece@]);
                assert(s@.subrange(end as int, s@.len() as int) =~= Seq::<u8>::empty());
            }
            assert(views(out@) + chunks(s@.subrange(end as int, s@.len() as int), bs as int) =~= views(before) + chunks(rest, bs as int));
        }
        pos = end;
    }
    proof {
        assert(s@.subrange(pos as int, s@.len() as int) =~= Seq::<u8>::empty());
        assert(views(out@) =~= views(out@) + Seq::<Seq<u8>>::empty());
    }
}

/// Splits a ciphertext into its 16-byte IV and data blocks of `block_size` bytes
/// (the last one possibly shorter).
pub fn split_ct_blocks(ct: &[u8], block_size: usize) -> (r: Vec<Vec<u8>>)
    requires
        ct@.len() >= 16,
        block_size > 0,
    ensures
        views(r@) == ct_leaves(ct@, block_size as int),
{
    let mut res: Vec<Vec<u8>> = Vec::new();
    res.push(sub_vec(ct, 0, 16));
    let ghost first = views(res@);
    push_chunks(&mut res, ct, 16, block_size);
    assert(first =~= seq![ct@.subrange(0, 16)]);
    res
}

/// The ciphertext data blocks, each brought to 64 bytes.
pub fn input_blocks(ct: &[u8]) -> (r: Vec<Vec<u8>>)
    requires
        ct@.len() >= 16,
    ensures
        views(r@) == data_blocks(ct@),
        r@.len() == block_count(ct@.len() - 16),
{
    let mut raw: Vec<Vec<u8>> = Vec::new();
    push_chunks(&mut raw, ct, 16, 64);
    let ghost ch = chunks(ct@.subrange(16, ct@.len() as int), 64);
    assert(views(raw@) =~= ch);
    let mut out: Vec<Vec<u8>> = Vec::with_capacity(raw.len());
    let mut i: usize = 0;
    while i < raw.len()
        invariant
            views(raw@) == ch,
            i <= raw@.len(),
            out@.len() == i,
            forall|k: int| 0 <= k < i ==> #[trigger] out@[k]@ == fit64(ch[k]),
        decreases raw@.len() - i,
    {
        assert(views(raw@)[i as int] == raw@[i as int]@);
        out.push(normalize_64(raw[i].as_slice()));
        i = i + 1;
    }
    proof {
        assert(views(out@) =~= data_blocks(ct@));
        lemma_chunks_len(ct@.subrange(16, ct@.len() as int));
    }
    out
}

/// The accumulator over the ciphertext leaves: the IV, then the data blocks.
pub fn acc_ct(ct: &[u8], block_size: usize) -> (r: Vec<u8>)
    requires
        ct@.len() >= 16,
        block_size > 0,
    ensures
        r@ == acc_root(ct_leaves(ct@, block_size as int)),
        r@.len() == 32,
{
    let blocks = split_ct_blocks(ct, block_size);
    if block_size == 64 {
        acc_fixed64(blocks.as_slice())
    } else {
        acc(blocks.as_slice())
    }
}

/// An evaluated circuit: the input blocks, then one output per gate.
#[derive(Clone, Debug)]
pub struct EvaluatedCircuitV2 {
    pub values: Vec<Vec<u8>>,
}

/// Evaluates a circuit on a ciphertext under `key`; the values are the 64-byte data
/// blocks of the ciphertext followed by the outputs of gates.
pub fn evaluate_circuit_v2_wasm(circuit: &CompiledCircuitV2, ct: &[u8], key: &[u8]) -> (r: EvaluatedCircuitV2)
    requires
        ct@.len() >= 16,
        key@.len() == 16,
        circuit.num_blocks == block_count(ct@.len() - 16),
        circuit_wf(circuit.gates@, circuit.num_blocks as int),
    ensures
        views(r.values@) == data_blocks(ct@) + eval_trace(circuit.gates@, data_blocks(ct@), key@, circuit.gates@.len()),
{
    let inputs = input_blocks(ct);
    let outputs = evaluate_circuit_v2(circuit.gates.as_slice(), inputs.as_slice(), key);
    let mut all = inputs;
    let ghost iv = views(all@);
    let mut outs = outputs;
    let ghost ov = views(outs@);
    all.append(&mut outs);
    assert(views(all@) =~= iv + ov);
    EvaluatedCircuitV2 { values: all }
}

/// This gate outputs of positions `num_blocks .. num_blocks + i` of an evaluated trace,
/// cut at its end.
pub open spec fn hpre_range(values: Seq<Seq<u8>>, num_blocks: int, i: int) -> Seq<Seq<u8>> {
    let end = if num_blocks + i <= values.len() { num_blocks + i } else { values.len() as int };
    if num_blocks >= values.len() { Seq::empty() } else { values.subrange(num_blocks, end) }
}

/// The accumulator of the first `challenge` gate outputs (`challenge` counted from 1);
/// a challenge past the end accumulates the outputs up to the end.
pub fn hpre_v2(evaluated: &EvaluatedCircuitV2, num_blocks: usize, challenge: usize) -> (r: Vec<u8>)
    requires
        challenge >= 1,
    ensures
        r@ == acc_root(hpre_range(views(evaluated.values@), num_blocks as int, challenge as int)),
{
    let len = evaluated.values.len();
    if num_blocks >= len {
        proof {
            assert(views(Seq::<Vec<u8>>::empty()) =~= Seq::<Seq<u8>>::empty());
        }
        return acc(Vec::<Vec<u8>>::new().as_slice());
    }
    let end = if challenge <= len - num_blocks { num_blocks + challenge } else { len };
    let part = slice_values(evaluated.values.as_slice(), num_blocks, end);
    acc(part.as_slice())
}

/// A copy of `values[start..end]`.
pub fn slice_values(values: &[Vec<u8>], start: usize, end: usize) -> (r: Vec<Vec<u8>>)
    requires
        start <= end <= values@.len(),
    ensures
        views(r@) == views(values@).subrange(start as int, end as int),
        r@.len() == end - start,
{
    let mut out: Vec<Vec<u8>> = Vec::with_capacity(end - start);
    let mut i: usize = start;
    while i < end
        invariant
            start <= i <= end,
            end <= values@.len(),
            out@.len() == i - start,
            forall|k: int| 0 <= k < out@.len() ==> #[trigger] out@[k]@ == values@[start + k]@,
        decreases end - i,
    {
        out.push(values[i].clone());
        i = i + 1;
    }
    assert(views(out@) =~= views(values@).subrange(start as int, end as int));
    out
}

/// The proof for a set of claimed leaf positions.
pub open spec fn prove_set_spec(values: Seq<Seq<u8>>, s: Set<int>) -> Seq<Seq<Seq<u8>>> {
    if s.is_empty() || values.len() == 0 {
        Seq::empty()
    } else {
        proof_layers(leaf_layer(values), sorted_of(s))
    }
}

/// A proof depends on the claimed positions only through their set.
pub proof fn lemma_prove_by_set(values: Seq<Seq<u8>>, indices: Seq<u32>)
    ensures
        prove_spec(values, indices) == prove_set_spec(values, index_set(indices)),
{
    if indices.len() > 0 {
        assert(crate::accumulator::as_ints(indices)[0] == indices[0] as int);
        assert(index_set(indices).contains(indices[0] as int));
    } else {
        assert(index_set(indices) =~= Set::<int>::empty());
    }
}

/// Data block positions (from 0) that the sons read, as a set.
pub open spec fn data_son_set(sons: Seq<i64>, nb: int) -> Set<int>
    decreases sons.len(),
{
    if sons.len() == 0 {
        Set::empty()
    } else {
        let s = sons.last();
        let rest = data_son_set(sons.drop_last(), nb);
        if s < 0 && -s <= nb { rest.insert(-s - 1) } else { rest }
    }
}

/// Gate output positions (from 0) of the earlier gates that the sons read, as a set.
pub open spec fn gate_son_set(sons: Seq<i64>) -> Set<int>
    decreases sons.len(),
{
    if sons.len() == 0 {
        Set::empty()
    } else {
        let s = sons.last();
        let rest = gate_son_set(sons.drop_last());
        if s > 0 { rest.insert(s - 1) } else { rest }
    }
}

/// Every position of a set moved up by one.
pub open spec fn shift_up(s: Set<int>) -> Set<int> {
    Set::new(|x: int| s.contains(x - 1))
}

/// Appending an index adds it to the set.
pub proof fn lemma_index_set_push(s: Seq<u32>, v: u32)
    ensures
        index_set(s.push(v)) == index_set(s).insert(v as int),
{
    let t = s.push(v);
    assert forall|x: int| index_set(t).contains(x) implies index_set(s).insert(v as int).contains(x) by {
        let k = choose|k: int| 0 <= k < as_ints(t).len() && as_ints(t)[k] == x;
        if k < s.len() {
            assert(as_ints(s)[k] == x);
        }
    }
    assert forall|x: int| index_set(s).insert(v as int).contains(x) implies index_set(t).contains(x) by {
        if x == v as int {
            assert(as_ints(t)[s.len() as int] == x);
        } else {
            let k = choose|k: int| 0 <= k < as_ints(s).len() && as_ints(s)[k] == x;
            assert(as_ints(t)[k] == x);
        }
    }
    assert(index_set(t) =~= index_set(s).insert(v as int));
}

/// Whether `v` holds `x`.
fn contains_u32(v: &Vec<u32>, x: u32) -> (r: bool)
    ensures
        r == v@.contains(x),
{
    let mut i: usize = 0;
    while i < v.len()
        invariant
            i <= v@.len(),
            forall|k: int| 0 <= k < i ==> v@[k] != x,
        decreases v@.len() - i,
    {
        if v[i] == x {
            assert(v@[i as int] == x);
            return true;
        }
        i = i + 1;
    }
    false
}

/// Splits the sons of a gate into the data blocks it reads (counted from 0) and the
/// earlier gates it reads (counted from 0), each without repetition.
pub fn split_sons_indices_v2(sons: &[i64], num_blocks: u32) -> (r: (Vec<u32>, Vec<u32>))
    requires
        forall|k: int| 0 <= k < sons@.len() ==> (#[trigger] sons@[k]) as int <= u32::MAX,
    ensures
        distinct(r.0@),
        distinct(r.1@),
        index_set(r.0@) == data_son_set(sons@, num_blocks as int),
        index_set(r.1@) == gate_son_set(sons@),
        forall|k: int| 0 <= k < r.0@.len() ==> (#[trigger] r.0@[k]) < num_blocks,
        forall|k: int| 0 <= k < r.1@.len() ==> sons@.contains((#[trigger] r.1@[k] + 1) as i64),
{
    let mut in_l: Vec<u32> = Vec::new();
    let mut not_in_l: Vec<u32> = Vec::new();
    let mut i: usize = 0;
    proof {
        assert(index_set(in_l@) =~= Set::<int>::empty());
        assert(sons@.subrange(0, 0) =~= Seq::<i64>::empty());
    }
    while i < sons.len()
        invariant
            forall|k: int| 0 <= k < sons@.len() ==> (#[trigger] sons@[k]) as int <= u32::MAX,
            i <= sons@.len(),
            distinct(in_l@),
            distinct(not_in_l@),
            index_set(in_l@) == data_son_set(sons@.subrange(0, i as int), num_blocks as int),
            index_set(not_in_l@) == gate_son_set(sons@.subrange(0, i as int)),
            forall|k: int| 0 <= k < in_l@.len() ==> (#[trigger] in_l@[k]) < num_blocks,
            forall|k: int| 0 <= k < not_in_l@.len() ==> sons@.contains((#[trigger] not_in_l@[k] + 1) as i64),
        decreases sons@.len() - i,
    {
        let s = sons[i];
        proof {
            assert(sons@.subrange(0, i as int + 1).drop_last() =~= sons@.subrange(0, i as int));
            assert(sons@.subrange(0, i as int + 1).last() == s);
        }
        if s < 0 {
            if s >= -(num_blocks as i64) {
                let v = (-s - 1) as u32;
                if !contains_u32(&in_l, v) {
                    proof { lemma_index_set_push(in_l@, v); }
                    in_l.push(v);
                } else {
                    proof {
                        let k = choose|k: int| 0 <= k < in_l@.len() && in_l@[k] == v;
                        assert(as_ints(in_l@)[k] == v as int);
                        assert(index_set(in_l@).insert(v as int) =~= index_set(in_l@));
                    }
                }
            }
        } else if s > 0 {
            let v = (s - 1) as u32;
            assert(sons@.contains(((v as int) + 1) as i64)) by {
                assert(sons@[i as int] == s);
            }
            if !contains_u32(&not_in_l, v) {
                proof { lemma_index_set_push(not_in_l@, v); }
                not_in_l.push(v);
            } else {
                proof {
                    let k = choose|k: int| 0 <= k < not_in_l@.len() && not_in_l@[k] == v;
                    assert(as_ints(not_in_l@)[k] == v as int);
                    assert(index_set(not_in_l@).insert(v as int) =~= index_set(not_in_l@));
                }
            }
        }
        i = i + 1;
    }
    proof {
        assert(sons@.subrange(0, sons@.len() as int) =~= sons@);
    }
    (in_l, not_in_l)
}

/// The leaves of the ciphertext tree: the IV, then the 64-byte data blocks.
pub open spec fn ct_tree_leaves(ct: Seq<u8>) -> Seq<Seq<u8>> {
    seq![ct.subrange(0, 16)] + data_blocks(ct)
}

/// What the dispute builders need: a well-formed circuit for this ciphertext and a
/// trace of the right length.
pub open spec fn dispute_ready(circuit: CompiledCircuitV2, evaluated: EvaluatedCircuitV2, ct: Seq<u8>) -> bool {
    &&& ct.len() >= 16
    &&& circuit.num_blocks == block_count(ct.len() - 16)
    &&& circuit_wf(circuit.gates@, circuit.num_blocks as int)
    &&& evaluated.values@.len() == circuit.num_blocks + circuit.gates@.len()
    &&& evaluated.values@.len() < u32::MAX
}

/// This gate outputs of a trace over `nb` input blocks.
pub open spec fn gate_outputs(evaluated: EvaluatedCircuitV2, nb: int) -> Seq<Seq<u8>> {
    views(evaluated.values@).subrange(nb, evaluated.values@.len() as int)
}

/// The components of a terminal dispute round for this gate `i` (from 1).
pub struct FinalStepComponentsV2 {
    pub gate_bytes: Vec<u8>,
    pub values: Vec<Vec<u8>>,
    pub curr_acc: Vec<u8>,
    pub proof1: Vec<Vec<Vec<u8>>>,
    pub proof2: Vec<Vec<Vec<u8>>>,
    pub proof3: Vec<Vec<Vec<u8>>>,
    pub proof_ext: Vec<Vec<Vec<u8>>>,
}

/// The parts that the bundles of an interior and of a first gate share.
pub open spec fn bundle_common(
    circuit: CompiledCircuitV2,
    evaluated: EvaluatedCircuitV2,
    ct: Seq<u8>,
    i: int,
    r: FinalStepComponentsV2,
) -> bool {
    let g = circuit.gates@[i - 1];
    let nb = circuit.num_blocks as int;
    let outs = gate_outputs(evaluated, nb);
    &&& r.gate_bytes@ == encode_spec(g)
    &&& views(r.values@) == son_values(g, data_blocks(ct), outs)
    &&& r.curr_acc@ == acc_root(outs.subrange(0, i))
    &&& proof_view(r.proof1@) == prove_set_spec(gate_encodings(circuit.gates@), set![i - 1])
    &&& proof_view(r.proof2@) == prove_set_spec(ct_tree_leaves(ct), shift_up(data_son_set(g.sons@, nb)))
}

/// Positions moved up by one, as a vector.
fn shift_indices(v: &Vec<u32>, bound: u32) -> (r: Vec<u32>)
    requires
        distinct(v@),
        forall|k: int| 0 <= k < v@.len() ==> (#[trigger] v@[k]) < bound,
    ensures
        distinct(r@),
        index_set(r@) == shift_up(index_set(v@)),
        forall|k: int| 0 <= k < r@.len() ==> (#[trigger] r@[k]) as int <= bound,
{
    let mut out: Vec<u32> = Vec::with_capacity(v.len());
    let mut i: usize = 0;
    while i < v.len()
        invariant
            forall|k: int| 0 <= k < v@.len() ==> (#[trigger] v@[k]) < bound,
            i <= v@.len(),
            out@.len() == i,
            forall|k: int| 0 <= k < i ==> #[trigger] out@[k] == v@[k] + 1,
        decreases v@.len() - i,
    {
        out.push(v[i] + 1);
        i = i + 1;
    }
    proof {
        assert forall|a: int, b: int| 0 <= a < b < out@.len() implies out@[a] != out@[b] by {
            assert(v@[a] != v@[b]);
        }
        assert forall|x: int| index_set(out@).contains(x) implies shift_up(index_set(v@)).contains(x) by {
            let k = choose|k: int| 0 <= k < as_ints(out@).len() && as_ints(out@)[k] == x;
            assert(as_ints(v@)[k] == x - 1);
        }
        assert forall|x: int| shift_up(index_set(v@)).contains(x) implies index_set(out@).contains(x) by {
            let k = choose|k: int| 0 <= k < as_ints(v@).len() && as_ints(v@)[k] == x - 1;
            assert(as_ints(out@)[k] == x);
        }
        assert(index_set(out@) =~= shift_up(index_set(v@)));
    }
    out
}

/// The singleton index vector.
fn single_index(i: u32) -> (r: Vec<u32>)
    ensures
        r@ == seq![i],
        index_set(r@) == set![i as int],
        distinct(r@),
{
    let mut v: Vec<u32> = Vec::new();
    v.push(i);
    proof {
        assert(v@ =~= seq![i]);
        assert(as_ints(v@)[0] == i as int);
        assert forall|x: int| index_set(v@).contains(x) implies x == i as int by {
            let k = choose|k: int| 0 <= k < as_ints(v@).len() && as_ints(v@)[k] == x;
        }
        assert(index_set(v@) =~= set![i as int]);
    }
    v
}

/// Builds the parts shared by the bundles of an interior and of a first gate.
fn build_common(circuit: &CompiledCircuitV2, evaluated: &EvaluatedCircuitV2, ct: &[u8], challenge: u32) -> (r: (FinalStepComponentsV2, Vec<u32>))
    requires
        dispute_ready(*circuit, *evaluated, ct@),
        1 <= challenge <= circuit.gates@.len(),
    ensures
        bundle_common(*circuit, *evaluated, ct@, challenge as int, r.0),
        r.0.proof3@.len() == 0,
        distinct(r.1@),
        index_set(r.1@) == gate_son_set(circuit.gates@[challenge - 1].sons@),
        forall|k: int| 0 <= k < r.1@.len() ==> (#[trigger] r.1@[k] as int) < challenge - 1,
{
    let nb = circuit.num_blocks as usize;
    let len = evaluated.values.len();
    let ct_blocks = input_blocks(ct);
    let gate_idx = (challenge - 1) as usize;
    let gate = &circuit.gates[gate_idx];
    let ghost g = circuit.gates@[gate_idx as int];
    assert(gate_wf(g, gate_idx as int, nb as int));
    proof {
        assert forall|k: int| 0 <= k < g.sons@.len() implies (#[trigger] g.sons@[k]) as int <= u32::MAX by {
            assert(son_ok(g.sons@[k], gate_idx as int, nb as int));
        }
    }
    let (s_in_l, not_in_l) = split_sons_indices_v2(gate.sons.as_slice(), circuit.num_blocks);
    let outs = slice_values(evaluated.values.as_slice(), nb, len);
    proof {
        assert forall|k: int| 0 <= k < g.sons@.len() implies son_ok(#[trigger] g.sons@[k], outs@.len() as int, ct_blocks@.len() as int) by {
            assert(son_ok(g.sons@[k], gate_idx as int, nb as int));
        }
    }
    let values = get_evaluated_sons_v2(gate, outs.as_slice(), ct_blocks.as_slice());
    let upto = slice_values(evaluated.values.as_slice(), nb, nb + gate_idx + 1);
    let curr_acc = acc(upto.as_slice());
    proof { lemma_wf_encodable(circuit.gates@, nb as int); }
    let enc = encoded_gates(circuit.gates.as_slice());
    let one = single_index(gate_idx as u32);
    let proof1 = prove(enc.as_slice(), one.as_slice());
    proof { lemma_prove_by_set(views(enc@), one@); }
    let mut leaves: Vec<Vec<u8>> = Vec::new();
    leaves.push(sub_vec(ct, 0, 16));
    let mut rest = ct_blocks;
    let ghost lv0 = views(leaves@);
    let ghost rv = views(rest@);
    leaves.append(&mut rest);
    assert(views(leaves@) =~= ct_tree_leaves(ct@)) by {
        assert(views(leaves@) =~= lv0 + rv);
        assert(lv0 =~= seq![ct@.subrange(0, 16)]);
    }
    let shifted = shift_indices(&s_in_l, circuit.num_blocks);
    let proof2 = prove(leaves.as_slice(), shifted.as_slice());
    proof { lemma_prove_by_set(views(leaves@), shifted@); }
    let gate_bytes = gate.encode();
    proof {
        assert(views(outs@) == gate_outputs(*evaluated, nb as int));
        assert(views(upto@) =~= gate_outputs(*evaluated, nb as int).subrange(0, challenge as int));
        assert forall|k: int| 0 <= k < not_in_l@.len() implies (#[trigger] not_in_l@[k] as int) < challenge - 1 by {
            let s = (not_in_l@[k] + 1) as i64;
            let j = choose|j: int| 0 <= j < g.sons@.len() && g.sons@[j] == s;
            assert(son_ok(g.sons@[j], gate_idx as int, nb as int));
        }
    }
    let r = FinalStepComponentsV2 {
        gate_bytes,
        values,
        curr_acc,
        proof1,
        proof2,
        proof3: Vec::new(),
        proof_ext: Vec::new(),
    };
    (r, not_in_l)
}

/// What the bundle of an interior gate `i` (from 1) holds.
pub open spec fn interior_bundle(
    circuit: CompiledCircuitV2,
    evaluated: EvaluatedCircuitV2,
    ct: Seq<u8>,
    i: int,
    r: FinalStepComponentsV2,
) -> bool {
    let outs = gate_outputs(evaluated, circuit.num_blocks as int);
    &&& bundle_common(circuit, evaluated, ct, i, r)
    &&& proof_view(r.proof3@) == prove_set_spec(outs.subrange(0, i - 1), gate_son_set(circuit.gates@[i - 1].sons@))
    &&& proof_view(r.proof_ext@) == prove_set_spec(outs.subrange(0, i), set![i - 1])
}

/// The bundle of a terminal round on an interior gate `challenge` (from 1): its gate's
/// encoding and son values, `hpre(challenge)`, the proofs of this gate, of the
/// ciphertext blocks and earlier outputs it reads, and the extension proof.
pub fn compute_proofs_v2(circuit: &CompiledCircuitV2, evaluated: &EvaluatedCircuitV2, ct: &[u8], challenge: u32) -> (r: FinalStepComponentsV2)
    requires
        dispute_ready(*circuit, *evaluated, ct@),
        1 <= challenge <= circuit.gates@.len(),
    ensures
        interior_bundle(*circuit, *evaluated, ct@, challenge as int, r),
{
    let (mut r, not_in_l) = build_common(circuit, evaluated, ct, challenge);
    let nb = circuit.num_blocks as usize;
    let gate_idx = (challenge - 1) as usize;
    let before = slice_values(evaluated.values.as_slice(), nb, nb + gate_idx);
    let proof3 = prove(before.as_slice(), not_in_l.as_slice());
    proof { lemma_prove_by_set(views(before@), not_in_l@); }
    let upto = slice_values(evaluated.values.as_slice(), nb, nb + gate_idx + 1);
    let proof_ext = prove_ext(upto.as_slice());
    proof {
        lemma_prove_by_set(views(upto@), seq![gate_idx as u32]);
        let outs = gate_outputs(*evaluated, nb as int);
        assert(views(before@) =~= outs.subrange(0, challenge - 1));
        assert(views(upto@) =~= outs.subrange(0, challenge as int));
        assert(as_ints(seq![gate_idx as u32])[0] == gate_idx as int);
        assert(index_set(seq![gate_idx as u32]) =~= set![gate_idx as int]);
    }
    r.proof3 = proof3;
    r.proof_ext = proof_ext;
    r
}

/// What the bundle of the first gate holds.
pub open spec fn first_bundle(
    circuit: CompiledCircuitV2,
    evaluated: EvaluatedCircuitV2,
    ct: Seq<u8>,
    i: int,
    r: FinalStepComponentsV2,
) -> bool {
    let outs = gate_outputs(evaluated, circuit.num_blocks as int);
    &&& bundle_common(circuit, evaluated, ct, i, r)
    &&& r.proof3@.len() == 0
    &&& proof_view(r.proof_ext@) == prove_set_spec(seq![outs[0]], set![0])
}

/// The bundle of a terminal round on the first gate: as for an interior gate, with
/// no proof of earlier outputs and the extension proof of the first output alone.
pub fn compute_proofs_left_v2(circuit: &CompiledCircuitV2, evaluated: &EvaluatedCircuitV2, ct: &[u8], challenge: u32) -> (r: FinalStepComponentsV2)
    requires
        dispute_ready(*circuit, *evaluated, ct@),
        1 <= challenge <= circuit.gates@.len(),
    ensures
        first_bundle(*circuit, *evaluated, ct@, challenge as int, r),
{
    let (mut r, _not_in_l) = build_common(circuit, evaluated, ct, challenge);
    let nb = circuit.num_blocks as usize;
    let first = slice_values(evaluated.values.as_slice(), nb, nb + 1);
    let proof_ext = prove_ext(first.as_slice());
    proof {
        lemma_prove_by_set(views(first@), seq![0u32]);
        let outs = gate_outputs(*evaluated, nb as int);
        assert(views(first@) =~= seq![outs[0]]);
        assert(as_ints(seq![0u32])[0] == 0);
        assert(index_set(seq![0u32]) =~= set![0int]);
    }
    r.proof_ext = proof_ext;
    r
}

/// The proof of a terminal round where every accumulator was agreed on: the last
/// gate output inside the accumulator of all gate outputs.
pub fn compute_proof_right_v2(evaluated: &EvaluatedCircuitV2, num_blocks: u32, num_gates: u32) -> (r: Vec<Vec<Vec<u8>>>)
    requires
        num_gates >= 1,
        evaluated.values@.len() == num_blocks + num_gates,
        evaluated.values@.len() < u32::MAX,
    ensures
        proof_view(r@) == prove_set_spec(gate_outputs(*evaluated, num_blocks as int), set![num_gates - 1]),
{
    let nb = num_blocks as usize;
    let outs = slice_values(evaluated.values.as_slice(), nb, evaluated.values.len());
    let one = single_index(num_gates - 1);
    let r = prove(outs.as_slice(), one.as_slice());
    proof { lemma_prove_by_set(views(outs@), one@); }
    r
}

/// The values a vendor publishes before revealing the key.
pub struct Precontract {
    pub ct: Vec<u8>,
    pub circuit: CompiledCircuitV2,
    pub description: Vec<u8>,
    pub h_ct: Vec<u8>,
    pub h_circuit: Vec<u8>,
    pub commitment: Commitment,
    pub num_blocks: u32,
    pub num_gates: u32,
}

/// `c` is the compiled circuit for the ciphertext `ct` and the description `desc`.
pub open spec fn circuit_for(c: CompiledCircuitV2, ct: Seq<u8>, desc: Seq<u8>) -> bool {
    &&& c.version == 1
    &&& c.block_size == 64
    &&& c.num_blocks == block_count(ct.len() - 16)
    &&& compiled_as(c.gates@, ct.subrange(0, 16), ct.len() - 16, desc)
    &&& circuit_wf(c.gates@, c.num_blocks as int)
}

/// `p` is the precontract of `file` under `key`, with the IV `iv` and the commitment
/// randomness `rnd`.
pub open spec fn precontract_of(p: Precontract, file: Seq<u8>, key: Seq<u8>, iv: Seq<u8>, rnd: Seq<u8>) -> bool {
    &&& p.description@ == sha256_of(file)
    &&& p.ct@ == ciphertext_of(file, key, iv)
    &&& circuit_for(p.circuit, p.ct@, p.description@)
    &&& p.h_ct@ == acc_root(ct_leaves(p.ct@, 64))
    &&& p.h_circuit@ == acc_root(gate_encodings(p.circuit.gates@))
    &&& commits_to(p.commitment, p.h_circuit@ + p.h_ct@, rnd)
    &&& p.num_blocks == p.circuit.num_blocks
    &&& p.num_gates == p.circuit.gates@.len()
}

/// Encrypts `file` in place under `key` with a fresh IV, compiles its circuit, computes
/// both accumulators and commits to them with fresh randomness.
pub fn compute_precontract_values_v2(file: &mut [u8], key: &[u8]) -> (r: Precontract)
    requires
        1 <= old(file)@.len() <= MAX_PLAINTEXT_LEN,
        key@.len() == 16,
    ensures
        r.ct@.len() == 16 + old(file)@.len(),
        r.commitment.o@.len() == 80,
        precontract_of(r, old(file)@, key@, r.ct@.subrange(0, 16), r.commitment.o@.subrange(64, 80)),
        final(file)@ == r.ct@.subrange(16, r.ct@.len() as int),
{
    let description = sha256(file);
    let ct = encrypt_and_prepend_iv(file, key);
    let circuit = compile_circuit_v2(ct.as_slice(), description.as_slice());
    let num_blocks = circuit.num_blocks;
    proof {
        crate::compiler::lemma_wf_encodable(circuit.gates@, circuit.num_blocks as int);
        assert(ct@.len() - 16 == old(file)@.len());
    }
    let num_gates = circuit.gates.len() as u32;
    let h_ct = acc_ct(ct.as_slice(), 64);
    let h_circuit = acc_circuit_v2(circuit.gates.as_slice());
    let commitment = commit_hashes(h_circuit.as_slice(), h_ct.as_slice());
    proof {
        assert(ct@.subrange(16, ct@.len() as int).len() == old(file)@.len());
    }
    Precontract { ct, circuit, description, h_ct, h_circuit, commitment, num_blocks, num_gates }
}

/// The result of checking a precontract.
pub struct CheckPrecontractResult {
    pub success: bool,
    pub h_circuit: Vec<u8>,
    pub h_ct: Vec<u8>,
}

/// The commitment opens to exactly `h_circuit ‖ h_ct`.
pub open spec fn opens_to(commitment: Seq<u8>, opening: Seq<u8>, h_circuit: Seq<u8>, h_ct: Seq<u8>) -> bool {
    &&& opening.len() >= 16
    &&& open_spec(commitment, opening) == Ok::<Seq<u8>, ()>(h_circuit + h_ct)
}

/// Recomputes the circuit and both accumulators from the received ciphertext and the
/// advertised description, and checks that the commitment opens to them.
pub fn check_precontract(description: &[u8], commitment: &[u8], opening_value: &[u8], ct: &[u8]) -> (r: CheckPrecontractResult)
    requires
        16 < ct@.len() <= 16 + MAX_PLAINTEXT_LEN,
    ensures
        exists|c: CompiledCircuitV2|
            #[trigger] circuit_for(c, ct@, description@)
            && r.h_circuit@ == acc_root(gate_encodings(c.gates@)),
        r.h_ct@ == acc_root(ct_leaves(ct@, 64)),
        r.success == opens_to(commitment@, opening_value@, r.h_circuit@, r.h_ct@),
{
    let circuit = compile_circuit_v2(ct, description);
    proof {
        crate::compiler::lemma_wf_encodable(circuit.gates@, circuit.num_blocks as int);
    }
    let h_ct = acc_ct(ct, 64);
    let h_circuit = acc_circuit_v2(circuit.gates.as_slice());
    let ghost c = circuit;
    assert(circuit_for(c, ct@, description@));
    if opening_value.len() < 16 {
        return CheckPrecontractResult { success: false, h_circuit, h_ct };
    }
    let cm = slice_to_vec(commitment);
    let ov = slice_to_vec(opening_value);
    let success = match open_commitment_internal(&cm, &ov) {
        Ok(opened) => {
            let mut expected = slice_to_vec(h_circuit.as_slice());
            extend_from(&mut expected, h_ct.as_slice());
            bytes_eq(opened.as_slice(), expected.as_slice())
        },
        Err(_) => false,
    };
    CheckPrecontractResult { success, h_circuit, h_ct }
}

/// The result of checking a decrypted file.
pub struct CheckCtResult {
    pub success: bool,
    pub decrypted_file: Vec<u8>,
}

/// Decrypts the ciphertext with the revealed key and checks that the SHA-256 of the
/// plaintext equals the description.
pub fn check_received_ct_key(ct: &[u8], key: &[u8], description: &[u8]) -> (r: CheckCtResult)
    requires
        ct@.len() >= 16,
        key@.len() == 16,
    ensures
        r.decrypted_file@ == aes128_ctr_of(key@, ct@.subrange(0, 16), ct@.subrange(16, ct@.len() as int)),
        r.success == (description@ == sha256_of(r.decrypted_file@)),
{
    let decrypted_file = decrypt(ct, key);
    let computed = sha256(decrypted_file.as_slice());
    let success = bytes_eq(description, computed.as_slice());
    CheckCtResult { success, decrypted_file }
}

} // verus!
