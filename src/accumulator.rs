use vstd::prelude::*;
use crate::primitives::{keccak256, keccak256_of};

verus! {

/// The byte contents of a sequence of byte vectors.
pub open spec fn views(values: Seq<Vec<u8>>) -> Seq<Seq<u8>> {
    values.map_values(|v: Vec<u8>| v@)
}

/// A value brought to exactly 64 bytes: truncated, or right-padded with zeros.
pub open spec fn fit64(v: Seq<u8>) -> Seq<u8> {
    Seq::new(64, |i: int| if i < v.len() { v[i] } else { 0u8 })
}

/// The hash of a leaf: Keccak-256 of the leaf brought to 64 bytes.
pub open spec fn leaf_hash(v: Seq<u8>) -> Seq<u8> {
    keccak256_of(fit64(v))
}

/// The hash of an interior node: Keccak-256 of its two children side by side.
pub open spec fn node_hash(left: Seq<u8>, right: Seq<u8>) -> Seq<u8> {
    keccak256_of(left + right)
}

/// The layer above `layer`: adjacent pairs are hashed together, an odd last node
/// is promoted unchanged.
pub open spec fn next_layer(layer: Seq<Seq<u8>>) -> Seq<Seq<u8>> {
    Seq::new(
        ((layer.len() + 1) / 2) as nat,
        |k: int|
            if 2 * k + 1 < layer.len() {
                node_hash(layer[2 * k], layer[2 * k + 1])
            } else {
                layer[2 * k]
            },
    )
}

/// The root over a non-empty layer; the empty layer gives the empty sentinel.
pub open spec fn layer_root(layer: Seq<Seq<u8>>) -> Seq<u8>
    decreases layer.len(),
{
    if layer.len() == 0 {
        Seq::empty()
    } else if layer.len() == 1 {
        layer[0]
    } else {
        layer_root(next_layer(layer))
    }
}

/// The leaf hashes of a sequence of values.
pub open spec fn leaf_layer(values: Seq<Seq<u8>>) -> Seq<Seq<u8>> {
    values.map_values(|v: Seq<u8>| leaf_hash(v))
}

/// The accumulator (Merkle root) of a sequence of values.
pub open spec fn acc_root(values: Seq<Seq<u8>>) -> Seq<u8> {
    layer_root(leaf_layer(values))
}

/// Every vector of a sequence is 32 bytes long.
pub open spec fn all32v(layer: Seq<Vec<u8>>) -> bool {
    forall|k: int| 0 <= k < layer.len() ==> #[trigger] layer[k]@.len() == 32
}

/// A value brought to exactly 64 bytes: truncated, or right-padded with zeros.
pub fn normalize_64(v: &[u8]) -> (r: Vec<u8>)
    ensures
        r@ == fit64(v@),
{
    let mut out: Vec<u8> = Vec::with_capacity(64);
    let mut i: usize = 0;
    while i < 64
        invariant
            i <= 64,
            out@.len() == i,
            forall|k: int| 0 <= k < i ==> out@[k] == fit64(v@)[k],
        decreases 64 - i,
    {
        if i < v.len() {
            out.push(v[i]);
        } else {
            out.push(0u8);
        }
        i = i + 1;
    }
    assert(out@ =~= fit64(v@));
    out
}

/// Keccak-256 of a value brought to 64 bytes.
pub fn hash_block64(data: &[u8]) -> (r: Vec<u8>)
    ensures
        r@ == leaf_hash(data@),
        r@.len() == 32,
{
    let block = normalize_64(data);
    keccak256(block.as_slice())
}

/// Hashes two 32-byte nodes side by side.
pub fn concat_and_hash(left: &Vec<u8>, right: &Vec<u8>) -> (r: Vec<u8>)
    requires
        left@.len() == 32,
        right@.len() == 32,
    ensures
        r@ == node_hash(left@, right@),
        r@.len() == 32,
{
    let mut buf: Vec<u8> = Vec::with_capacity(64);
    let mut i: usize = 0;
    while i < 32
        invariant
            i <= 32,
            left@.len() == 32,
            buf@ == left@.subrange(0, i as int),
        decreases 32 - i,
    {
        buf.push(left[i]);
        i = i + 1;
        assert(buf@ =~= left@.subrange(0, i as int));
    }
    let mut j: usize = 0;
    while j < 32
        invariant
            j <= 32,
            left@.len() == 32,
            right@.len() == 32,
            buf@ == left@ + right@.subrange(0, j as int),
        decreases 32 - j,
    {
        buf.push(right[j]);
        j = j + 1;
        assert(buf@ =~= left@ + right@.subrange(0, j as int));
    }
    assert(right@.subrange(0, 32) =~= right@);
    keccak256(buf.as_slice())
}

/// The layer above `layer`, pairs taken in index order.
fn compute_next_layer(layer: &Vec<Vec<u8>>) -> (r: Vec<Vec<u8>>)
    requires
        all32v(layer@),
    ensures
        views(r@) == next_layer(views(layer@)),
        r@.len() == (layer@.len() + 1) / 2,
        all32v(r@),
{
    let ghost l = views(layer@);
    let n = layer.len();
    let half = n / 2 + n % 2;
    let mut out: Vec<Vec<u8>> = Vec::with_capacity(half);
    let mut k: usize = 0;
    while k < half
        invariant
            n == layer@.len(),
            half == (n + 1) / 2,
            l == views(layer@),
            all32v(layer@),
            k <= half,
            out@.len() == k,
            forall|j: int| 0 <= j < k ==> #[trigger] out@[j]@ == next_layer(l)[j],
            all32v(out@),
        decreases half - k,
    {
        let i = 2 * k;
        assert(layer@[i as int]@ == l[i as int]);
        if i + 1 < n {
            assert(layer@[i as int + 1]@ == l[i as int + 1]);
            let h = concat_and_hash(&layer[i], &layer[i + 1]);
            out.push(h);
        } else {
            out.push(layer[i].clone());
        }
        k = k + 1;
    }
    assert(views(out@) =~= next_layer(l));
    out
}

/// The root over a non-empty layer of 32-byte nodes.
fn compute_merkle_root(hashes: Vec<Vec<u8>>) -> (r: Vec<u8>)
    requires
        hashes@.len() > 0,
        all32v(hashes@),
    ensures
        r@ == layer_root(views(hashes@)),
        r@.len() == 32,
{
    let mut layer = hashes;
    while layer.len() > 1
        invariant
            layer@.len() > 0,
            all32v(layer@),
            layer_root(views(layer@)) == layer_root(views(hashes@)),
        decreases layer@.len(),
    {
        layer = compute_next_layer(&layer);
    }
    let r = layer[0].clone();
    assert(views(layer@)[0] == layer@[0]@);
    r
}

/// The leaf hashes of `values`, in order.
fn leaf_hashes(values: &[Vec<u8>]) -> (r: Vec<Vec<u8>>)
    ensures
        views(r@) == leaf_layer(views(values@)),
        r@.len() == values@.len(),
        all32v(r@),
{
    let mut out: Vec<Vec<u8>> = Vec::with_capacity(values.len());
    let mut i: usize = 0;
    while i < values.len()
        invariant
            i <= values@.len(),
            out@.len() == i,
            forall|k: int| 0 <= k < i ==> #[trigger] out@[k]@ == leaf_hash(values@[k]@),
            all32v(out@),
        decreases values@.len() - i,
    {
        let h = hash_block64(values[i].as_slice());
        out.push(h);
        i = i + 1;
    }
    assert(views(out@) =~= leaf_layer(views(values@)));
    out
}

/// The accumulator of `values`: the root of the Keccak-256 Merkle tree over their
/// leaf hashes, an odd node promoted unchanged; the empty sequence gives an empty root.
pub fn acc(values: &[Vec<u8>]) -> (r: Vec<u8>)
    ensures
        r@ == acc_root(views(values@)),
        values@.len() > 0 ==> r@.len() == 32,
        values@.len() == 0 ==> r@.len() == 0,
{
    if values.len() == 0 {
        return Vec::new();
    }
    let hashes = leaf_hashes(values);
    let r = compute_merkle_root(hashes);
    r
}

/// The accumulator of values that are each taken as one 64-byte block.
pub fn acc_fixed64(values: &[Vec<u8>]) -> (r: Vec<u8>)
    ensures
        r@ == acc_root(views(values@)),
        values@.len() > 0 ==> r@.len() == 32,
        values@.len() == 0 ==> r@.len() == 0,
{
    if values.len() == 0 {
        return Vec::new();
    }
    if values.len() == 1 {
        let h = hash_block64(values[0].as_slice());
        proof {
            let ls = leaf_layer(views(values@));
            assert(ls.len() == 1);
        }
        return h;
    }
    let layer = leaf_hashes(values);
    let r = compute_merkle_root(layer);
    r
}

/// The sibling position of node `i` in its layer.
pub open spec fn sib(i: int) -> int {
    if i % 2 == 0 { i + 1 } else { i - 1 }
}

/// A strictly increasing sequence.
pub open spec fn increasing(a: Seq<int>) -> bool {
    forall|i: int, j: int| 0 <= i < j < a.len() ==> a[i] < a[j]
}

/// A sequence of `u32` as integers.
pub open spec fn as_ints(s: Seq<u32>) -> Seq<int> {
    Seq::new(s.len(), |i: int| s[i] as int)
}

/// The indices as a set of integers.
pub open spec fn index_set(indices: Seq<u32>) -> Set<int> {
    as_ints(indices).to_set()
}

/// The elements of a finite set of integers in increasing order.
pub open spec fn sorted_of(s: Set<int>) -> Seq<int> {
    choose|a: Seq<int>| increasing(a) && a.to_set() == s
}

/// Whether the scan of `a` takes its first two claimed nodes as one sibling pair.
pub open spec fn pairs_first(a: Seq<int>) -> bool {
    a.len() > 1 && sib(a[0]) == a[1]
}

/// The claimed positions of `a` that remain after its first node (and its sibling,
/// when both are claimed).
pub open spec fn scan_rest(a: Seq<int>) -> Seq<int> {
    if pairs_first(a) { a.subrange(2, a.len() as int) } else { a.subrange(1, a.len() as int) }
}

/// Walking the claimed positions `a` of a layer of `n` nodes in order: the siblings
/// that are not claimed themselves and exist in the layer, in that order.
pub open spec fn scan_diff(a: Seq<int>, n: int) -> Seq<int>
    decreases a.len(),
{
    if a.len() == 0 {
        Seq::empty()
    } else {
        let here = if !pairs_first(a) && sib(a[0]) < n { seq![sib(a[0])] } else { Seq::empty() };
        here + scan_diff(scan_rest(a), n)
    }
}

/// Walking the claimed positions `a` of a layer in order: the claimed positions of
/// the layer above, one per sibling pair.
pub open spec fn scan_parents(a: Seq<int>) -> Seq<int>
    decreases a.len(),
{
    if a.len() == 0 {
        Seq::empty()
    } else {
        seq![a[0] / 2] + scan_parents(scan_rest(a))
    }
}

/// The nodes of `layer` at the positions `d`, last position first.
pub open spec fn reveal_desc(layer: Seq<Seq<u8>>, d: Seq<int>) -> Seq<Seq<u8>> {
    Seq::new(d.len(), |j: int| layer[d[d.len() - 1 - j]])
}

/// The proof layers from `layer` up to the root, for the claimed positions `a`.
pub open spec fn proof_layers(layer: Seq<Seq<u8>>, a: Seq<int>) -> Seq<Seq<Seq<u8>>>
    decreases layer.len(),
{
    if layer.len() <= 1 {
        Seq::empty()
    } else {
        seq![reveal_desc(layer, scan_diff(a, layer.len() as int))] + proof_layers(
            next_layer(layer),
            scan_parents(a),
        )
    }
}

/// What `prove` returns: nothing for an empty claim or an empty sequence, else the
/// proof layers from the leaf hashes for the claimed indices in increasing order.
pub open spec fn prove_spec(values: Seq<Seq<u8>>, indices: Seq<u32>) -> Seq<Seq<Seq<u8>>> {
    if indices.len() == 0 || values.len() == 0 {
        Seq::empty()
    } else {
        proof_layers(leaf_layer(values), sorted_of(index_set(indices)))
    }
}

/// The byte contents of a proof.
pub open spec fn proof_view(p: Seq<Vec<Vec<u8>>>) -> Seq<Seq<Seq<u8>>> {
    p.map_values(|l: Vec<Vec<u8>>| views(l@))
}

/// No index appears twice.
pub open spec fn distinct(indices: Seq<u32>) -> bool {
    forall|i: int, j: int| 0 <= i < j < indices.len() ==> indices[i] != indices[j]
}

/// Two increasing sequences with the same elements are equal.
pub proof fn lemma_sorted_unique(a: Seq<int>, b: Seq<int>)
    requires
        increasing(a),
        increasing(b),
        a.to_set() == b.to_set(),
    ensures
        a == b,
    decreases a.len(),
{
    if a.len() == 0 {
        if b.len() > 0 {
            assert(b.to_set().contains(b[0]));
        }
        assert(a =~= b);
    } else {
        assert(a.to_set().contains(a[0]));
        assert(b.len() > 0);
        assert(b.to_set().contains(b[0]));
        let i = choose|i: int| 0 <= i < a.len() && a[i] == b[0];
        let j = choose|j: int| 0 <= j < b.len() && b[j] == a[0];
        assert(a[0] <= a[i]);
        assert(b[0] <= b[j]);
        assert(a[0] == b[0]);
        let at = a.drop_first();
        let bt = b.drop_first();
        assert forall|x: int| at.to_set().contains(x) implies bt.to_set().contains(x) by {
            let k = choose|k: int| 0 <= k < at.len() && at[k] == x;
            assert(a[k + 1] == x);
            assert(b.to_set().contains(x));
            let l = choose|l: int| 0 <= l < b.len() && b[l] == x;
            assert(l != 0);
            assert(bt[l - 1] == x);
        }
        assert forall|x: int| bt.to_set().contains(x) implies at.to_set().contains(x) by {
            let k = choose|k: int| 0 <= k < bt.len() && bt[k] == x;
            assert(b[k + 1] == x);
            assert(a.to_set().contains(x));
            let l = choose|l: int| 0 <= l < a.len() && a[l] == x;
            assert(l != 0);
            assert(at[l - 1] == x);
        }
        assert(at.to_set() =~= bt.to_set());
        lemma_sorted_unique(at, bt);
        assert(a =~= seq![a[0]] + at);
        assert(b =~= seq![b[0]] + bt);
    }
}

/// The indices in increasing order.
fn sort_indices(indices: &[u32]) -> (r: Vec<u32>)
    requires
        distinct(indices@),
    ensures
        as_ints(r@) == sorted_of(index_set(indices@)),
        r@.len() == indices@.len(),
        forall|k: int| 0 <= k < r@.len() ==> indices@.contains(#[trigger] r@[k]),
{
    let mut out: Vec<u32> = Vec::with_capacity(indices.len());
    let mut i: usize = 0;
    while i < indices.len()
        invariant
            distinct(indices@),
            i <= indices@.len(),
            out@.len() == i,
            forall|x: int, y: int| 0 <= x < y < out@.len() ==> out@[x] < out@[y],
            forall|v: u32| out@.contains(v) <==> indices@.subrange(0, i as int).contains(v),
        decreases indices@.len() - i,
    {
        let v = indices[i];
        let mut pos: usize = 0;
        while pos < out.len() && out[pos] < v
            invariant
                pos <= out@.len(),
                forall|x: int| 0 <= x < pos ==> out@[x] < v,
            decreases out@.len() - pos,
        {
            pos = pos + 1;
        }
        proof {
            assert(!indices@.subrange(0, i as int).contains(v)) by {
                if indices@.subrange(0, i as int).contains(v) {
                    let k = choose|k: int| 0 <= k < i && indices@.subrange(0, i as int)[k] == v;
                    assert(indices@[k] == indices@[i as int]);
                }
            }
            assert(!out@.contains(v));
        }
        let ghost before = out@;
        out.insert(pos, v);
        proof {
            assert forall|x: int, y: int| 0 <= x < y < out@.len() implies out@[x] < out@[y] by {
                if pos < before.len() {
                    assert(before[pos as int] != v);
                    assert(before[pos as int] >= v);
                }
            }
            assert forall|w: u32| out@.contains(w) <==> indices@.subrange(0, i as int + 1).contains(w) by {
                if out@.contains(w) {
                    let k = choose|k: int| 0 <= k < out@.len() && out@[k] == w;
                    if w != v {
                        if k < pos {
                            assert(before[k] == w);
                        } else {
                            assert(before[k - 1] == w);
                        }
                        assert(before.contains(w));
                        let l = choose|l: int| 0 <= l < i && indices@.subrange(0, i as int)[l] == w;
                        assert(indices@.subrange(0, i as int + 1)[l] == w);
                    } else {
                        assert(indices@.subrange(0, i as int + 1)[i as int] == w);
                    }
                }
                if indices@.subrange(0, i as int + 1).contains(w) {
                    let l = choose|l: int| 0 <= l < i + 1 && #[trigger] indices@.subrange(0, i as int + 1)[l] == w;
                    if l < i {
                        assert(indices@.subrange(0, i as int)[l] == w);
                        assert(before.contains(w));
                        let k = choose|k: int| 0 <= k < before.len() && before[k] == w;
                        if k < pos {
                            assert(out@[k] == w);
                        } else {
                            assert(out@[k + 1] == w);
                        }
                    } else {
                        assert(out@[pos as int] == w);
                    }
                }
            }
        }
        i = i + 1;
    }
    proof {
        let a = as_ints(out@);
        assert(indices@.subrange(0, indices@.len() as int) =~= indices@);
        assert(a.to_set() =~= index_set(indices@)) by {
            assert forall|x: int| a.to_set().contains(x) implies index_set(indices@).contains(x) by {
                let k = choose|k: int| 0 <= k < a.len() && a[k] == x;
                assert(out@.contains(out@[k]));
                let l = choose|l: int| 0 <= l < indices@.len() && indices@[l] == out@[k];
                assert(as_ints(indices@)[l] == x);
            }
            assert forall|x: int| index_set(indices@).contains(x) implies a.to_set().contains(x) by {
                let l = choose|l: int| 0 <= l < indices@.len() && #[trigger] as_ints(indices@)[l] == x;
                assert(indices@.contains(indices@[l]));
                assert(indices@.subrange(0, indices@.len() as int).contains(indices@[l]));
                assert(out@.contains(indices@[l]));
                let k = choose|k: int| 0 <= k < out@.len() && out@[k] == indices@[l];
                assert(a[k] == x);
            }
        }
        assert(increasing(a));
        let c = sorted_of(index_set(indices@));
        assert(increasing(c) && c.to_set() == index_set(indices@));
        lemma_sorted_unique(a, c);
        assert forall|k: int| 0 <= k < out@.len() implies indices@.contains(#[trigger] out@[k]) by {
            assert(out@.contains(out@[k]));
        }
    }
    out
}

/// The position of the sibling of node `index` in its layer.
pub fn get_neighbor_idx(index: u32) -> (r: u32)
    requires
        index < u32::MAX,
    ensures
        r as int == sib(index as int),
{
    if index % 2 == 0 {
        index + 1
    } else {
        index - 1
    }
}

/// One layer of the proof walk over the claimed positions `a` of a layer of `n`
/// nodes: the siblings to reveal, in walk order, and the claimed positions above.
fn scan_layer(a: &Vec<u32>, n: usize) -> (r: (Vec<u32>, Vec<u32>))
    requires
        forall|k: int| 0 <= k < a@.len() ==> (#[trigger] a@[k] as int) < n,
        n <= u32::MAX,
    ensures
        as_ints(r.0@) == scan_diff(as_ints(a@), n as int),
        as_ints(r.1@) == scan_parents(as_ints(a@)),
        forall|k: int| 0 <= k < r.0@.len() ==> (#[trigger] r.0@[k] as int) < n,
        forall|k: int| 0 <= k < r.1@.len() ==> (#[trigger] r.1@[k] as int) < (n + 1) / 2,
{
    let ghost full = as_ints(a@);
    let mut diff: Vec<u32> = Vec::new();
    let mut parents: Vec<u32> = Vec::new();
    let mut i: usize = 0;
    proof {
        assert(full.subrange(0, full.len() as int) =~= full);
        assert(as_ints(diff@) =~= Seq::<int>::empty());
        assert(as_ints(parents@) =~= Seq::<int>::empty());
        assert(Seq::<int>::empty() + scan_diff(full, n as int) =~= scan_diff(full, n as int));
        assert(Seq::<int>::empty() + scan_parents(full) =~= scan_parents(full));
    }
    while i < a.len()
        invariant
            forall|k: int| 0 <= k < a@.len() ==> (#[trigger] a@[k] as int) < n,
            n <= u32::MAX,
            full == as_ints(a@),
            i <= a@.len(),
            as_ints(diff@) + scan_diff(full.subrange(i as int, full.len() as int), n as int) == scan_diff(full, n as int),
            as_ints(parents@) + scan_parents(full.subrange(i as int, full.len() as int)) == scan_parents(full),
            forall|k: int| 0 <= k < diff@.len() ==> (#[trigger] diff@[k] as int) < n,
            forall|k: int| 0 <= k < parents@.len() ==> (#[trigger] parents@[k] as int) < (n + 1) / 2,
        decreases a@.len() - i,
    {
        let ghost cur = full.subrange(i as int, full.len() as int);
        let idx = a[i];
        let nb = get_neighbor_idx(idx);
        let pair = i + 1 < a.len() && a[i + 1] == nb;
        proof {
            assert(cur[0] == idx as int);
            assert(sib(cur[0]) == nb as int);
            if i + 1 < a@.len() {
                assert(cur[1] == a@[i as int + 1] as int);
            }
            assert(pairs_first(cur) == pair);
            if pair {
                assert(scan_rest(cur) =~= full.subrange(i as int + 2, full.len() as int));
            } else {
                assert(scan_rest(cur) =~= full.subrange(i as int + 1, full.len() as int));
            }
        }
        let ghost d0 = diff@;
        let ghost p0 = parents@;
        if !pair && (nb as usize) < n {
            diff.push(nb);
        }
        parents.push(idx / 2);
        proof {
            if !pair && (nb as usize) < n {
                assert(as_ints(diff@) =~= as_ints(d0) + seq![nb as int]);
            } else {
                assert(as_ints(diff@) =~= as_ints(d0));
            }
            assert(as_ints(parents@) =~= as_ints(p0) + seq![(idx / 2) as int]);
        }
        i = if pair { i + 2 } else { i + 1 };
        proof {
            let nxt = full.subrange(i as int, full.len() as int);
            assert(as_ints(diff@) + scan_diff(nxt, n as int) =~= as_ints(d0) + scan_diff(cur, n as int));
            assert(as_ints(parents@) + scan_parents(nxt) =~= as_ints(p0) + scan_parents(cur));
        }
    }
    proof {
        assert(full.subrange(a@.len() as int, full.len() as int) =~= Seq::<int>::empty());
        assert(as_ints(diff@) =~= as_ints(diff@) + Seq::<int>::empty());
        assert(as_ints(parents@) =~= as_ints(parents@) + Seq::<int>::empty());
    }
    (diff, parents)
}

/// The nodes of `layer` at the positions `d`, last position first.
fn reveal_layer(layer: &Vec<Vec<u8>>, d: &Vec<u32>) -> (r: Vec<Vec<u8>>)
    requires
        forall|k: int| 0 <= k < d@.len() ==> (#[trigger] d@[k] as int) < layer@.len(),
    ensures
        views(r@) == reveal_desc(views(layer@), as_ints(d@)),
{
    let mut out: Vec<Vec<u8>> = Vec::with_capacity(d.len());
    let mut j: usize = 0;
    while j < d.len()
        invariant
            forall|k: int| 0 <= k < d@.len() ==> (#[trigger] d@[k] as int) < layer@.len(),
            j <= d@.len(),
            out@.len() == j,
            forall|k: int| 0 <= k < j ==> #[trigger] out@[k]@ == reveal_desc(views(layer@), as_ints(d@))[k],
        decreases d@.len() - j,
    {
        let pos = d[d.len() - 1 - j] as usize;
        out.push(layer[pos].clone());
        j = j + 1;
    }
    assert(views(out@) =~= reveal_desc(views(layer@), as_ints(d@)));
    out
}

/// A multi-leaf proof for the leaves at `indices`: per layer from the leaves up, the
/// sibling nodes that the claimed leaves cannot give, highest position first.
pub fn prove(values: &[Vec<u8>], indices: &[u32]) -> (r: Vec<Vec<Vec<u8>>>)
    requires
        distinct(indices@),
        forall|k: int| 0 <= k < indices@.len() ==> (#[trigger] indices@[k] as int) < values@.len(),
        values@.len() <= u32::MAX,
    ensures
        proof_view(r@) == prove_spec(views(values@), indices@),
{
    if indices.len() == 0 || values.len() == 0 {
        proof {
            assert(proof_view(Seq::<Vec<Vec<u8>>>::empty()) =~= Seq::<Seq<Seq<u8>>>::empty());
        }
        return Vec::new();
    }
    let mut a = sort_indices(indices);
    let ghost start = leaf_layer(views(values@));
    let ghost target = proof_layers(start, sorted_of(index_set(indices@)));
    let mut proof: Vec<Vec<Vec<u8>>> = Vec::new();
    let mut layer = leaf_hashes(values);
    proof {
        assert(proof_view(proof@) + proof_layers(views(layer@), as_ints(a@)) =~= target);
        assert forall|k: int| 0 <= k < a@.len() implies (#[trigger] a@[k] as int) < layer@.len() by {
            assert(indices@.contains(a@[k]));
        }
    }
    while layer.len() > 1
        invariant
            layer@.len() >= 1,
            layer@.len() <= u32::MAX,
            all32v(layer@),
            forall|k: int| 0 <= k < a@.len() ==> (#[trigger] a@[k] as int) < layer@.len(),
            proof_view(proof@) + proof_layers(views(layer@), as_ints(a@)) == target,
        decreases layer@.len(),
    {
        assert(layer@.len() <= u32::MAX);
        let (diff, next_a) = scan_layer(&a, layer.len());
        let revealed = reveal_layer(&layer, &diff);
        let ghost before = proof@;
        let ghost lv = views(layer@);
        let ghost a0 = as_ints(a@);
        proof.push(revealed);
        layer = compute_next_layer(&layer);
        a = next_a;
        proof {
            assert(proof_view(proof@) =~= proof_view(before).push(views(revealed@)));
            assert(proof_view(proof@) + proof_layers(views(layer@), as_ints(a@)) =~= proof_view(before) + proof_layers(lv, a0));
        }
    }
    proof {
        assert(proof_view(proof@) =~= proof_view(proof@) + Seq::<Seq<Seq<u8>>>::empty());
    }
    proof
}

/// The extension proof of the last value: the multi-leaf proof for its index alone.
pub fn prove_ext(values: &[Vec<u8>]) -> (r: Vec<Vec<Vec<u8>>>)
    requires
        values@.len() >= 1,
        values@.len() <= u32::MAX,
    ensures
        proof_view(r@) == prove_spec(views(values@), seq![(values@.len() - 1) as u32]),
{
    let mut idx: Vec<u32> = Vec::new();
    idx.push((values.len() - 1) as u32);
    proof {
        assert(idx@ =~= seq![(values@.len() - 1) as u32]);
    }
    prove(values, idx.as_slice())
}

/// One layer of verification, walking the claimed positions `c` (with their node
/// values `vals`) in order: sibling pairs are hashed together, a lone node takes the
/// last remaining node of the proof layer `pl` as its sibling, or is promoted when
/// `pl` is used up. Returns the values and positions of the layer above.
pub open spec fn verify_walk(vals: Seq<Seq<u8>>, c: Seq<int>, pl: Seq<Seq<u8>>) -> (Seq<Seq<u8>>, Seq<int>)
    decreases c.len(),
{
    if c.len() == 0 || vals.len() == 0 {
        (Seq::empty(), Seq::empty())
    } else if c.len() > 1 && vals.len() > 1 && c[0] / 2 == c[1] / 2 {
        let r = verify_walk(vals.subrange(2, vals.len() as int), c.subrange(2, c.len() as int), pl);
        (seq![node_hash(vals[0], vals[1])] + r.0, seq![c[0] / 2] + r.1)
    } else if pl.len() > 0 {
        let s = pl.last();
        let node = if c[0] % 2 == 1 { node_hash(s, vals[0]) } else { node_hash(vals[0], s) };
        let r = verify_walk(vals.subrange(1, vals.len() as int), c.subrange(1, c.len() as int), pl.drop_last());
        (seq![node] + r.0, seq![c[0] / 2] + r.1)
    } else {
        let r = verify_walk(vals.subrange(1, vals.len() as int), c.subrange(1, c.len() as int), pl);
        (seq![vals[0]] + r.0, seq![c[0] / 2] + r.1)
    }
}

/// The node values reached after verifying every proof layer in turn.
pub open spec fn verify_layers(vals: Seq<Seq<u8>>, c: Seq<int>, proof: Seq<Seq<Seq<u8>>>) -> Seq<Seq<u8>>
    decreases proof.len(),
{
    if proof.len() == 0 {
        vals
    } else {
        let r = verify_walk(vals, c, proof[0]);
        verify_layers(r.0, r.1, proof.drop_first())
    }
}

/// The position in `indices` of the claimed index `x`.
pub open spec fn position_of(indices: Seq<u32>, x: int) -> int {
    choose|k: int| 0 <= k < indices.len() && indices[k] as int == x
}

/// The leaf hashes of the claimed values, in increasing order of their indices.
pub open spec fn aligned_leaves(indices: Seq<u32>, values: Seq<Seq<u8>>) -> Seq<Seq<u8>> {
    Seq::new(
        sorted_of(index_set(indices)).len(),
        |j: int| leaf_hash(values[position_of(indices, sorted_of(index_set(indices))[j])]),
    )
}

/// What `verify` decides: as many values as indices, at least one, and the
/// reconstructed root equals `root`.
pub open spec fn verify_spec(root: Seq<u8>, indices: Seq<u32>, values: Seq<Seq<u8>>, proof: Seq<Seq<Seq<u8>>>) -> bool {
    if indices.len() != values.len() || indices.len() == 0 {
        false
    } else {
        let top = verify_layers(aligned_leaves(indices, values), sorted_of(index_set(indices)), proof);
        top.len() > 0 && top[0] == root
    }
}

/// Keccak-256 of two nodes side by side, whatever their lengths.
fn hash_pair(left: &Vec<u8>, right: &Vec<u8>) -> (r: Vec<u8>)
    ensures
        r@ == node_hash(left@, right@),
{
    let mut buf = crate::util::slice_to_vec(left.as_slice());
    crate::util::extend_from(&mut buf, right.as_slice());
    keccak256(buf.as_slice())
}

/// One layer of verification (see `verify_walk`).
fn verify_layer(vals: &Vec<Vec<u8>>, c: &Vec<u32>, proof_layer: &Vec<Vec<u8>>) -> (r: (Vec<Vec<u8>>, Vec<u32>))
    requires
        vals@.len() == c@.len(),
    ensures
        views(r.0@) == verify_walk(views(vals@), as_ints(c@), views(proof_layer@)).0,
        as_ints(r.1@) == verify_walk(views(vals@), as_ints(c@), views(proof_layer@)).1,
        r.0@.len() == r.1@.len(),
{
    let ghost v0 = views(vals@);
    let ghost c0 = as_ints(c@);
    let ghost p0 = views(proof_layer@);
    let mut pl = crate::util::clone_all(proof_layer.as_slice());
    assert(views(pl@) =~= p0);
    let mut out: Vec<Vec<u8>> = Vec::new();
    let mut next: Vec<u32> = Vec::new();
    let n = c.len();
    let mut i: usize = 0;
    proof {
        assert(v0.subrange(0, v0.len() as int) =~= v0);
        assert(c0.subrange(0, c0.len() as int) =~= c0);
        assert(views(out@) + verify_walk(v0, c0, p0).0 =~= verify_walk(v0, c0, p0).0);
        assert(as_ints(next@) + verify_walk(v0, c0, p0).1 =~= verify_walk(v0, c0, p0).1);
    }
    while i < n
        invariant
            n == c@.len(),
            vals@.len() == n,
            v0 == views(vals@),
            c0 == as_ints(c@),
            i <= n,
            out@.len() == next@.len(),
            views(out@) + verify_walk(v0.subrange(i as int, n as int), c0.subrange(i as int, n as int), views(pl@)).0 == verify_walk(v0, c0, p0).0,
            as_ints(next@) + verify_walk(v0.subrange(i as int, n as int), c0.subrange(i as int, n as int), views(pl@)).1 == verify_walk(v0, c0, p0).1,
        decreases n - i,
    {
        let ghost vs = v0.subrange(i as int, n as int);
        let ghost cs = c0.subrange(i as int, n as int);
        let ghost ps = views(pl@);
        let ghost o0 = views(out@);
        let ghost x0 = as_ints(next@);
        let ci = c[i];
        let pair = i + 1 < n && c[i] / 2 == c[i + 1] / 2;
        proof {
            assert(cs[0] == ci as int);
            assert(vs[0] == vals@[i as int]@);
            if i + 1 < n {
                assert(cs[1] == c@[i as int + 1] as int);
                assert(vs[1] == vals@[i as int + 1]@);
            }
        }
        if pair {
            let h = hash_pair(&vals[i], &vals[i + 1]);
            out.push(h);
            next.push(ci / 2);
            i = i + 2;
            proof {
                assert(vs.subrange(2, vs.len() as int) =~= v0.subrange(i as int, n as int));
                assert(cs.subrange(2, cs.len() as int) =~= c0.subrange(i as int, n as int));
            }
        } else if pl.len() > 0 {
            let s = pl.pop().unwrap();
            proof {
                assert(views(pl@) =~= ps.drop_last());
                assert(s@ == ps.last());
            }
            let h = if ci % 2 == 1 { hash_pair(&s, &vals[i]) } else { hash_pair(&vals[i], &s) };
            out.push(h);
            next.push(ci / 2);
            i = i + 1;
            proof {
                assert(vs.subrange(1, vs.len() as int) =~= v0.subrange(i as int, n as int));
                assert(cs.subrange(1, cs.len() as int) =~= c0.subrange(i as int, n as int));
            }
        } else {
            out.push(vals[i].clone());
            next.push(ci / 2);
            i = i + 1;
            proof {
                assert(vs.subrange(1, vs.len() as int) =~= v0.subrange(i as int, n as int));
                assert(cs.subrange(1, cs.len() as int) =~= c0.subrange(i as int, n as int));
            }
        }
        proof {
            let r = verify_walk(v0.subrange(i as int, n as int), c0.subrange(i as int, n as int), views(pl@));
            assert(views(out@) + r.0 =~= o0 + verify_walk(vs, cs, ps).0);
            assert(as_ints(next@) + r.1 =~= x0 + verify_walk(vs, cs, ps).1);
        }
    }
    proof {
        assert(views(out@) =~= views(out@) + Seq::<Seq<u8>>::empty());
        assert(as_ints(next@) =~= as_ints(next@) + Seq::<int>::empty());
    }
    (out, next)
}

/// The position of `x` in `indices`, which holds it.
fn find_position(indices: &[u32], x: u32) -> (r: usize)
    requires
        indices@.contains(x),
    ensures
        r < indices@.len(),
        indices@[r as int] == x,
{
    let mut k: usize = 0;
    while k < indices.len()
        invariant
            indices@.contains(x),
            k <= indices@.len(),
            forall|t: int| 0 <= t < k ==> indices@[t] != x,
        decreases indices@.len() - k,
    {
        if indices[k] == x {
            return k;
        }
        k = k + 1;
    }
    proof {
        let t = choose|t: int| 0 <= t < indices@.len() && indices@[t] == x;
    }
    0
}

/// Checks a multi-leaf proof: rebuilds the root from the claimed values at
/// `indices` and the proof layers, and compares it with `root`.
pub fn verify(root: &Vec<u8>, indices: &Vec<u32>, values: &[Vec<u8>], proof: &Vec<Vec<Vec<u8>>>) -> (r: bool)
    requires
        distinct(indices@),
    ensures
        r == verify_spec(root@, indices@, views(values@), proof_view(proof@)),
{
    if indices.len() != values.len() || indices.len() == 0 {
        return false;
    }
    let sorted = sort_indices(indices.as_slice());
    let ghost cs = sorted_of(index_set(indices@));
    let ghost target = aligned_leaves(indices@, views(values@));
    let mut layer: Vec<Vec<u8>> = Vec::with_capacity(sorted.len());
    let mut j: usize = 0;
    while j < sorted.len()
        invariant
            distinct(indices@),
            indices@.len() == values@.len(),
            as_ints(sorted@) == cs,
            cs == sorted_of(index_set(indices@)),
            sorted@.len() == indices@.len(),
            forall|k: int| 0 <= k < sorted@.len() ==> indices@.contains(#[trigger] sorted@[k]),
            target == aligned_leaves(indices@, views(values@)),
            j <= sorted@.len(),
            layer@.len() == j,
            forall|t: int| 0 <= t < j ==> #[trigger] layer@[t]@ == target[t],
        decreases sorted@.len() - j,
    {
        let x = sorted[j];
        assert(indices@.contains(sorted@[j as int]));
        let k = find_position(indices.as_slice(), x);
        proof {
            assert(cs[j as int] == x as int);
            let kk = position_of(indices@, cs[j as int]);
            assert(indices@[k as int] as int == cs[j as int]);
            assert(0 <= kk < indices@.len() && indices@[kk] as int == cs[j as int]);
            assert(kk == k);
            assert(views(values@)[k as int] == values@[k as int]@);
            assert(cs.len() == sorted@.len());
            assert(target[j as int] == leaf_hash(views(values@)[kk]));
        }
        layer.push(hash_block64(values[k].as_slice()));
        j = j + 1;
    }
    assert(views(layer@) =~= target);
    let mut c = sorted;
    let ghost pv = proof_view(proof@);
    let ghost goal = verify_layers(target, cs, pv);
    let mut t: usize = 0;
    proof {
        assert(pv.subrange(0, pv.len() as int) =~= pv);
    }
    while t < proof.len()
        invariant
            pv == proof_view(proof@),
            t <= proof@.len(),
            layer@.len() == c@.len(),
            verify_layers(views(layer@), as_ints(c@), pv.subrange(t as int, pv.len() as int)) == goal,
        decreases proof@.len() - t,
    {
        let ghost rest = pv.subrange(t as int, pv.len() as int);
        let (l, n) = verify_layer(&layer, &c, &proof[t]);
        proof {
            assert(rest[0] == views(proof@[t as int]@));
            assert(rest.drop_first() =~= pv.subrange(t as int + 1, pv.len() as int));
        }
        layer = l;
        c = n;
        t = t + 1;
    }
    proof {
        assert(pv.subrange(pv.len() as int, pv.len() as int) =~= Seq::<Seq<Seq<u8>>>::empty());
    }
    if layer.len() == 0 {
        return false;
    }
    assert(views(layer@)[0] == layer@[0]@);
    crate::util::bytes_eq(layer[0].as_slice(), root.as_slice())
}

/// The elements of `s`, last first.
pub open spec fn rev(s: Seq<Seq<u8>>) -> Seq<Seq<u8>>
    decreases s.len(),
{
    if s.len() == 0 {
        Seq::empty()
    } else {
        seq![s.last()] + rev(s.drop_last())
    }
}

/// The revealed nodes of a proof in the order a reader takes them: layer by layer
/// from the leaves up, each layer from its last node to its first.
pub open spec fn reveal_sequence(proof: Seq<Seq<Seq<u8>>>) -> Seq<Seq<u8>>
    decreases proof.len(),
{
    if proof.len() == 0 {
        Seq::empty()
    } else {
        reveal_sequence(proof.drop_last()) + rev(proof.last())
    }
}

/// The first node, then each next node hashed on the left of what was reached;
/// nothing for no node.
pub open spec fn fold_left_siblings(r: Seq<Seq<u8>>) -> Seq<u8>
    decreases r.len(),
{
    if r.len() == 0 {
        Seq::empty()
    } else if r.len() == 1 {
        r[0]
    } else {
        node_hash(r.last(), fold_left_siblings(r.drop_last()))
    }
}

/// Whether the revealed nodes of an extension proof fold to the previous root.
pub fn verify_previous(prev_root: &Vec<u8>, proof: &Vec<Vec<Vec<u8>>>) -> (r: bool)
    ensures
        r == (fold_left_siblings(reveal_sequence(proof_view(proof@))) == prev_root@),
{
    let ghost pv = proof_view(proof@);
    let ghost mut consumed: Seq<Seq<u8>> = Seq::empty();
    let mut have = false;
    let mut computed: Vec<u8> = Vec::new();
    let mut t: usize = 0;
    proof {
        assert(pv.subrange(0, 0) =~= Seq::<Seq<Seq<u8>>>::empty());
    }
    while t < proof.len()
        invariant
            pv == proof_view(proof@),
            t <= proof@.len(),
            consumed == reveal_sequence(pv.subrange(0, t as int)),
            have == (consumed.len() > 0),
            computed@ == fold_left_siblings(consumed),
        decreases proof@.len() - t,
    {
        let mut layer = crate::util::clone_all(proof[t].as_slice());
        let ghost lt = pv[t as int];
        assert(views(layer@) =~= lt);
        proof {
            assert(pv.subrange(0, t as int + 1).drop_last() =~= pv.subrange(0, t as int));
            assert(consumed + rev(views(layer@)) == reveal_sequence(pv.subrange(0, t as int + 1)));
        }
        while layer.len() > 0
            invariant
                consumed + rev(views(layer@)) == reveal_sequence(pv.subrange(0, t as int + 1)),
                have == (consumed.len() > 0),
                computed@ == fold_left_siblings(consumed),
            decreases layer@.len(),
        {
            let ghost before = views(layer@);
            let x = layer.pop().unwrap();
            proof {
                assert(views(layer@) =~= before.drop_last());
                assert(x@ == before.last());
                assert(rev(before) == seq![x@] + rev(views(layer@)));
                assert(consumed + rev(before) =~= consumed.push(x@) + rev(views(layer@)));
                assert(consumed.push(x@).drop_last() =~= consumed);
            }
            if !have {
                computed = x;
                have = true;
            } else {
                computed = hash_pair(&x, &computed);
            }
            proof {
                consumed = consumed.push(x@);
            }
        }
        proof {
            assert(consumed =~= consumed + rev(views(layer@)));
        }
        t = t + 1;
    }
    proof {
        assert(pv.subrange(0, pv.len() as int) =~= pv);
    }
    crate::util::bytes_eq(computed.as_slice(), prev_root.as_slice())
}

/// What `verify_ext` decides.
pub open spec fn verify_ext_spec(
    i: u32,
    prev_root: Seq<u8>,
    curr_root: Seq<u8>,
    added: Seq<u8>,
    proof: Seq<Seq<Seq<u8>>>,
) -> bool {
    &&& verify_spec(curr_root, seq![i], seq![added], proof)
    &&& fold_left_siblings(reveal_sequence(proof)) == prev_root
}

/// Checks an extension proof: the added value sits at `i` under `curr_root`, and the
/// revealed nodes fold to `prev_root`.
pub fn verify_ext(i: u32, prev_root: &Vec<u8>, curr_root: &Vec<u8>, added_val: &Vec<u8>, proof: &Vec<Vec<Vec<u8>>>) -> (r: bool)
    ensures
        r == verify_ext_spec(i, prev_root@, curr_root@, added_val@, proof_view(proof@)),
{
    let mut idx: Vec<u32> = Vec::new();
    idx.push(i);
    let mut vals: Vec<Vec<u8>> = Vec::new();
    vals.push(added_val.clone());
    proof {
        assert(idx@ =~= seq![i]);
        assert(views(vals@) =~= seq![added_val@]);
    }
    let first = verify(curr_root, &idx, vals.as_slice(), proof);
    let second = verify_previous(prev_root, proof);
    first && second
}

/// The nodes of `layer` at the positions `c`, in order.
pub open spec fn pick(layer: Seq<Seq<u8>>, c: Seq<int>) -> Seq<Seq<u8>> {
    Seq::new(c.len(), |j: int| layer[c[j]])
}

/// Every position lies in `[0, n)`.
pub open spec fn within(c: Seq<int>, n: int) -> bool {
    forall|j: int| 0 <= j < c.len() ==> 0 <= #[trigger] c[j] < n
}

/// `x` inserted into an increasing sequence at its place.
pub open spec fn insert_sorted(a: Seq<int>, x: int) -> Seq<int>
    decreases a.len(),
{
    if a.len() == 0 {
        seq![x]
    } else if x < a[0] {
        seq![x] + a
    } else {
        seq![a[0]] + insert_sorted(a.drop_first(), x)
    }
}

/// Inserting a new element keeps a sequence increasing and adds it to the elements.
proof fn lemma_insert_sorted(a: Seq<int>, x: int)
    requires
        increasing(a),
        !a.contains(x),
    ensures
        increasing(insert_sorted(a, x)),
        insert_sorted(a, x).to_set() == a.to_set().insert(x),
        forall|j: int| 0 <= j < insert_sorted(a, x).len() ==> (#[trigger] insert_sorted(a, x)[j] == x || a.contains(insert_sorted(a, x)[j])),
    decreases a.len(),
{
    let r = insert_sorted(a, x);
    if a.len() == 0 {
        assert(r.to_set() =~= a.to_set().insert(x)) by {
            assert forall|y: int| r.to_set().contains(y) implies a.to_set().insert(x).contains(y) by {
                let k = choose|k: int| 0 <= k < r.len() && r[k] == y;
            }
            assert(r[0] == x);
        }
    } else if x < a[0] {
        lemma_insert_front(a, x);
    } else {
        let t = a.drop_first();
        assert(increasing(t));
        assert(!t.contains(x)) by {
            if t.contains(x) {
                let k = choose|k: int| 0 <= k < t.len() && t[k] == x;
                assert(a[k + 1] == x);
            }
        }
        lemma_insert_sorted(t, x);
        lemma_insert_later(a, x);
    }
}

/// Inserting below the first element puts the new element first.
proof fn lemma_insert_front(a: Seq<int>, x: int)
    requires
        increasing(a),
        a.len() > 0,
        x < a[0],
    ensures
        increasing(insert_sorted(a, x)),
        insert_sorted(a, x).to_set() == a.to_set().insert(x),
        forall|j: int| 0 <= j < insert_sorted(a, x).len() ==> (#[trigger] insert_sorted(a, x)[j] == x || a.contains(insert_sorted(a, x)[j])),
{
    let r = insert_sorted(a, x);
    assert(r == seq![x] + a);
    assert forall|i: int, j: int| 0 <= i < j < r.len() implies r[i] < r[j] by {
        if i > 0 {
            assert(r[i] == a[i - 1] && r[j] == a[j - 1]);
        } else {
            assert(r[j] == a[j - 1]);
            assert(a[0] <= a[j - 1]);
        }
    }
    assert(r.to_set() =~= a.to_set().insert(x)) by {
        assert forall|y: int| r.to_set().contains(y) implies a.to_set().insert(x).contains(y) by {
            let k = choose|k: int| 0 <= k < r.len() && r[k] == y;
            if k > 0 {
                assert(a[k - 1] == y);
            }
        }
        assert forall|y: int| a.to_set().insert(x).contains(y) implies r.to_set().contains(y) by {
            if y == x {
                assert(r[0] == x);
            } else {
                let k = choose|k: int| 0 <= k < a.len() && a[k] == y;
                assert(r[k + 1] == y);
            }
        }
    }
    assert forall|j: int| 0 <= j < r.len() implies (#[trigger] r[j] == x || a.contains(r[j])) by {
        if j > 0 {
            assert(r[j] == a[j - 1]);
        }
    }
}

/// Inserting past the first element keeps it first and inserts into the rest.
proof fn lemma_insert_later(a: Seq<int>, x: int)
    requires
        increasing(a),
        a.len() > 0,
        x > a[0],
        increasing(insert_sorted(a.drop_first(), x)),
        insert_sorted(a.drop_first(), x).to_set() == a.drop_first().to_set().insert(x),
        forall|j: int| 0 <= j < insert_sorted(a.drop_first(), x).len() ==> (#[trigger] insert_sorted(a.drop_first(), x)[j] == x || a.drop_first().contains(insert_sorted(a.drop_first(), x)[j])),
    ensures
        increasing(insert_sorted(a, x)),
        insert_sorted(a, x).to_set() == a.to_set().insert(x),
        forall|j: int| 0 <= j < insert_sorted(a, x).len() ==> (#[trigger] insert_sorted(a, x)[j] == x || a.contains(insert_sorted(a, x)[j])),
{
    let t = a.drop_first();
    let rt = insert_sorted(t, x);
    let r = insert_sorted(a, x);
    assert(r == seq![a[0]] + rt);
    assert forall|j: int| 0 <= j < r.len() implies (#[trigger] r[j] == x || a.contains(r[j])) by {
        if j == 0 {
            assert(a[0] == r[0]);
        } else {
            assert(r[j] == rt[j - 1]);
            if rt[j - 1] != x {
                assert(t.contains(rt[j - 1]));
                let l = choose|l: int| 0 <= l < t.len() && t[l] == rt[j - 1];
                assert(a[l + 1] == r[j]);
            }
        }
    }
    assert forall|i: int, j: int| 0 <= i < j < r.len() implies r[i] < r[j] by {
        if i == 0 {
            assert(r[j] == rt[j - 1]);
            if rt[j - 1] != x {
                let l = choose|l: int| 0 <= l < t.len() && t[l] == rt[j - 1];
                assert(a[l + 1] == rt[j - 1]);
            }
        } else {
            assert(r[i] == rt[i - 1] && r[j] == rt[j - 1]);
        }
    }
    assert(r.to_set() =~= a.to_set().insert(x)) by {
        assert forall|y: int| r.to_set().contains(y) implies a.to_set().insert(x).contains(y) by {
            let k = choose|k: int| 0 <= k < r.len() && r[k] == y;
            if k == 0 {
                assert(a[0] == y);
            } else {
                assert(rt[k - 1] == y);
                assert(rt.to_set().contains(y));
                if y != x {
                    assert(t.to_set().contains(y));
                    let l = choose|l: int| 0 <= l < t.len() && t[l] == y;
                    assert(a[l + 1] == y);
                }
            }
        }
        assert forall|y: int| a.to_set().insert(x).contains(y) implies r.to_set().contains(y) by {
            if y == a[0] {
                assert(r[0] == y);
            } else {
                if y != x {
                    let k = choose|k: int| 0 <= k < a.len() && a[k] == y;
                    assert(k != 0);
                    assert(t[k - 1] == y);
                }
                assert(t.to_set().insert(x).contains(y));
                assert(rt.to_set().contains(y));
                let l = choose|l: int| 0 <= l < rt.len() && rt[l] == y;
                assert(r[l + 1] == y);
            }
        }
    }
}

/// The claimed indices have an increasing arrangement, which `sorted_of` then is.
pub proof fn lemma_sorted_of(indices: Seq<u32>)
    ensures
        increasing(sorted_of(index_set(indices))),
        sorted_of(index_set(indices)).to_set() == index_set(indices),
{
    let a = sorted_witness(indices);
    assert(increasing(a) && a.to_set() == index_set(indices));
}

/// An increasing arrangement of the claimed indices.
proof fn sorted_witness(indices: Seq<u32>) -> (a: Seq<int>)
    ensures
        increasing(a),
        a.to_set() == index_set(indices),
    decreases indices.len(),
{
    if indices.len() == 0 {
        assert(index_set(indices) =~= Set::<int>::empty());
        let e = Seq::<int>::empty();
        assert(e.to_set() =~= Set::<int>::empty());
        e
    } else {
        let rest = indices.drop_last();
        let a0 = sorted_witness(rest);
        let x = indices.last() as int;
        assert(index_set(indices) =~= index_set(rest).insert(x)) by {
            assert forall|y: int| index_set(indices).contains(y) implies index_set(rest).insert(x).contains(y) by {
                let k = choose|k: int| 0 <= k < as_ints(indices).len() && as_ints(indices)[k] == y;
                if k < rest.len() {
                    assert(as_ints(rest)[k] == y);
                }
            }
            assert forall|y: int| index_set(rest).insert(x).contains(y) implies index_set(indices).contains(y) by {
                if y == x {
                    assert(as_ints(indices)[indices.len() - 1] == y);
                } else {
                    let k = choose|k: int| 0 <= k < as_ints(rest).len() && as_ints(rest)[k] == y;
                    assert(as_ints(indices)[k] == y);
                }
            }
        }
        if a0.contains(x) {
            assert(a0.to_set().contains(x));
            assert(a0.to_set().insert(x) =~= a0.to_set());
            a0
        } else {
            lemma_insert_sorted(a0, x);
            insert_sorted(a0, x)
        }
    }
}

/// One layer of verification of an honest proof rebuilds the claimed nodes of the
/// layer above, at the positions the proof walk gives.
proof fn lemma_verify_walk(layer: Seq<Seq<u8>>, c: Seq<int>)
    requires
        layer.len() > 1,
        increasing(c),
        within(c, layer.len() as int),
    ensures
        verify_walk(pick(layer, c), c, reveal_desc(layer, scan_diff(c, layer.len() as int))) == (
            pick(next_layer(layer), scan_parents(c)),
            scan_parents(c),
        ),
        increasing(scan_parents(c)),
        within(scan_parents(c), ((layer.len() + 1) / 2) as int),
        c.len() > 0 ==> scan_parents(c).len() > 0 && scan_parents(c)[0] == c[0] / 2,
    decreases c.len(),
{
    let n = layer.len() as int;
    let nl = next_layer(layer);
    let vals = pick(layer, c);
    if c.len() == 0 {
        assert(vals =~= Seq::<Seq<u8>>::empty());
        assert(pick(nl, scan_parents(c)) =~= Seq::<Seq<u8>>::empty());
    } else {
        let c0 = c[0];
        let rest = scan_rest(c);
        assert(increasing(rest));
        assert(within(rest, n));
        lemma_verify_walk(layer, rest);
        let pr = scan_parents(rest);
        let dr = scan_diff(rest, n);
        let d = scan_diff(c, n);
        let pl = reveal_desc(layer, d);
        let node = nl[c0 / 2];
        let r = verify_walk(pick(layer, rest), rest, reveal_desc(layer, dr));
        assert(r == (pick(nl, pr), pr));
        if pairs_first(c) {
            assert(c[0] < c[1]);
            assert(c0 % 2 == 0);
            assert(d =~= dr);
            assert(vals.subrange(2, vals.len() as int) =~= pick(layer, rest));
            assert(c.subrange(2, c.len() as int) =~= rest);
            assert(node == node_hash(layer[c0], layer[c0 + 1]));
            assert(vals[0] == layer[c0] && vals[1] == layer[c[1]]);
        } else if sib(c0) < n {
            assert(d =~= seq![sib(c0)] + dr);
            assert(pl.len() > 0);
            assert(pl.last() == layer[sib(c0)]);
            assert(pl.drop_last() =~= reveal_desc(layer, dr));
            if c.len() > 1 {
                assert(c[0] < c[1]);
                assert(c[0] / 2 != c[1] / 2);
            }
            assert(vals.subrange(1, vals.len() as int) =~= pick(layer, rest));
            assert(c.subrange(1, c.len() as int) =~= rest);
            assert(vals[0] == layer[c0]);
            if c0 % 2 == 1 {
                assert(node == node_hash(layer[c0 - 1], layer[c0]));
            } else {
                assert(node == node_hash(layer[c0], layer[c0 + 1]));
            }
        } else {
            assert(c0 % 2 == 0 && c0 == n - 1);
            if c.len() > 1 {
                assert(c[0] < c[1]);
                assert(within(c, n) ==> c[1] < n);
                assert(false);
            }
            assert(rest =~= Seq::<int>::empty());
            assert(d =~= Seq::<int>::empty());
            assert(pl =~= Seq::<Seq<u8>>::empty());
            assert(vals.subrange(1, vals.len() as int) =~= pick(layer, rest));
            assert(c.subrange(1, c.len() as int) =~= rest);
            assert(node == layer[c0]);
        }
        let sp = scan_parents(c);
        assert(sp == seq![c0 / 2] + pr);
        assert(pick(nl, sp) =~= seq![node] + pick(nl, pr));
        if rest.len() > 0 {
            if pairs_first(c) {
                assert(rest[0] == c[2]);
                assert(c[1] < c[2]);
            } else {
                assert(rest[0] == c[1]);
                assert(c[0] < c[1]);
            }
            assert(rest[0] / 2 > c0 / 2);
        }
        assert forall|i: int, j: int| 0 <= i < j < sp.len() implies sp[i] < sp[j] by {
            if i == 0 {
                assert(sp[j] == pr[j - 1]);
                if j > 1 {
                    assert(pr[0] < pr[j - 1]);
                }
            } else {
                assert(sp[i] == pr[i - 1] && sp[j] == pr[j - 1]);
            }
        }
        assert forall|j: int| 0 <= j < sp.len() implies 0 <= #[trigger] sp[j] < (n + 1) / 2 by {
            if j > 0 {
                assert(sp[j] == pr[j - 1]);
            }
        }
    }
}

/// Verifying an honest proof layer by layer ends at the root alone.
proof fn lemma_verify_layers(layer: Seq<Seq<u8>>, c: Seq<int>)
    requires
        layer.len() >= 1,
        c.len() > 0,
        increasing(c),
        within(c, layer.len() as int),
    ensures
        verify_layers(pick(layer, c), c, proof_layers(layer, c)) == seq![layer_root(layer)],
    decreases layer.len(),
{
    if layer.len() == 1 {
        if c.len() > 1 {
            assert(c[0] < c[1]);
            assert(c[1] < 1);
        }
        assert(pick(layer, c) =~= seq![layer[0]]);
    } else {
        lemma_verify_walk(layer, c);
        let p = proof_layers(layer, c);
        assert(p.drop_first() =~= proof_layers(next_layer(layer), scan_parents(c)));
        lemma_verify_layers(next_layer(layer), scan_parents(c));
    }
}

/// The claimed values: the values at the claimed indices, in the indices' order.
pub open spec fn claimed_values(values: Seq<Seq<u8>>, indices: Seq<u32>) -> Seq<Seq<u8>> {
    Seq::new(indices.len(), |k: int| values[indices[k] as int])
}

/// Completeness of multi-leaf proofs: for a non-empty set of distinct indices within
/// range, the values at those indices verify against the accumulator of the values
/// with the proof that `prove` builds for them.
pub proof fn lemma_prove_then_verify(values: Seq<Seq<u8>>, indices: Seq<u32>)
    requires
        indices.len() > 0,
        distinct(indices),
        forall|k: int| 0 <= k < indices.len() ==> (#[trigger] indices[k] as int) < values.len(),
    ensures
        verify_spec(acc_root(values), indices, claimed_values(values, indices), prove_spec(values, indices)),
{
    let n = values.len() as int;
    let l0 = leaf_layer(values);
    let c = sorted_of(index_set(indices));
    lemma_sorted_of(indices);
    assert(as_ints(indices)[0] == indices[0] as int);
    assert(index_set(indices).contains(indices[0] as int));
    assert(c.to_set().contains(indices[0] as int));
    assert(c.len() > 0);
    assert forall|j: int| 0 <= j < c.len() implies 0 <= #[trigger] c[j] < n by {
        assert(c.to_set().contains(c[j]));
        assert(index_set(indices).contains(c[j]));
        let k = choose|k: int| 0 <= k < as_ints(indices).len() && as_ints(indices)[k] == c[j];
        assert(indices[k] as int == c[j]);
    }
    let claimed = claimed_values(values, indices);
    assert(aligned_leaves(indices, claimed) =~= pick(l0, c)) by {
        assert forall|j: int| 0 <= j < c.len() implies #[trigger] aligned_leaves(indices, claimed)[j] == pick(l0, c)[j] by {
            assert(c.to_set().contains(c[j]));
            assert(index_set(indices).contains(c[j]));
            let k0 = choose|k: int| 0 <= k < as_ints(indices).len() && as_ints(indices)[k] == c[j];
            assert(indices[k0] as int == c[j]);
            let k = position_of(indices, c[j]);
            assert(0 <= k < indices.len() && indices[k] as int == c[j]);
            assert(claimed[k] == values[c[j]]);
        }
    }
    lemma_verify_layers(l0, c);
}

/// Reading a proof in two parts reads the parts in turn.
proof fn lemma_reveal_sequence_concat(a: Seq<Seq<Seq<u8>>>, b: Seq<Seq<Seq<u8>>>)
    ensures
        reveal_sequence(a + b) == reveal_sequence(a) + reveal_sequence(b),
    decreases b.len(),
{
    if b.len() == 0 {
        assert(a + b =~= a);
        assert(reveal_sequence(a) + reveal_sequence(b) =~= reveal_sequence(a));
    } else {
        lemma_reveal_sequence_concat(a, b.drop_last());
        assert((a + b).drop_last() =~= a + b.drop_last());
        assert((a + b).last() == b.last());
        assert(reveal_sequence(a) + reveal_sequence(b) =~= reveal_sequence(a) + reveal_sequence(b.drop_last()) + rev(b.last()));
    }
}

/// The node reached so far by folding `r`, as a sequence of at most one node.
pub open spec fn folded(r: Seq<Seq<u8>>) -> Seq<Seq<u8>> {
    if r.len() == 0 { Seq::empty() } else { seq![fold_left_siblings(r)] }
}

/// The root over a layer of more than one node is the root over the layer above.
proof fn lemma_root_step(s: Seq<Seq<u8>>)
    requires
        s.len() > 1,
    ensures
        layer_root(s) == layer_root(next_layer(s)),
{
}

/// Folding the nodes revealed for the last position of `layer` onto the nodes `r0`
/// already read gives the root over the layer without its last node, followed by
/// what `r0` folds to.
proof fn lemma_fold_reveals(layer: Seq<Seq<u8>>, r0: Seq<Seq<u8>>)
    requires
        layer.len() >= 1,
    ensures
        fold_left_siblings(r0 + reveal_sequence(proof_layers(layer, seq![layer.len() - 1])))
            == layer_root(layer.drop_last() + folded(r0)),
    decreases layer.len(),
{
    let n = layer.len() as int;
    let m = n - 1;
    let c = seq![m];
    let p = proof_layers(layer, c);
    if n == 1 {
        assert(p =~= Seq::<Seq<Seq<u8>>>::empty());
        assert(r0 + reveal_sequence(p) =~= r0);
        assert(layer.drop_last() + folded(r0) =~= folded(r0));
    } else {
        let nl = next_layer(layer);
        let d = scan_diff(c, n);
        assert(pairs_first(c) == false);
        assert(scan_rest(c) =~= Seq::<int>::empty());
        assert(scan_parents(Seq::<int>::empty()) =~= Seq::<int>::empty());
        assert(scan_parents(c) == seq![c[0] / 2] + scan_parents(scan_rest(c)));
        assert(scan_parents(c) =~= seq![m / 2]);
        assert(nl.len() - 1 == m / 2);
        assert(scan_parents(c) =~= seq![nl.len() - 1]);
        let here = reveal_desc(layer, d);
        let rest = proof_layers(nl, seq![nl.len() - 1]);
        assert(p =~= seq![here] + rest);
        lemma_reveal_sequence_concat(seq![here], rest);
        assert(seq![here].drop_last() =~= Seq::<Seq<Seq<u8>>>::empty());
        assert(reveal_sequence(Seq::<Seq<Seq<u8>>>::empty()) =~= Seq::<Seq<u8>>::empty());
        assert(seq![here].last() == here);
        assert(reveal_sequence(seq![here]) == reveal_sequence(seq![here].drop_last()) + rev(seq![here].last()));
        assert(reveal_sequence(seq![here]) =~= rev(here));
        let r1 = r0 + rev(here);
        assert(r0 + reveal_sequence(p) =~= r1 + reveal_sequence(rest));
        lemma_fold_reveals(nl, r1);
        let s = layer.drop_last() + folded(r0);
        let t = nl.drop_last() + folded(r1);
        if m % 2 == 1 {
            assert(scan_diff(Seq::<int>::empty(), n) =~= Seq::<int>::empty());
            assert(sib(c[0]) == m - 1);
            assert(d == seq![sib(c[0])] + scan_diff(scan_rest(c), n));
            assert(d =~= seq![m - 1]);
            assert(here =~= seq![layer[m - 1]]);
            assert(rev(here) =~= seq![layer[m - 1]]) by {
                assert(here.drop_last() =~= Seq::<Seq<u8>>::empty());
                assert(rev(Seq::<Seq<u8>>::empty()) =~= Seq::<Seq<u8>>::empty());
                assert(rev(here) == seq![here.last()] + rev(here.drop_last()));
            }
            assert(r1 =~= r0.push(layer[m - 1]));
            assert(r1.drop_last() =~= r0);
            if r0.len() == 0 {
                assert(fold_left_siblings(r1) == layer[m - 1]);
                if m == 1 {
                    assert(s =~= seq![layer[0]]);
                    assert(nl.len() == 1);
                    assert(t =~= seq![layer[0]]);
                } else {
                    lemma_root_step(s);
                    assert(next_layer(s) =~= t);
                }
            } else {
                assert(fold_left_siblings(r1) == node_hash(layer[m - 1], fold_left_siblings(r0)));
                lemma_root_step(s);
                assert(next_layer(s) =~= t);
            }
        } else {
            assert(scan_diff(Seq::<int>::empty(), n) =~= Seq::<int>::empty());
            assert(sib(c[0]) == m + 1);
            assert(d == Seq::<int>::empty() + scan_diff(scan_rest(c), n));
            assert(d =~= Seq::<int>::empty());
            assert(here =~= Seq::<Seq<u8>>::empty());
            assert(rev(here) =~= Seq::<Seq<u8>>::empty());
            assert(r1 =~= r0);
            assert(m >= 2);
            lemma_root_step(s);
            assert(next_layer(s) =~= t);
        }
    }
}

/// Extension proofs: for at least two values, the proof that `prove_ext` builds for
/// the last value verifies it at the last index under the accumulator of all the
/// values, and its revealed nodes fold to the accumulator without the last value.
pub proof fn lemma_extension_proof(values: Seq<Seq<u8>>)
    requires
        values.len() >= 2,
        values.len() <= u32::MAX,
    ensures
        verify_ext_spec(
            (values.len() - 1) as u32,
            acc_root(values.drop_last()),
            acc_root(values),
            values.last(),
            prove_spec(values, seq![(values.len() - 1) as u32]),
        ),
{
    let n = values.len() as int;
    let idx = seq![(n - 1) as u32];
    lemma_prove_then_verify(values, idx);
    assert(claimed_values(values, idx) =~= seq![values.last()]);
    let l0 = leaf_layer(values);
    lemma_sorted_of(idx);
    let c = sorted_of(index_set(idx));
    assert(as_ints(idx) =~= seq![n - 1]);
    assert(seq![n - 1].to_set() =~= index_set(idx));
    assert(increasing(seq![n - 1]));
    lemma_sorted_unique(c, seq![n - 1]);
    assert(l0.len() - 1 == n - 1);
    assert(prove_spec(values, idx) == proof_layers(l0, seq![l0.len() - 1]));
    lemma_fold_reveals(l0, Seq::empty());
    assert(Seq::<Seq<u8>>::empty() + reveal_sequence(prove_spec(values, idx)) =~= reveal_sequence(prove_spec(values, idx)));
    assert(l0.drop_last() + folded(Seq::<Seq<u8>>::empty()) =~= leaf_layer(values.drop_last()));
}

} // verus!
