use vstd::prelude::*;
use crate::compiler::{be_u128, u128_bytes};
use crate::util::extend_from;

verus! {

/// The byte contents of a sequence of byte-vector references.
pub open spec fn ref_views(data: Seq<&Vec<u8>>) -> Seq<Seq<u8>> {
    data.map_values(|v: &Vec<u8>| v@)
}

/// Every element equals the first one.
pub open spec fn all_equal(data: Seq<Seq<u8>>) -> bool {
    forall|i: int| 0 <= i < data.len() ==> #[trigger] data[i] == data[0]
}

/// `[1]` when all byte arrays are equal, else `[0]`.
pub fn equal(data: &Vec<&Vec<u8>>) -> (r: Vec<u8>)
    requires
        data@.len() >= 2,
    ensures
        r@ == seq![if all_equal(ref_views(data@)) { 1u8 } else { 0u8 }],
{
    let ghost d = ref_views(data@);
    let mut i: usize = 1;
    let mut same = true;
    while i < data.len()
        invariant
            d == ref_views(data@),
            1 <= i <= data@.len(),
            same == (forall|k: int| 0 <= k < i ==> #[trigger] d[k] == d[0]),
        decreases data@.len() - i,
    {
        let eq = crate::util::bytes_eq(data[0].as_slice(), data[i].as_slice());
        proof {
            assert(d[i as int] == data@[i as int]@);
            assert(d[0] == data@[0]@);
        }
        if !eq {
            same = false;
        }
        i = i + 1;
    }
    let mut out: Vec<u8> = Vec::new();
    if same {
        out.push(1u8);
    } else {
        out.push(0u8);
    }
    assert(out@ =~= seq![if all_equal(d) { 1u8 } else { 0u8 }]);
    out
}

/// `dst` with its last `min(|src|, |dst|)` bytes replaced by the first bytes of `src`.
pub open spec fn padded_copy(src: Seq<u8>, dst: Seq<u8>) -> Seq<u8> {
    let end = if src.len() <= dst.len() { src.len() as int } else { dst.len() as int };
    Seq::new(dst.len(), |i: int| if i >= dst.len() - end { src[i - (dst.len() - end)] } else { dst[i] })
}

/// Copies `src` into the end of `dst` (at most `|dst|` bytes).
pub fn copy_to_padded(src: &[u8], dst: &mut [u8])
    ensures
        final(dst)@ == padded_copy(src@, old(dst)@),
{
    let end = if src.len() <= dst.len() { src.len() } else { dst.len() };
    let n = dst.len();
    let mut i: usize = 0;
    while i < end
        invariant
            end <= n,
            n == dst@.len(),
            end == (if src@.len() <= n { src@.len() } else { n as nat }),
            i <= end,
            dst@.len() == old(dst)@.len(),
            forall|k: int| 0 <= k < n - end ==> #[trigger] dst@[k] == old(dst)@[k],
            forall|k: int| n - end <= k < n - end + i ==> #[trigger] dst@[k] == src@[k - (n - end)],
            forall|k: int| n - end + i <= k < n ==> #[trigger] dst@[k] == old(dst)@[k],
        decreases end - i,
    {
        dst[n - end + i] = src[i];
        i = i + 1;
    }
    assert(dst@ =~= padded_copy(src@, old(dst)@));
}

/// A big-endian number of at most 16 bytes, as a 128-bit integer.
pub open spec fn number_of(bytes: Seq<u8>) -> u128 {
    be_u128(padded_copy(bytes, Seq::new(16, |i: int| 0u8)))
}

/// The number held in at most 16 big-endian bytes.
fn read_number(bytes: &Vec<u8>) -> (r: u128)
    requires
        bytes@.len() <= 16,
    ensures
        r == number_of(bytes@),
{
    let mut buf = crate::util::zeros(16);
    copy_to_padded(bytes.as_slice(), buf.as_mut_slice());
    let ghost p = buf@;
    assert(p =~= padded_copy(bytes@, Seq::new(16, |i: int| 0u8)));
    let mut v: u128 = 0;
    let mut i: usize = 0;
    while i < 16
        invariant
            buf@ == p,
            p.len() == 16,
            i <= 16,
            v == be_u128(p.subrange(0, i as int)),
        decreases 16 - i,
    {
        assert(p.subrange(0, i as int + 1).drop_last() =~= p.subrange(0, i as int));
        v = (v << 8u128) | (buf[i] as u128);
        i = i + 1;
    }
    assert(p.subrange(0, 16) =~= p);
    v
}

/// The 16 big-endian bytes of `v`.
fn write_number(v: u128) -> (r: Vec<u8>)
    ensures
        r@ == u128_bytes(v),
{
    let mut out: Vec<u8> = Vec::with_capacity(16);
    let mut j: usize = 0;
    while j < 16
        invariant
            j <= 16,
            out@.len() == j,
            forall|t: int| 0 <= t < j ==> #[trigger] out@[t] == u128_bytes(v)[t],
        decreases 16 - j,
    {
        out.push(((v >> ((120 - 8 * j) as u128)) & 0xffu128) as u8);
        j = j + 1;
    }
    assert(out@ =~= u128_bytes(v));
    out
}

/// The sum of two big-endian numbers of at most 16 bytes, as 16 big-endian bytes.
pub fn binary_add(data: &Vec<&Vec<u8>>) -> (r: Vec<u8>)
    requires
        data@.len() == 2,
        data@[0]@.len() <= 16,
        data@[1]@.len() <= 16,
        number_of(data@[0]@) + number_of(data@[1]@) <= u128::MAX,
    ensures
        r@ == u128_bytes((number_of(data@[0]@) + number_of(data@[1]@)) as u128),
{
    let left = read_number(data[0]);
    let right = read_number(data[1]);
    write_number(left + right)
}

/// The product of two big-endian numbers of at most 16 bytes, as 16 big-endian bytes.
pub fn binary_mult(data: &Vec<&Vec<u8>>) -> (r: Vec<u8>)
    requires
        data@.len() == 2,
        data@[0]@.len() <= 16,
        data@[1]@.len() <= 16,
        number_of(data@[0]@) * number_of(data@[1]@) <= u128::MAX,
    ensures
        r@ == u128_bytes((number_of(data@[0]@) * number_of(data@[1]@)) as u128),
{
    let left = read_number(data[0]);
    let right = read_number(data[1]);
    write_number(left * right)
}

/// The concatenation of a sequence of byte strings.
pub open spec fn concat_all(data: Seq<Seq<u8>>) -> Seq<u8>
    decreases data.len(),
{
    if data.len() == 0 {
        Seq::empty()
    } else {
        concat_all(data.drop_last()) + data.last()
    }
}

/// The byte arrays concatenated in order.
pub fn concat_bytes(data: &Vec<&Vec<u8>>) -> (r: Vec<u8>)
    ensures
        r@ == concat_all(ref_views(data@)),
{
    let ghost d = ref_views(data@);
    let mut res: Vec<u8> = Vec::new();
    let mut i: usize = 0;
    while i < data.len()
        invariant
            d == ref_views(data@),
            i <= data@.len(),
            res@ == concat_all(d.subrange(0, i as int)),
        decreases data@.len() - i,
    {
        proof {
            assert(d.subrange(0, i as int + 1).drop_last() =~= d.subrange(0, i as int));
            assert(d[i as int] == data@[i as int]@);
        }
        extend_from(&mut res, data[i].as_slice());
        i = i + 1;
    }
    assert(d.subrange(0, d.len() as int) =~= d);
    res
}

} // verus!
