use vstd::prelude::*;
use crate::util::{copy_slice, slice_to_vec};

verus! {

/// AES-128-CTR keystream XOR on one 64-byte block.
pub const OPCODE_AES_CTR: u8 = 0x01;
/// One SHA-256 compression.
pub const OPCODE_SHA2: u8 = 0x02;
/// Synthesis of a 64-byte constant from 32-byte halves.
pub const OPCODE_CONST: u8 = 0x03;
/// Byte-wise XOR of two blocks.
pub const OPCODE_XOR: u8 = 0x04;
/// Equality of the low 32 bytes of two blocks.
pub const OPCODE_COMP: u8 = 0x05;

/// Smallest son index that fits in a signed 48-bit field.
pub const SON_MIN: i64 = -0x8000_0000_0000;
/// Largest son index that fits in a signed 48-bit field.
pub const SON_MAX: i64 = 0x7FFF_FFFF_FFFF;

/// A gate of the fixed 64-byte format. A negative son `-k` names the k-th ciphertext
/// block, a positive son `j` names the j-th gate (both counted from 1).
#[derive(Clone, Debug)]
pub struct GateV2 {
    pub opcode: u8,
    pub sons: Vec<i64>,
    pub params: Vec<u8>,
}

/// The two's complement 48-bit pattern of `n`, as an unsigned integer.
pub open spec fn son_u48(n: i64) -> u64 {
    if n >= 0 { n as u64 } else { (n + 0x1_0000_0000_0000int) as u64 }
}

/// Byte `j` (0 = most significant) of the signed 48-bit big-endian form of `n`.
pub open spec fn son_byte(n: i64, j: int) -> u8 {
    ((son_u48(n) >> ((40 - 8 * j) as u64)) & 0xffu64) as u8
}

/// The six bytes of the signed 48-bit big-endian form of `n`.
pub open spec fn son_bytes(n: i64) -> Seq<u8> {
    Seq::new(6, |j: int| son_byte(n, j))
}

/// Where the parameters of a gate with `arity` sons start in its encoding.
pub open spec fn params_start(arity: int) -> int {
    1 + 6 * arity
}

/// Sons and parameters fit in 64 bytes beside the opcode, and each son fits in a
/// signed 48-bit field.
pub open spec fn fits(sons: Seq<i64>, params: Seq<u8>) -> bool {
    &&& params_start(sons.len() as int) + params.len() <= 64
    &&& forall|k: int| 0 <= k < sons.len() ==> SON_MIN <= #[trigger] sons[k] <= SON_MAX
}

/// The 64-byte encoding: opcode, each son on six bytes, the parameters, zero padding.
pub open spec fn encoding(opcode: u8, sons: Seq<i64>, params: Seq<u8>) -> Seq<u8> {
    let ps = params_start(sons.len() as int);
    Seq::new(
        64,
        |i: int|
            if i == 0 {
                opcode
            } else if i < ps {
                son_byte(sons[(i - 1) / 6], (i - 1) % 6)
            } else if i < ps + params.len() {
                params[i - ps]
            } else {
                0u8
            },
    )
}

/// A gate fits the 64-byte format.
pub open spec fn encodable(g: GateV2) -> bool {
    fits(g.sons@, g.params@)
}

/// The 64-byte encoding of a gate.
pub open spec fn encode_spec(g: GateV2) -> Seq<u8> {
    encoding(g.opcode, g.sons@, g.params@)
}

/// The six bytes of the signed 48-bit big-endian form of `n`.
pub fn encode_i64_6(n: i64) -> (r: [u8; 6])
    requires
        SON_MIN <= n <= SON_MAX,
    ensures
        r@ == son_bytes(n),
{
    let u: u64 = if n >= 0 { n as u64 } else { (n + 0x1_0000_0000_0000i64) as u64 };
    let r = [
        ((u >> 40u64) & 0xffu64) as u8,
        ((u >> 32u64) & 0xffu64) as u8,
        ((u >> 24u64) & 0xffu64) as u8,
        ((u >> 16u64) & 0xffu64) as u8,
        ((u >> 8u64) & 0xffu64) as u8,
        ((u >> 0u64) & 0xffu64) as u8,
    ];
    assert(r@ =~= son_bytes(n));
    r
}

impl GateV2 {
    /// The 64-byte encoding of this gate.
    pub fn encode(&self) -> (r: Vec<u8>)
        requires
            encodable(*self),
        ensures
            r@ == encode_spec(*self),
    {
        let ghost e = encode_spec(*self);
        let k = self.sons.len();
        let p = self.params.len();
        let mut out: Vec<u8> = Vec::with_capacity(64);
        out.push(self.opcode);
        let mut i: usize = 0;
        while i < k
            invariant
                encodable(*self),
                k == self.sons@.len(),
                e == encode_spec(*self),
                i <= k,
                out@.len() == 1 + 6 * i,
                forall|t: int| 0 <= t < out@.len() ==> #[trigger] out@[t] == e[t],
            decreases k - i,
        {
            let b = encode_i64_6(self.sons[i]);
            let mut j: usize = 0;
            while j < 6
                invariant
                    encodable(*self),
                    k == self.sons@.len(),
                    e == encode_spec(*self),
                    i < k,
                    j <= 6,
                    b@ == son_bytes(self.sons@[i as int]),
                    out@.len() == 1 + 6 * i + j,
                    forall|t: int| 0 <= t < out@.len() ==> #[trigger] out@[t] == e[t],
                decreases 6 - j,
            {
                proof {
                    let t = 1 + 6 * i + j;
                    assert((t - 1) / 6 == i && (t - 1) % 6 == j) by (nonlinear_arith)
                        requires t == 1 + 6 * i + j, j < 6;
                }
                out.push(b[j]);
                j = j + 1;
            }
            i = i + 1;
        }
        let mut q: usize = 0;
        while q < p
            invariant
                encodable(*self),
                k == self.sons@.len(),
                p == self.params@.len(),
                e == encode_spec(*self),
                q <= p,
                out@.len() == 1 + 6 * k + q,
                forall|t: int| 0 <= t < out@.len() ==> #[trigger] out@[t] == e[t],
            decreases p - q,
        {
            out.push(self.params[q]);
            q = q + 1;
        }
        while out.len() < 64
            invariant
                encodable(*self),
                e == encode_spec(*self),
                out@.len() <= 64,
                out@.len() >= 1 + 6 * k + p,
                k == self.sons@.len(),
                p == self.params@.len(),
                forall|t: int| 0 <= t < out@.len() ==> #[trigger] out@[t] == e[t],
            decreases 64 - out@.len(),
        {
            out.push(0u8);
        }
        assert(out@ =~= e);
        out
    }

    /// Writes the 64-byte encoding of this gate into `out`.
    pub fn encode_into(&self, out: &mut [u8; 64])
        requires
            encodable(*self),
        ensures
            final(out)@ == encode_spec(*self),
    {
        let enc = self.encode();
        let mut i: usize = 0;
        while i < 64
            invariant
                enc@ == encode_spec(*self),
                i <= 64,
                out@.len() == 64,
                forall|t: int| 0 <= t < i ==> #[trigger] out@[t] == enc@[t],
            decreases 64 - i,
        {
            out.set(i, enc[i]);
            i = i + 1;
        }
        assert(out@ =~= encode_spec(*self));
    }
}

/// The 64-byte encoding of this gate with these opcode, sons and parameters.
pub fn encode_gate_v2(opcode: u8, sons: &[i64], params: &[u8]) -> (r: Vec<u8>)
    requires
        fits(sons@, params@),
    ensures
        r@ == encoding(opcode, sons@, params@),
{
    let g = GateV2 { opcode, sons: copy_slice(sons), params: slice_to_vec(params) };
    g.encode()
}

/// The signed 48-bit big-endian integer held in `b[at .. at + 6]`.
pub open spec fn read_son(b: Seq<u8>, at: int) -> i64 {
    let u = ((b[at] as u64) << 40u64) | ((b[at + 1] as u64) << 32u64) | ((b[at + 2] as u64) << 24u64)
        | ((b[at + 3] as u64) << 16u64) | ((b[at + 4] as u64) << 8u64) | (b[at + 5] as u64);
    if u >= 0x8000_0000_0000u64 {
        (u as int - 0x1_0000_0000_0000int) as i64
    } else {
        u as i64
    }
}

/// The sons held in a 64-byte encoding with `arity` sons.
pub open spec fn decode_sons(b: Seq<u8>, arity: int) -> Seq<i64> {
    Seq::new(arity as nat, |k: int| read_son(b, 1 + 6 * k))
}

/// The parameters held in a 64-byte encoding with `arity` sons and `params_len`
/// parameter bytes.
pub open spec fn decode_params(b: Seq<u8>, arity: int, params_len: int) -> Seq<u8> {
    b.subrange(params_start(arity), params_start(arity) + params_len)
}

/// Reads a gate back from its 64-byte encoding, given its arity and parameter length.
pub fn decode_gate_v2(bytes: &[u8], arity: usize, params_len: usize) -> (r: GateV2)
    requires
        bytes@.len() == 64,
        1 + 6 * arity + params_len <= 64,
    ensures
        r.opcode == bytes@[0],
        r.sons@ == decode_sons(bytes@, arity as int),
        r.params@ == decode_params(bytes@, arity as int, params_len as int),
{
    let mut sons: Vec<i64> = Vec::with_capacity(arity);
    let mut k: usize = 0;
    while k < arity
        invariant
            bytes@.len() == 64,
            1 + 6 * arity + params_len <= 64,
            k <= arity,
            sons@.len() == k,
            forall|t: int| 0 <= t < k ==> #[trigger] sons@[t] == read_son(bytes@, 1 + 6 * t),
        decreases arity - k,
    {
        let at = 1 + 6 * k;
        let c0 = bytes[at];
        let c1 = bytes[at + 1];
        let c2 = bytes[at + 2];
        let c3 = bytes[at + 3];
        let c4 = bytes[at + 4];
        let c5 = bytes[at + 5];
        let u = ((c0 as u64) << 40u64) | ((c1 as u64) << 32u64) | ((c2 as u64) << 24u64) | ((c3 as u64)
            << 16u64) | ((c4 as u64) << 8u64) | (c5 as u64);
        let v: i64 = if u >= 0x8000_0000_0000u64 {
            assert(u < 0x1_0000_0000_0000u64) by (bit_vector)
                requires
                    u == ((c0 as u64) << 40u64) | ((c1 as u64) << 32u64) | ((c2 as u64) << 24u64) | ((c3 as u64)
                        << 16u64) | ((c4 as u64) << 8u64) | (c5 as u64);
            (u as i64) - 0x1_0000_0000_0000i64
        } else {
            u as i64
        };
        sons.push(v);
        k = k + 1;
    }
    assert(sons@ =~= decode_sons(bytes@, arity as int));
    let params = crate::util::sub_vec(bytes, 1 + 6 * arity, 1 + 6 * arity + params_len);
    GateV2 { opcode: bytes[0], sons, params }
}

/// The six bytes written for a son read back as the son.
pub proof fn lemma_son_round_trip(n: i64)
    requires
        SON_MIN <= n <= SON_MAX,
    ensures
        read_son(son_bytes(n), 0) == n,
{
    let x = son_u48(n);
    assert(x < 0x1_0000_0000_0000u64);
    let b = son_bytes(n);
    let b0 = b[0] as u64;
    let b1 = b[1] as u64;
    let b2 = b[2] as u64;
    let b3 = b[3] as u64;
    let b4 = b[4] as u64;
    let b5 = b[5] as u64;
    assert(b0 == (x >> 40u64) & 0xffu64) by (bit_vector)
        requires b0 == (((x >> 40u64) & 0xffu64) as u8) as u64;
    assert(b1 == (x >> 32u64) & 0xffu64) by (bit_vector)
        requires b1 == (((x >> 32u64) & 0xffu64) as u8) as u64;
    assert(b2 == (x >> 24u64) & 0xffu64) by (bit_vector)
        requires b2 == (((x >> 24u64) & 0xffu64) as u8) as u64;
    assert(b3 == (x >> 16u64) & 0xffu64) by (bit_vector)
        requires b3 == (((x >> 16u64) & 0xffu64) as u8) as u64;
    assert(b4 == (x >> 8u64) & 0xffu64) by (bit_vector)
        requires b4 == (((x >> 8u64) & 0xffu64) as u8) as u64;
    assert(b5 == (x >> 0u64) & 0xffu64) by (bit_vector)
        requires b5 == (((x >> 0u64) & 0xffu64) as u8) as u64;
    let u = (b0 << 40u64) | (b1 << 32u64) | (b2 << 24u64) | (b3 << 16u64) | (b4 << 8u64) | b5;
    assert(u == x) by (bit_vector)
        requires
            x < 0x1_0000_0000_0000u64,
            b0 == (x >> 40u64) & 0xffu64,
            b1 == (x >> 32u64) & 0xffu64,
            b2 == (x >> 24u64) & 0xffu64,
            b3 == (x >> 16u64) & 0xffu64,
            b4 == (x >> 8u64) & 0xffu64,
            b5 == (x >> 0u64) & 0xffu64,
            u == (b0 << 40u64) | (b1 << 32u64) | (b2 << 24u64) | (b3 << 16u64) | (b4 << 8u64) | b5;
}

/// Decoding inverts encoding: a gate that fits the format is read back from its
/// 64-byte encoding, given its arity and parameter length.
pub proof fn lemma_encode_decode(g: GateV2)
    requires
        encodable(g),
    ensures
        encode_spec(g)[0] == g.opcode,
        decode_sons(encode_spec(g), g.sons@.len() as int) == g.sons@,
        decode_params(encode_spec(g), g.sons@.len() as int, g.params@.len() as int) == g.params@,
{
    let e = encode_spec(g);
    let k = g.sons@.len() as int;
    assert forall|t: int| 0 <= t < k implies #[trigger] read_son(e, 1 + 6 * t) == g.sons@[t] by {
        let n = g.sons@[t];
        assert(SON_MIN <= n <= SON_MAX);
        assert forall|j: int| 0 <= j < 6 implies e[1 + 6 * t + j] == son_bytes(n)[j] by {
            assert((1 + 6 * t + j - 1) / 6 == t && (1 + 6 * t + j - 1) % 6 == j) by (nonlinear_arith)
                requires 0 <= j < 6;
            assert(1 + 6 * t + j < params_start(k)) by (nonlinear_arith)
                requires 0 <= j < 6, t < k, params_start(k) == 1 + 6 * k;
        }
        lemma_son_round_trip(n);
    }
    assert(decode_sons(e, k) =~= g.sons@);
    assert(decode_params(e, k, g.params@.len() as int) =~= g.params@);
}

} // verus!
