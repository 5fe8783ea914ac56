use vstd::prelude::*;
use crate::compiler::be64_bytes;
use crate::primitives::{
    sha256_compress_of, sha256_compress_words, sha256_initial_state, sha256_initial_words,
};

verus! {

/// Word `k` of `s`, read as four big-endian bytes.
pub open spec fn be_word(s: Seq<u8>, k: int) -> u32 {
    ((s[4 * k] as u32) << 24u32) | ((s[4 * k + 1] as u32) << 16u32) | ((s[4 * k + 2] as u32)
        << 8u32) | (s[4 * k + 3] as u32)
}

/// Eight big-endian words read from 32 bytes.
pub open spec fn words_of(s: Seq<u8>) -> Seq<u32> {
    Seq::new(8, |k: int| be_word(s, k))
}

/// Byte `j` (0 = most significant) of the word `w`.
pub open spec fn word_byte(w: u32, j: int) -> u8 {
    ((w >> ((24 - 8 * j) as u32)) & 0xffu32) as u8
}

/// The big-endian bytes of a sequence of words.
pub open spec fn bytes_of_words(w: Seq<u32>) -> Seq<u8> {
    Seq::new(4 * w.len(), |i: int| word_byte(w[i / 4], i % 4))
}

/// One SHA-256 compression, on bytes: the state is eight words and the block is the
/// first 64 bytes of `block`.
pub open spec fn compress_bytes(state: Seq<u32>, block: Seq<u8>) -> Seq<u8> {
    bytes_of_words(
        sha256_compress_of(state, words_of(block.subrange(0, 32)), words_of(block.subrange(32, 64))),
    )
}

/// What `sha256_compress` returns: from the standard initial state when one element is
/// given, else from the state held in the first element.
pub open spec fn compress_spec(data: Seq<Seq<u8>>) -> Seq<u8> {
    if data.len() == 1 {
        compress_bytes(sha256_initial_state(), data[0])
    } else {
        compress_bytes(words_of(data[0]), data[1])
    }
}

/// Reads 32 bytes as eight big-endian words.
pub fn u8_array_to_u32_array(vec: &[u8]) -> (r: [u32; 8])
    requires
        vec@.len() == 32,
    ensures
        r@ == words_of(vec@),
{
    let mut res: [u32; 8] = [0u32; 8];
    let mut i: usize = 0;
    while i < 8
        invariant
            vec@.len() == 32,
            i <= 8,
            res@.len() == 8,
            forall|k: int| 0 <= k < i ==> #[trigger] res@[k] == be_word(vec@, k),
        decreases 8 - i,
    {
        let w = ((vec[i * 4] as u32) << 24u32) | ((vec[i * 4 + 1] as u32) << 16u32) | ((vec[i * 4
            + 2] as u32) << 8u32) | (vec[i * 4 + 3] as u32);
        res.set(i, w);
        i = i + 1;
    }
    assert(res@ =~= words_of(vec@));
    res
}

/// Writes eight words as 32 big-endian bytes.
pub fn u32_array_to_u8_vec(array: &[u32; 8]) -> (r: Vec<u8>)
    ensures
        r@ == bytes_of_words(array@),
        r@.len() == 32,
{
    let mut res: Vec<u8> = Vec::with_capacity(32);
    let mut i: usize = 0;
    while i < 8
        invariant
            i <= 8,
            array@.len() == 8,
            res@.len() == 4 * i,
            forall|t: int| 0 <= t < res@.len() ==> #[trigger] res@[t] == word_byte(array@[t / 4], t % 4),
        decreases 8 - i,
    {
        let w = array[i];
        res.push(((w >> 24u32) & 0xffu32) as u8);
        res.push(((w >> 16u32) & 0xffu32) as u8);
        res.push(((w >> 8u32) & 0xffu32) as u8);
        res.push(((w >> 0u32) & 0xffu32) as u8);
        i = i + 1;
    }
    assert(res@ =~= bytes_of_words(array@));
    res
}

/// One SHA-256 compression without padding. `data` is either the block alone,
/// compressed from the standard initial state, or a 32-byte chaining state and the
/// block. Only the first 64 bytes of the block are read.
pub fn sha256_compress(data: &Vec<&Vec<u8>>) -> (r: Vec<u8>)
    requires
        data@.len() == 1 || data@.len() == 2,
        data@.len() == 2 ==> data@[0]@.len() == 32,
        data@[data@.len() - 1]@.len() >= 64,
    ensures
        r@ == compress_spec(data@.map_values(|v: &Vec<u8>| v@)),
        r@.len() == 32,
{
    let ghost d = data@.map_values(|v: &Vec<u8>| v@);
    let prev_hash = if data.len() == 1 {
        sha256_initial_words()
    } else {
        u8_array_to_u32_array(data[0].as_slice())
    };
    let curr_block: &Vec<u8> = if data.len() == 1 { data[0] } else { data[1] };
    let h1 = u8_array_to_u32_array(crate::util::sub_vec(curr_block.as_slice(), 0, 32).as_slice());
    let h2 = u8_array_to_u32_array(crate::util::sub_vec(curr_block.as_slice(), 32, 64).as_slice());
    let res = sha256_compress_words(&prev_hash, &h1, &h2);
    let r = u32_array_to_u8_vec(&res);
    proof {
        assert(d[d.len() - 1] == curr_block@);
        if data@.len() == 2 {
            assert(d[0] == data@[0]@);
        }
    }
    r
}

/// A big-endian byte string read as a 64-bit integer.
pub open spec fn be_u64(s: Seq<u8>) -> u64
    decreases s.len(),
{
    if s.len() == 0 {
        0u64
    } else {
        ((be_u64(s.drop_last()) << 8u64) | (s.last() as u64)) as u64
    }
}

/// Length of the SHA-256 padding of a final block of `n` bytes: one or two blocks.
pub open spec fn padded_len(n: int) -> int {
    if n + 9 <= 64 { 64 } else { 128 }
}

/// The SHA-256 padding of a final block `input` of a message of `bits` bits:
/// the bytes, `0x80`, zeros, and the bit length in the last 8 bytes.
pub open spec fn padding_spec(input: Seq<u8>, bits: u64) -> Seq<u8> {
    let l = padded_len(input.len() as int);
    Seq::new(
        l as nat,
        |i: int|
            if i < input.len() {
                input[i]
            } else if i == input.len() {
                0x80u8
            } else if i >= l - 8 {
                be64_bytes(bits)[i - (l - 8)]
            } else {
                0u8
            },
    )
}

/// SHA-256 padding of the final block `input` of a message of `data_len` bytes.
pub fn sha256_padding(input: &Vec<u8>, data_len: u64) -> (r: Vec<u8>)
    requires
        input@.len() + 9 <= 128,
        data_len < 0x2000_0000_0000_0000,
    ensures
        r@ == padding_spec(input@, (data_len * 8) as u64),
{
    let n = input.len();
    let l: usize = if n + 9 <= 64 { 64 } else { 128 };
    let bits = data_len * 8;
    let mut len_bytes: Vec<u8> = Vec::with_capacity(8);
    let mut j: usize = 0;
    while j < 8
        invariant
            j <= 8,
            len_bytes@.len() == j,
            forall|t: int| 0 <= t < j ==> #[trigger] len_bytes@[t] == be64_bytes(bits)[t],
        decreases 8 - j,
    {
        len_bytes.push(((bits >> ((56 - 8 * j) as u64)) & 0xffu64) as u8);
        j = j + 1;
    }
    let ghost e = padding_spec(input@, bits);
    let mut out: Vec<u8> = Vec::with_capacity(l);
    let mut i: usize = 0;
    while i < l
        invariant
            n == input@.len(),
            n + 9 <= 128,
            l == padded_len(n as int),
            e == padding_spec(input@, bits),
            len_bytes@.len() == 8,
            forall|t: int| 0 <= t < 8 ==> #[trigger] len_bytes@[t] == be64_bytes(bits)[t],
            i <= l,
            out@.len() == i,
            forall|t: int| 0 <= t < i ==> #[trigger] out@[t] == e[t],
        decreases l - i,
    {
        if i < n {
            out.push(input[i]);
        } else if i == n {
            out.push(0x80u8);
        } else if i >= l - 8 {
            out.push(len_bytes[i - (l - 8)]);
        } else {
            out.push(0u8);
        }
        i = i + 1;
    }
    assert(out@ =~= e);
    out
}

/// What `sha256_compress_final` returns: the padded final block compressed once or
/// twice, from the standard initial state or from the given chaining state.
pub open spec fn compress_final_spec(state: Seq<u32>, padded: Seq<u8>) -> Seq<u8> {
    let h = sha256_compress_of(state, words_of(padded.subrange(0, 32)), words_of(padded.subrange(32, 64)));
    if padded.len() > 64 {
        bytes_of_words(sha256_compress_of(h, words_of(padded.subrange(64, 96)), words_of(padded.subrange(96, 128))))
    } else {
        bytes_of_words(h)
    }
}

/// The chaining state that `sha256_compress_final` starts from.
pub open spec fn final_state(data: Seq<Seq<u8>>) -> Seq<u32> {
    if data.len() == 2 { sha256_initial_state() } else { words_of(data[0]) }
}

/// SHA-256 compression of a final block with its padding. `data` holds an optional
/// 32-byte chaining state, the final block, and the 8-byte big-endian message length.
pub fn sha256_compress_final(data: &Vec<&Vec<u8>>) -> (r: Vec<u8>)
    requires
        data@.len() == 2 || data@.len() == 3,
        data@.len() == 3 ==> data@[0]@.len() == 32,
        data@[data@.len() - 1]@.len() == 8,
        data@[data@.len() - 2]@.len() + 9 <= 128,
        be_u64(data@[data@.len() - 1]@) < 0x2000_0000_0000_0000,
    ensures
        ({
            let d = data@.map_values(|v: &Vec<u8>| v@);
            r@ == compress_final_spec(
                final_state(d),
                padding_spec(d[d.len() - 2], (be_u64(d[d.len() - 1]) * 8) as u64),
            )
        }),
{
    let ghost d = data@.map_values(|v: &Vec<u8>| v@);
    let k = data.len();
    let prev_hash = if k == 2 {
        sha256_initial_words()
    } else {
        u8_array_to_u32_array(data[0].as_slice())
    };
    let curr_block: &Vec<u8> = data[k - 2];
    let len_v: &Vec<u8> = data[k - 1];
    let mut data_len: u64 = 0;
    let mut i: usize = 0;
    while i < 8
        invariant
            len_v@.len() == 8,
            i <= 8,
            data_len == be_u64(len_v@.subrange(0, i as int)),
        decreases 8 - i,
    {
        assert(len_v@.subrange(0, i as int + 1).drop_last() =~= len_v@.subrange(0, i as int));
        data_len = (data_len << 8u64) | (len_v[i] as u64);
        i = i + 1;
    }
    assert(len_v@.subrange(0, 8) =~= len_v@);
    let padded = sha256_padding(curr_block, data_len);
    let h1 = u8_array_to_u32_array(crate::util::sub_vec(padded.as_slice(), 0, 32).as_slice());
    let h2 = u8_array_to_u32_array(crate::util::sub_vec(padded.as_slice(), 32, 64).as_slice());
    let mut res = sha256_compress_words(&prev_hash, &h1, &h2);
    if padded.len() > 64 {
        let h3 = u8_array_to_u32_array(crate::util::sub_vec(padded.as_slice(), 64, 96).as_slice());
        let h4 = u8_array_to_u32_array(crate::util::sub_vec(padded.as_slice(), 96, 128).as_slice());
        res = sha256_compress_words(&res, &h3, &h4);
    }
    proof {
        assert(d[k - 2] == curr_block@);
        assert(d[k - 1] == len_v@);
        if k == 3 {
            assert(d[0] == data@[0]@);
        }
    }
    u32_array_to_u8_vec(&res)
}

} // verus!
