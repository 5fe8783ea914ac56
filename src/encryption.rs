use vstd::prelude::*;
use crate::primitives::{aes128_ctr_apply, aes128_ctr_of, random_bytes16};
use crate::util::{extend_from, slice_to_vec, sub_vec};

verus! {

/// The ciphertext `iv ‖ AES-128-CTR(key, iv, data)`.
pub open spec fn ciphertext_of(data: Seq<u8>, key: Seq<u8>, iv: Seq<u8>) -> Seq<u8> {
    iv + aes128_ctr_of(key, iv, data)
}

/// Encrypts `data` under `key` from the counter block `iv` and prepends `iv`.
pub fn encrypt_with_iv(data: &[u8], key: &[u8], iv: &[u8]) -> (r: Vec<u8>)
    requires
        key@.len() == 16,
        iv@.len() == 16,
    ensures
        r@ == ciphertext_of(data@, key@, iv@),
        r@.len() == 16 + data@.len(),
{
    let body = aes128_ctr_apply(key, iv, data);
    let mut out = slice_to_vec(iv);
    extend_from(&mut out, body.as_slice());
    out
}

/// Encrypts `data` in place under `key` from a fresh random IV; returns `IV ‖ data`.
pub fn encrypt_and_prepend_iv(data: &mut [u8], key: &[u8]) -> (r: Vec<u8>)
    requires
        key@.len() == 16,
    ensures
        r@.len() == 16 + old(data)@.len(),
        r@ == ciphertext_of(old(data)@, key@, r@.subrange(0, 16)),
        final(data)@ == r@.subrange(16, r@.len() as int),
{
    let iv = random_bytes16();
    let ct = encrypt_with_iv(data, key, iv.as_slice());
    let ghost orig = data@;
    let n = ct.len();
    let mut i: usize = 0;
    while i < data.len()
        invariant
            n == ct@.len(),
            ct@ == ciphertext_of(orig, key@, iv@),
            ct@.len() == 16 + orig.len(),
            data@.len() == orig.len(),
            i <= data@.len(),
            forall|k: int| 0 <= k < i ==> #[trigger] data@[k] == ct@[16 + k],
        decreases data@.len() - i,
    {
        data[i] = ct[16 + i];
        i = i + 1;
    }
    proof {
        assert(data@ =~= ct@.subrange(16, ct@.len() as int));
        assert(ct@.subrange(0, 16) =~= iv@);
    }
    ct
}

/// Decrypts `IV ‖ body` under `key`: the body XORed with the keystream from the IV.
pub fn decrypt(ct: &[u8], key: &[u8]) -> (r: Vec<u8>)
    requires
        ct@.len() >= 16,
        key@.len() == 16,
    ensures
        r@ == aes128_ctr_of(key@, ct@.subrange(0, 16), ct@.subrange(16, ct@.len() as int)),
{
    let iv = sub_vec(ct, 0, 16);
    let body = sub_vec(ct, 16, ct.len());
    aes128_ctr_apply(key, iv.as_slice(), body.as_slice())
}

} // verus!
