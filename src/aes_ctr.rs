use vstd::prelude::*;
use crate::primitives::{aes128_ctr_apply, aes128_ctr_of};

verus! {

/// What `encrypt_block` returns on `[key, blocks, counter]`.
pub open spec fn encrypt_block_spec(data: Seq<Seq<u8>>) -> Seq<u8> {
    if data[1].len() == 0 {
        Seq::empty()
    } else {
        aes128_ctr_of(data[0], data[2], data[1])
    }
}

/// Encrypts (or decrypts) at most 64 bytes with AES-128-CTR. `data` holds the 16-byte
/// key, the bytes, and the 16-byte initial counter block, in that order.
pub fn encrypt_block(data: &Vec<&Vec<u8>>) -> (r: Vec<u8>)
    requires
        data@.len() >= 3,
        data@[0]@.len() == 16,
        data@[1]@.len() <= 64,
        data@[1]@.len() > 0 ==> data@[2]@.len() == 16,
    ensures
        r@ == encrypt_block_spec(data@.map_values(|v: &Vec<u8>| v@)),
        r@.len() == data@[1]@.len(),
{
    if data[1].len() == 0 {
        return Vec::new();
    }
    aes128_ctr_apply(data[0].as_slice(), data[2].as_slice(), data[1].as_slice())
}

/// Decrypts with AES-128-CTR; the same operation as `encrypt_block`.
pub fn decrypt_block(data: &Vec<&Vec<u8>>) -> (r: Vec<u8>)
    requires
        data@.len() >= 3,
        data@[0]@.len() == 16,
        data@[1]@.len() <= 64,
        data@[1]@.len() > 0 ==> data@[2]@.len() == 16,
    ensures
        r@ == encrypt_block_spec(data@.map_values(|v: &Vec<u8>| v@)),
        r@.len() == data@[1]@.len(),
{
    encrypt_block(data)
}

} // verus!
