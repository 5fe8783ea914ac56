use vstd::prelude::*;
use aes::cipher::KeyIvInit;
use aes::cipher::StreamCipher;
use sha2::Digest;
use sha2_compress::Sha2;
use rand::RngCore;

verus! {

/// What Keccak-256 returns on a byte string.
pub uninterp spec fn keccak256_of(data: Seq<u8>) -> Seq<u8>;

/// What one-shot SHA-256 returns on a byte string.
pub uninterp spec fn sha256_of(data: Seq<u8>) -> Seq<u8>;

/// What one SHA-256 compression returns, on a chaining state of eight words and a
/// block given as two halves of eight words each.
pub uninterp spec fn sha256_compress_of(state: Seq<u32>, h1: Seq<u32>, h2: Seq<u32>) -> Seq<u32>;

/// What AES-128 in big-endian 128-bit counter mode produces when applied to `data`
/// with `key` and the initial counter block `counter`.
pub uninterp spec fn aes128_ctr_of(key: Seq<u8>, counter: Seq<u8>, data: Seq<u8>) -> Seq<u8>;

/// The SHA-256 initial hash value, as eight words.
pub open spec fn sha256_initial_state() -> Seq<u32> {
    seq![
        0x6a09e667u32, 0xbb67ae85u32, 0x3c6ef372u32, 0xa54ff53au32,
        0x510e527fu32, 0x9b05688cu32, 0x1f83d9abu32, 0x5be0cd19u32,
    ]
}

/// Relies on `sha3::Keccak256`: the 32-byte Keccak-256 digest of `data`.
#[verifier::external_body]
pub(crate) fn keccak256(data: &[u8]) -> (r: Vec<u8>)
    ensures
        r@ == keccak256_of(data@),
        r@.len() == 32,
{
    sha3::Keccak256::digest(data).to_vec()
}

/// Relies on `sha2::Sha256`: the 32-byte SHA-256 digest of `data`.
#[verifier::external_body]
pub fn sha256(data: &[u8]) -> (r: Vec<u8>)
    ensures
        r@ == sha256_of(data@),
        r@.len() == 32,
{
    sha2::Sha256::digest(data).to_vec()
}

/// Relies on `sha2_compress::Sha2::compress` for `[u32; 8]`: one SHA-256 compression
/// round of the block `h1 ‖ h2` from the chaining state `state`, with no padding.
#[verifier::external_body]
pub(crate) fn sha256_compress_words(state: &[u32; 8], h1: &[u32; 8], h2: &[u32; 8]) -> (r: [u32; 8])
    ensures
        r@ == sha256_compress_of(state@, h1@, h2@),
{
    state.compress(h1, h2)
}

/// Relies on `sha2_compress::SHA256`: the standard SHA-256 initial hash value.
#[verifier::external_body]
pub(crate) fn sha256_initial_words() -> (r: [u32; 8])
    ensures
        r@ == sha256_initial_state(),
{
    sha2_compress::SHA256
}

/// Relies on `ctr::Ctr128BE<aes::Aes128>`: `data` XORed with the AES-128-CTR keystream
/// for `key` that starts at the counter block `counter` (128-bit big-endian counter).
/// The keystream has no end for a 128-bit counter, so any length is accepted.
#[verifier::external_body]
pub(crate) fn aes128_ctr_apply(key: &[u8], counter: &[u8], data: &[u8]) -> (r: Vec<u8>)
    requires
        key@.len() == 16,
        counter@.len() == 16,
    ensures
        r@ == aes128_ctr_of(key@, counter@, data@),
        r@.len() == data@.len(),
{
    let mut buf = data.to_vec();
    let mut cipher = ctr::Ctr128BE::<aes::Aes128>::new_from_slices(key, counter).unwrap();
    cipher.apply_keystream(&mut buf);
    buf
}

/// Relies on `rand::RngCore::fill_bytes` of the thread-local generator: sixteen
/// random bytes. Nothing is known of their values.
#[verifier::external_body]
pub(crate) fn random_bytes16() -> (r: Vec<u8>)
    ensures
        r@.len() == 16,
{
    let mut buf = vec![0u8; 16];
    rand::rng().fill_bytes(&mut buf);
    buf
}

} // verus!
