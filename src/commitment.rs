use vstd::prelude::*;
use crate::primitives::{keccak256, keccak256_of, random_bytes16};
use crate::util::{extend_from, slice_to_vec, sub_vec};

verus! {

/// A commitment `c` and its opening value `o`.
#[derive(Clone, Debug)]
pub struct Commitment {
    pub c: Vec<u8>,
    pub o: Vec<u8>,
}

/// `c` is Keccak-256 of the opening value, which is `data ‖ r`.
pub open spec fn commits_to(cm: Commitment, data: Seq<u8>, r: Seq<u8>) -> bool {
    &&& cm.o@ == data + r
    &&& cm.c@ == keccak256_of(data + r)
}

/// The commitment to `data` with the 16 random bytes `r`.
pub fn commit_with(data: &[u8], r: &[u8]) -> (cm: Commitment)
    requires
        r@.len() == 16,
    ensures
        commits_to(cm, data@, r@),
{
    let mut o = slice_to_vec(data);
    extend_from(&mut o, r);
    let c = keccak256(o.as_slice());
    Commitment { c, o }
}

/// A commitment to `data` with 16 fresh random bytes.
pub fn commit(data: &[u8]) -> (cm: Commitment)
    ensures
        cm.o@.len() == data@.len() + 16,
        commits_to(cm, data@, cm.o@.subrange(data@.len() as int, cm.o@.len() as int)),
{
    let r = random_bytes16();
    let cm = commit_with(data, r.as_slice());
    assert(cm.o@.subrange(data@.len() as int, cm.o@.len() as int) =~= r@);
    cm
}

/// A commitment to `h_circuit ‖ h_ct`.
pub fn commit_hashes(h_circuit: &[u8], h_ct: &[u8]) -> (cm: Commitment)
    ensures
        cm.o@.len() == h_circuit@.len() + h_ct@.len() + 16,
        commits_to(cm, h_circuit@ + h_ct@, cm.o@.subrange((h_circuit@.len() + h_ct@.len()) as int, cm.o@.len() as int)),
{
    let mut payload = slice_to_vec(h_circuit);
    extend_from(&mut payload, h_ct);
    commit(payload.as_slice())
}

/// What opening a commitment gives: the payload when the hash matches.
pub open spec fn open_spec(commitment: Seq<u8>, opening: Seq<u8>) -> Result<Seq<u8>, ()> {
    if commitment == keccak256_of(opening) {
        Ok(opening.subrange(0, opening.len() - 16))
    } else {
        Err(())
    }
}

/// Opens a commitment: when Keccak-256 of the opening value equals it, the opening
/// value without its 16 random bytes; else an error.
pub fn open_commitment_internal(commitment: &Vec<u8>, opening_value: &Vec<u8>) -> (r: Result<Vec<u8>, &'static str>)
    requires
        opening_value@.len() >= 16,
    ensures
        match r {
            Ok(v) => open_spec(commitment@, opening_value@) == Ok::<Seq<u8>, ()>(v@),
            Err(_) => open_spec(commitment@, opening_value@) == Err::<Seq<u8>, ()>(()),
        },
{
    let h = keccak256(opening_value.as_slice());
    let mut same = h.len() == commitment.len();
    let mut i: usize = 0;
    while i < h.len() && same
        invariant
            i <= h@.len(),
            same ==> h@.len() == commitment@.len(),
            same ==> forall|k: int| 0 <= k < i ==> h@[k] == commitment@[k],
            !same ==> h@ != commitment@,
        decreases h@.len() - i,
    {
        if h[i] != commitment[i] {
            same = false;
        }
        i = i + 1;
    }
    if same {
        assert(h@ =~= commitment@);
        Ok(sub_vec(opening_value.as_slice(), 0, opening_value.len() - 16))
    } else {
        Err("The commitments do not match")
    }
}

} // verus!
