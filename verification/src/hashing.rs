use vstd::prelude::*;

verus! {

/// The digest that the cryptographic hash assigns to `b`. The function is
/// deterministic: it depends on the input bytes alone. Nothing further is
/// assumed of it; collision resistance is what makes the root digest a
/// binding commitment, but no proof here relies on it.
pub uninterp spec fn keccak_of(b: Seq<u8>) -> Seq<u8>;

/// Relies on alloy_primitives::keccak256: a fixed 32-byte digest of the
/// input bytes, depending on the input alone.
#[verifier::external_body]
pub fn keccak(b: &[u8]) -> (r: Vec<u8>)
    ensures
        r@ == keccak_of(b@),
        r@.len() == 32,
{
    alloy_primitives::keccak256(b).to_vec()
}

} // verus!
