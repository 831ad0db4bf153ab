//! The cryptographic digest primitive, taken on trust from the outside
//! hashing crate. The store treats it as an opaque, deterministic, keyless
//! hash with a fixed 32-byte output.

use vstd::prelude::*;

verus! {

/// What the hash returns on the given input bytes. Deterministic: the same
/// bytes give the same digest, in every process and on every machine.
pub uninterp spec fn blake3_of(input: Seq<u8>) -> Seq<u8>;

/// Relies on blake3::hash: a deterministic keyless hash of the input bytes
/// alone, returning exactly 32 bytes.
#[verifier::external_body]
pub(crate) fn blake3_digest(input: &[u8]) -> (r: Vec<u8>)
    ensures
        r@ == blake3_of(input@),
        r@.len() == 32,
{
    blake3::hash(input).as_bytes().to_vec()
}

} // verus!
