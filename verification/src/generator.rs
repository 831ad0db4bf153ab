//! The record generator: a pure function from a nonce to its bucket prefix
//! and its (nonce, digest) record.

use vstd::prelude::*;
use vstd::arithmetic::power2::{pow2, lemma2_to64, lemma2_to64_rest};

use crate::digest::{blake3_digest, blake3_of};
use crate::prefix::{extract_prefix, lemma_prefix_of_take, prefix_of};
use crate::record::Record;

verus! {

/// The low six bytes of a nonce, big-endian: the identifier stored in a
/// record and the exact input handed to the digest.
pub open spec fn spec_nonce_bytes(nonce: u64) -> Seq<u8> {
    Seq::new(6, |i: int| ((nonce as nat / pow2((8 * (5 - i)) as nat)) % 256) as u8)
}

/// The record generated for a nonce: its identifier bytes and the first 26
/// bytes of their digest.
pub open spec fn is_generated(rec: Record, nonce: u64) -> bool {
    &&& rec.nonce@ == spec_nonce_bytes(nonce)
    &&& rec.hash@ == blake3_of(spec_nonce_bytes(nonce)).take(26)
}

/// The bucket that nonce `nonce`'s record routes to, under `bits` prefix
/// bits.
pub open spec fn spec_route(nonce: u64, bits: nat) -> nat {
    prefix_of(blake3_of(spec_nonce_bytes(nonce)), bits)
}

/// The 32 bytes that nonce `nonce`'s record puts on disk.
pub open spec fn spec_record_bytes(nonce: u64) -> Seq<u8> {
    spec_nonce_bytes(nonce) + blake3_of(spec_nonce_bytes(nonce)).take(26)
}

/// `rec` is the generated record of some nonce in `[lo, hi)`.
pub open spec fn generated_in_range(rec: Record, lo: u64, hi: u64) -> bool {
    exists|n: u64| lo <= n < hi && #[trigger] is_generated(rec, n)
}

/// These 32 bytes are the generated record of some nonce in `[lo, hi)`.
pub open spec fn chunk_generated_in_range(chunk: Seq<u8>, lo: u64, hi: u64) -> bool {
    exists|n: u64| lo <= n < hi && chunk == #[trigger] spec_record_bytes(n)
}

/// The routing prefix survives storage: recomputing a record's prefix
/// from its 26 stored digest bytes gives the value computed from the full
/// 32-byte digest when the record was generated.
pub proof fn lemma_prefix_survives_truncation(nonce: u64, bits: nat)
    requires
        1 <= bits <= 63,
        blake3_of(spec_nonce_bytes(nonce)).len() == 32,
    ensures
        prefix_of(blake3_of(spec_nonce_bytes(nonce)).take(26), bits) == prefix_of(
            blake3_of(spec_nonce_bytes(nonce)),
            bits,
        ),
{
    lemma_prefix_of_take(blake3_of(spec_nonce_bytes(nonce)), bits, 26);
}

/// Lay out the low six bytes of `nonce`, big-endian.
fn nonce_bytes(nonce: u64) -> (b: [u8; 6])
    ensures
        b@ == spec_nonce_bytes(nonce),
{
    proof {
        lemma2_to64();
        lemma2_to64_rest();
    }
    let mut b: [u8; 6] = [0; 6];
    b[0] = ((nonce / 1099511627776) % 256) as u8;
    b[1] = ((nonce / 4294967296) % 256) as u8;
    b[2] = ((nonce / 16777216) % 256) as u8;
    b[3] = ((nonce / 65536) % 256) as u8;
    b[4] = ((nonce / 256) % 256) as u8;
    b[5] = (nonce % 256) as u8;
    proof {
        let s = spec_nonce_bytes(nonce);
        assert(s[0] == ((nonce as nat / pow2(40)) % 256) as u8);
        assert(s[1] == ((nonce as nat / pow2(32)) % 256) as u8);
        assert(s[2] == ((nonce as nat / pow2(24)) % 256) as u8);
        assert(s[3] == ((nonce as nat / pow2(16)) % 256) as u8);
        assert(s[4] == ((nonce as nat / pow2(8)) % 256) as u8);
        assert(s[5] == ((nonce as nat / pow2(0)) % 256) as u8);
        assert(b@ =~= s);
    }
    b
}

/// Generate the record for `nonce` and the bucket prefix that routes it.
///
/// Pure: both results are functions of the arguments alone, so any number
/// of workers may call this concurrently. The returned prefix equals the
/// prefix recomputed from the record's stored digest bytes — what is
/// written to disk routes back to the same bucket.
pub fn generate_hash(nonce: u64, prefix_length: usize) -> (r: (u64, Record))
    requires
        1 <= prefix_length <= 63,
    ensures
        r.0 == prefix_of(blake3_of(spec_nonce_bytes(nonce)), prefix_length as nat),
        r.0 == prefix_of(r.1.digest(), prefix_length as nat),
        r.0 < pow2(prefix_length as nat),
        is_generated(r.1, nonce),
{
    let id = nonce_bytes(nonce);
    let digest = blake3_digest(id.as_slice());
    let mut hash: [u8; 26] = [0; 26];
    let mut i: usize = 0;
    while i < 26
        invariant
            i <= 26,
            digest@.len() == 32,
            hash@.take(i as int) == digest@.take(i as int),
        decreases 26 - i,
    {
        hash[i] = digest[i];
        proof {
            assert(hash@.take(i + 1) =~= digest@.take(i + 1));
        }
        i = i + 1;
    }
    let prefix = extract_prefix(digest.as_slice(), prefix_length);
    let rec = Record { nonce: id, hash };
    proof {
        assert(hash@ =~= hash@.take(26));
        assert(rec.hash@ == blake3_of(spec_nonce_bytes(nonce)).take(26));
        lemma_prefix_of_take(digest@, prefix_length as nat, 26);
        assert(rec.digest() == digest@.take(26));
    }
    (prefix, rec)
}

} // verus!
