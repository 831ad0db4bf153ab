//! The explicit verification pass over a finished build.

use vstd::prelude::*;

use crate::error::VaultError;
use crate::order::{digest_le, lemma_adjacent_implies_sorted, record_le, sorted_by_digest};
use crate::record::Record;

verus! {

/// Check that the records are globally non-decreasing in digest and that
/// exactly the expected number of them is present. Succeeds precisely when
/// both hold; any defect is fatal to this pass.
pub fn verify_records_sorted(records: &Vec<Record>, expected_count: u64) -> (r: Result<
    (),
    VaultError,
>)
    ensures
        r is Ok <==> (sorted_by_digest(records@) && records@.len() == expected_count),
{
    let n = records.len();
    let mut i: usize = 1;
    while i < n
        invariant
            1 <= i,
            n == records@.len(),
            forall|k: int| 0 < k < i ==> record_le(records@[k - 1], #[trigger] records@[k]),
        decreases n - i,
    {
        let prev = records[i - 1];
        let cur = records[i];
        if !digest_le(&prev, &cur) {
            proof {
                assert(!record_le(records@[i - 1], records@[i as int]));
                assert(!sorted_by_digest(records@));
            }
            return Err(VaultError::Serialization);
        }
        i = i + 1;
    }
    proof {
        lemma_adjacent_implies_sorted(records@);
    }
    if (n as u64) != expected_count {
        return Err(VaultError::Serialization);
    }
    Ok(())
}

} // verus!
