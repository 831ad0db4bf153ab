//! The per-bucket sorter: orders a bucket's records by digest, in place.

use vstd::prelude::*;
use vstd::multiset::Multiset;
use vstd::seq_lib::to_multiset_update;

use crate::order::{digest_le, lemma_lex_le_total, lemma_lex_le_trans, record_le, sorted_by_digest};
use crate::record::Record;

verus! {

/// A permutation stays a permutation after mapping a function over both
/// sequences.
pub proof fn lemma_map_values_multiset<A, B>(s1: Seq<A>, s2: Seq<A>, f: spec_fn(A) -> B)
    requires
        s1.to_multiset() == s2.to_multiset(),
    ensures
        s1.map_values(f).to_multiset() == s2.map_values(f).to_multiset(),
    decreases s1.len(),
{
    broadcast use vstd::multiset::group_multiset_axioms;

    s1.to_multiset_ensures();
    s2.to_multiset_ensures();
    if s1.len() == 0 {
        assert(s2.len() == 0);
        assert(s1.map_values(f) =~= s2.map_values(f));
    } else {
        let last = s1.last();
        assert(s1.contains(last)) by {
            assert(s1[s1.len() - 1] == last);
        }
        assert(s2.to_multiset().count(last) > 0);
        assert(s2.contains(last));
        let j = s2.lemma_contains_to_index(last);
        let s1p = s1.drop_last();
        let s2p = s2.remove(j);
        assert(s1.remove(s1.len() - 1) =~= s1p);
        assert(s1p.to_multiset() =~= s1.to_multiset().remove(last));
        assert(s2p.to_multiset() =~= s2.to_multiset().remove(last));
        lemma_map_values_multiset(s1p, s2p, f);
        let m1 = s1.map_values(f);
        let m2 = s2.map_values(f);
        m1.to_multiset_ensures();
        m2.to_multiset_ensures();
        assert(m1.remove(m1.len() - 1) =~= s1p.map_values(f));
        assert(m2.remove(j) =~= s2p.map_values(f));
        assert(m1.remove(m1.len() - 1).to_multiset() =~= m1.to_multiset().remove(f(last)));
        assert(m2.remove(j).to_multiset() =~= m2.to_multiset().remove(m2[j]));
        assert(m2[j] == f(last));
        assert(m1.to_multiset().count(f(last)) > 0) by {
            assert(m1.contains(f(last))) by {
                assert(m1[m1.len() - 1] == f(last));
            }
        }
        assert(m2.to_multiset().count(f(last)) > 0) by {
            assert(m2.contains(f(last))) by {
                assert(m2[j] == f(last));
            }
        }
        assert(m1.to_multiset().remove(f(last)) == m2.to_multiset().remove(f(last)));
        assert forall|e: B| m1.to_multiset().count(e) == m2.to_multiset().count(e) by {
            assert(m1.to_multiset().remove(f(last)).count(e) == m2.to_multiset().remove(
                f(last),
            ).count(e));
            assert(m1.to_multiset().remove(f(last)).count(e) == if m1.to_multiset().count(e)
                >= Multiset::singleton(f(last)).count(e) {
                m1.to_multiset().count(e) - Multiset::singleton(f(last)).count(e)
            } else {
                0
            });
        }
        assert(m1.to_multiset() =~= m2.to_multiset());
    }
}

/// Sort records by digest.
///
/// The result is non-decreasing in digest and holds exactly the records it
/// was given; which of two records with equal digests comes first is
/// unspecified, as the order has no secondary key.
pub fn sort_records(records: &mut Vec<Record>)
    ensures
        sorted_by_digest(final(records)@),
        final(records)@.to_multiset() == old(records)@.to_multiset(),
        final(records)@.len() == old(records)@.len(),
{
    let n = records.len();
    let mut i: usize = 1;
    while i < n
        invariant
            1 <= i,
            records@.len() == n,
            records@.to_multiset() == old(records)@.to_multiset(),
            forall|a: int, b: int|
                0 <= a < b < i && b < n ==> record_le(#[trigger] records@[a], #[trigger] records@[b]),
        decreases n - i,
    {
        let mut j: usize = i;
        while j > 0
            invariant
                0 < i < n,
                0 <= j <= i,
                records@.len() == n,
                records@.to_multiset() == old(records)@.to_multiset(),
                forall|a: int, b: int|
                    0 <= a < b <= i && a != j && b != j ==> record_le(
                        #[trigger] records@[a],
                        #[trigger] records@[b],
                    ),
                forall|b: int|
                    j < b <= i ==> record_le(records@[j as int], #[trigger] records@[b]),
            ensures
                0 <= j <= i,
                records@.len() == n,
                records@.to_multiset() == old(records)@.to_multiset(),
                forall|a: int, b: int|
                    0 <= a < b <= i && a != j && b != j ==> record_le(
                        #[trigger] records@[a],
                        #[trigger] records@[b],
                    ),
                forall|b: int|
                    j < b <= i ==> record_le(records@[j as int], #[trigger] records@[b]),
                j == 0 || record_le(records@[j - 1], records@[j as int]),
            decreases j,
        {
            let prev = records[j - 1];
            let cur = records[j];
            if digest_le(&prev, &cur) {
                break;
            }
            proof {
                lemma_lex_le_total(prev.digest(), cur.digest());
            }
            let ghost r0 = records@;
            records.set(j - 1, cur);
            records.set(j, prev);
            proof {
                let r1 = r0.update(j - 1, cur);
                let r2 = r1.update(j as int, prev);
                to_multiset_update(r0, j - 1, cur);
                to_multiset_update(r1, j as int, prev);
                r0.to_multiset_ensures();
                assert(r0.contains(prev)) by {
                    assert(r0[j - 1] == prev);
                }
                assert(r0.to_multiset().count(prev) > 0);
                assert(r1[j as int] == cur);
                assert(r2.to_multiset() =~= r0.to_multiset());
            }
            j = j - 1;
        }
        proof {
            let r = records@;
            assert forall|a: int, b: int| 0 <= a < b <= i implies record_le(r[a], r[b]) by {
                if a == j as int {
                    // b > j: the carried record is below everything after it
                    assert(record_le(r[a], r[b]));
                } else if b == j as int {
                    // a < j, so j > 0 and the loop exit gives r[j - 1] <= r[j]
                    if a < j - 1 {
                        assert(record_le(r[a], r[j - 1]));
                        lemma_lex_le_trans(r[a].digest(), r[j - 1].digest(), r[b].digest());
                    } else {
                        assert(a == j - 1);
                        assert(record_le(r[a], r[b]));
                    }
                } else {
                    assert(record_le(r[a], r[b]));
                }
            }
        }
        i = i + 1;
    }
}

} // verus!
