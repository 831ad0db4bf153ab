//! Lexicographic order on digests, the sort key of the whole store.

use vstd::prelude::*;

use crate::record::Record;

verus! {

/// Lexicographic order on byte sequences: `a` is less than or equal to `b`.
/// A proper prefix compares below any of its extensions.
pub open spec fn lex_le(a: Seq<u8>, b: Seq<u8>) -> bool
    decreases a.len(),
{
    if a.len() == 0 {
        true
    } else if b.len() == 0 {
        false
    } else if a[0] < b[0] {
        true
    } else if a[0] > b[0] {
        false
    } else {
        lex_le(a.drop_first(), b.drop_first())
    }
}

/// The record order used by the sorter: by digest only, nonces never compared.
pub open spec fn record_le(a: Record, b: Record) -> bool {
    lex_le(a.digest(), b.digest())
}

/// `lex_le` is total.
pub proof fn lemma_lex_le_total(a: Seq<u8>, b: Seq<u8>)
    ensures
        lex_le(a, b) || lex_le(b, a),
    decreases a.len(),
{
    if a.len() == 0 || b.len() == 0 {
    } else if a[0] == b[0] {
        lemma_lex_le_total(a.drop_first(), b.drop_first());
    }
}

/// `lex_le` is transitive.
pub proof fn lemma_lex_le_trans(a: Seq<u8>, b: Seq<u8>, c: Seq<u8>)
    requires
        lex_le(a, b),
        lex_le(b, c),
    ensures
        lex_le(a, c),
    decreases a.len(),
{
    if a.len() == 0 {
    } else if b.len() == 0 {
    } else if c.len() == 0 {
    } else {
        if a[0] == b[0] && b[0] == c[0] {
            lemma_lex_le_trans(a.drop_first(), b.drop_first(), c.drop_first());
        }
    }
}

/// `lex_le` is reflexive.
pub proof fn lemma_lex_le_refl(a: Seq<u8>)
    ensures
        lex_le(a, a),
{
    lemma_lex_le_total(a, a);
}

/// `lex_le` both ways means the sequences are equal.
pub proof fn lemma_lex_le_antisym(a: Seq<u8>, b: Seq<u8>)
    requires
        lex_le(a, b),
        lex_le(b, a),
    ensures
        a == b,
    decreases a.len(),
{
    if a.len() == 0 {
        assert(b.len() == 0);
        assert(a =~= b);
    } else {
        assert(b.len() > 0);
        assert(a[0] == b[0]);
        lemma_lex_le_antisym(a.drop_first(), b.drop_first());
        assert forall|i: int| 0 <= i < a.len() implies a[i] == b[i] by {
            if i >= 1 {
                assert(a.drop_first()[i - 1] == b.drop_first()[i - 1]);
            }
        }
        assert(a =~= b);
    }
}

/// `j` is the first position where `a` runs below `b`.
pub open spec fn first_diff_below(a: Seq<u8>, b: Seq<u8>, j: int) -> bool {
    &&& 0 <= j < a.len()
    &&& j < b.len()
    &&& a[j] < b[j]
    &&& forall|i: int| 0 <= i < j ==> a[i] == b[i]
}

/// On equal lengths, `lex_le` holds exactly when the sequences are equal or
/// the first difference runs below.
pub proof fn lemma_lex_le_iff(a: Seq<u8>, b: Seq<u8>)
    requires
        a.len() == b.len(),
    ensures
        lex_le(a, b) <==> (a == b || exists|j: int| first_diff_below(a, b, j)),
    decreases a.len(),
{
    if a.len() == 0 {
        assert(a =~= b);
        assert(lex_le(a, b));
    } else if a[0] < b[0] {
        assert(lex_le(a, b));
        assert(first_diff_below(a, b, 0));
    } else if a[0] > b[0] {
        assert(!lex_le(a, b));
        assert(a != b) by {
            assert(a[0] != b[0]);
        }
        if exists|j: int| first_diff_below(a, b, j) {
            let j = choose|j: int| first_diff_below(a, b, j);
            if j == 0 {
                assert(false);
            } else {
                assert(a[0] == b[0]);
                assert(false);
            }
        }
    } else {
        let a1 = a.drop_first();
        let b1 = b.drop_first();
        lemma_lex_le_iff(a1, b1);
        assert(lex_le(a, b) == lex_le(a1, b1));
        if a1 == b1 {
            assert forall|i: int| 0 <= i < a.len() implies a[i] == b[i] by {
                if i >= 1 {
                    assert(a1[i - 1] == b1[i - 1]);
                }
            }
            assert(a =~= b);
        }
        if a == b {
            assert(a1 =~= b1);
        }
        if exists|j: int| first_diff_below(a1, b1, j) {
            let j = choose|j: int| first_diff_below(a1, b1, j);
            assert(first_diff_below(a, b, j + 1)) by {
                assert(a[j + 1] == a1[j] && b[j + 1] == b1[j]);
                assert forall|i: int| 0 <= i < j + 1 implies a[i] == b[i] by {
                    if i >= 1 {
                        assert(a1[i - 1] == b1[i - 1]);
                    }
                }
            }
        }
        if exists|j: int| first_diff_below(a, b, j) {
            let j = choose|j: int| first_diff_below(a, b, j);
            assert(j >= 1) by {
                assert(a[0] == b[0]);
            }
            assert(first_diff_below(a1, b1, j - 1)) by {
                assert(a1[j - 1] == a[j] && b1[j - 1] == b[j]);
                assert forall|i: int| 0 <= i < j - 1 implies a1[i] == b1[i] by {
                    assert(a[i + 1] == b[i + 1]);
                }
            }
        }
    }
}

/// If the first `i` bytes of `a` and `b` agree, the order is decided by the
/// remainders.
pub proof fn lemma_lex_le_skip(a: Seq<u8>, b: Seq<u8>, i: int)
    requires
        0 <= i <= a.len(),
        i <= b.len(),
        forall|j: int| 0 <= j < i ==> a[j] == b[j],
    ensures
        lex_le(a, b) == lex_le(a.skip(i), b.skip(i)),
    decreases i,
{
    if i > 0 {
        assert(a.len() > 0 && b.len() > 0);
        assert(a[0] == b[0]);
        lemma_lex_le_skip(a.drop_first(), b.drop_first(), i - 1);
        assert(a.drop_first().skip(i - 1) =~= a.skip(i));
        assert(b.drop_first().skip(i - 1) =~= b.skip(i));
    } else {
        assert(a.skip(0) =~= a);
        assert(b.skip(0) =~= b);
    }
}

/// Compare two records by digest; true when `a`'s digest is less than or
/// equal to `b`'s.
pub fn digest_le(a: &Record, b: &Record) -> (r: bool)
    ensures
        r == record_le(*a, *b),
{
    proof {
        assert(a.hash@.skip(0) =~= a.hash@);
        assert(b.hash@.skip(0) =~= b.hash@);
    }
    let mut i: usize = 0;
    while i < 26
        invariant
            i <= 26,
            forall|j: int| 0 <= j < i ==> a.hash@[j] == b.hash@[j],
            lex_le(a.hash@, b.hash@) == lex_le(a.hash@.skip(i as int), b.hash@.skip(i as int)),
        decreases 26 - i,
    {
        let x = a.hash[i];
        let y = b.hash[i];
        if x < y {
            proof {
                lemma_lex_le_skip(a.hash@, b.hash@, i as int);
                assert(a.hash@.skip(i as int)[0] == x);
                assert(b.hash@.skip(i as int)[0] == y);
            }
            return true;
        }
        if x > y {
            proof {
                lemma_lex_le_skip(a.hash@, b.hash@, i as int);
                assert(a.hash@.skip(i as int)[0] == x);
                assert(b.hash@.skip(i as int)[0] == y);
            }
            return false;
        }
        proof {
            lemma_lex_le_skip(a.hash@, b.hash@, i + 1);
        }
        i = i + 1;
    }
    proof {
        assert(a.hash@.skip(26) =~= Seq::<u8>::empty());
    }
    true
}

/// A sequence of records that is non-decreasing in digest.
pub open spec fn sorted_by_digest(s: Seq<Record>) -> bool {
    forall|i: int, j: int| 0 <= i < j < s.len() ==> record_le(#[trigger] s[i], #[trigger] s[j])
}

/// Chain adjacent comparisons across a span.
proof fn lemma_record_le_span(s: Seq<Record>, i: int, j: int)
    requires
        forall|k: int| 0 < k < s.len() ==> record_le(s[k - 1], #[trigger] s[k]),
        0 <= i <= j < s.len(),
    ensures
        record_le(s[i], s[j]),
    decreases j - i,
{
    if i == j {
        lemma_lex_le_refl(s[i].digest());
    } else {
        lemma_record_le_span(s, i, j - 1);
        assert(record_le(s[j - 1], s[j]));
        lemma_lex_le_trans(s[i].digest(), s[j - 1].digest(), s[j].digest());
    }
}

/// A sequence whose every adjacent pair is in order is sorted throughout.
pub proof fn lemma_adjacent_implies_sorted(s: Seq<Record>)
    requires
        forall|k: int| 0 < k < s.len() ==> record_le(s[k - 1], #[trigger] s[k]),
    ensures
        sorted_by_digest(s),
{
    assert forall|i: int, j: int| 0 <= i < j < s.len() implies record_le(
        #[trigger] s[i],
        #[trigger] s[j],
    ) by {
        lemma_record_le_span(s, i, j);
    }
}

} // verus!
