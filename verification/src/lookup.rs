//! Prefix lookup against the sorted record set: binary search to any hit,
//! then expansion to the whole matching run.

use vstd::prelude::*;
use vstd::string::StringSliceAdditionalSpecFns;

use crate::order::{
    first_diff_below, lemma_lex_le_antisym, lemma_lex_le_iff, lemma_lex_le_refl,
    lemma_lex_le_total, lemma_lex_le_trans, lex_le, record_le, sorted_by_digest,
};
use crate::record::Record;

verus! {

/// The digest spread into 4-bit values, two per byte, high half first: the
/// unit at which a hex query constrains a digest.
pub open spec fn nibbles_of(d: Seq<u8>) -> Seq<u8> {
    Seq::new(
        d.len() * 2,
        |i: int|
            if i % 2 == 0 {
                (d[i / 2] / 16) as u8
            } else {
                (d[i / 2] % 16) as u8
            },
    )
}

/// Is this byte an ASCII digit or lowercase hex letter?
pub open spec fn is_hex_digit(b: u8) -> bool {
    (48 <= b <= 57) || (97 <= b <= 102)
}

/// The value of an ASCII hex digit; out-of-range bytes give a sentinel that
/// matches no nibble.
pub open spec fn hex_digit_val(b: u8) -> u8 {
    if 48 <= b <= 57 {
        (b - 48) as u8
    } else if 97 <= b <= 102 {
        (b - 87) as u8
    } else {
        16
    }
}

/// Every byte of the query is a hex digit.
pub open spec fn all_hex(bytes: Seq<u8>) -> bool {
    forall|i: int| 0 <= i < bytes.len() ==> is_hex_digit(#[trigger] bytes[i])
}

/// The nibble values spelled by a hex query.
pub open spec fn hex_vals(bytes: Seq<u8>) -> Seq<u8> {
    bytes.map_values(|b: u8| hex_digit_val(b))
}

/// Does the digest begin with the queried nibbles?
pub open spec fn digest_matches(d: Seq<u8>, q: Seq<u8>) -> bool {
    q.len() <= 2 * d.len() && nibbles_of(d).take(q.len() as int) == q
}

/// Where a record's digest stands relative to a queried prefix, in the
/// order of the sorted file.
pub enum PrefixCmp {
    Below,
    Matches,
    Above,
}

/// The three-way comparison `cmp_digest_prefix` decides.
pub open spec fn spec_cmp(d: Seq<u8>, q: Seq<u8>) -> PrefixCmp {
    let nd = nibbles_of(d).take(q.len() as int);
    if nd == q {
        PrefixCmp::Matches
    } else if lex_le(nd, q) {
        PrefixCmp::Below
    } else {
        PrefixCmp::Above
    }
}

/// Digest order carries over to truncated nibble order.
proof fn lemma_nibbles_take_mono(d1: Seq<u8>, d2: Seq<u8>, k: int)
    requires
        d1.len() == d2.len(),
        lex_le(d1, d2),
        0 <= k <= 2 * d1.len(),
    ensures
        lex_le(nibbles_of(d1).take(k), nibbles_of(d2).take(k)),
{
    let n1 = nibbles_of(d1).take(k);
    let n2 = nibbles_of(d2).take(k);
    lemma_lex_le_iff(d1, d2);
    if d1 == d2 {
        assert(n1 =~= n2);
        lemma_lex_le_refl(n1);
    } else {
        let p = choose|j: int| first_diff_below(d1, d2, j);
        assert forall|i: int| 0 <= i < 2 * p implies nibbles_of(d1)[i] == nibbles_of(d2)[i] by {
            assert(d1[i / 2] == d2[i / 2]);
        }
        vstd::arithmetic::div_mod::lemma_fundamental_div_mod(d1[p] as int, 16);
        vstd::arithmetic::div_mod::lemma_fundamental_div_mod(d2[p] as int, 16);
        if d1[p] / 16 == d2[p] / 16 {
            assert(d1[p] % 16 < d2[p] % 16);
            if k <= 2 * p + 1 {
                assert(n1 =~= n2);
                lemma_lex_le_refl(n1);
            } else {
                assert(first_diff_below(n1, n2, 2 * p + 1)) by {
                    assert(n1[2 * p + 1] == d1[p] % 16 && n2[2 * p + 1] == d2[p] % 16);
                    assert forall|i: int| 0 <= i < 2 * p + 1 implies n1[i] == n2[i] by {
                        if i == 2 * p {
                            assert(n1[i] == d1[p] / 16 && n2[i] == d2[p] / 16);
                        }
                    }
                }
                lemma_lex_le_iff(n1, n2);
            }
        } else {
            assert(d1[p] / 16 < d2[p] / 16);
            if k <= 2 * p {
                assert(n1 =~= n2);
                lemma_lex_le_refl(n1);
            } else {
                assert(first_diff_below(n1, n2, 2 * p)) by {
                    assert(n1[2 * p] == d1[p] / 16 && n2[2 * p] == d2[p] / 16);
                }
                lemma_lex_le_iff(n1, n2);
            }
        }
    }
}

/// In digest order, everything before a miss that falls low stays low, and
/// everything after a miss that falls high stays high.
proof fn lemma_cmp_monotone(d1: Seq<u8>, d2: Seq<u8>, q: Seq<u8>)
    requires
        d1.len() == d2.len(),
        q.len() <= 2 * d1.len(),
        lex_le(d1, d2),
    ensures
        spec_cmp(d2, q) is Below ==> spec_cmp(d1, q) is Below,
        spec_cmp(d1, q) is Above ==> spec_cmp(d2, q) is Above,
{
    let k = q.len() as int;
    let n1 = nibbles_of(d1).take(k);
    let n2 = nibbles_of(d2).take(k);
    lemma_nibbles_take_mono(d1, d2, k);
    if spec_cmp(d2, q) is Below {
        lemma_lex_le_trans(n1, n2, q);
        if n1 == q {
            lemma_lex_le_antisym(n2, q);
            assert(false);
        }
    }
    if spec_cmp(d1, q) is Above {
        lemma_lex_le_total(n1, q);
        lemma_lex_le_trans(q, n1, n2);
        if n2 == q {
            lemma_lex_le_antisym(n1, q);
            assert(false);
        }
        if lex_le(n2, q) {
            lemma_lex_le_antisym(n2, q);
            assert(false);
        }
    }
}

/// When a predicate holds exactly on an index interval, filtering keeps
/// exactly that interval.
proof fn lemma_filter_interval(s: Seq<Record>, pred: spec_fn(Record) -> bool, a: int, b: int)
    requires
        0 <= a <= b <= s.len(),
        forall|i: int| 0 <= i < s.len() ==> (pred(#[trigger] s[i]) <==> a <= i < b),
    ensures
        s.filter(pred) == s.subrange(a, b),
    decreases s.len(),
{
    reveal(Seq::filter);
    if s.len() == 0 {
        assert(s.filter(pred) =~= s.subrange(a, b));
    } else {
        let s1 = s.drop_last();
        let last = s.last();
        if pred(last) {
            assert(b == s.len() && a <= s.len() - 1);
            lemma_filter_interval(s1, pred, a, b - 1);
            assert(s1.subrange(a, b - 1) =~= s.subrange(a, b - 1));
            assert(s.filter(pred) =~= s.subrange(a, b));
        } else {
            if b == s.len() {
                assert(a == b);
                lemma_filter_interval(s1, pred, s.len() - 1, s.len() - 1);
                assert(s1.subrange(s.len() - 1, s.len() - 1) =~= s.subrange(a, b));
                assert(s.filter(pred) =~= s.subrange(a, b));
            } else {
                lemma_filter_interval(s1, pred, a, b);
                assert(s1.subrange(a, b) =~= s.subrange(a, b));
                assert(s.filter(pred) =~= s.subrange(a, b));
            }
        }
    }
}

/// Everything a filter keeps was already in the sequence.
pub(crate) proof fn lemma_filter_element_of(s: Seq<Record>, pred: spec_fn(Record) -> bool, t: int)
    requires
        0 <= t < s.filter(pred).len(),
    ensures
        exists|p: int| 0 <= p < s.len() && (#[trigger] s[p]) == s.filter(pred)[t],
    decreases s.len(),
{
    reveal(Seq::filter);
    s.lemma_filter_len(pred);
    let s1 = s.drop_last();
    if pred(s.last()) {
        if t < s.filter(pred).len() - 1 {
            assert(s.filter(pred)[t] == s1.filter(pred)[t]);
            lemma_filter_element_of(s1, pred, t);
            let p = choose|p: int| 0 <= p < s1.len() && (#[trigger] s1[p]) == s1.filter(pred)[t];
            assert(s[p] == s.filter(pred)[t]);
        } else {
            assert(s[s.len() - 1] == s.filter(pred)[t]);
        }
    } else {
        assert(s.filter(pred) == s1.filter(pred));
        lemma_filter_element_of(s1, pred, t);
        let p = choose|p: int| 0 <= p < s1.len() && (#[trigger] s1[p]) == s1.filter(pred)[t];
        assert(s[p] == s.filter(pred)[t]);
    }
}

/// Parse a hex query into nibble values; any non-hex byte refuses the
/// whole query.
fn parse_hex_query(prefix: &str) -> (r: Option<Vec<u8>>)
    ensures
        r matches Some(q) ==> q@ == hex_vals(prefix.spec_bytes()) && all_hex(prefix.spec_bytes()),
        r is None ==> !all_hex(prefix.spec_bytes()),
{
    let bytes: &[u8] = prefix.as_bytes();
    let n = bytes.len();
    let mut out: Vec<u8> = Vec::new();
    let mut i: usize = 0;
    while i < n
        invariant
            i <= n,
            n == bytes@.len(),
            bytes@ == prefix.spec_bytes(),
            out@ == hex_vals(bytes@.take(i as int)),
            forall|j: int| 0 <= j < i ==> is_hex_digit(#[trigger] bytes@[j]),
        decreases n - i,
    {
        let b = bytes[i];
        if 48 <= b && b <= 57 {
            out.push(b - 48);
        } else if 97 <= b && b <= 102 {
            out.push(b - 87);
        } else {
            assert(!is_hex_digit(bytes@[i as int]));
            return None;
        }
        proof {
            assert(out@ =~= hex_vals(bytes@.take(i + 1)));
        }
        i = i + 1;
    }
    proof {
        assert(bytes@.take(n as int) =~= bytes@);
    }
    Some(out)
}

/// The nibble of a record's digest at position `i`.
fn nibble_at(rec: &Record, i: usize) -> (v: u8)
    requires
        i < 52,
    ensures
        v == nibbles_of(rec.hash@)[i as int],
{
    let b = rec.hash[i / 2];
    if i % 2 == 0 {
        b / 16
    } else {
        b % 16
    }
}

/// Compare a record's digest with the queried nibbles: below the run of
/// matches, inside it, or above it.
fn cmp_digest_prefix(rec: &Record, q: &Vec<u8>) -> (c: PrefixCmp)
    requires
        q@.len() <= 52,
    ensures
        c == spec_cmp(rec.hash@, q@),
{
    let k = q.len();
    let ghost nd = nibbles_of(rec.hash@).take(k as int);
    let mut i: usize = 0;
    while i < k
        invariant
            i <= k,
            k == q@.len(),
            k <= 52,
            nd == nibbles_of(rec.hash@).take(k as int),
            forall|j: int| 0 <= j < i ==> nd[j] == q@[j],
        decreases k - i,
    {
        let dv = nibble_at(rec, i);
        let qv = q[i];
        proof {
            assert(nd[i as int] == nibbles_of(rec.hash@)[i as int]);
            crate::order::lemma_lex_le_skip(nd, q@, i as int);
        }
        if dv < qv {
            proof {
                assert(nd.skip(i as int)[0] == dv && q@.skip(i as int)[0] == qv);
                assert(lex_le(nd, q@));
                assert(nd != q@) by {
                    assert(nd[i as int] != q@[i as int]);
                }
            }
            return PrefixCmp::Below;
        }
        if dv > qv {
            proof {
                assert(nd.skip(i as int)[0] == dv && q@.skip(i as int)[0] == qv);
                assert(!lex_le(nd, q@));
                assert(nd != q@) by {
                    assert(nd[i as int] != q@[i as int]);
                }
            }
            return PrefixCmp::Above;
        }
        i = i + 1;
    }
    proof {
        assert(nd =~= q@);
    }
    PrefixCmp::Matches
}

/// All on-disk records whose digest begins with the queried hex prefix.
///
/// The records must already be sorted by digest. The result is exactly the
/// matching records, in file order; a query that is not lowercase hex, or
/// longer than a digest, matches nothing. Found by binary search: matching
/// records cluster, so one hit expands left and right to the whole run.
pub fn lookup_by_prefix(records: &Vec<Record>, prefix: &str) -> (out: Vec<Record>)
    requires
        sorted_by_digest(records@),
    ensures
        (all_hex(prefix.spec_bytes()) && prefix.spec_bytes().len() <= 52) ==> out@ == records@
            .filter(|r: Record| digest_matches(r.hash@, hex_vals(prefix.spec_bytes()))),
        !(all_hex(prefix.spec_bytes()) && prefix.spec_bytes().len() <= 52) ==> out@
            == Seq::<Record>::empty(),
        forall|i: int|
            0 <= i < records@.len() && all_hex(prefix.spec_bytes()) && prefix.spec_bytes().len()
                <= 52 && digest_matches(#[trigger] records@[i].hash@, hex_vals(
                prefix.spec_bytes(),
            )) ==> out@.contains(records@[i]),
{
    let parsed = parse_hex_query(prefix);
    let q: Vec<u8> = match parsed {
        Some(q) => q,
        None => {
            return Vec::new();
        },
    };
    if q.len() > 52 {
        return Vec::new();
    }
    let ghost pred = |r: Record| digest_matches(r.hash@, hex_vals(prefix.spec_bytes()));
    proof {
        assert forall|r: Record| r.hash@.len() == 26 implies #[trigger] pred(r) == (spec_cmp(
            r.hash@,
            q@,
        ) is Matches) by {
        }
    }
    let n = records.len();
    let mut lo: usize = 0;
    let mut hi: usize = n;
    while lo < hi
        invariant
            lo <= hi <= n,
            n == records@.len(),
            sorted_by_digest(records@),
            q@.len() <= 52,
            q@ == hex_vals(prefix.spec_bytes()),
            all_hex(prefix.spec_bytes()),
            pred == (|r: Record| digest_matches(r.hash@, hex_vals(prefix.spec_bytes()))),
            forall|t: int| 0 <= t < lo ==> spec_cmp(#[trigger] records@[t].hash@, q@) is Below,
            forall|t: int| hi <= t < n ==> spec_cmp(#[trigger] records@[t].hash@, q@) is Above,
        ensures
            lo == hi,
        decreases hi - lo,
    {
        let mid = lo + (hi - lo) / 2;
        let c = cmp_digest_prefix(&records[mid], &q);
        match c {
            PrefixCmp::Below => {
                proof {
                    assert forall|t: int| 0 <= t < mid + 1 implies spec_cmp(
                        #[trigger] records@[t].hash@,
                        q@,
                    ) is Below by {
                        if t < mid {
                            assert(record_le(records@[t], records@[mid as int]));
                            lemma_cmp_monotone(records@[t].hash@, records@[mid as int].hash@, q@);
                        }
                    }
                }
                lo = mid + 1;
            },
            PrefixCmp::Above => {
                proof {
                    assert forall|t: int| mid <= t < n implies spec_cmp(
                        #[trigger] records@[t].hash@,
                        q@,
                    ) is Above by {
                        if t > mid {
                            assert(record_le(records@[mid as int], records@[t]));
                            lemma_cmp_monotone(records@[mid as int].hash@, records@[t].hash@, q@);
                        }
                    }
                }
                hi = mid;
            },
            PrefixCmp::Matches => {
                let mut lo2: usize = mid;
                while lo2 > 0
                    invariant
                        lo2 <= mid < n,
                        n == records@.len(),
                        sorted_by_digest(records@),
                        q@.len() <= 52,
                        forall|t: int|
                            lo2 <= t <= mid ==> spec_cmp(
                                #[trigger] records@[t].hash@,
                                q@,
                            ) is Matches,
                    ensures
                        lo2 <= mid < n,
                        forall|t: int|
                            lo2 <= t <= mid ==> spec_cmp(
                                #[trigger] records@[t].hash@,
                                q@,
                            ) is Matches,
                        lo2 == 0 || !(spec_cmp(records@[lo2 - 1].hash@, q@) is Matches),
                    decreases lo2,
                {
                    let c2 = cmp_digest_prefix(&records[lo2 - 1], &q);
                    match c2 {
                        PrefixCmp::Matches => {
                            lo2 = lo2 - 1;
                        },
                        _ => {
                            break;
                        },
                    }
                }
                let mut hi2: usize = mid + 1;
                while hi2 < n
                    invariant
                        mid < hi2 <= n,
                        n == records@.len(),
                        sorted_by_digest(records@),
                        q@.len() <= 52,
                        forall|t: int|
                            mid <= t < hi2 ==> spec_cmp(
                                #[trigger] records@[t].hash@,
                                q@,
                            ) is Matches,
                    ensures
                        mid < hi2 <= n,
                        forall|t: int|
                            mid <= t < hi2 ==> spec_cmp(
                                #[trigger] records@[t].hash@,
                                q@,
                            ) is Matches,
                        hi2 == n || !(spec_cmp(records@[hi2 as int].hash@, q@) is Matches),
                    decreases n - hi2,
                {
                    let c2 = cmp_digest_prefix(&records[hi2], &q);
                    match c2 {
                        PrefixCmp::Matches => {
                            hi2 = hi2 + 1;
                        },
                        _ => {
                            break;
                        },
                    }
                }
                proof {
                    if lo2 > 0 {
                        if spec_cmp(records@[lo2 - 1].hash@, q@) is Above {
                            assert(record_le(records@[lo2 - 1], records@[mid as int]));
                            lemma_cmp_monotone(
                                records@[lo2 - 1].hash@,
                                records@[mid as int].hash@,
                                q@,
                            );
                            assert(false);
                        }
                    }
                    if hi2 < n {
                        if spec_cmp(records@[hi2 as int].hash@, q@) is Below {
                            assert(record_le(records@[mid as int], records@[hi2 as int]));
                            lemma_cmp_monotone(
                                records@[mid as int].hash@,
                                records@[hi2 as int].hash@,
                                q@,
                            );
                            assert(false);
                        }
                    }
                    assert forall|i: int| 0 <= i < n implies (pred(#[trigger] records@[i]) <==> lo2
                        <= i < hi2) by {
                        if i < lo2 {
                            assert(record_le(records@[i], records@[lo2 as int]));
                            if i < lo2 - 1 {
                                assert(record_le(records@[i], records@[lo2 - 1]));
                                lemma_cmp_monotone(
                                    records@[i].hash@,
                                    records@[lo2 - 1].hash@,
                                    q@,
                                );
                            }
                        }
                        if i >= hi2 {
                            if i > hi2 {
                                assert(record_le(records@[hi2 as int], records@[i]));
                                lemma_cmp_monotone(
                                    records@[hi2 as int].hash@,
                                    records@[i].hash@,
                                    q@,
                                );
                            }
                        }
                    }
                    lemma_filter_interval(records@, pred, lo2 as int, hi2 as int);
                }
                let mut out: Vec<Record> = Vec::new();
                let mut idx: usize = lo2;
                while idx < hi2
                    invariant
                        lo2 <= idx <= hi2 <= n,
                        n == records@.len(),
                        out@ == records@.subrange(lo2 as int, idx as int),
                    decreases hi2 - idx,
                {
                    out.push(records[idx]);
                    proof {
                        assert(out@ =~= records@.subrange(lo2 as int, idx + 1));
                    }
                    idx = idx + 1;
                }
                proof {
                    assert(out@ == records@.filter(pred));
                    assert forall|i: int|
                        0 <= i < records@.len() && pred(#[trigger] records@[i]) implies out@
                        .contains(records@[i]) by {
                        assert(out@[i - lo2] == records@[i]);
                    }
                }
                return out;
            },
        }
    }
    proof {
        assert forall|i: int| 0 <= i < n implies !pred(#[trigger] records@[i]) by {
            assert(records@[i].hash@.len() == 26);
        }
        lemma_filter_interval(records@, pred, 0, 0);
        assert(records@.subrange(0, 0) =~= Seq::<Record>::empty());
    }
    Vec::new()
}

} // verus!
