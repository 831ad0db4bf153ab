//! Extracting the leading `prefix_bits` bits of a digest, the value that
//! routes a record to its bucket.

use vstd::prelude::*;
use vstd::arithmetic::power2::{pow2, lemma_pow2_adds, lemma_pow2_pos, lemma2_to64, lemma2_to64_rest};
use vstd::arithmetic::div_mod::lemma_multiply_divide_lt;

use crate::pow::{lemma_pow2_le, pow2_u64};
use crate::record::{be_bytes_value, lemma_be_bytes_value_bound};

verus! {

/// The unsigned value of the first `bits` bits of `d`: whole leading bytes,
/// big-endian, then the top bits of the next byte.
pub open spec fn prefix_of(d: Seq<u8>, bits: nat) -> nat
    recommends
        bits <= 8 * d.len(),
{
    let full = bits / 8;
    let rem = bits % 8;
    if rem == 0 {
        be_bytes_value(d.take(full as int))
    } else {
        be_bytes_value(d.take(full as int)) * pow2(rem) + (d[full as int] as nat) / pow2((8 - rem) as nat)
    }
}

/// A prefix value is below `2^bits`.
pub proof fn lemma_prefix_of_bound(d: Seq<u8>, bits: nat)
    requires
        bits <= 8 * d.len(),
    ensures
        prefix_of(d, bits) < pow2(bits),
{
    let full = bits / 8;
    let rem = bits % 8;
    assert(bits == 8 * full + rem) by {
        vstd::arithmetic::div_mod::lemma_fundamental_div_mod(bits as int, 8);
    }
    lemma_be_bytes_value_bound(d.take(full as int));
    if rem == 0 {
        assert(8 * d.take(full as int).len() == bits);
    } else {
        let hi = be_bytes_value(d.take(full as int));
        let q = (d[full as int] as nat) / pow2((8 - rem) as nat);
        assert(d[full as int] < pow2((8 - rem) as nat) * pow2(rem)) by {
            lemma_pow2_adds((8 - rem) as nat, rem);
            lemma2_to64();
        }
        assert(q < pow2(rem)) by {
            lemma_pow2_pos((8 - rem) as nat);
            lemma_multiply_divide_lt(
                d[full as int] as int,
                pow2((8 - rem) as nat) as int,
                pow2(rem) as int,
            );
        }
        assert(hi * pow2(rem) + q < pow2(8 * full) * pow2(rem)) by (nonlinear_arith)
            requires
                hi < pow2(8 * full),
                q < pow2(rem),
                pow2(rem) > 0,
                pow2(8 * full) > 0,
        {
        }
        assert(pow2(8 * full) * pow2(rem) == pow2(bits)) by {
            lemma_pow2_adds(8 * full, rem);
        }
    }
}

/// Only the first `ceil(bits / 8)` bytes matter: recomputing a prefix from a
/// truncated digest gives the value computed from the full digest, as long
/// as the truncation keeps those bytes.
pub proof fn lemma_prefix_of_take(d: Seq<u8>, bits: nat, m: int)
    requires
        bits <= 8 * m,
        0 <= m <= d.len(),
    ensures
        prefix_of(d.take(m), bits) == prefix_of(d, bits),
{
    let full = bits / 8;
    let rem = bits % 8;
    assert(bits == 8 * full + rem) by {
        vstd::arithmetic::div_mod::lemma_fundamental_div_mod(bits as int, 8);
    }
    assert(full <= m);
    assert(d.take(m).take(full as int) =~= d.take(full as int));
    if rem != 0 {
        assert(full < m);
        assert(d.take(m)[full as int] == d[full as int]);
    }
}

/// A byte sequence with an earlier first difference reads as the smaller
/// big-endian value.
proof fn lemma_be_strict_mono(a: Seq<u8>, b: Seq<u8>, p: int)
    requires
        a.len() == b.len(),
        crate::order::first_diff_below(a, b, p),
    ensures
        be_bytes_value(a) < be_bytes_value(b),
    decreases a.len(),
{
    let n = a.len() as int;
    if p == n - 1 {
        assert(a.drop_last() =~= b.drop_last());
        assert(be_bytes_value(a) == be_bytes_value(a.drop_last()) * 256 + a[n - 1]);
        assert(be_bytes_value(b) == be_bytes_value(b.drop_last()) * 256 + b[n - 1]);
    } else {
        let a1 = a.drop_last();
        let b1 = b.drop_last();
        assert(crate::order::first_diff_below(a1, b1, p));
        lemma_be_strict_mono(a1, b1, p);
        assert(be_bytes_value(a) == be_bytes_value(a1) * 256 + a[n - 1]);
        assert(be_bytes_value(b) == be_bytes_value(b1) * 256 + b[n - 1]);
    }
}

/// Digest order bounds prefix order: a digest that sorts no later never
/// routes to a later bucket.
pub proof fn lemma_prefix_of_mono(d1: Seq<u8>, d2: Seq<u8>, bits: nat)
    requires
        d1.len() == d2.len(),
        crate::order::lex_le(d1, d2),
        bits <= 8 * d1.len(),
    ensures
        prefix_of(d1, bits) <= prefix_of(d2, bits),
{
    let full = bits / 8;
    let rem = bits % 8;
    assert(bits == 8 * full + rem) by {
        vstd::arithmetic::div_mod::lemma_fundamental_div_mod(bits as int, 8);
    }
    crate::order::lemma_lex_le_iff(d1, d2);
    if d1 == d2 {
    } else {
        let p = choose|j: int| crate::order::first_diff_below(d1, d2, j);
        lemma_pow2_pos(rem);
        lemma_pow2_pos((8 - rem) as nat);
        if p >= full + if rem == 0 { 0int } else { 1int } {
            // the difference lies beyond the bits the prefix reads
            assert(d1.take(full as int) =~= d2.take(full as int));
            if rem != 0 {
                assert(d1[full as int] == d2[full as int]);
            }
        } else if rem != 0 && p == full {
            assert(d1.take(full as int) =~= d2.take(full as int));
            vstd::arithmetic::div_mod::lemma_div_is_ordered(
                d1[p] as int,
                d2[p] as int,
                pow2((8 - rem) as nat) as int,
            );
        } else {
            // the difference lies inside the whole leading bytes
            assert(p < full);
            let t1 = d1.take(full as int);
            let t2 = d2.take(full as int);
            assert(crate::order::first_diff_below(t1, t2, p));
            lemma_be_strict_mono(t1, t2, p);
            if rem == 0 {
            } else {
                let hi1 = be_bytes_value(t1);
                let hi2 = be_bytes_value(t2);
                let q1 = (d1[full as int] as nat) / pow2((8 - rem) as nat);
                assert(d1[full as int] < pow2((8 - rem) as nat) * pow2(rem)) by {
                    lemma_pow2_adds((8 - rem) as nat, rem);
                    lemma2_to64();
                }
                assert(q1 < pow2(rem)) by {
                    lemma_multiply_divide_lt(
                        d1[full as int] as int,
                        pow2((8 - rem) as nat) as int,
                        pow2(rem) as int,
                    );
                }
                assert(hi1 * pow2(rem) + q1 < hi2 * pow2(rem)) by (nonlinear_arith)
                    requires
                        hi1 < hi2,
                        q1 < pow2(rem),
                        pow2(rem) > 0,
                {
                }
            }
        }
    }
}

/// The value of the first `n` whole bytes of `d`, big-endian.
fn be_value_of(d: &[u8], n: usize) -> (v: u64)
    requires
        n <= d@.len(),
        n <= 7,
    ensures
        v == be_bytes_value(d@.take(n as int)),
{
    let mut acc: u64 = 0;
    let mut i: usize = 0;
    while i < n
        invariant
            i <= n,
            n <= d@.len(),
            n <= 7,
            acc == be_bytes_value(d@.take(i as int)),
        decreases n - i,
    {
        proof {
            assert(d@.take(i + 1).drop_last() =~= d@.take(i as int));
            lemma_be_bytes_value_bound(d@.take(i + 1));
            lemma_pow2_le(8 * (i + 1) as nat, 56);
            lemma2_to64();
            lemma2_to64_rest();
        }
        acc = acc * 256 + (d[i] as u64);
        i = i + 1;
    }
    acc
}

/// Extract the leading `bits` bits of a digest as an integer.
///
/// This is the routing value of a record: the same digest bytes always give
/// the same prefix, whether they come fresh from the hash or back from disk.
pub fn extract_prefix(d: &[u8], bits: usize) -> (p: u64)
    requires
        1 <= bits <= 63,
        bits <= 8 * d@.len(),
    ensures
        p == prefix_of(d@, bits as nat),
        p < pow2(bits as nat),
{
    proof {
        lemma_prefix_of_bound(d@, bits as nat);
    }
    let full: usize = bits / 8;
    let rem: usize = bits % 8;
    let acc: u64 = be_value_of(d, full);
    if rem == 0 {
        acc
    } else {
        proof {
            assert(bits == 8 * full + rem) by {
                vstd::arithmetic::div_mod::lemma_fundamental_div_mod(bits as int, 8);
            }
            lemma_be_bytes_value_bound(d@.take(full as int));
            lemma_pow2_pos(rem as nat);
            lemma_pow2_pos((8 - rem) as nat);
            assert(d@[full as int] < pow2((8 - rem) as nat) * pow2(rem as nat)) by {
                lemma_pow2_adds((8 - rem) as nat, rem as nat);
                lemma2_to64();
            }
            lemma_multiply_divide_lt(
                d@[full as int] as int,
                pow2((8 - rem) as nat) as int,
                pow2(rem as nat) as int,
            );
            assert(acc * pow2(rem as nat) + (d@[full as int] as nat) / pow2((8 - rem) as nat)
                < pow2(8 * full as nat) * pow2(rem as nat)) by (nonlinear_arith)
                requires
                    acc < pow2(8 * full as nat),
                    (d@[full as int] as nat) / pow2((8 - rem) as nat) < pow2(rem as nat),
                    pow2(rem as nat) > 0,
                    pow2(8 * full as nat) > 0,
            {
            }
            assert(pow2(8 * full as nat) * pow2(rem as nat) == pow2(bits as nat)) by {
                lemma_pow2_adds(8 * full as nat, rem as nat);
            }
            lemma_pow2_le(bits as nat, 63);
            lemma2_to64();
            lemma2_to64_rest();
        }
        let mult: u64 = pow2_u64(rem as u64);
        let shift: u64 = pow2_u64((8 - rem) as u64);
        acc * mult + (d[full] as u64) / shift
    }
}

} // verus!
