//! Small executable and proof helpers around powers of two.

use vstd::prelude::*;
use vstd::arithmetic::power2::{pow2, lemma_pow2_strictly_increases, lemma2_to64, lemma2_to64_rest};

verus! {

/// `pow2` is monotone.
pub proof fn lemma_pow2_le(a: nat, b: nat)
    requires
        a <= b,
    ensures
        pow2(a) <= pow2(b),
{
    if a < b {
        lemma_pow2_strictly_increases(a, b);
    }
}

/// Compute `2^k` for `k < 64`.
pub fn pow2_u64(k: u64) -> (r: u64)
    requires
        k < 64,
    ensures
        r == pow2(k as nat),
{
    let mut r: u64 = 1;
    let mut i: u64 = 0;
    proof {
        lemma2_to64();
        lemma2_to64_rest();
    }
    while i < k
        invariant
            i <= k,
            k < 64,
            r == pow2(i as nat),
            pow2(63) == 0x8000000000000000,
        decreases k - i,
    {
        proof {
            lemma_pow2_le((i + 1) as nat, 63);
            assert(pow2((i + 1) as nat) == 2 * pow2(i as nat)) by {
                vstd::arithmetic::power2::lemma_pow2_unfold((i + 1) as nat);
            }
        }
        r = r * 2;
        i = i + 1;
    }
    r
}

/// The number of bits needed to count up to `x`: the smallest `p` with
/// `x <= 2^p`.
pub open spec fn clog2(x: nat) -> nat
    decreases x,
{
    if x <= 1 {
        0
    } else {
        1 + clog2((x + 1) / 2)
    }
}

/// `2^clog2(x)` is at least `x`, and `clog2(x)` is the least such exponent.
pub proof fn lemma_clog2_bounds(x: nat)
    requires
        x >= 1,
    ensures
        pow2(clog2(x)) >= x,
        clog2(x) == 0 || pow2((clog2(x) - 1) as nat) < x,
    decreases x,
{
    lemma2_to64();
    if x >= 2 {
        let c = (x + 1) / 2;
        assert(clog2(x) == 1 + clog2(c));
        assert(1 <= c < x);
        assert(2 * c >= x);
        lemma_clog2_bounds(c);
        vstd::arithmetic::power2::lemma_pow2_unfold(clog2(x));
        assert(pow2(clog2(x)) == 2 * pow2(clog2(c)));
        if clog2(c) != 0 {
            vstd::arithmetic::power2::lemma_pow2_unfold(clog2(c));
            assert(pow2(clog2(c)) == 2 * pow2((clog2(c) - 1) as nat));
            assert(pow2((clog2(c) - 1) as nat) < c);
        }
    }
}

/// The smallest `p` with `x <= 2^p`, together with `2^p` itself.
pub fn log2_ceil(x: u64) -> (r: (u64, u64))
    requires
        1 <= x,
        x <= 0x8000000000000000,
    ensures
        r.0 == clog2(x as nat),
        r.1 == pow2(r.0 as nat),
        x <= r.1,
        r.0 == 0 || pow2((r.0 - 1) as nat) < x,
        r.0 <= 63,
{
    let mut p: u64 = 0;
    let mut v: u64 = 1;
    proof {
        lemma2_to64();
        lemma2_to64_rest();
    }
    while v < x
        invariant
            v == pow2(p as nat),
            x <= 0x8000000000000000,
            p == 0 || pow2((p - 1) as nat) < x,
            p <= 63,
            pow2(63) == 0x8000000000000000,
        decreases 63 - p,
    {
        proof {
            if p >= 63 {
                // v == pow2(63) >= x contradicts the loop condition
                assert(false);
            }
            lemma_pow2_le((p + 1) as nat, 63);
            assert(pow2((p + 1) as nat) == 2 * pow2(p as nat)) by {
                vstd::arithmetic::power2::lemma_pow2_unfold((p + 1) as nat);
            }
            vstd::arithmetic::power2::lemma_pow2_pos(p as nat);
        }
        v = v * 2;
        p = p + 1;
    }
    proof {
        lemma_clog2_bounds(x as nat);
        let c = clog2(x as nat);
        if (p as nat) < c {
            lemma_pow2_le(p as nat, (c - 1) as nat);
            assert(false);
        }
        if (p as nat) > c {
            lemma_pow2_le(c, (p - 1) as nat);
            assert(false);
        }
    }
    (p, v)
}

} // verus!
