//! Integer division helpers used by the capacity planner.

use vstd::prelude::*;
use vstd::arithmetic::div_mod::{lemma_fundamental_div_mod, lemma_mod_bound};
use vstd::arithmetic::mul::{
    lemma_mul_inequality, lemma_mul_is_commutative, lemma_mul_is_distributive_add_other_way,
};

verus! {

/// Rounding down after a division loses at most the remainder.
pub proof fn lemma_div_mul_le(a: int, b: int)
    requires
        a >= 0,
        b >= 1,
    ensures
        (a / b) * b <= a,
        a / b >= 0,
{
    lemma_fundamental_div_mod(a, b);
    lemma_mod_bound(a, b);
    lemma_mul_is_commutative(a / b, b);
    if a / b < 0 {
        lemma_mul_inequality(a / b, -1, b);
        assert(false);
    }
}

/// Comparing against a rounded-down quotient is the same as comparing the
/// product: `x <= m / t` exactly when `x * t <= m`.
pub proof fn lemma_le_div_iff_mul_le(x: int, m: int, t: int)
    requires
        x >= 0,
        m >= 0,
        t >= 1,
    ensures
        (x <= m / t) <==> (x * t <= m),
{
    lemma_fundamental_div_mod(m, t);
    lemma_mod_bound(m, t);
    lemma_mul_is_commutative(m / t, t);
    if x <= m / t {
        lemma_mul_inequality(x, m / t, t);
        assert(x * t <= (m / t) * t);
    }
    if x * t <= m {
        if x > m / t {
            lemma_mul_inequality(m / t + 1, x, t);
            lemma_mul_is_distributive_add_other_way(t, m / t, 1);
            assert((m / t + 1) * t == (m / t) * t + t);
            assert(false);
        }
    }
}

} // verus!
