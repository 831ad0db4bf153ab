//! The partitioner: one generation cycle hashes nonces and buffers each
//! record in the shared bucket map, under a per-bucket admission cap.
//!
//! The cycle is deterministic in its inputs: the hash is a function of the
//! nonce alone, so which record lands in which bucket, how many each
//! bucket admits, and where the cycle stops are all stated below as spec
//! functions of the layout, the starting nonce and the attempt budget.

use vstd::prelude::*;

use crate::bucket_map::{
    bucket_map_is_empty, bucket_map_len, bucket_map_push, bucket_map_view, view_count, BucketMap,
};
use crate::generator::{generated_in_range, is_generated, spec_route};
use crate::layout::Layout;
use crate::prefix::prefix_of;
use crate::record::Record;

verus! {

/// A cycle's buffered map is admissible for `layout`: every key names a
/// bucket, no buffer exceeds the per-cycle cap, and every buffered record
/// routes to its key.
pub open spec fn cycle_map_ok(view: Map<u64, Seq<Record>>, layout: Layout) -> bool {
    &&& forall|k: u64| view.dom().contains(k) ==> k < layout.num_buckets
    &&& forall|k: u64|
        view.dom().contains(k) ==> #[trigger] view[k].len() <= layout.spec_cycle_cap_records()
    &&& forall|k: u64, i: int|
        view.dom().contains(k) && 0 <= i < view[k].len() ==> prefix_of(
            (#[trigger] view[k][i]).hash@,
            layout.prefix_bits as nat,
        ) == k
}

/// Bucket `k`'s buffered count after the cycle has processed `t` nonces
/// from `start`: the record of each nonce in turn is admitted exactly
/// when its bucket is still below the per-cycle cap.
pub open spec fn spec_cycle_count(layout: Layout, start: u64, t: nat, k: int) -> int
    decreases t,
{
    if t == 0 {
        0
    } else {
        let c = spec_cycle_count(layout, start, (t - 1) as nat, k);
        if spec_route((start + t - 1) as u64, layout.prefix_bits as nat) == k && c
            < layout.spec_cycle_cap_records() {
            c + 1
        } else {
            c
        }
    }
}

/// Records admitted in total after the cycle has processed `t` nonces.
pub open spec fn spec_cycle_admitted(layout: Layout, start: u64, t: nat) -> int
    decreases t,
{
    if t == 0 {
        0
    } else {
        let k = spec_route((start + t - 1) as u64, layout.prefix_bits as nat) as int;
        let a = spec_cycle_admitted(layout, start, (t - 1) as nat);
        if spec_cycle_count(layout, start, (t - 1) as nat, k)
            < layout.spec_cycle_cap_records() {
            a + 1
        } else {
            a
        }
    }
}

/// The first step at or after `t`, up to `bound`, at which a full batch
/// has been admitted for every bucket; `bound` when none is.
pub open spec fn spec_steps_from(layout: Layout, start: u64, bound: nat, t: nat) -> nat
    decreases bound - t,
{
    if t >= bound {
        bound
    } else if spec_cycle_admitted(layout, start, t) == layout.spec_cycle_cap_records()
        * layout.num_buckets {
        t
    } else {
        spec_steps_from(layout, start, bound, t + 1)
    }
}

/// How many nonces the cycle processes: it stops at a full batch for
/// every bucket, at the attempt budget, or at the end of the nonce space,
/// whichever comes first.
pub open spec fn spec_cycle_steps(layout: Layout, start: u64, max_attempts: u64) -> nat {
    let bound = if max_attempts <= u64::MAX - start {
        max_attempts as nat
    } else {
        (u64::MAX - start) as nat
    };
    spec_steps_from(layout, start, bound, 0)
}

/// The attempt budget the build grants each cycle: several full batches'
/// worth of hashes, saturating at the integer limit.
pub open spec fn spec_attempt_budget(layout: Layout) -> u64 {
    let cap = layout.spec_cycle_cap_records();
    let per = if cap > u64::MAX / layout.num_buckets {
        u64::MAX
    } else {
        (cap * layout.num_buckets) as u64
    };
    if per > u64::MAX / 8 {
        u64::MAX
    } else {
        (8 * per) as u64
    }
}

/// The nonce at which build cycle `c` begins: each cycle picks up where
/// the one before stopped.
pub open spec fn spec_build_start(layout: Layout, start: u64, c: nat) -> u64
    decreases c,
{
    if c == 0 {
        start
    } else {
        let p = spec_build_start(layout, start, (c - 1) as nat);
        (p + spec_cycle_steps(layout, p, spec_attempt_budget(layout))) as u64
    }
}

/// Bucket `k`'s records on the image after `c` build cycles: the sum of
/// what each cycle's admission policy let through.
pub open spec fn spec_build_count(layout: Layout, start: u64, c: nat, k: int) -> int
    decreases c,
{
    if c == 0 {
        0
    } else {
        let p = spec_build_start(layout, start, (c - 1) as nat);
        spec_build_count(layout, start, (c - 1) as nat, k) + spec_cycle_count(
            layout,
            p,
            spec_cycle_steps(layout, p, spec_attempt_budget(layout)),
            k,
        )
    }
}

/// A cycle never runs past the end of the nonce space.
pub proof fn lemma_cycle_steps_bound(layout: Layout, start: u64, max_attempts: u64)
    ensures
        spec_cycle_steps(layout, start, max_attempts) <= u64::MAX - start,
{
    let bound = if max_attempts <= u64::MAX - start {
        max_attempts as nat
    } else {
        (u64::MAX - start) as nat
    };
    lemma_steps_from_bounds(layout, start, bound, 0);
}

/// The stopping step never runs past its bound.
proof fn lemma_steps_from_bounds(layout: Layout, start: u64, bound: nat, t: nat)
    requires
        t <= bound,
    ensures
        t <= spec_steps_from(layout, start, bound, t) <= bound,
    decreases bound - t,
{
    if t < bound && spec_cycle_admitted(layout, start, t) != layout.spec_cycle_cap_records()
        * layout.num_buckets {
        lemma_steps_from_bounds(layout, start, bound, t + 1);
    }
}

/// Run one generation cycle from `start_nonce`: hash nonces in order and
/// buffer each record in its bucket, skipping records whose bucket has
/// already admitted its cap for this cycle. The cycle ends when a full
/// batch has been admitted for every bucket, or when the attempt budget —
/// the guard that bounds the cycle when the hash keeps hitting full
/// buckets — runs out. Returns the nonce after the last one hashed.
///
/// Deterministic: the stopping point, every bucket's buffered count, and
/// every buffered record follow from the layout, the starting nonce and
/// the budget alone, through the digest of each nonce.
pub fn fill_cycle(map: &mut BucketMap, layout: &Layout, start_nonce: u64, max_attempts: u64) -> (
    next: u64)
    requires
        layout.valid(),
        bucket_map_is_empty(*old(map)),
    ensures
        cycle_map_ok(bucket_map_view(*final(map)), *layout),
        start_nonce <= next,
        next == start_nonce + spec_cycle_steps(*layout, start_nonce, max_attempts),
        forall|k: int|
            0 <= k < layout.num_buckets ==> view_count(bucket_map_view(*final(map)), k)
                == spec_cycle_count(
                *layout,
                start_nonce,
                spec_cycle_steps(*layout, start_nonce, max_attempts),
                k,
            ),
        forall|k: u64, i: int|
            bucket_map_view(*final(map)).dom().contains(k) && 0 <= i < bucket_map_view(
                *final(map),
            )[k].len() ==> generated_in_range(
                (#[trigger] bucket_map_view(*final(map))[k][i]),
                start_nonce,
                next,
            ),
{
    let cap: u64 = layout.cycle_cap_records();
    proof {
        crate::arith::lemma_div_mul_le(layout.flush_batch_bytes as int, 32);
        assert(cap >= 1);
        assert(cap * layout.num_buckets <= layout.total_file_bytes) by (nonlinear_arith)
            requires
                cap <= layout.flush_batch_bytes,
                layout.bucket_capacity_bytes == layout.flush_batch_bytes * layout.flush_count,
                layout.total_file_bytes == layout.bucket_capacity_bytes * layout.num_buckets,
                layout.flush_count >= 1,
                layout.num_buckets >= 0,
                layout.flush_batch_bytes >= 0,
                cap >= 0,
        {
        }
    }
    let target: u64 = cap * layout.num_buckets;
    let ghost bound: nat = if max_attempts <= u64::MAX - start_nonce {
        max_attempts as nat
    } else {
        (u64::MAX - start_nonce) as nat
    };
    let mut nonce: u64 = start_nonce;
    let mut admitted: u64 = 0;
    let mut tries: u64 = 0;
    while tries < max_attempts && admitted < target && nonce < u64::MAX
        invariant
            layout.valid(),
            cap == layout.spec_cycle_cap_records(),
            cap >= 1,
            target == layout.spec_cycle_cap_records() * layout.num_buckets,
            bound == if max_attempts <= u64::MAX - start_nonce {
                max_attempts as nat
            } else {
                (u64::MAX - start_nonce) as nat
            },
            nonce == start_nonce + tries,
            tries <= bound,
            admitted <= target,
            admitted == spec_cycle_admitted(*layout, start_nonce, tries as nat),
            spec_steps_from(*layout, start_nonce, bound, tries as nat) == spec_steps_from(
                *layout,
                start_nonce,
                bound,
                0,
            ),
            cycle_map_ok(bucket_map_view(*map), *layout),
            forall|k: int|
                0 <= k < layout.num_buckets ==> view_count(bucket_map_view(*map), k)
                    == spec_cycle_count(*layout, start_nonce, tries as nat, k),
            forall|k: u64, i: int|
                bucket_map_view(*map).dom().contains(k) && 0 <= i < bucket_map_view(
                    *map,
                )[k].len() ==> generated_in_range(
                    (#[trigger] bucket_map_view(*map)[k][i]),
                    start_nonce,
                    nonce,
                ),
        decreases max_attempts - tries,
    {
        let ghost t0 = tries as nat;
        let ghost n0 = nonce;
        let r = crate::generator::generate_hash(nonce, layout.prefix_bits as usize);
        let prefix = r.0;
        let rec = r.1;
        proof {
            assert(prefix < layout.num_buckets);
            assert(prefix == spec_route(n0, layout.prefix_bits as nat));
            assert(is_generated(rec, n0));
            // the loop may go on: this step is neither at the budget nor
            // at the stopping condition
            assert(t0 < bound);
            assert(spec_steps_from(*layout, start_nonce, bound, t0) == spec_steps_from(
                *layout,
                start_nonce,
                bound,
                t0 + 1,
            ));
        }
        nonce = nonce + 1;
        tries = tries + 1;
        let len = bucket_map_len(map, prefix);
        proof {
            assert(len == view_count(bucket_map_view(*map), prefix as int));
            assert(len == spec_cycle_count(*layout, start_nonce, t0, prefix as int));
            assert((start_nonce + (t0 + 1) - 1) as u64 == n0);
        }
        if (len as u64) < cap {
            let ghost before = bucket_map_view(*map);
            bucket_map_push(map, prefix, rec);
            admitted = admitted + 1;
            proof {
                let after = bucket_map_view(*map);
                let buf = if before.dom().contains(prefix) {
                    before[prefix]
                } else {
                    Seq::<Record>::empty()
                };
                assert(after == before.insert(prefix, buf.push(rec)));
                assert forall|k: u64, i: int|
                    after.dom().contains(k) && 0 <= i < after[k].len() implies prefix_of(
                    (#[trigger] after[k][i]).hash@,
                    layout.prefix_bits as nat,
                ) == k by {
                    if k == prefix {
                        if i < buf.len() {
                            assert(after[k][i] == before[prefix][i]);
                        } else {
                            assert(after[k][i] == rec);
                        }
                    } else {
                        assert(after[k] == before[k]);
                    }
                }
                assert forall|k: int|
                    0 <= k < layout.num_buckets implies view_count(after, k)
                    == spec_cycle_count(*layout, start_nonce, t0 + 1, k) by {
                    if k == prefix as int {
                        assert(view_count(after, k) == buf.len() + 1);
                    } else {
                        assert(view_count(after, k) == view_count(before, k));
                    }
                }
                assert(admitted == spec_cycle_admitted(*layout, start_nonce, t0 + 1));
                assert forall|k: u64, i: int|
                    after.dom().contains(k) && 0 <= i < after[k].len()
                    implies generated_in_range(
                    (#[trigger] after[k][i]),
                    start_nonce,
                    nonce,
                ) by {
                    if k == prefix && i == buf.len() {
                        assert(after[k][i] == rec);
                        assert(is_generated(rec, n0) && start_nonce <= n0 < nonce);
                    } else {
                        let old_rec = if k == prefix {
                            buf[i]
                        } else {
                            before[k][i]
                        };
                        assert(after[k][i] == old_rec);
                        assert(generated_in_range(old_rec, start_nonce, n0));
                        let n = choose|n: u64|
                            start_nonce <= n < n0 && #[trigger] is_generated(old_rec, n);
                        assert(start_nonce <= n < nonce && is_generated(old_rec, n));
                    }
                }
            }
        } else {
            proof {
                let view = bucket_map_view(*map);
                assert forall|k: int|
                    0 <= k < layout.num_buckets implies view_count(view, k)
                    == spec_cycle_count(*layout, start_nonce, t0 + 1, k) by {
                }
                assert(admitted == spec_cycle_admitted(*layout, start_nonce, t0 + 1));
                assert forall|k: u64, i: int|
                    view.dom().contains(k) && 0 <= i < view[k].len() implies generated_in_range(
                    (#[trigger] view[k][i]),
                    start_nonce,
                    nonce,
                ) by {
                    assert(generated_in_range(view[k][i], start_nonce, n0));
                    let n = choose|n: u64|
                        start_nonce <= n < n0 && #[trigger] is_generated(view[k][i], n);
                    assert(start_nonce <= n < nonce && is_generated(view[k][i], n));
                }
            }
        }
    }
    proof {
        // the loop stopped exactly at the spec's stopping step
        lemma_steps_from_bounds(*layout, start_nonce, bound, tries as nat);
        if admitted == target && tries < bound {
            assert(spec_steps_from(*layout, start_nonce, bound, tries as nat) == tries);
        } else {
            assert(tries == bound);
            assert(spec_steps_from(*layout, start_nonce, bound, tries as nat) == bound);
        }
        assert(spec_cycle_steps(*layout, start_nonce, max_attempts) == tries);
    }
    nonce
}

} // verus!
