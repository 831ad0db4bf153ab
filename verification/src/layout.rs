//! The capacity planner: derives a consistent on-disk layout from the
//! requested size, the memory budget and the thread count.

use vstd::prelude::*;
use vstd::arithmetic::div_mod::{lemma_div_nonincreasing, lemma_mod_multiples_basic};
use vstd::arithmetic::mul::lemma_mul_inequality;
use vstd::arithmetic::power2::{pow2, lemma2_to64};

use crate::arith::{lemma_div_mul_le, lemma_le_div_iff_mul_le};
use crate::error::VaultError;
use crate::pow::{clog2, lemma_pow2_le, log2_ceil};

verus! {

/// The sizing parameters that govern a whole build. Computed once by
/// `plan` and immutable afterwards.
#[derive(Clone, Copy, Debug, PartialEq, Eq, Structural)]
pub struct Layout {
    /// Bits of digest prefix that route a record to its bucket.
    pub prefix_bits: u64,
    /// Bucket count, always `2^prefix_bits`.
    pub num_buckets: u64,
    /// Reserved bytes of every bucket region in the output file.
    pub bucket_capacity_bytes: u64,
    /// Bytes one bucket may admit into its in-memory buffer per cycle.
    pub flush_batch_bytes: u64,
    /// Number of generate/flush cycles that exactly fill the file.
    pub flush_count: u64,
    /// Bytes taken by sorting `thread_count` buckets at once.
    pub sort_memory_bytes: u64,
    /// Total size of the output file in bytes.
    pub total_file_bytes: u64,
    /// Record count of the full file: `total_file_bytes / 32`.
    pub num_records: u64,
}

impl Layout {
    /// The internal consistency of an accepted layout: a power-of-two
    /// bucket count of at least 64, whole-record flush batches, and bucket
    /// capacities that tile the file exactly.
    pub open spec fn valid(self) -> bool {
        &&& self.num_buckets == pow2(self.prefix_bits as nat)
        &&& self.num_buckets >= 64
        &&& 6 <= self.prefix_bits <= 48
        &&& self.flush_batch_bytes >= 32
        &&& self.flush_batch_bytes % 32 == 0
        &&& self.flush_count >= 1
        &&& self.bucket_capacity_bytes == self.flush_batch_bytes * self.flush_count
        &&& self.bucket_capacity_bytes % 32 == 0
        &&& self.total_file_bytes == self.bucket_capacity_bytes * self.num_buckets
        &&& self.total_file_bytes % 32 == 0
        &&& self.num_records == self.total_file_bytes / 32
        &&& self.total_file_bytes >= 1
    }

    /// Records a bucket may admit per cycle.
    pub open spec fn spec_cycle_cap_records(self) -> u64 {
        self.flush_batch_bytes / 32
    }

    /// Records a bucket may admit per cycle.
    pub fn cycle_cap_records(&self) -> (r: u64)
        ensures
            r == self.spec_cycle_cap_records(),
    {
        self.flush_batch_bytes / 32
    }
}

/// One candidate step of the planner's search, at a given in-memory batch
/// size `write`. Either this batch size yields an acceptable layout, or the
/// search halves `write` and tries again.
pub open spec fn spec_try_layout(
    write: u64,
    fs0: u64,
    mem0: u64,
    budget: u64,
    ratio: u64,
    threads: u64,
) -> Option<Layout>
    recommends
        1 <= write,
        1 <= ratio,
        1 <= threads,
{
    let bucket0 = write * 1024 * ratio;
    if fs0 < bucket0 {
        None
    } else {
        let nb0 = fs0 as int / bucket0;
        let bits = clog2(nb0 as nat);
        let nb = pow2(bits) as int;
        if nb < 64 || bits > 48 {
            None
        } else {
            let bucket1 = fs0 as int / nb;
            if !(bucket1 <= mem0 as int / threads as int) {
                None
            } else {
                let w2 = ((mem0 as int / nb) / 32) * 32;
                if w2 < 32 * threads {
                    None
                } else if w2 > u64::MAX as int / ratio as int {
                    None
                } else {
                    let bucket2 = w2 * ratio;
                    if !(bucket2 <= budget as int / threads as int) {
                        None
                    } else if bucket2 > u64::MAX as int / nb {
                        None
                    } else {
                        let file2 = bucket2 * nb;
                        Some(
                            Layout {
                                prefix_bits: bits as u64,
                                num_buckets: nb as u64,
                                bucket_capacity_bytes: bucket2 as u64,
                                flush_batch_bytes: w2 as u64,
                                flush_count: ratio,
                                sort_memory_bytes: (bucket2 * threads) as u64,
                                total_file_bytes: file2 as u64,
                                num_records: (file2 / 32) as u64,
                            },
                        )
                    }
                }
            }
        }
    }
}

/// The planner's search: try `write`, then `write / 2`, and so on; out of
/// candidates at zero.
pub open spec fn plan_search(
    write: u64,
    fs0: u64,
    mem0: u64,
    budget: u64,
    ratio: u64,
    threads: u64,
) -> Option<Layout>
    decreases write,
{
    if write == 0 {
        None
    } else if spec_try_layout(write, fs0, mem0, budget, ratio, threads) is Some {
        spec_try_layout(write, fs0, mem0, budget, ratio, threads)
    } else {
        plan_search(write / 2, fs0, mem0, budget, ratio, threads)
    }
}

/// What `plan` computes, as a function of its inputs alone.
pub open spec fn spec_plan(
    num_records: u64,
    file_size: u64,
    memory_budget: u64,
    threads: u64,
) -> Result<Layout, VaultError> {
    let fs0 = if file_size == 0 {
        (num_records * 32) as u64
    } else {
        file_size
    };
    if fs0 == 0 || memory_budget == 0 {
        Err(VaultError::Configuration)
    } else {
        let mem0 = if memory_budget > fs0 {
            fs0
        } else {
            memory_budget
        };
        let ratio = ((fs0 - 1) as int / mem0 as int + 1) as u64;
        let w0 = (1048576 as int / ratio as int) as u64;
        match plan_search(w0, fs0, mem0, memory_budget, ratio, threads) {
            Some(l) => Ok(l),
            None => Err(VaultError::Configuration),
        }
    }
}

/// Every layout the candidate step accepts is internally consistent, stays
/// inside the memory budget, and exists only when the budget covers at
/// least one record per bucket and thread.
proof fn lemma_try_layout_props(
    write: u64,
    fs0: u64,
    mem0: u64,
    budget: u64,
    ratio: u64,
    threads: u64,
)
    requires
        1 <= write,
        1 <= ratio,
        1 <= threads,
        mem0 <= budget,
    ensures
        spec_try_layout(write, fs0, mem0, budget, ratio, threads) matches Some(l) ==> {
            &&& l.valid()
            &&& l.sort_memory_bytes == l.bucket_capacity_bytes * threads
            &&& l.bucket_capacity_bytes * threads <= budget
            &&& l.flush_batch_bytes >= 32 * threads
            &&& budget >= 2048 * threads
        },
{
    lemma2_to64();
    if spec_try_layout(write, fs0, mem0, budget, ratio, threads) is Some {
        let bucket0 = write * 1024 * ratio;
        let nb0 = fs0 as int / bucket0;
        let bits = clog2(nb0 as nat);
        let nb = pow2(bits) as int;
        let bucket1 = fs0 as int / nb;
        let w2 = ((mem0 as int / nb) / 32) * 32;
        let bucket2 = w2 * ratio;
        let file2 = bucket2 * nb;
        let l = spec_try_layout(write, fs0, mem0, budget, ratio, threads)->Some_0;

        // prefix_bits >= 6, since the bucket count is at least 64
        if bits < 6 {
            lemma_pow2_le(bits, 5);
            assert(false);
        }

        // the flush batch is a positive whole number of records
        let k = (mem0 as int / nb) / 32;
        assert(w2 == k * 32);
        lemma_mod_multiples_basic(k, 32);
        assert(w2 % 32 == 0);
        assert(w2 >= 32 * threads && threads >= 1);

        // bucket capacity and file size inherit the record alignment
        assert(bucket2 == (k * ratio) * 32 && file2 == ((k * ratio) * nb) * 32)
            by (nonlinear_arith)
            requires
                w2 == k * 32,
                bucket2 == w2 * ratio,
                file2 == bucket2 * nb,
        {
        }
        lemma_mod_multiples_basic(k * ratio, 32);
        lemma_mod_multiples_basic((k * ratio) * nb, 32);

        // the final capacity check keeps the sort inside the budget
        lemma_le_div_iff_mul_le(bucket2, budget as int, threads as int);
        assert(bucket2 * threads <= budget);

        // the file is non-empty
        assert(bucket2 >= 32 && file2 >= 1) by (nonlinear_arith)
            requires
                bucket2 == w2 * ratio,
                file2 == bucket2 * nb,
                w2 >= 32,
                ratio >= 1,
                nb >= 64,
        {
        }

        // values fit in u64, so the casts in the layout change nothing
        lemma_le_div_iff_mul_le(w2, u64::MAX as int, ratio as int);
        lemma_le_div_iff_mul_le(bucket2, u64::MAX as int, nb);
        assert(bucket2 <= u64::MAX && file2 <= u64::MAX);
        assert(bucket2 * threads <= u64::MAX);
        lemma_pow2_le(bits, 48);
        vstd::arithmetic::power2::lemma2_to64_rest();
        assert(nb <= 0x1000000000000);

        assert(l.valid());

        // a budget below one record per bucket and thread admits nothing:
        // the accepted batch covers 32 * threads bytes in each of at least
        // 64 buckets, all inside the clamped budget
        lemma_div_mul_le(mem0 as int / nb, 32);
        assert(w2 <= mem0 as int / nb);
        lemma_le_div_iff_mul_le(w2, mem0 as int, nb);
        assert(w2 * nb <= mem0);
        assert(2048 * threads <= w2 * nb) by (nonlinear_arith)
            requires
                w2 >= 32 * threads,
                nb >= 64,
                threads >= 1,
        {
        }
    }
}

/// `lemma_try_layout_props`, carried through the whole search.
proof fn lemma_plan_search_props(
    write: u64,
    fs0: u64,
    mem0: u64,
    budget: u64,
    ratio: u64,
    threads: u64,
)
    requires
        1 <= ratio,
        1 <= threads,
        mem0 <= budget,
    ensures
        plan_search(write, fs0, mem0, budget, ratio, threads) matches Some(l) ==> {
            &&& l.valid()
            &&& l.sort_memory_bytes == l.bucket_capacity_bytes * threads
            &&& l.bucket_capacity_bytes * threads <= budget
            &&& l.flush_batch_bytes >= 32 * threads
            &&& budget >= 2048 * threads
        },
    decreases write,
{
    if write > 0 {
        lemma_try_layout_props(write, fs0, mem0, budget, ratio, threads);
        if spec_try_layout(write, fs0, mem0, budget, ratio, threads) is None {
            lemma_plan_search_props(write / 2, fs0, mem0, budget, ratio, threads);
        }
    }
}

/// One candidate step of the planner's search; see `spec_try_layout`.
fn try_layout(write: u64, fs0: u64, mem0: u64, budget: u64, ratio: u64, threads: u64) -> (r:
    Option<Layout>)
    requires
        1 <= write,
        write <= 1048576 as int / ratio as int,
        1 <= ratio,
        1 <= threads <= 65536,
        1 <= mem0 <= budget,
        fs0 <= 0x4000000000000,
    ensures
        r == spec_try_layout(write, fs0, mem0, budget, ratio, threads),
{
    proof {
        lemma_div_mul_le(1048576, ratio as int);
        lemma_mul_inequality(write as int, 1048576 as int / ratio as int, ratio as int);
        assert((write * 1024) * ratio == (write * ratio) * 1024) by (nonlinear_arith);
        assert((1048576 as int / ratio as int) * ratio <= 1048576);
        assert(write * 1024 * ratio >= 1024) by (nonlinear_arith)
            requires
                write >= 1,
                ratio >= 1,
        {
        }
    }
    let bucket0: u64 = write * 1024 * ratio;
    if fs0 < bucket0 {
        return None;
    }
    proof {
        vstd::arithmetic::div_mod::lemma_div_non_zero(fs0 as int, bucket0 as int);
        lemma_div_nonincreasing(fs0 as int, bucket0 as int);
    }
    let nb0: u64 = fs0 / bucket0;
    let r = log2_ceil(nb0);
    let bits: u64 = r.0;
    let nb: u64 = r.1;
    if nb < 64 || bits > 48 {
        return None;
    }
    let bucket1: u64 = fs0 / nb;
    if !(bucket1 <= mem0 / threads) {
        return None;
    }
    proof {
        lemma_div_mul_le(mem0 as int / nb as int, 32);
    }
    let w2: u64 = ((mem0 / nb) / 32) * 32;
    if w2 < 32 * threads {
        return None;
    }
    if w2 > u64::MAX / ratio {
        return None;
    }
    proof {
        lemma_le_div_iff_mul_le(w2 as int, u64::MAX as int, ratio as int);
    }
    let bucket2: u64 = w2 * ratio;
    if !(bucket2 <= budget / threads) {
        return None;
    }
    if bucket2 > u64::MAX / nb {
        return None;
    }
    proof {
        lemma_le_div_iff_mul_le(bucket2 as int, u64::MAX as int, nb as int);
        lemma_le_div_iff_mul_le(bucket2 as int, budget as int, threads as int);
    }
    let file2: u64 = bucket2 * nb;
    let sort_memory: u64 = bucket2 * threads;
    Some(
        Layout {
            prefix_bits: bits,
            num_buckets: nb,
            bucket_capacity_bytes: bucket2,
            flush_batch_bytes: w2,
            flush_count: ratio,
            sort_memory_bytes: sort_memory,
            total_file_bytes: file2,
            num_records: file2 / 32,
        },
    )
}

/// Derive a consistent layout, or report that none exists.
///
/// Inputs: the desired record count (used when `file_size` is zero), an
/// explicit file size in bytes, the memory budget in bytes, and the worker
/// thread count. The accepted layout may adjust the requested record count
/// to make the flush batches tile the file exactly.
///
/// The result is a function of the four inputs alone — planning the same
/// inputs twice gives the same layout — and every accepted layout has a
/// power-of-two bucket count of at least 64, bucket capacities that sum to
/// the file size, and a sort phase that fits the memory budget.
pub fn plan(num_records: u64, file_size: u64, memory_budget: u64, threads: u64) -> (r: Result<
    Layout,
    VaultError,
>)
    requires
        1 <= threads <= 65536,
        num_records <= 0x200000000000,
        file_size <= 0x4000000000000,
    ensures
        r == spec_plan(num_records, file_size, memory_budget, threads),
        r matches Ok(l) ==> {
            &&& l.valid()
            &&& l.sort_memory_bytes == l.bucket_capacity_bytes * threads
            &&& l.bucket_capacity_bytes * threads <= memory_budget
            &&& l.flush_batch_bytes >= 32 * threads
        },
        memory_budget < 2048 * threads ==> r is Err,
        r is Err ==> r == Err::<Layout, VaultError>(VaultError::Configuration),
{
    let fs0: u64 = if file_size == 0 {
        num_records * 32
    } else {
        file_size
    };
    if fs0 == 0 {
        return Err(VaultError::Configuration);
    }
    if memory_budget == 0 {
        return Err(VaultError::Configuration);
    }
    let mem0: u64 = if memory_budget > fs0 {
        fs0
    } else {
        memory_budget
    };
    proof {
        lemma_div_nonincreasing((fs0 - 1) as int, mem0 as int);
        lemma_div_mul_le((fs0 - 1) as int, mem0 as int);
    }
    let ratio: u64 = (fs0 - 1) / mem0 + 1;
    let mut write: u64 = 1048576 / ratio;
    let ghost target = plan_search(write, fs0, mem0, memory_budget, ratio, threads);
    proof {
        lemma_plan_search_props(write, fs0, mem0, memory_budget, ratio, threads);
        assert(spec_plan(num_records, file_size, memory_budget, threads) == match target {
            Some(l) => Ok::<Layout, VaultError>(l),
            None => Err::<Layout, VaultError>(VaultError::Configuration),
        });
    }
    while write > 0
        invariant
            1 <= ratio,
            1 <= threads <= 65536,
            1 <= mem0 <= memory_budget,
            fs0 <= 0x4000000000000,
            write <= 1048576 as int / ratio as int,
            plan_search(write, fs0, mem0, memory_budget, ratio, threads) == target,
            spec_plan(num_records, file_size, memory_budget, threads) == match target {
                Some(l) => Ok::<Layout, VaultError>(l),
                None => Err::<Layout, VaultError>(VaultError::Configuration),
            },
        decreases write,
    {
        let candidate = try_layout(write, fs0, mem0, memory_budget, ratio, threads);
        match candidate {
            Some(l) => {
                proof {
                    assert(plan_search(write, fs0, mem0, memory_budget, ratio, threads)
                        == spec_try_layout(write, fs0, mem0, memory_budget, ratio, threads));
                    lemma_plan_search_props(write, fs0, mem0, memory_budget, ratio, threads);
                }
                return Ok(l);
            },
            None => {
                proof {
                    assert(plan_search(write, fs0, mem0, memory_budget, ratio, threads)
                        == plan_search(write / 2, fs0, mem0, memory_budget, ratio, threads));
                }
                write = write / 2;
            },
        }
    }
    proof {
        assert(plan_search(0, fs0, mem0, memory_budget, ratio, threads) is None);
    }
    Err(VaultError::Configuration)
}

} // verus!
