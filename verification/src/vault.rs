//! The store itself: the output file image, its bucket regions and their
//! write cursors, and the build phases that fill, sort and query it.
//!
//! The image lives in memory here; persisting it, and streaming variants of
//! the build, belong to the surrounding program. Every invariant of the
//! on-disk layout is stated and kept on this image.

use vstd::prelude::*;
use vstd::arithmetic::mul::lemma_mul_inequality;
use vstd::string::StringSliceAdditionalSpecFns;

use crate::bucket_map::{
    bucket_map_collect, bucket_map_is_empty, bucket_map_view, BucketMap,
};
use crate::error::VaultError;
use crate::layout::Layout;
use crate::order::lex_le;
use crate::prefix::prefix_of;
use crate::record::Record;

verus! {

/// The build's one mutable artifact: the file image, and one write cursor
/// per bucket region. Cursors only ever advance, in whole records, and
/// never past their region's end.
pub struct Vault {
    /// The accepted layout; never changes after construction.
    pub layout: Layout,
    /// The output file image.
    pub data: Vec<u8>,
    /// Absolute write cursor of each bucket region.
    pub offsets: Vec<u64>,
    /// Whether every bucket has been sorted since the last write.
    pub sorted: bool,
}

impl Vault {
    /// First byte of bucket `b`'s reserved region.
    pub open spec fn region_start(self, b: int) -> int {
        b * self.layout.bucket_capacity_bytes
    }

    /// Bytes written into bucket `b` so far.
    pub open spec fn written(self, b: int) -> int {
        self.offsets@[b] - self.region_start(b)
    }

    /// Records written into bucket `b` so far.
    pub open spec fn record_count(self, b: int) -> int {
        self.written(b) / 32
    }

    /// The 32-byte chunk of record `i` of bucket `b`.
    pub open spec fn chunk_at(self, b: int, i: int) -> Seq<u8> {
        self.data@.subrange(
            self.region_start(b) + 32 * i,
            self.region_start(b) + 32 * i + 32,
        )
    }

    /// The digest bytes of record `i` of bucket `b`.
    pub open spec fn digest_at(self, b: int, i: int) -> Seq<u8> {
        self.data@.subrange(
            self.region_start(b) + 32 * i + 6,
            self.region_start(b) + 32 * i + 32,
        )
    }

    /// All written chunks of bucket `b`, in file order.
    pub open spec fn bucket_chunks(self, b: int) -> Seq<Seq<u8>> {
        Seq::new(self.record_count(b) as nat, |i: int| self.chunk_at(b, i))
    }

    /// Bucket `b`'s written records are non-decreasing in digest.
    pub open spec fn bucket_sorted(self, b: int) -> bool {
        forall|i: int, j: int|
            0 <= i < j < self.record_count(b) ==> lex_le(
                #[trigger] self.digest_at(b, i),
                #[trigger] self.digest_at(b, j),
            )
    }

    /// Bucket `t`'s whole region holds the same bytes as in `base`.
    pub open spec fn region_unchanged(self, base: Vault, t: int) -> bool {
        forall|j: int|
            base.region_start(t) <= j < base.region_start(t) + base.layout.bucket_capacity_bytes
                ==> #[trigger] self.data@[j] == base.data@[j]
    }

    /// The bytes from bucket `t`'s cursor in `base` to its region's end
    /// hold the same bytes as in `base`.
    pub open spec fn tail_unchanged(self, base: Vault, t: int) -> bool {
        forall|j: int|
            base.offsets@[t] <= j < base.region_start(t) + base.layout.bucket_capacity_bytes
                ==> #[trigger] self.data@[j] == base.data@[j]
    }

    /// The structural part of well-formedness: a valid layout, a cursor
    /// per bucket inside its region, whole records only.
    pub open spec fn wf_core(self) -> bool {
        &&& self.layout.valid()
        &&& self.layout.total_file_bytes <= usize::MAX
        &&& self.data@.len() == self.layout.total_file_bytes
        &&& self.offsets@.len() == self.layout.num_buckets
        &&& forall|b: int|
            0 <= b < self.layout.num_buckets ==> self.region_start(b) <= #[trigger] self.offsets@[b]
                <= self.region_start(b) + self.layout.bucket_capacity_bytes
        &&& forall|b: int| 0 <= b < self.layout.num_buckets ==> #[trigger] self.written(b) % 32
            == 0
    }

    /// The shared well-formedness of the image: the structural part, plus
    /// every written record routed to the bucket its digest's prefix
    /// names, plus a `sorted` flag that never lies.
    pub open spec fn wf(self) -> bool {
        &&& self.wf_core()
        &&& forall|b: int, i: int|
            0 <= b < self.layout.num_buckets && 0 <= i < self.record_count(b) ==> prefix_of(
                #[trigger] self.digest_at(b, i),
                self.layout.prefix_bits as nat,
            ) == b
        &&& self.sorted ==> forall|b: int|
            0 <= b < self.layout.num_buckets ==> #[trigger] self.bucket_sorted(b)
    }

    /// The structural part depends only on the layout, the cursors and
    /// the image's length.
    proof fn lemma_wf_core_same(self, other: Vault)
        requires
            self.wf_core(),
            other.layout == self.layout,
            other.offsets@ == self.offsets@,
            other.data@.len() == self.data@.len(),
        ensures
            other.wf_core(),
    {
        assert forall|b: int|
            0 <= b < other.layout.num_buckets implies other.region_start(b)
            <= #[trigger] other.offsets@[b] <= other.region_start(b)
            + other.layout.bucket_capacity_bytes by {
            assert(self.region_start(b) <= self.offsets@[b] <= self.region_start(b)
                + self.layout.bucket_capacity_bytes);
        }
        assert forall|b: int| 0 <= b < other.layout.num_buckets implies #[trigger] other.written(
            b,
        ) % 32 == 0 by {
            assert(self.written(b) % 32 == 0);
        }
    }

    /// Region ends stay inside the file, and distinct regions never
    /// overlap.
    proof fn lemma_region_bounds(self, b: int)
        requires
            self.layout.valid(),
            0 <= b < self.layout.num_buckets,
        ensures
            0 <= self.region_start(b),
            self.region_start(b) + self.layout.bucket_capacity_bytes
                <= self.layout.total_file_bytes,
    {
        let cap = self.layout.bucket_capacity_bytes as int;
        lemma_mul_inequality(0, b, cap);
        lemma_mul_inequality(b + 1, self.layout.num_buckets as int, cap);
        assert((b + 1) * cap == b * cap + cap) by (nonlinear_arith);
        assert(self.layout.num_buckets as int * cap == self.layout.total_file_bytes) by {
            vstd::arithmetic::mul::lemma_mul_is_commutative(
                self.layout.num_buckets as int,
                cap,
            );
        }
    }

    /// Fresh image for an accepted layout: all zero bytes, every cursor at
    /// its region's start.
    pub fn new(layout: Layout) -> (v: Vault)
        requires
            layout.valid(),
            layout.total_file_bytes <= usize::MAX,
        ensures
            v.wf(),
            v.layout == layout,
            forall|b: int| 0 <= b < layout.num_buckets ==> #[trigger] v.written(b) == 0,
            !v.sorted,
    {
        let total = layout.total_file_bytes as usize;
        let data: Vec<u8> = vec![0u8; total];
        let mut offsets: Vec<u64> = Vec::new();
        let nb = layout.num_buckets;
        let mut b: u64 = 0;
        proof {
            lemma_mul_inequality(
                layout.num_buckets as int,
                layout.num_buckets as int,
                layout.bucket_capacity_bytes as int,
            );
        }
        while b < nb
            invariant
                b <= nb,
                nb == layout.num_buckets,
                layout.valid(),
                layout.total_file_bytes <= usize::MAX,
                offsets@.len() == b,
                forall|t: int|
                    0 <= t < b ==> #[trigger] offsets@[t] == t * layout.bucket_capacity_bytes,
            decreases nb - b,
        {
            proof {
                lemma_mul_inequality(
                    b as int + 1,
                    layout.num_buckets as int,
                    layout.bucket_capacity_bytes as int,
                );
                assert((b as int + 1) * layout.bucket_capacity_bytes == b
                    * layout.bucket_capacity_bytes + layout.bucket_capacity_bytes)
                    by (nonlinear_arith);
                assert(layout.num_buckets * layout.bucket_capacity_bytes
                    == layout.total_file_bytes) by {
                    vstd::arithmetic::mul::lemma_mul_is_commutative(
                        layout.num_buckets as int,
                        layout.bucket_capacity_bytes as int,
                    );
                }
            }
            offsets.push(b * layout.bucket_capacity_bytes);
            b = b + 1;
        }
        let v = Vault { layout, data, offsets, sorted: false };
        proof {
            assert forall|t: int| 0 <= t < layout.num_buckets implies #[trigger] v.written(t)
                == 0 by {
            }
            assert forall|t: int, i: int|
                0 <= t < v.layout.num_buckets && 0 <= i < v.record_count(t) implies prefix_of(
                #[trigger] v.digest_at(t, i),
                v.layout.prefix_bits as nat,
            ) == t by {
            }
        }
        v
    }
}

/// A position inside one bucket's region lies inside no other's.
proof fn lemma_bucket_ranges_disjoint(cap: int, b1: int, b2: int, j: int)
    requires
        cap >= 0,
        b1 != b2,
        b1 * cap <= j < b1 * cap + cap,
    ensures
        !(b2 * cap <= j < b2 * cap + cap),
{
    if b1 < b2 {
        lemma_mul_inequality(b1 + 1, b2, cap);
        assert((b1 + 1) * cap == b1 * cap + cap) by (nonlinear_arith);
    } else {
        lemma_mul_inequality(b2 + 1, b1, cap);
        assert((b2 + 1) * cap == b2 * cap + cap) by (nonlinear_arith);
    }
}

/// Some pair among the first `t` carries key `b`.
pub open spec fn has_key(pairs: Seq<(u64, Vec<Record>)>, t: int, b: int) -> bool {
    exists|s: int| 0 <= s < t && (#[trigger] pairs[s]).0 == b
}

impl Vault {
    /// Drain one cycle's buffered map to the image: for each buffered
    /// bucket, write its records at the bucket's cursor and advance the
    /// cursor by exactly the bytes written.
    ///
    /// Buckets the map does not name keep their cursor; no byte below any
    /// bucket's old cursor or beyond its new cursor changes.
    pub fn flush_to_disk(&mut self, map: &BucketMap)
        requires
            old(self).wf(),
            forall|k: u64|
                bucket_map_view(*map).dom().contains(k) ==> k < old(self).layout.num_buckets,
            forall|k: u64, i: int|
                bucket_map_view(*map).dom().contains(k) && 0 <= i < bucket_map_view(*map)[k].len()
                    ==> prefix_of(
                    (#[trigger] bucket_map_view(*map)[k][i]).hash@,
                    old(self).layout.prefix_bits as nat,
                ) == k,
            forall|k: u64|
                bucket_map_view(*map).dom().contains(k) ==> old(self).written(k as int) + 32
                    * bucket_map_view(*map)[k].len() <= old(self).layout.bucket_capacity_bytes,
        ensures
            final(self).wf(),
            final(self).layout == old(self).layout,
            final(self).data@.len() == old(self).data@.len(),
            !final(self).sorted,
            forall|k: u64|
                bucket_map_view(*map).dom().contains(k) ==> #[trigger] final(self).written(k as int)
                    == old(self).written(k as int) + 32 * bucket_map_view(*map)[k].len(),
            forall|b: int|
                0 <= b < final(self).layout.num_buckets && !bucket_map_view(*map).dom().contains(b as u64)
                    ==> #[trigger] final(self).offsets@[b] == old(self).offsets@[b],
            forall|k: u64, i: int|
                bucket_map_view(*map).dom().contains(k) && 0 <= i < bucket_map_view(*map)[k].len()
                    ==> final(self).chunk_at(k as int, old(self).record_count(k as int) + i)
                    == (#[trigger] bucket_map_view(*map)[k][i]).spec_bytes(),
            forall|b: int, j: int|
                #![trigger final(self).data@[j], old(self).offsets@[b]]
                0 <= b < final(self).layout.num_buckets && final(self).region_start(b) <= j < old(self).offsets@[b] ==> final(self).data@[j] == old(self).data@[j],
            forall|b: int, j: int|
                #![trigger final(self).data@[j], final(self).offsets@[b]]
                0 <= b < final(self).layout.num_buckets && final(self).offsets@[b] <= j < final(self).region_start(b) + final(self).layout.bucket_capacity_bytes ==> final(self).data@[j] == old(self).data@[j],
    {
        let ghost orig = *self;
        let ghost view = bucket_map_view(*map);
        self.sorted = false;
        proof {
            assert forall|b: int| 0 <= b < orig.layout.num_buckets implies #[trigger] self.written(
                b,
            ) % 32 == 0 by {
                assert(orig.written(b) % 32 == 0);
            }
        }
        let pairs = bucket_map_collect(map);
        let m = pairs.len();
        let mut t: usize = 0;
        while t < m
            invariant
                t <= m,
                m == pairs@.len(),
                orig.wf(),
                view == bucket_map_view(*map),
                self.layout == orig.layout,
                self.data@.len() == orig.data@.len(),
                self.offsets@.len() == orig.offsets@.len(),
                !self.sorted,
                // what collect promised
                forall|i: int|
                    0 <= i < pairs@.len() ==> {
                        &&& view.dom().contains((#[trigger] pairs@[i]).0)
                        &&& pairs@[i].1@ == view[pairs@[i].0]
                    },
                forall|i: int, j: int|
                    0 <= i < j < pairs@.len() ==> (#[trigger] pairs@[i]).0 != (
                    #[trigger] pairs@[j]).0,
                // what the caller promised
                forall|k: u64| view.dom().contains(k) ==> k < orig.layout.num_buckets,
                forall|k: u64, i: int|
                    view.dom().contains(k) && 0 <= i < view[k].len() ==> prefix_of(
                        (#[trigger] view[k][i]).hash@,
                        orig.layout.prefix_bits as nat,
                    ) == k,
                forall|k: u64|
                    view.dom().contains(k) ==> orig.written(k as int) + 32 * view[k].len()
                        <= orig.layout.bucket_capacity_bytes,
                // processed pairs: cursor advanced, records in place
                forall|s: int|
                    0 <= s < t ==> #[trigger] self.offsets@[pairs@[s].0 as int] == orig.offsets@[
                        pairs@[s].0 as int] + 32 * view[pairs@[s].0].len(),
                forall|s: int, i: int|
                    0 <= s < t && 0 <= i < view[pairs@[s].0].len() ==> self.chunk_at(
                        (#[trigger] pairs@[s]).0 as int,
                        orig.record_count(pairs@[s].0 as int) + i,
                    ) == (#[trigger] view[pairs@[s].0][i]).spec_bytes(),
                // untouched buckets keep their cursor
                forall|b: int|
                    0 <= b < orig.layout.num_buckets && !has_key(pairs@, t as int, b)
                        ==> #[trigger] self.offsets@[b] == orig.offsets@[b],
                // bytes outside the advanced spans never move
                forall|b: int, j: int|
                    #![trigger self.data@[j], orig.offsets@[b]]
                    0 <= b < orig.layout.num_buckets && orig.region_start(b) <= j
                        < orig.offsets@[b] ==> self.data@[j] == orig.data@[j],
                forall|b: int, j: int|
                    #![trigger self.data@[j], self.offsets@[b]]
                    0 <= b < orig.layout.num_buckets && self.offsets@[b] <= j < orig.region_start(
                        b,
                    ) + orig.layout.bucket_capacity_bytes ==> self.data@[j] == orig.data@[j],
                // cursors stay inside their regions, in whole records
                forall|b: int|
                    0 <= b < orig.layout.num_buckets ==> orig.offsets@[b]
                        <= #[trigger] self.offsets@[b] <= orig.region_start(b)
                        + orig.layout.bucket_capacity_bytes,
                forall|b: int|
                    0 <= b < orig.layout.num_buckets ==> #[trigger] self.written(b) % 32 == 0,
            decreases m - t,
        {
            let k = pairs[t].0;
            let ghost kk = k as int;
            proof {
                assert(view.dom().contains(k));
                assert(pairs@[t as int].1@ == view[k]);
                assert(!has_key(pairs@, t as int, kk)) by {
                    if has_key(pairs@, t as int, kk) {
                        let s = choose|s: int|
                            0 <= s < t && (#[trigger] pairs@[s]).0 == kk;
                        assert(pairs@[s].0 != pairs@[t as int].0);
                    }
                }
                assert(self.offsets@[kk] == orig.offsets@[kk]);
                orig.lemma_region_bounds(kk);
                assert(orig.written(kk) % 32 == 0);
                vstd::arithmetic::div_mod::lemma_fundamental_div_mod(orig.written(kk), 32);
                assert(orig.layout.num_buckets <= orig.layout.total_file_bytes)
                    by (nonlinear_arith)
                    requires
                        orig.layout.total_file_bytes == orig.layout.bucket_capacity_bytes
                            * orig.layout.num_buckets,
                        orig.layout.bucket_capacity_bytes == orig.layout.flush_batch_bytes
                            * orig.layout.flush_count,
                        orig.layout.flush_batch_bytes >= 32,
                        orig.layout.flush_count >= 1,
                        orig.layout.num_buckets >= 1,
                {
                }
                assert(kk == k as usize as int);
            }
            let recs: &Vec<Record> = &pairs[t].1;
            let off = self.offsets[k as usize];
            let count = recs.len();
            proof {
                assert(recs@ == view[k]);
                assert(count == view[k].len());
                assert(off == orig.offsets@[kk]);
                assert(orig.written(kk) + 32 * view[k].len()
                    <= orig.layout.bucket_capacity_bytes);
                assert(off + 32 * count <= orig.region_start(kk)
                    + orig.layout.bucket_capacity_bytes);
            }
            let ghost pre = *self;
            write_records_at(&mut self.data, off as usize, recs);
            self.offsets.set(k as usize, off + 32 * (count as u64));
            proof {
                let cap = orig.layout.bucket_capacity_bytes as int;
                let span_lo = off as int;
                let span_hi = off + 32 * count;
                assert(span_lo == pre.offsets@[kk] && span_lo == orig.offsets@[kk]);
                assert(self.offsets@ == pre.offsets@.update(
                    kk,
                    (off + 32 * (count as u64)) as u64,
                ));
                // record spans written this round sit inside bucket k's
                // region, so every other region is untouched
                assert forall|b: int, j: int|
                    #![trigger self.data@[j], orig.offsets@[b]]
                    0 <= b < orig.layout.num_buckets && orig.region_start(b) <= j
                        < orig.offsets@[b] implies self.data@[j] == orig.data@[j] by {
                    orig.lemma_region_bounds(b);
                    if b == kk {
                        assert(!(span_lo <= j < span_hi));
                    } else {
                        lemma_bucket_ranges_disjoint(cap, b, kk, j);
                    }
                    assert(self.data@[j] == pre.data@[j]);
                }
                assert forall|b: int, j: int|
                    #![trigger self.data@[j], self.offsets@[b]]
                    0 <= b < orig.layout.num_buckets && self.offsets@[b] <= j
                        < orig.region_start(b) + orig.layout.bucket_capacity_bytes
                    implies self.data@[j] == orig.data@[j] by {
                    orig.lemma_region_bounds(b);
                    if b == kk {
                        assert(j >= span_hi);
                        assert(!(span_lo <= j < span_hi));
                        assert(pre.data@[j] == orig.data@[j]) by {
                            assert(pre.offsets@[kk] <= j);
                        }
                    } else {
                        lemma_bucket_ranges_disjoint(cap, b, kk, j);
                        assert(self.offsets@[b] == pre.offsets@[b]);
                        assert(pre.data@[j] == orig.data@[j]);
                    }
                    assert(self.data@[j] == pre.data@[j]);
                }
                // chunks of earlier pairs survive; this pair's chunks are
                // the records just written
                assert forall|s: int, i: int|
                    0 <= s < t + 1 && 0 <= i < view[pairs@[s].0].len() implies self.chunk_at(
                    (#[trigger] pairs@[s]).0 as int,
                    orig.record_count(pairs@[s].0 as int) + i,
                ) == (#[trigger] view[pairs@[s].0][i]).spec_bytes() by {
                    let b = pairs@[s].0 as int;
                    let base = orig.record_count(b);
                    orig.lemma_region_bounds(b);
                    vstd::arithmetic::div_mod::lemma_fundamental_div_mod(orig.written(b), 32);
                    if s < t {
                        assert(b != kk) by {
                            assert(pairs@[s].0 != pairs@[t as int].0);
                        }
                        assert forall|j: int|
                            orig.region_start(b) + 32 * (base + i) <= j < orig.region_start(b)
                                + 32 * (base + i) + 32 implies self.data@[j] == pre.data@[j] by {
                            lemma_bucket_ranges_disjoint(cap, b, kk, j);
                        }
                        assert(self.chunk_at(b, base + i) =~= pre.chunk_at(b, base + i));
                    } else {
                        assert(b == kk);
                        assert(self.chunk_at(b, base + i) =~= recs@[i].spec_bytes());
                    }
                }
                // bucket k's cursor moved by whole records and stayed in
                // range; every other cursor is untouched
                assert forall|b: int| 0 <= b < orig.layout.num_buckets implies #[trigger] self
                    .written(b) % 32 == 0 by {
                    if b == kk {
                        assert(self.written(kk) == orig.written(kk) + 32 * count);
                        vstd::arithmetic::div_mod::lemma_mod_multiples_vanish(
                            count as int,
                            orig.written(kk),
                            32,
                        );
                    } else {
                        assert(self.written(b) == pre.written(b));
                    }
                }
            }
            t = t + 1;
        }
        proof {
            let ghost nv = *self;
            assert forall|k: u64| view.dom().contains(k) implies #[trigger] nv.written(k as int)
                == orig.written(k as int) + 32 * view[k].len() by {
                assert(crate::bucket_map::pairs_key_set(pairs@).contains(k));
                let s = choose|s: int|
                    0 <= s < pairs@.len() && (#[trigger] pairs@[s]).0 == k;
                assert(nv.offsets@[k as int] == orig.offsets@[k as int] + 32 * view[k].len());
            }
            assert forall|b: int|
                0 <= b < nv.layout.num_buckets && !view.dom().contains(b as u64)
                implies #[trigger] nv.offsets@[b] == orig.offsets@[b] by {
                assert(!crate::bucket_map::pairs_key_set(pairs@).contains(b as u64));
                assert(!has_key(pairs@, m as int, b));
            }
            assert forall|k: u64, i: int|
                view.dom().contains(k) && 0 <= i < view[k].len() implies nv.chunk_at(
                k as int,
                orig.record_count(k as int) + i,
            ) == (#[trigger] view[k][i]).spec_bytes() by {
                assert(crate::bucket_map::pairs_key_set(pairs@).contains(k));
                let s = choose|s: int|
                    0 <= s < pairs@.len() && (#[trigger] pairs@[s]).0 == k;
                assert(nv.chunk_at(k as int, orig.record_count(k as int) + i) == view[pairs@[s].0][
                    i].spec_bytes());
            }
            // well-formedness: every chunk, old or new, routes to its bucket
            assert forall|b: int, i: int|
                0 <= b < nv.layout.num_buckets && 0 <= i < nv.record_count(b) implies prefix_of(
                #[trigger] nv.digest_at(b, i),
                nv.layout.prefix_bits as nat,
            ) == b by {
                orig.lemma_region_bounds(b);
                vstd::arithmetic::div_mod::lemma_fundamental_div_mod(orig.written(b), 32);
                vstd::arithmetic::div_mod::lemma_fundamental_div_mod(nv.written(b), 32);
                if i < orig.record_count(b) {
                    assert(nv.digest_at(b, i) =~= orig.digest_at(b, i));
                } else {
                    assert(nv.offsets@[b] != orig.offsets@[b]);
                    assert(has_key(pairs@, m as int, b)) by {
                        if !has_key(pairs@, m as int, b) {
                            assert(nv.offsets@[b] == orig.offsets@[b]);
                        }
                    }
                    let s = choose|s: int|
                        0 <= s < m && (#[trigger] pairs@[s]).0 == b;
                    let k = pairs@[s].0;
                    let idx = i - orig.record_count(b);
                    assert(0 <= idx < view[k].len());
                    assert(nv.chunk_at(b, i) == view[k][idx].spec_bytes());
                    assert(nv.digest_at(b, i) =~= view[k][idx].hash@) by {
                        assert(nv.chunk_at(b, i).subrange(6, 32) =~= view[k][idx].hash@);
                        assert(nv.digest_at(b, i) =~= nv.chunk_at(b, i).subrange(6, 32));
                    }
                }
            }
        }
    }
}

impl Vault {
    /// Run the whole generation phase from a fresh image: `flush_count`
    /// cycles of hash, buffer and flush, each cycle admitting at most one
    /// flush batch per bucket, so no bucket region can ever overflow.
    ///
    /// Deterministic: each bucket's written byte count equals the outcome
    /// of the per-cycle admission fold over the digest of each nonce, and
    /// every chunk on the image is the generated record of a nonce the
    /// build consumed — both stated below as functions of the layout and
    /// the starting nonce alone.
    pub fn generate_and_flush(&mut self, start_nonce: u64)
        requires
            old(self).wf(),
            forall|b: int|
                0 <= b < old(self).layout.num_buckets ==> #[trigger] old(self).written(b) == 0,
        ensures
            final(self).wf(),
            final(self).layout == old(self).layout,
            !final(self).sorted,
            forall|b: int|
                0 <= b < final(self).layout.num_buckets ==> #[trigger] final(self).written(b) == 32
                    * crate::partitioner::spec_build_count(
                    old(self).layout,
                    start_nonce,
                    old(self).layout.flush_count as nat,
                    b,
                ),
            forall|b: int, i: int|
                0 <= b < final(self).layout.num_buckets && 0 <= i < final(self).record_count(b)
                    ==> crate::generator::chunk_generated_in_range(
                    #[trigger] final(self).chunk_at(b, i),
                    start_nonce,
                    crate::partitioner::spec_build_start(
                        old(self).layout,
                        start_nonce,
                        old(self).layout.flush_count as nat,
                    ),
                ),
    {
        proof {
            let l = old(self).layout;
            assert(l.num_buckets <= l.total_file_bytes && l.bucket_capacity_bytes >= 32)
                by (nonlinear_arith)
                requires
                    l.total_file_bytes == l.bucket_capacity_bytes * l.num_buckets,
                    l.bucket_capacity_bytes == l.flush_batch_bytes * l.flush_count,
                    l.flush_batch_bytes >= 32,
                    l.flush_count >= 1,
                    l.num_buckets >= 1,
            {
            }
        }
        let mut map: BucketMap = crate::bucket_map::bucket_map_new(
            self.layout.num_buckets as usize,
        );
        let fc = self.layout.flush_count;
        let batch = self.layout.flush_batch_bytes;
        let cap = self.layout.cycle_cap_records();
        // a generous attempt budget per cycle: several full batches' worth
        // of hashes before a cycle is allowed to end short
        let per_cycle_target: u64;
        if cap > u64::MAX / self.layout.num_buckets {
            per_cycle_target = u64::MAX;
        } else {
            proof {
                crate::arith::lemma_le_div_iff_mul_le(
                    cap as int,
                    u64::MAX as int,
                    self.layout.num_buckets as int,
                );
            }
            per_cycle_target = cap * self.layout.num_buckets;
        }
        let attempts: u64;
        if per_cycle_target > u64::MAX / 8 {
            attempts = u64::MAX;
        } else {
            proof {
                crate::arith::lemma_le_div_iff_mul_le(per_cycle_target as int, u64::MAX as int, 8);
            }
            attempts = 8 * per_cycle_target;
        }
        proof {
            assert(attempts == crate::partitioner::spec_attempt_budget(self.layout));
        }
        let mut nonce = start_nonce;
        let mut cycle: u64 = 0;
        while cycle < fc
            invariant
                self.wf(),
                self.layout == old(self).layout,
                fc == self.layout.flush_count,
                batch == self.layout.flush_batch_bytes,
                cycle <= fc,
                cycle > 0 ==> !self.sorted,
                crate::bucket_map::bucket_map_is_empty(map),
                attempts == crate::partitioner::spec_attempt_budget(self.layout),
                start_nonce <= nonce,
                nonce == crate::partitioner::spec_build_start(
                    self.layout,
                    start_nonce,
                    cycle as nat,
                ),
                forall|b: int|
                    0 <= b < self.layout.num_buckets ==> #[trigger] self.written(b) <= cycle
                        * batch,
                forall|b: int|
                    0 <= b < self.layout.num_buckets ==> #[trigger] self.written(b) == 32
                        * crate::partitioner::spec_build_count(
                        self.layout,
                        start_nonce,
                        cycle as nat,
                        b,
                    ),
                forall|b: int, i: int|
                    0 <= b < self.layout.num_buckets && 0 <= i < self.record_count(b)
                        ==> crate::generator::chunk_generated_in_range(
                        #[trigger] self.chunk_at(b, i),
                        start_nonce,
                        nonce,
                    ),
            decreases fc - cycle,
        {
            let ghost nc = nonce;
            nonce = crate::partitioner::fill_cycle(&mut map, &self.layout, nonce, attempts);
            let ghost steps = crate::partitioner::spec_cycle_steps(self.layout, nc, attempts);
            let ghost view = bucket_map_view(map);
            let ghost pre = *self;
            proof {
                crate::arith::lemma_div_mul_le(batch as int, 32);
                assert forall|k: u64| view.dom().contains(k) implies pre.written(k as int) + 32
                    * view[k].len() <= pre.layout.bucket_capacity_bytes by {
                    assert(view[k].len() <= self.layout.spec_cycle_cap_records());
                    assert(32 * view[k].len() <= batch);
                    assert(pre.written(k as int) <= cycle * batch);
                    lemma_mul_inequality(cycle as int + 1, fc as int, batch as int);
                    assert((cycle as int + 1) * batch == cycle * batch + batch)
                        by (nonlinear_arith);
                    assert(fc * batch == pre.layout.bucket_capacity_bytes) by {
                        vstd::arithmetic::mul::lemma_mul_is_commutative(
                            fc as int,
                            batch as int,
                        );
                    }
                }
            }
            self.flush_to_disk(&map);
            crate::bucket_map::bucket_map_clear(&mut map);
            proof {
                assert forall|b: int|
                    0 <= b < self.layout.num_buckets implies #[trigger] self.written(b) <= (
                cycle + 1) * batch by {
                    assert((cycle as int + 1) * batch == cycle * batch + batch)
                        by (nonlinear_arith);
                    assert(pre.written(b) <= cycle * batch);
                    if view.dom().contains(b as u64) {
                        assert(b == b as u64 as int);
                        assert(self.written(b) == pre.written(b) + 32 * view[b as u64].len());
                        assert(32 * view[b as u64].len() <= batch) by {
                            assert(view[b as u64].len()
                                <= self.layout.spec_cycle_cap_records());
                            crate::arith::lemma_div_mul_le(batch as int, 32);
                        }
                    } else {
                        assert(self.offsets@[b] == pre.offsets@[b]);
                    }
                }
                // the cursors land exactly where the admission fold says
                let l = self.layout;
                crate::partitioner::lemma_cycle_steps_bound(l, nc, attempts);
                assert(nonce == crate::partitioner::spec_build_start(
                    l,
                    start_nonce,
                    cycle as nat + 1,
                ));
                assert forall|b: int|
                    0 <= b < l.num_buckets implies #[trigger] self.written(b) == 32
                    * crate::partitioner::spec_build_count(
                    l,
                    start_nonce,
                    cycle as nat + 1,
                    b,
                ) by {
                    assert(crate::bucket_map::view_count(view, b)
                        == crate::partitioner::spec_cycle_count(l, nc, steps, b));
                    if view.dom().contains(b as u64) {
                        assert(b == b as u64 as int);
                        assert(self.written(b) == pre.written(b) + 32 * view[b as u64].len());
                        assert(crate::bucket_map::view_count(view, b) == view[b as u64].len());
                    } else {
                        assert(self.offsets@[b] == pre.offsets@[b]);
                        assert(crate::bucket_map::view_count(view, b) == 0);
                    }
                }
                // every chunk on the image is a generated record of a
                // nonce this build has consumed
                assert forall|b: int, i: int|
                    0 <= b < l.num_buckets && 0 <= i < self.record_count(b)
                    implies crate::generator::chunk_generated_in_range(
                    #[trigger] self.chunk_at(b, i),
                    start_nonce,
                    nonce,
                ) by {
                    pre.lemma_region_bounds(b);
                    vstd::arithmetic::div_mod::lemma_fundamental_div_mod(pre.written(b), 32);
                    vstd::arithmetic::div_mod::lemma_fundamental_div_mod(self.written(b), 32);
                    if i < pre.record_count(b) {
                        assert(self.chunk_at(b, i) =~= pre.chunk_at(b, i)) by {
                            assert forall|j: int|
                                pre.region_start(b) + 32 * i <= j < pre.region_start(b) + 32 * i
                                    + 32 implies self.data@[j] == pre.data@[j] by {
                                assert(pre.region_start(b) <= j < pre.offsets@[b]);
                            }
                        }
                        assert(crate::generator::chunk_generated_in_range(
                            pre.chunk_at(b, i),
                            start_nonce,
                            nc,
                        ));
                        let n = choose|n: u64|
                            start_nonce <= n < nc && pre.chunk_at(b, i)
                                == #[trigger] crate::generator::spec_record_bytes(n);
                        assert(start_nonce <= n < nonce && self.chunk_at(b, i)
                            == crate::generator::spec_record_bytes(n));
                    } else {
                        // this chunk arrived in this cycle's flush
                        assert(view.dom().contains(b as u64)) by {
                            if !view.dom().contains(b as u64) {
                                assert(self.offsets@[b] == pre.offsets@[b]);
                            }
                        }
                        let k = b as u64;
                        assert(self.written(b) == pre.written(b) + 32 * view[k].len());
                        assert(self.record_count(b) == pre.record_count(b) + view[k].len());
                        let i2 = i - pre.record_count(b);
                        assert(0 <= i2 < view[k].len());
                        assert(self.chunk_at(b, pre.record_count(b) + i2) == view[k][
                            i2].spec_bytes());
                        assert(crate::generator::generated_in_range(view[k][i2], nc, nonce));
                        let n = choose|n: u64|
                            nc <= n < nonce && #[trigger] crate::generator::is_generated(
                                view[k][i2],
                                n,
                            );
                        assert(view[k][i2].spec_bytes()
                            =~= crate::generator::spec_record_bytes(n));
                        assert(start_nonce <= n < nonce && self.chunk_at(b, i)
                            == crate::generator::spec_record_bytes(n));
                    }
                }
            }
            cycle = cycle + 1;
        }
    }
}

impl Vault {
    /// The records currently written into bucket `b`, in file order.
    pub fn bucket_records(&self, b: u64) -> (recs: Vec<Record>)
        requires
            self.wf_core(),
            b < self.layout.num_buckets,
        ensures
            recs@.len() == self.record_count(b as int),
            forall|i: int|
                0 <= i < recs@.len() ==> (#[trigger] recs@[i]).spec_bytes() == self.chunk_at(
                    b as int,
                    i,
                ),
    {
        proof {
            self.lemma_region_bounds(b as int);
            let l = self.layout;
            assert(l.num_buckets <= l.total_file_bytes && l.bucket_capacity_bytes >= 32)
                by (nonlinear_arith)
                requires
                    l.total_file_bytes == l.bucket_capacity_bytes * l.num_buckets,
                    l.bucket_capacity_bytes == l.flush_batch_bytes * l.flush_count,
                    l.flush_batch_bytes >= 32,
                    l.flush_count >= 1,
                    l.num_buckets >= 1,
            {
            }
            vstd::arithmetic::div_mod::lemma_fundamental_div_mod(self.written(b as int), 32);
        }
        let start: u64 = b * self.layout.bucket_capacity_bytes;
        let cursor: u64 = self.offsets[b as usize];
        let count: u64 = (cursor - start) / 32;
        let mut recs: Vec<Record> = Vec::new();
        let mut i: u64 = 0;
        while i < count
            invariant
                i <= count,
                self.wf_core(),
                b < self.layout.num_buckets,
                start == self.region_start(b as int),
                start + 32 * count <= self.offsets@[b as int],
                self.region_start(b as int) + self.layout.bucket_capacity_bytes
                    <= self.layout.total_file_bytes,
                count == self.record_count(b as int),
                recs@.len() == i,
                forall|t: int|
                    0 <= t < i ==> (#[trigger] recs@[t]).spec_bytes() == self.chunk_at(
                        b as int,
                        t,
                    ),
            decreases count - i,
        {
            let rec = Record::from_bytes(&self.data, (start + 32 * i) as usize);
            proof {
                assert(rec.spec_bytes() =~= self.chunk_at(b as int, i as int));
            }
            recs.push(rec);
            i = i + 1;
        }
        recs
    }

    /// Sort every bucket's written records in place, by digest.
    ///
    /// Buckets are independent; each one ends non-decreasing in digest and
    /// holds exactly the records it held before, while cursors and all
    /// bytes beyond them stay untouched.
    pub fn sort_all_buckets(&mut self)
        requires
            old(self).wf(),
        ensures
            final(self).wf(),
            final(self).layout == old(self).layout,
            final(self).offsets@ == old(self).offsets@,
            final(self).sorted,
            forall|b: int|
                0 <= b < final(self).layout.num_buckets ==> #[trigger] final(self).bucket_sorted(
                    b,
                ),
            forall|b: int|
                0 <= b < final(self).layout.num_buckets ==> #[trigger] final(self).bucket_chunks(
                    b,
                ).to_multiset() == old(self).bucket_chunks(b).to_multiset(),
            final(self).file_sorted(),
            forall|b: int|
                0 <= b < final(self).layout.num_buckets ==> #[trigger] final(self).tail_unchanged(
                    *old(self),
                    b,
                ),
    {
        let ghost orig = *self;
        self.sorted = false;
        proof {
            orig.lemma_wf_core_same(*self);
        }
        let nb = self.layout.num_buckets;
        let mut b: u64 = 0;
        while b < nb
            invariant
                b <= nb,
                orig.wf(),
                nb == orig.layout.num_buckets,
                self.wf_core(),
                !self.sorted,
                self.layout == orig.layout,
                self.offsets@ == orig.offsets@,
                self.data@.len() == orig.data@.len(),
                forall|t: int| 0 <= t < b ==> #[trigger] self.bucket_sorted(t),
                forall|t: int|
                    0 <= t < b ==> #[trigger] self.bucket_chunks(t).to_multiset()
                        == orig.bucket_chunks(t).to_multiset(),
                forall|t: int| b <= t < nb ==> #[trigger] self.region_unchanged(orig, t),
                forall|t: int| 0 <= t < nb ==> #[trigger] self.tail_unchanged(orig, t),
            decreases nb - b,
        {
            let bb = b;
            let ghost t0 = bb as int;
            proof {
                orig.lemma_region_bounds(t0);
                vstd::arithmetic::div_mod::lemma_fundamental_div_mod(orig.written(t0), 32);
            }
            let recs0v = self.bucket_records(bb);
            let mut recs = recs0v;
            let ghost recs0 = recs@;
            crate::sorter::sort_records(&mut recs);
            let start: u64 = bb * self.layout.bucket_capacity_bytes;
            let ghost pre = *self;
            proof {
                assert(start + 32 * recs@.len() <= self.data@.len());
            }
            write_records_at(&mut self.data, start as usize, &recs);
            proof {
                let cap = orig.layout.bucket_capacity_bytes as int;
                let cnt = orig.record_count(t0);
                let span_lo = start as int;
                let fbytes = |r: Record| r.spec_bytes();
                pre.lemma_wf_core_same(*self);
                assert(cnt == pre.record_count(t0) && cnt == self.record_count(t0));
                // this bucket now holds the sorted records
                assert forall|i: int| 0 <= i < cnt implies #[trigger] self.chunk_at(t0, i)
                    == recs@[i].spec_bytes() by {
                    assert(self.data@.subrange(span_lo + 32 * i, span_lo + 32 * i + 32)
                        == recs@[i].spec_bytes());
                    assert(self.chunk_at(t0, i) =~= self.data@.subrange(
                        span_lo + 32 * i,
                        span_lo + 32 * i + 32,
                    ));
                }
                // every other region is untouched by this write
                assert forall|t: int|
                    0 <= t < nb && t != t0 implies #[trigger] self.region_unchanged(pre, t) by {
                    assert forall|j: int|
                        pre.region_start(t) <= j < pre.region_start(t)
                            + pre.layout.bucket_capacity_bytes implies #[trigger] self.data@[j]
                        == pre.data@[j] by {
                        orig.lemma_region_bounds(t);
                        lemma_bucket_ranges_disjoint(cap, t, t0, j);
                    }
                }
                // before the write, this bucket held the extracted records,
                // byte for byte as they stood on the image
                assert(pre.bucket_chunks(t0) =~= recs0.map_values(fbytes));
                assert(pre.bucket_chunks(t0) =~= orig.bucket_chunks(t0)) by {
                    assert(pre.region_unchanged(orig, t0));
                    assert forall|i: int|
                        0 <= i < cnt implies #[trigger] pre.chunk_at(t0, i) =~= orig.chunk_at(
                        t0,
                        i,
                    ) by {
                    }
                }
                assert(self.bucket_chunks(t0) =~= recs@.map_values(fbytes));
                crate::sorter::lemma_map_values_multiset(recs@, recs0, fbytes);
                assert(self.bucket_chunks(t0).to_multiset() == orig.bucket_chunks(
                    t0,
                ).to_multiset());
                // buckets already processed keep their bytes
                assert forall|t: int|
                    0 <= t < b implies #[trigger] self.bucket_chunks(t).to_multiset()
                    == orig.bucket_chunks(t).to_multiset() by {
                    assert(self.region_unchanged(pre, t));
                    orig.lemma_region_bounds(t);
                    vstd::arithmetic::div_mod::lemma_fundamental_div_mod(orig.written(t), 32);
                    assert(self.bucket_chunks(t) =~= pre.bucket_chunks(t)) by {
                        assert forall|i: int|
                            0 <= i < pre.record_count(t) implies #[trigger] self.chunk_at(t, i)
                            =~= pre.chunk_at(t, i) by {
                        }
                    }
                }
                assert forall|t: int| 0 <= t < b implies #[trigger] self.bucket_sorted(t) by {
                    assert(self.region_unchanged(pre, t));
                    orig.lemma_region_bounds(t);
                    vstd::arithmetic::div_mod::lemma_fundamental_div_mod(orig.written(t), 32);
                    assert(pre.bucket_sorted(t));
                    assert forall|i: int, j: int|
                        0 <= i < j < self.record_count(t) implies lex_le(
                        #[trigger] self.digest_at(t, i),
                        #[trigger] self.digest_at(t, j),
                    ) by {
                        assert(self.digest_at(t, i) =~= pre.digest_at(t, i));
                        assert(self.digest_at(t, j) =~= pre.digest_at(t, j));
                        assert(lex_le(pre.digest_at(t, i), pre.digest_at(t, j)));
                    }
                }
                // the sorted bucket is sorted on the image too
                assert forall|i: int, j: int|
                    0 <= i < j < self.record_count(t0) implies lex_le(
                    #[trigger] self.digest_at(t0, i),
                    #[trigger] self.digest_at(t0, j),
                ) by {
                    assert(crate::order::record_le(recs@[i], recs@[j]));
                    assert(self.digest_at(t0, i) =~= recs@[i].hash@) by {
                        assert(self.chunk_at(t0, i).subrange(6, 32) =~= recs@[i].hash@);
                        assert(self.digest_at(t0, i) =~= self.chunk_at(t0, i).subrange(6, 32));
                    }
                    assert(self.digest_at(t0, j) =~= recs@[j].hash@) by {
                        assert(self.chunk_at(t0, j).subrange(6, 32) =~= recs@[j].hash@);
                        assert(self.digest_at(t0, j) =~= self.chunk_at(t0, j).subrange(6, 32));
                    }
                }
                assert(self.bucket_sorted(t0));
                // untouched buckets keep the bytes they had on entry
                assert forall|t: int|
                    b + 1 <= t < nb implies #[trigger] self.region_unchanged(orig, t) by {
                    assert(self.region_unchanged(pre, t));
                    assert(pre.region_unchanged(orig, t));
                    assert forall|j: int|
                        orig.region_start(t) <= j < orig.region_start(t)
                            + orig.layout.bucket_capacity_bytes implies #[trigger] self.data@[j]
                        == orig.data@[j] by {
                        assert(self.data@[j] == pre.data@[j]);
                        assert(pre.data@[j] == orig.data@[j]);
                    }
                }
                // beyond every cursor, nothing moved: this write ends at
                // bucket t0's own cursor
                assert forall|t: int|
                    0 <= t < nb implies #[trigger] self.tail_unchanged(orig, t) by {
                    assert(pre.tail_unchanged(orig, t));
                    orig.lemma_region_bounds(t);
                    assert forall|j: int|
                        orig.offsets@[t] <= j < orig.region_start(t)
                            + orig.layout.bucket_capacity_bytes implies #[trigger] self.data@[j]
                        == orig.data@[j] by {
                        if t == t0 {
                            assert(span_lo + 32 * cnt == orig.offsets@[t0]);
                            assert(!(span_lo <= j < span_lo + 32 * cnt));
                        } else {
                            lemma_bucket_ranges_disjoint(cap, t, t0, j);
                        }
                        assert(self.data@[j] == pre.data@[j]);
                        assert(pre.data@[j] == orig.data@[j]);
                    }
                }
            }
            b = b + 1;
        }
        let ghost done = *self;
        self.sorted = true;
        proof {
            done.lemma_wf_core_same(*self);
            assert forall|t: int| 0 <= t < self.layout.num_buckets implies #[trigger] self
                .bucket_sorted(t) by {
                assert(t < nb);
                assert(done.bucket_sorted(t));
                assert forall|i: int, j: int|
                    0 <= i < j < self.record_count(t) implies lex_le(
                    #[trigger] self.digest_at(t, i),
                    #[trigger] self.digest_at(t, j),
                ) by {
                    assert(self.digest_at(t, i) =~= done.digest_at(t, i));
                    assert(self.digest_at(t, j) =~= done.digest_at(t, j));
                    assert(lex_le(done.digest_at(t, i), done.digest_at(t, j)));
                }
            }
            assert forall|t: int|
                0 <= t < self.layout.num_buckets implies #[trigger] self.bucket_chunks(
                t,
            ).to_multiset() == orig.bucket_chunks(t).to_multiset() by {
                assert(done.bucket_chunks(t).to_multiset() == orig.bucket_chunks(
                    t,
                ).to_multiset());
                assert(self.bucket_chunks(t) =~= done.bucket_chunks(t));
            }
            // routing: each sorted bucket is a permutation of the records it
            // held before, whose digests all route to it
            assert forall|t: int, i: int|
                0 <= t < self.layout.num_buckets && 0 <= i < self.record_count(t)
                implies prefix_of(
                #[trigger] self.digest_at(t, i),
                self.layout.prefix_bits as nat,
            ) == t by {
                let sc = self.bucket_chunks(t);
                let oc = orig.bucket_chunks(t);
                sc.to_multiset_ensures();
                oc.to_multiset_ensures();
                orig.lemma_region_bounds(t);
                vstd::arithmetic::div_mod::lemma_fundamental_div_mod(orig.written(t), 32);
                assert(orig.record_count(t) == self.record_count(t));
                assert(sc.contains(sc[i])) by {
                    assert(sc[i] == sc[i]);
                }
                assert(oc.to_multiset().count(sc[i]) > 0);
                assert(oc.contains(sc[i]));
                let j = choose|j: int| 0 <= j < oc.len() && oc[j] == sc[i];
                assert(orig.chunk_at(t, j) == self.chunk_at(t, i));
                assert(prefix_of(orig.digest_at(t, j), orig.layout.prefix_bits as nat) == t);
                assert(self.digest_at(t, i) =~= self.chunk_at(t, i).subrange(6, 32));
                assert(orig.digest_at(t, j) =~= orig.chunk_at(t, j).subrange(6, 32));
            }
            self.lemma_sorted_buckets_imply_file_sorted();
            assert forall|t: int|
                0 <= t < self.layout.num_buckets implies #[trigger] self.tail_unchanged(
                orig,
                t,
            ) by {
                assert(done.tail_unchanged(orig, t));
                assert forall|j: int|
                    orig.offsets@[t] <= j < orig.region_start(t)
                        + orig.layout.bucket_capacity_bytes implies #[trigger] self.data@[j]
                    == orig.data@[j] by {
                    assert(done.data@[j] == orig.data@[j]);
                }
            }
        }
    }
}

impl Vault {
    /// Records in buckets before `b`: the file position where bucket `b`'s
    /// records begin, counted in records.
    pub open spec fn count_upto(self, b: int) -> int
        decreases b,
    {
        if b <= 0 {
            0
        } else {
            self.count_upto(b - 1) + self.record_count(b - 1)
        }
    }

    /// Total records written across all buckets.
    pub open spec fn total_records(self) -> int {
        self.count_upto(self.layout.num_buckets as int)
    }

    /// Every written record is in order: bucket by bucket, and by digest
    /// inside each bucket, the whole file is non-decreasing in digest.
    pub open spec fn file_sorted(self) -> bool {
        forall|b1: int, i1: int, b2: int, i2: int|
            #![trigger self.digest_at(b1, i1), self.digest_at(b2, i2)]
            0 <= b1 < self.layout.num_buckets && 0 <= i1 < self.record_count(b1) && 0 <= b2
                < self.layout.num_buckets && 0 <= i2 < self.record_count(b2) && (b1 < b2 || (b1
                == b2 && i1 < i2)) ==> lex_le(self.digest_at(b1, i1), self.digest_at(b2, i2))
    }

    /// Global position `p` of `recs` holds bucket `b`'s record `i`.
    pub open spec fn position_matches(self, recs: Seq<Record>, p: int, b: int, i: int) -> bool {
        &&& 0 <= b < self.layout.num_buckets
        &&& 0 <= i < self.record_count(b)
        &&& 0 <= p < recs.len()
        &&& p == self.count_upto(b) + i
        &&& recs[p].spec_bytes() == self.chunk_at(b, i)
    }

    /// Some bucket record sits at global position `p` of `recs`.
    pub open spec fn some_position_matches(self, recs: Seq<Record>, p: int) -> bool {
        exists|b: int, i: int| #[trigger] self.position_matches(recs, p, b, i)
    }

    /// Written record counts are non-negative.
    proof fn lemma_record_count_nonneg(self, b: int)
        requires
            self.wf_core(),
            0 <= b < self.layout.num_buckets,
        ensures
            self.record_count(b) >= 0,
            32 * self.record_count(b) == self.written(b),
    {
        vstd::arithmetic::div_mod::lemma_fundamental_div_mod(self.written(b), 32);
    }

    /// `count_upto` only grows with the bucket index.
    proof fn lemma_count_upto_mono(self, b1: int, b2: int)
        requires
            self.wf_core(),
            0 <= b1 <= b2 <= self.layout.num_buckets,
        ensures
            self.count_upto(b1) <= self.count_upto(b2),
        decreases b2 - b1,
    {
        if b1 < b2 {
            self.lemma_record_count_nonneg(b2 - 1);
            self.lemma_count_upto_mono(b1, b2 - 1);
        }
    }

    /// File order of (bucket, index) positions matches the order of their
    /// global record positions.
    proof fn lemma_position_order(self, b1: int, i1: int, b2: int, i2: int)
        requires
            self.wf_core(),
            0 <= b1 < self.layout.num_buckets,
            0 <= i1 < self.record_count(b1),
            0 <= b2 < self.layout.num_buckets,
            0 <= i2 < self.record_count(b2),
            b1 < b2 || (b1 == b2 && i1 < i2),
        ensures
            self.count_upto(b1) + i1 < self.count_upto(b2) + i2,
    {
        if b1 < b2 {
            assert(self.count_upto(b1 + 1) == self.count_upto(b1) + self.record_count(b1));
            self.lemma_count_upto_mono(b1 + 1, b2);
        }
    }

    /// After the sort phase the whole image is ordered by digest: buckets
    /// are disjoint digest-prefix ranges in ascending order, and each one
    /// is internally sorted.
    pub proof fn lemma_sorted_buckets_imply_file_sorted(self)
        requires
            self.wf(),
            forall|b: int|
                0 <= b < self.layout.num_buckets ==> #[trigger] self.bucket_sorted(b),
        ensures
            self.file_sorted(),
    {
        let bits = self.layout.prefix_bits as nat;
        assert forall|b1: int, i1: int, b2: int, i2: int|
            #![trigger self.digest_at(b1, i1), self.digest_at(b2, i2)]
            0 <= b1 < self.layout.num_buckets && 0 <= i1 < self.record_count(b1) && 0 <= b2
                < self.layout.num_buckets && 0 <= i2 < self.record_count(b2) && (b1 < b2 || (b1
                == b2 && i1 < i2)) implies lex_le(
            self.digest_at(b1, i1),
            self.digest_at(b2, i2),
        ) by {
            let d1 = self.digest_at(b1, i1);
            let d2 = self.digest_at(b2, i2);
            self.lemma_region_bounds(b1);
            self.lemma_region_bounds(b2);
            self.lemma_record_count_nonneg(b1);
            self.lemma_record_count_nonneg(b2);
            assert(d1.len() == 26 && d2.len() == 26);
            if b1 == b2 {
                assert(self.bucket_sorted(b1));
            } else {
                assert(prefix_of(d1, bits) == b1 && prefix_of(d2, bits) == b2);
                crate::order::lemma_lex_le_total(d1, d2);
                if !lex_le(d1, d2) {
                    crate::prefix::lemma_prefix_of_mono(d2, d1, bits);
                    assert(false);
                }
            }
        }
    }

    /// All written records of the image, in file order: bucket by bucket,
    /// each bucket's records in place order.
    pub fn all_records(&self) -> (recs: Vec<Record>)
        requires
            self.wf_core(),
        ensures
            recs@.len() == self.total_records(),
            forall|b: int, i: int|
                0 <= b < self.layout.num_buckets && 0 <= i < self.record_count(b)
                    ==> #[trigger] self.position_matches(recs@, self.count_upto(b) + i, b, i),
            forall|p: int|
                0 <= p < recs@.len() ==> #[trigger] self.some_position_matches(recs@, p),
    {
        let nb = self.layout.num_buckets;
        let mut recs: Vec<Record> = Vec::new();
        let mut b: u64 = 0;
        while b < nb
            invariant
                b <= nb,
                nb == self.layout.num_buckets,
                self.wf_core(),
                recs@.len() == self.count_upto(b as int),
                forall|t: int, i: int|
                    0 <= t < b && 0 <= i < self.record_count(t)
                        ==> #[trigger] self.position_matches(recs@, self.count_upto(t) + i, t, i),
                forall|p: int|
                    0 <= p < recs@.len() ==> #[trigger] self.some_position_matches(recs@, p),
            decreases nb - b,
        {
            let ghost old_recs = recs@;
            let ghost t0 = b as int;
            let mut bucket = self.bucket_records(b);
            let ghost bseq = bucket@;
            proof {
                self.lemma_record_count_nonneg(t0);
            }
            recs.append(&mut bucket);
            proof {
                assert(recs@ == old_recs + bseq);
                assert(recs@.len() == self.count_upto(t0 + 1));
                assert forall|t: int, i: int|
                    0 <= t < b + 1 && 0 <= i < self.record_count(t)
                    implies #[trigger] self.position_matches(
                    recs@,
                    self.count_upto(t) + i,
                    t,
                    i,
                ) by {
                    self.lemma_record_count_nonneg(t);
                    self.lemma_count_upto_mono(0, t);
                    let p = self.count_upto(t) + i;
                    if t < t0 {
                        assert(self.count_upto(t + 1) == self.count_upto(t)
                            + self.record_count(t));
                        self.lemma_count_upto_mono(t + 1, t0);
                        assert(p < self.count_upto(t0));
                        assert(self.position_matches(old_recs, p, t, i));
                        assert(recs@[p] == old_recs[p]);
                    } else {
                        assert(t == t0);
                        assert(recs@[p] == bseq[i]);
                    }
                }
                assert forall|p: int|
                    0 <= p < recs@.len() implies #[trigger] self.some_position_matches(
                    recs@,
                    p,
                ) by {
                    self.lemma_record_count_nonneg(t0);
                    if p < old_recs.len() {
                        assert(self.some_position_matches(old_recs, p));
                        let (t, i) = choose|t: int, i: int|
                            #[trigger] self.position_matches(old_recs, p, t, i);
                        assert(recs@[p] == old_recs[p]);
                        assert(self.position_matches(recs@, p, t, i));
                    } else {
                        let i = p - old_recs.len();
                        assert(recs@[p] == bseq[i]);
                        assert(self.position_matches(recs@, p, t0, i));
                    }
                }
            }
            b = b + 1;
        }
        recs
    }
}

impl Vault {
    /// The extracted record sequence is sorted exactly when the image is.
    proof fn lemma_records_order_equiv(self, recs: Seq<Record>)
        requires
            self.wf_core(),
            recs.len() == self.total_records(),
            forall|b: int, i: int|
                0 <= b < self.layout.num_buckets && 0 <= i < self.record_count(b)
                    ==> #[trigger] self.position_matches(recs, self.count_upto(b) + i, b, i),
            forall|p: int|
                0 <= p < recs.len() ==> #[trigger] self.some_position_matches(recs, p),
        ensures
            crate::order::sorted_by_digest(recs) <==> self.file_sorted(),
    {
        if self.file_sorted() {
            assert forall|p1: int, p2: int| 0 <= p1 < p2 < recs.len() implies crate::order::record_le(
                #[trigger] recs[p1],
                #[trigger] recs[p2],
            ) by {
                assert(self.some_position_matches(recs, p1));
                assert(self.some_position_matches(recs, p2));
                let (b1, i1) = choose|b: int, i: int|
                    #[trigger] self.position_matches(recs, p1, b, i);
                let (b2, i2) = choose|b: int, i: int|
                    #[trigger] self.position_matches(recs, p2, b, i);
                self.lemma_region_bounds(b1);
                self.lemma_region_bounds(b2);
                self.lemma_record_count_nonneg(b1);
                self.lemma_record_count_nonneg(b2);
                if b1 > b2 || (b1 == b2 && i1 > i2) {
                    self.lemma_position_order(b2, i2, b1, i1);
                    assert(false);
                }
                if b1 == b2 && i1 == i2 {
                    assert(false);
                }
                assert(recs[p1].hash@ == self.digest_at(b1, i1)) by {
                    assert(recs[p1].spec_bytes().subrange(6, 32) =~= recs[p1].hash@);
                    assert(self.chunk_at(b1, i1).subrange(6, 32) =~= self.digest_at(b1, i1));
                }
                assert(recs[p2].hash@ == self.digest_at(b2, i2)) by {
                    assert(recs[p2].spec_bytes().subrange(6, 32) =~= recs[p2].hash@);
                    assert(self.chunk_at(b2, i2).subrange(6, 32) =~= self.digest_at(b2, i2));
                }
                assert(lex_le(self.digest_at(b1, i1), self.digest_at(b2, i2)));
            }
        }
        if crate::order::sorted_by_digest(recs) {
            assert forall|b1: int, i1: int, b2: int, i2: int|
                #![trigger self.digest_at(b1, i1), self.digest_at(b2, i2)]
                0 <= b1 < self.layout.num_buckets && 0 <= i1 < self.record_count(b1) && 0 <= b2
                    < self.layout.num_buckets && 0 <= i2 < self.record_count(b2) && (b1 < b2 || (
                b1 == b2 && i1 < i2)) implies lex_le(
                self.digest_at(b1, i1),
                self.digest_at(b2, i2),
            ) by {
                self.lemma_region_bounds(b1);
                self.lemma_region_bounds(b2);
                self.lemma_record_count_nonneg(b1);
                self.lemma_record_count_nonneg(b2);
                self.lemma_position_order(b1, i1, b2, i2);
                let p1 = self.count_upto(b1) + i1;
                let p2 = self.count_upto(b2) + i2;
                assert(self.position_matches(recs, p1, b1, i1));
                assert(self.position_matches(recs, p2, b2, i2));
                assert(crate::order::record_le(recs[p1], recs[p2]));
                assert(recs[p1].hash@ == self.digest_at(b1, i1)) by {
                    assert(recs[p1].spec_bytes().subrange(6, 32) =~= recs[p1].hash@);
                    assert(self.chunk_at(b1, i1).subrange(6, 32) =~= self.digest_at(b1, i1));
                }
                assert(recs[p2].hash@ == self.digest_at(b2, i2)) by {
                    assert(recs[p2].spec_bytes().subrange(6, 32) =~= recs[p2].hash@);
                    assert(self.chunk_at(b2, i2).subrange(6, 32) =~= self.digest_at(b2, i2));
                }
            }
        }
    }

    /// Verify the finished image: succeeds exactly when every written
    /// record is in global digest order and the full record count of the
    /// layout is present. Any defect is fatal to this pass.
    pub fn verify_sorted(&self) -> (r: Result<(), VaultError>)
        requires
            self.wf(),
        ensures
            r is Ok <==> (self.file_sorted() && self.total_records() == self.layout.num_records),
    {
        let recs = self.all_records();
        proof {
            self.lemma_records_order_equiv(recs@);
        }
        crate::verify::verify_records_sorted(&recs, self.layout.num_records)
    }
}

/// The result of a lookup carries a record with exactly these 32 bytes.
pub open spec fn result_has_chunk(out: Seq<Record>, chunk: Seq<u8>) -> bool {
    exists|t: int| 0 <= t < out.len() && (#[trigger] out[t]).spec_bytes() == chunk
}

impl Vault {
    /// Some written record of the image has exactly these 32 bytes.
    pub open spec fn image_has_chunk(self, chunk: Seq<u8>) -> bool {
        exists|b: int, i: int|
            0 <= b < self.layout.num_buckets && 0 <= i < self.record_count(b)
                && #[trigger] self.chunk_at(b, i) == chunk
    }
}

impl Vault {
    /// All records on the sorted image whose digest begins with the
    /// queried hex prefix.
    ///
    /// Sound and exact: a record whose digest the query truly prefixes is
    /// returned, every returned record matches the query, and a query that
    /// matches nothing — or is not lowercase hex — returns the empty set.
    pub fn lookup(&self, prefix: &str) -> (out: Vec<Record>)
        requires
            self.wf(),
            self.sorted,
        ensures
            forall|b: int, i: int|
                #![trigger self.digest_at(b, i)]
                0 <= b < self.layout.num_buckets && 0 <= i < self.record_count(b)
                    && crate::lookup::all_hex(prefix.spec_bytes()) && prefix.spec_bytes().len()
                    <= 52 && crate::lookup::digest_matches(
                    self.digest_at(b, i),
                    crate::lookup::hex_vals(prefix.spec_bytes()),
                ) ==> result_has_chunk(out@, self.chunk_at(b, i)),
            forall|t: int|
                0 <= t < out@.len() ==> crate::lookup::digest_matches(
                    (#[trigger] out@[t]).hash@,
                    crate::lookup::hex_vals(prefix.spec_bytes()),
                ),
            forall|t: int|
                0 <= t < out@.len() ==> self.image_has_chunk((#[trigger] out@[t]).spec_bytes()),
            !(crate::lookup::all_hex(prefix.spec_bytes()) && prefix.spec_bytes().len() <= 52)
                ==> out@ == Seq::<Record>::empty(),
    {
        let recs = self.all_records();
        proof {
            self.lemma_sorted_buckets_imply_file_sorted();
            self.lemma_records_order_equiv(recs@);
        }
        let out = crate::lookup::lookup_by_prefix(&recs, prefix);
        proof {
            let q = crate::lookup::hex_vals(prefix.spec_bytes());
            let hexok = crate::lookup::all_hex(prefix.spec_bytes()) && prefix.spec_bytes().len()
                <= 52;
            let pred = |r: Record|
                crate::lookup::digest_matches(
                    r.hash@,
                    crate::lookup::hex_vals(prefix.spec_bytes()),
                );
            if hexok {
                assert(out@ == recs@.filter(pred));
                assert forall|t: int|
                    0 <= t < out@.len() implies crate::lookup::digest_matches(
                    (#[trigger] out@[t]).hash@,
                    q,
                ) by {
                    recs@.lemma_filter_pred(pred, t);
                }
                assert forall|t: int|
                    0 <= t < out@.len() implies self.image_has_chunk(
                    (#[trigger] out@[t]).spec_bytes(),
                ) by {
                    crate::lookup::lemma_filter_element_of(recs@, pred, t);
                    let p = choose|p: int|
                        0 <= p < recs@.len() && (#[trigger] recs@[p]) == recs@.filter(pred)[t];
                    assert(self.some_position_matches(recs@, p));
                    let (b, i) = choose|b: int, i: int|
                        #[trigger] self.position_matches(recs@, p, b, i);
                    assert(self.chunk_at(b, i) == out@[t].spec_bytes());
                }
                assert forall|b: int, i: int|
                    #![trigger self.digest_at(b, i)]
                    0 <= b < self.layout.num_buckets && 0 <= i < self.record_count(b)
                        && crate::lookup::digest_matches(self.digest_at(b, i), q)
                    implies result_has_chunk(out@, self.chunk_at(b, i)) by {
                    self.lemma_region_bounds(b);
                    self.lemma_record_count_nonneg(b);
                    self.lemma_count_upto_mono(0, b);
                    let p = self.count_upto(b) + i;
                    assert(self.position_matches(recs@, p, b, i));
                    assert(recs@[p].hash@ == self.digest_at(b, i)) by {
                        assert(recs@[p].spec_bytes().subrange(6, 32) =~= recs@[p].hash@);
                        assert(self.chunk_at(b, i).subrange(6, 32) =~= self.digest_at(b, i));
                    }
                    assert(pred(recs@[p]));
                    assert(out@.contains(recs@[p]));
                    let t = choose|t: int| 0 <= t < out@.len() && out@[t] == recs@[p];
                    assert((out@[t]).spec_bytes() == self.chunk_at(b, i));
                }
            }
        }
        out
    }
}

/// Write each record's 32 raw bytes into `data`, one after another, at
/// `off`; nothing outside that span changes.
fn write_records_at(data: &mut Vec<u8>, off: usize, records: &Vec<Record>)
    requires
        off + 32 * records@.len() <= old(data)@.len(),
    ensures
        final(data)@.len() == old(data)@.len(),
        forall|i: int|
            0 <= i < records@.len() ==> final(data)@.subrange(off + 32 * i, off + 32 * i + 32)
                == (#[trigger] records@[i]).spec_bytes(),
        forall|j: int|
            0 <= j < old(data)@.len() && !(off <= j < off + 32 * records@.len())
                ==> final(data)@[j] == old(data)@[j],
{
    let n = records.len();
    let total = data.len();
    let mut i: usize = 0;
    while i < n
        invariant
            i <= n,
            n == records@.len(),
            total == data@.len(),
            off + 32 * n <= total,
            data@.len() == old(data)@.len(),
            forall|t: int|
                0 <= t < i ==> data@.subrange(off + 32 * t, off + 32 * t + 32)
                    == (#[trigger] records@[t]).spec_bytes(),
            forall|j: int|
                0 <= j < old(data)@.len() && !(off <= j < off + 32 * i) ==> data@[j] == old(
                    data,
                )@[j],
        decreases n - i,
    {
        let bytes = records[i].to_bytes();
        let ghost before = data@;
        let mut k: usize = 0;
        while k < 32
            invariant
                k <= 32,
                i < n,
                n == records@.len(),
                total == data@.len(),
                off + 32 * n <= total,
                before.len() == data@.len(),
                bytes@ == records@[i as int].spec_bytes(),
                bytes@.len() == 32,
                forall|j: int|
                    0 <= j < data@.len() && !(off + 32 * i <= j < off + 32 * i + k) ==> data@[j]
                        == before[j],
                forall|j: int|
                    0 <= j < k ==> data@[off + 32 * i + j] == bytes@[j],
            decreases 32 - k,
        {
            data.set(off + 32 * i + k, bytes[k]);
            k = k + 1;
        }
        proof {
            assert forall|t: int|
                0 <= t < i + 1 implies data@.subrange(off + 32 * t, off + 32 * t + 32)
                == (#[trigger] records@[t]).spec_bytes() by {
                if t < i {
                    assert(before.subrange(off + 32 * t, off + 32 * t + 32) == records@[t]
                        .spec_bytes());
                    assert(data@.subrange(off + 32 * t, off + 32 * t + 32) =~= before.subrange(
                        off + 32 * t,
                        off + 32 * t + 32,
                    ));
                } else {
                    assert(data@.subrange(off + 32 * t, off + 32 * t + 32) =~= bytes@);
                }
            }
        }
        i = i + 1;
    }
}

} // verus!
