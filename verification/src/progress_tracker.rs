//! Progress accounting over the build phases: the counters that workers
//! bump and a periodic reporter reads. Correctness of the build never
//! depends on it.
//!
//! The timing side — wall clocks, intervals, throughput figures — belongs
//! to the surrounding program; this holds the counted state it reads.

use vstd::prelude::*;

verus! {

/// The build stages a tracker reports.
#[derive(Clone, Copy, Debug, PartialEq, Eq, Structural)]
pub enum Stage {
    Start,
    HashGen,
    Sorting,
    Syncing,
}

/// Counters for one build run.
pub struct ProgressTracker {
    /// Records the whole build is expected to produce.
    pub total_records: u64,
    /// Records processed over the whole run, never beyond the total.
    pub records_processed: u64,
    /// Records processed since the current stage began.
    pub stage_records_processed: u64,
    /// Flushes the current phase is expected to perform.
    pub expected_flushes: u64,
    /// Flushes performed so far.
    pub flushes_done: u64,
    /// How often the reporter wants to run, in milliseconds.
    pub update_interval_millis: u64,
    /// The stage currently reported.
    pub current_stage: Stage,
}

impl ProgressTracker {
    /// A fresh tracker: nothing processed, at the start stage.
    pub fn new(total_records: u64, expected_flushes: u64, update_interval_millis: u64) -> (t:
        ProgressTracker)
        ensures
            t.total_records == total_records,
            t.expected_flushes == expected_flushes,
            t.update_interval_millis == update_interval_millis,
            t.records_processed == 0,
            t.stage_records_processed == 0,
            t.flushes_done == 0,
            t.current_stage == Stage::Start,
    {
        ProgressTracker {
            total_records,
            records_processed: 0,
            stage_records_processed: 0,
            expected_flushes,
            flushes_done: 0,
            update_interval_millis,
            current_stage: Stage::Start,
        }
    }

    /// Record `processed` more records: the overall count is capped at the
    /// expected total, the per-stage count saturates.
    pub fn update_records_processed(&mut self, processed: u64)
        ensures
            final(self).records_processed == if old(self).records_processed + processed <= old(
                self,
            ).total_records {
                old(self).records_processed + processed
            } else {
                old(self).total_records as int
            },
            final(self).stage_records_processed == if old(self).stage_records_processed
                + processed <= u64::MAX {
                old(self).stage_records_processed + processed
            } else {
                u64::MAX as int
            },
            final(self).total_records == old(self).total_records,
            final(self).expected_flushes == old(self).expected_flushes,
            final(self).flushes_done == old(self).flushes_done,
            final(self).current_stage == old(self).current_stage,
            final(self).update_interval_millis == old(self).update_interval_millis,
    {
        let bumped = self.records_processed.saturating_add(processed);
        self.records_processed = if bumped <= self.total_records {
            bumped
        } else {
            self.total_records
        };
        self.stage_records_processed = self.stage_records_processed.saturating_add(processed);
    }

    /// Enter a stage; the sort stage restarts the per-stage count.
    pub fn set_stage(&mut self, stage: Stage)
        ensures
            final(self).current_stage == stage,
            final(self).stage_records_processed == if stage == Stage::Sorting {
                0
            } else {
                old(self).stage_records_processed as int
            },
            final(self).records_processed == old(self).records_processed,
            final(self).total_records == old(self).total_records,
            final(self).expected_flushes == old(self).expected_flushes,
            final(self).flushes_done == old(self).flushes_done,
            final(self).update_interval_millis == old(self).update_interval_millis,
    {
        self.current_stage = stage;
        if matches!(stage, Stage::Sorting) {
            self.stage_records_processed = 0;
        }
    }

    /// Count `n` more completed flushes, saturating.
    pub fn increment_flushes(&mut self, n: u64)
        ensures
            final(self).flushes_done == if old(self).flushes_done + n <= u64::MAX {
                old(self).flushes_done + n
            } else {
                u64::MAX as int
            },
            final(self).total_records == old(self).total_records,
            final(self).records_processed == old(self).records_processed,
            final(self).stage_records_processed == old(self).stage_records_processed,
            final(self).expected_flushes == old(self).expected_flushes,
            final(self).current_stage == old(self).current_stage,
            final(self).update_interval_millis == old(self).update_interval_millis,
    {
        self.flushes_done = self.flushes_done.saturating_add(n);
    }

    /// A new phase begins with a new flush expectation.
    pub fn set_expected_flushes(&mut self, n: u64)
        ensures
            final(self).expected_flushes == n,
            final(self).total_records == old(self).total_records,
            final(self).records_processed == old(self).records_processed,
            final(self).stage_records_processed == old(self).stage_records_processed,
            final(self).flushes_done == old(self).flushes_done,
            final(self).current_stage == old(self).current_stage,
            final(self).update_interval_millis == old(self).update_interval_millis,
    {
        self.expected_flushes = n;
    }
}

} // verus!
