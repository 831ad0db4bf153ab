use vault76::{ProgressTracker, Stage};

#[test]
fn tracker_counts_and_caps_at_total() {
    let mut t = ProgressTracker::new(100, 4, 2000);
    assert_eq!(t.records_processed, 0);
    assert_eq!(t.current_stage, Stage::Start);
    t.update_records_processed(60);
    assert_eq!(t.records_processed, 60);
    assert_eq!(t.stage_records_processed, 60);
    t.update_records_processed(60);
    // the overall count never passes the total; the stage count keeps going
    assert_eq!(t.records_processed, 100);
    assert_eq!(t.stage_records_processed, 120);
}

#[test]
fn tracker_sort_stage_resets_stage_count() {
    let mut t = ProgressTracker::new(1000, 4, 2000);
    t.set_stage(Stage::HashGen);
    t.update_records_processed(500);
    assert_eq!(t.stage_records_processed, 500);
    t.set_stage(Stage::Sorting);
    assert_eq!(t.current_stage, Stage::Sorting);
    assert_eq!(t.stage_records_processed, 0);
    assert_eq!(t.records_processed, 500);
    t.set_stage(Stage::Syncing);
    assert_eq!(t.stage_records_processed, 0);
}

#[test]
fn tracker_flush_accounting() {
    let mut t = ProgressTracker::new(1000, 4, 2000);
    assert_eq!(t.expected_flushes, 4);
    t.increment_flushes(3);
    t.increment_flushes(1);
    assert_eq!(t.flushes_done, 4);
    t.set_expected_flushes(64);
    assert_eq!(t.expected_flushes, 64);
    assert_eq!(t.flushes_done, 4);
}
