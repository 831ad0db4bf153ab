use vault76::{plan, VaultError};

fn is_power_of_two(x: u64) -> bool {
    x != 0 && (x & (x - 1)) == 0
}

#[test]
fn plan_accepts_basic_build() {
    let layout = plan(65536, 0, 2147483648, 1).expect("a valid layout exists");
    assert_eq!(layout.prefix_bits, 6);
    assert_eq!(layout.num_buckets, 64);
    assert_eq!(layout.num_records, 65536);
    assert_eq!(layout.total_file_bytes, 65536 * 32);
}

#[test]
fn plan_invariants_hold_on_acceptance() {
    for &(records, memory, threads) in &[
        (65536u64, 2147483648u64, 1u64),
        (65536, 1048576, 1),
        (1048576, 4194304, 4),
        (1 << 22, 1 << 24, 8),
    ] {
        let layout = match plan(records, 0, memory, threads) {
            Ok(l) => l,
            Err(_) => continue,
        };
        assert!(is_power_of_two(layout.num_buckets));
        assert!(layout.num_buckets >= 64);
        assert_eq!(
            layout.bucket_capacity_bytes * layout.num_buckets,
            layout.total_file_bytes
        );
        assert!(layout.bucket_capacity_bytes * threads <= memory);
        assert_eq!(
            layout.sort_memory_bytes,
            layout.bucket_capacity_bytes * threads
        );
        assert!(layout.sort_memory_bytes <= memory);
        assert_eq!(layout.num_buckets, 1u64 << layout.prefix_bits);
        assert_eq!(
            layout.bucket_capacity_bytes,
            layout.flush_batch_bytes * layout.flush_count
        );
        assert_eq!(layout.num_records, layout.total_file_bytes / 32);
    }
}

#[test]
fn plan_is_idempotent() {
    let a = plan(65536, 0, 2147483648, 4);
    let b = plan(65536, 0, 2147483648, 4);
    assert_eq!(a, b);
    let c = plan(1048576, 0, 1 << 22, 2);
    let d = plan(1048576, 0, 1 << 22, 2);
    assert_eq!(c, d);
}

#[test]
fn plan_rejects_budget_below_bucket_floor() {
    // a budget below 64 buckets x record size x threads admits no layout
    let threads = 4;
    let too_small = 64 * 32 * threads - 1;
    assert_eq!(
        plan(65536, 0, too_small, threads),
        Err(VaultError::Configuration)
    );
    assert_eq!(plan(65536, 0, 0, 1), Err(VaultError::Configuration));
}

#[test]
fn plan_rejects_empty_request() {
    assert_eq!(plan(0, 0, 2147483648, 1), Err(VaultError::Configuration));
}

#[test]
fn plan_with_explicit_file_size() {
    let layout = plan(0, 65536 * 32, 2147483648, 1).expect("a valid layout exists");
    assert_eq!(layout.total_file_bytes, 65536 * 32);
    assert_eq!(layout.num_records, 65536);
}

#[test]
fn plan_two_flush_cycles_under_tight_memory() {
    let layout = plan(65536, 0, 1048576, 1).expect("a valid layout exists");
    assert_eq!(layout.flush_count, 2);
    assert_eq!(layout.num_records, 65536);
    assert_eq!(
        layout.bucket_capacity_bytes,
        layout.flush_batch_bytes * layout.flush_count
    );
}
