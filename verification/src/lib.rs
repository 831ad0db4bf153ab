//! An external-memory store for fixed-size (nonce, digest) records.
//!
//! Records are generated from a keyless cryptographic hash, partitioned by
//! digest prefix into disk-resident buckets under a memory budget, sorted
//! bucket by bucket so the whole file becomes globally ordered by digest,
//! and then served through prefix lookups against the sorted image.
//!
//! The planner derives the layout, the partitioner fills a shared bucket
//! map cycle by cycle, the flusher drains it to the file image at each
//! bucket's cursor, the sorter orders every bucket in place, and lookups
//! binary-search the finished image.

pub mod arith;
pub mod bucket_map;
pub mod digest;
pub mod error;
pub mod generator;
pub mod layout;
pub mod lookup;
pub mod order;
pub mod partitioner;
pub mod pow;
pub mod prefix;
pub mod progress_tracker;
pub mod record;
pub mod sorter;
pub mod vault;
pub mod verify;

pub use error::VaultError;
pub use generator::generate_hash;
pub use layout::{plan, Layout};
pub use lookup::lookup_by_prefix;
pub use prefix::extract_prefix;
pub use progress_tracker::{ProgressTracker, Stage};
pub use record::{hash_to_string, nonce_to_decimal, Record};
pub use sorter::sort_records;
pub use vault::Vault;
pub use verify::verify_records_sorted;
