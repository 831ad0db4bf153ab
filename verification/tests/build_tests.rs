use vault76::{
    generate_hash, hash_to_string, plan, verify_records_sorted, Record, Vault, VaultError,
};

#[test]
fn full_build_sixty_four_buckets() {
    // 64 buckets, 65536 records: generate, sort, and the verify pass holds
    let layout = plan(65536, 0, 2147483648, 1).expect("a valid layout exists");
    assert_eq!(layout.prefix_bits, 6);
    assert_eq!(layout.num_buckets, 64);
    let mut vault = Vault::new(layout);
    vault.generate_and_flush(1);
    vault.sort_all_buckets();
    assert!(vault.verify_sorted().is_ok());

    // the whole file is non-decreasing in digest
    let total = layout.total_file_bytes as usize;
    let mut prev: Option<Vec<u8>> = None;
    let mut count = 0u64;
    let mut pos = 0usize;
    while pos + 32 <= total {
        let digest = vault.data[pos + 6..pos + 32].to_vec();
        if let Some(p) = &prev {
            assert!(*p <= digest);
        }
        prev = Some(digest);
        count += 1;
        pos += 32;
    }
    assert_eq!(count, layout.num_records);
}

#[test]
fn built_vault_answers_prefix_lookups() {
    let layout = plan(65536, 0, 2147483648, 1).expect("a valid layout exists");
    let mut vault = Vault::new(layout);
    vault.generate_and_flush(1000);
    vault.sort_all_buckets();
    assert!(vault.verify_sorted().is_ok());

    // take a record straight off the image and look it up by its digest
    let probe = Record::from_bytes(&vault.data, 0);
    let hex = hash_to_string(&probe.hash);
    let query = &hex[0..8];
    let hits = vault.lookup(query);
    assert!(!hits.is_empty());
    assert!(hits.iter().any(|r| r.hash == probe.hash && r.nonce == probe.nonce));
    for hit in &hits {
        assert!(hash_to_string(&hit.hash).starts_with(query));
    }

    // a query that is not lowercase hex matches nothing
    assert!(vault.lookup("ZZ").is_empty());
}

#[test]
fn sequential_flushes_advance_disjoint_offsets() {
    // two flushes of disjoint bucket maps write to strictly increasing,
    // non-overlapping offsets; no byte moves except under the cursors
    let layout = plan(65536, 0, 1048576, 1).expect("a valid layout exists");
    assert!(layout.flush_count >= 2);
    let bits = layout.prefix_bits as usize;
    let cap = (layout.flush_batch_bytes / 32) as usize;
    let mut vault = Vault::new(layout);
    let start_offsets = vault.offsets.clone();

    let map1: dashmap::DashMap<u64, Vec<Record>> = dashmap::DashMap::new();
    let mut nonce = 1u64;
    for _ in 0..1000 {
        let (prefix, rec) = generate_hash(nonce, bits);
        nonce += 1;
        let mut bucket = map1.entry(prefix).or_default();
        if bucket.len() < cap {
            bucket.push(rec);
        }
    }
    vault.flush_to_disk(&map1);
    let mid_offsets = vault.offsets.clone();
    let image_after_first = vault.data.clone();

    let map2: dashmap::DashMap<u64, Vec<Record>> = dashmap::DashMap::new();
    for _ in 0..1000 {
        let (prefix, rec) = generate_hash(nonce, bits);
        nonce += 1;
        let mut bucket = map2.entry(prefix).or_default();
        if bucket.len() < cap {
            bucket.push(rec);
        }
    }
    vault.flush_to_disk(&map2);

    for b in 0..layout.num_buckets as usize {
        let region_start = b as u64 * layout.bucket_capacity_bytes;
        let region_end = region_start + layout.bucket_capacity_bytes;
        assert_eq!(start_offsets[b], region_start);
        assert!(start_offsets[b] <= mid_offsets[b]);
        assert!(mid_offsets[b] <= vault.offsets[b]);
        assert!(vault.offsets[b] <= region_end);
        assert_eq!((vault.offsets[b] - region_start) % 32, 0);
        // bytes the first flush wrote were not rewritten by the second
        for pos in region_start..mid_offsets[b] {
            assert_eq!(vault.data[pos as usize], image_after_first[pos as usize]);
        }
    }

    // the second flush touched buckets it named
    let advanced = (0..layout.num_buckets as usize)
        .filter(|&b| vault.offsets[b] > mid_offsets[b])
        .count();
    assert!(advanced > 0);
}

#[test]
fn verify_pass_on_record_sequences() {
    let mut records = Vec::new();
    for tag in 0..10u8 {
        let mut hash = [0u8; 26];
        hash[0] = tag * 10;
        records.push(Record {
            nonce: [0, 0, 0, 0, 0, tag],
            hash,
        });
    }
    assert!(verify_records_sorted(&records, 10).is_ok());
    assert_eq!(
        verify_records_sorted(&records, 9),
        Err(VaultError::Serialization)
    );
    records.swap(0, 9);
    assert_eq!(
        verify_records_sorted(&records, 10),
        Err(VaultError::Serialization)
    );
}

#[test]
fn unfinished_build_fails_verification() {
    // a vault that never generated anything has too few records
    let layout = plan(65536, 0, 2147483648, 1).expect("a valid layout exists");
    let vault = Vault::new(layout);
    assert_eq!(vault.verify_sorted(), Err(VaultError::Serialization));
}
