use vault76::{lookup_by_prefix, sort_records, Record};

fn rec_with_digest(tag: u8, first: &[u8]) -> Record {
    let mut hash = [0u8; 26];
    for (i, b) in first.iter().enumerate() {
        hash[i] = *b;
    }
    Record {
        nonce: [0, 0, 0, 0, 0, tag],
        hash,
    }
}

fn sample_records() -> Vec<Record> {
    // digests in ascending order
    vec![
        rec_with_digest(1, &[0x00, 0x11]),
        rec_with_digest(2, &[0x3A, 0x00]),
        rec_with_digest(3, &[0x3A, 0xFF]),
        rec_with_digest(4, &[0x3B, 0x01]),
        rec_with_digest(5, &[0xFF, 0xFF]),
    ]
}

#[test]
fn lookup_single_zero_prefix_record() {
    // exactly one record's digest starts with byte 0x00
    let records = sample_records();
    let hits = lookup_by_prefix(&records, "00");
    assert_eq!(hits.len(), 1);
    assert_eq!(hits[0].nonce[5], 1);
}

#[test]
fn lookup_returns_whole_matching_run() {
    let records = sample_records();
    let hits = lookup_by_prefix(&records, "3a");
    assert_eq!(hits.len(), 2);
    assert_eq!(hits[0].nonce[5], 2);
    assert_eq!(hits[1].nonce[5], 3);
}

#[test]
fn lookup_nibble_granular_prefix() {
    let records = sample_records();
    // "3" matches 0x3A, 0x3A and 0x3B
    let hits = lookup_by_prefix(&records, "3");
    assert_eq!(hits.len(), 3);
}

#[test]
fn lookup_absent_prefix_is_empty() {
    let records = sample_records();
    assert!(lookup_by_prefix(&records, "77").is_empty());
    assert!(lookup_by_prefix(&records, "fe").is_empty());
    assert!(lookup_by_prefix(&records, "0012").is_empty());
}

#[test]
fn lookup_rejects_non_hex_queries() {
    let records = sample_records();
    assert!(lookup_by_prefix(&records, "3A").is_empty());
    assert!(lookup_by_prefix(&records, "zz").is_empty());
    assert!(lookup_by_prefix(&records, "g").is_empty());
}

#[test]
fn lookup_boundary_hits() {
    let records = sample_records();
    // first and last record of the file
    let first = lookup_by_prefix(&records, "0011");
    assert_eq!(first.len(), 1);
    assert_eq!(first[0].nonce[5], 1);
    let last = lookup_by_prefix(&records, "ff");
    assert_eq!(last.len(), 1);
    assert_eq!(last[0].nonce[5], 5);
}

#[test]
fn lookup_empty_query_matches_everything() {
    let records = sample_records();
    let hits = lookup_by_prefix(&records, "");
    assert_eq!(hits.len(), records.len());
}

#[test]
fn sort_records_orders_by_digest_only() {
    let mut records = vec![
        rec_with_digest(9, &[0xFF]),
        rec_with_digest(8, &[0x00]),
        rec_with_digest(7, &[0x80]),
        rec_with_digest(6, &[0x00]),
    ];
    sort_records(&mut records);
    assert_eq!(records.len(), 4);
    for w in records.windows(2) {
        assert!(w[0].hash <= w[1].hash);
    }
    // both equal-digest records survive
    let zeros = records.iter().filter(|r| r.hash[0] == 0x00).count();
    assert_eq!(zeros, 2);
    assert_eq!(records[3].hash[0], 0xFF);
}
