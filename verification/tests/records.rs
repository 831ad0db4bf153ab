use vault76::{extract_prefix, generate_hash, hash_to_string, nonce_to_decimal, Record};

#[test]
fn generate_hash_uses_the_real_digest() {
    let nonce: u64 = 123456789;
    let nonce_bytes = nonce.to_be_bytes();
    let expected = blake3::hash(&nonce_bytes[2..8]);
    let (_, rec) = generate_hash(nonce, 6);
    assert_eq!(&rec.nonce, &nonce_bytes[2..8]);
    assert_eq!(&rec.hash, &expected.as_bytes()[0..26]);
}

#[test]
fn generate_hash_prefix_matches_digest_bits() {
    let nonce: u64 = 42;
    let nonce_bytes = nonce.to_be_bytes();
    let digest = blake3::hash(&nonce_bytes[2..8]);
    let d = digest.as_bytes();
    // 10 leading bits, spelled out by hand
    let expected = ((d[0] as u64) << 2) | ((d[1] >> 6) as u64);
    let (prefix, _) = generate_hash(nonce, 10);
    assert_eq!(prefix, expected);
    // 6 leading bits
    let (prefix6, _) = generate_hash(nonce, 6);
    assert_eq!(prefix6, (d[0] >> 2) as u64);
}

#[test]
fn prefix_recomputed_from_stored_digest_round_trips() {
    for nonce in [0u64, 1, 77, 123456789, u64::MAX] {
        for bits in [1usize, 6, 8, 10, 13, 16, 48, 56, 63] {
            let (prefix, rec) = generate_hash(nonce, bits);
            assert_eq!(extract_prefix(&rec.hash, bits), prefix);
        }
    }
}

#[test]
fn extract_prefix_known_values() {
    let d = [0xB0u8, 0x17, 0xFF, 0x00];
    assert_eq!(extract_prefix(&d, 4), 0xB);
    assert_eq!(extract_prefix(&d, 8), 0xB0);
    assert_eq!(extract_prefix(&d, 12), 0xB01);
    assert_eq!(extract_prefix(&d, 16), 0xB017);
    assert_eq!(extract_prefix(&d, 1), 1);
    assert_eq!(extract_prefix(&d, 3), 0b101);
}

#[test]
fn nonce_to_decimal_reads_big_endian() {
    let nonce: u64 = 0x0123456789AB;
    let (_, rec) = generate_hash(nonce, 6);
    assert_eq!(nonce_to_decimal(&rec.nonce), nonce);
    // only the low six bytes survive
    let big: u64 = 0xFF_0123456789AB;
    let (_, rec2) = generate_hash(big, 6);
    assert_eq!(nonce_to_decimal(&rec2.nonce), big % (1 << 48));
}

#[test]
fn hash_to_string_renders_lowercase_hex() {
    let mut hash = [0u8; 26];
    hash[0] = 0x00;
    hash[1] = 0xFF;
    hash[2] = 0x1A;
    hash[3] = 0x0B;
    let rendered = hash_to_string(&hash);
    let expected: String = hash.iter().map(|b| format!("{:02x}", b)).collect();
    assert_eq!(rendered, expected);
    assert!(rendered.starts_with("00ff1a0b"));
    assert_eq!(rendered.len(), 52);
}

#[test]
fn record_bytes_round_trip() {
    let (_, rec) = generate_hash(987654321, 6);
    let bytes = rec.to_bytes();
    assert_eq!(bytes.len(), 32);
    assert_eq!(&bytes[0..6], &rec.nonce);
    assert_eq!(&bytes[6..32], &rec.hash);
    let back = Record::from_bytes(&bytes, 0);
    assert_eq!(back.nonce, rec.nonce);
    assert_eq!(back.hash, rec.hash);
}
