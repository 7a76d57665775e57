use rig_memory_policy::dedup::{
    compute_key, hex_decode, hex_encode, hex_encode_key, DedupSet, SimHash,
};

#[test]
fn distinct_inputs_produce_distinct_keys() {
    let a = compute_key("demoted_message", "c1", "user", None, "hello");
    let b = compute_key("demoted_message", "c1", "user", None, "hello world");
    let c = compute_key("compaction_summary", "c1", "user", None, "hello");
    let d = compute_key("demoted_message", "c2", "user", None, "hello");
    let e = compute_key("demoted_message", "c1", "assistant", None, "hello");
    let f = compute_key("demoted_message", "c1", "user", Some("s"), "hello");
    assert_ne!(a, b);
    assert_ne!(a, c);
    assert_ne!(a, d);
    assert_ne!(a, e);
    assert_ne!(a, f);
}

#[test]
fn identical_inputs_produce_identical_keys() {
    let a = compute_key("demoted_message", "c1", "user", None, "hello");
    let b = compute_key("demoted_message", "c1", "user", None, "hello");
    assert_eq!(a, b);
}

#[test]
fn boundary_collision_resistance() {
    // ("ab","c") vs ("a","bc") would collide under naive concatenation.
    let a = compute_key("ab", "c", "user", None, "");
    let b = compute_key("a", "bc", "user", None, "");
    assert_ne!(a, b);
}

#[test]
fn set_round_trips_via_snapshot() {
    let mut set = DedupSet::new();
    let k1 = compute_key("kind", "conv", "user", None, "one");
    let k2 = compute_key("kind", "conv", "user", None, "two");
    set.insert(k1).unwrap();
    set.insert(k2).unwrap();
    let snap = set.snapshot().unwrap();
    assert_eq!(snap.len(), 2);

    let mut restored = DedupSet::new();
    restored.extend_from_snapshot(&snap).unwrap();
    assert!(restored.contains(&k1).unwrap());
    assert!(restored.contains(&k2).unwrap());
}

#[test]
fn malformed_snapshot_entries_are_skipped() {
    let mut set = DedupSet::new();
    let good = compute_key("k", "c", "user", None, "x");
    let bad = "not-hex".to_string();
    let snap = vec![hex_encode(&good), bad];
    set.extend_from_snapshot(&snap).unwrap();
    assert_eq!(set.len().unwrap(), 1);
    assert!(set.contains(&good).unwrap());
}

#[test]
fn simhash_identical_text_has_zero_distance() {
    let a = SimHash::from_text("scheduled maintenance window tonight");
    let b = SimHash::from_text("scheduled maintenance window tonight");
    assert_eq!(a.hamming_distance(&b), 0);
}

#[test]
fn simhash_word_reorder_stays_close() {
    let a = SimHash::from_text("the scheduled maintenance window is tonight");
    let b = SimHash::from_text("the maintenance window is scheduled tonight");
    // Pure reorder: identical token multiset -> identical fingerprint.
    assert_eq!(a.hamming_distance(&b), 0);
    assert!(a.is_near(&b, 4));
}

#[test]
fn simhash_normalizes_case_and_punctuation() {
    let a = SimHash::from_text("PowerShell, scheduled-task!");
    let b = SimHash::from_text("powershell scheduled-task");
    assert!(a.is_near(&b, 4));
}

#[test]
fn simhash_distinct_topics_are_far_apart() {
    let a = SimHash::from_text("scheduled maintenance window tonight");
    let b = SimHash::from_text("quarterly revenue forecast spreadsheet");
    assert!(a.hamming_distance(&b) > 8);
}

#[test]
fn simhash_empty_text_is_zero() {
    assert_eq!(SimHash::from_text("   ").bits(), 0);
}

#[test]
fn hex_round_trips_for_many_keys() {
    for i in 0..512u32 {
        let key = compute_key("kind", "conv", "role", None, &i.to_string());
        let encoded = hex_encode(&key);
        assert_eq!(encoded.len(), 64);
        let decoded = hex_decode(&encoded).unwrap();
        assert_eq!(decoded, key);
    }
}

#[test]
fn hex_decode_rejects_malformed_inputs() {
    // Wrong length.
    assert!(hex_decode("").is_none());
    assert!(hex_decode("ab").is_none());
    assert!(hex_decode(&"a".repeat(63)).is_none());
    assert!(hex_decode(&"a".repeat(65)).is_none());
    // Correct length, non-hex characters.
    assert!(hex_decode(&"g".repeat(64)).is_none());
    assert!(hex_decode(&"z".repeat(64)).is_none());
    // Correct length, embedded non-hex char.
    let mut bad = "a".repeat(63);
    bad.push('!');
    assert!(hex_decode(&bad).is_none());
}

#[test]
fn hex_decode_accepts_mixed_case() {
    let key = compute_key("k", "c", "r", None, "payload");
    let lower = hex_encode(&key);
    let upper = lower.to_uppercase();
    assert_eq!(hex_decode(&lower), hex_decode(&upper));
    assert_eq!(hex_decode(&upper), Some(key));
}

#[test]
fn module_example_gate_blocks_second_insert() {
    let mut set = DedupSet::new();
    let key = compute_key("demoted_message", "conv-1", "user", None, "hello");
    assert!(!set.contains(&key).unwrap());
    set.insert(key).unwrap();
    assert!(set.contains(&key).unwrap());
    set.insert(key).unwrap();
    assert_eq!(set.len().unwrap(), 1);
}

#[test]
fn hex_encoding_is_lowercase_high_nibble_first() {
    let mut key = [0u8; 32];
    key[0] = 0xab;
    key[1] = 0x01;
    key[31] = 0xf0;
    let hex = hex_encode_key(&key);
    assert_eq!(hex.len(), 64);
    assert!(hex.starts_with("ab01"));
    assert!(hex.ends_with("f0"));
    assert_eq!(hex_decode(&hex), Some(key));
}

#[test]
fn hex_decode_rejects_non_ascii_of_matching_byte_length() {
    // 32 two-byte characters are 64 bytes but not hex digits.
    let text = "é".repeat(32);
    assert_eq!(text.len(), 64);
    assert!(hex_decode(&text).is_none());
}

#[test]
fn snapshot_is_sorted_and_distinct() {
    let mut set = DedupSet::new();
    for i in 0..20u32 {
        set.insert(compute_key("k", "c", "r", None, &i.to_string())).unwrap();
    }
    set.insert(compute_key("k", "c", "r", None, "3")).unwrap();
    let snap = set.snapshot().unwrap();
    assert_eq!(snap.len(), 20);
    for pair in snap.windows(2) {
        assert!(pair[0] < pair[1]);
    }
    let mut restored = DedupSet::new();
    restored.extend_from_snapshot(&snap).unwrap();
    assert_eq!(restored.snapshot().unwrap(), snap);
}

#[test]
fn key_depends_on_scope_presence_only_through_its_text() {
    // An absent scope hashes like an empty one.
    let a = compute_key("k", "c", "r", None, "t");
    let b = compute_key("k", "c", "r", Some(""), "t");
    assert_eq!(a, b);
}

#[test]
fn simhash_distance_counts_differing_bits() {
    let a = SimHash::from_text("alpha");
    let b = SimHash::from_text("beta");
    assert_eq!(a.hamming_distance(&b), (a.bits() ^ b.bits()).count_ones());
    assert_eq!(a.hamming_distance(&a), 0);
    assert!(a.is_near(&b, 64));
}

#[test]
fn simhash_of_single_token_is_its_hash_prefix() {
    // With one token every column is +1 or -1, so the fingerprint is the
    // token hash itself: the first eight BLAKE3 bytes of the lowercase token.
    let h = SimHash::from_text("  Alpha!  ");
    let digest = blake3::hash(b"alpha");
    let mut first = [0u8; 8];
    first.copy_from_slice(&digest.as_bytes()[..8]);
    assert_eq!(h.bits(), u64::from_le_bytes(first));
}

#[test]
fn compute_key_hashes_nul_joined_fields() {
    let key = compute_key("a", "b", "c", Some("d"), "e");
    let expected = blake3::hash(b"a\0b\0c\0d\0e");
    assert_eq!(&key, expected.as_bytes());
}

#[test]
fn nul_inside_a_field_does_not_collide_with_a_separator() {
    let a = compute_key("a\0b", "c", "user", None, "");
    let b = compute_key("a", "b\0c", "user", None, "");
    assert_ne!(a, b);
}

#[test]
fn nul_inside_a_field_is_hashed_escaped() {
    let key = compute_key("a\0", "b", "c", None, "e\0");
    let expected = blake3::hash(b"a\0\xff\0b\0c\0\0e\0\xff");
    assert_eq!(&key, expected.as_bytes());
}

#[test]
fn simhash_ignores_case_of_reordered_tokens() {
    let a = SimHash::from_text("Alpha beta GAMMA");
    let b = SimHash::from_text("gamma ALPHA Beta");
    assert_eq!(a.hamming_distance(&b), 0);
}

#[test]
fn hamming_distance_obeys_the_triangle_inequality() {
    let a = SimHash::from_text("one two three");
    let b = SimHash::from_text("four five six");
    let c = SimHash::from_text("seven eight");
    assert!(a.hamming_distance(&c) <= a.hamming_distance(&b) + b.hamming_distance(&c));
    assert!(a.hamming_distance(&b) <= 64);
    assert_eq!(a.hamming_distance(&b), b.hamming_distance(&a));
}
