use std::collections::BTreeMap;

use rig_memory_policy::metadata::{FrameKind, FrameMetadata};
use rig_memory_policy::PolicyError;

#[test]
fn round_trips_through_map() {
    let original = FrameMetadata {
        schema_version: 1,
        kind: FrameKind::DemotedMessage,
        conversation_id: "conv-1".to_string(),
        chat_role: "user".to_string(),
        dedup_key: "deadbeef".to_string(),
        scope: Some("scope-a".to_string()),
    };
    let map = original.clone().into_map();
    let parsed = FrameMetadata::try_from_map(&map).unwrap();
    assert_eq!(parsed, original);
}

#[test]
fn scope_round_trips_when_absent() {
    let original = FrameMetadata {
        schema_version: 1,
        kind: FrameKind::CompactionSummary,
        conversation_id: "conv-2".to_string(),
        chat_role: "assistant".to_string(),
        dedup_key: "cafebabe".to_string(),
        scope: None,
    };
    let map = original.clone().into_map();
    assert!(!map.contains_key("scope"));
    let parsed = FrameMetadata::try_from_map(&map).unwrap();
    assert_eq!(parsed, original);
}

fn sample_map() -> BTreeMap<String, String> {
    FrameMetadata {
        schema_version: 200,
        kind: FrameKind::CompactionSummary,
        conversation_id: "c".to_string(),
        chat_role: "system".to_string(),
        dedup_key: "k".to_string(),
        scope: Some("t/p".to_string()),
    }
    .into_map()
}

#[test]
fn into_map_writes_the_documented_keys() {
    let map = sample_map();
    assert_eq!(map.len(), 6);
    assert_eq!(map.get("schema_version").map(String::as_str), Some("200"));
    assert_eq!(map.get("kind").map(String::as_str), Some("compaction_summary"));
    assert_eq!(map.get("conversation_id").map(String::as_str), Some("c"));
    assert_eq!(map.get("chat_role").map(String::as_str), Some("system"));
    assert_eq!(map.get("dedup_key").map(String::as_str), Some("k"));
    assert_eq!(map.get("scope").map(String::as_str), Some("t/p"));
}

#[test]
fn frame_kind_names_are_snake_case() {
    assert_eq!(FrameKind::DemotedMessage.as_str(), "demoted_message");
    assert_eq!(FrameKind::CompactionSummary.as_str(), "compaction_summary");
}

fn is_invalid(r: Result<FrameMetadata, PolicyError>) -> bool {
    matches!(r, Err(PolicyError::InvalidMetadata(_)))
}

#[test]
fn missing_required_key_is_invalid_metadata() {
    for key in ["schema_version", "kind", "conversation_id", "chat_role", "dedup_key"] {
        let mut map = sample_map();
        map.remove(key);
        assert!(is_invalid(FrameMetadata::try_from_map(&map)), "{key}");
    }
}

#[test]
fn missing_scope_key_decodes_as_unscoped() {
    let mut map = sample_map();
    map.remove("scope");
    assert_eq!(FrameMetadata::try_from_map(&map).unwrap().scope, None);
}

#[test]
fn bad_schema_version_is_invalid_metadata() {
    for bad in ["", "256", "-1", "+", " 1", "1a", "x"] {
        let mut map = sample_map();
        map.insert("schema_version".to_string(), bad.to_string());
        assert!(is_invalid(FrameMetadata::try_from_map(&map)), "{bad}");
    }
    let mut map = sample_map();
    map.insert("schema_version".to_string(), "007".to_string());
    assert_eq!(FrameMetadata::try_from_map(&map).unwrap().schema_version, 7);
    let mut map = sample_map();
    map.insert("schema_version".to_string(), "+255".to_string());
    assert_eq!(FrameMetadata::try_from_map(&map).unwrap().schema_version, 255);
}

#[test]
fn unknown_kind_is_invalid_metadata() {
    let mut map = sample_map();
    map.insert("kind".to_string(), "Demoted_Message".to_string());
    assert!(is_invalid(FrameMetadata::try_from_map(&map)));
}

#[test]
fn extra_keys_are_ignored() {
    let mut map = sample_map();
    map.insert("zzz".to_string(), "extra".to_string());
    let parsed = FrameMetadata::try_from_map(&map).unwrap();
    assert_eq!(parsed.into_map(), sample_map());
}

fn message(r: Result<FrameMetadata, PolicyError>) -> String {
    match r {
        Err(PolicyError::InvalidMetadata(m)) => m,
        other => panic!("expected InvalidMetadata, got {other:?}"),
    }
}

#[test]
fn decode_errors_name_the_first_problem() {
    let mut map = sample_map();
    map.remove("schema_version");
    map.remove("kind");
    assert_eq!(message(FrameMetadata::try_from_map(&map)), "missing field `schema_version`");

    let mut map = sample_map();
    map.insert("schema_version".to_string(), "x".to_string());
    assert_eq!(
        message(FrameMetadata::try_from_map(&map)),
        "invalid type: string \"x\", expected u8"
    );

    let mut map = sample_map();
    map.insert("kind".to_string(), "bad".to_string());
    map.remove("dedup_key");
    assert_eq!(
        message(FrameMetadata::try_from_map(&map)),
        "unknown variant `bad`, expected `demoted_message` or `compaction_summary`"
    );

    let mut map = sample_map();
    map.remove("chat_role");
    map.remove("dedup_key");
    assert_eq!(message(FrameMetadata::try_from_map(&map)), "missing field `chat_role`");
}
