use rig_memory_policy::dedup::{compute_key, hex_encode_key, DedupSet, SimHash};
use rig_memory_policy::reconcile::{DuplicateResolver, ExactHashResolver, ReconcileOp};
use rig_memory_policy::{
    Episode, FrameKind, FrameMetadata, InMemoryStore, RetentionCandidate, RetentionDecision,
    RetentionPolicy, RetentionRule, Scope,
};

#[derive(Clone, Debug)]
struct TestEpisode {
    summary: String,
}

impl Episode for TestEpisode {
    fn view_summary(&self) -> vstd::seq::Seq<char> {
        unreachable!()
    }

    fn summary(&self) -> &str {
        &self.summary
    }
}

#[test]
fn dedup_metadata_scope_retention_pipeline_behaves_like_external_consumer() {
    let scope = Scope::new("/tenant-a/project-1/");
    let text = "assistant summarized the tenant-a outage timeline";
    let key = compute_key(
        FrameKind::CompactionSummary.as_str(),
        "conv-1",
        "assistant",
        Some(scope.as_str()),
        text,
    );

    let mut dedup = DedupSet::new();
    assert!(!dedup.contains(&key).unwrap());
    dedup.insert(key).unwrap();
    assert!(dedup.contains(&key).unwrap());

    let metadata = FrameMetadata {
        schema_version: 1,
        kind: FrameKind::CompactionSummary,
        conversation_id: "conv-1".into(),
        chat_role: "assistant".into(),
        dedup_key: hex_encode_key(&key),
        scope: Some(scope.as_str().into()),
    };

    let map = metadata.clone().into_map();
    let decoded = FrameMetadata::try_from_map(&map).unwrap();
    assert_eq!(decoded, metadata);

    let policy = RetentionPolicy::new()
        .drop_outside_scope(Some("tenant-a/project-1"))
        .keep_summaries()
        .default_decision(RetentionDecision::Drop);
    let decision = policy.evaluate(RetentionCandidate::new(&decoded).with_sequence(42));
    assert_eq!(decision, RetentionDecision::Keep);

    let mut store = InMemoryStore::<TestEpisode>::new();
    let stored_key = store.append(TestEpisode { summary: text.into() }).unwrap();
    let hits = store.retrieve_similar("outage timeline", 5).unwrap();
    assert_eq!(hits.len(), 1);
    assert_eq!(hits[0].key, stored_key);
    assert!(hits[0].matched > 0);
}

#[test]
fn sota_simhash_pipeline() {
    let hash1 = SimHash::from_text("user wants to learn rust programming");
    let hash2 = SimHash::from_text("rust programming learn wants to user");
    assert!(
        hash1.is_near(&hash2, 8),
        "Paraphrases should collide under SimHash threshold"
    );

    let hash3 = SimHash::from_text("completely different topic about deployment");
    assert!(!hash1.is_near(&hash3, 8), "Different topics shouldn't collide");
}

fn with_importance(c: RetentionCandidate<'_>, importance: f32) -> RetentionCandidate<'_> {
    c.with_importance_bits(importance.clamp(0.0, 1.0).to_bits())
}

fn salience(c: &RetentionCandidate<'_>, as_of: u64, half_life: u64) -> f64 {
    let weight = f64::from(c.importance_bits.map(f32::from_bits).unwrap_or(1.0));
    match c.decay_age(as_of, half_life) {
        Some(age) => weight * 0.5_f64.powf(age as f64 / half_life as f64),
        None => weight,
    }
}

fn salience_key(score: f64) -> i64 {
    let bits = score.to_bits() as i64;
    bits ^ ((((bits >> 63) as u64) >> 1) as i64)
}

fn salience_keys(policy: &RetentionPolicy, cands: &[RetentionCandidate<'_>]) -> Vec<Vec<i64>> {
    policy
        .rules()
        .iter()
        .map(|rule| match rule {
            RetentionRule::KeepTopBySalience { half_life_ms, as_of_unix_ms, .. } => cands
                .iter()
                .map(|c| salience_key(salience(c, *as_of_unix_ms, *half_life_ms)))
                .collect(),
            _ => Vec::new(),
        })
        .collect()
}

#[test]
fn sota_memory_pipeline_integration() {
    let mut resolver = ExactHashResolver::new(&["user prefers python", "uses rig library"]);
    assert_eq!(resolver.reconcile("user prefers python"), ReconcileOp::Noop);
    assert_eq!(resolver.reconcile("wants to learn rust"), ReconcileOp::Add);
    resolver.observe("wants to learn rust");

    let meta_a = FrameMetadata {
        schema_version: 1,
        kind: FrameKind::DemotedMessage,
        conversation_id: "c1".into(),
        chat_role: "user".into(),
        dedup_key: "k1".into(),
        scope: None,
    };
    let meta_b = FrameMetadata { dedup_key: "k2".into(), ..meta_a.clone() };
    let meta_c = FrameMetadata { dedup_key: "k3".into(), ..meta_a.clone() };
    let meta_d = FrameMetadata { dedup_key: "k4".into(), ..meta_a.clone() };

    let as_of = 100_000;
    let cand_a = with_importance(RetentionCandidate::new(&meta_a).with_valid_to_unix_ms(90_000), 0.9);
    let cand_b = with_importance(RetentionCandidate::new(&meta_b).with_supersedes("some_older_id"), 0.8);
    let cand_c = with_importance(RetentionCandidate::new(&meta_c).with_valid_from_unix_ms(80_000), 1.0);
    let cand_d = with_importance(RetentionCandidate::new(&meta_d).with_valid_from_unix_ms(10_000), 0.5);

    let policy = RetentionPolicy::new()
        .invalidate_expired(as_of)
        .invalidate_superseded()
        .keep_top_by_salience(1, 10_000, as_of)
        .default_decision(RetentionDecision::Drop);

    let cands = vec![cand_a, cand_b, cand_c, cand_d];
    let keys = salience_keys(&policy, &cands);
    let report = policy.evaluate_batch(cands, &keys);

    assert_eq!(report.invalidate.len(), 2, "A and B should be invalidated");
    let inv_keys: Vec<_> = report.invalidate.iter().map(|c| c.metadata.dedup_key.as_str()).collect();
    assert!(inv_keys.contains(&"k1"));
    assert!(inv_keys.contains(&"k2"));

    assert_eq!(report.keep.len(), 1, "C should be kept based on salience");
    assert_eq!(report.keep[0].metadata.dedup_key, "k3");

    assert_eq!(report.drop.len(), 1, "D should fall through to default Drop");
    assert_eq!(report.drop[0].metadata.dedup_key, "k4");
}
