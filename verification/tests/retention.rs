use std::collections::HashSet;

use rig_memory_policy::metadata::{FrameKind, FrameMetadata};
use rig_memory_policy::retention::{
    RetentionCandidate, RetentionDecision, RetentionPolicy, RetentionRule,
};
use rig_memory_policy::scope::Scope;

fn metadata(kind: FrameKind, scope: Option<&str>) -> FrameMetadata {
    FrameMetadata {
        schema_version: 1,
        kind,
        conversation_id: "conv".to_string(),
        chat_role: "assistant".to_string(),
        dedup_key: "key".to_string(),
        scope: scope.map(str::to_string),
    }
}

#[test]
fn keep_rule_wins_before_later_drop_rule() {
    let metadata = metadata(FrameKind::CompactionSummary, Some("tenant-a"));
    let policy = RetentionPolicy::new().keep_summaries().drop_written_before(200);
    let candidate = RetentionCandidate::new(&metadata).with_written_at_unix_ms(100);
    assert_eq!(policy.evaluate(candidate), RetentionDecision::Keep);
}

#[test]
fn drop_rule_wins_before_later_keep_rule() {
    let metadata = metadata(FrameKind::CompactionSummary, Some("tenant-a"));
    let policy = RetentionPolicy::new().drop_written_before(200).keep_summaries();
    let candidate = RetentionCandidate::new(&metadata).with_written_at_unix_ms(100);
    assert_eq!(policy.evaluate(candidate), RetentionDecision::Drop);
}

#[test]
fn recent_rule_keeps_at_or_above_min_sequence() {
    let metadata = metadata(FrameKind::DemotedMessage, Some("tenant-a"));
    let policy = RetentionPolicy::new()
        .keep_recent(10)
        .default_decision(RetentionDecision::Drop);
    assert_eq!(
        policy.evaluate(RetentionCandidate::new(&metadata).with_sequence(10)),
        RetentionDecision::Keep
    );
    assert_eq!(
        policy.evaluate(RetentionCandidate::new(&metadata).with_sequence(9)),
        RetentionDecision::Drop
    );
}

#[test]
fn ttl_like_rule_drops_old_written_frames() {
    let metadata = metadata(FrameKind::DemotedMessage, None);
    let policy = RetentionPolicy::new().drop_written_before(1_000);
    assert_eq!(
        policy.evaluate(RetentionCandidate::new(&metadata).with_written_at_unix_ms(999)),
        RetentionDecision::Drop
    );
    assert_eq!(
        policy.evaluate(RetentionCandidate::new(&metadata).with_written_at_unix_ms(1_000)),
        RetentionDecision::Defer
    );
}

#[test]
fn missing_optional_fields_do_not_match_field_dependent_rules() {
    let metadata = metadata(FrameKind::DemotedMessage, None);
    let policy = RetentionPolicy::new()
        .keep_recent(10)
        .drop_written_before(1_000)
        .drop_last_accessed_before(1_000);
    assert_eq!(
        policy.evaluate(RetentionCandidate::new(&metadata)),
        RetentionDecision::Defer
    );
}

#[test]
fn scope_guard_drops_candidates_outside_exact_scope() {
    let inside = metadata(FrameKind::DemotedMessage, Some("tenant-a"));
    let outside = metadata(FrameKind::DemotedMessage, Some("tenant-b"));
    let unscoped = metadata(FrameKind::DemotedMessage, None);
    let policy = RetentionPolicy::new().drop_outside_scope(Some("tenant-a"));

    assert_eq!(policy.evaluate(RetentionCandidate::new(&inside)), RetentionDecision::Defer);
    assert_eq!(policy.evaluate(RetentionCandidate::new(&outside)), RetentionDecision::Drop);
    assert_eq!(policy.evaluate(RetentionCandidate::new(&unscoped)), RetentionDecision::Drop);
}

#[test]
fn label_rules_are_string_backed() {
    let metadata = metadata(FrameKind::DemotedMessage, None);
    let policy = RetentionPolicy::new().keep_label("legal_hold");
    assert_eq!(
        policy.evaluate(RetentionCandidate::new(&metadata).with_retention_label("legal_hold")),
        RetentionDecision::Keep
    );
    assert_eq!(
        policy.evaluate(RetentionCandidate::new(&metadata).with_retention_label("ephemeral")),
        RetentionDecision::Defer
    );
}

#[test]
fn evaluate_batch_processes_keep_most_recent() {
    let m1 = metadata(FrameKind::DemotedMessage, None);
    let m2 = metadata(FrameKind::DemotedMessage, None);
    let m3 = metadata(FrameKind::DemotedMessage, None);

    let c1 = RetentionCandidate::new(&m1).with_sequence(1);
    let c2 = RetentionCandidate::new(&m2).with_sequence(3);
    let c3 = RetentionCandidate::new(&m3).with_sequence(2);

    let policy = RetentionPolicy::new()
        .keep_most_recent(2)
        .default_decision(RetentionDecision::Drop);

    let report = policy.evaluate_batch(vec![c1, c2, c3], &Vec::new());
    assert_eq!(report.keep.len(), 2);
    assert_eq!(report.drop.len(), 1);
    assert_eq!(report.defer.len(), 0);

    let kept_seqs: HashSet<_> = report.keep.iter().map(|c| c.sequence.unwrap()).collect();
    assert!(kept_seqs.contains(&3));
    assert!(kept_seqs.contains(&2));
}

#[test]
fn invalidate_expired_marks_candidates_whose_valid_time_ended() {
    let metadata = metadata(FrameKind::DemotedMessage, None);
    let policy = RetentionPolicy::new().invalidate_expired(1_000);
    assert_eq!(
        policy.evaluate(RetentionCandidate::new(&metadata).with_valid_to_unix_ms(999)),
        RetentionDecision::Invalidate
    );
    assert_eq!(
        policy.evaluate(RetentionCandidate::new(&metadata).with_valid_to_unix_ms(1_000)),
        RetentionDecision::Invalidate
    );
    assert_eq!(
        policy.evaluate(RetentionCandidate::new(&metadata).with_valid_to_unix_ms(1_001)),
        RetentionDecision::Defer
    );
    assert_eq!(policy.evaluate(RetentionCandidate::new(&metadata)), RetentionDecision::Defer);
}

#[test]
fn invalidate_superseded_marks_candidates_with_a_supersedes_ref() {
    let metadata = metadata(FrameKind::CompactionSummary, None);
    let policy = RetentionPolicy::new().invalidate_superseded();
    assert_eq!(
        policy.evaluate(RetentionCandidate::new(&metadata).with_supersedes("ep-older")),
        RetentionDecision::Invalidate
    );
    assert_eq!(policy.evaluate(RetentionCandidate::new(&metadata)), RetentionDecision::Defer);
}

#[test]
fn evaluate_batch_routes_invalidations_into_their_own_bucket() {
    let fresh = metadata(FrameKind::DemotedMessage, None);
    let expired = metadata(FrameKind::DemotedMessage, None);
    let policy = RetentionPolicy::new()
        .invalidate_expired(1_000)
        .default_decision(RetentionDecision::Keep);

    let report = policy.evaluate_batch(
        vec![
            RetentionCandidate::new(&fresh).with_valid_to_unix_ms(2_000),
            RetentionCandidate::new(&expired).with_valid_to_unix_ms(500),
        ],
        &Vec::new(),
    );
    assert_eq!(report.keep.len(), 1);
    assert_eq!(report.invalidate.len(), 1);
    assert_eq!(report.drop.len(), 0);
    assert_eq!(report.defer.len(), 0);
}

#[test]
fn keep_top_by_salience_keeps_the_highest_keys_in_pool_order_on_ties() {
    let m = metadata(FrameKind::DemotedMessage, None);
    let cands: Vec<_> = (0..4u64)
        .map(|s| RetentionCandidate::new(&m).with_sequence(s))
        .collect();
    let policy = RetentionPolicy::new()
        .keep_top_by_salience(2, 10_000, 100_000)
        .default_decision(RetentionDecision::Drop);
    // Rule 0 ranks candidates by these keys: 1 and 2 tie above 0 and 3.
    let keys = vec![vec![5i64, 9, 9, -3]];
    let report = policy.evaluate_batch(cands, &keys);
    let kept: Vec<_> = report.keep.iter().map(|c| c.sequence.unwrap()).collect();
    let dropped: Vec<_> = report.drop.iter().map(|c| c.sequence.unwrap()).collect();
    assert_eq!(kept, vec![1, 2]);
    assert_eq!(dropped, vec![0, 3]);
}

#[test]
fn keep_most_recent_prefers_sequence_then_write_time() {
    let m = metadata(FrameKind::DemotedMessage, None);
    let a = RetentionCandidate::new(&m).with_written_at_unix_ms(50);
    let b = RetentionCandidate::new(&m).with_sequence(1);
    let c = RetentionCandidate::new(&m).with_sequence(1).with_written_at_unix_ms(10);
    let d = RetentionCandidate::new(&m);
    let policy = RetentionPolicy::new().keep_most_recent(2);
    let report = policy.evaluate_batch(vec![a, b, c, d], &Vec::new());
    let kept: Vec<_> = report.keep.iter().map(|x| (x.sequence, x.written_at_unix_ms)).collect();
    assert_eq!(kept, vec![(Some(1), Some(10)), (Some(1), None)]);
    assert_eq!(report.defer.len(), 2);
}

#[test]
fn keep_most_recent_with_zero_count_keeps_nothing() {
    let m = metadata(FrameKind::DemotedMessage, None);
    let policy = RetentionPolicy::new()
        .keep_most_recent(0)
        .default_decision(RetentionDecision::Drop);
    let report = policy.evaluate_batch(
        vec![RetentionCandidate::new(&m).with_sequence(1)],
        &Vec::new(),
    );
    assert!(report.keep.is_empty());
    assert_eq!(report.drop.len(), 1);
}

#[test]
fn batch_without_ranking_rules_agrees_with_single_evaluation() {
    let a = metadata(FrameKind::CompactionSummary, Some("tenant-a"));
    let b = metadata(FrameKind::DemotedMessage, Some("tenant-b"));
    let c = metadata(FrameKind::DemotedMessage, None);
    let policy = RetentionPolicy::new()
        .invalidate_superseded()
        .drop_outside_scope(Some("tenant-a"))
        .keep_summaries()
        .keep_recent(5)
        .default_decision(RetentionDecision::Defer);
    let cands = vec![
        RetentionCandidate::new(&a),
        RetentionCandidate::new(&b).with_sequence(9),
        RetentionCandidate::new(&c).with_supersedes("old"),
        RetentionCandidate::new(&a).with_sequence(7),
    ];
    let singles: Vec<_> = cands.iter().map(|c| policy.evaluate(*c)).collect();
    let report = policy.evaluate_batch(cands.clone(), &Vec::new());
    let count = |d: RetentionDecision| singles.iter().filter(|x| **x == d).count();
    assert_eq!(report.keep.len(), count(RetentionDecision::Keep));
    assert_eq!(report.drop.len(), count(RetentionDecision::Drop));
    assert_eq!(report.invalidate.len(), count(RetentionDecision::Invalidate));
    assert_eq!(report.defer.len(), count(RetentionDecision::Defer));
    assert_eq!(
        singles,
        vec![
            RetentionDecision::Keep,
            RetentionDecision::Drop,
            RetentionDecision::Invalidate,
            RetentionDecision::Keep
        ]
    );
}

#[test]
fn batch_buckets_partition_the_candidates() {
    let m = metadata(FrameKind::DemotedMessage, None);
    let cands: Vec<_> = (0..7u64)
        .map(|s| RetentionCandidate::new(&m).with_sequence(s).with_written_at_unix_ms(s * 100))
        .collect();
    let policy = RetentionPolicy::new()
        .drop_written_before(200)
        .keep_most_recent(2)
        .keep_recent(3)
        .default_decision(RetentionDecision::Invalidate);
    let report = policy.evaluate_batch(cands, &Vec::new());
    let seqs = |v: &Vec<RetentionCandidate<'_>>| v.iter().map(|c| c.sequence.unwrap()).collect::<Vec<_>>();
    assert_eq!(seqs(&report.drop), vec![0, 1]);
    assert_eq!(seqs(&report.keep), vec![6, 5, 4, 3]);
    assert_eq!(seqs(&report.invalidate), vec![2]);
    assert!(report.defer.is_empty());
}

#[test]
fn single_evaluation_defers_on_batch_only_rules() {
    let m = metadata(FrameKind::DemotedMessage, None);
    let policy = RetentionPolicy::new()
        .keep_most_recent(1)
        .keep_top_by_salience(1, 1, 1)
        .default_decision(RetentionDecision::Drop);
    assert_eq!(
        policy.evaluate(RetentionCandidate::new(&m).with_sequence(1)),
        RetentionDecision::Drop
    );
}

#[test]
fn builders_append_rules_in_order() {
    let policy = RetentionPolicy::new()
        .keep_demoted_messages()
        .keep_scope(" /a/ ")
        .drop_label("tmp")
        .drop_last_accessed_before(5)
        .rule(RetentionRule::InvalidateSuperseded);
    let rules = policy.rules();
    assert_eq!(rules.len(), 5);
    assert_eq!(rules[0], RetentionRule::KeepFrameKind(FrameKind::DemotedMessage));
    assert_eq!(rules[1], RetentionRule::KeepScope(Scope::new("a")));
    assert_eq!(rules[2], RetentionRule::DropLabel("tmp".to_string()));
    assert_eq!(rules[3], RetentionRule::DropLastAccessedBefore { older_than_unix_ms: 5 });
    assert_eq!(rules[4], RetentionRule::InvalidateSuperseded);
}

#[test]
fn new_policy_defers_everything() {
    let m = metadata(FrameKind::DemotedMessage, Some("x"));
    let policy = RetentionPolicy::new();
    assert!(policy.rules().is_empty());
    assert_eq!(policy.evaluate(RetentionCandidate::new(&m)), RetentionDecision::Defer);
}

#[test]
fn keep_scope_and_drop_label_match_exactly() {
    let m = metadata(FrameKind::DemotedMessage, Some("/t//p/"));
    let keep = RetentionPolicy::new().keep_scope("t/p");
    assert_eq!(keep.evaluate(RetentionCandidate::new(&m)), RetentionDecision::Keep);
    let drop = RetentionPolicy::new().drop_label("tmp");
    assert_eq!(
        drop.evaluate(RetentionCandidate::new(&m).with_retention_label("tmp")),
        RetentionDecision::Drop
    );
    assert_eq!(
        drop.evaluate(RetentionCandidate::new(&m).with_retention_label("TMP")),
        RetentionDecision::Defer
    );
    let unscoped = RetentionPolicy::new().drop_outside_scope(None);
    assert_eq!(unscoped.evaluate(RetentionCandidate::new(&m)), RetentionDecision::Drop);
}

#[test]
fn decay_age_prefers_valid_time_and_saturates() {
    let m = metadata(FrameKind::DemotedMessage, None);
    let c = RetentionCandidate::new(&m);
    assert_eq!(c.decay_age(100, 10), None);
    let written = c.with_written_at_unix_ms(40);
    assert_eq!(written.decay_age(100, 10), Some(60));
    assert_eq!(written.decay_age(100, 0), None);
    let valid = written.with_valid_from_unix_ms(90);
    assert_eq!(valid.decay_age(100, 10), Some(10));
    assert_eq!(valid.decay_age(50, 10), Some(0));
}

#[test]
fn importance_bits_travel_through_batches() {
    let m = metadata(FrameKind::DemotedMessage, None);
    let c = RetentionCandidate::new(&m).with_importance_bits(0.25f32.to_bits()).with_sequence(1);
    assert_eq!(RetentionCandidate::new(&m).importance_bits, None);
    let policy = RetentionPolicy::new().keep_recent(0);
    let report = policy.evaluate_batch(vec![c], &Vec::new());
    assert_eq!(report.keep[0].importance_bits.map(f32::from_bits), Some(0.25));
}

#[test]
fn default_policy_and_report_are_empty() {
    let m = metadata(FrameKind::CompactionSummary, None);
    let policy = RetentionPolicy::default();
    assert!(policy.rules().is_empty());
    assert_eq!(policy.evaluate(RetentionCandidate::new(&m)), RetentionDecision::Defer);
    let report = rig_memory_policy::retention::RetentionReport::default();
    assert!(report.keep.is_empty() && report.drop.is_empty());
    assert!(report.invalidate.is_empty() && report.defer.is_empty());
}

fn with_importance(c: RetentionCandidate<'_>, importance: f32) -> RetentionCandidate<'_> {
    c.with_importance_bits(importance.clamp(0.0, 1.0).to_bits())
}

fn salience(c: &RetentionCandidate<'_>, as_of: u64, half_life: u64) -> f64 {
    let weight = f64::from(c.importance_bits.map(f32::from_bits).unwrap_or(1.0));
    match c.decay_age(as_of, half_life) {
        Some(age) => weight * 0.5_f64.powf(age as f64 / half_life as f64),
        None => weight,
    }
}

fn salience_key(score: f64) -> i64 {
    let bits = score.to_bits() as i64;
    bits ^ ((((bits >> 63) as u64) >> 1) as i64)
}

fn salience_keys(policy: &RetentionPolicy, cands: &[RetentionCandidate<'_>]) -> Vec<Vec<i64>> {
    policy
        .rules()
        .iter()
        .map(|rule| match rule {
            RetentionRule::KeepTopBySalience { half_life_ms, as_of_unix_ms, .. } => cands
                .iter()
                .map(|c| salience_key(salience(c, *as_of_unix_ms, *half_life_ms)))
                .collect(),
            _ => Vec::new(),
        })
        .collect()
}

#[test]
fn keep_top_by_salience_prefers_recent_important_candidates() {
    let m_old_important = metadata(FrameKind::DemotedMessage, None);
    let m_recent_low = metadata(FrameKind::DemotedMessage, None);
    let m_recent_high = metadata(FrameKind::DemotedMessage, None);
    let as_of = 100_000;
    let half_life = 10_000;

    let old_important =
        with_importance(RetentionCandidate::new(&m_old_important).with_written_at_unix_ms(50_000), 1.0);
    let recent_low =
        with_importance(RetentionCandidate::new(&m_recent_low).with_written_at_unix_ms(99_000), 0.2);
    let recent_high =
        with_importance(RetentionCandidate::new(&m_recent_high).with_written_at_unix_ms(99_000), 0.9);

    let policy = RetentionPolicy::new()
        .keep_top_by_salience(2, half_life, as_of)
        .default_decision(RetentionDecision::Drop);

    let cands = vec![old_important, recent_low, recent_high];
    let keys = salience_keys(&policy, &cands);
    let report = policy.evaluate_batch(cands, &keys);
    assert_eq!(report.keep.len(), 2);
    assert_eq!(report.drop.len(), 1);

    let kept_importances: Vec<f32> =
        report.keep.iter().filter_map(|c| c.importance_bits.map(f32::from_bits)).collect();
    assert!(kept_importances.contains(&0.9));
    assert!(kept_importances.contains(&0.2));
    assert_eq!(report.drop.first().and_then(|c| c.importance_bits.map(f32::from_bits)), Some(1.0));
}
