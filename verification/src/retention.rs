//! Deterministic retention decisions over backend-provided memory metadata.
//!
//! Backends pass in frame metadata plus optional sequence and timestamp
//! facts, and receive a pure keep / drop / invalidate / defer decision they
//! can apply however their store represents deletes, compaction, or archival
//! tiers. Nothing here reads a clock: every instant is an argument.
//!
//! Salience ranking (importance decayed by age) is floating-point arithmetic
//! and is computed outside this module; batch evaluation takes its result as
//! one integer sort key per candidate and salience rule, ordered as the
//! salience values are under `f64::total_cmp`.

use vstd::prelude::*;

use crate::metadata::{FrameKind, FrameMetadata};
use crate::scope::{normalized, scope_matches, scope_matches_spec, Scope};
use crate::text::str_eq;

verus! {

// ---------------------------------------------------------------------------
// Candidates
// ---------------------------------------------------------------------------

/// A backend-provided candidate for retention evaluation.
///
/// Missing facts simply make the rules that depend on them non-matching.
#[derive(Debug, Clone, Copy)]
pub struct RetentionCandidate<'a> {
    /// Stable frame metadata decoded from the backend entry.
    pub metadata: &'a FrameMetadata,
    /// Backend-specific monotonic sequence number, where larger is newer.
    pub sequence: Option<u64>,
    /// Backend-supplied write timestamp in Unix milliseconds.
    pub written_at_unix_ms: Option<u64>,
    /// Backend-supplied last-access timestamp in Unix milliseconds.
    pub last_accessed_unix_ms: Option<u64>,
    /// Optional retention label stamped by the backend or host app.
    pub retention_label: Option<&'a str>,
    /// Bi-temporal valid-time start in Unix milliseconds.
    pub valid_from_unix_ms: Option<u64>,
    /// Bi-temporal valid-time end in Unix milliseconds; `None` means the
    /// fact is still valid.
    pub valid_to_unix_ms: Option<u64>,
    /// Identifier of an entry this candidate supersedes, if any.
    pub supersedes: Option<&'a str>,
    /// The IEEE-754 bits of the host-supplied importance weight in `[0, 1]`
    /// used by salience scoring; absent importance counts as `1.0`. The
    /// rules here never read it; it travels with the candidate so that the
    /// host can score salience.
    pub importance_bits: Option<u32>,
}

impl<'a> RetentionCandidate<'a> {
    /// Construct a candidate from required frame metadata.
    pub fn new(metadata: &'a FrameMetadata) -> (c: Self)
        ensures
            c.metadata == metadata,
            c.sequence is None,
            c.written_at_unix_ms is None,
            c.last_accessed_unix_ms is None,
            c.retention_label is None,
            c.valid_from_unix_ms is None,
            c.valid_to_unix_ms is None,
            c.supersedes is None,
            c.importance_bits is None,
    {
        RetentionCandidate {
            metadata,
            sequence: None,
            written_at_unix_ms: None,
            last_accessed_unix_ms: None,
            retention_label: None,
            valid_from_unix_ms: None,
            valid_to_unix_ms: None,
            supersedes: None,
            importance_bits: None,
        }
    }

    /// Attach a backend-specific monotonic sequence number.
    pub fn with_sequence(self, sequence: u64) -> (c: Self)
        ensures
            c == (RetentionCandidate { sequence: Some(sequence), ..self }),
    {
        RetentionCandidate { sequence: Some(sequence), ..self }
    }

    /// Attach a backend-supplied write timestamp in Unix milliseconds.
    pub fn with_written_at_unix_ms(self, written_at_unix_ms: u64) -> (c: Self)
        ensures
            c == (RetentionCandidate { written_at_unix_ms: Some(written_at_unix_ms), ..self }),
    {
        RetentionCandidate { written_at_unix_ms: Some(written_at_unix_ms), ..self }
    }

    /// Attach a backend-supplied last-access timestamp in Unix milliseconds.
    pub fn with_last_accessed_unix_ms(self, last_accessed_unix_ms: u64) -> (c: Self)
        ensures
            c == (RetentionCandidate { last_accessed_unix_ms: Some(last_accessed_unix_ms), ..self }),
    {
        RetentionCandidate { last_accessed_unix_ms: Some(last_accessed_unix_ms), ..self }
    }

    /// Attach a host-defined retention label.
    pub fn with_retention_label(self, retention_label: &'a str) -> (c: Self)
        ensures
            c == (RetentionCandidate { retention_label: Some(retention_label), ..self }),
    {
        RetentionCandidate { retention_label: Some(retention_label), ..self }
    }

    /// Attach the bi-temporal valid-time start in Unix milliseconds.
    pub fn with_valid_from_unix_ms(self, valid_from_unix_ms: u64) -> (c: Self)
        ensures
            c == (RetentionCandidate { valid_from_unix_ms: Some(valid_from_unix_ms), ..self }),
    {
        RetentionCandidate { valid_from_unix_ms: Some(valid_from_unix_ms), ..self }
    }

    /// Attach the bi-temporal valid-time end in Unix milliseconds. A
    /// candidate whose valid-time ended is considered expired.
    pub fn with_valid_to_unix_ms(self, valid_to_unix_ms: u64) -> (c: Self)
        ensures
            c == (RetentionCandidate { valid_to_unix_ms: Some(valid_to_unix_ms), ..self }),
    {
        RetentionCandidate { valid_to_unix_ms: Some(valid_to_unix_ms), ..self }
    }

    /// Mark this candidate as superseding a prior entry by identifier.
    pub fn with_supersedes(self, supersedes: &'a str) -> (c: Self)
        ensures
            c == (RetentionCandidate { supersedes: Some(supersedes), ..self }),
    {
        RetentionCandidate { supersedes: Some(supersedes), ..self }
    }

    /// Attach the IEEE-754 bits of a host-supplied importance weight.
    pub fn with_importance_bits(self, importance_bits: u32) -> (c: Self)
        ensures
            c == (RetentionCandidate { importance_bits: Some(importance_bits), ..self }),
    {
        RetentionCandidate { importance_bits: Some(importance_bits), ..self }
    }

    /// The age that salience decays by at `as_of_unix_ms`: the time since
    /// the valid-time start, or else since the write, saturating at zero.
    /// `None` when the candidate has neither timestamp or the half-life is
    /// zero; salience is then the importance alone.
    pub fn decay_age(&self, as_of_unix_ms: u64, half_life_ms: u64) -> (age: Option<u64>)
        ensures
            age == (match (if self.valid_from_unix_ms is Some {
                self.valid_from_unix_ms
            } else {
                self.written_at_unix_ms
            }) {
                Some(reference) => if half_life_ms == 0 {
                    None
                } else {
                    Some(
                        (if as_of_unix_ms >= reference {
                            as_of_unix_ms - reference
                        } else {
                            0
                        }) as u64,
                    )
                },
                None => None,
            }),
    {
        let reference = match self.valid_from_unix_ms {
            Some(t) => Some(t),
            None => self.written_at_unix_ms,
        };
        match reference {
            Some(reference) => if half_life_ms == 0 {
                None
            } else {
                Some(as_of_unix_ms.saturating_sub(reference))
            },
            None => None,
        }
    }
}

// ---------------------------------------------------------------------------
// Decisions and rules
// ---------------------------------------------------------------------------

/// Result of evaluating one candidate against a retention policy.
#[derive(Debug, Clone, Copy, PartialEq, Eq, Structural)]
pub enum RetentionDecision {
    /// The backend should retain the candidate.
    Keep,
    /// The backend may delete, compact away, or archive the candidate.
    Drop,
    /// The candidate is stale (expired or superseded) and should be marked
    /// invalid in place rather than hard-deleted.
    Invalidate,
    /// The policy has no opinion; the backend should apply its default.
    Defer,
}

/// One deterministic retention rule.
#[derive(Debug, Clone, PartialEq, Eq)]
pub enum RetentionRule {
    /// Keep candidates whose frame kind matches `kind`.
    KeepFrameKind(FrameKind),
    /// Keep candidates whose normalized scope exactly matches this scope.
    KeepScope(Scope),
    /// Keep candidates at or above `min_sequence`, where larger sequence
    /// values are newer.
    KeepRecent {
        /// Minimum sequence number to keep.
        min_sequence: u64,
    },
    /// Drop candidates whose write timestamp is older than `older_than_unix_ms`.
    DropWrittenBefore {
        /// Exclusive Unix-millisecond threshold.
        older_than_unix_ms: u64,
    },
    /// Drop candidates whose last-access timestamp is older than
    /// `older_than_unix_ms`.
    DropLastAccessedBefore {
        /// Exclusive Unix-millisecond threshold.
        older_than_unix_ms: u64,
    },
    /// Drop candidates whose normalized scope does not exactly match
    /// `required_scope`. `None` requires an unscoped candidate.
    DropOutsideScope {
        /// Required exact scope. `None` requires candidates to be unscoped.
        required_scope: Option<Scope>,
    },
    /// Keep the N most recent candidates, by descending sequence and then
    /// write timestamp. Only batch evaluation applies it.
    KeepMostRecent {
        /// Maximum number of candidates to keep in this rule.
        count: usize,
    },
    /// Invalidate candidates whose valid-time has ended at or before
    /// `as_of_unix_ms`. Candidates with an open interval are unaffected.
    InvalidateExpired {
        /// Evaluation instant in Unix milliseconds.
        as_of_unix_ms: u64,
    },
    /// Invalidate candidates that carry a `supersedes` reference.
    InvalidateSuperseded,
    /// Keep the N highest-salience candidates. Only batch evaluation applies
    /// it.
    KeepTopBySalience {
        /// Maximum number of candidates to keep in this rule.
        count: usize,
        /// Recency half-life in milliseconds used by the decay term.
        half_life_ms: u64,
        /// Evaluation instant in Unix milliseconds.
        as_of_unix_ms: u64,
    },
    /// Keep candidates with a host-defined retention label.
    KeepLabel(String),
    /// Drop candidates with a host-defined retention label.
    DropLabel(String),
}

/// An optional borrowed string, by its characters.
pub open spec fn opt_str_view(o: Option<&str>) -> Option<Seq<char>> {
    match o {
        Some(s) => Some(s@),
        None => None,
    }
}

/// An optional owned string, by its characters.
pub open spec fn opt_string_view(o: Option<String>) -> Option<Seq<char>> {
    match o {
        Some(s) => Some(s@),
        None => None,
    }
}

/// An optional scope, by its normalized text.
pub open spec fn opt_scope_view(o: Option<Scope>) -> Option<Seq<char>> {
    match o {
        Some(s) => Some(s@),
        None => None,
    }
}

/// What one rule decides for one candidate.
pub open spec fn rule_decision(rule: RetentionRule, c: RetentionCandidate) -> RetentionDecision {
    match rule {
        RetentionRule::KeepFrameKind(kind) => if c.metadata.kind == kind {
            RetentionDecision::Keep
        } else {
            RetentionDecision::Defer
        },
        RetentionRule::KeepScope(scope) => match c.metadata.scope {
            Some(s) => if normalized(s@) == scope@ {
                RetentionDecision::Keep
            } else {
                RetentionDecision::Defer
            },
            None => RetentionDecision::Defer,
        },
        RetentionRule::KeepRecent { min_sequence } => match c.sequence {
            Some(q) => if q >= min_sequence {
                RetentionDecision::Keep
            } else {
                RetentionDecision::Defer
            },
            None => RetentionDecision::Defer,
        },
        RetentionRule::DropWrittenBefore { older_than_unix_ms } => match c.written_at_unix_ms {
            Some(w) => if w < older_than_unix_ms {
                RetentionDecision::Drop
            } else {
                RetentionDecision::Defer
            },
            None => RetentionDecision::Defer,
        },
        RetentionRule::DropLastAccessedBefore { older_than_unix_ms } => match c.last_accessed_unix_ms {
            Some(a) => if a < older_than_unix_ms {
                RetentionDecision::Drop
            } else {
                RetentionDecision::Defer
            },
            None => RetentionDecision::Defer,
        },
        RetentionRule::DropOutsideScope { required_scope } => if scope_matches_spec(
            opt_scope_view(required_scope),
            opt_string_view(c.metadata.scope),
        ) {
            RetentionDecision::Defer
        } else {
            RetentionDecision::Drop
        },
        RetentionRule::KeepMostRecent { .. } => RetentionDecision::Defer,
        RetentionRule::InvalidateExpired { as_of_unix_ms } => match c.valid_to_unix_ms {
            Some(v) => if v <= as_of_unix_ms {
                RetentionDecision::Invalidate
            } else {
                RetentionDecision::Defer
            },
            None => RetentionDecision::Defer,
        },
        RetentionRule::InvalidateSuperseded => if c.supersedes is Some {
            RetentionDecision::Invalidate
        } else {
            RetentionDecision::Defer
        },
        RetentionRule::KeepTopBySalience { .. } => RetentionDecision::Defer,
        RetentionRule::KeepLabel(label) => if opt_str_view(c.retention_label) == Some(label@) {
            RetentionDecision::Keep
        } else {
            RetentionDecision::Defer
        },
        RetentionRule::DropLabel(label) => if opt_str_view(c.retention_label) == Some(label@) {
            RetentionDecision::Drop
        } else {
            RetentionDecision::Defer
        },
    }
}

fn label_is(label: Option<&str>, wanted: &String) -> (b: bool)
    ensures
        b == (opt_str_view(label) == Some(wanted@)),
{
    match label {
        Some(l) => str_eq(l, wanted.as_str()),
        None => false,
    }
}

fn metadata_scope<'a>(m: &'a FrameMetadata) -> (s: Option<&'a str>)
    ensures
        opt_str_view(s) == opt_string_view(m.scope),
{
    match &m.scope {
        Some(s) => Some(s.as_str()),
        None => None,
    }
}

impl RetentionRule {
    /// Evaluate this rule against a single candidate.
    pub fn evaluate(&self, candidate: RetentionCandidate<'_>) -> (d: RetentionDecision)
        ensures
            d == rule_decision(*self, candidate),
    {
        match self {
            RetentionRule::KeepFrameKind(kind) => {
                if candidate.metadata.kind == *kind {
                    RetentionDecision::Keep
                } else {
                    RetentionDecision::Defer
                }
            },
            RetentionRule::KeepScope(scope) => {
                if scope.matches(metadata_scope(candidate.metadata)) {
                    RetentionDecision::Keep
                } else {
                    RetentionDecision::Defer
                }
            },
            RetentionRule::KeepMostRecent { .. } => RetentionDecision::Defer,
            RetentionRule::KeepTopBySalience { .. } => RetentionDecision::Defer,
            RetentionRule::InvalidateExpired { as_of_unix_ms } => match candidate.valid_to_unix_ms {
                Some(valid_to) => if valid_to <= *as_of_unix_ms {
                    RetentionDecision::Invalidate
                } else {
                    RetentionDecision::Defer
                },
                None => RetentionDecision::Defer,
            },
            RetentionRule::InvalidateSuperseded => {
                if candidate.supersedes.is_some() {
                    RetentionDecision::Invalidate
                } else {
                    RetentionDecision::Defer
                }
            },
            RetentionRule::KeepRecent { min_sequence } => match candidate.sequence {
                Some(sequence) => if sequence >= *min_sequence {
                    RetentionDecision::Keep
                } else {
                    RetentionDecision::Defer
                },
                None => RetentionDecision::Defer,
            },
            RetentionRule::DropWrittenBefore { older_than_unix_ms } => match candidate.written_at_unix_ms {
                Some(written_at) => if written_at < *older_than_unix_ms {
                    RetentionDecision::Drop
                } else {
                    RetentionDecision::Defer
                },
                None => RetentionDecision::Defer,
            },
            RetentionRule::DropLastAccessedBefore { older_than_unix_ms } => match candidate.last_accessed_unix_ms {
                Some(last_accessed) => if last_accessed < *older_than_unix_ms {
                    RetentionDecision::Drop
                } else {
                    RetentionDecision::Defer
                },
                None => RetentionDecision::Defer,
            },
            RetentionRule::DropOutsideScope { required_scope } => {
                let required = match required_scope {
                    Some(s) => Some(s.as_str()),
                    None => None,
                };
                if scope_matches(required, metadata_scope(candidate.metadata)) {
                    RetentionDecision::Defer
                } else {
                    RetentionDecision::Drop
                }
            },
            RetentionRule::KeepLabel(label) => {
                if label_is(candidate.retention_label, label) {
                    RetentionDecision::Keep
                } else {
                    RetentionDecision::Defer
                }
            },
            RetentionRule::DropLabel(label) => {
                if label_is(candidate.retention_label, label) {
                    RetentionDecision::Drop
                } else {
                    RetentionDecision::Defer
                }
            },
        }
    }
}

// ---------------------------------------------------------------------------
// Stable sorting
// ---------------------------------------------------------------------------

/// Where a stable insertion puts `x` into `t`: before the first element that
/// `x` strictly precedes, or at the end.
pub open spec fn insert_pos<A>(t: Seq<A>, x: A, before: spec_fn(A, A) -> bool) -> int
    decreases t.len(),
{
    if t.len() == 0 {
        0
    } else if before(x, t[0]) {
        0
    } else {
        1 + insert_pos(t.drop_first(), x, before)
    }
}

/// The stable sort of `s` by the strict order `before`: elements that
/// neither precedes keep their relative order.
pub open spec fn stable_sort<A>(s: Seq<A>, before: spec_fn(A, A) -> bool) -> Seq<A>
    decreases s.len(),
{
    if s.len() == 0 {
        s
    } else {
        let t = stable_sort(s.drop_last(), before);
        t.insert(insert_pos(t, s.last(), before), s.last())
    }
}

proof fn lemma_insert_pos_bounds<A>(t: Seq<A>, x: A, before: spec_fn(A, A) -> bool)
    ensures
        0 <= insert_pos(t, x, before) <= t.len(),
    decreases t.len(),
{
    if t.len() > 0 && !before(x, t[0]) {
        lemma_insert_pos_bounds(t.drop_first(), x, before);
    }
}

pub(crate) proof fn lemma_insert_pos_is<A>(t: Seq<A>, x: A, before: spec_fn(A, A) -> bool, j: int)
    requires
        0 <= j <= t.len(),
        forall|k: int| 0 <= k < j ==> !before(x, #[trigger] t[k]),
        j == t.len() || before(x, t[j]),
    ensures
        insert_pos(t, x, before) == j,
    decreases j,
{
    if j > 0 {
        assert(!before(x, t[0]));
        assert forall|k: int| 0 <= k < j - 1 implies !before(x, #[trigger] t.drop_first()[k]) by {
            assert(t.drop_first()[k] == t[k + 1]);
        }
        lemma_insert_pos_is(t.drop_first(), x, before, j - 1);
    }
}

proof fn lemma_stable_sort_len<A>(s: Seq<A>, before: spec_fn(A, A) -> bool)
    ensures
        stable_sort(s, before).len() == s.len(),
    decreases s.len(),
{
    if s.len() > 0 {
        lemma_stable_sort_len(s.drop_last(), before);
        lemma_insert_pos_bounds(stable_sort(s.drop_last(), before), s.last(), before);
    }
}

// ---------------------------------------------------------------------------
// Candidate pools
// ---------------------------------------------------------------------------

/// A candidate tagged with its position in the batch.
pub type Pooled<'a> = (usize, RetentionCandidate<'a>);

/// `a > b` where `None` is below every `Some`.
pub open spec fn opt_gt(a: Option<u64>, b: Option<u64>) -> bool {
    match (a, b) {
        (Some(x), Some(y)) => x > y,
        (Some(_), None) => true,
        _ => false,
    }
}

/// Whether `a` is strictly more recent than `b`: by sequence, then by write
/// timestamp.
pub open spec fn more_recent(a: RetentionCandidate, b: RetentionCandidate) -> bool {
    opt_gt(a.sequence, b.sequence) || (a.sequence == b.sequence && opt_gt(
        a.written_at_unix_ms,
        b.written_at_unix_ms,
    ))
}

/// The order in which a keep-top rule ranks pooled candidates: by salience
/// key when there are keys, else by recency. Higher comes first.
pub open spec fn pool_before<'a>(keys: Option<Seq<i64>>) -> spec_fn(Pooled<'a>, Pooled<'a>) -> bool {
    |a: Pooled<'a>, b: Pooled<'a>|
        match keys {
            Some(k) => k[a.0 as int] > k[b.0 as int],
            None => more_recent(a.1, b.1),
        }
}

/// The state of a batch evaluation: keep, drop and invalidate buckets, and
/// the pool of candidates that no rule has decided yet.
pub type BatchState<'a> = (
    Seq<RetentionCandidate<'a>>,
    Seq<RetentionCandidate<'a>>,
    Seq<RetentionCandidate<'a>>,
    Seq<Pooled<'a>>,
);

/// Route every pooled candidate by one per-candidate rule.
pub open spec fn route<'a>(rule: RetentionRule, pool: Seq<Pooled<'a>>) -> BatchState<'a>
    decreases pool.len(),
{
    if pool.len() == 0 {
        (Seq::empty(), Seq::empty(), Seq::empty(), Seq::empty())
    } else {
        let r = route(rule, pool.drop_last());
        let e = pool.last();
        match rule_decision(rule, e.1) {
            RetentionDecision::Keep => (r.0.push(e.1), r.1, r.2, r.3),
            RetentionDecision::Drop => (r.0, r.1.push(e.1), r.2, r.3),
            RetentionDecision::Invalidate => (r.0, r.1, r.2.push(e.1), r.3),
            RetentionDecision::Defer => (r.0, r.1, r.2, r.3.push(e)),
        }
    }
}

/// The candidates of pooled entries.
pub open spec fn unpool<'a>(p: Seq<Pooled<'a>>) -> Seq<RetentionCandidate<'a>> {
    p.map_values(|e: Pooled<'a>| e.1)
}

/// Keep the first `count` of the pool ranked by `keys` (or by recency).
pub open spec fn keep_top<'a>(count: usize, keys: Option<Seq<i64>>, st: BatchState<'a>) -> BatchState<'a> {
    let sorted = stable_sort(st.3, pool_before(keys));
    let n = if count < sorted.len() {
        count as int
    } else {
        sorted.len() as int
    };
    (st.0 + unpool(sorted.take(n)), st.1, st.2, sorted.skip(n))
}

/// One rule applied to a batch state.
pub open spec fn apply_rule<'a>(rule: RetentionRule, keys: Seq<i64>, st: BatchState<'a>) -> BatchState<'a> {
    match rule {
        RetentionRule::KeepMostRecent { count } => keep_top(count, None, st),
        RetentionRule::KeepTopBySalience { count, .. } => keep_top(count, Some(keys), st),
        _ => {
            let r = route(rule, st.3);
            (st.0 + r.0, st.1 + r.1, st.2 + r.2, r.3)
        },
    }
}

/// The candidates of a batch, tagged with their positions.
pub open spec fn initial_pool<'a>(cands: Seq<RetentionCandidate<'a>>) -> Seq<Pooled<'a>> {
    Seq::new(cands.len(), |i: int| (i as usize, cands[i]))
}

/// The batch state after the first `n` rules.
pub open spec fn batch_after<'a>(
    rules: Seq<RetentionRule>,
    keys: Seq<Seq<i64>>,
    cands: Seq<RetentionCandidate<'a>>,
    n: nat,
) -> BatchState<'a>
    decreases n,
{
    if n == 0 {
        (Seq::empty(), Seq::empty(), Seq::empty(), initial_pool(cands))
    } else {
        apply_rule(rules[n - 1], keys[n - 1], batch_after(rules, keys, cands, (n - 1) as nat))
    }
}

/// The four buckets of a batch evaluation: keep, drop, invalidate, defer.
pub type Buckets<'a> = (
    Seq<RetentionCandidate<'a>>,
    Seq<RetentionCandidate<'a>>,
    Seq<RetentionCandidate<'a>>,
    Seq<RetentionCandidate<'a>>,
);

/// The report of a batch evaluation: every rule in order, then the default
/// decision for whatever is left.
pub open spec fn batch_report<'a>(
    rules: Seq<RetentionRule>,
    default: RetentionDecision,
    keys: Seq<Seq<i64>>,
    cands: Seq<RetentionCandidate<'a>>,
) -> Buckets<'a> {
    let st = batch_after(rules, keys, cands, rules.len());
    let rest = unpool(st.3);
    match default {
        RetentionDecision::Keep => (st.0 + rest, st.1, st.2, Seq::empty()),
        RetentionDecision::Drop => (st.0, st.1 + rest, st.2, Seq::empty()),
        RetentionDecision::Invalidate => (st.0, st.1, st.2 + rest, Seq::empty()),
        RetentionDecision::Defer => (st.0, st.1, st.2, rest),
    }
}

/// The first decision other than `Defer` that the rules make, in order, or
/// `default` when every rule defers.
pub open spec fn first_decision(
    rules: Seq<RetentionRule>,
    default: RetentionDecision,
    c: RetentionCandidate,
) -> RetentionDecision
    decreases rules.len(),
{
    if rules.len() == 0 {
        default
    } else {
        let d = rule_decision(rules[0], c);
        if d != RetentionDecision::Defer {
            d
        } else {
            first_decision(rules.drop_first(), default, c)
        }
    }
}

/// Whether a rule ranks the whole batch (and defers when applied alone).
pub open spec fn is_ranking_rule(rule: RetentionRule) -> bool {
    rule is KeepMostRecent || rule is KeepTopBySalience
}

/// Whether the salience keys cover every salience rule and every candidate.
pub open spec fn keys_cover(rules: Seq<RetentionRule>, keys: Seq<Seq<i64>>, n: nat) -> bool {
    forall|r: int|
        0 <= r < rules.len() && (#[trigger] rules[r]) is KeepTopBySalience ==> r < keys.len()
            && keys[r].len() == n
}

fn opt_gt_exec(a: Option<u64>, b: Option<u64>) -> (r: bool)
    ensures
        r == opt_gt(a, b),
{
    match (a, b) {
        (Some(x), Some(y)) => x > y,
        (Some(_), None) => true,
        _ => false,
    }
}

fn precedes<'a>(a: &Pooled<'a>, b: &Pooled<'a>, keys: Option<&Vec<i64>>) -> (r: bool)
    requires
        keys matches Some(k) ==> a.0 < k@.len() && b.0 < k@.len(),
    ensures
        r == pool_before::<'a>(
            match keys {
                Some(k) => Some(k@),
                None => None,
            },
        )(*a, *b),
{
    match keys {
        Some(k) => k[a.0] > k[b.0],
        None => opt_gt_exec(a.1.sequence, b.1.sequence) || (a.1.sequence == b.1.sequence
            && opt_gt_exec(a.1.written_at_unix_ms, b.1.written_at_unix_ms)),
    }
}

/// Stable insertion sort of a pool.
fn sort_pool<'a>(pool: Vec<Pooled<'a>>, keys: Option<&Vec<i64>>) -> (out: Vec<Pooled<'a>>)
    requires
        keys matches Some(k) ==> forall|j: int| 0 <= j < pool@.len() ==> (#[trigger] pool@[j]).0 < k@.len(),
    ensures
        out@ == stable_sort(
            pool@,
            pool_before::<'a>(
                match keys {
                    Some(k) => Some(k@),
                    None => None,
                },
            ),
        ),
        out@.len() == pool@.len(),
        forall|j: int| 0 <= j < out@.len() ==> pool@.contains(#[trigger] out@[j]),
{
    let ghost before = pool_before::<'a>(
        match keys {
            Some(k) => Some(k@),
            None => None,
        },
    );
    let mut out: Vec<Pooled<'a>> = Vec::new();
    let mut i: usize = 0;
    while i < pool.len()
        invariant
            i <= pool@.len(),
            out@ == stable_sort(pool@.take(i as int), before),
            out@.len() == i,
            forall|j: int| 0 <= j < out@.len() ==> pool@.contains(#[trigger] out@[j]),
            keys matches Some(k) ==> forall|j: int| 0 <= j < pool@.len() ==> (#[trigger] pool@[j]).0 < k@.len(),
            before == pool_before::<'a>(
                match keys {
                    Some(k) => Some(k@),
                    None => None,
                },
            ),
        decreases pool.len() - i,
    {
        let x = pool[i];
        let mut p: usize = 0;
        while p < out.len() && !precedes(&x, &out[p], keys)
            invariant
                p <= out@.len(),
                x == pool@[i as int],
                i < pool@.len(),
                forall|j: int| 0 <= j < out@.len() ==> pool@.contains(#[trigger] out@[j]),
                keys matches Some(k) ==> forall|j: int| 0 <= j < pool@.len() ==> (#[trigger] pool@[j]).0 < k@.len(),
                forall|k: int| 0 <= k < p ==> !before(x, #[trigger] out@[k]),
                before == pool_before::<'a>(
                    match keys {
                        Some(k) => Some(k@),
                        None => None,
                    },
                ),
            decreases out.len() - p,
        {
            proof {
                assert(pool@.contains(out@[p as int]));
            }
            p = p + 1;
        }
        proof {
            lemma_insert_pos_is(out@, x, before, p as int);
            assert(pool@.take(i + 1).drop_last() =~= pool@.take(i as int));
        }
        let ghost old_out = out@;
        out.insert(p, x);
        proof {
            assert forall|j: int| 0 <= j < out@.len() implies pool@.contains(#[trigger] out@[j]) by {
                if j < p {
                    assert(out@[j] == old_out[j]);
                } else if j > p {
                    assert(out@[j] == old_out[j - 1]);
                }
            }
        }
        i = i + 1;
    }
    assert(pool@.take(pool@.len() as int) =~= pool@);
    out
}

/// Route every pooled candidate by `rule`, appending to the buckets;
/// returns the candidates the rule defers on.
fn route_pool<'a>(
    rule: &RetentionRule,
    pool: Vec<Pooled<'a>>,
    keep: &mut Vec<RetentionCandidate<'a>>,
    drop: &mut Vec<RetentionCandidate<'a>>,
    invalidate: &mut Vec<RetentionCandidate<'a>>,
) -> (rest: Vec<Pooled<'a>>)
    ensures
        final(keep)@ == old(keep)@ + route(*rule, pool@).0,
        final(drop)@ == old(drop)@ + route(*rule, pool@).1,
        final(invalidate)@ == old(invalidate)@ + route(*rule, pool@).2,
        rest@ == route(*rule, pool@).3,
        forall|j: int| 0 <= j < rest@.len() ==> pool@.contains(#[trigger] rest@[j]),
{
    let ghost k0 = keep@;
    let ghost d0 = drop@;
    let ghost i0 = invalidate@;
    let mut rest: Vec<Pooled<'a>> = Vec::new();
    let mut j: usize = 0;
    assert(pool@.take(0) =~= Seq::<Pooled<'a>>::empty());
    while j < pool.len()
        invariant
            j <= pool@.len(),
            keep@ == k0 + route(*rule, pool@.take(j as int)).0,
            drop@ == d0 + route(*rule, pool@.take(j as int)).1,
            invalidate@ == i0 + route(*rule, pool@.take(j as int)).2,
            rest@ == route(*rule, pool@.take(j as int)).3,
            forall|m: int| 0 <= m < rest@.len() ==> pool@.contains(#[trigger] rest@[m]),
        decreases pool.len() - j,
    {
        let e = pool[j];
        let d = rule.evaluate(e.1);
        let ghost r = route(*rule, pool@.take(j as int));
        assert(pool@.take(j + 1).drop_last() =~= pool@.take(j as int));
        assert(pool@.take(j + 1).last() == e);
        match d {
            RetentionDecision::Keep => {
                keep.push(e.1);
                assert(keep@ =~= k0 + r.0.push(e.1));
            },
            RetentionDecision::Drop => {
                drop.push(e.1);
                assert(drop@ =~= d0 + r.1.push(e.1));
            },
            RetentionDecision::Invalidate => {
                invalidate.push(e.1);
                assert(invalidate@ =~= i0 + r.2.push(e.1));
            },
            RetentionDecision::Defer => {
                rest.push(e);
                proof {
                    assert forall|m: int| 0 <= m < rest@.len() implies pool@.contains(#[trigger] rest@[m]) by {
                        if m == rest@.len() - 1 {
                            assert(pool@[j as int] == e);
                        }
                    }
                }
            },
        }
        j = j + 1;
    }
    assert(pool@.take(pool@.len() as int) =~= pool@);
    rest
}

/// Keep the first `count` candidates of the ranked pool; returns the rest,
/// still ranked.
fn keep_top_pool<'a>(
    count: usize,
    keys: Option<&Vec<i64>>,
    pool: Vec<Pooled<'a>>,
    keep: &mut Vec<RetentionCandidate<'a>>,
) -> (rest: Vec<Pooled<'a>>)
    requires
        keys matches Some(k) ==> forall|j: int| 0 <= j < pool@.len() ==> (#[trigger] pool@[j]).0 < k@.len(),
    ensures
        ({
            let st = keep_top(
                count,
                match keys {
                    Some(k) => Some(k@),
                    None => None,
                },
                (old(keep)@, Seq::empty(), Seq::empty(), pool@),
            );
            final(keep)@ == st.0 && rest@ == st.3
        }),
        forall|j: int| 0 <= j < rest@.len() ==> pool@.contains(#[trigger] rest@[j]),
{
    let ghost k0 = keep@;
    let sorted = sort_pool(pool, keys);
    let n: usize = if count < sorted.len() {
        count
    } else {
        sorted.len()
    };
    let mut rest: Vec<Pooled<'a>> = Vec::new();
    let mut j: usize = 0;
    while j < sorted.len()
        invariant
            n <= sorted@.len(),
            j <= sorted@.len(),
            j <= n ==> keep@ == k0 + unpool(sorted@.take(j as int)) && rest@.len() == 0,
            j > n ==> keep@ == k0 + unpool(sorted@.take(n as int)) && rest@ == sorted@.subrange(
                n as int,
                j as int,
            ),
            forall|m: int| 0 <= m < sorted@.len() ==> pool@.contains(#[trigger] sorted@[m]),
            forall|m: int| 0 <= m < rest@.len() ==> pool@.contains(#[trigger] rest@[m]),
        decreases sorted.len() - j,
    {
        if j < n {
            keep.push(sorted[j].1);
            assert(unpool(sorted@.take(j + 1)) =~= unpool(sorted@.take(j as int)).push(sorted@[j as int].1));
            assert(keep@ =~= k0 + unpool(sorted@.take(j + 1)));
        } else {
            rest.push(sorted[j]);
            assert(rest@ =~= sorted@.subrange(n as int, j + 1));
        }
        j = j + 1;
    }
    assert(rest@ =~= sorted@.skip(n as int));
    rest
}

// ---------------------------------------------------------------------------
// Policies
// ---------------------------------------------------------------------------

/// Ordered set of retention rules.
///
/// Rules are evaluated in insertion order. The first decision other than
/// [`RetentionDecision::Defer`] wins; `Defer` falls through to later rules
/// and finally to the default decision.
#[derive(Debug, Clone, PartialEq, Eq)]
pub struct RetentionPolicy {
    rules: Vec<RetentionRule>,
    default_decision: RetentionDecision,
}

/// The partitioned result of evaluating a batch of candidates.
#[derive(Debug, Clone)]
pub struct RetentionReport<'a> {
    /// Candidates the backend should retain.
    pub keep: Vec<RetentionCandidate<'a>>,
    /// Candidates the backend may delete, compact, or archive.
    pub drop: Vec<RetentionCandidate<'a>>,
    /// Candidates the backend should mark invalid in place.
    pub invalidate: Vec<RetentionCandidate<'a>>,
    /// Candidates where the policy had no opinion.
    pub defer: Vec<RetentionCandidate<'a>>,
}

impl<'a> RetentionReport<'a> {
    /// The four buckets, by their contents.
    pub open spec fn buckets(&self) -> Buckets<'a> {
        (self.keep@, self.drop@, self.invalidate@, self.defer@)
    }
}

impl<'a> Default for RetentionReport<'a> {
    /// A report with four empty buckets.
    fn default() -> (r: Self)
        ensures
            r.keep@.len() == 0,
            r.drop@.len() == 0,
            r.invalidate@.len() == 0,
            r.defer@.len() == 0,
    {
        RetentionReport { keep: Vec::new(), drop: Vec::new(), invalidate: Vec::new(), defer: Vec::new() }
    }
}

fn push_by_decision<'a>(
    d: RetentionDecision,
    c: RetentionCandidate<'a>,
    keep: &mut Vec<RetentionCandidate<'a>>,
    drop: &mut Vec<RetentionCandidate<'a>>,
    invalidate: &mut Vec<RetentionCandidate<'a>>,
    defer: &mut Vec<RetentionCandidate<'a>>,
)
    ensures
        final(keep)@ == (if d == RetentionDecision::Keep { old(keep)@.push(c) } else { old(keep)@ }),
        final(drop)@ == (if d == RetentionDecision::Drop { old(drop)@.push(c) } else { old(drop)@ }),
        final(invalidate)@ == (if d == RetentionDecision::Invalidate {
            old(invalidate)@.push(c)
        } else {
            old(invalidate)@
        }),
        final(defer)@ == (if d == RetentionDecision::Defer { old(defer)@.push(c) } else { old(defer)@ }),
{
    match d {
        RetentionDecision::Keep => keep.push(c),
        RetentionDecision::Drop => drop.push(c),
        RetentionDecision::Invalidate => invalidate.push(c),
        RetentionDecision::Defer => defer.push(c),
    }
}

impl Default for RetentionPolicy {
    /// An empty policy that defers every candidate.
    fn default() -> (p: Self)
        ensures
            p.spec_rules() == Seq::<RetentionRule>::empty(),
            p.spec_default() == RetentionDecision::Defer,
    {
        RetentionPolicy { rules: Vec::new(), default_decision: RetentionDecision::Defer }
    }
}

impl RetentionPolicy {
    /// The rules, in evaluation order.
    pub closed spec fn spec_rules(&self) -> Seq<RetentionRule> {
        self.rules@
    }

    /// The decision when no rule decides.
    pub closed spec fn spec_default(&self) -> RetentionDecision {
        self.default_decision
    }

    /// Construct an empty policy with [`RetentionDecision::Defer`] as default.
    pub fn new() -> (p: Self)
        ensures
            p.spec_rules() == Seq::<RetentionRule>::empty(),
            p.spec_default() == RetentionDecision::Defer,
    {
        RetentionPolicy { rules: Vec::new(), default_decision: RetentionDecision::Defer }
    }

    /// Add a custom rule to the end of the policy.
    pub fn rule(self, rule: RetentionRule) -> (p: Self)
        ensures
            p.spec_rules() == self.spec_rules().push(rule),
            p.spec_default() == self.spec_default(),
    {
        let mut rules = self.rules;
        rules.push(rule);
        RetentionPolicy { rules, default_decision: self.default_decision }
    }

    /// Set the decision returned when no rule matches.
    pub fn default_decision(self, decision: RetentionDecision) -> (p: Self)
        ensures
            p.spec_rules() == self.spec_rules(),
            p.spec_default() == decision,
    {
        RetentionPolicy { rules: self.rules, default_decision: decision }
    }

    /// Keep all compaction summaries.
    pub fn keep_summaries(self) -> (p: Self)
        ensures
            p.spec_rules() == self.spec_rules().push(RetentionRule::KeepFrameKind(FrameKind::CompactionSummary)),
            p.spec_default() == self.spec_default(),
    {
        self.rule(RetentionRule::KeepFrameKind(FrameKind::CompactionSummary))
    }

    /// Keep all demoted messages.
    pub fn keep_demoted_messages(self) -> (p: Self)
        ensures
            p.spec_rules() == self.spec_rules().push(RetentionRule::KeepFrameKind(FrameKind::DemotedMessage)),
            p.spec_default() == self.spec_default(),
    {
        self.rule(RetentionRule::KeepFrameKind(FrameKind::DemotedMessage))
    }

    /// Keep candidates in the required exact scope.
    pub fn keep_scope(self, scope: &str) -> (p: Self)
        ensures
            p.spec_rules().len() == self.spec_rules().len() + 1,
            p.spec_rules().drop_last() == self.spec_rules(),
            p.spec_rules().last() matches RetentionRule::KeepScope(s) && s@ == normalized(scope@),
            p.spec_default() == self.spec_default(),
    {
        let ghost old_rules = self.spec_rules();
        let p = self.rule(RetentionRule::KeepScope(Scope::new(scope)));
        assert(p.spec_rules().drop_last() =~= old_rules);
        p
    }

    /// Keep the `count` most recent candidates. Only
    /// [`RetentionPolicy::evaluate_batch`] applies this rule;
    /// [`RetentionPolicy::evaluate`] defers on it.
    pub fn keep_most_recent(self, count: usize) -> (p: Self)
        ensures
            p.spec_rules() == self.spec_rules().push(RetentionRule::KeepMostRecent { count }),
            p.spec_default() == self.spec_default(),
    {
        self.rule(RetentionRule::KeepMostRecent { count })
    }

    /// Keep the `count` highest-salience candidates, decaying recency by
    /// `half_life_ms` and evaluated at `as_of_unix_ms`. Only batch
    /// evaluation applies this rule.
    pub fn keep_top_by_salience(self, count: usize, half_life_ms: u64, as_of_unix_ms: u64) -> (p: Self)
        ensures
            p.spec_rules() == self.spec_rules().push(
                RetentionRule::KeepTopBySalience { count, half_life_ms, as_of_unix_ms },
            ),
            p.spec_default() == self.spec_default(),
    {
        self.rule(RetentionRule::KeepTopBySalience { count, half_life_ms, as_of_unix_ms })
    }

    /// Invalidate candidates whose valid-time ended at or before
    /// `as_of_unix_ms`.
    pub fn invalidate_expired(self, as_of_unix_ms: u64) -> (p: Self)
        ensures
            p.spec_rules() == self.spec_rules().push(RetentionRule::InvalidateExpired { as_of_unix_ms }),
            p.spec_default() == self.spec_default(),
    {
        self.rule(RetentionRule::InvalidateExpired { as_of_unix_ms })
    }

    /// Invalidate candidates that supersede an older entry.
    pub fn invalidate_superseded(self) -> (p: Self)
        ensures
            p.spec_rules() == self.spec_rules().push(RetentionRule::InvalidateSuperseded),
            p.spec_default() == self.spec_default(),
    {
        self.rule(RetentionRule::InvalidateSuperseded)
    }

    /// Keep candidates at or above `min_sequence`.
    pub fn keep_recent(self, min_sequence: u64) -> (p: Self)
        ensures
            p.spec_rules() == self.spec_rules().push(RetentionRule::KeepRecent { min_sequence }),
            p.spec_default() == self.spec_default(),
    {
        self.rule(RetentionRule::KeepRecent { min_sequence })
    }

    /// Drop candidates written before `older_than_unix_ms`.
    pub fn drop_written_before(self, older_than_unix_ms: u64) -> (p: Self)
        ensures
            p.spec_rules() == self.spec_rules().push(RetentionRule::DropWrittenBefore { older_than_unix_ms }),
            p.spec_default() == self.spec_default(),
    {
        self.rule(RetentionRule::DropWrittenBefore { older_than_unix_ms })
    }

    /// Drop candidates last accessed before `older_than_unix_ms`.
    pub fn drop_last_accessed_before(self, older_than_unix_ms: u64) -> (p: Self)
        ensures
            p.spec_rules() == self.spec_rules().push(
                RetentionRule::DropLastAccessedBefore { older_than_unix_ms },
            ),
            p.spec_default() == self.spec_default(),
    {
        self.rule(RetentionRule::DropLastAccessedBefore { older_than_unix_ms })
    }

    /// Drop candidates outside an exact scope. `None` keeps only unscoped
    /// candidates from matching this rule.
    pub fn drop_outside_scope(self, required_scope: Option<&str>) -> (p: Self)
        ensures
            p.spec_rules().len() == self.spec_rules().len() + 1,
            p.spec_rules().drop_last() == self.spec_rules(),
            p.spec_rules().last() matches RetentionRule::DropOutsideScope { required_scope: r }
                && opt_scope_view(r) == (match required_scope {
                    Some(s) => Some(normalized(s@)),
                    None => None,
                }),
            p.spec_default() == self.spec_default(),
    {
        let ghost old_rules = self.spec_rules();
        let required = match required_scope {
            Some(s) => Some(Scope::new(s)),
            None => None,
        };
        let p = self.rule(RetentionRule::DropOutsideScope { required_scope: required });
        assert(p.spec_rules().drop_last() =~= old_rules);
        p
    }

    /// Keep candidates with the provided host-defined retention label.
    pub fn keep_label(self, label: &str) -> (p: Self)
        ensures
            p.spec_rules().len() == self.spec_rules().len() + 1,
            p.spec_rules().drop_last() == self.spec_rules(),
            p.spec_rules().last() matches RetentionRule::KeepLabel(l) && l@ == label@,
            p.spec_default() == self.spec_default(),
    {
        let ghost old_rules = self.spec_rules();
        let p = self.rule(RetentionRule::KeepLabel(String::from_str(label)));
        assert(p.spec_rules().drop_last() =~= old_rules);
        p
    }

    /// Drop candidates with the provided host-defined retention label.
    pub fn drop_label(self, label: &str) -> (p: Self)
        ensures
            p.spec_rules().len() == self.spec_rules().len() + 1,
            p.spec_rules().drop_last() == self.spec_rules(),
            p.spec_rules().last() matches RetentionRule::DropLabel(l) && l@ == label@,
            p.spec_default() == self.spec_default(),
    {
        let ghost old_rules = self.spec_rules();
        let p = self.rule(RetentionRule::DropLabel(String::from_str(label)));
        assert(p.spec_rules().drop_last() =~= old_rules);
        p
    }

    /// Return the ordered rules in this policy.
    pub fn rules(&self) -> (r: &[RetentionRule])
        ensures
            r@ == self.spec_rules(),
    {
        self.rules.as_slice()
    }

    /// Evaluate one candidate against this policy: the first rule that does
    /// not defer decides, else the default decision.
    pub fn evaluate(&self, candidate: RetentionCandidate<'_>) -> (d: RetentionDecision)
        ensures
            d == first_decision(self.spec_rules(), self.spec_default(), candidate),
    {
        let mut i: usize = 0;
        assert(self.rules@.skip(0) =~= self.rules@);
        while i < self.rules.len()
            invariant
                i <= self.rules@.len(),
                first_decision(self.rules@, self.default_decision, candidate) == first_decision(
                    self.rules@.skip(i as int),
                    self.default_decision,
                    candidate,
                ),
            decreases self.rules.len() - i,
        {
            let d = self.rules[i].evaluate(candidate);
            assert(self.rules@.skip(i as int)[0] == self.rules@[i as int]);
            assert(self.rules@.skip(i as int).drop_first() =~= self.rules@.skip(i + 1));
            if d != RetentionDecision::Defer {
                return d;
            }
            i = i + 1;
        }
        assert(self.rules@.skip(i as int) =~= Seq::<RetentionRule>::empty());
        self.default_decision
    }

    /// Evaluate a batch of candidates against this policy.
    ///
    /// Rules apply in order to the candidates that no earlier rule decided.
    /// A per-candidate rule routes each of them by [`RetentionRule::evaluate`];
    /// `KeepMostRecent` keeps the `count` most recent of them (by sequence,
    /// then write timestamp, ties in pool order); `KeepTopBySalience` keeps
    /// the `count` with the highest salience, as ranked by
    /// `salience_keys[r][i]` for rule `r` and candidate `i` (ties in pool
    /// order). What is left after the last rule goes to the bucket of the
    /// default decision.
    pub fn evaluate_batch<'a>(
        &self,
        candidates: Vec<RetentionCandidate<'a>>,
        salience_keys: &Vec<Vec<i64>>,
    ) -> (report: RetentionReport<'a>)
        requires
            keys_cover(
                self.spec_rules(),
                salience_keys@.map_values(|v: Vec<i64>| v@),
                candidates@.len() as nat,
            ),
        ensures
            report.buckets() == batch_report(
                self.spec_rules(),
                self.spec_default(),
                salience_keys@.map_values(|v: Vec<i64>| v@),
                candidates@,
            ),
    {
        let ghost kv = salience_keys@.map_values(|v: Vec<i64>| v@);
        let ghost cands = candidates@;
        let ghost rules = self.rules@;
        let mut keep: Vec<RetentionCandidate<'a>> = Vec::new();
        let mut drop: Vec<RetentionCandidate<'a>> = Vec::new();
        let mut invalidate: Vec<RetentionCandidate<'a>> = Vec::new();
        let mut pool: Vec<Pooled<'a>> = Vec::new();
        let mut i: usize = 0;
        while i < candidates.len()
            invariant
                i <= cands.len(),
                cands == candidates@,
                pool@ == initial_pool(cands).take(i as int),
            decreases candidates.len() - i,
        {
            pool.push((i, candidates[i]));
            assert(pool@ =~= initial_pool(cands).take(i + 1));
            i = i + 1;
        }
        assert(initial_pool(cands).take(cands.len() as int) =~= initial_pool(cands));
        let mut r: usize = 0;
        while r < self.rules.len() && pool.len() > 0
            invariant
                r <= rules.len(),
                rules == self.rules@,
                keys_cover(rules, kv, cands.len() as nat),
                kv == salience_keys@.map_values(|v: Vec<i64>| v@),
                keep@ == batch_after(rules, kv, cands, r as nat).0,
                drop@ == batch_after(rules, kv, cands, r as nat).1,
                invalidate@ == batch_after(rules, kv, cands, r as nat).2,
                pool@ == batch_after(rules, kv, cands, r as nat).3,
                forall|j: int| 0 <= j < pool@.len() ==> (#[trigger] pool@[j]).0 < cands.len(),
            decreases rules.len() - r,
        {
            let ghost p0 = pool@;
            let ghost k0 = keep@;
            let ghost d0 = drop@;
            let ghost i0 = invalidate@;
            match &self.rules[r] {
                RetentionRule::KeepMostRecent { count } => {
                    pool = keep_top_pool(*count, None, pool, &mut keep);
                },
                RetentionRule::KeepTopBySalience { count, .. } => {
                    proof {
                        assert(rules[r as int] is KeepTopBySalience);
                        assert(kv[r as int] == salience_keys@[r as int]@);
                    }
                    pool = keep_top_pool(*count, Some(&salience_keys[r]), pool, &mut keep);
                },
                _ => {
                    pool = route_pool(&self.rules[r], pool, &mut keep, &mut drop, &mut invalidate);
                },
            }
            proof {
                assert forall|j: int| 0 <= j < pool@.len() implies (#[trigger] pool@[j]).0 < cands.len() by {
                    assert(p0.contains(pool@[j]));
                }
            }
            r = r + 1;
        }
        proof {
            if r < rules.len() {
                lemma_batch_after_empty_pool(rules, kv, cands, r as nat, rules.len());
            }
        }
        let ghost k1 = keep@;
        let ghost d1 = drop@;
        let ghost i1 = invalidate@;
        let mut defer: Vec<RetentionCandidate<'a>> = Vec::new();
        let mut j: usize = 0;
        while j < pool.len()
            invariant
                j <= pool@.len(),
                keep@ == (if self.default_decision == RetentionDecision::Keep {
                    k1 + unpool(pool@.take(j as int))
                } else {
                    k1
                }),
                drop@ == (if self.default_decision == RetentionDecision::Drop {
                    d1 + unpool(pool@.take(j as int))
                } else {
                    d1
                }),
                invalidate@ == (if self.default_decision == RetentionDecision::Invalidate {
                    i1 + unpool(pool@.take(j as int))
                } else {
                    i1
                }),
                defer@ == (if self.default_decision == RetentionDecision::Defer {
                    unpool(pool@.take(j as int))
                } else {
                    Seq::empty()
                }),
            decreases pool.len() - j,
        {
            let c = pool[j].1;
            assert(unpool(pool@.take(j + 1)) =~= unpool(pool@.take(j as int)).push(c));
            push_by_decision(self.default_decision, c, &mut keep, &mut drop, &mut invalidate, &mut defer);
            j = j + 1;
        }
        assert(pool@.take(pool@.len() as int) =~= pool@);
        assert(unpool(Seq::<Pooled<'a>>::empty()) =~= Seq::<RetentionCandidate<'a>>::empty());
        proof {
            assert(k1 + Seq::<RetentionCandidate<'a>>::empty() =~= k1);
            assert(d1 + Seq::<RetentionCandidate<'a>>::empty() =~= d1);
            assert(i1 + Seq::<RetentionCandidate<'a>>::empty() =~= i1);
        }
        RetentionReport { keep, drop, invalidate, defer }
    }
}

proof fn lemma_apply_rule_empty_pool<'a>(rule: RetentionRule, keys: Seq<i64>, st: BatchState<'a>)
    requires
        st.3.len() == 0,
    ensures
        apply_rule(rule, keys, st) =~= st,
{
    let e = Seq::<RetentionCandidate<'a>>::empty();
    assert(st.0 + e =~= st.0);
    assert(st.1 + e =~= st.1);
    assert(st.2 + e =~= st.2);
    assert(unpool(Seq::<Pooled<'a>>::empty()) =~= e);
    assert(st.3 =~= Seq::<Pooled<'a>>::empty());
    assert(st.3.skip(0) =~= st.3);
}

/// Once the pool is empty, later rules change nothing.
proof fn lemma_batch_after_empty_pool<'a>(
    rules: Seq<RetentionRule>,
    keys: Seq<Seq<i64>>,
    cands: Seq<RetentionCandidate<'a>>,
    r: nat,
    n: nat,
)
    requires
        r <= n,
        batch_after(rules, keys, cands, r).3.len() == 0,
    ensures
        batch_after(rules, keys, cands, n) =~= batch_after(rules, keys, cands, r),
    decreases n - r,
{
    if n > r {
        lemma_batch_after_empty_pool(rules, keys, cands, r, (n - 1) as nat);
        lemma_apply_rule_empty_pool(rules[n - 1], keys[n - 1], batch_after(rules, keys, cands, (n - 1) as nat));
    }
}

} // verus!
