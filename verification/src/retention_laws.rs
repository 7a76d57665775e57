//! Properties of retention evaluation that span several functions: the
//! ranking sort is a sort, a batch evaluation places every candidate in
//! exactly one bucket, and without ranking rules a batch evaluation decides
//! each candidate as a single evaluation would.

use vstd::prelude::*;

use crate::metadata::FrameKind;
use crate::scope::normalized;
use crate::retention::{
    apply_rule, batch_after, batch_report, first_decision, initial_pool, insert_pos, is_ranking_rule,
    keep_top, pool_before, route, rule_decision, stable_sort, unpool, Buckets, Pooled,
    RetentionCandidate, RetentionDecision, RetentionRule,
};

verus! {

broadcast use {
    vstd::seq_lib::group_to_multiset_ensures,
    vstd::seq_lib::lemma_multiset_commutative,
    vstd::multiset::group_multiset_axioms,
};

// ---------------------------------------------------------------------------
// Sorting
// ---------------------------------------------------------------------------

/// Whether `before` is a strict order: asymmetric and transitive.
pub open spec fn strict_order<A>(before: spec_fn(A, A) -> bool) -> bool {
    &&& forall|a: A, b: A| #[trigger] before(a, b) ==> !before(b, a)
    &&& forall|a: A, b: A, c: A| #[trigger] before(a, b) && #[trigger] before(b, c) ==> before(a, c)
}

/// Whether no element of `s` is strictly preceded by a later one.
pub open spec fn sorted_by_order<A>(s: Seq<A>, before: spec_fn(A, A) -> bool) -> bool {
    forall|i: int, j: int| 0 <= i < j < s.len() ==> !before(#[trigger] s[j], #[trigger] s[i])
}

proof fn lemma_insert_pos_props<A>(t: Seq<A>, x: A, before: spec_fn(A, A) -> bool)
    ensures
        0 <= insert_pos(t, x, before) <= t.len(),
        forall|k: int| 0 <= k < insert_pos(t, x, before) ==> !before(x, #[trigger] t[k]),
        insert_pos(t, x, before) < t.len() ==> before(x, t[insert_pos(t, x, before)]),
    decreases t.len(),
{
    if t.len() > 0 && !before(x, t[0]) {
        let u = t.drop_first();
        lemma_insert_pos_props(u, x, before);
        assert forall|k: int| 0 <= k < insert_pos(t, x, before) implies !before(x, #[trigger] t[k]) by {
            if k > 0 {
                assert(t[k] == u[k - 1]);
            }
        }
    }
}

/// The stable sort is a permutation of its input.
pub proof fn lemma_stable_sort_permutes<A>(s: Seq<A>, before: spec_fn(A, A) -> bool)
    ensures
        stable_sort(s, before).len() == s.len(),
        stable_sort(s, before).to_multiset() == s.to_multiset(),
    decreases s.len(),
{
    if s.len() > 0 {
        let t = stable_sort(s.drop_last(), before);
        lemma_stable_sort_permutes(s.drop_last(), before);
        lemma_insert_pos_props(t, s.last(), before);
        assert(s =~= s.drop_last().push(s.last()));
    }
}

/// Under a strict order, the stable sort is sorted.
pub proof fn lemma_stable_sort_sorted<A>(s: Seq<A>, before: spec_fn(A, A) -> bool)
    requires
        strict_order(before),
    ensures
        sorted_by_order(stable_sort(s, before), before),
    decreases s.len(),
{
    if s.len() > 0 {
        let t = stable_sort(s.drop_last(), before);
        let x = s.last();
        lemma_stable_sort_sorted(s.drop_last(), before);
        lemma_stable_sort_permutes(s.drop_last(), before);
        lemma_insert_pos_props(t, x, before);
        let p = insert_pos(t, x, before);
        let out = t.insert(p, x);
        assert forall|i: int, j: int| 0 <= i < j < out.len() implies !before(
            #[trigger] out[j],
            #[trigger] out[i],
        ) by {
            if j < p {
                assert(out[i] == t[i] && out[j] == t[j]);
            } else if j == p {
                assert(out[i] == t[i]);
            } else if i < p {
                assert(out[i] == t[i] && out[j] == t[j - 1]);
            } else if i == p {
                assert(out[j] == t[j - 1]);
                if before(t[j - 1], x) {
                    if j - 1 > p {
                        assert(!before(t[j - 1], t[p]));
                    }
                }
            } else {
                assert(out[i] == t[i - 1] && out[j] == t[j - 1]);
            }
        }
    }
}

/// Both ranking orders of the batch evaluation are strict orders.
pub proof fn lemma_pool_before_strict<'a>(keys: Option<Seq<i64>>)
    ensures
        strict_order(pool_before::<'a>(keys)),
{
}

/// A ranking rule keeps the top of the pool: after `keep_top`, no candidate
/// left in the pool outranks one that it kept, and the kept and remaining
/// candidates together are the pool it started from.
pub proof fn lemma_keep_top_keeps_best<'a>(
    count: usize,
    keys: Option<Seq<i64>>,
    pool: Seq<Pooled<'a>>,
)
    ensures
        ({
            let sorted = stable_sort(pool, pool_before::<'a>(keys));
            let n = if count < pool.len() {
                count as int
            } else {
                pool.len() as int
            };
            let st = keep_top(count, keys, (Seq::empty(), Seq::empty(), Seq::empty(), pool));
            &&& st.0.len() == n
            &&& st.3.len() == pool.len() - n
            &&& (sorted.take(n) + st.3).to_multiset() == pool.to_multiset()
            &&& forall|i: int, j: int|
                0 <= i < n && 0 <= j < st.3.len() ==> !pool_before::<'a>(keys)(
                    #[trigger] st.3[j],
                    #[trigger] sorted[i],
                )
        }),
{
    let before = pool_before::<'a>(keys);
    let sorted = stable_sort(pool, before);
    lemma_stable_sort_permutes(pool, before);
    assert(strict_order(before));
    lemma_stable_sort_sorted(pool, before);
    let n = if count < pool.len() {
        count as int
    } else {
        pool.len() as int
    };
    let st = keep_top(count, keys, (Seq::empty(), Seq::empty(), Seq::empty(), pool));
    assert(sorted.take(n) + sorted.skip(n) =~= sorted);
    assert(Seq::<RetentionCandidate<'a>>::empty() + unpool(sorted.take(n)) =~= unpool(sorted.take(n)));
    assert forall|i: int, j: int| 0 <= i < n && 0 <= j < st.3.len() implies !before(
        #[trigger] st.3[j],
        #[trigger] sorted[i],
    ) by {
        assert(st.3[j] == sorted[n + j]);
    }
}

// ---------------------------------------------------------------------------
// Every candidate lands in exactly one bucket
// ---------------------------------------------------------------------------

/// All four buckets, one after the other.
pub open spec fn all_buckets<'a>(b: Buckets<'a>) -> Seq<RetentionCandidate<'a>> {
    b.0 + b.1 + b.2 + b.3
}

proof fn lemma_unpool_push<'a>(p: Seq<Pooled<'a>>, e: Pooled<'a>)
    ensures
        unpool(p.push(e)) == unpool(p).push(e.1),
{
    assert(unpool(p.push(e)) =~= unpool(p).push(e.1));
}

proof fn lemma_unpool_add<'a>(a: Seq<Pooled<'a>>, b: Seq<Pooled<'a>>)
    ensures
        unpool(a + b) == unpool(a) + unpool(b),
{
    assert(unpool(a + b) =~= unpool(a) + unpool(b));
}

proof fn lemma_route_partitions<'a>(rule: RetentionRule, pool: Seq<Pooled<'a>>)
    ensures
        ({
            let r = route(rule, pool);
            (r.0 + r.1 + r.2 + unpool(r.3)).to_multiset() == unpool(pool).to_multiset()
        }),
    decreases pool.len(),
{
    if pool.len() == 0 {
        assert(unpool(pool) =~= Seq::<RetentionCandidate<'a>>::empty());
    } else {
        let q = pool.drop_last();
        let e = pool.last();
        lemma_route_partitions(rule, q);
        let r = route(rule, q);
        assert(pool =~= q.push(e));
        lemma_unpool_push(q, e);
        lemma_unpool_push(r.3, e);
    }
}

proof fn lemma_unpool_sort_multiset<'a>(s: Seq<Pooled<'a>>, before: spec_fn(Pooled<'a>, Pooled<'a>) -> bool)
    ensures
        unpool(stable_sort(s, before)).to_multiset() == unpool(s).to_multiset(),
    decreases s.len(),
{
    if s.len() > 0 {
        let t = stable_sort(s.drop_last(), before);
        let x = s.last();
        lemma_unpool_sort_multiset(s.drop_last(), before);
        lemma_stable_sort_permutes(s.drop_last(), before);
        lemma_insert_pos_props(t, x, before);
        let p = insert_pos(t, x, before);
        assert(unpool(t.insert(p, x)) =~= unpool(t).insert(p, x.1));
        assert(s =~= s.drop_last().push(x));
        lemma_unpool_push(s.drop_last(), x);
    }
}

proof fn lemma_apply_rule_partitions<'a>(rule: RetentionRule, keys: Seq<i64>, st: (
    Seq<RetentionCandidate<'a>>,
    Seq<RetentionCandidate<'a>>,
    Seq<RetentionCandidate<'a>>,
    Seq<Pooled<'a>>,
))
    ensures
        ({
            let n = apply_rule(rule, keys, st);
            (n.0 + n.1 + n.2 + unpool(n.3)).to_multiset() == (st.0 + st.1 + st.2 + unpool(
                st.3,
            )).to_multiset()
        }),
{
    match rule {
        RetentionRule::KeepMostRecent { count } => {
            lemma_keep_top_partitions(count, None, st);
        },
        RetentionRule::KeepTopBySalience { count, .. } => {
            lemma_keep_top_partitions(count, Some(keys), st);
        },
        _ => {
            lemma_route_partitions(rule, st.3);
        },
    }
}

proof fn lemma_keep_top_partitions<'a>(count: usize, keys: Option<Seq<i64>>, st: (
    Seq<RetentionCandidate<'a>>,
    Seq<RetentionCandidate<'a>>,
    Seq<RetentionCandidate<'a>>,
    Seq<Pooled<'a>>,
))
    ensures
        ({
            let n = keep_top(count, keys, st);
            (n.0 + n.1 + n.2 + unpool(n.3)).to_multiset() == (st.0 + st.1 + st.2 + unpool(
                st.3,
            )).to_multiset()
        }),
{
    let before = pool_before::<'a>(keys);
    let sorted = stable_sort(st.3, before);
    lemma_stable_sort_permutes(st.3, before);
    lemma_unpool_sort_multiset(st.3, before);
    let n = if count < sorted.len() {
        count as int
    } else {
        sorted.len() as int
    };
    assert(sorted.take(n) + sorted.skip(n) =~= sorted);
    lemma_unpool_add(sorted.take(n), sorted.skip(n));
}

proof fn lemma_batch_after_partitions<'a>(
    rules: Seq<RetentionRule>,
    keys: Seq<Seq<i64>>,
    cands: Seq<RetentionCandidate<'a>>,
    n: nat,
)
    ensures
        ({
            let st = batch_after(rules, keys, cands, n);
            (st.0 + st.1 + st.2 + unpool(st.3)).to_multiset() == cands.to_multiset()
        }),
    decreases n,
{
    if n == 0 {
        let e = Seq::<RetentionCandidate<'a>>::empty();
        assert(unpool(initial_pool(cands)) =~= cands);
        assert(e + e + e + cands =~= cands);
    } else {
        lemma_batch_after_partitions(rules, keys, cands, (n - 1) as nat);
        lemma_apply_rule_partitions(
            rules[n - 1],
            keys[n - 1],
            batch_after(rules, keys, cands, (n - 1) as nat),
        );
    }
}

/// A batch evaluation places every candidate in exactly one bucket: the four
/// buckets together hold the candidates, each as often as it was given.
pub proof fn lemma_batch_partitions<'a>(
    rules: Seq<RetentionRule>,
    default: RetentionDecision,
    keys: Seq<Seq<i64>>,
    cands: Seq<RetentionCandidate<'a>>,
)
    ensures
        all_buckets(batch_report(rules, default, keys, cands)).to_multiset() == cands.to_multiset(),
{
    lemma_batch_after_partitions(rules, keys, cands, rules.len());
    let st = batch_after(rules, keys, cands, rules.len());
    let rest = unpool(st.3);
    let e = Seq::<RetentionCandidate<'a>>::empty();
    assert(st.0 + st.1 + st.2 + rest + e =~= st.0 + st.1 + st.2 + rest);
}

// ---------------------------------------------------------------------------
// Batch and single evaluation agree without ranking rules
// ---------------------------------------------------------------------------

/// The first decision other than `Defer` among the first `n` rules, or
/// `Defer` when all of them defer.
pub open spec fn prefix_decision(rules: Seq<RetentionRule>, n: nat, c: RetentionCandidate) -> RetentionDecision
    decreases n,
{
    if n == 0 {
        RetentionDecision::Defer
    } else {
        let d = prefix_decision(rules, (n - 1) as nat, c);
        if d != RetentionDecision::Defer {
            d
        } else {
            rule_decision(rules[n - 1], c)
        }
    }
}

/// A predicate on candidates.
pub type CandidatePred<'a> = spec_fn(RetentionCandidate<'a>) -> bool;

/// The candidates of `s` on which `pred` holds, in order.
pub open spec fn select<'a>(s: Seq<RetentionCandidate<'a>>, pred: CandidatePred<'a>) -> Seq<RetentionCandidate<'a>>
    decreases s.len(),
{
    if s.len() == 0 {
        s
    } else if pred(s.last()) {
        select(s.drop_last(), pred).push(s.last())
    } else {
        select(s.drop_last(), pred)
    }
}

/// Candidates on which a single policy evaluation decides `d`.
pub open spec fn decided_by_policy<'a>(
    rules: Seq<RetentionRule>,
    default: RetentionDecision,
    d: RetentionDecision,
) -> CandidatePred<'a> {
    |c: RetentionCandidate<'a>| first_decision(rules, default, c) == d
}

/// Candidates on which the first `n` rules decide `d`.
pub open spec fn decided_by_prefix<'a>(rules: Seq<RetentionRule>, n: nat, d: RetentionDecision) -> CandidatePred<'a> {
    |c: RetentionCandidate<'a>| prefix_decision(rules, n, c) == d
}

/// Candidates on which `rule` decides `d`.
pub open spec fn decided_by_rule<'a>(rule: RetentionRule, d: RetentionDecision) -> CandidatePred<'a> {
    |c: RetentionCandidate<'a>| rule_decision(rule, c) == d
}

pub open spec fn both<'a>(p: CandidatePred<'a>, q: CandidatePred<'a>) -> CandidatePred<'a> {
    |c: RetentionCandidate<'a>| p(c) && q(c)
}

pub open spec fn either<'a>(p: CandidatePred<'a>, q: CandidatePred<'a>) -> CandidatePred<'a> {
    |c: RetentionCandidate<'a>| p(c) || q(c)
}

proof fn lemma_select_ext<'a>(s: Seq<RetentionCandidate<'a>>, p: CandidatePred<'a>, q: CandidatePred<'a>)
    requires
        forall|c: RetentionCandidate<'a>| #[trigger] p(c) == q(c),
    ensures
        select(s, p) == select(s, q),
    decreases s.len(),
{
    if s.len() > 0 {
        lemma_select_ext(s.drop_last(), p, q);
    }
}

proof fn lemma_select_select<'a>(s: Seq<RetentionCandidate<'a>>, p: CandidatePred<'a>, q: CandidatePred<'a>)
    ensures
        select(select(s, p), q) == select(s, both(p, q)),
    decreases s.len(),
{
    if s.len() > 0 {
        lemma_select_select(s.drop_last(), p, q);
        let t = select(s.drop_last(), p);
        if p(s.last()) {
            assert(t.push(s.last()).drop_last() =~= t);
        }
    }
}

proof fn lemma_select_split<'a>(s: Seq<RetentionCandidate<'a>>, p: CandidatePred<'a>, q: CandidatePred<'a>)
    requires
        forall|c: RetentionCandidate<'a>| #[trigger] p(c) ==> !q(c),
    ensures
        select(s, either(p, q)).to_multiset() == select(s, p).to_multiset().add(
            select(s, q).to_multiset(),
        ),
    decreases s.len(),
{
    if s.len() > 0 {
        lemma_select_split(s.drop_last(), p, q);
    }
}

proof fn lemma_select_none<'a>(s: Seq<RetentionCandidate<'a>>, p: CandidatePred<'a>)
    requires
        forall|c: RetentionCandidate<'a>| !#[trigger] p(c),
    ensures
        select(s, p) == Seq::<RetentionCandidate<'a>>::empty(),
    decreases s.len(),
{
    if s.len() > 0 {
        lemma_select_none(s.drop_last(), p);
    }
}

proof fn lemma_select_all<'a>(s: Seq<RetentionCandidate<'a>>, p: CandidatePred<'a>)
    requires
        forall|c: RetentionCandidate<'a>| #[trigger] p(c),
    ensures
        select(s, p) == s,
    decreases s.len(),
{
    if s.len() > 0 {
        lemma_select_all(s.drop_last(), p);
        assert(s.drop_last().push(s.last()) =~= s);
    }
}

/// What `route` sends to each bucket is the pool selected by the rule's
/// decision.
proof fn lemma_route_selects<'a>(rule: RetentionRule, pool: Seq<Pooled<'a>>)
    ensures
        route(rule, pool).0 == select(unpool(pool), decided_by_rule(rule, RetentionDecision::Keep)),
        route(rule, pool).1 == select(unpool(pool), decided_by_rule(rule, RetentionDecision::Drop)),
        route(rule, pool).2 == select(unpool(pool), decided_by_rule(rule, RetentionDecision::Invalidate)),
        unpool(route(rule, pool).3) == select(unpool(pool), decided_by_rule(rule, RetentionDecision::Defer)),
    decreases pool.len(),
{
    if pool.len() == 0 {
        assert(unpool(pool) =~= Seq::<RetentionCandidate<'a>>::empty());
        assert(unpool(Seq::<Pooled<'a>>::empty()) =~= Seq::<RetentionCandidate<'a>>::empty());
    } else {
        let q = pool.drop_last();
        let e = pool.last();
        lemma_route_selects(rule, q);
        assert(pool =~= q.push(e));
        lemma_unpool_push(q, e);
        assert(unpool(pool).drop_last() =~= unpool(q));
        lemma_unpool_push(route(rule, q).3, e);
    }
}

/// The facts that hold after the first `n` rules when none of them ranks.
pub open spec fn agrees_after<'a>(
    rules: Seq<RetentionRule>,
    st: (
        Seq<RetentionCandidate<'a>>,
        Seq<RetentionCandidate<'a>>,
        Seq<RetentionCandidate<'a>>,
        Seq<Pooled<'a>>,
    ),
    cands: Seq<RetentionCandidate<'a>>,
    n: nat,
) -> bool {
    &&& st.0.to_multiset() == select(cands, decided_by_prefix(rules, n, RetentionDecision::Keep)).to_multiset()
    &&& st.1.to_multiset() == select(cands, decided_by_prefix(rules, n, RetentionDecision::Drop)).to_multiset()
    &&& st.2.to_multiset() == select(
        cands,
        decided_by_prefix(rules, n, RetentionDecision::Invalidate),
    ).to_multiset()
    &&& unpool(st.3) == select(cands, decided_by_prefix(rules, n, RetentionDecision::Defer))
}

proof fn lemma_step_bucket<'a>(
    rules: Seq<RetentionRule>,
    cands: Seq<RetentionCandidate<'a>>,
    n: nat,
    d: RetentionDecision,
)
    requires
        0 < n <= rules.len(),
    ensures
        d != RetentionDecision::Defer ==> select(cands, decided_by_prefix(rules, (n - 1) as nat, d)).to_multiset().add(
            select(
                select(cands, decided_by_prefix(rules, (n - 1) as nat, RetentionDecision::Defer)),
                decided_by_rule(rules[n - 1], d),
            ).to_multiset(),
        ) == select(cands, decided_by_prefix(rules, n, d)).to_multiset(),
        d == RetentionDecision::Defer ==> select(
            select(cands, decided_by_prefix(rules, (n - 1) as nat, RetentionDecision::Defer)),
            decided_by_rule(rules[n - 1], d),
        ) == select(cands, decided_by_prefix(rules, n, d)),
{
    let m = (n - 1) as nat;
    let rule = rules[m as int];
    let p_prev = decided_by_prefix::<'a>(rules, m, d);
    let p_def = decided_by_prefix::<'a>(rules, m, RetentionDecision::Defer);
    let p_rule = decided_by_rule::<'a>(rule, d);
    lemma_select_select(cands, p_def, p_rule);
    if d != RetentionDecision::Defer {
        lemma_select_split(cands, p_prev, both(p_def, p_rule));
        lemma_select_ext(cands, either(p_prev, both(p_def, p_rule)), decided_by_prefix(rules, n, d));
    } else {
        lemma_select_ext(cands, both(p_def, p_rule), decided_by_prefix(rules, n, d));
    }
}

proof fn lemma_agrees_after<'a>(
    rules: Seq<RetentionRule>,
    keys: Seq<Seq<i64>>,
    cands: Seq<RetentionCandidate<'a>>,
    n: nat,
)
    requires
        n <= rules.len(),
        forall|r: int| 0 <= r < n ==> !is_ranking_rule(#[trigger] rules[r]),
    ensures
        agrees_after(rules, batch_after(rules, keys, cands, n), cands, n),
    decreases n,
{
    if n == 0 {
        assert(unpool(initial_pool(cands)) =~= cands);
        lemma_select_all(cands, decided_by_prefix(rules, 0, RetentionDecision::Defer));
        lemma_select_none(cands, decided_by_prefix(rules, 0, RetentionDecision::Keep));
        lemma_select_none(cands, decided_by_prefix(rules, 0, RetentionDecision::Drop));
        lemma_select_none(cands, decided_by_prefix(rules, 0, RetentionDecision::Invalidate));
    } else {
        let m = (n - 1) as nat;
        lemma_agrees_after(rules, keys, cands, m);
        let rule = rules[m as int];
        assert(!is_ranking_rule(rule));
        let st = batch_after(rules, keys, cands, m);
        lemma_route_selects(rule, st.3);
        lemma_step_bucket(rules, cands, n, RetentionDecision::Keep);
        lemma_step_bucket(rules, cands, n, RetentionDecision::Drop);
        lemma_step_bucket(rules, cands, n, RetentionDecision::Invalidate);
        lemma_step_bucket(rules, cands, n, RetentionDecision::Defer);
        let r = route(rule, st.3);
        assert(batch_after(rules, keys, cands, n) == (st.0 + r.0, st.1 + r.1, st.2 + r.2, r.3));
    }
}

proof fn lemma_first_decision_prefix(
    rules: Seq<RetentionRule>,
    default: RetentionDecision,
    c: RetentionCandidate,
    n: nat,
)
    requires
        n <= rules.len(),
    ensures
        first_decision(rules, default, c) == (if prefix_decision(rules, n, c) != RetentionDecision::Defer {
            prefix_decision(rules, n, c)
        } else {
            first_decision(rules.skip(n as int), default, c)
        }),
    decreases n,
{
    if n == 0 {
        assert(rules.skip(0) =~= rules);
    } else {
        let m = (n - 1) as nat;
        lemma_first_decision_prefix(rules, default, c, m);
        assert(rules.skip(m as int)[0] == rules[m as int]);
        assert(rules.skip(m as int).drop_first() =~= rules.skip(n as int));
    }
}

proof fn lemma_final_bucket<'a>(
    rules: Seq<RetentionRule>,
    default: RetentionDecision,
    cands: Seq<RetentionCandidate<'a>>,
    d: RetentionDecision,
)
    ensures
        ({
            let n = rules.len();
            let fd = select(cands, decided_by_policy(rules, default, d));
            let pd = select(cands, decided_by_prefix(rules, n, d));
            let pdefer = select(cands, decided_by_prefix(rules, n, RetentionDecision::Defer));
            if d == default && d != RetentionDecision::Defer {
                fd.to_multiset() == pd.to_multiset().add(pdefer.to_multiset())
            } else if d != RetentionDecision::Defer {
                fd == pd
            } else if default == RetentionDecision::Defer {
                fd == pdefer
            } else {
                fd == Seq::<RetentionCandidate<'a>>::empty()
            }
        }),
{
    let n = rules.len();
    let defer = RetentionDecision::Defer;
    assert forall|c: RetentionCandidate<'a>| #[trigger] first_decision(rules, default, c) == (if prefix_decision(
        rules,
        n,
        c,
    ) != defer {
        prefix_decision(rules, n, c)
    } else {
        default
    }) by {
        lemma_first_decision_prefix(rules, default, c, n);
        assert(rules.skip(n as int) =~= Seq::<RetentionRule>::empty());
    }
    let p_fd = decided_by_policy::<'a>(rules, default, d);
    let p_pd = decided_by_prefix::<'a>(rules, n, d);
    let p_def = decided_by_prefix::<'a>(rules, n, defer);
    if d == default && d != defer {
        lemma_select_split(cands, p_pd, p_def);
        assert forall|c: RetentionCandidate<'a>| #[trigger] either(p_pd, p_def)(c) == p_fd(c) by {
            assert(first_decision(rules, default, c) == first_decision(rules, default, c));
        }
        lemma_select_ext(cands, either(p_pd, p_def), p_fd);
    } else if d != defer {
        assert forall|c: RetentionCandidate<'a>| #[trigger] p_fd(c) == p_pd(c) by {
            assert(first_decision(rules, default, c) == first_decision(rules, default, c));
        }
        lemma_select_ext(cands, p_fd, p_pd);
    } else if default == defer {
        assert forall|c: RetentionCandidate<'a>| #[trigger] p_fd(c) == p_def(c) by {
            assert(first_decision(rules, default, c) == first_decision(rules, default, c));
        }
        lemma_select_ext(cands, p_fd, p_def);
    } else {
        assert forall|c: RetentionCandidate<'a>| !#[trigger] p_fd(c) by {
            assert(first_decision(rules, default, c) == first_decision(rules, default, c));
        }
        lemma_select_none(cands, p_fd);
    }
}

/// Without ranking rules, a batch evaluation decides every candidate as
/// [`crate::retention::RetentionPolicy::evaluate`] does: each bucket holds
/// exactly the candidates whose single evaluation gives its decision (the
/// deferred ones even in their original order).
pub proof fn lemma_batch_agrees_with_evaluate<'a>(
    rules: Seq<RetentionRule>,
    default: RetentionDecision,
    keys: Seq<Seq<i64>>,
    cands: Seq<RetentionCandidate<'a>>,
)
    requires
        forall|r: int| 0 <= r < rules.len() ==> !is_ranking_rule(#[trigger] rules[r]),
    ensures
        batch_report(rules, default, keys, cands).0.to_multiset() == select(
            cands,
            decided_by_policy(rules, default, RetentionDecision::Keep),
        ).to_multiset(),
        batch_report(rules, default, keys, cands).1.to_multiset() == select(
            cands,
            decided_by_policy(rules, default, RetentionDecision::Drop),
        ).to_multiset(),
        batch_report(rules, default, keys, cands).2.to_multiset() == select(
            cands,
            decided_by_policy(rules, default, RetentionDecision::Invalidate),
        ).to_multiset(),
        batch_report(rules, default, keys, cands).3 == select(
            cands,
            decided_by_policy(rules, default, RetentionDecision::Defer),
        ),
{
    let n = rules.len();
    lemma_agrees_after(rules, keys, cands, n);
    let st = batch_after(rules, keys, cands, n);
    lemma_final_bucket(rules, default, cands, RetentionDecision::Keep);
    lemma_final_bucket(rules, default, cands, RetentionDecision::Drop);
    lemma_final_bucket(rules, default, cands, RetentionDecision::Invalidate);
    lemma_final_bucket(rules, default, cands, RetentionDecision::Defer);
}

// ---------------------------------------------------------------------------
// What each rule decides
// ---------------------------------------------------------------------------

/// The time and sequence rules compare one candidate fact against the
/// rule's threshold; a candidate without that fact is deferred:
/// `KeepRecent` keeps exactly the candidates whose sequence is at least the
/// minimum; `DropWrittenBefore` and `DropLastAccessedBefore` drop exactly
/// the candidates written, or last accessed, strictly before the threshold;
/// `InvalidateExpired` invalidates exactly the candidates whose valid time
/// ended at or before the instant. Every other candidate is deferred.
pub proof fn lemma_threshold_rules(c: RetentionCandidate, t: u64)
    ensures
        rule_decision(RetentionRule::KeepRecent { min_sequence: t }, c) == (if c.sequence is Some
            && c.sequence->0 >= t {
            RetentionDecision::Keep
        } else {
            RetentionDecision::Defer
        }),
        rule_decision(RetentionRule::DropWrittenBefore { older_than_unix_ms: t }, c) == (if c.written_at_unix_ms
            is Some && c.written_at_unix_ms->0 < t {
            RetentionDecision::Drop
        } else {
            RetentionDecision::Defer
        }),
        rule_decision(RetentionRule::DropLastAccessedBefore { older_than_unix_ms: t }, c) == (
        if c.last_accessed_unix_ms is Some && c.last_accessed_unix_ms->0 < t {
            RetentionDecision::Drop
        } else {
            RetentionDecision::Defer
        }),
        rule_decision(RetentionRule::InvalidateExpired { as_of_unix_ms: t }, c) == (if c.valid_to_unix_ms
            is Some && c.valid_to_unix_ms->0 <= t {
            RetentionDecision::Invalidate
        } else {
            RetentionDecision::Defer
        }),
{
}

/// The matching rules: a frame-kind rule keeps exactly the candidates of
/// that kind; a label rule keeps, or drops, exactly the candidates whose
/// label has the same characters; `InvalidateSuperseded` invalidates exactly
/// the candidates that supersede something; the two ranking rules defer
/// every single candidate. Every other candidate is deferred.
pub proof fn lemma_matching_rules(c: RetentionCandidate, kind: FrameKind, label: String, count: usize, h: u64, t: u64)
    ensures
        rule_decision(RetentionRule::KeepFrameKind(kind), c) == (if c.metadata.kind == kind {
            RetentionDecision::Keep
        } else {
            RetentionDecision::Defer
        }),
        rule_decision(RetentionRule::KeepLabel(label), c) == (if c.retention_label is Some
            && c.retention_label->0@ == label@ {
            RetentionDecision::Keep
        } else {
            RetentionDecision::Defer
        }),
        rule_decision(RetentionRule::DropLabel(label), c) == (if c.retention_label is Some
            && c.retention_label->0@ == label@ {
            RetentionDecision::Drop
        } else {
            RetentionDecision::Defer
        }),
        rule_decision(RetentionRule::InvalidateSuperseded, c) == (if c.supersedes is Some {
            RetentionDecision::Invalidate
        } else {
            RetentionDecision::Defer
        }),
        rule_decision(RetentionRule::KeepMostRecent { count }, c) == RetentionDecision::Defer,
        rule_decision(RetentionRule::KeepTopBySalience { count, half_life_ms: h, as_of_unix_ms: t }, c)
            == RetentionDecision::Defer,
{
}

/// The scope rules compare normalized scope texts for equality: `KeepScope`
/// keeps exactly the candidates whose normalized scope equals the rule's; a
/// `DropOutsideScope` with a scope defers exactly those candidates and
/// drops every other one, including unscoped ones; one without a scope
/// defers exactly the unscoped candidates and those whose scope normalizes
/// to nothing.
pub proof fn lemma_scope_rules(c: RetentionCandidate, scope: crate::scope::Scope)
    ensures
        rule_decision(RetentionRule::KeepScope(scope), c) == (if c.metadata.scope is Some
            && normalized(c.metadata.scope->0@) == scope@ {
            RetentionDecision::Keep
        } else {
            RetentionDecision::Defer
        }),
        rule_decision(RetentionRule::DropOutsideScope { required_scope: Some(scope) }, c) == (
        if c.metadata.scope is Some && normalized(c.metadata.scope->0@) == normalized(scope@) {
            RetentionDecision::Defer
        } else {
            RetentionDecision::Drop
        }),
        rule_decision(RetentionRule::DropOutsideScope { required_scope: None }, c) == (if c.metadata.scope
            is None || normalized(c.metadata.scope->0@).len() == 0 {
            RetentionDecision::Defer
        } else {
            RetentionDecision::Drop
        }),
{
}

/// A policy decides as its first rule that does not defer, and as its
/// default when every rule defers.
pub proof fn lemma_first_rule_wins(
    rules: Seq<RetentionRule>,
    default: RetentionDecision,
    c: RetentionCandidate,
    i: int,
)
    requires
        0 <= i < rules.len(),
        rule_decision(rules[i], c) != RetentionDecision::Defer,
        forall|j: int| 0 <= j < i ==> rule_decision(#[trigger] rules[j], c) == RetentionDecision::Defer,
    ensures
        first_decision(rules, default, c) == rule_decision(rules[i], c),
    decreases i,
{
    if i > 0 {
        assert(rule_decision(rules[0], c) == RetentionDecision::Defer);
        let rest = rules.drop_first();
        assert forall|j: int| 0 <= j < i - 1 implies rule_decision(#[trigger] rest[j], c)
            == RetentionDecision::Defer by {
            assert(rest[j] == rules[j + 1]);
        }
        assert(rest[i - 1] == rules[i]);
        lemma_first_rule_wins(rest, default, c, i - 1);
    }
}

/// A policy whose rules all defer decides its default.
pub proof fn lemma_all_defer_gives_default(
    rules: Seq<RetentionRule>,
    default: RetentionDecision,
    c: RetentionCandidate,
)
    requires
        forall|j: int| 0 <= j < rules.len() ==> rule_decision(#[trigger] rules[j], c) == RetentionDecision::Defer,
    ensures
        first_decision(rules, default, c) == default,
    decreases rules.len(),
{
    if rules.len() > 0 {
        assert(rule_decision(rules[0], c) == RetentionDecision::Defer);
        let rest = rules.drop_first();
        assert forall|j: int| 0 <= j < rest.len() implies rule_decision(#[trigger] rest[j], c)
            == RetentionDecision::Defer by {
            assert(rest[j] == rules[j + 1]);
        }
        lemma_all_defer_gives_default(rest, default, c);
    }
}

} // verus!
