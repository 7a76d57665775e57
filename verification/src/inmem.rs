//! In-memory append-only episode store with lexical retrieval.
//!
//! [`InMemoryStore`] is a no-disk reference memory backend: it keeps
//! episodes in a `Vec` and ranks them by a deterministic token-overlap score.
//! It is meant for tests, examples, offline modes and adapters that need an
//! [`Episode`]-shaped retrieval surface without a persistent store.
//!
//! The lexical score of an episode is the fraction of distinct query terms
//! that also occur in its summary; terms are whitespace-delimited words,
//! trimmed of non-alphanumeric characters at both ends and lowercased. Since
//! every hit of one query shares the denominator, hits rank by the number of
//! shared terms, which [`LexicalHit`] reports together with the number of
//! query terms.

use vstd::prelude::*;

use crate::dedup::{lemma_whitespace_separates_tokens, hex_digit, lemma_lex_lt_common_prefix, nibble_to_hex, lemma_lex_lt_irreflexive, lex_lt, text_tokens};
use crate::error::PolicyError;
use crate::pieces::{bounded_view, bounds_ok, piece_bounds, Separator, Strip};
use crate::retention::{insert_pos, lemma_insert_pos_is, stable_sort};
use crate::text::{chars_of, lowercase, push_char, str_eq, string_of_range, to_lowercase};

verus! {

// ---------------------------------------------------------------------------
// Terms and overlap
// ---------------------------------------------------------------------------

/// The distinct lowercase terms of a text.
pub open spec fn terms(s: Seq<char>) -> Set<Seq<char>> {
    text_tokens(s).map_values(|t: Seq<char>| lowercase(t)).to_set()
}

/// The number of distinct query terms that the summary also has.
pub open spec fn overlap(query: Seq<char>, summary: Seq<char>) -> nat {
    terms(query).intersect(terms(summary)).len()
}

/// Every Unicode `White_Space` character separates terms: the terms of `x`,
/// one whitespace character and `y` are the terms of `x` together with the
/// terms of `y`.
pub proof fn lemma_whitespace_separates_terms(x: Seq<char>, c: char, y: Seq<char>)
    requires
        c == '\t' || c == '\n' || c == '\u{b}' || c == '\u{c}' || c == '\r' || c == ' ' || c == '\u{85}' || c == '\u{a0}'
            || c == '\u{1680}' || ('\u{2000}' <= c && c <= '\u{200a}') || c == '\u{2028}' || c == '\u{2029}'
            || c == '\u{202f}' || c == '\u{205f}' || c == '\u{3000}',
    ensures
        terms(x.push(c) + y) == terms(x).union(terms(y)),
{
    lemma_whitespace_separates_tokens(x, c, y);
    let f = |t: Seq<char>| lowercase(t);
    let a = text_tokens(x).map_values(f);
    let b = text_tokens(y).map_values(f);
    assert(text_tokens(x.push(c) + y).map_values(f) =~= a + b);
    assert forall|t: Seq<char>| (a + b).contains(t) <==> a.contains(t) || b.contains(t) by {
        if (a + b).contains(t) {
            let i = choose|i: int| 0 <= i < (a + b).len() && (a + b)[i] == t;
            if i >= a.len() {
                assert(b[i - a.len()] == t);
            }
        }
        if a.contains(t) {
            let i = choose|i: int| 0 <= i < a.len() && a[i] == t;
            assert((a + b)[i] == t);
        }
        if b.contains(t) {
            let i = choose|i: int| 0 <= i < b.len() && b[i] == t;
            assert((a + b)[a.len() + i] == t);
        }
    }
    assert((a + b).to_set() =~= a.to_set().union(b.to_set()));
}

/// The distinct terms of a text, in order of first occurrence.
fn distinct_terms(text: &str) -> (out: Vec<String>)
    ensures
        out@.map_values(|s: String| s@).no_duplicates(),
        out@.map_values(|s: String| s@).to_set() == terms(text@),
{
    let cs = chars_of(text);
    let bounds = piece_bounds(&cs, Separator::Whitespace, Strip::NonAlphanumeric);
    let ghost tokens = bounded_view(cs@, bounds@);
    let ghost lowered = tokens.map_values(|t: Seq<char>| lowercase(t));
    assert(tokens == text_tokens(text@));
    let mut out: Vec<String> = Vec::new();
    let mut k: usize = 0;
    while k < bounds.len()
        invariant
            k <= bounds@.len(),
            bounds_ok(cs@, bounds@),
            tokens == bounded_view(cs@, bounds@),
            lowered == tokens.map_values(|t: Seq<char>| lowercase(t)),
            out@.map_values(|s: String| s@).no_duplicates(),
            out@.map_values(|s: String| s@).to_set() == lowered.take(k as int).to_set(),
        decreases bounds.len() - k,
    {
        let (lo, hi) = bounds[k];
        assert(bounds_ok(cs@, bounds@) ==> bounds@[k as int].0 <= bounds@[k as int].1 && bounds@[k as int].1
            <= cs@.len());
        let token = string_of_range(&cs, lo, hi);
        let term = to_lowercase(token.as_str());
        assert(term@ == lowered[k as int]);
        let ghost ov = out@.map_values(|s: String| s@);
        let mut seen = false;
        let mut j: usize = 0;
        while j < out.len()
            invariant
                j <= out@.len(),
                ov == out@.map_values(|s: String| s@),
                seen <==> exists|m: int| 0 <= m < j && ov[m] == term@,
            decreases out.len() - j,
        {
            assert(ov[j as int] == out@[j as int]@);
            if str_eq(out[j].as_str(), term.as_str()) {
                seen = true;
            }
            j = j + 1;
        }
        proof {
            let t = lowered.take(k + 1);
            assert(t =~= lowered.take(k as int).push(term@));
            assert forall|x: Seq<char>| t.to_set().contains(x) <==> (lowered.take(k as int).to_set().contains(x)
                || x == term@) by {
                if t.contains(x) {
                    let m = choose|m: int| 0 <= m < t.len() && t[m] == x;
                    if m < k {
                        assert(lowered.take(k as int)[m] == x);
                    }
                }
                if lowered.take(k as int).contains(x) {
                    let m = choose|m: int| 0 <= m < k && lowered.take(k as int)[m] == x;
                    assert(t[m] == x);
                }
                if x == term@ {
                    assert(t[k as int] == x);
                }
            }
        }
        if !seen {
            out.push(term);
            proof {
                let nv = out@.map_values(|s: String| s@);
                assert(nv =~= ov.push(term@));
                assert(!ov.contains(term@));
                assert forall|a: int, b: int| 0 <= a < nv.len() && 0 <= b < nv.len() && a != b implies nv[a]
                    != nv[b] by {
                    if a == ov.len() {
                        assert(nv[b] == ov[b]);
                        if ov[b] == term@ {
                            assert(ov.contains(term@));
                        }
                    } else if b == ov.len() {
                        assert(nv[a] == ov[a]);
                        if ov[a] == term@ {
                            assert(ov.contains(term@));
                        }
                    } else {
                        assert(nv[a] == ov[a] && nv[b] == ov[b]);
                    }
                }
                assert forall|x: Seq<char>| nv.contains(x) <==> (ov.contains(x) || x == term@) by {
                    if nv.contains(x) {
                        let m = choose|m: int| 0 <= m < nv.len() && nv[m] == x;
                        if m < ov.len() {
                            assert(ov[m] == x);
                        }
                    }
                    if ov.contains(x) {
                        let m = choose|m: int| 0 <= m < ov.len() && ov[m] == x;
                        assert(nv[m] == x);
                    }
                    if x == term@ {
                        assert(nv[ov.len() as int] == x);
                    }
                }
                assert(nv.to_set() =~= lowered.take(k + 1).to_set());
            }
        } else {
            proof {
                assert(ov.contains(term@));
                assert(ov.to_set() =~= lowered.take(k + 1).to_set());
            }
        }
        k = k + 1;
    }
    assert(lowered.take(bounds@.len() as int) =~= lowered);
    out
}

/// The number of terms of `query_terms` that `summary_terms` has too.
fn count_shared(query_terms: &Vec<String>, summary_terms: &Vec<String>) -> (n: usize)
    requires
        query_terms@.map_values(|s: String| s@).no_duplicates(),
    ensures
        n == query_terms@.map_values(|s: String| s@).to_set().intersect(
            summary_terms@.map_values(|s: String| s@).to_set(),
        ).len(),
{
    let ghost qv = query_terms@.map_values(|s: String| s@);
    let ghost sv = summary_terms@.map_values(|s: String| s@);
    let ghost mut shared: Seq<Seq<char>> = Seq::empty();
    let mut n: usize = 0;
    let mut i: usize = 0;
    while i < query_terms.len()
        invariant
            i <= query_terms@.len(),
            qv == query_terms@.map_values(|s: String| s@),
            sv == summary_terms@.map_values(|s: String| s@),
            qv.no_duplicates(),
            shared.no_duplicates(),
            n == shared.len(),
            n <= i,
            shared.to_set() == qv.take(i as int).to_set().intersect(sv.to_set()),
            forall|x: Seq<char>| shared.contains(x) ==> qv.take(i as int).contains(x),
        decreases query_terms.len() - i,
    {
        let mut found = false;
        let mut j: usize = 0;
        while j < summary_terms.len()
            invariant
                j <= summary_terms@.len(),
                sv == summary_terms@.map_values(|s: String| s@),
                i < qv.len(),
                qv == query_terms@.map_values(|s: String| s@),
                found <==> exists|m: int| 0 <= m < j && sv[m] == qv[i as int],
            decreases summary_terms.len() - j,
        {
            assert(sv[j as int] == summary_terms@[j as int]@);
            assert(qv[i as int] == query_terms@[i as int]@);
            if str_eq(summary_terms[j].as_str(), query_terms[i].as_str()) {
                found = true;
            }
            j = j + 1;
        }
        let ghost q = qv[i as int];
        let ghost t = qv.take(i + 1);
        proof {
            assert(t =~= qv.take(i as int).push(q));
            assert(!qv.take(i as int).contains(q)) by {
                if qv.take(i as int).contains(q) {
                    let m = choose|m: int| 0 <= m < i && qv.take(i as int)[m] == q;
                    assert(qv[m] == qv[i as int]);
                }
            }
            assert forall|x: Seq<char>| t.to_set().contains(x) <==> (qv.take(i as int).to_set().contains(x)
                || x == q) by {
                if t.contains(x) {
                    let m = choose|m: int| 0 <= m < t.len() && t[m] == x;
                    if m < i {
                        assert(qv.take(i as int)[m] == x);
                    }
                }
                if qv.take(i as int).contains(x) {
                    let m = choose|m: int| 0 <= m < i && qv.take(i as int)[m] == x;
                    assert(t[m] == x);
                }
                if x == q {
                    assert(t[i as int] == x);
                }
            }
            assert(found <==> sv.contains(q));
        }
        if found {
            proof {
                let old_shared = shared;
                shared = shared.push(q);
                assert(!old_shared.contains(q));
                assert forall|a: int, b: int| 0 <= a < shared.len() && 0 <= b < shared.len() && a != b implies shared[a]
                    != shared[b] by {
                    if a == old_shared.len() {
                        assert(shared[b] == old_shared[b]);
                        if old_shared[b] == q {
                            assert(old_shared.contains(q));
                        }
                    } else if b == old_shared.len() {
                        assert(shared[a] == old_shared[a]);
                        if old_shared[a] == q {
                            assert(old_shared.contains(q));
                        }
                    } else {
                        assert(shared[a] == old_shared[a] && shared[b] == old_shared[b]);
                    }
                }
                assert forall|x: Seq<char>| shared.contains(x) <==> (old_shared.contains(x) || x == q) by {
                    if shared.contains(x) {
                        let m = choose|m: int| 0 <= m < shared.len() && shared[m] == x;
                        if m < old_shared.len() {
                            assert(old_shared[m] == x);
                        }
                    }
                    if old_shared.contains(x) {
                        let m = choose|m: int| 0 <= m < old_shared.len() && old_shared[m] == x;
                        assert(shared[m] == x);
                    }
                    if x == q {
                        assert(shared[old_shared.len() as int] == x);
                    }
                }
                assert(sv.contains(q));
                assert forall|x: Seq<char>| shared.to_set().contains(x) <==> (t.to_set().contains(x)
                    && sv.to_set().contains(x)) by {
                    assert(shared.to_set().contains(x) <==> shared.contains(x));
                    assert(old_shared.to_set().contains(x) <==> old_shared.contains(x));
                    if x == q {
                        assert(sv.to_set().contains(q));
                    }
                }
                assert(shared.to_set() =~= t.to_set().intersect(sv.to_set()));
                assert forall|x: Seq<char>| shared.contains(x) implies t.contains(x) by {
                    if x != q {
                        assert(old_shared.contains(x));
                        assert(qv.take(i as int).contains(x));
                        let m = choose|m: int| 0 <= m < i && qv.take(i as int)[m] == x;
                        assert(t[m] == x);
                    } else {
                        assert(t[i as int] == q);
                    }
                }
            }
            n = n + 1;
        } else {
            proof {
                assert(!sv.contains(q));
                assert forall|x: Seq<char>| shared.to_set().contains(x) <==> (t.to_set().contains(x)
                    && sv.to_set().contains(x)) by {
                    if x == q {
                        assert(!sv.to_set().contains(q));
                    }
                }
                assert(shared.to_set() =~= t.to_set().intersect(sv.to_set()));
                assert forall|x: Seq<char>| shared.contains(x) implies t.contains(x) by {
                    assert(qv.take(i as int).contains(x));
                    let m = choose|m: int| 0 <= m < i && qv.take(i as int)[m] == x;
                    assert(t[m] == x);
                }
            }
        }
        i = i + 1;
    }
    proof {
        assert(qv.take(qv.len() as int) =~= qv);
        shared.unique_seq_to_set();
    }
    n
}

// ---------------------------------------------------------------------------
// Ranking
// ---------------------------------------------------------------------------

/// Summaries, by position, with the number of query terms each shares.
pub open spec fn scored(query: Seq<char>, summaries: Seq<Seq<char>>) -> Seq<(usize, usize)> {
    Seq::new(summaries.len(), |i: int| (i as usize, overlap(query, summaries[i]) as usize))
}

/// The entries that share at least one term, in order.
pub open spec fn sharing(s: Seq<(usize, usize)>) -> Seq<(usize, usize)>
    decreases s.len(),
{
    if s.len() == 0 {
        s
    } else if s.last().1 > 0 {
        sharing(s.drop_last()).push(s.last())
    } else {
        sharing(s.drop_last())
    }
}

/// More shared terms rank higher.
pub open spec fn more_shared() -> spec_fn((usize, usize), (usize, usize)) -> bool {
    |a: (usize, usize), b: (usize, usize)| a.1 > b.1
}

/// The ranked hits for a query: summaries that share a term, by descending
/// number of shared terms (ties in store order), at most `k` of them.
pub open spec fn ranking(query: Seq<char>, summaries: Seq<Seq<char>>, k: usize) -> Seq<(usize, usize)> {
    let sorted = stable_sort(sharing(scored(query, summaries)), more_shared());
    if k < sorted.len() {
        sorted.take(k as int)
    } else {
        sorted
    }
}

/// Rank `summaries` against `query`: the positions of the summaries that
/// share at least one term with the query, with the number of shared terms,
/// most shared first (ties in the given order), at most `k` of them.
pub fn rank_summaries(query: &str, summaries: &Vec<&str>, k: usize) -> (ranked: Vec<(usize, usize)>)
    ensures
        ranked@ == ranking(query@, summaries@.map_values(|s: &str| s@), k),
{
    let ghost sv = summaries@.map_values(|s: &str| s@);
    let ghost sc = scored(query@, sv);
    let q_terms = distinct_terms(query);
    // Score every summary, keeping those that share a term.
    let mut hits: Vec<(usize, usize)> = Vec::new();
    let mut i: usize = 0;
    while i < summaries.len()
        invariant
            i <= summaries@.len(),
            sv == summaries@.map_values(|s: &str| s@),
            sc == scored(query@, sv),
            q_terms@.map_values(|s: String| s@).no_duplicates(),
            q_terms@.map_values(|s: String| s@).to_set() == terms(query@),
            hits@ == sharing(sc.take(i as int)),
        decreases summaries.len() - i,
    {
        let s_terms = distinct_terms(summaries[i]);
        let shared = count_shared(&q_terms, &s_terms);
        assert(sc[i as int] == (i, shared));
        assert(sc.take(i + 1).drop_last() =~= sc.take(i as int));
        if shared > 0 {
            hits.push((i, shared));
        }
        i = i + 1;
    }
    assert(sc.take(summaries@.len() as int) =~= sc);
    // Rank by shared terms, stably.
    let ghost before = more_shared();
    let mut sorted: Vec<(usize, usize)> = Vec::new();
    let mut i: usize = 0;
    while i < hits.len()
        invariant
            i <= hits@.len(),
            sorted@ == stable_sort(hits@.take(i as int), before),
            before == more_shared(),
        decreases hits.len() - i,
    {
        let x = hits[i];
        let mut p: usize = 0;
        while p < sorted.len() && !(x.1 > sorted[p].1)
            invariant
                p <= sorted@.len(),
                forall|m: int| 0 <= m < p ==> !before(x, #[trigger] sorted@[m]),
                before == more_shared(),
            decreases sorted.len() - p,
        {
            p = p + 1;
        }
        proof {
            lemma_insert_pos_is(sorted@, x, before, p as int);
            assert(hits@.take(i + 1).drop_last() =~= hits@.take(i as int));
        }
        sorted.insert(p, x);
        i = i + 1;
    }
    assert(hits@.take(hits@.len() as int) =~= hits@);
    // Keep the top `k`.
    let mut ranked: Vec<(usize, usize)> = Vec::new();
    let mut j: usize = 0;
    while j < sorted.len() && j < k
        invariant
            j <= sorted@.len(),
            j <= k,
            ranked@ == sorted@.take(j as int),
        decreases sorted.len() - j,
    {
        ranked.push(sorted[j]);
        assert(ranked@ =~= sorted@.take(j + 1));
        j = j + 1;
    }
    assert(sorted@.take(sorted@.len() as int) =~= sorted@);
    ranked
}

/// The number of distinct terms of a query.
pub fn query_term_count(query: &str) -> (n: usize)
    ensures
        n == terms(query@).len(),
{
    let t = distinct_terms(query);
    proof {
        t@.map_values(|s: String| s@).unique_seq_to_set();
    }
    t.len()
}

// ---------------------------------------------------------------------------
// Keys
// ---------------------------------------------------------------------------

/// The 16 lowercase hex digits of `n`, zero-padded.
pub open spec fn hex16(n: u64) -> Seq<char> {
    Seq::new(16, |i: int| hex_digit(((n >> ((60 - 4 * i) as u64)) & 15) as int))
}

/// A count that saturates at `u64::MAX`.
pub open spec fn capped_count(n: int) -> int {
    if n < u64::MAX {
        n
    } else {
        u64::MAX as int
    }
}

/// The counter whose key the entry at position `i` has: `i + 1`, saturating.
spec fn key_number(i: int) -> u64 {
    if i + 1 < u64::MAX {
        (i + 1) as u64
    } else {
        u64::MAX
    }
}

/// The storage key of the `n`-th episode: `ep-` and 16 hex digits.
pub open spec fn episode_key(n: u64) -> Seq<char> {
    "ep-"@ + hex16(n)
}

fn format_key(n: u64) -> (key: String)
    ensures
        key@ == episode_key(n),
{
    let mut key = String::from_str("ep-");
    proof {
        reveal_strlit("ep-");
    }
    let mut i: u64 = 0;
    while i < 16
        invariant
            i <= 16,
            key@ == "ep-"@ + hex16(n).take(i as int),
        decreases 16 - i,
    {
        let shift: u64 = 60 - 4 * i;
        let d = (n >> shift) & 15;
        assert(d < 16) by (bit_vector)
            requires
                d == (n >> shift) & 15,
        ;
        push_char(&mut key, nibble_to_hex(d as u8));
        assert(hex16(n).take(i + 1) =~= hex16(n).take(i as int).push(hex_digit(d as int)));
        assert(key@ =~= "ep-"@ + hex16(n).take(i + 1));
        i = i + 1;
    }
    assert(hex16(n).take(16) =~= hex16(n));
    key
}

proof fn lemma_shift_step(n: u64, s: u64)
    by (bit_vector)
    requires
        s <= 60,
    ensures
        n >> s == (n >> ((s + 4) as u64)) * 16 + ((n >> s) & 15),
        (n >> s) & 15 < 16,
{
}

proof fn lemma_shift_monotone(a: u64, b: u64, s: u64)
    by (bit_vector)
    requires
        a <= b,
    ensures
        a >> s <= b >> s,
{
}

proof fn lemma_shift_agree_further(a: u64, b: u64, s: u64)
    by (bit_vector)
    requires
        a >> s == b >> s,
        s <= 60,
    ensures
        a >> ((s + 4) as u64) == b >> ((s + 4) as u64),
{
}

proof fn lemma_top_nibble(n: u64)
    by (bit_vector)
    ensures
        (n >> 60u64) & 15 == n >> 60u64,
        n >> 0u64 == n,
{
}

proof fn lemma_hex_digit_monotone(x: int, y: int)
    requires
        0 <= x < y < 16,
    ensures
        (hex_digit(x) as u32) < (hex_digit(y) as u32),
{
}

/// From position `i` on, the digits of a smaller counter come first, given
/// that the digits before `i` agree.
proof fn lemma_hex16_lt_from(a: u64, b: u64, i: int)
    requires
        a < b,
        0 <= i < 16,
        i > 0 ==> a >> ((64 - 4 * i) as u64) == b >> ((64 - 4 * i) as u64),
    ensures
        lex_lt(hex16(a).skip(i), hex16(b).skip(i)),
    decreases 16 - i,
{
    let s = (60 - 4 * i) as u64;
    let x = hex16(a).skip(i);
    let y = hex16(b).skip(i);
    let na = (a >> s) & 15;
    let nb = (b >> s) & 15;
    assert(x[0] == hex_digit(na as int));
    assert(y[0] == hex_digit(nb as int));
    lemma_shift_monotone(a, b, s);
    lemma_shift_step(a, s);
    lemma_shift_step(b, s);
    if a >> s == b >> s {
        if i == 15 {
            lemma_top_nibble(a);
            lemma_top_nibble(b);
            assert(false);
        }
        lemma_shift_agree_further(a, b, s);
        lemma_hex16_lt_from(a, b, i + 1);
        assert(x.drop_first() =~= hex16(a).skip(i + 1));
        assert(y.drop_first() =~= hex16(b).skip(i + 1));
    } else {
        if i == 0 {
            lemma_top_nibble(a);
            lemma_top_nibble(b);
        } else {
            assert(((s + 4) as u64) == (64 - 4 * i) as u64);
        }
        assert(na < nb);
        lemma_hex_digit_monotone(na as int, nb as int);
    }
}

/// Storage keys sort lexicographically in the order of their counters, so
/// keys handed out by successive appends sort by insertion order.
pub proof fn lemma_episode_keys_ordered(a: u64, b: u64)
    requires
        a < b,
    ensures
        lex_lt(episode_key(a), episode_key(b)),
{
    lemma_hex16_lt_from(a, b, 0);
    assert(hex16(a).skip(0) =~= hex16(a));
    assert(hex16(b).skip(0) =~= hex16(b));
    lemma_lex_lt_common_prefix("ep-"@, hex16(a), hex16(b));
}

/// A read finds what an append wrote: when an append hands out a key that no
/// earlier entry has (as it does until the counter saturates), the first
/// entry under that key, which is what [`InMemoryStore::get`] returns a
/// clone of, is the appended episode.
pub proof fn lemma_get_finds_appended<E>(before: Seq<(Seq<char>, E)>, key: Seq<char>, episode: E)
    requires
        forall|j: int| 0 <= j < before.len() ==> (#[trigger] before[j]).0 != key,
    ensures
        ({
            let after = before.push((key, episode));
            forall|i: int|
                0 <= i < after.len() && (#[trigger] after[i]).0 == key && (forall|j: int|
                    0 <= j < i ==> after[j].0 != key) ==> i == before.len() && after[i].1 == episode
        }),
{
    let after = before.push((key, episode));
    assert forall|i: int|
        0 <= i < after.len() && (#[trigger] after[i]).0 == key && (forall|j: int|
            0 <= j < i ==> after[j].0 != key) implies i == before.len() && after[i].1 == episode by {
        if i < before.len() {
            assert(after[i] == before[i]);
        }
    }
}

// ---------------------------------------------------------------------------
// The store
// ---------------------------------------------------------------------------

/// User-defined episode payload with a searchable natural-language summary.
///
/// Implementors keep their own domain shape; only the summary string is
/// observed by the lexical scorer.
pub trait Episode: Clone + Send + Sync + 'static {
    /// The summary of this episode, by its characters.
    spec fn view_summary(&self) -> Seq<char>;

    /// The natural-language summary used to rank hits against a query.
    fn summary(&self) -> (s: &str)
        ensures
            s@ == self.view_summary(),
    ;
}

/// A retrieval hit returned by [`InMemoryStore::retrieve_similar`].
#[derive(Debug, Clone)]
pub struct LexicalHit<E> {
    /// The stored episode.
    pub episode: E,
    /// Stable storage key assigned by [`InMemoryStore::append`].
    pub key: String,
    /// The number of distinct query terms that the summary shares.
    pub matched: usize,
    /// The number of distinct query terms; `matched / query_terms` is the
    /// lexical score in `[0, 1]`.
    pub query_terms: usize,
}

/// Append-only in-memory episode store with deterministic lexical
/// retrieval.
#[derive(Debug)]
pub struct InMemoryStore<E: Episode> {
    next_key: u64,
    episodes: Vec<(String, E)>,
}

impl<E: Episode> Default for InMemoryStore<E> {
    /// An empty store whose key counter starts at zero.
    fn default() -> (s: Self)
        ensures
            s.entries() == Seq::<(Seq<char>, E)>::empty(),
            s.counter() == 0,
    {
        Self::new()
    }
}

impl<E: Episode> InMemoryStore<E> {
    /// The stored entries, oldest first: each key with its episode.
    pub closed spec fn entries(&self) -> Seq<(Seq<char>, E)> {
        self.episodes@.map_values(|e: (String, E)| (e.0@, e.1))
    }

    /// The counter from which the next key is made.
    pub closed spec fn counter(&self) -> u64 {
        self.next_key
    }

    /// The keys follow the counter: entry `i` has the key of `i + 1`, up to
    /// the saturated counter, and the counter is the number of entries, up
    /// to its maximum.
    #[verifier::type_invariant]
    spec fn keys_follow_counter(self) -> bool {
        &&& self.next_key as int == capped_count(self.episodes@.len() as int)
        &&& forall|i: int|
            0 <= i < self.episodes@.len() ==> (#[trigger] self.episodes@[i]).0@ == episode_key(key_number(i))
    }

    /// Create an empty store.
    pub fn new() -> (s: Self)
        ensures
            s.entries() == Seq::<(Seq<char>, E)>::empty(),
            s.counter() == 0,
    {
        let s = InMemoryStore { next_key: 0, episodes: Vec::new() };
        assert(s.entries() =~= Seq::<(Seq<char>, E)>::empty());
        s
    }

    /// Append a new episode and return its storage key.
    ///
    /// Keys follow the `ep-{:016x}` template of a counter that starts at one,
    /// so they sort lexicographically by insertion order. Until the counter
    /// saturates at `u64::MAX` every key is new; after that, appends reuse
    /// the terminal key.
    pub fn append(&mut self, episode: E) -> (r: Result<String, PolicyError>)
        ensures
            final(self).counter() == old(self).counter().saturating_add(1),
            r matches Ok(key) && key@ == episode_key(final(self).counter()),
            final(self).entries() == old(self).entries().push((episode_key(final(self).counter()), episode)),
            final(self).counter() as int == capped_count(final(self).entries().len() as int),
            old(self).counter() < u64::MAX ==> forall|j: int|
                0 <= j < old(self).entries().len() ==> (#[trigger] old(self).entries()[j]).0 != episode_key(
                    final(self).counter(),
                ),
    {
        let mut taken = InMemoryStore::new();
        core::mem::swap(self, &mut taken);
        proof {
            use_type_invariant(&taken);
        }
        let ghost before = taken.entries();
        let ghost old_counter = taken.next_key;
        let InMemoryStore { next_key, mut episodes } = taken;
        let next = next_key.saturating_add(1);
        let key = format_key(next);
        let ghost len = episodes@.len();
        episodes.push((key.clone(), episode));
        proof {
            assert(episodes@[len as int].0@ == episode_key(key_number(len as int)));
            if old_counter < u64::MAX {
                assert forall|j: int| 0 <= j < before.len() implies (#[trigger] before[j]).0 != episode_key(
                    next,
                ) by {
                    assert(before[j].0 == episode_key(key_number(j)));
                    assert(key_number(j) == (j + 1) as u64);
                    lemma_episode_keys_ordered(key_number(j), next);
                    lemma_lex_lt_irreflexive(episode_key(next));
                }
            }
        }
        *self = InMemoryStore { next_key: next, episodes };
        assert(self.entries() =~= before.push((key@, episode)));
        Ok(key)
    }

    /// Direct lookup by storage key: a clone of the first episode stored
    /// under `key`, or [`PolicyError::NotFound`] with the key.
    pub fn get(&self, key: &str) -> (r: Result<E, PolicyError>)
        ensures
            match r {
                Ok(e) => exists|i: int|
                    0 <= i < self.entries().len() && self.entries()[i].0 == key@ && (forall|j: int|
                        0 <= j < i ==> self.entries()[j].0 != key@) && cloned(self.entries()[i].1, e),
                Err(err) => {
                    &&& forall|i: int| 0 <= i < self.entries().len() ==> self.entries()[i].0 != key@
                    &&& err matches PolicyError::NotFound(k) && k@ == key@
                },
            },
    {
        let mut i: usize = 0;
        while i < self.episodes.len()
            invariant
                i <= self.episodes@.len(),
                forall|j: int| 0 <= j < i ==> self.entries()[j].0 != key@,
            decreases self.episodes.len() - i,
        {
            if str_eq(self.episodes[i].0.as_str(), key) {
                let e = self.episodes[i].1.clone();
                assert(self.entries()[i as int].0 == key@);
                return Ok(e);
            }
            i = i + 1;
        }
        Err(PolicyError::NotFound(String::from_str(key)))
    }

    /// Number of episodes currently stored.
    pub fn len(&self) -> (r: Result<usize, PolicyError>)
        ensures
            r == Ok::<usize, PolicyError>(self.entries().len() as usize),
    {
        Ok(self.episodes.len())
    }

    /// Whether the store is empty.
    pub fn is_empty(&self) -> (r: Result<bool, PolicyError>)
        ensures
            r == Ok::<bool, PolicyError>(self.entries().len() == 0),
    {
        Ok(self.episodes.len() == 0)
    }

    /// The summaries of the stored episodes, oldest first.
    pub open spec fn summaries(&self) -> Seq<Seq<char>> {
        self.entries().map_values(|e: (Seq<char>, E)| e.1.view_summary())
    }

    /// Return up to `k` episodes most similar to `query`, by descending
    /// number of shared terms; episodes that share no term are skipped.
    ///
    /// The hits are the ranking ([`rank_summaries`]) of the stored episodes'
    /// summaries.
    pub fn retrieve_similar(&self, query: &str, k: usize) -> (r: Result<Vec<LexicalHit<E>>, PolicyError>)
        ensures
            r matches Ok(hits) && {
                let ranked = ranking(query@, self.summaries(), k);
                &&& hits@.len() == ranked.len()
                &&& forall|i: int|
                    0 <= i < hits@.len() ==> {
                        let (pos, shared) = #[trigger] ranked[i];
                        &&& 0 <= pos < self.entries().len()
                        &&& hits@[i].key@ == self.entries()[pos as int].0
                        &&& cloned(self.entries()[pos as int].1, hits@[i].episode)
                        &&& hits@[i].matched == shared
                        &&& hits@[i].query_terms == terms(query@).len()
                    }
            },
    {
        if k == 0 {
            proof {
                assert(ranking(query@, self.summaries(), k) =~= Seq::<(usize, usize)>::empty());
            }
            return Ok(Vec::new());
        }
        let mut summaries: Vec<&str> = Vec::new();
        let mut i: usize = 0;
        while i < self.episodes.len()
            invariant
                i <= self.episodes@.len(),
                summaries@.len() == i,
                forall|m: int| 0 <= m < i ==> (#[trigger] summaries@[m])@ == self.summaries()[m],
            decreases self.episodes.len() - i,
        {
            summaries.push(self.episodes[i].1.summary());
            i = i + 1;
        }
        let ghost sv = summaries@.map_values(|s: &str| s@);
        assert(sv =~= self.summaries());
        let ranked = rank_summaries(query, &summaries, k);
        let query_terms = query_term_count(query);
        proof {
            lemma_ranking_positions(query@, sv, k);
        }
        let mut hits: Vec<LexicalHit<E>> = Vec::new();
        let mut j: usize = 0;
        while j < ranked.len()
            invariant
                j <= ranked@.len(),
                ranked@ == ranking(query@, sv, k),
                sv.len() == self.entries().len(),
                self.entries().len() == self.episodes@.len(),
                query_terms == terms(query@).len(),
                forall|m: int| 0 <= m < ranked@.len() ==> (#[trigger] ranked@[m]).0 < sv.len(),
                hits@.len() == j,
                forall|m: int|
                    0 <= m < j ==> {
                        let (pos, shared) = #[trigger] ranked@[m];
                        &&& hits@[m].key@ == self.entries()[pos as int].0
                        &&& cloned(self.entries()[pos as int].1, hits@[m].episode)
                        &&& hits@[m].matched == shared
                        &&& hits@[m].query_terms == query_terms
                    },
            decreases ranked.len() - j,
        {
            let (pos, shared) = ranked[j];
            let episode = self.episodes[pos].1.clone();
            let key = self.episodes[pos].0.clone();
            hits.push(LexicalHit { episode, key, matched: shared, query_terms });
            j = j + 1;
        }
        Ok(hits)
    }
}

/// Every ranked position is the position of a summary.
proof fn lemma_ranking_positions(query: Seq<char>, summaries: Seq<Seq<char>>, k: usize)
    requires
        summaries.len() <= usize::MAX,
    ensures
        forall|m: int|
            0 <= m < ranking(query, summaries, k).len() ==> (#[trigger] ranking(query, summaries, k)[m]).0
                < summaries.len(),
{
    broadcast use vstd::seq_lib::group_to_multiset_ensures;

    let sc = scored(query, summaries);
    let sh = sharing(sc);
    let sorted = stable_sort(sh, more_shared());
    lemma_sharing_members(sc);
    crate::retention_laws::lemma_stable_sort_permutes(sh, more_shared());
    assert forall|m: int| 0 <= m < ranking(query, summaries, k).len() implies (#[trigger] ranking(
        query,
        summaries,
        k,
    )[m]).0 < summaries.len() by {
        let x = ranking(query, summaries, k)[m];
        assert(sorted[m] == x);
        assert(sorted.contains(x));
        assert(sorted.to_multiset().count(x) > 0);
        assert(sh.to_multiset().count(x) > 0);
        assert(sh.contains(x));
        assert(sc.contains(x));
        let i = choose|i: int| 0 <= i < sc.len() && sc[i] == x;
        assert(sc[i].0 == i);
    }
}

/// Retrieval returns at most `k` hits, each the position of a summary that
/// shares at least one term with the query together with the number of terms
/// it shares, by non-increasing number of shared terms.
pub proof fn lemma_ranking_laws(query: Seq<char>, summaries: Seq<Seq<char>>, k: usize)
    requires
        summaries.len() <= usize::MAX,
    ensures
        ranking(query, summaries, k).len() <= k,
        forall|m: int|
            0 <= m < ranking(query, summaries, k).len() ==> {
                let (pos, shared) = #[trigger] ranking(query, summaries, k)[m];
                &&& pos < summaries.len()
                &&& shared > 0
                &&& shared == overlap(query, summaries[pos as int]) as usize
            },
        forall|i: int, j: int|
            0 <= i < j < ranking(query, summaries, k).len() ==> #[trigger] ranking(query, summaries, k)[i].1
                >= #[trigger] ranking(query, summaries, k)[j].1,
        forall|i: int, j: int|
            0 <= i < j < ranking(query, summaries, k).len() ==> #[trigger] ranking(query, summaries, k)[i].0
                != #[trigger] ranking(query, summaries, k)[j].0,
{
    broadcast use vstd::seq_lib::group_to_multiset_ensures;

    let sc = scored(query, summaries);
    let sh = sharing(sc);
    let sorted = stable_sort(sh, more_shared());
    let r = ranking(query, summaries, k);
    lemma_sharing_members(sc);
    lemma_sharing_positive(sc);
    crate::retention_laws::lemma_stable_sort_permutes(sh, more_shared());
    assert(crate::retention_laws::strict_order(more_shared()));
    crate::retention_laws::lemma_stable_sort_sorted(sh, more_shared());
    assert forall|m: int| 0 <= m < r.len() implies {
        let (pos, shared) = #[trigger] r[m];
        &&& pos < summaries.len()
        &&& shared > 0
        &&& shared == overlap(query, summaries[pos as int]) as usize
    } by {
        let x = r[m];
        assert(sorted[m] == x);
        assert(sorted.contains(x));
        assert(sorted.to_multiset().count(x) > 0);
        assert(sh.to_multiset().count(x) > 0);
        assert(sh.contains(x));
        let p = choose|p: int| 0 <= p < sh.len() && sh[p] == x;
        assert(sh[p].1 > 0);
        assert(sc.contains(x));
        let i = choose|i: int| 0 <= i < sc.len() && sc[i] == x;
        assert(sc[i].0 == i);
    }
    assert forall|i: int, j: int| 0 <= i < j < r.len() implies #[trigger] r[i].1 >= #[trigger] r[j].1 by {
        assert(r[i] == sorted[i]);
        assert(r[j] == sorted[j]);
        assert(!more_shared()(sorted[j], sorted[i]));
    }
    assert(sc.no_duplicates()) by {
        assert forall|i: int, j: int| 0 <= i < sc.len() && 0 <= j < sc.len() && i != j implies sc[i]
            != sc[j] by {
            assert(sc[i].0 == i && sc[j].0 == j);
        }
    }
    lemma_sharing_no_duplicates(sc);
    sh.lemma_multiset_has_no_duplicates();
    sorted.lemma_multiset_has_no_duplicates_conv();
    assert forall|i: int, j: int| 0 <= i < j < r.len() implies #[trigger] r[i].0 != #[trigger] r[j].0 by {
        assert(r[i] == sorted[i]);
        assert(r[j] == sorted[j]);
        if r[i].0 == r[j].0 {
            assert(r[i].1 == overlap(query, summaries[r[i].0 as int]) as usize);
            assert(r[j].1 == overlap(query, summaries[r[j].0 as int]) as usize);
            assert(sorted[i] == sorted[j]);
        }
    }
}

proof fn lemma_sharing_no_duplicates(s: Seq<(usize, usize)>)
    requires
        s.no_duplicates(),
    ensures
        sharing(s).no_duplicates(),
    decreases s.len(),
{
    if s.len() > 0 {
        let d = s.drop_last();
        assert(d.no_duplicates()) by {
            assert forall|i: int, j: int| 0 <= i < d.len() && 0 <= j < d.len() && i != j implies d[i]
                != d[j] by {
                assert(d[i] == s[i] && d[j] == s[j]);
            }
        }
        lemma_sharing_no_duplicates(d);
        lemma_sharing_members(d);
        let t0 = sharing(d);
        if s.last().1 > 0 {
            assert(!t0.contains(s.last())) by {
                if t0.contains(s.last()) {
                    assert(d.contains(s.last()));
                    let j = choose|j: int| 0 <= j < d.len() && d[j] == s.last();
                    assert(s[j] == s[s.len() - 1]);
                }
            }
            let t = t0.push(s.last());
            assert(sharing(s) == t);
            assert forall|i: int, j: int| 0 <= i < t.len() && 0 <= j < t.len() && i != j implies t[i]
                != t[j] by {
                if i == t0.len() {
                    assert(t0[j] == t[j]);
                } else if j == t0.len() {
                    assert(t0[i] == t[i]);
                }
            }
        }
    }
}

/// Retrieval leaves out nothing that outranks what it returns: a summary
/// whose position is not returned shares no more terms than any hit, and
/// shares none at all when fewer than `k` hits are returned.
pub proof fn lemma_ranking_complete(query: Seq<char>, summaries: Seq<Seq<char>>, k: usize, p: int)
    requires
        summaries.len() <= usize::MAX,
        0 <= p < summaries.len(),
        forall|m: int|
            0 <= m < ranking(query, summaries, k).len() ==> (#[trigger] ranking(query, summaries, k)[m]).0
                != p,
    ensures
        forall|m: int|
            0 <= m < ranking(query, summaries, k).len() ==> (#[trigger] ranking(query, summaries, k)[m]).1
                >= overlap(query, summaries[p]) as usize,
        ranking(query, summaries, k).len() < k ==> overlap(query, summaries[p]) as usize == 0,
{
    broadcast use vstd::seq_lib::group_to_multiset_ensures;

    let sc = scored(query, summaries);
    let sh = sharing(sc);
    let sorted = stable_sort(sh, more_shared());
    let r = ranking(query, summaries, k);
    let x = sc[p];
    lemma_ranking_laws(query, summaries, k);
    if x.1 > 0 {
        lemma_sharing_complete(sc);
        assert(sh.contains(x));
        crate::retention_laws::lemma_stable_sort_permutes(sh, more_shared());
        assert(crate::retention_laws::strict_order(more_shared()));
        crate::retention_laws::lemma_stable_sort_sorted(sh, more_shared());
        assert(sh.to_multiset().count(x) > 0);
        assert(sorted.contains(x));
        let j = choose|j: int| 0 <= j < sorted.len() && sorted[j] == x;
        if j < r.len() {
            assert(r[j] == sorted[j]);
            assert(r[j].0 == p);
        }
        assert(r.len() >= k);
        assert forall|m: int| 0 <= m < r.len() implies (#[trigger] r[m]).1 >= x.1 by {
            assert(r[m] == sorted[m]);
            assert(!more_shared()(sorted[j], sorted[m]));
        }
    }
}

proof fn lemma_sharing_members(s: Seq<(usize, usize)>)
    ensures
        forall|x: (usize, usize)| sharing(s).contains(x) ==> s.contains(x),
    decreases s.len(),
{
    if s.len() > 0 {
        lemma_sharing_members(s.drop_last());
        let t0 = sharing(s.drop_last());
        assert forall|x: (usize, usize)| sharing(s).contains(x) implies s.contains(x) by {
            let t = sharing(s);
            let i = choose|i: int| 0 <= i < t.len() && t[i] == x;
            if s.last().1 > 0 {
                assert(t == t0.push(s.last()));
                if i == t0.len() {
                    assert(s[s.len() - 1] == x);
                } else {
                    assert(t0[i] == x);
                    assert(t0.contains(x));
                    assert(s.drop_last().contains(x));
                    let j = choose|j: int| 0 <= j < s.drop_last().len() && s.drop_last()[j] == x;
                    assert(s[j] == x);
                }
            } else {
                assert(t == t0);
                assert(t0.contains(x));
                assert(s.drop_last().contains(x));
                let j = choose|j: int| 0 <= j < s.drop_last().len() && s.drop_last()[j] == x;
                assert(s[j] == x);
            }
        }
    }
}

proof fn lemma_sharing_complete(s: Seq<(usize, usize)>)
    ensures
        forall|i: int| 0 <= i < s.len() && (#[trigger] s[i]).1 > 0 ==> sharing(s).contains(s[i]),
    decreases s.len(),
{
    if s.len() > 0 {
        lemma_sharing_complete(s.drop_last());
        let t0 = sharing(s.drop_last());
        assert forall|i: int| 0 <= i < s.len() && (#[trigger] s[i]).1 > 0 implies sharing(s).contains(s[i]) by {
            if i == s.len() - 1 {
                assert(sharing(s) == t0.push(s.last()));
                assert(sharing(s)[t0.len() as int] == s[i]);
            } else {
                assert(s.drop_last()[i] == s[i]);
                assert(t0.contains(s[i]));
                let j = choose|j: int| 0 <= j < t0.len() && t0[j] == s[i];
                if s.last().1 > 0 {
                    assert(sharing(s) == t0.push(s.last()));
                    assert(sharing(s)[j] == s[i]);
                } else {
                    assert(sharing(s) == t0);
                }
            }
        }
    }
}

proof fn lemma_sharing_positive(s: Seq<(usize, usize)>)
    ensures
        forall|i: int| 0 <= i < sharing(s).len() ==> (#[trigger] sharing(s)[i]).1 > 0,
    decreases s.len(),
{
    if s.len() > 0 {
        lemma_sharing_positive(s.drop_last());
        let t0 = sharing(s.drop_last());
        assert forall|i: int| 0 <= i < sharing(s).len() implies (#[trigger] sharing(s)[i]).1 > 0 by {
            if s.last().1 > 0 && i == t0.len() {
            } else {
                assert(sharing(s)[i] == t0[i]);
            }
        }
    }
}

} // verus!
