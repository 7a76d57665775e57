//! Backend-neutral helpers for matching and projecting memory scopes.
//!
//! Scopes are normalized slash-delimited strings: the text is split on `/`,
//! every piece is trimmed of Unicode whitespace, empty pieces are dropped and
//! the rest are joined again with `/`. So `"/tenant/a/"` and `"tenant/a"`
//! name the same scope.

use vstd::prelude::*;

use crate::pieces::{
    bounded_view, bounds_ok, free_of, lemma_nonempty_trimmed_clean, lemma_nonempty_trimmed_keeps_clean,
    lemma_nonempty_trimmed_concat, lemma_split_pieces_append_free, lemma_split_pieces_concat, lemma_split_pieces_free,
    lemma_trim_by_ends, lemma_split_pieces_push_sep, nonempty_trimmed,
    piece_bounds, sep_pred, split_pieces, strip_pred, trim_by, Separator, Strip,
};
use crate::text::{chars_of, push_char};

verus! {

// ---------------------------------------------------------------------------
// Specification
// ---------------------------------------------------------------------------

/// The normalized path segments of a scope string: the pieces between `/`
/// characters, trimmed of whitespace, empty ones dropped.
pub open spec fn scope_segments(s: Seq<char>) -> Seq<Seq<char>> {
    nonempty_trimmed(split_pieces(s, sep_pred(Separator::Slash)), strip_pred(Strip::Whitespace))
}

/// The segments joined with `sep` between neighbours.
pub open spec fn join_with(segs: Seq<Seq<char>>, sep: char) -> Seq<char>
    decreases segs.len(),
{
    if segs.len() == 0 {
        Seq::empty()
    } else if segs.len() == 1 {
        segs[0]
    } else {
        join_with(segs.drop_last(), sep).push(sep) + segs.last()
    }
}

/// The normalized form of a scope string.
pub open spec fn normalized(s: Seq<char>) -> Seq<char> {
    join_with(scope_segments(s), '/')
}

/// Whether `candidate` (already normalized) is `scope` or lies below it.
pub open spec fn scope_covers(scope: Seq<char>, candidate: Seq<char>) -> bool {
    if scope.len() == 0 {
        candidate.len() == 0
    } else {
        ||| candidate == scope
        ||| (candidate.len() > scope.len() && candidate.take(scope.len() as int) == scope
            && candidate[scope.len() as int] == '/')
    }
}

/// Whether an optional candidate matches an optional required scope:
/// `None` asks for an unscoped candidate, `Some` for equal normalized forms.
pub open spec fn scope_matches_spec(required: Option<Seq<char>>, candidate: Option<Seq<char>>) -> bool {
    match required {
        Some(r) => match candidate {
            Some(c) => normalized(c) == normalized(r),
            None => false,
        },
        None => match candidate {
            Some(c) => normalized(c).len() == 0,
            None => true,
        },
    }
}

/// Splitting the `/`-join of separator-free segments gives them back.
proof fn lemma_split_join(segs: Seq<Seq<char>>)
    requires
        segs.len() >= 1,
        forall|k: int| 0 <= k < segs.len() ==> free_of(#[trigger] segs[k], sep_pred(Separator::Slash)),
    ensures
        split_pieces(join_with(segs, '/'), sep_pred(Separator::Slash)) == segs,
    decreases segs.len(),
{
    let sep = sep_pred(Separator::Slash);
    let last = segs[segs.len() - 1];
    assert(free_of(last, sep));
    if segs.len() == 1 {
        let e = Seq::<char>::empty();
        lemma_split_pieces_append_free(e, last, sep);
        assert(e + last =~= last);
        assert(split_pieces(e, sep) == seq![e]);
        assert(seq![e].update(0, e + last) =~= segs);
    } else {
        let dl = segs.drop_last();
        assert forall|k: int| 0 <= k < dl.len() implies free_of(#[trigger] dl[k], sep) by {
            assert(dl[k] == segs[k]);
        }
        lemma_split_join(dl);
        let j = join_with(dl, '/');
        lemma_split_pieces_push_sep(j, '/', sep);
        lemma_split_pieces_append_free(j.push('/'), last, sep);
        let p = dl.push(Seq::<char>::empty());
        assert(Seq::<char>::empty() + last =~= last);
        assert(p.update(p.len() - 1, p.last() + last) =~= segs);
    }
}

/// Normalizing a normalized scope changes nothing: it has the same
/// segments, and so the same normalized form.
pub proof fn lemma_normalized_idempotent(s: Seq<char>)
    ensures
        scope_segments(normalized(s)) == scope_segments(s),
        normalized(normalized(s)) == normalized(s),
{
    let sep = sep_pred(Separator::Slash);
    let ws = strip_pred(Strip::Whitespace);
    let segs = scope_segments(s);
    lemma_split_pieces_free(s, sep);
    lemma_nonempty_trimmed_clean(split_pieces(s, sep), ws, sep);
    if segs.len() == 0 {
        let e = Seq::<char>::empty();
        assert(normalized(s) == e);
        assert(split_pieces(e, sep) == seq![e]);
        assert(seq![e].drop_last() =~= Seq::<Seq<char>>::empty());
        assert(trim_by(e, ws) == e);
        assert(seq![e].last() == e);
        assert(nonempty_trimmed(seq![e].drop_last(), ws) == Seq::<Seq<char>>::empty());
        assert(nonempty_trimmed(seq![e], ws) == Seq::<Seq<char>>::empty());
        assert(scope_segments(e) =~= segs);
    } else {
        lemma_split_join(segs);
        lemma_nonempty_trimmed_keeps_clean(segs, ws);
    }
}

/// Normalize a slash-delimited scope string.
pub fn normalize_scope(scope: &str) -> (out: String)
    ensures
        out@ == normalized(scope@),
{
    let cs = chars_of(scope);
    let bounds = piece_bounds(&cs, Separator::Slash, Strip::Whitespace);
    let ghost segs = scope_segments(cs@);
    let mut out = String::new();
    let mut k: usize = 0;
    while k < bounds.len()
        invariant
            bounds_ok(cs@, bounds@),
            segs == bounded_view(cs@, bounds@),
            k <= bounds@.len(),
            out@ == join_with(segs.take(k as int), '/'),
        decreases bounds.len() - k,
    {
        let (lo, hi) = bounds[k];
        assert(bounds_ok(cs@, bounds@) ==> bounds@[k as int].0 <= bounds@[k as int].1);
        let ghost before = out@;
        if k > 0 {
            push_char(&mut out, '/');
        }
        let mut j = lo;
        while j < hi
            invariant
                lo <= j <= hi <= cs@.len(),
                k > 0 ==> out@ == before.push('/') + cs@.subrange(lo as int, j as int),
                k == 0 ==> out@ == before + cs@.subrange(lo as int, j as int),
            decreases hi - j,
        {
            push_char(&mut out, cs[j]);
            j = j + 1;
            proof {
                assert(cs@.subrange(lo as int, j as int) =~= cs@.subrange(lo as int, j - 1).push(
                    cs@[j - 1],
                ));
            }
        }
        proof {
            let t = segs.take(k + 1);
            assert(t.drop_last() =~= segs.take(k as int));
            assert(t.last() == cs@.subrange(lo as int, hi as int));
            if k == 0 {
                assert(before =~= Seq::<char>::empty());
                assert(out@ =~= t[0]);
            }
        }
        k = k + 1;
    }
    assert(segs.take(bounds@.len() as int) =~= segs);
    assert(cs@ == scope@);
    out
}

/// Split a slash-delimited scope string into normalized path segments.
pub fn scope_path<'a>(scope: &'a str) -> (path: Vec<&'a str>)
    ensures
        path@.map_values(|p: &str| p@) == scope_segments(scope@),
{
    let cs = chars_of(scope);
    let bounds = piece_bounds(&cs, Separator::Slash, Strip::Whitespace);
    let mut path: Vec<&'a str> = Vec::new();
    let mut k: usize = 0;
    while k < bounds.len()
        invariant
            cs@ == scope@,
            bounds_ok(cs@, bounds@),
            k <= bounds@.len(),
            path@.len() == k,
            forall|m: int|
                0 <= m < k ==> (#[trigger] path@[m])@ == bounded_view(cs@, bounds@)[m],
        decreases bounds.len() - k,
    {
        let (lo, hi) = bounds[k];
        assert(bounds_ok(cs@, bounds@) ==> bounds@[k as int].0 <= bounds@[k as int].1
            && bounds@[k as int].1 <= cs@.len());
        path.push(scope.substring_char(lo, hi));
        k = k + 1;
    }
    assert(path@.map_values(|p: &str| p@) =~= bounded_view(cs@, bounds@));
    path
}

/// Match an optional candidate scope against an optional required scope.
///
/// `None` requires an unscoped candidate. `Some(scope)` requires exact scope
/// equality after normalization.
pub fn scope_matches(required: Option<&str>, candidate: Option<&str>) -> (b: bool)
    ensures
        b == scope_matches_spec(
            match required { Some(r) => Some(r@), None => None },
            match candidate { Some(c) => Some(c@), None => None },
        ),
{
    match required {
        Some(required) => Scope::new(required).matches(candidate),
        None => match candidate {
            Some(c) => {
                let n = normalize_scope(c);
                n.as_str().is_empty()
            },
            None => true,
        },
    }
}

/// A normalized scope contains itself, and contains every scope it matches
/// exactly.
pub proof fn lemma_scope_contains_matches(value: Seq<char>, candidate: Seq<char>)
    ensures
        scope_covers(normalized(value), normalized(normalized(value))),
        normalized(candidate) == normalized(value) ==> scope_covers(normalized(value), normalized(candidate)),
{
    lemma_normalized_idempotent(value);
}

/// Optional scope matching is exact: a required scope matches exactly the
/// candidates whose normalized text equals its normalized text (so texts
/// that normalize to different lengths never match, and a descendant does
/// not match its ancestor), and never an unscoped candidate; no required
/// scope matches exactly the unscoped candidates and those that normalize
/// to nothing.
pub proof fn lemma_scope_matches_exact(required: Seq<char>, candidate: Seq<char>)
    ensures
        scope_matches_spec(Some(required), Some(candidate)) <==> normalized(candidate) == normalized(required),
        normalized(candidate).len() != normalized(required).len() ==> !scope_matches_spec(
            Some(required),
            Some(candidate),
        ),
        !scope_matches_spec(Some(required), None),
        scope_matches_spec(None, None),
        scope_matches_spec(None, Some(candidate)) <==> normalized(candidate).len() == 0,
{
}

/// What a scope contains: a non-empty scope contains a candidate only if
/// the candidate is at least as long, starts with the scope, and either ends
/// there or continues with `/`; it contains itself and every text that
/// extends it past a `/`. The empty scope contains only the empty candidate.
pub proof fn lemma_scope_covers_descendants(scope: Seq<char>, candidate: Seq<char>, rest: Seq<char>)
    ensures
        scope.len() > 0 && scope_covers(scope, candidate) ==> {
            &&& candidate.len() >= scope.len()
            &&& candidate.subrange(0, scope.len() as int) == scope
            &&& (candidate.len() == scope.len() || candidate[scope.len() as int] == '/')
        },
        scope_covers(scope, scope),
        scope.len() > 0 ==> scope_covers(scope, scope.push('/') + rest),
        scope.len() == 0 ==> (scope_covers(scope, candidate) <==> candidate.len() == 0),
{
    if scope.len() > 0 {
        let d = scope.push('/') + rest;
        assert(d.take(scope.len() as int) =~= scope);
        assert(d[scope.len() as int] == '/');
        if scope_covers(scope, candidate) && candidate == scope {
            assert(candidate.subrange(0, scope.len() as int) =~= scope);
        }
    }
}

/// A `/` splits a scope's segments: the segments of `x`, `/` and `y` are
/// the segments of `x` followed by those of `y`.
pub proof fn lemma_slash_separates_segments(x: Seq<char>, y: Seq<char>)
    ensures
        scope_segments(x.push('/') + y) == scope_segments(x) + scope_segments(y),
{
    let sep = sep_pred(Separator::Slash);
    lemma_split_pieces_concat(x, '/', y, sep);
    lemma_nonempty_trimmed_concat(split_pieces(x, sep), split_pieces(y, sep), strip_pred(Strip::Whitespace));
}

/// Unicode `White_Space` at either end of a segment is dropped when the
/// segment is trimmed.
pub proof fn lemma_segment_trim_drops_white_space(segment: Seq<char>, c: char)
    requires
        c == '\t' || c == '\n' || c == '\u{b}' || c == '\u{c}' || c == '\r' || c == ' ' || c == '\u{85}' || c == '\u{a0}'
            || c == '\u{1680}' || ('\u{2000}' <= c && c <= '\u{200a}') || c == '\u{2028}' || c == '\u{2029}'
            || c == '\u{202f}' || c == '\u{205f}' || c == '\u{3000}',
    ensures
        trim_by(seq![c] + segment, strip_pred(Strip::Whitespace)) == trim_by(segment, strip_pred(Strip::Whitespace)),
        trim_by(segment.push(c), strip_pred(Strip::Whitespace)) == trim_by(segment, strip_pred(Strip::Whitespace)),
{
    lemma_trim_by_ends(segment, c, strip_pred(Strip::Whitespace));
}

// ---------------------------------------------------------------------------
// Scope
// ---------------------------------------------------------------------------

/// A normalized memory scope used for isolation and retention decisions.
#[derive(Debug, PartialEq, Eq, PartialOrd, Ord, Hash)]
pub struct Scope(String);

impl Clone for Scope {
    fn clone(&self) -> (s: Self)
        ensures
            s@ == self@,
    {
        proof {
            use_type_invariant(self);
        }
        Scope(self.0.clone())
    }
}

impl View for Scope {
    type V = Seq<char>;

    closed spec fn view(&self) -> Seq<char> {
        self.0@
    }
}

impl Scope {
    /// The text is in normal form.
    #[verifier::type_invariant]
    spec fn is_normal(self) -> bool {
        normalized(self.0@) == self.0@
    }

    /// Normalize `value` into a scope.
    pub fn new(value: &str) -> (s: Self)
        ensures
            s@ == normalized(value@),
    {
        proof {
            lemma_normalized_idempotent(value@);
        }
        Scope(normalize_scope(value))
    }

    /// Return the normalized scope string.
    pub fn as_str(&self) -> (s: &str)
        ensures
            s@ == self@,
            normalized(s@) == s@,
    {
        proof {
            use_type_invariant(self);
        }
        self.0.as_str()
    }

    /// Return `true` when this scope has no path segments.
    pub fn is_empty(&self) -> (b: bool)
        ensures
            b == (self@.len() == 0),
    {
        self.0.as_str().is_empty()
    }

    /// Split the scope into normalized path segments.
    pub fn path(&self) -> (path: Vec<&str>)
        ensures
            path@.map_values(|p: &str| p@) == scope_segments(self@),
    {
        scope_path(self.0.as_str())
    }

    /// Return `true` when `candidate` is exactly this scope after
    /// normalization.
    pub fn matches(&self, candidate: Option<&str>) -> (b: bool)
        ensures
            b == match candidate {
                Some(c) => normalized(c@) == self@,
                None => false,
            },
    {
        match candidate {
            Some(c) => {
                let n = normalize_scope(c);
                n == self.0
            },
            None => false,
        }
    }

    /// Return `true` when `candidate` is this scope or a descendant scope:
    /// `tenant-a` contains `tenant-a/project-1` but not `tenant-ab`.
    pub fn contains(&self, candidate: Option<&str>) -> (b: bool)
        ensures
            b == match candidate {
                Some(c) => scope_covers(self@, normalized(c@)),
                None => false,
            },
    {
        let cand = match candidate {
            Some(c) => c,
            None => {
                return false;
            },
        };
        let n = normalize_scope(cand);
        let cn = chars_of(n.as_str());
        let cs = chars_of(self.0.as_str());
        if cs.len() == 0 {
            return cn.len() == 0;
        }
        if cn.len() < cs.len() {
            assert(cn@ != cs@);
            return false;
        }
        let mut i: usize = 0;
        while i < cs.len()
            invariant
                i <= cs@.len() <= cn@.len(),
                cs@.len() > 0,
                cs@ == self@,
                candidate == Some(cand),
                cn@ == normalized(cand@),
                forall|k: int| 0 <= k < i ==> cn@[k] == cs@[k],
            decreases cs.len() - i,
        {
            if cn[i] != cs[i] {
                assert(cn@.take(cs@.len() as int)[i as int] != cs@[i as int]);
                assert(cn@ != cs@);
                return false;
            }
            i = i + 1;
        }
        assert(cn@.take(cs@.len() as int) =~= cs@);
        if cn.len() == cs.len() {
            assert(cn@ =~= cs@);
            true
        } else {
            cn[cs.len()] == '/'
        }
    }
}

} // verus!
