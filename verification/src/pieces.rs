//! Splitting text into trimmed pieces: the one pass behind scope
//! normalization (split on `/`, trim whitespace) and lexical tokenization
//! (split on whitespace, trim non-alphanumeric characters).

use vstd::prelude::*;

use crate::text::{char_alphanumeric, char_is_ws, is_alphanumeric, is_ws};

verus! {

/// What separates pieces.
#[derive(Clone, Copy)]
pub enum Separator {
    /// The `/` character.
    Slash,
    /// Any whitespace character.
    Whitespace,
}

/// What is trimmed from both ends of a piece.
#[derive(Clone, Copy)]
pub enum Strip {
    /// Whitespace characters.
    Whitespace,
    /// Characters that are not alphanumeric.
    NonAlphanumeric,
}

/// The characters that a separator stands for.
pub open spec fn sep_pred(sep: Separator) -> spec_fn(char) -> bool {
    match sep {
        Separator::Slash => |c: char| c == '/',
        Separator::Whitespace => |c: char| is_ws(c),
    }
}

/// The characters that a trim removes.
pub open spec fn strip_pred(strip: Strip) -> spec_fn(char) -> bool {
    match strip {
        Strip::Whitespace => |c: char| is_ws(c),
        Strip::NonAlphanumeric => |c: char| !char_alphanumeric(c),
    }
}

fn separates(sep: Separator, c: char) -> (b: bool)
    ensures
        b == sep_pred(sep)(c),
{
    match sep {
        Separator::Slash => c == '/',
        Separator::Whitespace => char_is_ws(c),
    }
}

fn strips(strip: Strip, c: char) -> (b: bool)
    ensures
        b == strip_pred(strip)(c),
{
    match strip {
        Strip::Whitespace => char_is_ws(c),
        Strip::NonAlphanumeric => !is_alphanumeric(c),
    }
}

/// The pieces that `str::split` yields for a separator predicate: one more
/// piece than there are separators, empty pieces included.
pub open spec fn split_pieces(s: Seq<char>, sep: spec_fn(char) -> bool) -> Seq<Seq<char>>
    decreases s.len(),
{
    if s.len() == 0 {
        seq![Seq::<char>::empty()]
    } else {
        let p = split_pieces(s.drop_last(), sep);
        if sep(s.last()) {
            p.push(Seq::<char>::empty())
        } else {
            p.update(p.len() - 1, p.last().push(s.last()))
        }
    }
}

/// `s` without its leading characters that `strip` holds of.
pub open spec fn trim_start_by(s: Seq<char>, strip: spec_fn(char) -> bool) -> Seq<char>
    decreases s.len(),
{
    if s.len() > 0 && strip(s[0]) {
        trim_start_by(s.drop_first(), strip)
    } else {
        s
    }
}

/// `s` without its trailing characters that `strip` holds of.
pub open spec fn trim_end_by(s: Seq<char>, strip: spec_fn(char) -> bool) -> Seq<char>
    decreases s.len(),
{
    if s.len() > 0 && strip(s.last()) {
        trim_end_by(s.drop_last(), strip)
    } else {
        s
    }
}

/// `str::trim_matches`: `s` without the leading and trailing characters
/// that `strip` holds of.
pub open spec fn trim_by(s: Seq<char>, strip: spec_fn(char) -> bool) -> Seq<char> {
    trim_end_by(trim_start_by(s, strip), strip)
}

/// The trimmed pieces that are not empty, in order.
pub open spec fn nonempty_trimmed(pieces: Seq<Seq<char>>, strip: spec_fn(char) -> bool) -> Seq<Seq<char>>
    decreases pieces.len(),
{
    if pieces.len() == 0 {
        Seq::empty()
    } else {
        let rest = nonempty_trimmed(pieces.drop_last(), strip);
        let t = trim_by(pieces.last(), strip);
        if t.len() > 0 {
            rest.push(t)
        } else {
            rest
        }
    }
}


pub proof fn lemma_split_pieces_len(s: Seq<char>, sep: spec_fn(char) -> bool)
    ensures
        split_pieces(s, sep).len() >= 1,
    decreases s.len(),
{
    if s.len() > 0 {
        lemma_split_pieces_len(s.drop_last(), sep);
    }
}

proof fn lemma_trim_start_range(s: Seq<char>, strip: spec_fn(char) -> bool, a: int, lo: int, b: int)
    requires
        0 <= a <= lo <= b <= s.len(),
        forall|k: int| a <= k < lo ==> strip(#[trigger] s[k]),
        lo == b || !strip(s[lo]),
    ensures
        trim_start_by(s.subrange(a, b), strip) == s.subrange(lo, b),
    decreases lo - a,
{
    let t = s.subrange(a, b);
    if a < lo {
        assert(t.drop_first() =~= s.subrange(a + 1, b));
        lemma_trim_start_range(s, strip, a + 1, lo, b);
    } else {
        assert(t =~= s.subrange(lo, b));
    }
}

proof fn lemma_trim_end_range(s: Seq<char>, strip: spec_fn(char) -> bool, lo: int, hi: int, b: int)
    requires
        0 <= lo <= hi <= b <= s.len(),
        forall|k: int| hi <= k < b ==> strip(#[trigger] s[k]),
        hi == lo || !strip(s[hi - 1]),
    ensures
        trim_end_by(s.subrange(lo, b), strip) == s.subrange(lo, hi),
    decreases b - hi,
{
    let t = s.subrange(lo, b);
    if hi < b {
        assert(t.drop_last() =~= s.subrange(lo, b - 1));
        lemma_trim_end_range(s, strip, lo, hi, b - 1);
    } else {
        assert(t =~= s.subrange(lo, hi));
    }
}

/// The segments that `bounds` cut out of `cs`.
pub open spec fn bounded_view(cs: Seq<char>, bounds: Seq<(usize, usize)>) -> Seq<Seq<char>> {
    Seq::new(bounds.len(), |k: int| cs.subrange(bounds[k].0 as int, bounds[k].1 as int))
}

pub open spec fn bounds_ok(cs: Seq<char>, bounds: Seq<(usize, usize)>) -> bool {
    forall|k: int|
        0 <= k < bounds.len() ==> #[trigger] bounds[k].0 <= bounds[k].1 && bounds[k].1 <= cs.len()
}

/// Trim `cs[from..to]`, returning the bounds of what is left.
fn trim_bounds(cs: &Vec<char>, from: usize, to: usize, strip: Strip) -> (r: (usize, usize))
    requires
        from <= to <= cs@.len(),
    ensures
        from <= r.0 <= r.1 <= to,
        cs@.subrange(r.0 as int, r.1 as int) == trim_by(cs@.subrange(from as int, to as int), strip_pred(strip)),
{
    let ghost sp = strip_pred(strip);
    let mut lo = from;
    while lo < to && strips(strip, cs[lo])
        invariant
            from <= lo <= to <= cs@.len(),
            sp == strip_pred(strip),
            forall|k: int| from <= k < lo ==> sp(#[trigger] cs@[k]),
        decreases to - lo,
    {
        lo = lo + 1;
    }
    proof {
        lemma_trim_start_range(cs@, sp, from as int, lo as int, to as int);
    }
    let mut hi = to;
    while hi > lo && strips(strip, cs[hi - 1])
        invariant
            lo <= hi <= to <= cs@.len(),
            sp == strip_pred(strip),
            forall|k: int| hi <= k < to ==> sp(#[trigger] cs@[k]),
        decreases hi - lo,
    {
        hi = hi - 1;
    }
    proof {
        lemma_trim_end_range(cs@, sp, lo as int, hi as int, to as int);
    }
    (lo, hi)
}

/// The bounds, within `cs`, of each non-empty trimmed piece.
pub(crate) fn piece_bounds(cs: &Vec<char>, sep: Separator, strip: Strip) -> (bounds: Vec<(usize, usize)>)
    ensures
        bounds_ok(cs@, bounds@),
        bounded_view(cs@, bounds@) == nonempty_trimmed(split_pieces(cs@, sep_pred(sep)), strip_pred(strip)),
{
    let ghost sep_p = sep_pred(sep);
    let ghost strip_p = strip_pred(strip);
    let n = cs.len();
    let mut bounds: Vec<(usize, usize)> = Vec::new();
    let mut start: usize = 0;
    let mut i: usize = 0;
    while i < n
        invariant
            n == cs@.len(),
            start <= i <= n,
            split_pieces(cs@.take(i as int), sep_p).len() >= 1,
            split_pieces(cs@.take(i as int), sep_p).last() == cs@.subrange(start as int, i as int),
            bounds_ok(cs@, bounds@),
            sep_p == sep_pred(sep),
            strip_p == strip_pred(strip),
            bounded_view(cs@, bounds@) == nonempty_trimmed(
                split_pieces(cs@.take(i as int), sep_p).drop_last(),
                strip_p,
            ),
        decreases n - i,
    {
        let ghost old_pieces = split_pieces(cs@.take(i as int), sep_p);
        let ghost old_view = bounded_view(cs@, bounds@);
        assert(cs@.take(i + 1).drop_last() =~= cs@.take(i as int));
        if separates(sep, cs[i]) {
            let (lo, hi) = trim_bounds(cs, start, i, strip);
            if lo < hi {
                bounds.push((lo, hi));
            }
            proof {
                let np = split_pieces(cs@.take(i + 1), sep_p);
                assert(np == old_pieces.push(Seq::<char>::empty()));
                assert(np.drop_last() =~= old_pieces);
                assert(old_pieces =~= old_pieces.drop_last().push(old_pieces.last()));
                if lo < hi {
                    assert(bounded_view(cs@, bounds@) =~= old_view.push(
                        cs@.subrange(lo as int, hi as int),
                    ));
                } else {
                    assert(bounded_view(cs@, bounds@) =~= old_view);
                }
                assert(cs@.subrange((i + 1) as int, (i + 1) as int) =~= Seq::<char>::empty());
            }
            start = i + 1;
        } else {
            proof {
                let np = split_pieces(cs@.take(i + 1), sep_p);
                assert(np.drop_last() =~= old_pieces.drop_last());
                assert(np.last() =~= cs@.subrange(start as int, (i + 1) as int));
            }
        }
        i = i + 1;
    }
    let (lo, hi) = trim_bounds(cs, start, n, strip);
    let ghost old_view = bounded_view(cs@, bounds@);
    if lo < hi {
        bounds.push((lo, hi));
    }
    proof {
        let p = split_pieces(cs@.take(n as int), sep_p);
        assert(cs@.take(n as int) =~= cs@);
        assert(p =~= p.drop_last().push(p.last()));
        if lo < hi {
            assert(bounded_view(cs@, bounds@) =~= old_view.push(
                cs@.subrange(lo as int, hi as int),
            ));
        } else {
            assert(bounded_view(cs@, bounds@) =~= old_view);
        }
    }
    bounds
}


// ---------------------------------------------------------------------------
// Facts about pieces
// ---------------------------------------------------------------------------

/// Whether no character of `t` is one that `pred` holds of.
pub open spec fn free_of(t: Seq<char>, pred: spec_fn(char) -> bool) -> bool {
    forall|i: int| 0 <= i < t.len() ==> !pred(#[trigger] t[i])
}

/// No piece holds a separator.
pub proof fn lemma_split_pieces_free(s: Seq<char>, sep: spec_fn(char) -> bool)
    ensures
        forall|k: int| 0 <= k < split_pieces(s, sep).len() ==> free_of(#[trigger] split_pieces(s, sep)[k], sep),
    decreases s.len(),
{
    if s.len() > 0 {
        let p = split_pieces(s.drop_last(), sep);
        lemma_split_pieces_free(s.drop_last(), sep);
        lemma_split_pieces_len(s.drop_last(), sep);
        let q = split_pieces(s, sep);
        assert forall|k: int| 0 <= k < q.len() implies free_of(#[trigger] q[k], sep) by {
            if k < p.len() - 1 {
                assert(q[k] == p[k]);
            } else if !sep(s.last()) {
                let t = p.last().push(s.last());
                assert(q[k] == t);
                assert(free_of(p[p.len() - 1], sep));
                assert forall|i: int| 0 <= i < t.len() implies !sep(#[trigger] t[i]) by {
                    if i < t.len() - 1 {
                        assert(t[i] == p[p.len() - 1][i]);
                    }
                }
            } else if k < p.len() {
                assert(q[k] == p[k]);
            }
        }
    }
}

/// Appending separator-free text extends the last piece.
pub proof fn lemma_split_pieces_append_free(x: Seq<char>, y: Seq<char>, sep: spec_fn(char) -> bool)
    requires
        free_of(y, sep),
    ensures
        split_pieces(x + y, sep) == split_pieces(x, sep).update(
            split_pieces(x, sep).len() - 1,
            split_pieces(x, sep).last() + y,
        ),
    decreases y.len(),
{
    let p = split_pieces(x, sep);
    lemma_split_pieces_len(x, sep);
    if y.len() == 0 {
        assert(x + y =~= x);
        assert(p.last() + y =~= p.last());
        assert(p.update(p.len() - 1, p.last() + y) =~= p);
    } else {
        let y0 = y.drop_last();
        assert(free_of(y0, sep)) by {
            assert forall|i: int| 0 <= i < y0.len() implies !sep(#[trigger] y0[i]) by {
                assert(y0[i] == y[i]);
            }
        }
        lemma_split_pieces_append_free(x, y0, sep);
        assert((x + y).drop_last() =~= x + y0);
        assert((x + y).last() == y.last());
        assert(!sep(y[y.len() - 1]));
        let q = split_pieces(x + y0, sep);
        assert(q.last() == p.last() + y0);
        assert((p.last() + y0).push(y.last()) =~= p.last() + y);
        assert(q.update(q.len() - 1, q.last().push(y.last())) =~= p.update(p.len() - 1, p.last() + y));
    }
}

/// A separator at the end starts a new, empty piece.
pub proof fn lemma_split_pieces_push_sep(x: Seq<char>, c: char, sep: spec_fn(char) -> bool)
    requires
        sep(c),
    ensures
        split_pieces(x.push(c), sep) == split_pieces(x, sep).push(Seq::<char>::empty()),
{
    assert(x.push(c).drop_last() =~= x);
    assert(x.push(c).last() == c);
}

proof fn lemma_trim_start_shape(s: Seq<char>, strip: spec_fn(char) -> bool)
    ensures
        trim_start_by(s, strip).len() <= s.len(),
        trim_start_by(s, strip) == s.skip(s.len() - trim_start_by(s, strip).len()),
        trim_start_by(s, strip).len() > 0 ==> !strip(trim_start_by(s, strip)[0]),
    decreases s.len(),
{
    if s.len() > 0 && strip(s[0]) {
        lemma_trim_start_shape(s.drop_first(), strip);
        let r = trim_start_by(s.drop_first(), strip);
        assert(s.drop_first().skip(s.drop_first().len() - r.len()) =~= s.skip(s.len() - r.len()));
    } else {
        assert(s.skip(0) =~= s);
    }
}

proof fn lemma_trim_end_shape(s: Seq<char>, strip: spec_fn(char) -> bool)
    ensures
        trim_end_by(s, strip).len() <= s.len(),
        trim_end_by(s, strip) == s.take(trim_end_by(s, strip).len() as int),
        trim_end_by(s, strip).len() > 0 ==> !strip(trim_end_by(s, strip).last()),
    decreases s.len(),
{
    if s.len() > 0 && strip(s.last()) {
        lemma_trim_end_shape(s.drop_last(), strip);
        let r = trim_end_by(s.drop_last(), strip);
        assert(s.drop_last().take(r.len() as int) =~= s.take(r.len() as int));
    } else {
        assert(s.take(s.len() as int) =~= s);
    }
}

/// Trimming is idempotent and keeps what the text was free of.
pub proof fn lemma_trim_by_clean(s: Seq<char>, strip: spec_fn(char) -> bool, other: spec_fn(char) -> bool)
    ensures
        trim_by(trim_by(s, strip), strip) == trim_by(s, strip),
        free_of(s, other) ==> free_of(trim_by(s, strip), other),
{
    let r1 = trim_start_by(s, strip);
    let t = trim_end_by(r1, strip);
    lemma_trim_start_shape(s, strip);
    lemma_trim_end_shape(r1, strip);
    let off = s.len() - r1.len();
    assert forall|i: int| 0 <= i < t.len() implies t[i] == s[i + off] by {
        assert(t[i] == r1[i]);
        assert(r1[i] == s.skip(off)[i]);
    }
    if free_of(s, other) {
        assert forall|i: int| 0 <= i < t.len() implies !other(#[trigger] t[i]) by {
            assert(t[i] == s[i + off]);
        }
    }
    if t.len() > 0 {
        assert(t[0] == r1[0]);
        assert(trim_start_by(t, strip) == t);
    } else {
        assert(trim_start_by(t, strip) == t);
    }
    assert(trim_end_by(t, strip) == t);
}

/// Every kept piece is non-empty, already trimmed, and free of whatever
/// all the pieces were free of.
pub proof fn lemma_nonempty_trimmed_clean(
    pieces: Seq<Seq<char>>,
    strip: spec_fn(char) -> bool,
    other: spec_fn(char) -> bool,
)
    requires
        forall|k: int| 0 <= k < pieces.len() ==> free_of(#[trigger] pieces[k], other),
    ensures
        forall|k: int|
            0 <= k < nonempty_trimmed(pieces, strip).len() ==> {
                let t = #[trigger] nonempty_trimmed(pieces, strip)[k];
                &&& t.len() > 0
                &&& trim_by(t, strip) == t
                &&& free_of(t, other)
            },
    decreases pieces.len(),
{
    if pieces.len() > 0 {
        let rest = nonempty_trimmed(pieces.drop_last(), strip);
        lemma_nonempty_trimmed_clean(pieces.drop_last(), strip, other);
        assert(free_of(pieces[pieces.len() - 1], other));
        lemma_trim_by_clean(pieces.last(), strip, other);
        let out = nonempty_trimmed(pieces, strip);
        assert forall|k: int| 0 <= k < out.len() implies {
            let t = #[trigger] out[k];
            &&& t.len() > 0
            &&& trim_by(t, strip) == t
            &&& free_of(t, other)
        } by {
            if k < rest.len() {
                assert(out[k] == rest[k]);
                assert(free_of(pieces.drop_last()[k], other) ==> true);
            }
        }
    }
}

/// Pieces that are non-empty and already trimmed are all kept as they are.
pub proof fn lemma_nonempty_trimmed_keeps_clean(pieces: Seq<Seq<char>>, strip: spec_fn(char) -> bool)
    requires
        forall|k: int| 0 <= k < pieces.len() ==> (#[trigger] pieces[k]).len() > 0 && trim_by(pieces[k], strip) == pieces[k],
    ensures
        nonempty_trimmed(pieces, strip) == pieces,
    decreases pieces.len(),
{
    if pieces.len() > 0 {
        lemma_nonempty_trimmed_keeps_clean(pieces.drop_last(), strip);
        assert(pieces[pieces.len() - 1].len() > 0);
        assert(pieces.drop_last().push(pieces.last()) =~= pieces);
    } else {
        assert(pieces =~= Seq::<Seq<char>>::empty());
    }
}

/// A separator splits a text in two: the pieces of `x`, a separator and
/// `y` are the pieces of `x` followed by the pieces of `y`.
pub proof fn lemma_split_pieces_concat(x: Seq<char>, c: char, y: Seq<char>, sep: spec_fn(char) -> bool)
    requires
        sep(c),
    ensures
        split_pieces(x.push(c) + y, sep) == split_pieces(x, sep) + split_pieces(y, sep),
    decreases y.len(),
{
    if y.len() == 0 {
        assert(x.push(c) + y =~= x.push(c));
        lemma_split_pieces_push_sep(x, c, sep);
        assert(split_pieces(y, sep) == seq![Seq::<char>::empty()]);
        assert(split_pieces(x, sep).push(Seq::<char>::empty()) =~= split_pieces(x, sep) + seq![
            Seq::<char>::empty(),
        ]);
    } else {
        let y0 = y.drop_last();
        lemma_split_pieces_concat(x, c, y0, sep);
        lemma_split_pieces_len(y0, sep);
        let w = x.push(c) + y;
        assert(w.drop_last() =~= x.push(c) + y0);
        assert(w.last() == y.last());
        let a = split_pieces(x, sep);
        let b0 = split_pieces(y0, sep);
        if sep(y.last()) {
            assert((a + b0).push(Seq::<char>::empty()) =~= a + b0.push(Seq::<char>::empty()));
        } else {
            let ab = a + b0;
            assert(ab.last() == b0.last());
            assert(ab.update(ab.len() - 1, ab.last().push(y.last())) =~= a + b0.update(
                b0.len() - 1,
                b0.last().push(y.last()),
            ));
        }
    }
}

/// Keeping the non-empty trimmed pieces works piece by piece.
pub proof fn lemma_nonempty_trimmed_concat(a: Seq<Seq<char>>, b: Seq<Seq<char>>, strip: spec_fn(char) -> bool)
    ensures
        nonempty_trimmed(a + b, strip) == nonempty_trimmed(a, strip) + nonempty_trimmed(b, strip),
    decreases b.len(),
{
    if b.len() == 0 {
        assert(a + b =~= a);
        assert(nonempty_trimmed(a, strip) + nonempty_trimmed(b, strip) =~= nonempty_trimmed(a, strip));
    } else {
        lemma_nonempty_trimmed_concat(a, b.drop_last(), strip);
        assert((a + b).drop_last() =~= a + b.drop_last());
        assert((a + b).last() == b.last());
        let na = nonempty_trimmed(a, strip);
        let nb0 = nonempty_trimmed(b.drop_last(), strip);
        let t = trim_by(b.last(), strip);
        if t.len() > 0 {
            assert((na + nb0).push(t) =~= na + nb0.push(t));
        }
    }
}

/// Characters that a trim removes at either end of a text do not change
/// the trimmed text.
pub proof fn lemma_trim_by_ends(s: Seq<char>, c: char, strip: spec_fn(char) -> bool)
    requires
        strip(c),
    ensures
        trim_by(seq![c] + s, strip) == trim_by(s, strip),
        trim_by(s.push(c), strip) == trim_by(s, strip),
{
    assert((seq![c] + s)[0] == c);
    assert((seq![c] + s).drop_first() =~= s);
    lemma_trim_end_push(trim_start_by(s, strip), s, c, strip);
}

proof fn lemma_trim_end_push(r: Seq<char>, s: Seq<char>, c: char, strip: spec_fn(char) -> bool)
    requires
        strip(c),
        r == trim_start_by(s, strip),
    ensures
        trim_end_by(trim_start_by(s.push(c), strip), strip) == trim_end_by(r, strip),
    decreases s.len(),
{
    let w = s.push(c);
    if s.len() > 0 && strip(s[0]) {
        assert(w[0] == s[0]);
        assert(w.drop_first() =~= s.drop_first().push(c));
        lemma_trim_end_push(trim_start_by(s.drop_first(), strip), s.drop_first(), c, strip);
    } else if s.len() == 0 {
        assert(w =~= seq![c]);
        assert(w.drop_first() =~= Seq::<char>::empty());
        assert(trim_start_by(Seq::<char>::empty(), strip) == Seq::<char>::empty());
    } else {
        assert(w[0] == s[0]);
        assert(trim_start_by(w, strip) == w);
        assert(w.last() == c);
        assert(w.drop_last() =~= s);
    }
}

} // verus!
