//! Splitting a block of SQL into statements on top-level `;`.
use vstd::prelude::*;

use crate::text::{
    chars_of, is_trimmed, is_white_space, lemma_trim_bounds, lemma_trim_is_trimmed,
    lemma_trim_of_trimmed, string_of, trim, trim_bounds,
};

verus! {

/// Where the scanner stands while walking a block of SQL looking for
/// statement-separating semicolons.
#[derive(PartialEq, Eq, Structural, Clone, Copy, Debug)]
pub enum ScanState {
    Normal,
    SingleQuoted,
    DoubleQuoted,
    LineComment,
    BlockComment,
}

/// `cs[i + 1]` exists and is `c`.
pub open spec fn next_is(cs: Seq<char>, i: int, c: char) -> bool {
    i + 1 < cs.len() && cs[i + 1] == c
}

/// One move of the scanner at `cs[i]` in state `st`: how many characters it
/// takes (one, or two for `--`, `/*`, `*/`, `''` and `""`), the state after
/// them, and whether `cs[i]` is a separating semicolon.
pub open spec fn scan_step(cs: Seq<char>, i: int, st: ScanState) -> (int, ScanState, bool) {
    let c = cs[i];
    match st {
        ScanState::Normal => if c == '\'' {
            (1, ScanState::SingleQuoted, false)
        } else if c == '"' {
            (1, ScanState::DoubleQuoted, false)
        } else if c == '-' && next_is(cs, i, '-') {
            (2, ScanState::LineComment, false)
        } else if c == '/' && next_is(cs, i, '*') {
            (2, ScanState::BlockComment, false)
        } else {
            (1, ScanState::Normal, c == ';')
        },
        ScanState::SingleQuoted => if c == '\'' {
            if next_is(cs, i, '\'') {
                (2, ScanState::SingleQuoted, false)
            } else {
                (1, ScanState::Normal, false)
            }
        } else {
            (1, ScanState::SingleQuoted, false)
        },
        ScanState::DoubleQuoted => if c == '"' {
            if next_is(cs, i, '"') {
                (2, ScanState::DoubleQuoted, false)
            } else {
                (1, ScanState::Normal, false)
            }
        } else {
            (1, ScanState::DoubleQuoted, false)
        },
        ScanState::LineComment => if c == '\n' {
            (1, ScanState::Normal, false)
        } else {
            (1, ScanState::LineComment, false)
        },
        ScanState::BlockComment => if c == '*' && next_is(cs, i, '/') {
            (2, ScanState::Normal, false)
        } else {
            (1, ScanState::BlockComment, false)
        },
    }
}

/// The positions, from `i` on, of the semicolons that separate statements
/// when the scanner reaches `i` in state `st`.
pub open spec fn separators(cs: Seq<char>, i: int, st: ScanState) -> Seq<int>
    decreases cs.len() - i,
{
    if i < 0 || i >= cs.len() {
        seq![]
    } else {
        let (w, next, sep) = scan_step(cs, i, st);
        let rest = separators(cs, i + w, next);
        if sep {
            seq![i] + rest
        } else {
            rest
        }
    }
}

/// The text from `start` up to each separator in turn, and the text after
/// the last one.
pub open spec fn pieces(cs: Seq<char>, start: int, seps: Seq<int>) -> Seq<Seq<char>>
    decreases seps.len(),
{
    if seps.len() == 0 {
        seq![cs.subrange(start, cs.len() as int)]
    } else {
        seq![cs.subrange(start, seps[0])] + pieces(cs, seps[0] + 1, seps.drop_first())
    }
}

/// Each piece trimmed, the empty ones dropped.
pub open spec fn keep_statements(ps: Seq<Seq<char>>) -> Seq<Seq<char>>
    decreases ps.len(),
{
    if ps.len() == 0 {
        seq![]
    } else {
        let t = trim(ps[0]);
        let rest = keep_statements(ps.drop_first());
        if t.len() == 0 {
            rest
        } else {
            seq![t] + rest
        }
    }
}

/// The statements of `cs`: the text between top-level semicolons, trimmed,
/// empty ones dropped.
pub open spec fn statements(cs: Seq<char>) -> Seq<Seq<char>> {
    keep_statements(pieces(cs, 0, separators(cs, 0, ScanState::Normal)))
}

/// The characters of each string.
pub open spec fn strings_view(v: Seq<String>) -> Seq<Seq<char>> {
    v.map_values(|s: String| s@)
}

proof fn lemma_keep_statements_shape(ps: Seq<Seq<char>>)
    ensures
        forall|k: int|
            0 <= k < keep_statements(ps).len() ==> #[trigger] keep_statements(ps)[k].len() > 0
                && is_trimmed(keep_statements(ps)[k]),
    decreases ps.len(),
{
    if ps.len() > 0 {
        lemma_keep_statements_shape(ps.drop_first());
        lemma_trim_is_trimmed(ps[0]);
        let rest = keep_statements(ps.drop_first());
        let t = trim(ps[0]);
        if t.len() > 0 {
            assert forall|k: int| 0 <= k < keep_statements(ps).len() implies #[trigger] keep_statements(
                ps,
            )[k].len() > 0 && is_trimmed(keep_statements(ps)[k]) by {
                if k > 0 {
                    assert(keep_statements(ps)[k] == rest[k - 1]);
                }
            }
        }
    }
}

/// The state the scanner is in once it has walked `cs` from `i` in state
/// `st` to the end.
pub open spec fn scan_end(cs: Seq<char>, i: int, st: ScanState) -> ScanState
    decreases cs.len() - i,
{
    if i < 0 || i >= cs.len() {
        st
    } else {
        let (w, next, sep) = scan_step(cs, i, st);
        scan_end(cs, i + w, next)
    }
}

/// Every quote and comment opened in `cs` is closed by its end.
pub open spec fn closes_everything(cs: Seq<char>) -> bool {
    scan_end(cs, 0, ScanState::Normal) == ScanState::Normal
}

/// The positions `seps`, each moved right by `m`.
pub open spec fn shifted(seps: Seq<int>, m: int) -> Seq<int> {
    seps.map_values(|k: int| k + m)
}

/// `seps` are increasing positions in `[lo, hi)`.
pub open spec fn increasing_within(seps: Seq<int>, lo: int, hi: int) -> bool {
    &&& forall|k: int| 0 <= k < seps.len() ==> lo <= #[trigger] seps[k] < hi
    &&& forall|k: int, l: int| 0 <= k < l < seps.len() ==> #[trigger] seps[k] < #[trigger] seps[l]
}

proof fn lemma_step_width(cs: Seq<char>, i: int, st: ScanState)
    requires
        0 <= i < cs.len(),
    ensures
        1 <= scan_step(cs, i, st).0 <= 2,
        i + scan_step(cs, i, st).0 <= cs.len(),
        scan_step(cs, i, st).2 ==> cs[i] == ';' && scan_step(cs, i, st).0 == 1
            && scan_step(cs, i, st).1 == ScanState::Normal,
        scan_step(cs, i, st).0 == 2 ==> i + 1 < cs.len() && is_lookahead(cs[i + 1]),
{
}

proof fn lemma_separators_increasing(cs: Seq<char>, i: int, st: ScanState)
    requires
        0 <= i <= cs.len(),
    ensures
        increasing_within(separators(cs, i, st), i, cs.len() as int),
        forall|k: int|
            0 <= k < separators(cs, i, st).len() ==> cs[#[trigger] separators(cs, i, st)[k]]
                == ';',
    decreases cs.len() - i,
{
    if i < cs.len() {
        lemma_step_width(cs, i, st);
        let (w, next, sep) = scan_step(cs, i, st);
        lemma_separators_increasing(cs, i + w, next);
        let rest = separators(cs, i + w, next);
        if sep {
            let all = seq![i] + rest;
            assert(separators(cs, i, st) == all);
            assert forall|k: int, l: int| 0 <= k < l < all.len() implies #[trigger] all[k]
                < #[trigger] all[l] by {
                if k > 0 {
                    assert(all[k] == rest[k - 1]);
                }
                assert(all[l] == rest[l - 1]);
            }
            assert forall|k: int| 0 <= k < all.len() implies i <= #[trigger] all[k] < cs.len()
                && cs[all[k]] == ';' by {
                if k > 0 {
                    assert(all[k] == rest[k - 1]);
                }
            }
        }
    }
}

/// The scan of `p + b` past `p` is the scan of `b`, moved right by
/// `p.len()`.
proof fn lemma_separators_suffix(p: Seq<char>, b: Seq<char>, j: int, st: ScanState)
    requires
        0 <= j <= b.len(),
    ensures
        separators(p + b, p.len() + j, st) == shifted(separators(b, j, st), p.len() as int),
        scan_end(p + b, p.len() + j, st) == scan_end(b, j, st),
    decreases b.len() - j,
{
    let c = p + b;
    let m = p.len() as int;
    if j < b.len() {
        assert(c[m + j] == b[j]);
        assert(next_is(c, m + j, '-') == next_is(b, j, '-'));
        assert(next_is(c, m + j, '*') == next_is(b, j, '*'));
        assert(next_is(c, m + j, '/') == next_is(b, j, '/'));
        assert(next_is(c, m + j, '\'') == next_is(b, j, '\''));
        assert(next_is(c, m + j, '"') == next_is(b, j, '"'));
        assert(scan_step(c, m + j, st) == scan_step(b, j, st));
        lemma_step_width(b, j, st);
        let (w, next, sep) = scan_step(b, j, st);
        lemma_separators_suffix(p, b, j + w, next);
        let rest = separators(b, j + w, next);
        if sep {
            assert(shifted(seq![j] + rest, m) =~= seq![m + j] + shifted(rest, m));
        }
    } else {
        assert(shifted(Seq::<int>::empty(), m) =~= Seq::<int>::empty());
    }
}

/// Before the joining `;`, the scan of `a + ";" + b` is the scan of `a`.
proof fn lemma_separators_prefix(a: Seq<char>, b: Seq<char>, i: int, st: ScanState)
    requires
        0 <= i <= a.len(),
        scan_end(a, i, st) == ScanState::Normal,
    ensures
        separators(a + seq![';'] + b, i, st) == separators(a, i, st) + seq![a.len() as int]
            + shifted(separators(b, 0, ScanState::Normal), a.len() as int + 1),
    decreases a.len() - i,
{
    let c = a + seq![';'] + b;
    let n = a.len() as int;
    assert(c == (a + seq![';']) + b);
    if i == n {
        assert(c[n] == ';');
        assert(scan_step(c, n, ScanState::Normal) == (1int, ScanState::Normal, true));
        lemma_separators_suffix(a + seq![';'], b, 0, ScanState::Normal);
        assert(separators(a, n, st) =~= Seq::<int>::empty());
    } else {
        assert(c[i] == a[i]);
        if i + 1 < n {
            assert(c[i + 1] == a[i + 1]);
        } else {
            assert(c[i + 1] == ';');
        }
        assert(scan_step(c, i, st) == scan_step(a, i, st));
        lemma_step_width(a, i, st);
        let (w, next, sep) = scan_step(a, i, st);
        lemma_separators_prefix(a, b, i + w, next);
        let tail = shifted(separators(b, 0, ScanState::Normal), n + 1);
        if sep {
            assert(seq![i] + (separators(a, i + w, next) + seq![n] + tail) =~= (seq![i]
                + separators(a, i + w, next)) + seq![n] + tail);
        }
    }
}

/// Cutting `a + ";" + b` at the joining `;` gives the pieces of `a`, then
/// those of `c` after it.
proof fn lemma_pieces_prefix(
    a: Seq<char>,
    c: Seq<char>,
    start: int,
    seps: Seq<int>,
    rest: Seq<int>,
)
    requires
        c.len() > a.len(),
        a =~= c.subrange(0, a.len() as int),
        0 <= start <= a.len(),
        increasing_within(seps, start, a.len() as int),
    ensures
        pieces(c, start, seps + seq![a.len() as int] + rest) == pieces(a, start, seps) + pieces(
            c,
            a.len() as int + 1,
            rest,
        ),
    decreases seps.len(),
{
    let n = a.len() as int;
    let all = seps + seq![n] + rest;
    if seps.len() == 0 {
        assert(all =~= seq![n] + rest);
        assert(all.drop_first() =~= rest);
        assert(c.subrange(start, n) =~= a.subrange(start, n));
    } else {
        let s0 = seps[0];
        let tail = seps.drop_first();
        assert(all.drop_first() =~= tail + seq![n] + rest);
        assert forall|k: int| 0 <= k < tail.len() implies s0 + 1 <= #[trigger] tail[k] < n by {
            assert(tail[k] == seps[k + 1]);
        }
        assert forall|k: int, l: int| 0 <= k < l < tail.len() implies #[trigger] tail[k]
            < #[trigger] tail[l] by {
            assert(tail[k] == seps[k + 1]);
            assert(tail[l] == seps[l + 1]);
        }
        lemma_pieces_prefix(a, c, s0 + 1, tail, rest);
        assert(c.subrange(start, s0) =~= a.subrange(start, s0));
        assert(seq![a.subrange(start, s0)] + (pieces(a, s0 + 1, tail) + pieces(c, n + 1, rest))
            =~= (seq![a.subrange(start, s0)] + pieces(a, s0 + 1, tail)) + pieces(c, n + 1, rest));
    }
}

/// The pieces of `p + b` past `p` are the pieces of `b`.
proof fn lemma_pieces_suffix(p: Seq<char>, b: Seq<char>, start: int, seps: Seq<int>)
    requires
        0 <= start <= b.len(),
        increasing_within(seps, start, b.len() as int),
    ensures
        pieces(p + b, p.len() + start, shifted(seps, p.len() as int)) == pieces(b, start, seps),
    decreases seps.len(),
{
    let c = p + b;
    let m = p.len() as int;
    let sh = shifted(seps, m);
    if seps.len() == 0 {
        assert(c.subrange(m + start, c.len() as int) =~= b.subrange(start, b.len() as int));
    } else {
        let s0 = seps[0];
        let tail = seps.drop_first();
        assert(sh.drop_first() =~= shifted(tail, m));
        assert forall|k: int| 0 <= k < tail.len() implies s0 + 1 <= #[trigger] tail[k] < b.len() by {
            assert(tail[k] == seps[k + 1]);
        }
        assert forall|k: int, l: int| 0 <= k < l < tail.len() implies #[trigger] tail[k]
            < #[trigger] tail[l] by {
            assert(tail[k] == seps[k + 1]);
            assert(tail[l] == seps[l + 1]);
        }
        lemma_pieces_suffix(p, b, s0 + 1, tail);
        assert(c.subrange(m + start, m + s0) =~= b.subrange(start, s0));
    }
}

proof fn lemma_keep_statements_append(x: Seq<Seq<char>>, y: Seq<Seq<char>>)
    ensures
        keep_statements(x + y) == keep_statements(x) + keep_statements(y),
    decreases x.len(),
{
    if x.len() == 0 {
        assert(x + y =~= y);
    } else {
        assert((x + y).drop_first() =~= x.drop_first() + y);
        lemma_keep_statements_append(x.drop_first(), y);
        assert((x + y)[0] == x[0]);
        let t = trim(x[0]);
        if t.len() > 0 {
            assert(seq![t] + (keep_statements(x.drop_first()) + keep_statements(y)) =~= (seq![t]
                + keep_statements(x.drop_first())) + keep_statements(y));
        }
    }
}

/// Joining two blocks of SQL with a `;` joins their statements: when every
/// quote and comment opened in `a` is closed, the statements of
/// `a + ";" + b` are those of `a` followed by those of `b`.
pub proof fn lemma_statements_concat(a: Seq<char>, b: Seq<char>)
    requires
        closes_everything(a),
    ensures
        statements(a + seq![';'] + b) == statements(a) + statements(b),
{
    let c = a + seq![';'] + b;
    let n = a.len() as int;
    let sa = separators(a, 0, ScanState::Normal);
    let sb = separators(b, 0, ScanState::Normal);
    lemma_separators_prefix(a, b, 0, ScanState::Normal);
    lemma_separators_increasing(a, 0, ScanState::Normal);
    lemma_separators_increasing(b, 0, ScanState::Normal);
    assert(c.subrange(0, n) =~= a);
    lemma_pieces_prefix(a, c, 0, sa, shifted(sb, n + 1));
    assert(c == (a + seq![';']) + b);
    lemma_pieces_suffix(a + seq![';'], b, 0, sb);
    lemma_keep_statements_append(pieces(a, 0, sa), pieces(b, 0, sb));
}

proof fn lemma_no_semicolon_no_separator(cs: Seq<char>, i: int, st: ScanState)
    requires
        0 <= i <= cs.len(),
        !cs.contains(';'),
    ensures
        separators(cs, i, st) == Seq::<int>::empty(),
    decreases cs.len() - i,
{
    if i < cs.len() {
        lemma_step_width(cs, i, st);
        let (w, next, sep) = scan_step(cs, i, st);
        if sep {
            assert(cs[i] == ';');
        }
        lemma_no_semicolon_no_separator(cs, i + w, next);
    }
}

/// SQL with no `;` at all is a single statement: its trimmed text, or no
/// statement when that is empty.
pub proof fn lemma_statements_without_semicolon(cs: Seq<char>)
    requires
        !cs.contains(';'),
    ensures
        statements(cs) == (if trim(cs).len() == 0 {
            Seq::<Seq<char>>::empty()
        } else {
            seq![trim(cs)]
        }),
{
    lemma_no_semicolon_no_separator(cs, 0, ScanState::Normal);
    let ps = pieces(cs, 0, Seq::<int>::empty());
    assert(cs.subrange(0, cs.len() as int) =~= cs);
    assert(ps =~= seq![cs]);
    assert(ps.drop_first() =~= Seq::<Seq<char>>::empty());
    assert(keep_statements(Seq::<Seq<char>>::empty()) =~= Seq::<Seq<char>>::empty());
    if trim(cs).len() > 0 {
        assert(seq![trim(cs)] + Seq::<Seq<char>>::empty() =~= seq![trim(cs)]);
    }
}

/// A character the scanner looks ahead for.
pub open spec fn is_lookahead(c: char) -> bool {
    c == '-' || c == '*' || c == '/' || c == '\'' || c == '"'
}

/// Cutting `c` at `y` changes no look-ahead: `y` is the end, or `c[y]` is
/// not a character the scanner looks ahead for.
pub open spec fn clean_cut(c: Seq<char>, y: int) -> bool {
    y == c.len() || !is_lookahead(c[y])
}

/// Scanning `c` from `i` in state `st` lands on `hi` exactly, in state
/// `end`, without meeting a separator.
pub open spec fn reaches(c: Seq<char>, i: int, st: ScanState, hi: int, end: ScanState) -> bool
    decreases hi - i,
{
    if i >= hi {
        i == hi && st == end
    } else if i < 0 || i >= c.len() {
        false
    } else {
        let (w, next, sep) = scan_step(c, i, st);
        !sep && i + w <= hi && reaches(c, i + w, next, hi, end)
    }
}

proof fn lemma_reaches_extend(c: Seq<char>, j: int, sj: ScanState, i: int, st: ScanState)
    requires
        reaches(c, j, sj, i, st),
        0 <= i < c.len(),
        !scan_step(c, i, st).2,
    ensures
        reaches(c, j, sj, i + scan_step(c, i, st).0, scan_step(c, i, st).1),
    decreases i - j,
{
    lemma_step_width(c, i, st);
    if j < i {
        lemma_step_width(c, j, sj);
        let (w, next, sep) = scan_step(c, j, sj);
        lemma_reaches_extend(c, j + w, next, i, st);
    } else {
        let (w, next, sep) = scan_step(c, i, st);
        assert(reaches(c, i + w, next, i + w, next));
    }
}

/// A stretch the scanner crosses without a separator, cut cleanly, holds
/// no separator of its own.
proof fn lemma_reaches_sub(
    c: Seq<char>,
    lo: int,
    hi: int,
    i: int,
    st: ScanState,
    end: ScanState,
)
    requires
        0 <= lo <= i <= hi <= c.len(),
        clean_cut(c, hi),
        reaches(c, i, st, hi, end),
    ensures
        separators(c.subrange(lo, hi), i - lo, st) == Seq::<int>::empty(),
    decreases hi - i,
{
    let sub = c.subrange(lo, hi);
    if i < hi {
        lemma_step_width(c, i, st);
        assert(sub[i - lo] == c[i]);
        if i + 1 < hi {
            assert(sub[i + 1 - lo] == c[i + 1]);
        }
        assert(scan_step(sub, i - lo, st) == scan_step(c, i, st));
        let (w, next, sep) = scan_step(c, i, st);
        lemma_reaches_sub(c, lo, hi, i + w, next, end);
        assert(i - lo + w == i + w - lo);
    }
}

proof fn lemma_reaches_prefix(
    c: Seq<char>,
    i: int,
    st: ScanState,
    hi: int,
    end: ScanState,
    y: int,
) -> (mid: ScanState)
    requires
        0 <= i <= y <= hi <= c.len(),
        clean_cut(c, y),
        reaches(c, i, st, hi, end),
    ensures
        reaches(c, i, st, y, mid),
    decreases hi - i,
{
    if i == y {
        st
    } else {
        lemma_step_width(c, i, st);
        let (w, next, sep) = scan_step(c, i, st);
        lemma_reaches_prefix(c, i + w, next, hi, end, y)
    }
}

proof fn lemma_reaches_skip_space(c: Seq<char>, a: int, b: int, end: ScanState, x: int)
    requires
        0 <= a,
        0 <= x,
        a + x <= b <= c.len(),
        reaches(c, a, ScanState::Normal, b, end),
        forall|k: int| a <= k < a + x ==> is_white_space(#[trigger] c[k]),
    ensures
        reaches(c, a + x, ScanState::Normal, b, end),
    decreases x,
{
    if x > 0 {
        assert(is_white_space(c[a]));
        assert(scan_step(c, a, ScanState::Normal) == (1int, ScanState::Normal, false));
        lemma_reaches_skip_space(c, a + 1, b, end, x - 1);
    }
}

/// The trimmed text of a stretch that the scanner crosses from the normal
/// state without a separator, ending at a `;` or at the end, splits to
/// itself.
proof fn lemma_piece_splits_to_itself(c: Seq<char>, a: int, b: int, st: ScanState)
    requires
        0 <= a <= b <= c.len(),
        reaches(c, a, ScanState::Normal, b, st),
        b == c.len() || c[b] == ';',
        trim(c.subrange(a, b)).len() > 0,
    ensures
        statements(trim(c.subrange(a, b))) == seq![trim(c.subrange(a, b))],
{
    let p = c.subrange(a, b);
    let (x, y) = lemma_trim_bounds(p);
    assert forall|k: int| a <= k < a + x implies is_white_space(#[trigger] c[k]) by {
        assert(c[k] == p[k - a]);
    }
    lemma_reaches_skip_space(c, a, b, st, x);
    if y < p.len() {
        assert(c[a + y] == p[y]);
        assert(is_white_space(p[y]));
    }
    let mid = lemma_reaches_prefix(c, a + x, ScanState::Normal, b, st, a + y);
    lemma_reaches_sub(c, a + x, a + y, a + x, ScanState::Normal, mid);
    let t = trim(p);
    assert(t =~= c.subrange(a + x, a + y));
    lemma_trim_is_trimmed(p);
    lemma_trim_of_trimmed(t);
    assert(t.subrange(0, t.len() as int) =~= t);
    assert(pieces(t, 0, Seq::<int>::empty()) =~= seq![t]);
    assert(seq![t].drop_first() =~= Seq::<Seq<char>>::empty());
    assert(keep_statements(Seq::<Seq<char>>::empty()) =~= Seq::<Seq<char>>::empty());
    assert(keep_statements(seq![t]) =~= seq![t]);
}

proof fn lemma_statements_split_from(c: Seq<char>, start: int, i: int, st: ScanState)
    requires
        0 <= start <= i <= c.len(),
        reaches(c, start, ScanState::Normal, i, st),
    ensures
        forall|k: int|
            0 <= k < keep_statements(pieces(c, start, separators(c, i, st))).len() ==> statements(
                #[trigger] keep_statements(pieces(c, start, separators(c, i, st)))[k],
            ) == seq![keep_statements(pieces(c, start, separators(c, i, st)))[k]],
    decreases c.len() - i,
{
    let ks = keep_statements(pieces(c, start, separators(c, i, st)));
    if i == c.len() {
        let last = c.subrange(start, i);
        assert(separators(c, i, st) =~= Seq::<int>::empty());
        assert(pieces(c, start, Seq::<int>::empty()) =~= seq![last]);
        assert(seq![last].drop_first() =~= Seq::<Seq<char>>::empty());
        assert(keep_statements(Seq::<Seq<char>>::empty()) =~= Seq::<Seq<char>>::empty());
        if trim(last).len() > 0 {
            lemma_piece_splits_to_itself(c, start, i, st);
            assert(ks =~= seq![trim(last)]);
        } else {
            assert(ks =~= Seq::<Seq<char>>::empty());
        }
    } else {
        lemma_step_width(c, i, st);
        let (w, next, sep) = scan_step(c, i, st);
        if !sep {
            lemma_reaches_extend(c, start, ScanState::Normal, i, st);
            assert(separators(c, i, st) == separators(c, i + w, next));
            lemma_statements_split_from(c, start, i + w, next);
        } else {
            let rest = separators(c, i + 1, ScanState::Normal);
            assert(separators(c, i, st) == seq![i] + rest);
            assert((seq![i] + rest).drop_first() =~= rest);
            let piece = c.subrange(start, i);
            let ps = seq![piece] + pieces(c, i + 1, rest);
            assert(pieces(c, start, seq![i] + rest) =~= ps);
            assert(ps.drop_first() =~= pieces(c, i + 1, rest));
            assert(reaches(c, i + 1, ScanState::Normal, i + 1, ScanState::Normal));
            lemma_statements_split_from(c, i + 1, i + 1, ScanState::Normal);
            let tail = keep_statements(pieces(c, i + 1, rest));
            if trim(piece).len() > 0 {
                lemma_piece_splits_to_itself(c, start, i, st);
                assert(ks == seq![trim(piece)] + tail);
                assert forall|k: int| 0 <= k < ks.len() implies statements(#[trigger] ks[k])
                    == seq![ks[k]] by {
                    if k > 0 {
                        assert(ks[k] == tail[k - 1]);
                    }
                }
            } else {
                assert(ks == tail);
            }
        }
    }
}

/// A statement produced by the splitter splits to itself: it holds no
/// top-level `;`.
pub proof fn lemma_statement_splits_to_itself(cs: Seq<char>)
    ensures
        forall|k: int|
            0 <= k < statements(cs).len() ==> statements(#[trigger] statements(cs)[k]) == seq![
                statements(cs)[k],
            ],
{
    assert(reaches(cs, 0, ScanState::Normal, 0, ScanState::Normal));
    lemma_statements_split_from(cs, 0, 0, ScanState::Normal);
}

/// When a prefix `p` holds no separator and leaves the scanner in the
/// normal state, the statements of `p + b` are those of `b` with `p` put in
/// front of the first piece.
proof fn lemma_opaque_prefix(p: Seq<char>, b: Seq<char>)
    requires
        separators(p + b, 0, ScanState::Normal) == shifted(
            separators(b, 0, ScanState::Normal),
            p.len() as int,
        ),
    ensures
        statements(p + b) == keep_statements(
            pieces(b, 0, separators(b, 0, ScanState::Normal)).update(
                0,
                p + pieces(b, 0, separators(b, 0, ScanState::Normal))[0],
            ),
        ),
{
    let c = p + b;
    let m = p.len() as int;
    let sb = separators(b, 0, ScanState::Normal);
    let pb = pieces(b, 0, sb);
    lemma_separators_increasing(b, 0, ScanState::Normal);
    if sb.len() == 0 {
        assert(shifted(sb, m) =~= Seq::<int>::empty());
        assert(c.subrange(0, c.len() as int) =~= p + b.subrange(0, b.len() as int));
        assert(pieces(c, 0, shifted(sb, m)) =~= pb.update(0, p + pb[0]));
    } else {
        let s0 = sb[0];
        let tail = sb.drop_first();
        let sh = shifted(sb, m);
        assert(sh[0] == m + s0);
        assert(sh.drop_first() =~= shifted(tail, m));
        assert forall|k: int| 0 <= k < tail.len() implies s0 + 1 <= #[trigger] tail[k] < b.len() by {
            assert(tail[k] == sb[k + 1]);
        }
        assert forall|k: int, l: int| 0 <= k < l < tail.len() implies #[trigger] tail[k]
            < #[trigger] tail[l] by {
            assert(tail[k] == sb[k + 1]);
            assert(tail[l] == sb[l + 1]);
        }
        lemma_pieces_suffix(p, b, s0 + 1, tail);
        assert(c.subrange(0, m + s0) =~= p + b.subrange(0, s0));
        assert(pieces(c, 0, sh) =~= pb.update(0, p + pb[0]));
    }
}

/// Inside a line comment the scanner walks to the newline and comes out in
/// the normal state just past it.
proof fn lemma_line_comment_walk(c: Seq<char>, b: Seq<char>, j: int)
    requires
        !c.contains('\n'),
        2 <= j <= c.len() + 2,
    ensures
        separators(seq!['-', '-'] + c + seq!['\n'] + b, j, ScanState::LineComment) == separators(
            seq!['-', '-'] + c + seq!['\n'] + b,
            c.len() + 3int,
            ScanState::Normal,
        ),
    decreases c.len() + 2 - j,
{
    let x = seq!['-', '-'] + c + seq!['\n'] + b;
    if j < c.len() + 2 {
        assert(x[j] == c[j - 2]);
        assert(x[j] != '\n');
        lemma_line_comment_walk(c, b, j + 1);
    } else {
        assert(x[j] == '\n');
    }
}

/// Inside a block comment the scanner walks to the closing `*/` and comes
/// out in the normal state just past it.
proof fn lemma_block_comment_walk(c: Seq<char>, b: Seq<char>, j: int)
    requires
        forall|k: int| 0 <= k < c.len() - 1 ==> !(#[trigger] c[k] == '*' && c[k + 1] == '/'),
        2 <= j <= c.len() + 2,
    ensures
        separators(seq!['/', '*'] + c + seq!['*', '/'] + b, j, ScanState::BlockComment)
            == separators(seq!['/', '*'] + c + seq!['*', '/'] + b, c.len() + 4int, ScanState::Normal),
    decreases c.len() + 2 - j,
{
    let x = seq!['/', '*'] + c + seq!['*', '/'] + b;
    if j < c.len() + 2 {
        assert(x[j] == c[j - 2]);
        if j < c.len() + 1 {
            assert(x[j + 1] == c[j - 1]);
        } else {
            assert(x[j + 1] == '*');
        }
        lemma_block_comment_walk(c, b, j + 1);
    } else {
        assert(x[j] == '*');
        assert(x[j + 1] == '/');
    }
}

/// Inside a quoted string or identifier without its quote character the
/// scanner walks to the closing quote and comes out in the normal state
/// just past it.
proof fn lemma_quoted_walk(q: char, st: ScanState, c: Seq<char>, b: Seq<char>, j: int)
    requires
        (q == '\'' && st == ScanState::SingleQuoted) || (q == '"' && st
            == ScanState::DoubleQuoted),
        !c.contains(q),
        b.len() == 0 || b[0] != q,
        1 <= j <= c.len() + 1,
    ensures
        separators(seq![q] + c + seq![q] + b, j, st) == separators(
            seq![q] + c + seq![q] + b,
            c.len() + 2int,
            ScanState::Normal,
        ),
    decreases c.len() + 1 - j,
{
    let x = seq![q] + c + seq![q] + b;
    if j < c.len() + 1 {
        assert(x[j] == c[j - 1]);
        assert(x[j] != q);
        lemma_quoted_walk(q, st, c, b, j + 1);
    } else {
        assert(x[j] == q);
        if b.len() > 0 {
            assert(x[j + 1] == b[0]);
        }
    }
}

/// A `--` line comment runs to the end of its line: whatever its text `c`
/// holds (quotes, `;`, comment openers), the separators of
/// `"--" + c + "\n" + b` are those of `b`, and its statements are those of
/// `b` with the comment line in front of the first one.
pub proof fn lemma_line_comment_is_opaque(c: Seq<char>, b: Seq<char>)
    requires
        !c.contains('\n'),
    ensures
        separators(seq!['-', '-'] + c + seq!['\n'] + b, 0, ScanState::Normal) == shifted(
            separators(b, 0, ScanState::Normal),
            c.len() + 3int,
        ),
        statements(seq!['-', '-'] + c + seq!['\n'] + b) == keep_statements(
            pieces(b, 0, separators(b, 0, ScanState::Normal)).update(
                0,
                seq!['-', '-'] + c + seq!['\n'] + pieces(b, 0, separators(b, 0, ScanState::Normal))[0],
            ),
        ),
{
    let p = seq!['-', '-'] + c + seq!['\n'];
    let x = p + b;
    assert(x =~= seq!['-', '-'] + c + seq!['\n'] + b);
    assert(x[0] == '-' && x[1] == '-');
    lemma_line_comment_walk(c, b, 2);
    lemma_separators_suffix(p, b, 0, ScanState::Normal);
    lemma_opaque_prefix(p, b);
}

/// A `/* */` block comment runs to its first `*/`, across lines: for a
/// comment text `c` without `*/`, whatever newlines, quotes or `;` it
/// holds, the separators of `"/*" + c + "*/" + b` are those of `b`, and its
/// statements are those of `b` with the comment in front of the first one.
pub proof fn lemma_block_comment_is_opaque(c: Seq<char>, b: Seq<char>)
    requires
        forall|k: int| 0 <= k < c.len() - 1 ==> !(#[trigger] c[k] == '*' && c[k + 1] == '/'),
    ensures
        separators(seq!['/', '*'] + c + seq!['*', '/'] + b, 0, ScanState::Normal) == shifted(
            separators(b, 0, ScanState::Normal),
            c.len() + 4int,
        ),
        statements(seq!['/', '*'] + c + seq!['*', '/'] + b) == keep_statements(
            pieces(b, 0, separators(b, 0, ScanState::Normal)).update(
                0,
                seq!['/', '*'] + c + seq!['*', '/'] + pieces(
                    b,
                    0,
                    separators(b, 0, ScanState::Normal),
                )[0],
            ),
        ),
{
    let p = seq!['/', '*'] + c + seq!['*', '/'];
    let x = p + b;
    assert(x =~= seq!['/', '*'] + c + seq!['*', '/'] + b);
    assert(x[0] == '/' && x[1] == '*');
    lemma_block_comment_walk(c, b, 2);
    lemma_separators_suffix(p, b, 0, ScanState::Normal);
    lemma_opaque_prefix(p, b);
}

/// A quoted string (`'...'`) or quoted identifier (`"..."`) runs to its
/// closing quote: for a text `c` without that quote, and `b` not starting
/// with it (which would make a doubled, escaped quote), the separators of
/// `q + c + q + b` are those of `b`, and its statements are those of `b`
/// with the quoted text in front of the first one.
pub proof fn lemma_quoted_text_is_opaque(q: char, c: Seq<char>, b: Seq<char>)
    requires
        q == '\'' || q == '"',
        !c.contains(q),
        b.len() == 0 || b[0] != q,
    ensures
        separators(seq![q] + c + seq![q] + b, 0, ScanState::Normal) == shifted(
            separators(b, 0, ScanState::Normal),
            c.len() + 2int,
        ),
        statements(seq![q] + c + seq![q] + b) == keep_statements(
            pieces(b, 0, separators(b, 0, ScanState::Normal)).update(
                0,
                seq![q] + c + seq![q] + pieces(b, 0, separators(b, 0, ScanState::Normal))[0],
            ),
        ),
{
    let p = seq![q] + c + seq![q];
    let x = p + b;
    assert(x =~= seq![q] + c + seq![q] + b);
    assert(x[0] == q);
    if q == '\'' {
        lemma_quoted_walk(q, ScanState::SingleQuoted, c, b, 1);
    } else {
        lemma_quoted_walk(q, ScanState::DoubleQuoted, c, b, 1);
    }
    lemma_separators_suffix(p, b, 0, ScanState::Normal);
    lemma_opaque_prefix(p, b);
}

fn step_exec(cs: &Vec<char>, i: usize, st: ScanState) -> (r: (usize, ScanState, bool))
    requires
        i < cs.len(),
    ensures
        r.0 as int == scan_step(cs@, i as int, st).0,
        r.1 == scan_step(cs@, i as int, st).1,
        r.2 == scan_step(cs@, i as int, st).2,
{
    let c = cs[i];
    let next_dash = i + 1 < cs.len() && cs[i + 1] == '-';
    let next_star = i + 1 < cs.len() && cs[i + 1] == '*';
    let next_slash = i + 1 < cs.len() && cs[i + 1] == '/';
    let next_single = i + 1 < cs.len() && cs[i + 1] == '\'';
    let next_double = i + 1 < cs.len() && cs[i + 1] == '"';
    match st {
        ScanState::Normal => if c == '\'' {
            (1, ScanState::SingleQuoted, false)
        } else if c == '"' {
            (1, ScanState::DoubleQuoted, false)
        } else if c == '-' && next_dash {
            (2, ScanState::LineComment, false)
        } else if c == '/' && next_star {
            (2, ScanState::BlockComment, false)
        } else {
            (1, ScanState::Normal, c == ';')
        },
        ScanState::SingleQuoted => if c == '\'' {
            if next_single {
                (2, ScanState::SingleQuoted, false)
            } else {
                (1, ScanState::Normal, false)
            }
        } else {
            (1, ScanState::SingleQuoted, false)
        },
        ScanState::DoubleQuoted => if c == '"' {
            if next_double {
                (2, ScanState::DoubleQuoted, false)
            } else {
                (1, ScanState::Normal, false)
            }
        } else {
            (1, ScanState::DoubleQuoted, false)
        },
        ScanState::LineComment => if c == '\n' {
            (1, ScanState::Normal, false)
        } else {
            (1, ScanState::LineComment, false)
        },
        ScanState::BlockComment => if c == '*' && next_slash {
            (2, ScanState::Normal, false)
        } else {
            (1, ScanState::BlockComment, false)
        },
    }
}

/// Appends `cs[lo..hi]`, trimmed, to `statements` unless it is empty.
fn push_if_non_empty(statements: &mut Vec<String>, cs: &Vec<char>, lo: usize, hi: usize)
    requires
        lo <= hi <= cs.len(),
    ensures
        strings_view(final(statements)@) == strings_view(old(statements)@) + (if trim(
            cs@.subrange(lo as int, hi as int),
        ).len() == 0 {
            Seq::<Seq<char>>::empty()
        } else {
            seq![trim(cs@.subrange(lo as int, hi as int))]
        }),
{
    let (a, b) = trim_bounds(cs, lo, hi);
    if a < b {
        let s = string_of(cs, a, b);
        statements.push(s);
        assert(strings_view(statements@) =~= strings_view(old(statements)@) + seq![
            trim(cs@.subrange(lo as int, hi as int)),
        ]);
    } else {
        assert(strings_view(statements@) =~= strings_view(old(statements)@) + Seq::<
            Seq<char>,
        >::empty());
    }
}

/// Split a block of SQL into individual statements on top-level `;`
/// characters. A semicolon inside a quoted string, a quoted identifier, a
/// `--` line comment, or a `/* */` block comment does not count as a
/// separator. Quote escaping via a doubled quote (`''` inside a string,
/// `""` inside an identifier) is understood.
///
/// Empty statements (blank lines, stray semicolons) are dropped, and a
/// trailing statement with no closing semicolon is still included. Every
/// statement returned is non-empty and trimmed.
pub fn split_statements(sql: &str) -> (r: Vec<String>)
    ensures
        strings_view(r@) == statements(sql@),
        forall|k: int| 0 <= k < r.len() ==> #[trigger] r[k]@.len() > 0 && is_trimmed(r[k]@),
{
    let cs = chars_of(sql);
    let mut out: Vec<String> = Vec::new();
    let mut st = ScanState::Normal;
    let mut start: usize = 0;
    let mut i: usize = 0;
    while i < cs.len()
        invariant
            cs@ == sql@,
            start <= i <= cs.len(),
            statements(cs@) == strings_view(out@) + keep_statements(
                pieces(cs@, start as int, separators(cs@, i as int, st)),
            ),
        decreases cs.len() - i,
    {
        let (w, next, sep) = step_exec(&cs, i, st);
        let ghost rest = separators(cs@, i + w, next);
        if sep {
            let ghost t = trim(cs@.subrange(start as int, i as int));
            let ghost before = strings_view(out@);
            push_if_non_empty(&mut out, &cs, start, i);
            assert(separators(cs@, i as int, st) =~= seq![i as int] + rest);
            assert((seq![i as int] + rest).drop_first() =~= rest);
            assert(pieces(cs@, start as int, seq![i as int] + rest) =~= seq![
                cs@.subrange(start as int, i as int),
            ] + pieces(cs@, i + 1, rest));
            let ghost ps = seq![cs@.subrange(start as int, i as int)] + pieces(cs@, i + 1, rest);
            assert(ps.drop_first() =~= pieces(cs@, i + 1, rest));
            proof {
                if t.len() == 0 {
                    assert(strings_view(out@) =~= before);
                } else {
                    assert(strings_view(out@) + keep_statements(pieces(cs@, i + 1, rest))
                        =~= before + (seq![t] + keep_statements(pieces(cs@, i + 1, rest))));
                }
            }
            start = i + 1;
        }
        st = next;
        i = i + w;
    }
    assert(separators(cs@, i as int, st) =~= Seq::<int>::empty());
    let ghost before = strings_view(out@);
    let ghost last = cs@.subrange(start as int, cs.len() as int);
    push_if_non_empty(&mut out, &cs, start, cs.len());
    let ghost ps = seq![last];
    assert(ps.drop_first() =~= Seq::<Seq<char>>::empty());
    assert(keep_statements(Seq::<Seq<char>>::empty()) =~= Seq::<Seq<char>>::empty());
    proof {
        if trim(last).len() == 0 {
            assert(strings_view(out@) =~= before + keep_statements(ps));
        } else {
            assert(keep_statements(ps) =~= seq![trim(last)]);
            assert(strings_view(out@) =~= before + keep_statements(ps));
        }
    }
    proof {
        lemma_keep_statements_shape(pieces(cs@, 0, separators(cs@, 0, ScanState::Normal)));
        assert forall|k: int| 0 <= k < out.len() implies #[trigger] out[k]@.len() > 0
            && is_trimmed(out[k]@) by {
            assert(strings_view(out@)[k] == out[k]@);
        }
    }
    out
}

} // verus!
