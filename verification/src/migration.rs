//! A migration file split into its "up" and "down" sections.
use vstd::prelude::*;

use crate::checksum::{checksum, checksum_of, is_lower_hex};
use crate::statement::{split_statements, statements, strings_view};
use crate::text::{
    chars_of, is_trimmed, is_white_space, lemma_trim_bounds, lemma_trim_is_trimmed,
    lemma_trim_of_trimmed, string_of, trim, trim_bounds, trim_end, trim_start,
};

verus! {

/// A line that, on its own, separates the "up" SQL from the "down" SQL
/// within a single migration file. It is a valid SQL comment, so the file
/// still runs as-is if fed straight to a client without being split first.
pub const DOWN_MARKER: &'static str = "-- migrate:down";

/// `s` split at each `'\n'`: `k` newlines give `k + 1` pieces.
pub open spec fn split_newlines(s: Seq<char>) -> Seq<Seq<char>>
    decreases s.len(),
{
    if s.len() == 0 {
        seq![Seq::<char>::empty()]
    } else {
        let rest = split_newlines(s.drop_last());
        if s.last() == '\n' {
            rest.push(Seq::<char>::empty())
        } else {
            rest.update(rest.len() - 1, rest.last().push(s.last()))
        }
    }
}

/// `l` without one trailing carriage return.
pub open spec fn strip_cr(l: Seq<char>) -> Seq<char> {
    if l.len() > 0 && l.last() == '\r' {
        l.drop_last()
    } else {
        l
    }
}

/// The lines of `s` as `str::lines` yields them: split at `'\n'`, a `'\r'`
/// right before a `'\n'` dropped, and no empty last line after a final
/// line ending.
pub open spec fn lines(s: Seq<char>) -> Seq<Seq<char>> {
    let p = split_newlines(s);
    let n = if p.last().len() == 0 {
        p.len() - 1
    } else {
        p.len() as int
    };
    Seq::new(n as nat, |i: int| if i < p.len() - 1 { strip_cr(p[i]) } else { p[i] })
}

/// `ls` joined with `'\n'` between consecutive lines.
pub open spec fn join_lines(ls: Seq<Seq<char>>) -> Seq<char>
    decreases ls.len(),
{
    if ls.len() == 0 {
        Seq::<char>::empty()
    } else if ls.len() == 1 {
        ls[0]
    } else {
        join_lines(ls.drop_last()) + seq!['\n'] + ls.last()
    }
}

/// `l` is a marker line: it is the marker once surrounding whitespace is
/// trimmed.
pub open spec fn is_marker_line(l: Seq<char>) -> bool {
    trim(l) == DOWN_MARKER@
}

/// The index of the first marker line of `ls` from `i` on, or `ls.len()`.
pub open spec fn first_marker(ls: Seq<Seq<char>>, i: int) -> int
    decreases ls.len() - i,
{
    if i >= ls.len() {
        ls.len() as int
    } else if is_marker_line(ls[i]) {
        i
    } else {
        first_marker(ls, i + 1)
    }
}

/// The up and down sections of `input`: everything before the first marker
/// line and everything after it, each trimmed; with no marker line, the
/// whole input trimmed and no down section.
pub open spec fn parse_sections(input: Seq<char>) -> (Seq<char>, Option<Seq<char>>) {
    let ls = lines(input);
    let m = first_marker(ls, 0);
    if m < ls.len() {
        (trim(join_lines(ls.take(m))), Some(trim(join_lines(ls.skip(m + 1)))))
    } else {
        (trim(input), None)
    }
}

/// The characters of an optional `String`.
pub open spec fn opt_string_view(s: Option<String>) -> Option<Seq<char>> {
    match s {
        Some(d) => Some(d@),
        None => None,
    }
}

/// The two halves of a migration. `down` is `None` when the file never
/// contained a marker line, i.e. the migration is one-directional.
#[derive(Debug, Clone, PartialEq, Eq)]
pub struct Migration {
    pub up: String,
    pub down: Option<String>,
}

proof fn lemma_first_marker(ls: Seq<Seq<char>>, i: int)
    requires
        0 <= i <= ls.len(),
    ensures
        i <= first_marker(ls, i) <= ls.len(),
        first_marker(ls, i) < ls.len() ==> is_marker_line(ls[first_marker(ls, i)]),
        forall|k: int| i <= k < first_marker(ls, i) ==> !is_marker_line(#[trigger] ls[k]),
    decreases ls.len() - i,
{
    if i < ls.len() && !is_marker_line(ls[i]) {
        lemma_first_marker(ls, i + 1);
    }
}

proof fn lemma_split_newlines_nonempty(s: Seq<char>)
    ensures
        split_newlines(s).len() >= 1,
    decreases s.len(),
{
    if s.len() > 0 {
        lemma_split_newlines_nonempty(s.drop_last());
    }
}

proof fn lemma_split_newlines_join(a: Seq<char>, b: Seq<char>)
    ensures
        split_newlines(a + seq!['\n'] + b) == split_newlines(a) + split_newlines(b),
    decreases b.len(),
{
    let c = a + seq!['\n'] + b;
    lemma_split_newlines_nonempty(a);
    if b.len() == 0 {
        assert(c.drop_last() =~= a);
        assert(split_newlines(b) =~= seq![Seq::<char>::empty()]);
        assert(split_newlines(a).push(Seq::<char>::empty()) =~= split_newlines(a) + seq![
            Seq::<char>::empty(),
        ]);
    } else {
        let b0 = b.drop_last();
        assert(c.drop_last() =~= a + seq!['\n'] + b0);
        assert(c.last() == b.last());
        lemma_split_newlines_join(a, b0);
        lemma_split_newlines_nonempty(b0);
        let l = split_newlines(a) + split_newlines(b0);
        if b.last() == '\n' {
            assert(l.push(Seq::<char>::empty()) =~= split_newlines(a) + split_newlines(b0).push(
                Seq::<char>::empty(),
            ));
        } else {
            let r = split_newlines(b0);
            assert(l.update(l.len() - 1, l.last().push(b.last())) =~= split_newlines(a) + r.update(
                r.len() - 1,
                r.last().push(b.last()),
            ));
        }
    }
}

proof fn lemma_split_newlines_single(m: Seq<char>)
    requires
        !m.contains('\n'),
    ensures
        split_newlines(m) == seq![m],
    decreases m.len(),
{
    if m.len() > 0 {
        assert(!m.drop_last().contains('\n')) by {
            if m.drop_last().contains('\n') {
                let k = choose|k: int| 0 <= k < m.drop_last().len() && m.drop_last()[k] == '\n';
                assert(m[k] == '\n');
            }
        }
        lemma_split_newlines_single(m.drop_last());
        assert(m.last() != '\n');
        assert(m.drop_last().push(m.last()) =~= m);
        assert(seq![m.drop_last()].update(0, m.drop_last().push(m.last())) =~= seq![m]);
    } else {
        assert(m =~= Seq::<char>::empty());
    }
}

proof fn lemma_join_update_last(ls: Seq<Seq<char>>, t: Seq<char>)
    requires
        ls.len() > 0,
    ensures
        join_lines(ls.update(ls.len() - 1, t)) == if ls.len() == 1 {
            t
        } else {
            join_lines(ls.drop_last()) + seq!['\n'] + t
        },
{
    let u = ls.update(ls.len() - 1, t);
    if ls.len() > 1 {
        assert(u.drop_last() =~= ls.drop_last());
    }
}

proof fn lemma_join_split_newlines(x: Seq<char>)
    ensures
        join_lines(split_newlines(x)) == x,
    decreases x.len(),
{
    if x.len() > 0 {
        let x0 = x.drop_last();
        lemma_join_split_newlines(x0);
        lemma_split_newlines_nonempty(x0);
        let p = split_newlines(x0);
        if x.last() == '\n' {
            assert(p.push(Seq::<char>::empty()).drop_last() =~= p);
            assert(join_lines(p.push(Seq::<char>::empty())) =~= x0 + seq!['\n'] + Seq::<
                char,
            >::empty());
            assert(x =~= x0 + seq!['\n']);
        } else {
            lemma_join_update_last(p, p.last().push(x.last()));
            if p.len() == 1 {
                assert(join_lines(p) == p[0]);
                assert(x =~= p.last().push(x.last()));
            } else {
                assert(join_lines(p) == join_lines(p.drop_last()) + seq!['\n'] + p.last());
                assert(x =~= x0.push(x.last()));
                assert(x =~= join_lines(p.drop_last()) + seq!['\n'] + p.last().push(x.last()));
            }
        }
    } else {
        assert(split_newlines(x) =~= seq![Seq::<char>::empty()]);
    }
}

proof fn lemma_trim_start_push_space(x: Seq<char>, w: char)
    requires
        is_white_space(w),
    ensures
        trim_start(x.push(w)) == if trim_start(x).len() == 0 {
            Seq::<char>::empty()
        } else {
            trim_start(x).push(w)
        },
    decreases x.len(),
{
    if x.len() == 0 {
        assert(x.push(w)[0] == w);
        assert(x.push(w).drop_first() =~= Seq::<char>::empty());
        assert(trim_start(x.push(w)) == trim_start(Seq::<char>::empty()));
    } else {
        assert(x.push(w)[0] == x[0]);
        assert(x.push(w).drop_first() =~= x.drop_first().push(w));
        if is_white_space(x[0]) {
            lemma_trim_start_push_space(x.drop_first(), w);
        }
    }
}

/// A trailing whitespace character does not change the trimmed text.
proof fn lemma_trim_push_space(x: Seq<char>, w: char)
    requires
        is_white_space(w),
    ensures
        trim(x.push(w)) == trim(x),
{
    lemma_trim_start_push_space(x, w);
    if trim_start(x).len() > 0 {
        assert(trim_start(x).push(w).drop_last() =~= trim_start(x));
    }
}

/// Writing a migration in its file format and parsing it gives back its
/// sections: for `up` and `down` without carriage returns, when no line of
/// `up` is a marker line, the text `up`, newline, `DOWN_MARKER`, newline,
/// `down` parses to the trimmed `up` and the trimmed `down`.
pub proof fn lemma_parse_written_migration(up: Seq<char>, down: Seq<char>)
    requires
        !up.contains('\r'),
        !down.contains('\r'),
        forall|k: int| 0 <= k < lines(up).len() ==> trim(#[trigger] lines(up)[k]) != DOWN_MARKER@,
    ensures
        parse_sections(up + seq!['\n'] + DOWN_MARKER@ + seq!['\n'] + down) == (
            trim(up),
            Some(trim(down)),
        ),
{
    reveal_strlit("-- migrate:down");
    let m = DOWN_MARKER@;
    let input = up + seq!['\n'] + m + seq!['\n'] + down;
    assert(!m.contains('\n') && !m.contains('\r'));
    lemma_split_newlines_single(m);
    lemma_split_newlines_join(m, down);
    assert(input =~= up + seq!['\n'] + (m + seq!['\n'] + down));
    lemma_split_newlines_join(up, m + seq!['\n'] + down);
    let u = split_newlines(up);
    let d = split_newlines(down);
    lemma_split_newlines_nonempty(up);
    lemma_split_newlines_nonempty(down);
    let p = split_newlines(input);
    assert(p =~= u + seq![m] + d);
    // no piece carries a carriage return, so `lines` only drops a final
    // empty piece
    assert forall|s: Seq<char>, k: int|
        !s.contains('\r') && 0 <= k < split_newlines(s).len() implies strip_cr(
        #[trigger] split_newlines(s)[k],
    ) == split_newlines(s)[k] by {
        lemma_pieces_have_no_cr(s);
    }
    let ls = lines(input);
    let dd = if d.last().len() == 0 {
        d.drop_last()
    } else {
        d
    };
    assert(!input.contains('\r')) by {
        if input.contains('\r') {
            let k = choose|k: int| 0 <= k < input.len() && input[k] == '\r';
            if k < up.len() {
                assert(up[k] == '\r');
            } else if k == up.len() {
            } else if k < up.len() + 1 + m.len() {
                assert(m[k - up.len() - 1] == '\r');
            } else if k == up.len() + 1 + m.len() {
            } else {
                assert(down[k - up.len() - 2 - m.len()] == '\r');
            }
        }
    }
    assert(ls =~= u + seq![m] + dd);
    // the first marker line is the written one
    let lu = lines(up);
    lemma_pieces_have_no_cr(up);
    assert forall|k: int| 0 <= k < u.len() implies !is_marker_line(#[trigger] u[k]) by {
        if k < lu.len() {
            assert(lu[k] == strip_cr(u[k]));
            assert(strip_cr(u[k]) == u[k]);
        } else {
            assert(u[k].len() == 0);
            assert(trim(u[k]) =~= Seq::<char>::empty());
        }
    }
    assert(trim(m) == m) by {
        lemma_trim_of_marker();
    }
    lemma_first_marker(ls, 0);
    assert(is_marker_line(ls[u.len() as int]));
    if first_marker(ls, 0) < u.len() {
        assert(ls[first_marker(ls, 0)] == u[first_marker(ls, 0)]);
    }
    assert(first_marker(ls, 0) == u.len());
    assert(ls.take(u.len() as int) =~= u);
    assert(ls.skip(u.len() as int + 1) =~= dd);
    lemma_join_split_newlines(up);
    lemma_join_split_newlines(down);
    if d.last().len() == 0 {
        if d.len() == 1 {
            assert(down =~= Seq::<char>::empty());
            assert(dd =~= Seq::<Seq<char>>::empty());
        } else {
            assert(d.drop_last() =~= dd);
            assert(down =~= join_lines(dd) + seq!['\n']);
            assert(is_white_space('\n'));
            assert(join_lines(dd) + seq!['\n'] =~= join_lines(dd).push('\n'));
            lemma_trim_push_space(join_lines(dd), '\n');
        }
    }
}

proof fn lemma_trim_of_marker()
    ensures
        trim(DOWN_MARKER@) == DOWN_MARKER@,
{
    reveal_strlit("-- migrate:down");
    let m = DOWN_MARKER@;
    assert(!is_white_space(m[0]));
    assert(!is_white_space(m.last()));
    assert(trim_start(m) == m);
    assert(trim_end(m) == m);
}

proof fn lemma_pieces_have_no_cr(s: Seq<char>)
    requires
        !s.contains('\r'),
    ensures
        forall|k: int|
            0 <= k < split_newlines(s).len() ==> !(#[trigger] split_newlines(s)[k]).contains('\r'),
        forall|k: int|
            0 <= k < split_newlines(s).len() ==> strip_cr(#[trigger] split_newlines(s)[k])
                == split_newlines(s)[k],
    decreases s.len(),
{
    if s.len() > 0 {
        let s0 = s.drop_last();
        assert(!s0.contains('\r')) by {
            if s0.contains('\r') {
                let k = choose|k: int| 0 <= k < s0.len() && s0[k] == '\r';
                assert(s[k] == '\r');
            }
        }
        lemma_pieces_have_no_cr(s0);
        lemma_split_newlines_nonempty(s0);
        let p = split_newlines(s0);
        assert(s.last() != '\r') by {
            assert(s[s.len() - 1] == s.last());
        }
        if s.last() != '\n' {
            let t = p.last().push(s.last());
            assert(!t.contains('\r')) by {
                if t.contains('\r') {
                    let k = choose|k: int| 0 <= k < t.len() && t[k] == '\r';
                    if k < p.last().len() {
                        assert(p[p.len() - 1][k] == '\r');
                    }
                }
            }
        }
        assert forall|k: int| 0 <= k < split_newlines(s).len() implies !(
        #[trigger] split_newlines(s)[k]).contains('\r') by {
            if k < p.len() - 1 || (k < p.len() && s.last() == '\n') {
                assert(split_newlines(s)[k] == p[k]);
            }
        }
        assert forall|k: int| 0 <= k < split_newlines(s).len() implies strip_cr(
            #[trigger] split_newlines(s)[k],
        ) == split_newlines(s)[k] by {
            let q = split_newlines(s)[k];
            if q.len() > 0 && q.last() == '\r' {
                assert(q[q.len() - 1] == '\r');
            }
        }
    } else {
        assert(split_newlines(s) =~= seq![Seq::<char>::empty()]);
    }
}

/// Every character of `s` is whitespace.
pub open spec fn all_white(s: Seq<char>) -> bool {
    forall|k: int| 0 <= k < s.len() ==> is_white_space(#[trigger] s[k])
}

/// Some piece of `x` between newlines trims to the marker.
pub open spec fn has_marker_piece(x: Seq<char>) -> bool {
    exists|j: int| 0 <= j < split_newlines(x).len() && is_marker_line(#[trigger] split_newlines(x)[j])
}

proof fn lemma_split_newlines_concat(a: Seq<char>, b: Seq<char>)
    ensures
        split_newlines(a + b) == split_newlines(a).drop_last() + seq![
            split_newlines(a).last() + split_newlines(b)[0],
        ] + split_newlines(b).drop_first(),
    decreases b.len(),
{
    let sa = split_newlines(a);
    lemma_split_newlines_nonempty(a);
    if b.len() == 0 {
        assert(a + b =~= a);
        assert(split_newlines(b) =~= seq![Seq::<char>::empty()]);
        assert(sa.last() + Seq::<char>::empty() =~= sa.last());
        assert(sa.drop_last() + seq![sa.last()] =~= sa);
        assert(seq![Seq::<char>::empty()].drop_first() =~= Seq::<Seq<char>>::empty());
        assert(sa.drop_last() + seq![sa.last() + split_newlines(b)[0]] + split_newlines(
            b,
        ).drop_first() =~= sa);
    } else {
        let b0 = b.drop_last();
        let c = b.last();
        assert((a + b).drop_last() =~= a + b0);
        assert((a + b).last() == c);
        lemma_split_newlines_concat(a, b0);
        lemma_split_newlines_nonempty(b0);
        let s0 = split_newlines(b0);
        let x = split_newlines(a + b0);
        if c == '\n' {
            assert(split_newlines(b) == s0.push(Seq::<char>::empty()));
            assert(split_newlines(b)[0] == s0[0]);
            assert(split_newlines(b).drop_first() =~= s0.drop_first().push(Seq::<char>::empty()));
            assert(x.push(Seq::<char>::empty()) =~= sa.drop_last() + seq![sa.last() + s0[0]] + s0.drop_first().push(
                Seq::<char>::empty(),
            ));
        } else {
            let sb = s0.update(s0.len() - 1, s0.last().push(c));
            assert(split_newlines(b) == sb);
            if s0.len() == 1 {
                assert(sb[0] == s0[0].push(c));
                assert(sb.drop_first() =~= Seq::<Seq<char>>::empty());
                assert(s0.drop_first() =~= Seq::<Seq<char>>::empty());
                assert(x.update(x.len() - 1, x.last().push(c)) =~= sa.drop_last() + seq![
                    sa.last() + sb[0],
                ] + sb.drop_first());
            } else {
                assert(sb[0] == s0[0]);
                assert(sb.drop_first() =~= s0.drop_first().update(
                    s0.len() - 2,
                    s0.last().push(c),
                ));
                assert(x.update(x.len() - 1, x.last().push(c)) =~= sa.drop_last() + seq![
                    sa.last() + sb[0],
                ] + sb.drop_first());
            }
        }
    }
}

proof fn lemma_split_newlines_white(w: Seq<char>)
    requires
        all_white(w),
    ensures
        forall|k: int| 0 <= k < split_newlines(w).len() ==> all_white(#[trigger] split_newlines(w)[k]),
    decreases w.len(),
{
    if w.len() > 0 {
        let w0 = w.drop_last();
        assert(all_white(w0)) by {
            assert forall|k: int| 0 <= k < w0.len() implies is_white_space(#[trigger] w0[k]) by {
                assert(w0[k] == w[k]);
            }
        }
        lemma_split_newlines_white(w0);
        lemma_split_newlines_nonempty(w0);
        let p = split_newlines(w0);
        assert(is_white_space(w[w.len() - 1]));
        if w.last() != '\n' {
            let t = p.last().push(w.last());
            assert(all_white(p[p.len() - 1]));
            assert(all_white(t)) by {
                assert forall|k: int| 0 <= k < t.len() implies is_white_space(#[trigger] t[k]) by {
                    if k < t.len() - 1 {
                        assert(t[k] == p[p.len() - 1][k]);
                    }
                }
            }
            assert forall|k: int| 0 <= k < split_newlines(w).len() implies all_white(
                #[trigger] split_newlines(w)[k],
            ) by {
                if k < p.len() - 1 {
                    assert(split_newlines(w)[k] == p[k]);
                }
            }
        } else {
            assert forall|k: int| 0 <= k < split_newlines(w).len() implies all_white(
                #[trigger] split_newlines(w)[k],
            ) by {
                if k < p.len() {
                    assert(split_newlines(w)[k] == p[k]);
                }
            }
        }
    }
}

proof fn lemma_trim_start_white_prefix(w: Seq<char>, s: Seq<char>)
    requires
        all_white(w),
    ensures
        trim_start(w + s) == trim_start(s),
    decreases w.len(),
{
    if w.len() > 0 {
        assert((w + s)[0] == w[0]);
        assert((w + s).drop_first() =~= w.drop_first() + s);
        assert(all_white(w.drop_first())) by {
            assert forall|k: int| 0 <= k < w.drop_first().len() implies is_white_space(
                #[trigger] w.drop_first()[k],
            ) by {
                assert(w.drop_first()[k] == w[k + 1]);
            }
        }
        lemma_trim_start_white_prefix(w.drop_first(), s);
    } else {
        assert(w + s =~= s);
    }
}

proof fn lemma_trim_white_suffix(s: Seq<char>, w: Seq<char>)
    requires
        all_white(w),
    ensures
        trim(s + w) == trim(s),
    decreases w.len(),
{
    if w.len() > 0 {
        let w0 = w.drop_last();
        assert(all_white(w0)) by {
            assert forall|k: int| 0 <= k < w0.len() implies is_white_space(#[trigger] w0[k]) by {
                assert(w0[k] == w[k]);
            }
        }
        lemma_trim_white_suffix(s, w0);
        assert(s + w =~= (s + w0).push(w.last()));
        assert(is_white_space(w[w.len() - 1]));
        lemma_trim_push_space(s + w0, w.last());
    } else {
        assert(s + w =~= s);
    }
}

/// Whitespace around `s` does not change its trimmed text.
proof fn lemma_trim_white_around(w1: Seq<char>, s: Seq<char>, w2: Seq<char>)
    requires
        all_white(w1),
        all_white(w2),
    ensures
        trim(w1 + s + w2) == trim(s),
{
    lemma_trim_white_suffix(w1 + s, w2);
    lemma_trim_start_white_prefix(w1, s);
}

/// The pieces of text padded with whitespace trim as pieces of the padded
/// text do.
proof fn lemma_marker_piece_of_padded(p: Seq<char>, m: Seq<char>, q: Seq<char>)
    requires
        all_white(p),
        all_white(q),
        has_marker_piece(m),
    ensures
        has_marker_piece(p + m + q),
{
    let sp = split_newlines(p);
    let sm = split_newlines(m);
    let sq = split_newlines(q);
    lemma_split_newlines_nonempty(p);
    lemma_split_newlines_nonempty(m);
    lemma_split_newlines_nonempty(q);
    lemma_split_newlines_white(p);
    lemma_split_newlines_white(q);
    lemma_split_newlines_concat(p, m);
    let pm = split_newlines(p + m);
    lemma_split_newlines_concat(p + m, q);
    let x = split_newlines(p + m + q);
    let k = choose|k: int| 0 <= k < sm.len() && is_marker_line(#[trigger] sm[k]);
    let w1 = sp.last();
    let w2 = sq[0];
    assert(all_white(sp[sp.len() - 1]));
    assert(all_white(sq[0]));
    let e = Seq::<char>::empty();
    assert(all_white(e));
    assert(pm.len() == sp.len() + sm.len() - 1);
    if sm.len() == 1 {
        assert(pm[sp.len() - 1] == w1 + sm[0]);
        assert(x[sp.len() - 1] == w1 + sm[0] + w2);
        lemma_trim_white_around(w1, sm[0], w2);
        assert(is_marker_line(x[sp.len() - 1]));
    } else if k == 0 {
        assert(pm[sp.len() - 1] == w1 + sm[0]);
        assert(x[sp.len() - 1] == pm[sp.len() - 1]);
        assert(w1 + sm[0] =~= w1 + sm[0] + e);
        lemma_trim_white_around(w1, sm[0], e);
        assert(is_marker_line(x[sp.len() - 1]));
    } else if k == sm.len() - 1 {
        assert(pm[sp.len() - 1 + k] == sm[k]);
        assert(x[sp.len() - 1 + k] == sm[k] + w2);
        assert(sm[k] + w2 =~= e + sm[k] + w2);
        lemma_trim_white_around(e, sm[k], w2);
        assert(is_marker_line(x[sp.len() - 1 + k]));
    } else {
        assert(pm[sp.len() - 1 + k] == sm[k]);
        assert(x[sp.len() - 1 + k] == sm[k]);
    }
}

proof fn lemma_split_join(ls: Seq<Seq<char>>)
    requires
        ls.len() > 0,
        forall|k: int| 0 <= k < ls.len() ==> !(#[trigger] ls[k]).contains('\n'),
    ensures
        split_newlines(join_lines(ls)) == ls,
    decreases ls.len(),
{
    if ls.len() == 1 {
        lemma_split_newlines_single(ls[0]);
        assert(seq![ls[0]] =~= ls);
    } else {
        let d = ls.drop_last();
        lemma_split_join(d);
        lemma_split_newlines_single(ls.last());
        lemma_split_newlines_join(join_lines(d), ls.last());
        assert(d + seq![ls.last()] =~= ls);
    }
}

proof fn lemma_pieces_have_no_newline(s: Seq<char>)
    ensures
        forall|k: int|
            0 <= k < split_newlines(s).len() ==> !(#[trigger] split_newlines(s)[k]).contains('\n'),
    decreases s.len(),
{
    if s.len() > 0 {
        let s0 = s.drop_last();
        lemma_pieces_have_no_newline(s0);
        lemma_split_newlines_nonempty(s0);
        let p = split_newlines(s0);
        if s.last() != '\n' {
            let t = p.last().push(s.last());
            assert(!t.contains('\n')) by {
                if t.contains('\n') {
                    let k = choose|k: int| 0 <= k < t.len() && t[k] == '\n';
                    if k < p.last().len() {
                        assert(p[p.len() - 1][k] == '\n');
                    }
                }
            }
            assert forall|k: int| 0 <= k < split_newlines(s).len() implies !(
            #[trigger] split_newlines(s)[k]).contains('\n') by {
                if k < p.len() - 1 {
                    assert(split_newlines(s)[k] == p[k]);
                }
            }
        } else {
            assert forall|k: int| 0 <= k < split_newlines(s).len() implies !(
            #[trigger] split_newlines(s)[k]).contains('\n') by {
                if k < p.len() {
                    assert(split_newlines(s)[k] == p[k]);
                } else {
                    assert(split_newlines(s)[k] =~= Seq::<char>::empty());
                }
            }
        }
    } else {
        assert(split_newlines(s) =~= seq![Seq::<char>::empty()]);
    }
}

proof fn lemma_trim_strip_cr(l: Seq<char>)
    ensures
        trim(strip_cr(l)) == trim(l),
        !l.contains('\n') ==> !strip_cr(l).contains('\n'),
{
    if l.len() > 0 && l.last() == '\r' {
        assert(l.drop_last().push('\r') =~= l);
        assert(is_white_space('\r'));
        lemma_trim_push_space(l.drop_last(), '\r');
        if l.drop_last().contains('\n') {
            let k = choose|k: int| 0 <= k < l.drop_last().len() && l.drop_last()[k] == '\n';
            assert(l[k] == '\n');
        }
    }
}

/// A text has a marker line exactly when one of its newline-separated
/// pieces trims to the marker.
proof fn lemma_marker_line_iff_piece(t: Seq<char>)
    ensures
        (exists|k: int| 0 <= k < lines(t).len() && is_marker_line(#[trigger] lines(t)[k]))
            <==> has_marker_piece(t),
        forall|k: int| 0 <= k < lines(t).len() ==> !(#[trigger] lines(t)[k]).contains('\n'),
{
    reveal_strlit("-- migrate:down");
    let p = split_newlines(t);
    lemma_split_newlines_nonempty(t);
    lemma_pieces_have_no_newline(t);
    let ls = lines(t);
    assert forall|k: int| 0 <= k < ls.len() implies trim(#[trigger] ls[k]) == trim(p[k])
        && !ls[k].contains('\n') by {
        lemma_trim_strip_cr(p[k]);
    }
    if exists|k: int| 0 <= k < ls.len() && is_marker_line(#[trigger] ls[k]) {
        let k = choose|k: int| 0 <= k < ls.len() && is_marker_line(#[trigger] ls[k]);
        assert(is_marker_line(p[k]));
    }
    if has_marker_piece(t) {
        let j = choose|j: int| 0 <= j < p.len() && is_marker_line(#[trigger] p[j]);
        if j >= ls.len() {
            assert(p[j].len() == 0);
            assert(trim(p[j]) =~= Seq::<char>::empty());
            assert(DOWN_MARKER@.len() > 0);
        }
        assert(is_marker_line(ls[j]));
    }
}

/// Text that has no marker piece keeps none once trimmed, and parses back
/// to its trimmed self with no down section.
proof fn lemma_trimmed_without_marker(x: Seq<char>)
    requires
        !has_marker_piece(x),
    ensures
        parse_sections(trim(x)) == (trim(x), None::<Seq<char>>),
{
    let (a, b) = lemma_trim_bounds(x);
    let up = trim(x);
    let pre = x.subrange(0, a);
    let post = x.subrange(b, x.len() as int);
    assert(all_white(pre)) by {
        assert forall|k: int| 0 <= k < pre.len() implies is_white_space(#[trigger] pre[k]) by {
            assert(pre[k] == x[k]);
        }
    }
    assert(all_white(post)) by {
        assert forall|k: int| 0 <= k < post.len() implies is_white_space(#[trigger] post[k]) by {
            assert(post[k] == x[b + k]);
        }
    }
    assert(x =~= pre + up + post);
    if has_marker_piece(up) {
        lemma_marker_piece_of_padded(pre, up, post);
    }
    lemma_marker_line_iff_piece(up);
    let ls = lines(up);
    lemma_first_marker(ls, 0);
    if first_marker(ls, 0) < ls.len() {
        assert(is_marker_line(ls[first_marker(ls, 0)]));
    }
    lemma_trim_is_trimmed(x);
    lemma_trim_of_trimmed(up);
}

/// The split comes at the first line that is the marker once trimmed: when
/// line `k` of `input` trims to `DOWN_MARKER` and no earlier line does, the
/// up section is the lines before `k` and the down section the lines after
/// it, each joined and trimmed. Any other line, such as `-- migrate:up`,
/// is ordinary text.
pub proof fn lemma_split_at_first_marker_line(input: Seq<char>, k: int)
    requires
        0 <= k < lines(input).len(),
        trim(lines(input)[k]) == DOWN_MARKER@,
        forall|j: int| 0 <= j < k ==> trim(#[trigger] lines(input)[j]) != DOWN_MARKER@,
    ensures
        parse_sections(input) == (
            trim(join_lines(lines(input).take(k))),
            Some(trim(join_lines(lines(input).skip(k + 1)))),
        ),
{
    let ls = lines(input);
    lemma_first_marker(ls, 0);
    let m = first_marker(ls, 0);
    if m < k {
        assert(is_marker_line(ls[m]));
    }
    if m > k {
        assert(!is_marker_line(ls[k]));
    }
}

/// Without a line that trims to `DOWN_MARKER`, the whole input, trimmed,
/// is the up section and there is no down section.
pub proof fn lemma_no_marker_line_is_up_only(input: Seq<char>)
    requires
        forall|j: int| 0 <= j < lines(input).len() ==> trim(#[trigger] lines(input)[j]) != DOWN_MARKER@,
    ensures
        parse_sections(input) == (trim(input), None::<Seq<char>>),
{
    let ls = lines(input);
    lemma_first_marker(ls, 0);
    let m = first_marker(ls, 0);
    if m < ls.len() {
        assert(is_marker_line(ls[m]));
    }
}

/// Parsing the up section of a parsed migration again finds no marker line
/// and gives the section back unchanged, with no down section.
pub proof fn lemma_reparse_up_section(input: Seq<char>)
    ensures
        parse_sections(parse_sections(input).0) == (parse_sections(input).0, None::<Seq<char>>),
{
    let ls = lines(input);
    let m = first_marker(ls, 0);
    lemma_first_marker(ls, 0);
    lemma_marker_line_iff_piece(input);
    if m < ls.len() {
        let l = ls.take(m);
        let x = join_lines(l);
        if m == 0 {
            assert(l =~= Seq::<Seq<char>>::empty());
            assert(x =~= Seq::<char>::empty());
            assert(split_newlines(x) =~= seq![Seq::<char>::empty()]);
        } else {
            assert forall|k: int| 0 <= k < l.len() implies !(#[trigger] l[k]).contains('\n') by {
                assert(l[k] == ls[k]);
            }
            lemma_split_join(l);
        }
        reveal_strlit("-- migrate:down");
        assert(!has_marker_piece(x)) by {
            if has_marker_piece(x) {
                let j = choose|j: int|
                    0 <= j < split_newlines(x).len() && is_marker_line(
                        #[trigger] split_newlines(x)[j],
                    );
                if m == 0 {
                    assert(trim(Seq::<char>::empty()) =~= Seq::<char>::empty());
                } else {
                    assert(split_newlines(x)[j] == ls[j]);
                }
            }
        }
        lemma_trimmed_without_marker(x);
    } else {
        lemma_trimmed_without_marker(input);
    }
}

/// The lines of `cs` as index ranges into `cs`.
fn line_ranges(cs: &Vec<char>) -> (r: Vec<(usize, usize)>)
    ensures
        r.len() == lines(cs@).len(),
        forall|k: int|
            #![trigger r[k]]
            0 <= k < r.len() ==> r[k].0 <= r[k].1 <= cs.len() && cs@.subrange(
                r[k].0 as int,
                r[k].1 as int,
            ) == lines(cs@)[k],
{
    let mut out: Vec<(usize, usize)> = Vec::new();
    let mut start: usize = 0;
    let mut i: usize = 0;
    proof {
        assert(cs@.take(0) =~= Seq::<char>::empty());
    }
    while i < cs.len()
        invariant
            start <= i <= cs.len(),
            split_newlines(cs@.take(i as int)).len() == out.len() + 1,
            split_newlines(cs@.take(i as int)).last() == cs@.subrange(start as int, i as int),
            forall|k: int| 0 <= k < out.len() ==> (#[trigger] out[k]).0 <= out[k].1 <= cs.len(),
            forall|k: int|
                0 <= k < out.len() ==> cs@.subrange(out[k].0 as int, out[k].1 as int) == strip_cr(
                    #[trigger] split_newlines(cs@.take(i as int))[k],
                ),
        decreases cs.len() - i,
    {
        let ghost prev = split_newlines(cs@.take(i as int));
        let ghost old_out = out@;
        let ghost old_start = start;
        assert(cs@.take(i + 1).drop_last() =~= cs@.take(i as int));
        assert(cs@.take(i + 1).last() == cs@[i as int]);
        if cs[i] == '\n' {
            let end = if i > start && cs[i - 1] == '\r' {
                i - 1
            } else {
                i
            };
            assert(cs@.subrange(start as int, end as int) =~= strip_cr(
                cs@.subrange(start as int, i as int),
            ));
            out.push((start, end));
            start = i + 1;
            assert(split_newlines(cs@.take(i + 1)) =~= prev.push(Seq::<char>::empty()));
            assert(cs@.subrange(start as int, i + 1) =~= Seq::<char>::empty());
            assert forall|k: int| 0 <= k < out.len() implies out[k].0 <= out[k].1 <= cs.len()
                && cs@.subrange(out[k].0 as int, out[k].1 as int) == strip_cr(
                #[trigger] split_newlines(cs@.take(i + 1))[k],
            ) by {
                if k < old_out.len() {
                    assert(out[k] == old_out[k]);
                    assert(split_newlines(cs@.take(i + 1))[k] == prev[k]);
                } else {
                    assert(split_newlines(cs@.take(i + 1))[k] == prev.last());
                }
            }
        } else {
            assert(split_newlines(cs@.take(i + 1)) =~= prev.update(
                prev.len() - 1,
                prev.last().push(cs@[i as int]),
            ));
            assert(cs@.subrange(start as int, i + 1) =~= cs@.subrange(start as int, i as int).push(
                cs@[i as int],
            ));
            assert forall|k: int| 0 <= k < out.len() implies out[k].0 <= out[k].1 <= cs.len()
                && cs@.subrange(out[k].0 as int, out[k].1 as int) == strip_cr(
                #[trigger] split_newlines(cs@.take(i + 1))[k],
            ) by {
                assert(split_newlines(cs@.take(i + 1))[k] == prev[k]);
            }
        }
        i += 1;
    }
    assert(cs@.take(cs.len() as int) =~= cs@);
    let ghost p = split_newlines(cs@);
    let ghost old_out = out@;
    if start < cs.len() {
        out.push((start, cs.len()));
    }
    proof {
        assert(out.len() == lines(cs@).len());
        assert forall|k: int| 0 <= k < out.len() implies out[k].0 <= out[k].1 <= cs.len()
            && cs@.subrange(out[k].0 as int, out[k].1 as int) == #[trigger] lines(cs@)[k] by {
            if k < p.len() - 1 {
                assert(out[k] == old_out[k]);
                assert(lines(cs@)[k] == strip_cr(p[k]));
            } else {
                assert(lines(cs@)[k] == p[k]);
            }
        }
    }
    out
}

/// Whether `cs[lo..hi]` equals `m`.
fn range_equals(cs: &Vec<char>, lo: usize, hi: usize, m: &Vec<char>) -> (r: bool)
    requires
        lo <= hi <= cs.len(),
    ensures
        r == (cs@.subrange(lo as int, hi as int) == m@),
{
    if hi - lo != m.len() {
        return false;
    }
    let mut k: usize = 0;
    while k < m.len()
        invariant
            hi - lo == m.len(),
            lo <= hi <= cs.len(),
            k <= m.len(),
            forall|j: int| 0 <= j < k ==> cs@[lo + j] == m@[j],
        decreases m.len() - k,
    {
        if cs[lo + k] != m[k] {
            assert(cs@.subrange(lo as int, hi as int)[k as int] != m@[k as int]);
            return false;
        }
        k += 1;
    }
    assert(cs@.subrange(lo as int, hi as int) =~= m@);
    true
}

/// The text of lines `from..to` of `ls` joined with `'\n'`.
fn join_range(cs: &Vec<char>, ls: &Vec<(usize, usize)>, from: usize, to: usize) -> (r: Vec<char>)
    requires
        from <= to <= ls.len(),
        forall|k: int| 0 <= k < ls.len() ==> (#[trigger] ls[k]).0 <= ls[k].1 <= cs.len(),
    ensures
        r@ == join_lines(
            Seq::new(
                (to - from) as nat,
                |k: int| cs@.subrange(ls[from + k].0 as int, ls[from + k].1 as int),
            ),
        ),
{
    let ghost whole = Seq::new(
        (to - from) as nat,
        |k: int| cs@.subrange(ls[from + k].0 as int, ls[from + k].1 as int),
    );
    let mut out: Vec<char> = Vec::new();
    let mut j = from;
    while j < to
        invariant
            from <= j <= to <= ls.len(),
            forall|k: int| 0 <= k < ls.len() ==> (#[trigger] ls[k]).0 <= ls[k].1 <= cs.len(),
            whole == Seq::new(
                (to - from) as nat,
                |k: int| cs@.subrange(ls[from + k].0 as int, ls[from + k].1 as int),
            ),
            out@ == join_lines(whole.take(j - from)),
        decreases to - j,
    {
        let ghost before = out@;
        if j > from {
            out.push('\n');
        }
        let (lo, hi) = ls[j];
        let mut q = lo;
        while q < hi
            invariant
                lo <= q <= hi <= cs.len(),
                j > from ==> out@ == before + seq!['\n'] + cs@.subrange(lo as int, q as int),
                j == from ==> out@ == before + cs@.subrange(lo as int, q as int),
            decreases hi - q,
        {
            out.push(cs[q]);
            q += 1;
            assert(cs@.subrange(lo as int, q as int) =~= cs@.subrange(lo as int, q - 1).push(
                cs@[q - 1],
            ));
        }
        let ghost taken = whole.take(j + 1 - from);
        assert(taken.drop_last() =~= whole.take(j - from));
        assert(taken.last() == cs@.subrange(lo as int, hi as int));
        proof {
            if j == from {
                assert(before =~= Seq::<char>::empty());
                assert(out@ =~= join_lines(taken));
            } else {
                assert(out@ =~= join_lines(taken));
            }
        }
        j += 1;
    }
    assert(whole.take(to - from) =~= whole);
    out
}

impl Migration {
    /// Split `input` into up/down sections on the first line that is
    /// exactly `DOWN_MARKER` once surrounding whitespace is trimmed.
    /// Everything before that line is `up`; everything after is `down`,
    /// both trimmed. A second marker line later in the file is ordinary
    /// SQL text, not a second split point. Without a marker line, `up` is
    /// the whole input trimmed and `down` is `None`.
    pub fn parse(input: &str) -> (m: Migration)
        ensures
            (m.up@, opt_string_view(m.down)) == parse_sections(input@),
            is_trimmed(m.up@),
            m.down matches Some(d) ==> is_trimmed(d@),
            m.down is None <==> forall|k: int|
                0 <= k < lines(input@).len() ==> trim(#[trigger] lines(input@)[k]) != DOWN_MARKER@,
    {
        let cs = chars_of(input);
        let marker = chars_of(DOWN_MARKER);
        let ls = line_ranges(&cs);
        let ghost lv = lines(cs@);
        let mut idx: usize = 0;
        while idx < ls.len()
            invariant
                idx <= ls.len() == lv.len(),
                lv == lines(cs@),
                marker@ == DOWN_MARKER@,
                forall|k: int|
                    0 <= k < ls.len() ==> (#[trigger] ls[k]).0 <= ls[k].1 <= cs.len()
                        && cs@.subrange(ls[k].0 as int, ls[k].1 as int) == lv[k],
                forall|k: int| 0 <= k < idx ==> !is_marker_line(#[trigger] lv[k]),
            ensures
                idx <= ls.len(),
                idx < ls.len() ==> is_marker_line(lv[idx as int]),
                forall|k: int| 0 <= k < idx ==> !is_marker_line(#[trigger] lv[k]),
            decreases ls.len() - idx,
        {
            let (lo, hi) = ls[idx];
            let (a, b) = trim_bounds(&cs, lo, hi);
            if range_equals(&cs, a, b, &marker) {
                assert(cs@.subrange(lo as int, hi as int) == lv[idx as int]);
                break;
            }
            idx += 1;
        }
        proof {
            lemma_first_marker(lv, 0);
            if idx < ls.len() {
                assert(is_marker_line(lv[idx as int]));
                if first_marker(lv, 0) < idx {
                    assert(is_marker_line(lv[first_marker(lv, 0)]));
                }
                assert(first_marker(lv, 0) == idx);
            } else {
                assert(first_marker(lv, 0) == lv.len());
            }
        }
        if idx < ls.len() {
            let up_text = join_range(&cs, &ls, 0, idx);
            let down_text = join_range(&cs, &ls, idx + 1, ls.len());
            assert(Seq::new(
                (idx - 0) as nat,
                |k: int| cs@.subrange(ls[0 + k].0 as int, ls[0 + k].1 as int),
            ) =~= lv.take(idx as int));
            assert(Seq::new(
                (ls.len() - (idx + 1)) as nat,
                |k: int| cs@.subrange(ls[idx + 1 + k].0 as int, ls[idx + 1 + k].1 as int),
            ) =~= lv.skip(idx + 1));
            let (ua, ub) = trim_bounds(&up_text, 0, up_text.len());
            let (da, db) = trim_bounds(&down_text, 0, down_text.len());
            assert(up_text@.subrange(0, up_text.len() as int) =~= up_text@);
            assert(down_text@.subrange(0, down_text.len() as int) =~= down_text@);
            proof {
                lemma_trim_is_trimmed(up_text@);
                lemma_trim_is_trimmed(down_text@);
            }
            Migration {
                up: string_of(&up_text, ua, ub),
                down: Some(string_of(&down_text, da, db)),
            }
        } else {
            let (ua, ub) = trim_bounds(&cs, 0, cs.len());
            assert(cs@.subrange(0, cs.len() as int) =~= cs@);
            proof {
                lemma_trim_is_trimmed(cs@);
            }
            Migration { up: string_of(&cs, ua, ub), down: None }
        }
    }

    /// The `up` section broken into individual statements, as
    /// `split_statements` breaks it.
    pub fn up_statements(&self) -> (r: Vec<String>)
        ensures
            strings_view(r@) == statements(self.up@),
    {
        split_statements(self.up.as_str())
    }

    /// The `down` section broken into individual statements, or an empty
    /// list if the migration has no down section.
    pub fn down_statements(&self) -> (r: Vec<String>)
        ensures
            strings_view(r@) == match self.down {
                Some(d) => statements(d@),
                None => Seq::<Seq<char>>::empty(),
            },
    {
        match &self.down {
            Some(down) => split_statements(down.as_str()),
            None => {
                let r: Vec<String> = Vec::new();
                assert(strings_view(r@) =~= Seq::<Seq<char>>::empty());
                r
            },
        }
    }

    /// A checksum over the parsed `up` and `down` sections, as 16 lowercase
    /// hex digits. Two migrations with the same sections have the same
    /// checksum. Not cryptographically secure.
    pub fn checksum(&self) -> (c: String)
        ensures
            c@ == checksum_of(self.up@, opt_string_view(self.down)),
            c@.len() == 16,
            is_lower_hex(c@),
    {
        match &self.down {
            Some(d) => checksum(self.up.as_str(), Some(d.as_str())),
            None => checksum(self.up.as_str(), None),
        }
    }
}

} // verus!
