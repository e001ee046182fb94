//! Character-level helpers shared by the parsers: Unicode whitespace,
//! trimming, and moving between `&str`/`String` and vectors of `char`.
use vstd::prelude::*;

verus! {

/// The Unicode `White_Space` property (PropList.txt): the characters that
/// `char::is_whitespace` and `str::trim` treat as whitespace.
pub open spec fn is_white_space(c: char) -> bool {
    let u = c as u32;
    ||| 0x09 <= u <= 0x0d
    ||| u == 0x20
    ||| u == 0x85
    ||| u == 0xa0
    ||| u == 0x1680
    ||| 0x2000 <= u <= 0x200a
    ||| u == 0x2028
    ||| u == 0x2029
    ||| u == 0x202f
    ||| u == 0x205f
    ||| u == 0x3000
}

/// `s` without its leading whitespace.
pub open spec fn trim_start(s: Seq<char>) -> Seq<char>
    decreases s.len(),
{
    if s.len() > 0 && is_white_space(s[0]) {
        trim_start(s.drop_first())
    } else {
        s
    }
}

/// `s` without its trailing whitespace.
pub open spec fn trim_end(s: Seq<char>) -> Seq<char>
    decreases s.len(),
{
    if s.len() > 0 && is_white_space(s.last()) {
        trim_end(s.drop_last())
    } else {
        s
    }
}

/// `s` without leading and trailing whitespace, as `str::trim` gives it.
pub open spec fn trim(s: Seq<char>) -> Seq<char> {
    trim_end(trim_start(s))
}

/// Neither end of `s` is whitespace (an empty `s` qualifies).
pub open spec fn is_trimmed(s: Seq<char>) -> bool {
    s.len() > 0 ==> !is_white_space(s[0]) && !is_white_space(s.last())
}

/// Whether `c` is Unicode whitespace.
pub(crate) fn is_whitespace(c: char) -> (r: bool)
    ensures
        r == is_white_space(c),
{
    let u = c as u32;
    (0x09 <= u && u <= 0x0d) || u == 0x20 || u == 0x85 || u == 0xa0 || u == 0x1680 || (0x2000
        <= u && u <= 0x200a) || u == 0x2028 || u == 0x2029 || u == 0x202f || u == 0x205f || u
        == 0x3000
}

proof fn lemma_trim_end_keeps_first(s: Seq<char>)
    requires
        s.len() > 0,
        !is_white_space(s[0]),
    ensures
        trim_end(s).len() > 0,
        trim_end(s)[0] == s[0],
    decreases s.len(),
{
    if is_white_space(s.last()) {
        lemma_trim_end_keeps_first(s.drop_last());
    }
}

proof fn lemma_trim_end_last(s: Seq<char>)
    ensures
        trim_end(s).len() > 0 ==> !is_white_space(trim_end(s).last()),
    decreases s.len(),
{
    if s.len() > 0 && is_white_space(s.last()) {
        lemma_trim_end_last(s.drop_last());
    }
}

proof fn lemma_trim_start_first(s: Seq<char>)
    ensures
        trim_start(s).len() > 0 ==> !is_white_space(trim_start(s)[0]),
    decreases s.len(),
{
    if s.len() > 0 && is_white_space(s[0]) {
        lemma_trim_start_first(s.drop_first());
    }
}

/// Trimming leaves neither end whitespace.
pub proof fn lemma_trim_is_trimmed(s: Seq<char>)
    ensures
        is_trimmed(trim(s)),
{
    lemma_trim_start_first(s);
    lemma_trim_end_last(trim_start(s));
    if trim_start(s).len() > 0 {
        lemma_trim_end_keeps_first(trim_start(s));
    }
}

/// Trimming a trimmed sequence changes nothing.
pub proof fn lemma_trim_of_trimmed(s: Seq<char>)
    requires
        is_trimmed(s),
    ensures
        trim(s) == s,
{
}

proof fn lemma_trim_start_skip(p: Seq<char>) -> (x: int)
    ensures
        0 <= x <= p.len(),
        trim_start(p) == p.skip(x),
        forall|k: int| 0 <= k < x ==> is_white_space(#[trigger] p[k]),
    decreases p.len(),
{
    if p.len() > 0 && is_white_space(p[0]) {
        let x0 = lemma_trim_start_skip(p.drop_first());
        assert(p.drop_first().skip(x0) =~= p.skip(x0 + 1));
        assert forall|k: int| 0 <= k < x0 + 1 implies is_white_space(#[trigger] p[k]) by {
            if k > 0 {
                assert(p[k] == p.drop_first()[k - 1]);
            }
        }
        x0 + 1
    } else {
        assert(p.skip(0) =~= p);
        0
    }
}

proof fn lemma_trim_end_take(p: Seq<char>) -> (y: int)
    ensures
        0 <= y <= p.len(),
        trim_end(p) == p.take(y),
        forall|k: int| y <= k < p.len() ==> is_white_space(#[trigger] p[k]),
    decreases p.len(),
{
    if p.len() > 0 && is_white_space(p.last()) {
        let y0 = lemma_trim_end_take(p.drop_last());
        assert(p.drop_last().take(y0) =~= p.take(y0));
        assert forall|k: int| y0 <= k < p.len() implies is_white_space(#[trigger] p[k]) by {
            if k < p.len() - 1 {
                assert(p[k] == p.drop_last()[k]);
            }
        }
        y0
    } else {
        assert(p.take(p.len() as int) =~= p);
        p.len() as int
    }
}

/// `trim(p)` is the stretch `p[x..y]`, with only whitespace before and
/// after it.
pub proof fn lemma_trim_bounds(p: Seq<char>) -> (r: (int, int))
    ensures
        0 <= r.0 <= r.1 <= p.len(),
        trim(p) == p.subrange(r.0, r.1),
        forall|k: int| 0 <= k < r.0 ==> is_white_space(#[trigger] p[k]),
        forall|k: int| r.1 <= k < p.len() ==> is_white_space(#[trigger] p[k]),
{
    let x = lemma_trim_start_skip(p);
    let q = p.skip(x);
    let y = lemma_trim_end_take(q);
    assert(q.take(y) =~= p.subrange(x, x + y));
    assert forall|k: int| x + y <= k < p.len() implies is_white_space(#[trigger] p[k]) by {
        assert(p[k] == q[k - x]);
    }
    (x, x + y)
}

/// The characters of `s`, one `Vec` entry per `char`.
pub(crate) fn chars_of(s: &str) -> (v: Vec<char>)
    ensures
        v@ == s@,
{
    let mut v: Vec<char> = Vec::new();
    for c in it: s.chars()
        invariant
            v@ == it.seq().take(it.index() as int),
    {
        v.push(c);
    }
    v
}

/// Appends `c` to `s` by std's `String::push`, which adds the character at
/// the end and changes nothing else.
#[verifier::external_body]
pub(crate) fn push_char(s: &mut String, c: char)
    ensures
        final(s)@ == old(s)@.push(c),
{
    s.push(c);
}

/// The `String` made of `v[lo..hi]`.
pub(crate) fn string_of(v: &Vec<char>, lo: usize, hi: usize) -> (s: String)
    requires
        lo <= hi <= v.len(),
    ensures
        s@ == v@.subrange(lo as int, hi as int),
{
    let mut s = String::new();
    let mut i = lo;
    while i < hi
        invariant
            lo <= i <= hi <= v.len(),
            s@ == v@.subrange(lo as int, i as int),
        decreases hi - i,
    {
        push_char(&mut s, v[i]);
        i += 1;
    }
    s
}

/// The bounds of `v[lo..hi]` once whitespace is trimmed from both ends.
pub(crate) fn trim_bounds(v: &Vec<char>, lo: usize, hi: usize) -> (r: (usize, usize))
    requires
        lo <= hi <= v.len(),
    ensures
        lo <= r.0 <= r.1 <= hi,
        v@.subrange(r.0 as int, r.1 as int) == trim(v@.subrange(lo as int, hi as int)),
{
    let ghost whole = v@.subrange(lo as int, hi as int);
    let mut a = lo;
    while a < hi && is_whitespace(v[a])
        invariant
            lo <= a <= hi <= v.len(),
            whole == v@.subrange(lo as int, hi as int),
            trim_start(whole) == trim_start(v@.subrange(a as int, hi as int)),
        decreases hi - a,
    {
        assert(v@.subrange(a as int, hi as int).drop_first() =~= v@.subrange(a + 1, hi as int));
        a += 1;
    }
    assert(trim_start(v@.subrange(a as int, hi as int)) == v@.subrange(a as int, hi as int));
    let mut b = hi;
    while b > a && is_whitespace(v[b - 1])
        invariant
            lo <= a <= b <= hi <= v.len(),
            trim_start(whole) == v@.subrange(a as int, hi as int),
            trim_end(trim_start(whole)) == trim_end(v@.subrange(a as int, b as int)),
        decreases b - a,
    {
        assert(v@.subrange(a as int, b as int).drop_last() =~= v@.subrange(a as int, b - 1));
        b -= 1;
    }
    (a, b)
}

} // verus!
