//! The version and name carried by a migration filename.
use vstd::prelude::*;

use crate::text::{chars_of, string_of};

verus! {

/// `c` is one of the ASCII digits `0`..`9`.
pub open spec fn is_ascii_digit(c: char) -> bool {
    48 <= (c as int) <= 57
}

/// `c` may separate the version from the name.
pub open spec fn is_separator(c: char) -> bool {
    c == '_' || c == '-'
}

/// How many ASCII digits `s` starts with.
pub open spec fn leading_digits(s: Seq<char>) -> int
    decreases s.len(),
{
    if s.len() > 0 && is_ascii_digit(s[0]) {
        1 + leading_digits(s.drop_first())
    } else {
        0
    }
}

/// `s` without its leading run of `_` and `-`.
pub open spec fn strip_separators(s: Seq<char>) -> Seq<char>
    decreases s.len(),
{
    if s.len() > 0 && is_separator(s[0]) {
        strip_separators(s.drop_first())
    } else {
        s
    }
}

/// The version and name in a file stem: the leading ASCII digits, and what
/// follows them with the separators in between removed. `None` when the
/// stem does not start with a digit.
pub open spec fn parse_stem(stem: Seq<char>) -> Option<(Seq<char>, Seq<char>)> {
    let d = leading_digits(stem);
    if d == 0 {
        None
    } else {
        Some((stem.take(d), strip_separators(stem.skip(d))))
    }
}

/// `stem` is a stretch of `path` containing no `/`: what a file stem taken
/// from `path` can be.
pub open spec fn is_stem_of(stem: Seq<char>, path: Seq<char>) -> bool {
    &&& exists|i: int|
        0 <= i && i + stem.len() <= path.len() && #[trigger] path.subrange(i, i + stem.len())
            == stem
    &&& !stem.contains('/')
}

/// The index of the last `'.'` of `name`, or `-1`.
pub open spec fn last_dot(name: Seq<char>) -> int
    decreases name.len(),
{
    if name.len() == 0 {
        -1
    } else if name.last() == '.' {
        name.len() - 1
    } else {
        last_dot(name.drop_last())
    }
}

/// The stem of a file name, as `Path::file_stem` documents it: the whole
/// name when it has no `'.'` or its only `'.'` leads it, otherwise the part
/// before the last `'.'`.
pub open spec fn stem_of_name(name: Seq<char>) -> Seq<char> {
    let k = last_dot(name);
    if k <= 0 {
        name
    } else {
        name.take(k)
    }
}

/// The characters after the last `/` of `p` (all of `p` when it has none).
pub open spec fn tail_piece(p: Seq<char>) -> Seq<char>
    decreases p.len(),
{
    if p.len() == 0 || p.last() == '/' {
        Seq::<char>::empty()
    } else {
        tail_piece(p.drop_last()).push(p.last())
    }
}

/// The final component of `p` with `/` as separator, as `Path::file_name`
/// gives it: trailing `/` and `.` components are passed over, and there is
/// none when no component is left or the final one is `..`.
pub open spec fn file_name_of(p: Seq<char>) -> Option<Seq<char>>
    decreases p.len(),
{
    if p.len() == 0 {
        None
    } else if p.last() == '/' {
        file_name_of(p.drop_last())
    } else if tail_piece(p) == seq!['.'] {
        file_name_of(p.drop_last())
    } else if tail_piece(p) == seq!['.', '.'] {
        None
    } else {
        Some(tail_piece(p))
    }
}

/// `c` is an ASCII letter.
pub open spec fn is_ascii_letter(c: char) -> bool {
    (65 <= (c as int) <= 90) || (97 <= (c as int) <= 122)
}

/// `path` reads the same on every platform: it has no backslash, does not start
/// with `//`, and does not start with a drive letter and `:`. Such a path
/// has no prefix, `/` is its only separator, and a `:` in it is an ordinary
/// character.
pub open spec fn is_portable_path(path: Seq<char>) -> bool {
    &&& !path.contains('\\')
    &&& !(path.len() >= 2 && path[0] == '/' && path[1] == '/')
    &&& !(path.len() >= 2 && is_ascii_letter(path[0]) && path[1] == ':')
}

/// The file stem of `path`: the stem of its final component.
pub open spec fn path_stem(path: Seq<char>) -> Option<Seq<char>> {
    match file_name_of(path) {
        Some(name) => Some(stem_of_name(name)),
        None => None,
    }
}

/// The version and name that the file stem of `path` carries.
pub open spec fn parse_path(path: Seq<char>) -> Option<(Seq<char>, Seq<char>)> {
    match path_stem(path) {
        Some(stem) => parse_stem(stem),
        None => None,
    }
}

proof fn lemma_tail_piece_of_name(p: Seq<char>, n: Seq<char>)
    requires
        !n.contains('/'),
    ensures
        tail_piece(p + seq!['/'] + n) == n,
        !p.contains('/') ==> tail_piece(p + n) == p + n,
    decreases n.len(),
{
    let x = p + seq!['/'] + n;
    if n.len() == 0 {
        assert(x.last() == '/');
        if !p.contains('/') {
            lemma_tail_piece_plain(p);
            assert(p + n =~= p);
        }
    } else {
        assert(x.drop_last() =~= p + seq!['/'] + n.drop_last());
        assert(x.last() == n.last());
        assert(!n.drop_last().contains('/')) by {
            if n.drop_last().contains('/') {
                let k = choose|k: int| 0 <= k < n.drop_last().len() && n.drop_last()[k] == '/';
                assert(n[k] == '/');
            }
        }
        lemma_tail_piece_of_name(p, n.drop_last());
        assert(n.drop_last().push(n.last()) =~= n);
        if !p.contains('/') {
            assert((p + n).drop_last() =~= p + n.drop_last());
            assert((p + n).last() == n.last());
            assert((p + n.drop_last()).push(n.last()) =~= p + n);
        }
    }
}

proof fn lemma_tail_piece_plain(p: Seq<char>)
    requires
        !p.contains('/'),
    ensures
        tail_piece(p) == p,
    decreases p.len(),
{
    if p.len() > 0 {
        assert(p.last() == p[p.len() - 1]);
        assert(!p.drop_last().contains('/')) by {
            if p.drop_last().contains('/') {
                let k = choose|k: int| 0 <= k < p.drop_last().len() && p.drop_last()[k] == '/';
                assert(p[k] == '/');
            }
        }
        lemma_tail_piece_plain(p.drop_last());
        assert(p.drop_last().push(p.last()) =~= p);
    }
}

/// The final component of a path ending in a name `n` (no `/`, not `.` or
/// `..`) is `n`, whatever comes before it.
proof fn lemma_file_name_of_name(d: Seq<char>, n: Seq<char>)
    requires
        n.len() > 0,
        !n.contains('/'),
        n != seq!['.'],
        n != seq!['.', '.'],
    ensures
        file_name_of(d + seq!['/'] + n) == Some(n),
        file_name_of(n) == Some(n),
{
    lemma_tail_piece_of_name(d, n);
    lemma_tail_piece_plain(n);
    let x = d + seq!['/'] + n;
    assert(x.last() == n.last());
    assert(n.last() != '/') by {
        assert(n[n.len() - 1] == n.last());
    }
}

proof fn lemma_last_dot(s: Seq<char>, e: Seq<char>)
    requires
        !e.contains('.'),
    ensures
        last_dot(s + seq!['.'] + e) == s.len(),
        !s.contains('.') ==> last_dot(s) == -1,
    decreases e.len() + s.len(),
{
    let x = s + seq!['.'] + e;
    if e.len() == 0 {
        assert(x =~= s.push('.'));
    } else {
        assert(x.drop_last() =~= s + seq!['.'] + e.drop_last());
        assert(x.last() == e[e.len() - 1]);
        assert(!e.drop_last().contains('.')) by {
            if e.drop_last().contains('.') {
                let k = choose|k: int| 0 <= k < e.drop_last().len() && e.drop_last()[k] == '.';
                assert(e[k] == '.');
            }
        }
        lemma_last_dot(s, e.drop_last());
    }
    if !s.contains('.') && s.len() > 0 {
        assert(s.last() == s[s.len() - 1]);
        assert(!s.drop_last().contains('.')) by {
            if s.drop_last().contains('.') {
                let k = choose|k: int| 0 <= k < s.drop_last().len() && s.drop_last()[k] == '.';
                assert(s[k] == '.');
            }
        }
        lemma_last_dot(s.drop_last(), e);
    }
}

/// Only the file stem counts: for a file named `s.e` (`e` the last
/// extension, without `.`; `s` without `/`), the version and name are
/// those of `s`, whether the name stands alone or after any directories,
/// relative or absolute.
pub proof fn lemma_parse_path_uses_file_stem(d: Seq<char>, s: Seq<char>, e: Seq<char>)
    requires
        s.len() > 0,
        !s.contains('/'),
        !e.contains('/'),
        !e.contains('.'),
    ensures
        parse_path(d + seq!['/'] + s + seq!['.'] + e) == parse_stem(s),
        parse_path(s + seq!['.'] + e) == parse_stem(s),
{
    let n = s + seq!['.'] + e;
    assert(d + seq!['/'] + s + seq!['.'] + e =~= d + seq!['/'] + n);
    assert(!n.contains('/')) by {
        if n.contains('/') {
            let k = choose|k: int| 0 <= k < n.len() && n[k] == '/';
            if k < s.len() {
                assert(s[k] == '/');
            } else if k > s.len() {
                assert(e[k - s.len() - 1] == '/');
            }
        }
    }
    lemma_last_dot(s, e);
    if n == seq!['.', '.'] {
        assert(s.len() == 1 && s[0] == n[0]);
        assert(!is_ascii_digit(s[0]));
        assert(parse_stem(s) is None);
        lemma_tail_piece_of_name(d, n);
        lemma_tail_piece_plain(n);
        assert((d + seq!['/'] + n).last() == '.');
        assert(n.last() == '.');
    } else {
        assert(n != seq!['.']) by {
            assert(n.len() >= 2);
        }
        lemma_file_name_of_name(d, n);
        assert(n.take(s.len() as int) =~= s);
    }
}

/// A file name `n` without `.` or `/` is its own stem: the version and name
/// are those of `n`, alone or after any directories.
pub proof fn lemma_parse_path_of_plain_name(d: Seq<char>, n: Seq<char>)
    requires
        n.len() > 0,
        !n.contains('/'),
        !n.contains('.'),
    ensures
        parse_path(d + seq!['/'] + n) == parse_stem(n),
        parse_path(n) == parse_stem(n),
{
    assert(n != seq!['.'] && n != seq!['.', '.']) by {
        assert(n[0] != '.');
    }
    lemma_file_name_of_name(d, n);
    lemma_last_dot(n, Seq::<char>::empty());
}

/// The version and name pulled out of a migration filename, e.g.
/// `0001_create_accounts.sql` becomes version `"0001"` and name
/// `"create_accounts"`. The version is kept as a string so that leading
/// zeros survive and timestamp-style versions need no special handling.
#[derive(Debug, Clone, PartialEq, Eq)]
pub struct Filename {
    pub version: String,
    pub name: String,
}

impl View for Filename {
    type V = (Seq<char>, Seq<char>);

    open spec fn view(&self) -> (Seq<char>, Seq<char>) {
        (self.version@, self.name@)
    }
}

/// The view of an optional `Filename`.
pub open spec fn opt_filename_view(f: Option<Filename>) -> Option<(Seq<char>, Seq<char>)> {
    match f {
        Some(f) => Some(f@),
        None => None,
    }
}

/// The file stem of `path` by std's `Path::file_stem`, as a `String`;
/// `None` when the path has no file name or the stem is not UTF-8. For a
/// path without a backslash, the stem is a slice of the path's final component,
/// so a stretch of `path` without `/`. For a portable path (see
/// `is_portable_path`) the final component is the one `file_name_of`
/// gives, and the stem is taken from it as `stem_of_name` states (it is a
/// slice of the `&str`, so always UTF-8). Paths with a backslash, a leading
/// `//` or a leading drive letter and `:` follow the platform's path rules
/// (prefixes, and the backslash as a separator on Windows), and for them this
/// contract says no more than the first clause.
#[verifier::external_body]
fn path_file_stem(path: &str) -> (stem: Option<String>)
    ensures
        stem matches Some(s) ==> (!path@.contains('\\') ==> is_stem_of(s@, path@)),
        stem matches Some(s) ==> (is_portable_path(path@) ==> path_stem(path@) == Some(s@)),
        stem is None ==> (is_portable_path(path@) ==> path_stem(path@) is None),
{
    match std::path::Path::new(path).file_stem() {
        Some(s) => s.to_str().map(String::from),
        None => None,
    }
}

proof fn lemma_leading_digits(s: Seq<char>)
    ensures
        0 <= leading_digits(s) <= s.len(),
        forall|k: int| 0 <= k < leading_digits(s) ==> is_ascii_digit(#[trigger] s[k]),
        leading_digits(s) < s.len() ==> !is_ascii_digit(s[leading_digits(s)]),
    decreases s.len(),
{
    if s.len() > 0 && is_ascii_digit(s[0]) {
        lemma_leading_digits(s.drop_first());
        assert forall|k: int| 0 <= k < leading_digits(s) implies is_ascii_digit(#[trigger] s[k]) by {
            if k > 0 {
                assert(s[k] == s.drop_first()[k - 1]);
            }
        }
    }
}

proof fn lemma_strip_separators(s: Seq<char>)
    ensures
        strip_separators(s).len() <= s.len(),
        s =~= s.take(s.len() - strip_separators(s).len()) + strip_separators(s),
        forall|k: int|
            0 <= k < s.len() - strip_separators(s).len() ==> is_separator(#[trigger] s[k]),
        strip_separators(s).len() > 0 ==> !is_separator(strip_separators(s)[0]),
    decreases s.len(),
{
    if s.len() > 0 && is_separator(s[0]) {
        let t = s.drop_first();
        lemma_strip_separators(t);
        let n = s.len() - strip_separators(s).len();
        assert(s.take(n) =~= seq![s[0]] + t.take(n - 1));
        assert(s =~= seq![s[0]] + t);
        assert forall|k: int| 0 <= k < s.len() - strip_separators(s).len() implies is_separator(
            #[trigger] s[k],
        ) by {
            if k > 0 {
                assert(s[k] == s.drop_first()[k - 1]);
            }
        }
    }
}

impl Filename {
    /// Parse the version and name out of a file stem (a filename without
    /// its extension). The version is the leading run of ASCII digits; the
    /// separators (`_` or `-`) after it are dropped and the rest is the
    /// name, possibly empty. Returns `None` if the stem does not start with
    /// an ASCII digit.
    pub fn parse_stem(stem: &str) -> (r: Option<Filename>)
        ensures
            opt_filename_view(r) == parse_stem(stem@),
            r is Some <==> stem@.len() > 0 && is_ascii_digit(stem@[0]),
            r matches Some(f) ==> {
                &&& f.version@.len() > 0
                &&& forall|k: int| 0 <= k < f.version@.len() ==> is_ascii_digit(#[trigger] f.version@[k])
                &&& f.name@.len() > 0 ==> !is_separator(f.name@[0])
                &&& f.version@.len() < stem@.len() ==> !is_ascii_digit(stem@[f.version@.len() as int])
                &&& exists|seps: Seq<char>|
                    #![trigger f.version@ + seps + f.name@]
                    stem@ == f.version@ + seps + f.name@ && forall|k: int|
                        0 <= k < seps.len() ==> is_separator(#[trigger] seps[k])
            },
    {
        let cs = chars_of(stem);
        let mut d: usize = 0;
        assert(cs@.skip(0) =~= cs@);
        while d < cs.len() && '0' <= cs[d] && cs[d] <= '9'
            invariant
                d <= cs.len(),
                leading_digits(cs@) == d + leading_digits(cs@.skip(d as int)),
            decreases cs.len() - d,
        {
            assert(cs@.skip(d as int).drop_first() =~= cs@.skip(d + 1));
            d += 1;
        }
        assert(leading_digits(cs@.skip(d as int)) == 0);
        proof {
            lemma_leading_digits(cs@);
        }
        if d == 0 {
            return None;
        }
        let mut j: usize = d;
        while j < cs.len() && (cs[j] == '_' || cs[j] == '-')
            invariant
                d <= j <= cs.len(),
                strip_separators(cs@.skip(d as int)) == strip_separators(cs@.skip(j as int)),
            decreases cs.len() - j,
        {
            assert(cs@.skip(j as int).drop_first() =~= cs@.skip(j + 1));
            j += 1;
        }
        assert(strip_separators(cs@.skip(j as int)) == cs@.skip(j as int));
        assert(cs@.subrange(j as int, cs.len() as int) =~= cs@.skip(j as int));
        assert(cs@.subrange(0, d as int) =~= cs@.take(d as int));
        let f = Filename { version: string_of(&cs, 0, d), name: string_of(&cs, j, cs.len()) };
        proof {
            let rest = cs@.skip(d as int);
            lemma_strip_separators(rest);
            let seps = rest.take(rest.len() - strip_separators(rest).len());
            assert(cs@ =~= cs@.take(d as int) + rest);
            assert(cs@ =~= f.version@ + seps + f.name@);
            assert forall|k: int| 0 <= k < f.version@.len() implies is_ascii_digit(
                #[trigger] f.version@[k],
            ) by {
                assert(f.version@[k] == cs@[k]);
            }
        }
        Some(f)
    }

    /// Parse the version and name out of a migration filename or path.
    /// Only the file stem is considered, so a full path or a bare filename
    /// both work, and any extension is ignored. Returns `None` when there
    /// is no file stem or it does not start with an ASCII digit. For a path
    /// that reads the same on every platform (see `is_portable_path`; a `:`
    /// after the start is an ordinary character) the result is exactly the
    /// one `parse_path` gives.
    pub fn parse(path: &str) -> (r: Option<Filename>)
        ensures
            is_portable_path(path@) ==> opt_filename_view(r) == parse_path(path@),
            r matches Some(f) ==> f.version@.len() > 0 && forall|k: int|
                0 <= k < f.version@.len() ==> is_ascii_digit(#[trigger] f.version@[k]),
            r matches Some(f) ==> (!path@.contains('\\') ==> exists|stem: Seq<char>|
                is_stem_of(stem, path@) && parse_stem(stem) == Some(f@)),
    {
        match path_file_stem(path) {
            Some(stem) => Filename::parse_stem(stem.as_str()),
            None => None,
        }
    }
}

} // verus!
