//! Ordering the migration files found in a directory.
use vstd::prelude::*;

use crate::filename::{is_portable_path, parse_path, parse_stem, path_stem, Filename};
use crate::order::{
    chars_less, chars_less_from, lemma_chars_less_order, lemma_version_less_order,
    version_less, version_less_exec,
};
use crate::statement::strings_view;
use crate::text::chars_of;

verus! {

/// A migration found on disk: the path to read it from, plus the version
/// and name already pulled out of the filename.
#[derive(Debug, Clone, PartialEq, Eq)]
pub struct MigrationFile {
    pub path: String,
    pub filename: Filename,
}

impl View for MigrationFile {
    type V = (Seq<char>, (Seq<char>, Seq<char>));

    open spec fn view(&self) -> (Seq<char>, (Seq<char>, Seq<char>)) {
        (self.path@, self.filename@)
    }
}

/// The views of the files of `s`.
pub open spec fn files_view(s: Seq<MigrationFile>) -> Seq<(Seq<char>, (Seq<char>, Seq<char>))> {
    s.map_values(|f: MigrationFile| f@)
}

/// The paths of the files of `s`.
pub open spec fn file_paths(s: Seq<MigrationFile>) -> Seq<Seq<char>> {
    s.map_values(|f: MigrationFile| f.path@)
}

/// The files of `s` whose path is portable (see `is_portable_path`).
pub open spec fn portable_files(s: Seq<(Seq<char>, (Seq<char>, Seq<char>))>) -> Seq<
    (Seq<char>, (Seq<char>, Seq<char>)),
> {
    s.filter(|f: (Seq<char>, (Seq<char>, Seq<char>))| is_portable_path(f.0))
}

/// The portable paths of `paths`.
pub open spec fn portable_paths(paths: Seq<Seq<char>>) -> Seq<Seq<char>> {
    paths.filter(|p: Seq<char>| is_portable_path(p))
}

/// Each path of `paths` whose file stem parses as a migration filename,
/// with the version and name it carries, in the order of `paths`.
pub open spec fn migration_files_of(paths: Seq<Seq<char>>) -> Seq<
    (Seq<char>, (Seq<char>, Seq<char>)),
>
    decreases paths.len(),
{
    if paths.len() == 0 {
        Seq::empty()
    } else {
        let rest = migration_files_of(paths.drop_last());
        match parse_path(paths.last()) {
            Some(f) => rest.push((paths.last(), f)),
            None => rest,
        }
    }
}

/// `a` comes before `b` in migration order: by version (as a number, and
/// between spellings of one number the shorter first; see `version_less`),
/// then by name, then by path, names and paths in code-point order.
pub open spec fn file_before(a: MigrationFile, b: MigrationFile) -> bool {
    let (av, an, ap) = (a.filename.version@, a.filename.name@, a.path@);
    let (bv, bn, bp) = (b.filename.version@, b.filename.name@, b.path@);
    ||| version_less(av, bv)
    ||| av == bv && chars_less(an, bn)
    ||| av == bv && an == bn && chars_less(ap, bp)
}

/// `a` and `b` tie in migration order: same version, same name, same
/// path.
pub open spec fn file_tie(a: MigrationFile, b: MigrationFile) -> bool {
    &&& a.filename.version@ == b.filename.version@
    &&& a.filename.name@ == b.filename.name@
    &&& a.path@ == b.path@
}

/// No file of `s` comes before a file to its left.
pub open spec fn in_migration_order(s: Seq<MigrationFile>) -> bool {
    forall|i: int, j: int| 0 <= i < j < s.len() ==> !file_before(#[trigger] s[j], #[trigger] s[i])
}

/// `f` is a file of `paths`; when its path is portable, its filename is
/// the one that path's file stem carries.
pub open spec fn parsed_from(f: MigrationFile, paths: Seq<String>) -> bool {
    &&& exists|i: int| 0 <= i < paths.len() && #[trigger] paths[i]@ == f.path@
    &&& is_portable_path(f.path@) ==> parse_path(f.path@) == Some(f.filename@)
}

/// Keeping the portable files keeps each portable file as often as it
/// occurs and drops the rest.
proof fn lemma_portable_files_count(s: Seq<(Seq<char>, (Seq<char>, Seq<char>))>, v: (
    Seq<char>,
    (Seq<char>, Seq<char>),
))
    ensures
        portable_files(s).to_multiset().count(v) == if is_portable_path(v.0) {
            s.to_multiset().count(v)
        } else {
            0
        },
    decreases s.len(),
{
    broadcast use vstd::seq_lib::group_to_multiset_ensures;

    reveal(Seq::filter);
    if s.len() == 0 {
        assert(portable_files(s) =~= s);
    } else {
        let t = s.drop_last();
        lemma_portable_files_count(t, v);
        assert(s =~= t.push(s.last()));
    }
}

/// Files with the same views, counted with repeats, keep the same portable
/// files.
proof fn lemma_portable_files_permuted(
    s: Seq<(Seq<char>, (Seq<char>, Seq<char>))>,
    t: Seq<(Seq<char>, (Seq<char>, Seq<char>))>,
)
    requires
        s.to_multiset() == t.to_multiset(),
    ensures
        portable_files(s).to_multiset() == portable_files(t).to_multiset(),
{
    assert forall|v: (Seq<char>, (Seq<char>, Seq<char>))|
        portable_files(s).to_multiset().count(v) == portable_files(t).to_multiset().count(v) by {
        lemma_portable_files_count(s, v);
        lemma_portable_files_count(t, v);
    }
    assert(portable_files(s).to_multiset() =~= portable_files(t).to_multiset());
}

/// Migration order is a strict order: irreflexive and transitive, and two
/// files that are not ordered either way tie.
pub proof fn lemma_file_order(a: MigrationFile, b: MigrationFile, c: MigrationFile)
    ensures
        !file_before(a, a),
        file_before(a, b) && file_before(b, c) ==> file_before(a, c),
        file_before(a, b) ==> !file_before(b, a),
        !file_before(a, b) && !file_before(b, a) ==> file_tie(a, b),
        file_tie(a, b) ==> (file_before(a, c) <==> file_before(b, c)),
        file_tie(a, b) ==> (file_before(c, a) <==> file_before(c, b)),
{
    lemma_chars_less_order();
    lemma_version_less_order();
}

/// "Not before" chains: if `b` is not before `a` and `c` is not before
/// `b`, then `c` is not before `a`.
proof fn lemma_not_before_chain(a: MigrationFile, b: MigrationFile, c: MigrationFile)
    requires
        !file_before(b, a),
        !file_before(c, b),
    ensures
        !file_before(c, a),
{
    lemma_file_order(c, a, b);
    lemma_file_order(a, b, c);
}

/// Whether `a` and `b` hold the same characters.
fn chars_eq(a: &Vec<char>, b: &Vec<char>) -> (r: bool)
    ensures
        r == (a@ == b@),
{
    if a.len() != b.len() {
        return false;
    }
    let mut i: usize = 0;
    while i < a.len()
        invariant
            a.len() == b.len(),
            i <= a.len(),
            forall|k: int| 0 <= k < i ==> a@[k] == b@[k],
        decreases a.len() - i,
    {
        if a[i] != b[i] {
            return false;
        }
        i += 1;
    }
    assert(a@ =~= b@);
    true
}

/// Whether file `a` comes before file `b` in migration order.
fn file_before_exec(a: &MigrationFile, b: &MigrationFile) -> (r: bool)
    ensures
        r == file_before(*a, *b),
{
    proof {
        lemma_version_less_order();
        lemma_chars_less_order();
    }
    let av = chars_of(a.filename.version.as_str());
    let bv = chars_of(b.filename.version.as_str());
    if version_less_exec(&av, &bv) {
        return true;
    }
    if version_less_exec(&bv, &av) {
        return false;
    }
    assert(av@ == bv@);
    let an = chars_of(a.filename.name.as_str());
    let bn = chars_of(b.filename.name.as_str());
    assert(an@.skip(0) =~= an@);
    assert(bn@.skip(0) =~= bn@);
    if chars_less_from(&an, 0, &bn, 0) {
        true
    } else if chars_eq(&an, &bn) {
        let ap = chars_of(a.path.as_str());
        let bp = chars_of(b.path.as_str());
        assert(ap@.skip(0) =~= ap@);
        assert(bp@.skip(0) =~= bp@);
        chars_less_from(&ap, 0, &bp, 0)
    } else {
        false
    }
}

/// `files` rearranged into migration order: ascending by version as a
/// number (spellings of one number shorter first), then by name, then by
/// path.
pub fn sort_migration_files(files: Vec<MigrationFile>) -> (r: Vec<MigrationFile>)
    ensures
        r@.to_multiset() == files@.to_multiset(),
        files_view(r@).to_multiset() == files_view(files@).to_multiset(),
        file_paths(r@).to_multiset() == file_paths(files@).to_multiset(),
        in_migration_order(r@),
{
    broadcast use vstd::seq_lib::group_to_multiset_ensures;

    let mut input = files;
    let mut out: Vec<MigrationFile> = Vec::new();
    while input.len() > 0
        invariant
            input@.to_multiset().add(out@.to_multiset()) == files@.to_multiset(),
            files_view(input@).to_multiset().add(files_view(out@).to_multiset()) == files_view(
                files@,
            ).to_multiset(),
            file_paths(input@).to_multiset().add(file_paths(out@).to_multiset()) == file_paths(
                files@,
            ).to_multiset(),
            in_migration_order(out@),
        decreases input.len(),
    {
        let ghost before_in = input@;
        let e = input.pop().unwrap();
        proof {
            assert(before_in =~= input@.push(e));
            vstd::seq_lib::to_multiset_build(input@, e);
            assert(files_view(before_in) =~= files_view(input@).push(e@));
            vstd::seq_lib::to_multiset_build(files_view(input@), e@);
            assert(file_paths(before_in) =~= file_paths(input@).push(e.path@));
            vstd::seq_lib::to_multiset_build(file_paths(input@), e.path@);
        }
        let mut p = out.len();
        while p > 0 && file_before_exec(&e, &out[p - 1])
            invariant
                p <= out.len(),
                forall|k: int| p <= k < out.len() ==> file_before(e, #[trigger] out@[k]),
            decreases p,
        {
            p -= 1;
        }
        let ghost old_out = out@;
        out.insert(p, e);
        proof {
            vstd::seq_lib::to_multiset_insert(old_out, p as int, e);
            assert(input@.to_multiset().add(out@.to_multiset()) =~= files@.to_multiset());
            assert(files_view(out@) =~= files_view(old_out).insert(p as int, e@));
            vstd::seq_lib::to_multiset_insert(files_view(old_out), p as int, e@);
            assert(files_view(input@).to_multiset().add(files_view(out@).to_multiset())
                =~= files_view(files@).to_multiset());
            assert(file_paths(out@) =~= file_paths(old_out).insert(p as int, e.path@));
            vstd::seq_lib::to_multiset_insert(file_paths(old_out), p as int, e.path@);
            assert(file_paths(input@).to_multiset().add(file_paths(out@).to_multiset())
                =~= file_paths(files@).to_multiset());
            assert forall|i: int, j: int| 0 <= i < j < out@.len() implies !file_before(
                #[trigger] out@[j],
                #[trigger] out@[i],
            ) by {
                if j < p {
                    assert(out@[i] == old_out[i] && out@[j] == old_out[j]);
                } else if j == p {
                    assert(out@[i] == old_out[i]);
                    assert(!file_before(e, old_out[p - 1]));
                    if i < p - 1 {
                        assert(!file_before(old_out[p - 1], old_out[i]));
                        lemma_not_before_chain(old_out[i], old_out[p - 1], e);
                    }
                } else if i == p {
                    assert(out@[j] == old_out[j - 1]);
                    assert(file_before(e, old_out[j - 1]));
                    lemma_file_order(e, old_out[j - 1], e);
                } else if i < p {
                    assert(out@[i] == old_out[i] && out@[j] == old_out[j - 1]);
                } else {
                    assert(out@[i] == old_out[i - 1] && out@[j] == old_out[j - 1]);
                }
            }
        }
    }
    assert(input@.to_multiset() =~= vstd::multiset::Multiset::<MigrationFile>::empty());
    assert(files_view(input@).to_multiset() =~= vstd::multiset::Multiset::<
        (Seq<char>, (Seq<char>, Seq<char>)),
    >::empty());
    assert(file_paths(input@).to_multiset() =~= vstd::multiset::Multiset::<Seq<char>>::empty());
    out
}

/// The migration files among `paths`, in migration order. A path whose
/// file stem does not parse as a migration filename (no leading version
/// digits) is skipped. Each path gives at most one file. For every
/// portable path (see `is_portable_path`) whose stem parses, the result
/// holds exactly one file with the version and name that stem carries;
/// a file from any other path still carries a version of ASCII digits.
pub fn collect_migration_files(paths: &Vec<String>) -> (r: Vec<MigrationFile>)
    ensures
        in_migration_order(r@),
        forall|k: int| 0 <= k < r.len() ==> parsed_from(#[trigger] r@[k], paths@),
        file_paths(r@).to_multiset().subset_of(strings_view(paths@).to_multiset()),
        portable_files(files_view(r@)).to_multiset() == migration_files_of(
            portable_paths(strings_view(paths@)),
        ).to_multiset(),
        (forall|i: int| 0 <= i < paths.len() ==> is_portable_path(#[trigger] paths@[i]@))
            ==> files_view(r@).to_multiset() == migration_files_of(
            strings_view(paths@),
        ).to_multiset(),
        forall|i: int|
            0 <= i < paths.len() && is_portable_path(#[trigger] paths@[i]@) ==> (path_stem(
                paths@[i]@,
            ) matches Some(stem) ==> (parse_stem(stem) matches Some(f) ==> exists|k: int|
                0 <= k < r.len() && #[trigger] r@[k]@ == (paths@[i]@, f))),
{
    broadcast use vstd::seq_lib::group_to_multiset_ensures;

    let ghost ps = strings_view(paths@);
    let ghost portable = forall|i: int| 0 <= i < paths.len() ==> is_portable_path(
        #[trigger] paths@[i]@,
    );
    let mut files: Vec<MigrationFile> = Vec::new();
    let mut i: usize = 0;
    assert(ps.take(0) =~= Seq::<Seq<char>>::empty());
    proof {
        reveal(Seq::filter);
        assert(portable_paths(ps.take(0)) =~= Seq::<Seq<char>>::empty());
        assert(portable_files(files_view(files@)) =~= Seq::<
            (Seq<char>, (Seq<char>, Seq<char>)),
        >::empty());
        assert(file_paths(files@).to_multiset() =~= ps.take(0).to_multiset());
    }
    while i < paths.len()
        invariant
            i <= paths.len(),
            ps == strings_view(paths@),
            portable == forall|i: int| 0 <= i < paths.len() ==> is_portable_path(
                #[trigger] paths@[i]@,
            ),
            forall|k: int| 0 <= k < files.len() ==> parsed_from(#[trigger] files@[k], paths@),
            portable ==> files_view(files@) == migration_files_of(ps.take(i as int)),
            portable_files(files_view(files@)) == migration_files_of(
                portable_paths(ps.take(i as int)),
            ),
            file_paths(files@).to_multiset().subset_of(ps.take(i as int).to_multiset()),
            forall|j: int|
                0 <= j < i && is_portable_path(#[trigger] ps[j]) ==> (parse_path(ps[j]) matches Some(
                    f,
                ) ==> exists|k: int|
                    0 <= k < files.len() && #[trigger] files_view(files@)[k] == (ps[j], f)),
        decreases paths.len() - i,
    {
        let ghost old_files = files@;
        let ghost x = paths@[i as int]@;
        assert(ps.take(i + 1).drop_last() =~= ps.take(i as int));
        assert(ps.take(i + 1).last() == x);
        assert(ps.take(i + 1) =~= ps.take(i as int).push(x));
        let ghost pp0 = portable_paths(ps.take(i as int));
        proof {
            reveal(Seq::filter);
            if is_portable_path(x) {
                assert(portable_paths(ps.take(i + 1)) == pp0.push(x));
                assert(pp0.push(x).drop_last() =~= pp0);
            } else {
                assert(portable_paths(ps.take(i + 1)) == pp0);
            }
        }
        match Filename::parse(paths[i].as_str()) {
            Some(filename) => {
                let f = MigrationFile { path: paths[i].clone(), filename };
                assert(x == f.path@);
                files.push(f);
                assert(files_view(files@) =~= files_view(old_files).push(f@));
                assert(file_paths(files@) =~= file_paths(old_files).push(x));
                assert forall|j: int|
                    0 <= j < i + 1 && is_portable_path(#[trigger] ps[j]) implies (parse_path(
                        ps[j],
                    ) matches Some(g) ==> exists|k: int|
                        0 <= k < files.len() && #[trigger] files_view(files@)[k] == (ps[j], g)) by {
                    if j < i {
                        if let Some(g) = parse_path(ps[j]) {
                            let k0 = choose|k: int|
                                0 <= k < old_files.len() && #[trigger] files_view(old_files)[k] == (
                                    ps[j],
                                    g,
                                );
                            assert(files_view(files@)[k0] == files_view(old_files)[k0]);
                        }
                    } else {
                        assert(files_view(files@)[old_files.len() as int] == f@);
                    }
                }
                proof {
                    reveal(Seq::filter);
                    assert(files_view(files@).drop_last() =~= files_view(old_files));
                    if is_portable_path(x) {
                        assert(portable_files(files_view(files@)) == portable_files(
                            files_view(old_files),
                        ).push(f@));
                    } else {
                        assert(portable_files(files_view(files@)) == portable_files(
                            files_view(old_files),
                        ));
                    }
                    assert forall|v: Seq<char>|
                        file_paths(files@).to_multiset().count(v) <= ps.take(
                            i + 1,
                        ).to_multiset().count(v) by {
                        vstd::seq_lib::to_multiset_build(ps.take(i as int), x);
                        vstd::seq_lib::to_multiset_build(file_paths(old_files), x);
                        assert(file_paths(old_files).to_multiset().count(v) <= ps.take(
                            i as int,
                        ).to_multiset().count(v));
                    }
                }
            },
            None => {
                proof {
                    assert forall|j: int|
                        0 <= j < i + 1 && is_portable_path(#[trigger] ps[j]) implies (parse_path(
                            ps[j],
                        ) matches Some(g) ==> exists|k: int|
                            0 <= k < files.len() && #[trigger] files_view(files@)[k] == (ps[j], g)) by {
                        if j == i {
                            assert(parse_path(ps[j]) is None);
                        }
                    }
                    assert forall|v: Seq<char>|
                        file_paths(files@).to_multiset().count(v) <= ps.take(
                            i + 1,
                        ).to_multiset().count(v) by {
                        vstd::seq_lib::to_multiset_build(ps.take(i as int), x);
                        assert(file_paths(old_files).to_multiset().count(v) <= ps.take(
                            i as int,
                        ).to_multiset().count(v));
                    }
                }
            },
        }
        i += 1;
    }
    assert(ps.take(paths.len() as int) =~= ps);
    let ghost before_sort = files@;
    let r = sort_migration_files(files);
    assert forall|i: int|
        0 <= i < paths.len() && is_portable_path(#[trigger] paths@[i]@) implies (path_stem(
            paths@[i]@,
        ) matches Some(stem) ==> (parse_stem(stem) matches Some(f) ==> exists|k: int|
            0 <= k < r.len() && #[trigger] r@[k]@ == (paths@[i]@, f))) by {
        assert(ps[i] == paths@[i]@);
        if let Some(stem) = path_stem(paths@[i]@) {
            if let Some(f) = parse_stem(stem) {
                assert(parse_path(ps[i]) == Some(f));
                let k0 = choose|k: int|
                    0 <= k < before_sort.len() && #[trigger] files_view(before_sort)[k] == (
                        ps[i],
                        f,
                    );
                let e = files_view(before_sort)[k0];
                assert(files_view(before_sort).contains(e));
                assert(files_view(r@).to_multiset().count(e) > 0);
                assert(files_view(r@).contains(e));
                let k1 = choose|k: int| 0 <= k < files_view(r@).len() && files_view(r@)[k] == e;
                assert(r@[k1]@ == files_view(r@)[k1]);
            }
        }
    }
    proof {
        lemma_portable_files_permuted(files_view(r@), files_view(before_sort));
    }
    assert forall|k: int| 0 <= k < r.len() implies parsed_from(#[trigger] r@[k], paths@) by {
        assert(r@.to_multiset().count(r@[k]) > 0);
        assert(before_sort.contains(r@[k]));
    }
    r
}

} // verus!
