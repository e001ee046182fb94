//! Orders on text: code-point lexicographic order, and the numeric order of
//! version strings.
use vstd::prelude::*;

use crate::filename::is_ascii_digit;
use crate::text::chars_of;

verus! {

/// `a` comes strictly before `b` in lexicographic order by code point, the
/// order of `str`'s `Ord` (UTF-8 keeps code-point order).
pub open spec fn chars_less(a: Seq<char>, b: Seq<char>) -> bool
    decreases a.len(),
{
    if a.len() == 0 {
        b.len() > 0
    } else if b.len() == 0 {
        false
    } else if a[0] == b[0] {
        chars_less(a.drop_first(), b.drop_first())
    } else {
        a[0] < b[0]
    }
}

/// `s` without its leading `'0'` characters.
pub open spec fn strip_zeros(s: Seq<char>) -> Seq<char>
    decreases s.len(),
{
    if s.len() > 0 && s[0] == '0' {
        strip_zeros(s.drop_first())
    } else {
        s
    }
}

/// Order on digit strings with no leading zero: shorter first, then
/// lexicographic.
pub open spec fn significant_less(x: Seq<char>, y: Seq<char>) -> bool {
    x.len() < y.len() || (x.len() == y.len() && chars_less(x, y))
}

/// Version `a` comes before version `b`: first as the numbers they spell,
/// leading zeros set aside; between two spellings of the same number, the
/// shorter one (fewer leading zeros) first.
pub open spec fn version_less(a: Seq<char>, b: Seq<char>) -> bool {
    ||| significant_less(strip_zeros(a), strip_zeros(b))
    ||| strip_zeros(a) == strip_zeros(b) && a.len() < b.len()
}

/// Versions `a` and `b` spell the same number (possibly with different
/// leading zeros).
pub open spec fn version_same(a: Seq<char>, b: Seq<char>) -> bool {
    strip_zeros(a) == strip_zeros(b)
}

/// The three-way comparison of two versions.
pub open spec fn version_order(a: Seq<char>, b: Seq<char>) -> core::cmp::Ordering {
    if version_less(a, b) {
        core::cmp::Ordering::Less
    } else if version_less(b, a) {
        core::cmp::Ordering::Greater
    } else {
        core::cmp::Ordering::Equal
    }
}

pub proof fn lemma_chars_less_irreflexive(a: Seq<char>)
    ensures
        !chars_less(a, a),
    decreases a.len(),
{
    if a.len() > 0 {
        lemma_chars_less_irreflexive(a.drop_first());
    }
}

pub proof fn lemma_chars_less_transitive(a: Seq<char>, b: Seq<char>, c: Seq<char>)
    requires
        chars_less(a, b),
        chars_less(b, c),
    ensures
        chars_less(a, c),
    decreases a.len(),
{
    if a.len() > 0 && b.len() > 0 && c.len() > 0 && a[0] == b[0] && b[0] == c[0] {
        lemma_chars_less_transitive(a.drop_first(), b.drop_first(), c.drop_first());
    }
}

pub proof fn lemma_chars_less_total(a: Seq<char>, b: Seq<char>)
    ensures
        a == b || chars_less(a, b) || chars_less(b, a),
    decreases a.len(),
{
    if a.len() > 0 && b.len() > 0 && a[0] == b[0] {
        lemma_chars_less_total(a.drop_first(), b.drop_first());
        if a.drop_first() == b.drop_first() {
            assert(a =~= seq![a[0]] + a.drop_first());
            assert(b =~= seq![b[0]] + b.drop_first());
        }
    } else if a.len() == 0 && b.len() == 0 {
        assert(a =~= b);
    }
}

/// `chars_less` is a strict total order.
pub proof fn lemma_chars_less_order()
    ensures
        forall|a: Seq<char>| !#[trigger] chars_less(a, a),
        forall|a: Seq<char>, b: Seq<char>, c: Seq<char>|
            #[trigger] chars_less(a, b) && #[trigger] chars_less(b, c) ==> chars_less(a, c),
        forall|a: Seq<char>, b: Seq<char>|
            a == b || #[trigger] chars_less(a, b) || #[trigger] chars_less(b, a),
{
    assert forall|a: Seq<char>| !#[trigger] chars_less(a, a) by {
        lemma_chars_less_irreflexive(a);
    }
    assert forall|a: Seq<char>, b: Seq<char>, c: Seq<char>|
        #[trigger] chars_less(a, b) && #[trigger] chars_less(b, c) implies chars_less(a, c) by {
        lemma_chars_less_transitive(a, b, c);
    }
    assert forall|a: Seq<char>, b: Seq<char>|
        a == b || #[trigger] chars_less(a, b) || #[trigger] chars_less(b, a) by {
        lemma_chars_less_total(a, b);
    }
}

proof fn lemma_strip_zeros_split(s: Seq<char>)
    ensures
        strip_zeros(s).len() <= s.len(),
        s =~= s.take(s.len() - strip_zeros(s).len()) + strip_zeros(s),
        forall|k: int| 0 <= k < s.len() - strip_zeros(s).len() ==> #[trigger] s[k] == '0',
    decreases s.len(),
{
    if s.len() > 0 && s[0] == '0' {
        let t = s.drop_first();
        lemma_strip_zeros_split(t);
        let n = s.len() - strip_zeros(s).len();
        assert(s.take(n) =~= seq![s[0]] + t.take(n - 1));
        assert(s =~= seq![s[0]] + t);
        assert forall|k: int| 0 <= k < s.len() - strip_zeros(s).len() implies #[trigger] s[k]
            == '0' by {
            if k > 0 {
                assert(s[k] == t[k - 1]);
            }
        }
    }
}

/// Two spellings of the same number with the same length are one string.
proof fn lemma_same_number_same_length(a: Seq<char>, b: Seq<char>)
    requires
        strip_zeros(a) == strip_zeros(b),
        a.len() == b.len(),
    ensures
        a == b,
{
    lemma_strip_zeros_split(a);
    lemma_strip_zeros_split(b);
    let n = a.len() - strip_zeros(a).len();
    assert(a.take(n) =~= b.take(n)) by {
        assert forall|k: int| 0 <= k < n implies a.take(n)[k] == b.take(n)[k] by {
            assert(a[k] == '0');
            assert(b[k] == '0');
        }
    }
}

/// `version_less` is a strict total order on all strings: irreflexive,
/// transitive, and any two different strings are ordered one way.
pub proof fn lemma_version_less_order()
    ensures
        forall|a: Seq<char>| !#[trigger] version_less(a, a),
        forall|a: Seq<char>, b: Seq<char>, c: Seq<char>|
            #[trigger] version_less(a, b) && #[trigger] version_less(b, c) ==> version_less(a, c),
        forall|a: Seq<char>, b: Seq<char>|
            a == b || #[trigger] version_less(a, b) || #[trigger] version_less(b, a),
{
    lemma_chars_less_order();
    assert forall|a: Seq<char>, b: Seq<char>|
        a == b || #[trigger] version_less(a, b) || #[trigger] version_less(b, a) by {
        lemma_chars_less_total(strip_zeros(a), strip_zeros(b));
        if strip_zeros(a) == strip_zeros(b) && a.len() == b.len() {
            lemma_same_number_same_length(a, b);
        }
    }
}

/// Comparing versions is a total order: swapping the arguments reverses
/// the result, `Equal` comes exactly for the same string, and "not
/// greater" chains.
pub proof fn lemma_version_order_total(a: Seq<char>, b: Seq<char>, c: Seq<char>)
    ensures
        version_order(b, a) == (match version_order(a, b) {
            core::cmp::Ordering::Less => core::cmp::Ordering::Greater,
            core::cmp::Ordering::Equal => core::cmp::Ordering::Equal,
            core::cmp::Ordering::Greater => core::cmp::Ordering::Less,
        }),
        version_order(a, b) == core::cmp::Ordering::Equal <==> a == b,
        version_order(a, b) != core::cmp::Ordering::Greater && version_order(b, c)
            != core::cmp::Ordering::Greater ==> version_order(a, c)
            != core::cmp::Ordering::Greater,
{
    lemma_version_less_order();
}

/// Index of the first non-`'0'` character of `v` (or its length).
fn skip_zeros(v: &Vec<char>) -> (i: usize)
    ensures
        i <= v.len(),
        v@.skip(i as int) == strip_zeros(v@),
{
    let mut i: usize = 0;
    assert(v@.skip(0) =~= v@);
    while i < v.len() && v[i] == '0'
        invariant
            i <= v.len(),
            strip_zeros(v@) == strip_zeros(v@.skip(i as int)),
        decreases v.len() - i,
    {
        assert(v@.skip(i as int).drop_first() =~= v@.skip(i + 1));
        i += 1;
    }
    i
}

/// Whether `a[ai..]` comes strictly before `b[bi..]` by code point.
pub(crate) fn chars_less_from(a: &Vec<char>, ai: usize, b: &Vec<char>, bi: usize) -> (r: bool)
    requires
        ai <= a.len(),
        bi <= b.len(),
    ensures
        r == chars_less(a@.skip(ai as int), b@.skip(bi as int)),
{
    let mut i = ai;
    let mut j = bi;
    while i < a.len() && j < b.len() && a[i] == b[j]
        invariant
            ai <= i <= a.len(),
            bi <= j <= b.len(),
            i - ai == j - bi,
            chars_less(a@.skip(ai as int), b@.skip(bi as int)) == chars_less(
                a@.skip(i as int),
                b@.skip(j as int),
            ),
        decreases a.len() - i,
    {
        assert(a@.skip(i as int).drop_first() =~= a@.skip(i + 1));
        assert(b@.skip(j as int).drop_first() =~= b@.skip(j + 1));
        i += 1;
        j += 1;
    }
    if i == a.len() {
        j < b.len()
    } else if j == b.len() {
        false
    } else {
        a[i] < b[j]
    }
}

/// Whether version `a` comes strictly before version `b` in version order.
pub(crate) fn version_less_exec(a: &Vec<char>, b: &Vec<char>) -> (r: bool)
    ensures
        r == version_less(a@, b@),
{
    let i = skip_zeros(a);
    let j = skip_zeros(b);
    let la = a.len() - i;
    let lb = b.len() - j;
    if la < lb {
        true
    } else if la > lb {
        false
    } else if chars_less_from(a, i, b, j) {
        true
    } else if chars_less_from(b, j, a, i) {
        proof {
            lemma_chars_less_order();
        }
        false
    } else {
        proof {
            lemma_chars_less_total(strip_zeros(a@), strip_zeros(b@));
        }
        a.len() < b.len()
    }
}

/// Compare two version strings (strings of ASCII digits, as
/// `Filename::parse` gives them) numerically rather than lexicographically:
/// leading zeros are set aside, then a shorter digit string is the smaller
/// number and digit strings of equal length compare digit by digit. Two
/// spellings of the same number compare by length, so the one with fewer
/// leading zeros comes first and only identical strings are `Equal`. This
/// is what lets `0002` and `20240102150405`-style timestamp versions
/// coexist in one directory without either scheme breaking the other's
/// order.
pub fn compare_versions(a: &str, b: &str) -> (r: core::cmp::Ordering)
    requires
        all_digits(a@),
        all_digits(b@),
    ensures
        r == version_order(a@, b@),
{
    let va = chars_of(a);
    let vb = chars_of(b);
    if version_less_exec(&va, &vb) {
        core::cmp::Ordering::Less
    } else if version_less_exec(&vb, &va) {
        core::cmp::Ordering::Greater
    } else {
        core::cmp::Ordering::Equal
    }
}

/// The value of the ASCII digit `c`.
pub open spec fn digit_of(c: char) -> int {
    (c as int) - 48
}

/// The number that a string of ASCII digits denotes.
pub open spec fn digits_value(s: Seq<char>) -> nat
    decreases s.len(),
{
    if s.len() == 0 {
        0
    } else {
        (digits_value(s.drop_last()) * 10 + digit_of(s.last())) as nat
    }
}

/// Every character of `s` is an ASCII digit.
pub open spec fn all_digits(s: Seq<char>) -> bool {
    forall|k: int| 0 <= k < s.len() ==> is_ascii_digit(#[trigger] s[k])
}

/// Ten to the power `n`.
pub open spec fn pow10(n: nat) -> nat
    decreases n,
{
    if n == 0 {
        1
    } else {
        10 * pow10((n - 1) as nat)
    }
}

proof fn lemma_pow10_monotone(m: nat, n: nat)
    requires
        m <= n,
    ensures
        1 <= pow10(m) <= pow10(n),
    decreases n,
{
    if n > 0 {
        if m < n {
            lemma_pow10_monotone(m, (n - 1) as nat);
        } else {
            lemma_pow10_monotone((m - 1) as nat, (n - 1) as nat);
        }
    }
}

proof fn lemma_all_digits_parts(s: Seq<char>)
    requires
        all_digits(s),
        s.len() > 0,
    ensures
        all_digits(s.drop_first()),
        all_digits(s.drop_last()),
        0 <= digit_of(s[0]) <= 9,
        0 <= digit_of(s.last()) <= 9,
{
    assert forall|k: int| 0 <= k < s.drop_first().len() implies is_ascii_digit(
        #[trigger] s.drop_first()[k],
    ) by {
        assert(s.drop_first()[k] == s[k + 1]);
    }
    assert forall|k: int| 0 <= k < s.drop_last().len() implies is_ascii_digit(
        #[trigger] s.drop_last()[k],
    ) by {
        assert(s.drop_last()[k] == s[k]);
    }
    assert(is_ascii_digit(s[0]));
    assert(is_ascii_digit(s[s.len() - 1]));
}

proof fn lemma_value_bound(s: Seq<char>)
    requires
        all_digits(s),
    ensures
        digits_value(s) < pow10(s.len()),
    decreases s.len(),
{
    if s.len() > 0 {
        let t = s.drop_last();
        lemma_all_digits_parts(s);
        lemma_value_bound(t);
        let v = digits_value(t) as int;
        let p = pow10(t.len()) as int;
        let d = digit_of(s.last());
        assert(v * 10 + d < p * 10) by (nonlinear_arith)
            requires
                v < p,
                0 <= d <= 9,
        ;
    }
}

proof fn lemma_value_front(s: Seq<char>)
    requires
        all_digits(s),
        s.len() > 0,
    ensures
        digits_value(s) == digit_of(s[0]) * pow10((s.len() - 1) as nat) + digits_value(
            s.drop_first(),
        ),
    decreases s.len(),
{
    lemma_all_digits_parts(s);
    if s.len() == 1 {
        assert(s.drop_last() =~= Seq::<char>::empty());
        assert(s.drop_first() =~= Seq::<char>::empty());
        assert(s.last() == s[0]);
        assert(pow10(0) == 1);
        assert(digits_value(s.drop_last()) == 0);
        assert(0 <= digit_of(s.last()) <= 9);
        assert(digits_value(s) == digit_of(s[0]));
        assert(digit_of(s[0]) * pow10(0) == digit_of(s[0]));
    } else {
        let t = s.drop_last();
        lemma_value_front(t);
        assert(s.drop_first().drop_last() =~= t.drop_first());
        assert(t[0] == s[0]);
        assert(s.drop_first().last() == s.last());
        let d0 = digit_of(s[0]);
        let p = pow10((t.len() - 1) as nat) as int;
        let w = digits_value(t.drop_first()) as int;
        let dl = digit_of(s.last());
        assert((d0 * p + w) * 10 + dl == d0 * (10 * p) + (w * 10 + dl)) by (nonlinear_arith);
        assert(pow10((s.len() - 1) as nat) == 10 * pow10((t.len() - 1) as nat));
        assert(digits_value(s) == digits_value(t) * 10 + dl);
        assert(digits_value(s.drop_first()) == digits_value(t.drop_first()) * 10 + dl);
    }
}

proof fn lemma_value_lower(s: Seq<char>)
    requires
        all_digits(s),
        s.len() > 0,
        s[0] != '0',
    ensures
        digits_value(s) >= pow10((s.len() - 1) as nat),
{
    lemma_value_front(s);
    lemma_all_digits_parts(s);
    let d0 = digit_of(s[0]);
    let p = pow10((s.len() - 1) as nat) as int;
    assert(d0 >= 1);
    assert(d0 * p >= p) by (nonlinear_arith)
        requires
            d0 >= 1,
            p >= 0,
    ;
}

proof fn lemma_strip_zeros_value(s: Seq<char>)
    requires
        all_digits(s),
    ensures
        all_digits(strip_zeros(s)),
        digits_value(strip_zeros(s)) == digits_value(s),
        strip_zeros(s).len() > 0 ==> strip_zeros(s)[0] != '0',
    decreases s.len(),
{
    if s.len() > 0 && s[0] == '0' {
        lemma_all_digits_parts(s);
        lemma_strip_zeros_value(s.drop_first());
        lemma_value_front(s);
        assert(digit_of(s[0]) == 0);
    }
}

proof fn lemma_lex_value(x: Seq<char>, y: Seq<char>)
    requires
        all_digits(x),
        all_digits(y),
        x.len() == y.len(),
        chars_less(x, y),
    ensures
        digits_value(x) < digits_value(y),
    decreases x.len(),
{
    lemma_all_digits_parts(x);
    lemma_all_digits_parts(y);
    lemma_value_front(x);
    lemma_value_front(y);
    let p = pow10((x.len() - 1) as nat) as int;
    if x[0] == y[0] {
        lemma_lex_value(x.drop_first(), y.drop_first());
    } else {
        lemma_value_bound(x.drop_first());
        let dx = digit_of(x[0]);
        let dy = digit_of(y[0]);
        let rx = digits_value(x.drop_first()) as int;
        let ry = digits_value(y.drop_first()) as int;
        assert(dx < dy);
        assert(dx * p + rx < dy * p + ry) by (nonlinear_arith)
            requires
                dx < dy,
                0 <= rx < p,
                0 <= ry,
        ;
    }
}

proof fn lemma_significant_value(x: Seq<char>, y: Seq<char>)
    requires
        all_digits(x),
        all_digits(y),
        x.len() > 0 ==> x[0] != '0',
        y.len() > 0 ==> y[0] != '0',
        significant_less(x, y),
    ensures
        digits_value(x) < digits_value(y),
{
    if x.len() < y.len() {
        lemma_value_bound(x);
        lemma_value_lower(y);
        lemma_pow10_monotone(x.len(), (y.len() - 1) as nat);
    } else {
        lemma_lex_value(x, y);
    }
}

/// Versions are ordered as the numbers they denote: for strings of ASCII
/// digits, `version_same` is `==` on their values, a smaller value comes
/// first, and two spellings of the same value are ordered by length.
pub proof fn lemma_version_order_is_numeric(a: Seq<char>, b: Seq<char>)
    requires
        all_digits(a),
        all_digits(b),
    ensures
        version_same(a, b) <==> digits_value(a) == digits_value(b),
        digits_value(a) < digits_value(b) ==> version_order(a, b) == core::cmp::Ordering::Less,
        digits_value(b) < digits_value(a) ==> version_order(a, b)
            == core::cmp::Ordering::Greater,
        digits_value(a) == digits_value(b) ==> version_order(a, b) == (if a.len() < b.len() {
            core::cmp::Ordering::Less
        } else if b.len() < a.len() {
            core::cmp::Ordering::Greater
        } else {
            core::cmp::Ordering::Equal
        }),
{
    let x = strip_zeros(a);
    let y = strip_zeros(b);
    lemma_strip_zeros_value(a);
    lemma_strip_zeros_value(b);
    lemma_chars_less_total(x, y);
    lemma_chars_less_irreflexive(x);
    lemma_chars_less_order();
    if significant_less(x, y) {
        lemma_significant_value(x, y);
    }
    if significant_less(y, x) {
        lemma_significant_value(y, x);
    }
}

} // verus!
