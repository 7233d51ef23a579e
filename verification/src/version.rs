//! Ordering and resolution of version strings.
//!
//! A version string such as `"4.19.0-rc.1"` is split at the first `-` into a
//! base version and a pre-release suffix.  The base version's dot-separated
//! segments contribute numeric components where they parse as integers;
//! segments that do not parse are dropped.  Ordering compares the numeric
//! components position by position, padding the shorter side with zeros, and
//! only afterwards looks at pre-release suffixes or, failing that, at the
//! full strings.

use vstd::prelude::*;
use vstd::string::*;
use crate::text::{
    contains_str, find_char, first_token, lemma_lex_cmp_antisym, lemma_lex_cmp_refl,
    lemma_spec_find, lemma_spec_split_len, lex_cmp, lower_of, lowercase, parse_u32,
    reverse_ordering, spec_contains, spec_find, spec_first_token, spec_is_digit, spec_lex_cmp,
    spec_parse_u32, spec_split, spec_starts_with, split_char, starts_with, str_eq,
};

verus! {

use core::cmp::Ordering;

/// The part of `s` before the first `-`.
pub open spec fn spec_base_version(s: Seq<char>) -> Seq<char> {
    s.subrange(0, spec_find(s, '-'))
}

/// Whether `s` holds a `-`, which marks it pre-release.
pub open spec fn spec_is_prerelease(s: Seq<char>) -> bool {
    spec_find(s, '-') < s.len()
}

/// The part of `s` after the first `-`, or empty when there is none.
pub open spec fn spec_prerelease_suffix(s: Seq<char>) -> Seq<char> {
    if spec_is_prerelease(s) {
        s.subrange(spec_find(s, '-') + 1, s.len() as int)
    } else {
        Seq::empty()
    }
}

/// The numeric components contributed by the segments in `segs`: each
/// segment's first white-space-delimited token, where it parses as a `u32`.
pub open spec fn spec_numeric_parts(segs: Seq<Seq<char>>) -> Seq<u32>
    decreases segs.len(),
{
    if segs.len() == 0 {
        Seq::empty()
    } else {
        match spec_parse_u32(spec_first_token(segs[0])) {
            Some(v) => seq![v] + spec_numeric_parts(segs.drop_first()),
            None => spec_numeric_parts(segs.drop_first()),
        }
    }
}

/// The numeric components of the base version of `s`.
pub open spec fn spec_version_parts(s: Seq<char>) -> Seq<u32> {
    spec_numeric_parts(spec_split(spec_base_version(s), '.'))
}

/// Component `i` of `s`, padding past the end with zero.
pub open spec fn spec_part_or_zero(s: Seq<u32>, i: int) -> u32 {
    if 0 <= i < s.len() {
        s[i]
    } else {
        0
    }
}

/// Order of two numeric component sequences, position by position, the
/// shorter side padded with zeros.
pub open spec fn spec_cmp_parts(a: Seq<u32>, b: Seq<u32>) -> Ordering
    decreases a.len() + b.len(),
{
    if a.len() == 0 && b.len() == 0 {
        Ordering::Equal
    } else {
        let ha = spec_part_or_zero(a, 0);
        let hb = spec_part_or_zero(b, 0);
        if ha < hb {
            Ordering::Less
        } else if ha > hb {
            Ordering::Greater
        } else {
            spec_cmp_parts(
                if a.len() > 0 { a.drop_first() } else { a },
                if b.len() > 0 { b.drop_first() } else { b },
            )
        }
    }
}

/// Order of two version strings: numeric components first; on a tie a
/// pre-release sorts before the plain version, two pre-releases compare by
/// their suffixes, and two plain versions fall back to the full strings.
#[verifier::opaque]
pub open spec fn spec_compare(a: Seq<char>, b: Seq<char>) -> Ordering {
    let c = spec_cmp_parts(spec_version_parts(a), spec_version_parts(b));
    if c != Ordering::Equal {
        c
    } else {
        let pa = spec_is_prerelease(a);
        let pb = spec_is_prerelease(b);
        if pa && !pb {
            Ordering::Less
        } else if !pa && pb {
            Ordering::Greater
        } else if pa && pb {
            spec_lex_cmp(spec_prerelease_suffix(a), spec_prerelease_suffix(b))
        } else {
            spec_lex_cmp(a, b)
        }
    }
}

proof fn lemma_cmp_parts_refl(a: Seq<u32>)
    ensures
        spec_cmp_parts(a, a) == Ordering::Equal,
    decreases a.len(),
{
    if a.len() > 0 {
        lemma_cmp_parts_refl(a.drop_first());
    }
}

proof fn lemma_cmp_parts_antisym(a: Seq<u32>, b: Seq<u32>)
    ensures
        spec_cmp_parts(a, b) == reverse_ordering(spec_cmp_parts(b, a)),
    decreases a.len() + b.len(),
{
    if !(a.len() == 0 && b.len() == 0) {
        if spec_part_or_zero(a, 0) == spec_part_or_zero(b, 0) {
            lemma_cmp_parts_antisym(
                if a.len() > 0 { a.drop_first() } else { a },
                if b.len() > 0 { b.drop_first() } else { b },
            );
        }
    }
}

/// Every version string compares equal to itself, the empty string too.
pub proof fn lemma_compare_reflexive(v: Seq<char>)
    ensures
        spec_compare(v, v) == Ordering::Equal,
{
    reveal(spec_compare);
    lemma_cmp_parts_refl(spec_version_parts(v));
    lemma_lex_cmp_refl(spec_prerelease_suffix(v));
    lemma_lex_cmp_refl(v);
}

/// Comparing `a` against `b` gives the reverse of comparing `b` against `a`.
pub proof fn lemma_compare_antisymmetric(a: Seq<char>, b: Seq<char>)
    ensures
        spec_compare(a, b) == reverse_ordering(spec_compare(b, a)),
{
    reveal(spec_compare);
    lemma_cmp_parts_antisym(spec_version_parts(a), spec_version_parts(b));
    if spec_cmp_parts(spec_version_parts(a), spec_version_parts(b)) == Ordering::Equal {
        lemma_lex_cmp_antisym(spec_prerelease_suffix(a), spec_prerelease_suffix(b));
        lemma_lex_cmp_antisym(a, b);
    }
}

proof fn lemma_cmp_parts_first_diff(a: Seq<u32>, b: Seq<u32>, j: int)
    requires
        0 <= j,
        forall|k: int| 0 <= k < j ==> spec_part_or_zero(a, k) == spec_part_or_zero(b, k),
        spec_part_or_zero(a, j) != spec_part_or_zero(b, j),
    ensures
        spec_cmp_parts(a, b) == (if spec_part_or_zero(a, j) < spec_part_or_zero(b, j) {
            Ordering::Less
        } else {
            Ordering::Greater
        }),
    decreases j,
{
    assert(a.len() > 0 || b.len() > 0) by {
        if a.len() == 0 && b.len() == 0 {
            assert(spec_part_or_zero(a, j) == 0 && spec_part_or_zero(b, j) == 0);
        }
    }
    if j == 0 {
    } else {
        let ta = if a.len() > 0 { a.drop_first() } else { a };
        let tb = if b.len() > 0 { b.drop_first() } else { b };
        assert(spec_part_or_zero(a, 0) == spec_part_or_zero(b, 0));
        assert forall|k: int| 0 <= k < j - 1 implies spec_part_or_zero(ta, k) == spec_part_or_zero(
            tb,
            k,
        ) by {
            assert(spec_part_or_zero(ta, k) == spec_part_or_zero(a, k + 1));
            assert(spec_part_or_zero(tb, k) == spec_part_or_zero(b, k + 1));
        }
        assert(spec_part_or_zero(ta, j - 1) == spec_part_or_zero(a, j));
        assert(spec_part_or_zero(tb, j - 1) == spec_part_or_zero(b, j));
        lemma_cmp_parts_first_diff(ta, tb, j - 1);
    }
}

proof fn lemma_cmp_parts_all_eq(a: Seq<u32>, b: Seq<u32>)
    requires
        forall|k: int| 0 <= k ==> spec_part_or_zero(a, k) == spec_part_or_zero(b, k),
    ensures
        spec_cmp_parts(a, b) == Ordering::Equal,
    decreases a.len() + b.len(),
{
    if !(a.len() == 0 && b.len() == 0) {
        let ta = if a.len() > 0 { a.drop_first() } else { a };
        let tb = if b.len() > 0 { b.drop_first() } else { b };
        assert(spec_part_or_zero(a, 0) == spec_part_or_zero(b, 0));
        assert forall|k: int| 0 <= k implies spec_part_or_zero(ta, k) == spec_part_or_zero(
            tb,
            k,
        ) by {
            assert(spec_part_or_zero(ta, k) == spec_part_or_zero(a, k + 1));
            assert(spec_part_or_zero(tb, k) == spec_part_or_zero(b, k + 1));
        }
        lemma_cmp_parts_all_eq(ta, tb);
    }
}

proof fn lemma_numeric_parts_step(segs: Seq<Seq<char>>, i: int)
    requires
        0 <= i < segs.len(),
    ensures
        spec_numeric_parts(segs.subrange(i, segs.len() as int)) == (match spec_parse_u32(
            spec_first_token(segs[i]),
        ) {
            Some(v) => seq![v] + spec_numeric_parts(segs.subrange(i + 1, segs.len() as int)),
            None => spec_numeric_parts(segs.subrange(i + 1, segs.len() as int)),
        }),
{
    let tail = segs.subrange(i, segs.len() as int);
    assert(tail[0] == segs[i]);
    assert(tail.drop_first() =~= segs.subrange(i + 1, segs.len() as int));
}

/// Collects the numeric components of the base version of `s`.
fn version_parts(s: &str) -> (r: Vec<u32>)
    ensures
        r@ == spec_version_parts(s@),
{
    let n = s.unicode_len();
    let dash = find_char(s, '-');
    proof {
        lemma_spec_find(s@, '-');
    }
    let base = s.substring_char(0, dash);
    let segs = split_char(base, '.');
    let mut out: Vec<u32> = Vec::new();
    let mut i: usize = 0;
    assert(segs.deep_view().subrange(0, segs.deep_view().len() as int) =~= segs.deep_view());
    while i < segs.len()
        invariant
            0 <= i <= segs@.len(),
            segs.deep_view() == spec_split(spec_base_version(s@), '.'),
            out@ + spec_numeric_parts(segs.deep_view().subrange(i as int, segs.deep_view().len() as int))
                =~= spec_version_parts(s@),
        decreases segs@.len() - i,
    {
        proof {
            lemma_numeric_parts_step(segs.deep_view(), i as int);
            assert(segs.deep_view()[i as int] == segs@[i as int]@);
        }
        let seg: &String = &segs[i];
        let tok = first_token(seg.as_str());
        match parse_u32(tok) {
            Some(v) => {
                out.push(v);
            },
            None => {
            },
        }
        i = i + 1;
    }
    assert(segs.deep_view().subrange(segs.deep_view().len() as int, segs.deep_view().len() as int)
        =~= Seq::<Seq<char>>::empty());
    assert(out@ =~= spec_version_parts(s@));
    out
}

/// Compares two version strings; pre-releases sort before their stable
/// counterparts, and equal numeric components otherwise fall back to the
/// pre-release suffixes or to the full strings.
pub fn compare_versions(a: &str, b: &str) -> (r: Ordering)
    ensures
        r == spec_compare(a@, b@),
{
    proof {
        reveal(spec_compare);
    }
    let pa = version_parts(a);
    let pb = version_parts(b);
    let la = pa.len();
    let lb = pb.len();
    let max = if la > lb {
        la
    } else {
        lb
    };
    let mut i: usize = 0;
    while i < max
        invariant
            0 <= i <= max,
            la == pa@.len(),
            lb == pb@.len(),
            max == (if la > lb { la } else { lb }),
            pa@ == spec_version_parts(a@),
            pb@ == spec_version_parts(b@),
            forall|k: int| 0 <= k < i ==> spec_part_or_zero(pa@, k) == spec_part_or_zero(pb@, k),
        decreases max - i,
    {
        let va: u32 = if i < la {
            pa[i]
        } else {
            0
        };
        let vb: u32 = if i < lb {
            pb[i]
        } else {
            0
        };
        if va < vb {
            proof {
                reveal(spec_compare);
                lemma_cmp_parts_first_diff(pa@, pb@, i as int);
            }
            return Ordering::Less;
        }
        if va > vb {
            proof {
                reveal(spec_compare);
                lemma_cmp_parts_first_diff(pa@, pb@, i as int);
            }
            return Ordering::Greater;
        }
        i = i + 1;
    }
    proof {
        assert forall|k: int| 0 <= k implies spec_part_or_zero(pa@, k) == spec_part_or_zero(
            pb@,
            k,
        ) by {
            if k >= max {
                assert(spec_part_or_zero(pa@, k) == 0);
                assert(spec_part_or_zero(pb@, k) == 0);
            }
        }
        lemma_cmp_parts_all_eq(pa@, pb@);
    }
    let na = a.unicode_len();
    let nb = b.unicode_len();
    let da = find_char(a, '-');
    let db = find_char(b, '-');
    proof {
        lemma_spec_find(a@, '-');
        lemma_spec_find(b@, '-');
    }
    if da < na && db == nb {
        Ordering::Less
    } else if da == na && db < nb {
        Ordering::Greater
    } else if da < na && db < nb {
        let sa = a.substring_char(da + 1, na);
        let sb = b.substring_char(db + 1, nb);
        lex_cmp(sa, sb)
    } else {
        lex_cmp(a, b)
    }
}

/// The `"major.minor"` part of `s`, when both of its first two dot-separated
/// tokens are non-empty.
pub open spec fn spec_extract_major_minor(s: Seq<char>) -> Option<Seq<char>> {
    let parts = spec_split(s, '.');
    if parts.len() >= 2 && parts[0].len() > 0 && parts[1].len() > 0 {
        Some(parts[0] + "."@ + parts[1])
    } else {
        None
    }
}

/// Takes the first two dot-separated tokens of `version`, joined by a dot.
/// The tokens are taken verbatim, with no check that they are numeric.
pub fn extract_major_minor(version: &str) -> (r: Option<String>)
    ensures
        r.deep_view() == spec_extract_major_minor(version@),
{
    let ghost parts = spec_split(version@, '.');
    let n = version.unicode_len();
    let i = find_char(version, '.');
    proof {
        lemma_spec_find(version@, '.');
    }
    if i == n {
        assert(spec_split(version@, '.') =~= seq![version@]);
        return None;
    }
    let rest = version.substring_char(i + 1, n);
    let j = find_char(rest, '.');
    proof {
        lemma_spec_find(rest@, '.');
        assert(parts =~= seq![version@.subrange(0, i as int)] + spec_split(rest@, '.'));
        if j == rest@.len() {
            assert(spec_split(rest@, '.') =~= seq![rest@]);
        } else {
            assert(spec_split(rest@, '.') =~= seq![rest@.subrange(0, j as int)]
                + spec_split(rest@.subrange(j + 1, rest@.len() as int), '.'));
            lemma_spec_split_len(rest@.subrange(j + 1, rest@.len() as int), '.');
        }
    }
    if i == 0 || j == 0 {
        assert(parts[0].len() == 0 || parts[1].len() == 0);
        return None;
    }
    let major = version.substring_char(0, i);
    let minor = rest.substring_char(0, j);
    let mut out = major.to_owned();
    out.append(".");
    out.append(minor);
    assert(out@ == parts[0] + "."@ + parts[1]);
    Some(out)
}

/// The longest prefix of `s` made only of ASCII digits and dots.
pub open spec fn spec_extract_version_number(s: Seq<char>) -> Seq<char>
    decreases s.len(),
{
    if s.len() > 0 && (spec_is_digit(s[0]) || s[0] == '.') {
        seq![s[0]] + spec_extract_version_number(s.drop_first())
    } else {
        Seq::empty()
    }
}

proof fn lemma_extract_version_number(s: Seq<char>, i: int)
    requires
        0 <= i <= s.len(),
        forall|k: int| 0 <= k < i ==> spec_is_digit(#[trigger] s[k]) || s[k] == '.',
        i < s.len() ==> !(spec_is_digit(s[i]) || s[i] == '.'),
    ensures
        spec_extract_version_number(s) == s.subrange(0, i),
    decreases s.len(),
{
    if s.len() > 0 && (spec_is_digit(s[0]) || s[0] == '.') {
        assert(i > 0);
        lemma_extract_version_number(s.drop_first(), i - 1);
        assert(s.drop_first().subrange(0, i - 1) =~= s.subrange(1, i));
        assert(seq![s[0]] + s.subrange(1, i) =~= s.subrange(0, i));
    } else {
        assert(i == 0);
        assert(s.subrange(0, 0) =~= Seq::<char>::empty());
    }
}

/// Takes the leading run of ASCII digits and dots from `version_output`,
/// which is empty when the string starts with any other character.
pub fn extract_version_number<'a>(version_output: &'a str) -> (r: &'a str)
    ensures
        r@ == spec_extract_version_number(version_output@),
{
    let n = version_output.unicode_len();
    let mut i: usize = 0;
    while i < n
        invariant
            0 <= i <= n,
            n == version_output@.len(),
            forall|k: int|
                0 <= k < i ==> spec_is_digit(#[trigger] version_output@[k])
                    || version_output@[k] == '.',
        decreases n - i,
    {
        let c = version_output.get_char(i);
        let u = c as u32;
        let digit = 48 <= u && u <= 57;
        if !(digit || c == '.') {
            proof {
                lemma_extract_version_number(version_output@, i as int);
            }
            return version_output.substring_char(0, i);
        }
        i = i + 1;
    }
    proof {
        lemma_extract_version_number(version_output@, n as int);
        assert(version_output@.subrange(0, n as int) =~= version_output@);
    }
    version_output
}

/// Whether the lowercase form of `s` avoids every pre-release marker.
pub open spec fn spec_is_stable(s: Seq<char>) -> bool {
    let l = lower_of(s);
    !spec_contains(l, "-rc"@) && !spec_contains(l, "-alpha"@) && !spec_contains(l, "-beta"@)
        && !spec_contains(l, "-nightly"@) && !spec_contains(l, "-dev"@) && !spec_contains(
        l,
        "-snapshot"@,
    )
}

/// Whether `version` looks stable: its lowercase form holds none of the
/// pre-release markers.  The test is plain substring containment, not
/// anchored to a component boundary, so `-rcfoo` also counts as unstable.
pub fn is_stable_version(version: &str) -> (r: bool)
    ensures
        r == spec_is_stable(version@),
{
    let lower = lowercase(version);
    let l = lower.as_str();
    !contains_str(l, "-rc") && !contains_str(l, "-alpha") && !contains_str(l, "-beta")
        && !contains_str(l, "-nightly") && !contains_str(l, "-dev") && !contains_str(
        l,
        "-snapshot",
    )
}

/// Whether `x` occurs in `avail`.
pub open spec fn spec_has_version(avail: Seq<Seq<char>>, x: Seq<char>) -> bool {
    exists|i: int| 0 <= i < avail.len() && avail[i] == x
}

/// The members of `avail` that start with `pref`, in their given order.
pub open spec fn spec_filter_prefix(avail: Seq<Seq<char>>, pref: Seq<char>) -> Seq<Seq<char>>
    decreases avail.len(),
{
    if avail.len() == 0 {
        Seq::empty()
    } else if spec_starts_with(avail[0], pref) {
        seq![avail[0]] + spec_filter_prefix(avail.drop_first(), pref)
    } else {
        spec_filter_prefix(avail.drop_first(), pref)
    }
}

proof fn lemma_filter_prefix_step(avail: Seq<Seq<char>>, pref: Seq<char>, i: int)
    requires
        0 <= i < avail.len(),
    ensures
        spec_filter_prefix(avail.subrange(i, avail.len() as int), pref) == (if spec_starts_with(
            avail[i],
            pref,
        ) {
            seq![avail[i]] + spec_filter_prefix(avail.subrange(i + 1, avail.len() as int), pref)
        } else {
            spec_filter_prefix(avail.subrange(i + 1, avail.len() as int), pref)
        }),
{
    let tail = avail.subrange(i, avail.len() as int);
    assert(tail[0] == avail[i]);
    assert(tail.drop_first() =~= avail.subrange(i + 1, avail.len() as int));
}

/// `x` placed into the sorted sequence `s`, after every member that does not
/// compare greater than it.
pub open spec fn spec_insert_version(s: Seq<Seq<char>>, x: Seq<char>) -> Seq<Seq<char>>
    decreases s.len(),
{
    if s.len() > 0 && spec_compare(s.last(), x) == Ordering::Greater {
        spec_insert_version(s.drop_last(), x).push(s.last())
    } else {
        s.push(x)
    }
}

/// `s` ordered by `spec_compare`, by stable insertion from the left.
pub open spec fn spec_sort_versions(s: Seq<Seq<char>>) -> Seq<Seq<char>>
    decreases s.len(),
{
    if s.len() == 0 {
        s
    } else {
        spec_insert_version(spec_sort_versions(s.drop_last()), s.last())
    }
}

proof fn lemma_insert_version_at(s: Seq<Seq<char>>, x: Seq<char>, j: int)
    requires
        0 <= j <= s.len(),
        forall|k: int| j <= k < s.len() ==> spec_compare(#[trigger] s[k], x) == Ordering::Greater,
        j > 0 ==> spec_compare(s[j - 1], x) != Ordering::Greater,
    ensures
        spec_insert_version(s, x) == s.subrange(0, j) + seq![x] + s.subrange(j, s.len() as int),
    decreases s.len() - j,
{
    if j == s.len() {
        if s.len() > 0 {
            assert(spec_compare(s.last(), x) != Ordering::Greater);
        }
        assert(s.subrange(0, j) =~= s);
        assert(s.subrange(j, s.len() as int) =~= Seq::<Seq<char>>::empty());
        assert(spec_insert_version(s, x) =~= s.subrange(0, j) + seq![x] + s.subrange(
            j,
            s.len() as int,
        ));
    } else {
        assert(spec_compare(s.last(), x) == Ordering::Greater);
        let d = s.drop_last();
        assert forall|k: int|
            j <= k < d.len() implies spec_compare(#[trigger] d[k], x) == Ordering::Greater by {
            assert(d[k] == s[k]);
        }
        if j > 0 {
            assert(d[j - 1] == s[j - 1]);
        }
        lemma_insert_version_at(d, x, j);
        assert(d.subrange(0, j) =~= s.subrange(0, j));
        assert(d.subrange(j, d.len() as int) =~= s.subrange(j, s.len() as int - 1));
        assert((d.subrange(0, j) + seq![x] + d.subrange(j, d.len() as int)).push(s.last())
            =~= s.subrange(0, j) + seq![x] + s.subrange(j, s.len() as int));
    }
}

/// Helper: whether an ordering is `Greater`.
fn is_greater(o: Ordering) -> (b: bool)
    ensures
        b == (o == Ordering::Greater),
{
    matches!(o, Ordering::Greater)
}

/// Places `x` into the sorted vector `out`, after every member that does not
/// compare greater than it.
fn insert_version_sorted(out: &mut Vec<String>, x: String)
    ensures
        final(out).deep_view() == spec_insert_version(old(out).deep_view(), x@),
{
    let mut j: usize = out.len();
    while j > 0 && is_greater(compare_versions(out[j - 1].as_str(), x.as_str()))
        invariant
            0 <= j <= out@.len(),
            forall|k: int|
                j <= k < out.deep_view().len() ==> spec_compare(
                    #[trigger] out.deep_view()[k],
                    x@,
                ) == Ordering::Greater,
        decreases j,
    {
        proof {
            assert(out.deep_view()[j - 1] == out@[j - 1]@);
        }
        j = j - 1;
    }
    proof {
        if j > 0 {
            assert(out.deep_view()[j - 1] == out@[j - 1]@);
        }
        lemma_insert_version_at(out.deep_view(), x@, j as int);
    }
    let ghost prev = *out;
    out.insert(j, x);
    proof {
        assert(out.deep_view() =~= prev.deep_view().subrange(0, j as int) + seq![x@]
            + prev.deep_view().subrange(j as int, prev.deep_view().len() as int)) by {
            assert(out@ == prev@.insert(j as int, x));
        }
    }
}

/// Sorts version strings ascending under `compare_versions`, keeping the
/// given order of versions that compare equal.
pub fn sort_versions(versions: Vec<String>) -> (r: Vec<String>)
    ensures
        r.deep_view() == spec_sort_versions(versions.deep_view()),
{
    let n = versions.len();
    let mut out: Vec<String> = Vec::new();
    let mut i: usize = 0;
    assert(versions.deep_view().subrange(0, 0) =~= Seq::<Seq<char>>::empty());
    while i < n
        invariant
            0 <= i <= n,
            n == versions@.len(),
            out.deep_view() == spec_sort_versions(versions.deep_view().subrange(0, i as int)),
        decreases n - i,
    {
        let x = versions[i].clone();
        proof {
            assert(x@ == versions.deep_view()[i as int]);
            let p = versions.deep_view().subrange(0, i as int);
            let q = versions.deep_view().subrange(0, i + 1 as int);
            assert(q.drop_last() =~= p);
            assert(q.last() == versions.deep_view()[i as int]);
        }
        insert_version_sorted(&mut out, x);
        i = i + 1;
    }
    assert(versions.deep_view().subrange(0, n as int) =~= versions.deep_view());
    out
}

/// The version `find_matching_version` yields: the requested one verbatim
/// when present; otherwise the last, under `spec_compare`, of the members
/// that start with the requested `"major.minor"`.
pub open spec fn spec_find_matching_version(req: Seq<char>, avail: Seq<Seq<char>>) -> Option<
    Seq<char>,
> {
    if spec_has_version(avail, req) {
        Some(req)
    } else {
        let parts = spec_split(req, '.');
        if parts.len() < 2 {
            None
        } else {
            let pref = parts[0] + "."@ + parts[1];
            let cands = spec_filter_prefix(avail, pref);
            if cands.len() == 0 {
                None
            } else {
                Some(spec_sort_versions(cands).last())
            }
        }
    }
}

/// Looks `server_version` up in `available_versions`: an exact occurrence
/// wins; otherwise the candidates sharing its `"major.minor"` prefix are
/// sorted and the greatest is taken.
pub fn find_matching_version(server_version: &str, available_versions: &[String]) -> (r: Option<
    String,
>)
    ensures
        r.deep_view() == spec_find_matching_version(server_version@, available_versions.deep_view()),
        r matches Some(v) ==> (v@ == server_version@ || available_versions.deep_view().contains(
            v@,
        )),
{
    let ghost avail = available_versions.deep_view();
    let n = available_versions.len();
    let mut i: usize = 0;
    while i < n
        invariant
            0 <= i <= n,
            n == avail.len(),
            avail == available_versions.deep_view(),
            forall|k: int| 0 <= k < i ==> avail[k] != server_version@,
        decreases n - i,
    {
        let v: &String = &available_versions[i];
        if str_eq(v.as_str(), server_version) {
            assert(avail[i as int] == server_version@);
            assert(spec_has_version(avail, server_version@));
            return Some(server_version.to_owned());
        }
        assert(available_versions@[i as int]@ == avail[i as int]);
        i = i + 1;
    }
    assert(!spec_has_version(avail, server_version@));
    let parts = split_char(server_version, '.');
    if parts.len() < 2 {
        return None;
    }
    let mut pref = parts[0].clone();
    pref.append(".");
    pref.append(parts[1].as_str());
    proof {
        assert(parts.deep_view()[0] == parts@[0]@);
        assert(parts.deep_view()[1] == parts@[1]@);
    }
    let mut cands: Vec<String> = Vec::new();
    let mut i2: usize = 0;
    assert(avail.subrange(0, avail.len() as int) =~= avail);
    assert(cands.deep_view() + spec_filter_prefix(avail.subrange(0, avail.len() as int), pref@)
        =~= spec_filter_prefix(avail, pref@)) by {
        assert(cands.deep_view() =~= Seq::<Seq<char>>::empty());
    }
    while i2 < n
        invariant
            0 <= i2 <= n,
            n == avail.len(),
            avail == available_versions.deep_view(),
            cands.deep_view() + spec_filter_prefix(
                avail.subrange(i2 as int, avail.len() as int),
                pref@,
            ) =~= spec_filter_prefix(avail, pref@),
        decreases n - i2,
    {
        proof {
            lemma_filter_prefix_step(avail, pref@, i2 as int);
            assert(available_versions@[i2 as int]@ == avail[i2 as int]);
        }
        let v: &String = &available_versions[i2];
        if starts_with(v.as_str(), pref.as_str()) {
            cands.push(v.clone());
        }
        i2 = i2 + 1;
    }
    proof {
        assert(avail.subrange(n as int, avail.len() as int) =~= Seq::<Seq<char>>::empty());
        assert(cands.deep_view() =~= spec_filter_prefix(avail, pref@));
    }
    if cands.len() == 0 {
        return None;
    }
    let sorted = sort_versions(cands);
    assert(sorted.deep_view().len() > 0) by {
        lemma_sort_versions_len(cands.deep_view());
    }
    let last = sorted[sorted.len() - 1].clone();
    assert(last@ == sorted.deep_view().last());
    proof {
        broadcast use vstd::seq_lib::group_to_multiset_ensures;

        let sd = sorted.deep_view();
        let cd = cands.deep_view();
        lemma_sort_versions_permutes(cd);
        assert(sd.contains(last@)) by {
            assert(sd[sd.len() - 1] == last@);
        }
        assert(cd.to_multiset().count(last@) > 0);
        assert(cd.contains(last@));
        lemma_filter_prefix_subset(avail, pref@);
        assert(avail.contains(last@));
    }
    Some(last)
}

/// The number of dot-separated components of `s`.
pub open spec fn spec_component_count(s: Seq<char>) -> nat {
    spec_split(s, '.').len()
}

/// Whether `pattern` names at least a major and a minor component.
pub fn has_major_minor(pattern: &str) -> (r: bool)
    ensures
        r == (spec_component_count(pattern@) >= 2),
{
    let parts = split_char(pattern, '.');
    proof {
        assert(parts.deep_view().len() == parts@.len());
    }
    parts.len() >= 2
}

/// The members of `versions` that start with `pattern`, in their given order.
pub fn filter_versions_by_prefix(versions: &[String], pattern: &str) -> (r: Vec<String>)
    ensures
        r.deep_view() == spec_filter_prefix(versions.deep_view(), pattern@),
{
    let ghost avail = versions.deep_view();
    let n = versions.len();
    let mut out: Vec<String> = Vec::new();
    let mut i: usize = 0;
    assert(out.deep_view() + spec_filter_prefix(avail.subrange(0, avail.len() as int), pattern@)
        =~= spec_filter_prefix(avail, pattern@)) by {
        assert(avail.subrange(0, avail.len() as int) =~= avail);
        assert(out.deep_view() =~= Seq::<Seq<char>>::empty());
    }
    while i < n
        invariant
            0 <= i <= n,
            n == avail.len(),
            avail == versions.deep_view(),
            out.deep_view() + spec_filter_prefix(
                avail.subrange(i as int, avail.len() as int),
                pattern@,
            ) =~= spec_filter_prefix(avail, pattern@),
        decreases n - i,
    {
        proof {
            lemma_filter_prefix_step(avail, pattern@, i as int);
            assert(versions@[i as int]@ == avail[i as int]);
        }
        let v: &String = &versions[i];
        if starts_with(v.as_str(), pattern) {
            out.push(v.clone());
        }
        i = i + 1;
    }
    proof {
        assert(avail.subrange(n as int, avail.len() as int) =~= Seq::<Seq<char>>::empty());
        assert(out.deep_view() =~= spec_filter_prefix(avail, pattern@));
    }
    out
}

/// The complaint made when a version pattern lacks a minor component.
pub fn version_format_error() -> (r: String)
    ensures
        r@ == "Version must include at least major and minor version (e.g., 4.19)"@,
{
    String::from_str("Version must include at least major and minor version (e.g., 4.19)")
}

/// The complaint made when nothing matches `requested`.
pub fn no_match_error(requested: &str) -> (r: String)
    ensures
        r@ == "No versions found matching "@ + requested@,
{
    let mut s = String::from_str("No versions found matching ");
    s.append(requested);
    s
}

/// Resolves `input_version` against `available_versions`: a version with a
/// patch component is taken as it is; a bare `"major.minor"` resolves to the
/// best match among the available versions; fewer than two components is an
/// error.
pub fn resolve_version(input_version: &str, available_versions: &[String]) -> (r: Result<
    String,
    String,
>)
    ensures
        spec_component_count(input_version@) < 2 ==> (r matches Err(e) && e@
            == "Version must include at least major and minor version (e.g., 4.19)"@),
        spec_component_count(input_version@) >= 3 ==> (r matches Ok(v) && v@ == input_version@),
        spec_component_count(input_version@) == 2 ==> (match spec_find_matching_version(
            input_version@,
            available_versions.deep_view(),
        ) {
            Some(m) => r matches Ok(v) && v@ == m,
            None => (r matches Err(e) && e@ == "No versions found matching "@ + input_version@),
        }),
{
    let parts = split_char(input_version, '.');
    proof {
        assert(parts.deep_view().len() == parts@.len());
    }
    if parts.len() < 2 {
        return Err(version_format_error());
    }
    if parts.len() >= 3 {
        return Ok(input_version.to_owned());
    }
    match find_matching_version(input_version, available_versions) {
        Some(latest_patch) => Ok(latest_patch),
        None => Err(no_match_error(input_version)),
    }
}

/// The members of `versions` whose lowercase form has no pre-release marker.
pub open spec fn spec_filter_stable(versions: Seq<Seq<char>>) -> Seq<Seq<char>>
    decreases versions.len(),
{
    if versions.len() == 0 {
        Seq::empty()
    } else if spec_is_stable(versions[0]) {
        seq![versions[0]] + spec_filter_stable(versions.drop_first())
    } else {
        spec_filter_stable(versions.drop_first())
    }
}

proof fn lemma_filter_stable_step(versions: Seq<Seq<char>>, i: int)
    requires
        0 <= i < versions.len(),
    ensures
        spec_filter_stable(versions.subrange(i, versions.len() as int)) == (if spec_is_stable(
            versions[i],
        ) {
            seq![versions[i]] + spec_filter_stable(versions.subrange(i + 1, versions.len() as int))
        } else {
            spec_filter_stable(versions.subrange(i + 1, versions.len() as int))
        }),
{
    let tail = versions.subrange(i, versions.len() as int);
    assert(tail[0] == versions[i]);
    assert(tail.drop_first() =~= versions.subrange(i + 1, versions.len() as int));
}

/// Takes the last stable version of `versions`, in their given order, or
/// complains when every version is a pre-release.
pub fn get_latest_version(versions: &[String]) -> (r: Result<String, String>)
    ensures
        (match r {
            Ok(v) => spec_filter_stable(versions.deep_view()).len() > 0 && v@
                == spec_filter_stable(versions.deep_view()).last(),
            Err(e) => spec_filter_stable(versions.deep_view()).len() == 0 && e@
                == "No stable versions found"@,
        }),
{
    let ghost avail = versions.deep_view();
    let n = versions.len();
    let mut stable: Vec<String> = Vec::new();
    let mut i: usize = 0;
    assert(stable.deep_view() + spec_filter_stable(avail.subrange(0, avail.len() as int))
        =~= spec_filter_stable(avail)) by {
        assert(avail.subrange(0, avail.len() as int) =~= avail);
        assert(stable.deep_view() =~= Seq::<Seq<char>>::empty());
    }
    while i < n
        invariant
            0 <= i <= n,
            n == avail.len(),
            avail == versions.deep_view(),
            stable.deep_view() + spec_filter_stable(avail.subrange(i as int, avail.len() as int))
                =~= spec_filter_stable(avail),
        decreases n - i,
    {
        proof {
            lemma_filter_stable_step(avail, i as int);
            assert(versions@[i as int]@ == avail[i as int]);
        }
        let v: &String = &versions[i];
        if is_stable_version(v.as_str()) {
            stable.push(v.clone());
        }
        i = i + 1;
    }
    proof {
        assert(avail.subrange(n as int, avail.len() as int) =~= Seq::<Seq<char>>::empty());
        assert(stable.deep_view() =~= spec_filter_stable(avail));
    }
    if stable.len() == 0 {
        Err(String::from_str("No stable versions found"))
    } else {
        let last = stable[stable.len() - 1].clone();
        assert(last@ == stable.deep_view().last());
        Ok(last)
    }
}

/// The version named by a binary's file name: what follows `"oc-"`, or
/// `"unknown"` for any other name.
pub open spec fn spec_version_from_file_name(name: Seq<char>) -> Seq<char> {
    if spec_starts_with(name, "oc-"@) {
        name.subrange("oc-"@.len() as int, name.len() as int)
    } else {
        "unknown"@
    }
}

/// Takes the version out of a binary file name of the form `"oc-{version}"`.
pub fn version_from_file_name(name: &str) -> (r: String)
    ensures
        r@ == spec_version_from_file_name(name@),
{
    proof {
        reveal_strlit("oc-");
    }
    if starts_with(name, "oc-") {
        let n = name.unicode_len();
        let rest = name.substring_char(3, n);
        rest.to_owned()
    } else {
        String::from_str("unknown")
    }
}

#[verifier::external_type_specification]
#[verifier::external_body]
pub struct ExPathBuf(std::path::PathBuf);

/// Relies on Path::file_name and OsStr::to_str: the final component of the
/// path, when it exists and is valid Unicode.
#[verifier::external_body]
fn path_file_name(path: &std::path::PathBuf) -> (r: Option<String>)
{
    path.file_name().and_then(|name| name.to_str()).map(|name| name.to_owned())
}

/// Takes the version out of a binary path whose file name has the form
/// `"oc-{version}"`; any other path yields `"unknown"`.
pub fn extract_version_from_path(path: &std::path::PathBuf) -> (r: String)
    ensures
        exists|name: Seq<char>| r@ == spec_version_from_file_name(name),
{
    match path_file_name(path) {
        Some(name) => {
            let v = version_from_file_name(name.as_str());
            assert(v@ == spec_version_from_file_name(name@));
            v
        },
        None => {
            proof {
                reveal_strlit("oc-");
                reveal_strlit("unknown");
                assert(!spec_starts_with(Seq::<char>::empty(), "oc-"@));
            }
            let r = String::from_str("unknown");
            assert(r@ == spec_version_from_file_name(Seq::<char>::empty()));
            r
        },
    }
}

proof fn lemma_insert_version_len(s: Seq<Seq<char>>, x: Seq<char>)
    ensures
        spec_insert_version(s, x).len() == s.len() + 1,
    decreases s.len(),
{
    if s.len() > 0 && spec_compare(s.last(), x) == Ordering::Greater {
        lemma_insert_version_len(s.drop_last(), x);
    }
}

proof fn lemma_insert_version_multiset(s: Seq<Seq<char>>, x: Seq<char>)
    ensures
        spec_insert_version(s, x).to_multiset() =~= s.to_multiset().insert(x),
    decreases s.len(),
{
    broadcast use vstd::seq_lib::group_to_multiset_ensures;

    if s.len() > 0 && spec_compare(s.last(), x) == Ordering::Greater {
        lemma_insert_version_multiset(s.drop_last(), x);
        assert(s =~= s.drop_last().push(s.last()));
        assert(spec_insert_version(s, x).to_multiset()
            =~= spec_insert_version(s.drop_last(), x).to_multiset().insert(s.last()));
        assert(s.to_multiset() =~= s.drop_last().to_multiset().insert(s.last()));
    }
}

/// Sorting keeps exactly the given versions, with their multiplicities.
pub proof fn lemma_sort_versions_permutes(s: Seq<Seq<char>>)
    ensures
        spec_sort_versions(s).to_multiset() =~= s.to_multiset(),
    decreases s.len(),
{
    broadcast use vstd::seq_lib::group_to_multiset_ensures;

    if s.len() > 0 {
        lemma_sort_versions_permutes(s.drop_last());
        lemma_insert_version_multiset(spec_sort_versions(s.drop_last()), s.last());
        assert(s =~= s.drop_last().push(s.last()));
        assert(s.to_multiset() =~= s.drop_last().to_multiset().insert(s.last()));
    }
}

/// Whether no member of `s` compares greater than its successor.
pub open spec fn spec_non_descending(s: Seq<Seq<char>>) -> bool {
    forall|k: int|
        0 <= k && k + 1 < s.len() ==> spec_compare(#[trigger] s[k], s[k + 1]) != Ordering::Greater
}

#[verifier::rlimit(100)]
#[verifier::spinoff_prover]
proof fn lemma_insert_version_keeps_order(s: Seq<Seq<char>>, x: Seq<char>)
    requires
        spec_non_descending(s),
    ensures
        spec_non_descending(spec_insert_version(s, x)),
    decreases s.len(),
{
    let r = spec_insert_version(s, x);
    lemma_insert_version_len(s, x);
    if s.len() > 0 && spec_compare(s.last(), x) == Ordering::Greater {
        let d = s.drop_last();
        assert(spec_non_descending(d)) by {
            assert forall|k: int|
                0 <= k && k + 1 < d.len() implies spec_compare(#[trigger] d[k], d[k + 1])
                != Ordering::Greater by {
                assert(d[k] == s[k] && d[k + 1] == s[k + 1]);
            }
        }
        lemma_insert_version_keeps_order(d, x);
        let r0 = spec_insert_version(d, x);
        lemma_insert_version_len(d, x);
        // The element placed last is either `x` or the last member of `d`;
        // either way it does not compare greater than the old last member.
        let bridge_ok = spec_compare(r0.last(), s.last()) != Ordering::Greater;
        assert(bridge_ok) by {
            if d.len() > 0 && spec_compare(d.last(), x) == Ordering::Greater {
                assert(r0.last() == d.last());
                assert(d.last() == s[s.len() - 2]);
                assert(spec_compare(s[s.len() - 2], s[s.len() - 1]) != Ordering::Greater);
            } else {
                assert(r0 == d.push(x));
                assert(r0.last() == x);
                lemma_compare_antisymmetric(x, s.last());
                assert(spec_compare(x, s.last()) == Ordering::Less);
            }
        }
        assert forall|k: int|
            0 <= k && k + 1 < r.len() implies spec_compare(#[trigger] r[k], r[k + 1])
            != Ordering::Greater by {
            assert(r == r0.push(s.last()));
            if k + 1 < r0.len() {
                assert(r[k] == r0[k] && r[k + 1] == r0[k + 1]);
            } else {
                assert(r[k] == r0.last() && r[k + 1] == s.last());
            }
        }
    } else {
        assert(r == s.push(x));
        assert forall|k: int|
            0 <= k && k + 1 < r.len() implies spec_compare(#[trigger] r[k], r[k + 1])
            != Ordering::Greater by {
            if k + 1 < s.len() {
                assert(r[k] == s[k] && r[k + 1] == s[k + 1]);
            } else {
                assert(r[k] == s.last() && r[k + 1] == x);
            }
        }
    }
}

/// Sorting yields an order in which no version compares greater than its
/// successor; with the exact occurrence of equals kept stable, this is what
/// "ascending under `compare_versions`" promises.
pub proof fn lemma_sort_versions_ordered(s: Seq<Seq<char>>)
    ensures
        spec_non_descending(spec_sort_versions(s)),
    decreases s.len(),
{
    if s.len() == 0 {
        assert(spec_non_descending(spec_sort_versions(s)));
    } else {
        lemma_sort_versions_ordered(s.drop_last());
        lemma_insert_version_keeps_order(spec_sort_versions(s.drop_last()), s.last());
    }
}

proof fn lemma_filter_prefix_subset(avail: Seq<Seq<char>>, pref: Seq<char>)
    ensures
        forall|y: Seq<char>|
            spec_filter_prefix(avail, pref).contains(y) ==> avail.contains(y),
    decreases avail.len(),
{
    if avail.len() > 0 {
        lemma_filter_prefix_subset(avail.drop_first(), pref);
        assert forall|y: Seq<char>|
            spec_filter_prefix(avail, pref).contains(y) implies avail.contains(y) by {
            let f = spec_filter_prefix(avail, pref);
            let ft = spec_filter_prefix(avail.drop_first(), pref);
            if spec_starts_with(avail[0], pref) {
                let k = choose|k: int| 0 <= k < f.len() && f[k] == y;
                if k == 0 {
                    assert(avail[0] == y);
                } else {
                    assert(ft[k - 1] == y);
                    assert(ft.contains(y));
                    assert(avail.drop_first().contains(y));
                    let m = choose|m: int|
                        0 <= m < avail.drop_first().len() && avail.drop_first()[m] == y;
                    assert(avail.drop_first()[m] == avail[m + 1]);
                }
            } else {
                assert(ft.contains(y));
                assert(avail.drop_first().contains(y));
                let m = choose|m: int|
                    0 <= m < avail.drop_first().len() && avail.drop_first()[m] == y;
                assert(avail.drop_first()[m] == avail[m + 1]);
            }
        }
    }
}

proof fn lemma_sort_versions_len(s: Seq<Seq<char>>)
    ensures
        spec_sort_versions(s).len() == s.len(),
    decreases s.len(),
{
    if s.len() > 0 {
        lemma_sort_versions_len(s.drop_last());
        lemma_insert_version_len(spec_sort_versions(s.drop_last()), s.last());
    }
}

} // verus!
