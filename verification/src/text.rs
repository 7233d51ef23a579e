//! Verified building blocks for working with character sequences:
//! searching, slicing, comparing, and numeric conversion.

use vstd::prelude::*;
use vstd::string::*;

verus! {

/// Index of the first occurrence of `c` in `s`, or `s.len()` if absent.
pub open spec fn spec_find(s: Seq<char>, c: char) -> int
    decreases s.len(),
{
    if s.len() == 0 {
        0
    } else if s[0] == c {
        0
    } else {
        1 + spec_find(s.drop_first(), c)
    }
}

pub proof fn lemma_spec_find(s: Seq<char>, c: char)
    ensures
        0 <= spec_find(s, c) <= s.len(),
        spec_find(s, c) < s.len() ==> s[spec_find(s, c)] == c,
        forall|k: int| 0 <= k < spec_find(s, c) ==> s[k] != c,
    decreases s.len(),
{
    if s.len() > 0 && s[0] != c {
        lemma_spec_find(s.drop_first(), c);
        assert forall|k: int| 0 <= k < spec_find(s, c) implies s[k] != c by {
            if k > 0 {
                assert(s.drop_first()[k - 1] == s[k]);
            }
        }
    }
}

/// Finds the first occurrence of `c`, returning `s@.len()` when `c` is absent.
pub fn find_char(s: &str, c: char) -> (r: usize)
    ensures
        r == spec_find(s@, c),
{
    proof {
        lemma_spec_find(s@, c);
    }
    let n = s.unicode_len();
    let mut i: usize = 0;
    while i < n
        invariant
            0 <= i <= n,
            n == s@.len(),
            forall|k: int| 0 <= k < i ==> s@[k] != c,
        decreases n - i,
    {
        if s.get_char(i) == c {
            proof {
                lemma_spec_find(s@, c);
            }
            return i;
        }
        i = i + 1;
    }
    proof {
        lemma_spec_find(s@, c);
    }
    n
}

/// Whether `p` is a prefix of `s`.
pub open spec fn spec_starts_with(s: Seq<char>, p: Seq<char>) -> bool {
    p.len() <= s.len() && s.subrange(0, p.len() as int) == p
}

/// Whether `s` starts with `p`.
pub fn starts_with(s: &str, p: &str) -> (r: bool)
    ensures
        r == spec_starts_with(s@, p@),
{
    let n = s.unicode_len();
    let m = p.unicode_len();
    if m > n {
        assert(!spec_starts_with(s@, p@));
        return false;
    }
    let mut i: usize = 0;
    while i < m
        invariant
            0 <= i <= m <= n,
            n == s@.len(),
            m == p@.len(),
            forall|k: int| 0 <= k < i ==> s@[k] == p@[k],
        decreases m - i,
    {
        if s.get_char(i) != p.get_char(i) {
            assert(s@.subrange(0, p@.len() as int)[i as int] != p@[i as int]);
            return false;
        }
        i = i + 1;
    }
    assert(s@.subrange(0, p@.len() as int) =~= p@);
    true
}

/// Whether `needle` occurs in `hay` starting at position `i`.
pub open spec fn spec_matches_at(hay: Seq<char>, needle: Seq<char>, i: int) -> bool {
    0 <= i && i + needle.len() <= hay.len() && hay.subrange(i, i + needle.len()) == needle
}

/// Whether `needle` occurs anywhere in `hay`.
pub open spec fn spec_contains(hay: Seq<char>, needle: Seq<char>) -> bool {
    exists|i: int| spec_matches_at(hay, needle, i)
}

/// Whether `needle` occurs as a contiguous substring of `hay`.
pub fn contains_str(hay: &str, needle: &str) -> (r: bool)
    ensures
        r == spec_contains(hay@, needle@),
{
    let n = hay.unicode_len();
    let m = needle.unicode_len();
    if m > n {
        return false;
    }
    if m == 0 {
        assert(spec_matches_at(hay@, needle@, 0)) by {
            assert(hay@.subrange(0, 0) =~= needle@);
        }
        return true;
    }
    let mut i: usize = 0;
    while i < n - m + 1
        invariant
            0 <= i <= n - m + 1,
            1 <= m <= n,
            n == hay@.len(),
            m == needle@.len(),
            forall|k: int| 0 <= k < i ==> !spec_matches_at(hay@, needle@, k),
        decreases n - m + 1 - i,
    {
        let sub = hay.substring_char(i, i + m);
        if str_eq(sub, needle) {
            assert(spec_matches_at(hay@, needle@, i as int));
            return true;
        }
        assert(!spec_matches_at(hay@, needle@, i as int));
        i = i + 1;
    }
    assert(forall|k: int| spec_matches_at(hay@, needle@, k) ==> 0 <= k <= n - m);
    false
}

/// Whether two strings hold the same characters.
pub fn str_eq(a: &str, b: &str) -> (r: bool)
    ensures
        r == (a@ == b@),
{
    let n = a.unicode_len();
    let m = b.unicode_len();
    if n != m {
        return false;
    }
    let mut i: usize = 0;
    while i < n
        invariant
            0 <= i <= n,
            n == a@.len(),
            n == b@.len(),
            forall|k: int| 0 <= k < i ==> a@[k] == b@[k],
        decreases n - i,
    {
        if a.get_char(i) != b.get_char(i) {
            return false;
        }
        i = i + 1;
    }
    assert(a@ =~= b@);
    true
}

/// Order of two character sequences, by code point, position by position.
pub open spec fn spec_lex_cmp(a: Seq<char>, b: Seq<char>) -> core::cmp::Ordering
    decreases a.len(),
{
    if a.len() == 0 && b.len() == 0 {
        core::cmp::Ordering::Equal
    } else if a.len() == 0 {
        core::cmp::Ordering::Less
    } else if b.len() == 0 {
        core::cmp::Ordering::Greater
    } else if (a[0] as u32) < (b[0] as u32) {
        core::cmp::Ordering::Less
    } else if (a[0] as u32) > (b[0] as u32) {
        core::cmp::Ordering::Greater
    } else {
        spec_lex_cmp(a.drop_first(), b.drop_first())
    }
}

proof fn lemma_lex_cmp_step(a: Seq<char>, b: Seq<char>, i: int)
    requires
        0 <= i <= a.len(),
        i <= b.len(),
        forall|k: int| 0 <= k < i ==> a[k] == b[k],
    ensures
        spec_lex_cmp(a, b) == spec_lex_cmp(a.subrange(i, a.len() as int), b.subrange(i, b.len() as int)),
    decreases i,
{
    if i == 0 {
        assert(a.subrange(0, a.len() as int) =~= a);
        assert(b.subrange(0, b.len() as int) =~= b);
    } else {
        assert(a.len() > 0 && b.len() > 0);
        assert(a[0] == b[0]);
        lemma_lex_cmp_step(a.drop_first(), b.drop_first(), i - 1);
        assert(a.drop_first().subrange(i - 1, a.drop_first().len() as int)
            =~= a.subrange(i, a.len() as int));
        assert(b.drop_first().subrange(i - 1, b.drop_first().len() as int)
            =~= b.subrange(i, b.len() as int));
    }
}

/// Compares two strings character by character, by code point.
pub fn lex_cmp(a: &str, b: &str) -> (r: core::cmp::Ordering)
    ensures
        r == spec_lex_cmp(a@, b@),
{
    let n = a.unicode_len();
    let m = b.unicode_len();
    let mut i: usize = 0;
    loop
        invariant
            0 <= i <= n,
            i <= m,
            n == a@.len(),
            m == b@.len(),
            forall|k: int| 0 <= k < i ==> a@[k] == b@[k],
        decreases n - i,
    {
        proof {
            lemma_lex_cmp_step(a@, b@, i as int);
        }
        if i >= n || i >= m {
            if n == m {
                assert(a@.subrange(i as int, n as int).len() == 0);
                assert(b@.subrange(i as int, m as int).len() == 0);
                return core::cmp::Ordering::Equal;
            } else if n < m {
                assert(i == n);
                assert(a@.subrange(i as int, n as int).len() == 0);
                assert(b@.subrange(i as int, m as int).len() > 0);
                return core::cmp::Ordering::Less;
            } else {
                assert(i == m);
                assert(b@.subrange(i as int, m as int).len() == 0);
                assert(a@.subrange(i as int, n as int).len() > 0);
                return core::cmp::Ordering::Greater;
            }
        }
        let ca = a.get_char(i);
        let cb = b.get_char(i);
        assert(a@.subrange(i as int, n as int)[0] == a@[i as int]);
        assert(b@.subrange(i as int, m as int)[0] == b@[i as int]);
        if (ca as u32) < (cb as u32) {
            return core::cmp::Ordering::Less;
        }
        if (ca as u32) > (cb as u32) {
            return core::cmp::Ordering::Greater;
        }
        assert(ca == cb) by {
            vstd::utf8::char_u32_cast(ca, ca as u32);
            vstd::utf8::char_u32_cast(cb, cb as u32);
        }
        i = i + 1;
    }
}

/// Reflexivity: a sequence compares equal to itself.
pub proof fn lemma_lex_cmp_refl(a: Seq<char>)
    ensures
        spec_lex_cmp(a, a) == core::cmp::Ordering::Equal,
    decreases a.len(),
{
    if a.len() > 0 {
        lemma_lex_cmp_refl(a.drop_first());
    }
}

/// The order of two sequences, compared one way, is the reverse of the other way.
pub proof fn lemma_lex_cmp_antisym(a: Seq<char>, b: Seq<char>)
    ensures
        spec_lex_cmp(a, b) == reverse_ordering(spec_lex_cmp(b, a)),
    decreases a.len(),
{
    if a.len() > 0 && b.len() > 0 {
        if a[0] == b[0] {
            lemma_lex_cmp_antisym(a.drop_first(), b.drop_first());
        } else {
            vstd::utf8::char_u32_cast(a[0], a[0] as u32);
            vstd::utf8::char_u32_cast(b[0], b[0] as u32);
        }
    }
}


/// The opposite of an ordering.
pub open spec fn reverse_ordering(o: core::cmp::Ordering) -> core::cmp::Ordering {
    match o {
        core::cmp::Ordering::Less => core::cmp::Ordering::Greater,
        core::cmp::Ordering::Equal => core::cmp::Ordering::Equal,
        core::cmp::Ordering::Greater => core::cmp::Ordering::Less,
    }
}

/// What `str::to_lowercase` returns for a string: a function of its
/// characters alone.
pub uninterp spec fn lower_of(s: Seq<char>) -> Seq<char>;

/// Relies on str::to_lowercase: the lowercase form of the string, which
/// depends on its characters alone.
#[verifier::external_body]
pub(crate) fn lowercase(s: &str) -> (r: String)
    ensures
        r@ == lower_of(s@),
{
    s.to_lowercase()
}

/// Relies on String::push: appends exactly the given character.
pub assume_specification[ String::push ](s: &mut String, c: char)
    ensures
        final(s)@ == old(s)@.push(c),
;

/// Whether `c` has the Unicode white-space property, as `char::is_whitespace`
/// defines it.
pub open spec fn spec_is_ws(c: char) -> bool {
    c == ' ' || c == '\t' || c == '\n' || c == '\u{b}' || c == '\u{c}' || c == '\r'
        || c == '\u{85}' || c == '\u{a0}' || c == '\u{1680}'
        || ('\u{2000}' <= c && c <= '\u{200a}')
        || c == '\u{2028}' || c == '\u{2029}' || c == '\u{202f}' || c == '\u{205f}'
        || c == '\u{3000}'
}

/// Whether `c` is Unicode white space.
pub fn is_ws(c: char) -> (r: bool)
    ensures
        r == spec_is_ws(c),
{
    c == ' ' || c == '\t' || c == '\n' || c == '\u{b}' || c == '\u{c}' || c == '\r'
        || c == '\u{85}' || c == '\u{a0}' || c == '\u{1680}'
        || ('\u{2000}' <= c && c <= '\u{200a}')
        || c == '\u{2028}' || c == '\u{2029}' || c == '\u{202f}' || c == '\u{205f}'
        || c == '\u{3000}'
}

/// Index of the first non-white-space character, or `s.len()` if none.
pub open spec fn spec_find_non_ws(s: Seq<char>) -> int
    decreases s.len(),
{
    if s.len() == 0 {
        0
    } else if !spec_is_ws(s[0]) {
        0
    } else {
        1 + spec_find_non_ws(s.drop_first())
    }
}

/// Index of the first white-space character, or `s.len()` if none.
pub open spec fn spec_find_ws(s: Seq<char>) -> int
    decreases s.len(),
{
    if s.len() == 0 {
        0
    } else if spec_is_ws(s[0]) {
        0
    } else {
        1 + spec_find_ws(s.drop_first())
    }
}

pub proof fn lemma_find_non_ws(s: Seq<char>)
    ensures
        0 <= spec_find_non_ws(s) <= s.len(),
        spec_find_non_ws(s) < s.len() ==> !spec_is_ws(s[spec_find_non_ws(s)]),
        forall|k: int| 0 <= k < spec_find_non_ws(s) ==> spec_is_ws(s[k]),
    decreases s.len(),
{
    if s.len() > 0 && spec_is_ws(s[0]) {
        lemma_find_non_ws(s.drop_first());
        assert forall|k: int| 0 <= k < spec_find_non_ws(s) implies spec_is_ws(s[k]) by {
            if k > 0 {
                assert(s.drop_first()[k - 1] == s[k]);
            }
        }
    }
}

pub proof fn lemma_find_ws(s: Seq<char>)
    ensures
        0 <= spec_find_ws(s) <= s.len(),
        spec_find_ws(s) < s.len() ==> spec_is_ws(s[spec_find_ws(s)]),
        forall|k: int| 0 <= k < spec_find_ws(s) ==> !spec_is_ws(s[k]),
    decreases s.len(),
{
    if s.len() > 0 && !spec_is_ws(s[0]) {
        lemma_find_ws(s.drop_first());
        assert forall|k: int| 0 <= k < spec_find_ws(s) implies !spec_is_ws(s[k]) by {
            if k > 0 {
                assert(s.drop_first()[k - 1] == s[k]);
            }
        }
    }
}

/// The first white-space-delimited token of `s`; `s` itself when `s` is empty
/// or all white space.  This mirrors `s.split_whitespace().next().unwrap_or(s)`.
pub open spec fn spec_first_token(s: Seq<char>) -> Seq<char> {
    let i = spec_find_non_ws(s);
    if i == s.len() {
        s
    } else {
        let rest = s.subrange(i, s.len() as int);
        rest.subrange(0, spec_find_ws(rest))
    }
}

/// Takes the first white-space-delimited token of `s`, or `s` itself when
/// there is none.
pub fn first_token<'a>(s: &'a str) -> (r: &'a str)
    ensures
        r@ == spec_first_token(s@),
{
    proof {
        lemma_find_non_ws(s@);
    }
    let n = s.unicode_len();
    let mut i: usize = 0;
    while i < n && is_ws(s.get_char(i))
        invariant
            0 <= i <= n,
            n == s@.len(),
            forall|k: int| 0 <= k < i ==> spec_is_ws(s@[k]),
        decreases n - i,
    {
        i = i + 1;
    }
    assert(i == spec_find_non_ws(s@)) by {
        lemma_find_non_ws(s@);
    }
    if i == n {
        return s;
    }
    let rest = s.substring_char(i, n);
    proof {
        lemma_find_ws(rest@);
    }
    let m = rest.unicode_len();
    let mut j: usize = 0;
    while j < m && !is_ws(rest.get_char(j))
        invariant
            0 <= j <= m,
            m == rest@.len(),
            forall|k: int| 0 <= k < j ==> !spec_is_ws(rest@[k]),
        decreases m - j,
    {
        j = j + 1;
    }
    assert(j == spec_find_ws(rest@)) by {
        lemma_find_ws(rest@);
    }
    rest.substring_char(0, j)
}

/// Whether `c` is an ASCII decimal digit.
pub open spec fn spec_is_digit(c: char) -> bool {
    48 <= (c as u32) && (c as u32) <= 57
}

/// The numeric value of an ASCII digit.
pub open spec fn spec_digit_val(c: char) -> nat {
    ((c as u32) - 48) as nat
}

/// Whether every character of `s` is an ASCII decimal digit.
pub open spec fn spec_all_digits(s: Seq<char>) -> bool {
    forall|k: int| 0 <= k < s.len() ==> spec_is_digit(#[trigger] s[k])
}

/// The number denoted by a sequence of ASCII digits, most significant first.
pub open spec fn spec_digits_val(s: Seq<char>) -> nat
    decreases s.len(),
{
    if s.len() == 0 {
        0
    } else {
        spec_digits_val(s.drop_last()) * 10 + spec_digit_val(s.last())
    }
}

pub proof fn lemma_digits_val_prefix_le(s: Seq<char>, i: int)
    requires
        0 <= i <= s.len(),
    ensures
        spec_digits_val(s.subrange(0, i)) <= spec_digits_val(s),
    decreases s.len() - i,
{
    if i < s.len() {
        lemma_digits_val_prefix_le(s, i + 1);
        let p = s.subrange(0, i);
        let q = s.subrange(0, i + 1);
        assert(q.drop_last() =~= p);
        assert(spec_digits_val(q) == spec_digits_val(p) * 10 + spec_digit_val(q.last()));
    } else {
        assert(s.subrange(0, i) =~= s);
    }
}

/// The result of parsing `t` as a `u32` the way `str::parse::<u32>` does:
/// an optional leading `+` before one or more ASCII digits whose value fits.
pub open spec fn spec_parse_u32(t: Seq<char>) -> Option<u32> {
    let d = if t.len() > 0 && t[0] == '+' {
        t.drop_first()
    } else {
        t
    };
    if d.len() > 0 && spec_all_digits(d) && spec_digits_val(d) <= u32::MAX {
        Some(spec_digits_val(d) as u32)
    } else {
        None
    }
}

/// Parses `t` as a `u32`, accepting what `str::parse::<u32>` accepts.
pub fn parse_u32(t: &str) -> (r: Option<u32>)
    ensures
        r == spec_parse_u32(t@),
{
    let n = t.unicode_len();
    let start: usize = if n > 0 && t.get_char(0) == '+' {
        1
    } else {
        0
    };
    let ghost d: Seq<char> = if t@.len() > 0 && t@[0] == '+' {
        t@.drop_first()
    } else {
        t@
    };
    assert(d =~= t@.subrange(start as int, n as int));
    if start == n {
        return None;
    }
    let mut val: u64 = 0;
    let mut i: usize = start;
    while i < n
        invariant
            start <= i <= n,
            n == t@.len(),
            start == (if t@.len() > 0 && t@[0] == '+' { 1int } else { 0int }),
            d == (if t@.len() > 0 && t@[0] == '+' { t@.drop_first() } else { t@ }),
            d =~= t@.subrange(start as int, n as int),
            spec_all_digits(t@.subrange(start as int, i as int)),
            val == spec_digits_val(t@.subrange(start as int, i as int)),
            val <= u32::MAX,
        decreases n - i,
    {
        let c = t.get_char(i);
        let u = c as u32;
        if !(48 <= u && u <= 57) {
            assert(d[i - start] == c);
            assert(!spec_all_digits(d));
            return None;
        }
        let dv: u64 = (u - 48) as u64;
        let next: u64 = val * 10 + dv;
        proof {
            let p = t@.subrange(start as int, i as int);
            let q = t@.subrange(start as int, i + 1 as int);
            assert(q.drop_last() =~= p);
            assert(q.last() == c);
            assert(spec_digits_val(q) == spec_digits_val(p) * 10 + spec_digit_val(c));
        }
        if next > 0xffff_ffff {
            proof {
                lemma_digits_val_prefix_le(d, i + 1 - start as int);
                assert(d.subrange(0, i + 1 - start as int)
                    =~= t@.subrange(start as int, i + 1 as int));
            }
            return None;
        }
        val = next;
        i = i + 1;
    }
    assert(d =~= t@.subrange(start as int, i as int));
    Some(val as u32)
}

/// The decimal digits of `n`, most significant first.
pub open spec fn spec_udec(n: nat) -> Seq<char>
    decreases n,
{
    if n < 10 {
        seq![((48 + n) as u32) as char]
    } else {
        spec_udec(n / 10).push(((48 + n % 10) as u32) as char)
    }
}

/// Renders `n` in decimal.
pub fn u64_to_string(n: u64) -> (r: String)
    ensures
        r@ == spec_udec(n as nat),
{
    let mut digits: Vec<char> = Vec::new();
    let mut m: u64 = n;
    while m >= 10
        invariant
            spec_udec(n as nat) =~= spec_udec(m as nat) + digits@.reverse(),
        decreases m,
    {
        let d: u64 = m % 10;
        let c = ((48 + d as u32) as u8) as char;
        proof {
            assert(spec_udec(m as nat) == spec_udec((m / 10) as nat).push(
                ((48 + (m as nat) % 10) as u32) as char));
            assert(digits@.push(c).reverse() =~= seq![c] + digits@.reverse());
            assert(spec_udec((m / 10) as nat) + digits@.push(c).reverse()
                =~= spec_udec((m / 10) as nat).push(c) + digits@.reverse());
        }
        digits.push(c);
        m = m / 10;
    }
    let c0 = ((48 + (m % 10) as u32) as u8) as char;
    assert(spec_udec(m as nat) =~= seq![c0]);
    let mut s = String::new();
    s.push(c0);
    let mut i: usize = digits.len();
    while i > 0
        invariant
            0 <= i <= digits@.len(),
            s@ =~= seq![c0] + digits@.reverse().subrange(0, digits@.len() - i),
        decreases i,
    {
        i = i - 1;
        let c = digits[i];
        proof {
            let k = digits@.len() - i - 1;
            assert(digits@.reverse()[k] == digits@[i as int]);
            assert(digits@.reverse().subrange(0, k + 1)
                =~= digits@.reverse().subrange(0, k).push(digits@[i as int]));
        }
        s.push(c);
    }
    assert(digits@.reverse().subrange(0, digits@.len() as int) =~= digits@.reverse());
    assert(s@ =~= spec_udec(n as nat));
    s
}

/// The pieces of `s` between occurrences of `c`; always at least one piece.
pub open spec fn spec_split(s: Seq<char>, c: char) -> Seq<Seq<char>>
    decreases s.len(),
{
    let i = spec_find(s, c);
    if 0 <= i && i < s.len() {
        seq![s.subrange(0, i)] + spec_split(s.subrange(i + 1, s.len() as int), c)
    } else {
        seq![s]
    }
}

pub proof fn lemma_spec_split_len(s: Seq<char>, c: char)
    ensures
        spec_split(s, c).len() >= 1,
    decreases s.len(),
{
    lemma_spec_find(s, c);
}

/// Splits `s` on every occurrence of `c`.
pub fn split_char(s: &str, c: char) -> (r: Vec<String>)
    ensures
        r.deep_view() == spec_split(s@, c),
{
    let mut out: Vec<String> = Vec::new();
    let mut rest: &str = s;
    loop
        invariant
            out.deep_view() + spec_split(rest@, c) =~= spec_split(s@, c),
        decreases rest@.len(),
    {
        proof {
            lemma_spec_find(rest@, c);
        }
        let n = rest.unicode_len();
        let i = find_char(rest, c);
        if i == n {
            let piece = rest.to_owned();
            assert(spec_split(rest@, c) =~= seq![rest@]);
            out.push(piece);
            assert(out.deep_view() =~= spec_split(s@, c));
            return out;
        }
        let piece = rest.substring_char(0, i);
        let new_rest = rest.substring_char(i + 1, n);
        assert(spec_split(rest@, c) =~= seq![rest@.subrange(0, i as int)]
            + spec_split(new_rest@, c));
        let owned = piece.to_owned();
        out.push(owned);
        assert(out.deep_view() + spec_split(new_rest@, c) =~= spec_split(s@, c));
        rest = new_rest;
    }
}

} // verus!
