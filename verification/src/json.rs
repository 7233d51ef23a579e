//! A verified reader and writer for the JSON shape the version cache uses.
//!
//! The reader accepts general JSON text: objects, arrays, strings with the
//! standard escapes, numbers, booleans and null, with the usual white space.
//! Only strings, arrays and objects carry data the cache cares about; a
//! number is consumed and validated but its value is not kept.

use vstd::prelude::*;
use vstd::string::*;
use crate::text::spec_is_digit;

verus! {

/// A parsed JSON value.  A number keeps no payload: the cache formats never
/// read one, so only its well-formedness matters.
pub enum Json {
    Null,
    Bool(bool),
    Num,
    Str(String),
    Arr(Vec<Json>),
    Obj(Vec<(String, Json)>),
}

/// The mathematical shape of a JSON value.
pub enum JsonSpec {
    Null,
    Bool(bool),
    Num,
    Str(Seq<char>),
    Arr(Seq<JsonSpec>),
    Obj(Seq<(Seq<char>, JsonSpec)>),
}

/// The shape of a parsed JSON value.
pub open spec fn view_json(j: Json) -> JsonSpec
    decreases j,
{
    match j {
        Json::Null => JsonSpec::Null,
        Json::Bool(b) => JsonSpec::Bool(b),
        Json::Num => JsonSpec::Num,
        Json::Str(s) => JsonSpec::Str(s@),
        Json::Arr(v) => JsonSpec::Arr(view_json_seq(v@)),
        Json::Obj(v) => JsonSpec::Obj(view_json_entries(v@)),
    }
}

/// The shapes of a sequence of parsed JSON values.
pub open spec fn view_json_seq(s: Seq<Json>) -> Seq<JsonSpec>
    decreases s,
{
    if s.len() == 0 {
        Seq::empty()
    } else {
        seq![view_json(s[0])] + view_json_seq(s.drop_first())
    }
}

/// The shapes of a sequence of parsed JSON object members.
pub open spec fn view_json_entries(s: Seq<(String, Json)>) -> Seq<(Seq<char>, JsonSpec)>
    decreases s,
{
    if s.len() == 0 {
        Seq::empty()
    } else {
        seq![(s[0].0@, view_json(s[0].1))] + view_json_entries(s.drop_first())
    }
}

/// Whether `c` is JSON white space.
pub open spec fn spec_json_ws(c: char) -> bool {
    c == ' ' || c == '\t' || c == '\n' || c == '\r'
}

/// How many white-space characters follow position `i`.
pub open spec fn spec_ws_count(s: Seq<char>, i: int) -> nat
    decreases s.len() - i,
{
    if 0 <= i < s.len() && spec_json_ws(s[i]) {
        1 + spec_ws_count(s, i + 1)
    } else {
        0
    }
}

/// The first position at or after `i` that holds no white space.
pub open spec fn spec_skip_ws(s: Seq<char>, i: int) -> int {
    i + spec_ws_count(s, i)
}

pub proof fn lemma_skip_ws(s: Seq<char>, i: int)
    requires
        0 <= i <= s.len(),
    ensures
        i <= spec_skip_ws(s, i) <= s.len(),
        spec_skip_ws(s, i) < s.len() ==> !spec_json_ws(s[spec_skip_ws(s, i)]),
    decreases s.len() - i,
{
    if 0 <= i < s.len() && spec_json_ws(s[i]) {
        lemma_skip_ws(s, i + 1);
    }
}

/// How many ASCII digits run from position `i`.
pub open spec fn spec_digits_count(s: Seq<char>, i: int) -> nat
    decreases s.len() - i,
{
    if 0 <= i < s.len() && spec_is_digit(s[i]) {
        1 + spec_digits_count(s, i + 1)
    } else {
        0
    }
}

pub proof fn lemma_digits_count(s: Seq<char>, i: int)
    requires
        0 <= i <= s.len(),
    ensures
        i + spec_digits_count(s, i) <= s.len(),
        i + spec_digits_count(s, i) < s.len() ==> !spec_is_digit(s[i + spec_digits_count(s, i)]),
    decreases s.len() - i,
{
    if 0 <= i < s.len() && spec_is_digit(s[i]) {
        lemma_digits_count(s, i + 1);
    }
}

/// The value of an ASCII hexadecimal digit, or nothing.
pub open spec fn spec_hex_val(c: char) -> Option<u32> {
    let u = c as u32;
    if 48 <= u && u <= 57 {
        Some((u - 48) as u32)
    } else if 97 <= u && u <= 102 {
        Some((u - 87) as u32)
    } else if 65 <= u && u <= 70 {
        Some((u - 55) as u32)
    } else {
        None
    }
}

/// The value of the four hexadecimal digits at `i`, or nothing.
pub open spec fn spec_hex4(s: Seq<char>, i: int) -> Option<u32> {
    if 0 <= i && i + 4 <= s.len() {
        match (spec_hex_val(s[i]), spec_hex_val(s[i + 1]), spec_hex_val(s[i + 2]), spec_hex_val(
            s[i + 3],
        )) {
            (Some(a), Some(b), Some(c), Some(d)) => Some(
                (a * 0x1000 + b * 0x100 + c * 0x10 + d) as u32,
            ),
            _ => None,
        }
    } else {
        None
    }
}

/// Reads the body of a JSON string from `i`, which sits just after the
/// opening quote, up to and past the closing quote.  Yields the unescaped
/// characters and the position after the closing quote.
pub open spec fn spec_parse_string_body(s: Seq<char>, i: int) -> Option<(Seq<char>, int)>
    decreases s.len() - i,
{
    if !(0 <= i < s.len()) {
        None
    } else if s[i] == '"' {
        Some((Seq::empty(), i + 1))
    } else if s[i] == '\\' {
        if i + 1 >= s.len() {
            None
        } else {
            let e = s[i + 1];
            if e == '"' || e == '\\' || e == '/' {
                match spec_parse_string_body(s, i + 2) {
                    Some((t, j)) => Some((seq![e] + t, j)),
                    None => None,
                }
            } else if e == 'b' || e == 'f' || e == 'n' || e == 'r' || e == 't' {
                let c = if e == 'b' {
                    '\u{8}'
                } else if e == 'f' {
                    '\u{c}'
                } else if e == 'n' {
                    '\n'
                } else if e == 'r' {
                    '\r'
                } else {
                    '\t'
                };
                match spec_parse_string_body(s, i + 2) {
                    Some((t, j)) => Some((seq![c] + t, j)),
                    None => None,
                }
            } else if e == 'u' {
                match spec_hex4(s, i + 2) {
                    None => None,
                    Some(code) => if 0xD800 <= code && code <= 0xDBFF {
                        if i + 8 <= s.len() && s[i + 6] == '\\' && s[i + 7] == 'u' {
                            match spec_hex4(s, i + 8) {
                                None => None,
                                Some(lo) => if 0xDC00 <= lo && lo <= 0xDFFF {
                                    let c = (0x10000 + (code - 0xD800) * 0x400 + (lo - 0xDC00))
                                        as char;
                                    match spec_parse_string_body(s, i + 12) {
                                        Some((t, j)) => Some((seq![c] + t, j)),
                                        None => None,
                                    }
                                } else {
                                    None
                                },
                            }
                        } else {
                            None
                        }
                    } else if 0xDC00 <= code && code <= 0xDFFF {
                        None
                    } else {
                        match spec_parse_string_body(s, i + 6) {
                            Some((t, j)) => Some((seq![code as char] + t, j)),
                            None => None,
                        }
                    },
                }
            } else {
                None
            }
        }
    } else if (s[i] as u32) < 0x20 {
        None
    } else {
        match spec_parse_string_body(s, i + 1) {
            Some((t, j)) => Some((seq![s[i]] + t, j)),
            None => None,
        }
    }
}


/// Reads a JSON number that starts at `i` (a digit or a minus sign) and
/// yields the position after it.
pub open spec fn spec_skip_number(s: Seq<char>, i: int) -> Option<int> {
    if !(0 <= i < s.len()) {
        None
    } else {
        let j0 = if s[i] == '-' {
            i + 1
        } else {
            i
        };
        if !(j0 < s.len() && spec_is_digit(s[j0])) {
            None
        } else {
            let j1 = if s[j0] == '0' {
                j0 + 1
            } else {
                j0 + spec_digits_count(s, j0)
            };
            let frac = if j1 < s.len() && s[j1] == '.' {
                if j1 + 1 < s.len() && spec_is_digit(s[j1 + 1]) {
                    Some(j1 + 1 + spec_digits_count(s, j1 + 1))
                } else {
                    None
                }
            } else {
                Some(j1)
            };
            match frac {
                None => None,
                Some(j2) => {
                    if j2 < s.len() && (s[j2] == 'e' || s[j2] == 'E') {
                        let j3 = if j2 + 1 < s.len() && (s[j2 + 1] == '+' || s[j2 + 1] == '-') {
                            j2 + 2
                        } else {
                            j2 + 1
                        };
                        if j3 < s.len() && spec_is_digit(s[j3]) {
                            Some(j3 + spec_digits_count(s, j3))
                        } else {
                            None
                        }
                    } else {
                        Some(j2)
                    }
                },
            }
        }
    }
}


/// Whether the four characters of `lit` stand at `i` in `s`.
pub open spec fn spec_lit_at(s: Seq<char>, i: int, lit: Seq<char>) -> bool {
    0 <= i && i + lit.len() <= s.len() && s.subrange(i, i + lit.len()) == lit
}

/// Reads the JSON value whose first non-white-space character is at or
/// after `i`, yielding its shape and the position just past it.  Containers
/// may nest at most `depth` levels deep.
pub open spec fn spec_parse_value(s: Seq<char>, i: int, depth: u32) -> Option<(JsonSpec, int)>
    decreases s.len() - i, 0int,
{
    let j = spec_skip_ws(s, i);
    if !(i <= j < s.len()) {
        None
    } else if s[j] == 'n' {
        if spec_lit_at(s, j, "null"@) {
            Some((JsonSpec::Null, j + 4))
        } else {
            None
        }
    } else if s[j] == 't' {
        if spec_lit_at(s, j, "true"@) {
            Some((JsonSpec::Bool(true), j + 4))
        } else {
            None
        }
    } else if s[j] == 'f' {
        if spec_lit_at(s, j, "false"@) {
            Some((JsonSpec::Bool(false), j + 5))
        } else {
            None
        }
    } else if s[j] == '"' {
        match spec_parse_string_body(s, j + 1) {
            Some((t, k)) => Some((JsonSpec::Str(t), k)),
            None => None,
        }
    } else if s[j] == '-' || spec_is_digit(s[j]) {
        match spec_skip_number(s, j) {
            Some(k) => Some((JsonSpec::Num, k)),
            None => None,
        }
    } else if s[j] == '[' {
        if depth == 0 {
            None
        } else {
            match spec_parse_array(s, j + 1, (depth - 1) as u32) {
                Some((items, k)) => Some((JsonSpec::Arr(items), k)),
                None => None,
            }
        }
    } else if s[j] == '{' {
        if depth == 0 {
            None
        } else {
            match spec_parse_object(s, j + 1, (depth - 1) as u32) {
                Some((members, k)) => Some((JsonSpec::Obj(members), k)),
                None => None,
            }
        }
    } else {
        None
    }
}

/// Reads the rest of an array from just after its `[`: either an
/// immediate `]` or its elements.
pub open spec fn spec_parse_array(s: Seq<char>, i: int, depth: u32) -> Option<(Seq<JsonSpec>, int)>
    decreases s.len() - i, 2int,
{
    if !(0 <= i <= s.len()) {
        None
    } else {
        let j = spec_skip_ws(s, i);
        if !(j < s.len()) {
            None
        } else if s[j] == ']' {
            Some((Seq::empty(), j + 1))
        } else {
            spec_parse_elements(s, i, depth)
        }
    }
}

/// Reads one or more comma-separated array elements from `i`.
pub open spec fn spec_parse_elements(s: Seq<char>, i: int, depth: u32) -> Option<
    (Seq<JsonSpec>, int),
>
    decreases s.len() - i, 1int,
{
    if !(0 <= i <= s.len()) {
        None
    } else {
        match spec_parse_value(s, i, depth) {
            None => None,
            Some((v, k)) => if !(i < k <= s.len()) {
                None
            } else {
                let k2 = spec_skip_ws(s, k);
                if !(k2 < s.len()) {
                    None
                } else if s[k2] == ']' {
                    Some((seq![v], k2 + 1))
                } else if s[k2] == ',' {
                    match spec_parse_elements(s, k2 + 1, depth) {
                        None => None,
                        Some((rest, end)) => Some((seq![v] + rest, end)),
                    }
                } else {
                    None
                }
            },
        }
    }
}

/// Reads the rest of an object from just after its `{`: either an
/// immediate `}` or its members.
pub open spec fn spec_parse_object(s: Seq<char>, i: int, depth: u32) -> Option<
    (Seq<(Seq<char>, JsonSpec)>, int),
>
    decreases s.len() - i, 2int,
{
    if !(0 <= i <= s.len()) {
        None
    } else {
        let j = spec_skip_ws(s, i);
        if !(j < s.len()) {
            None
        } else if s[j] == '}' {
            Some((Seq::empty(), j + 1))
        } else {
            spec_parse_members(s, i, depth)
        }
    }
}

/// Reads one or more comma-separated `"key": value` members from `i`.
pub open spec fn spec_parse_members(s: Seq<char>, i: int, depth: u32) -> Option<
    (Seq<(Seq<char>, JsonSpec)>, int),
>
    decreases s.len() - i, 1int,
{
    if !(0 <= i <= s.len()) {
        None
    } else {
        let j = spec_skip_ws(s, i);
        if !(j < s.len() && s[j] == '"') {
            None
        } else {
            match spec_parse_string_body(s, j + 1) {
                None => None,
                Some((key, k)) => if !(j < k <= s.len()) {
                    None
                } else {
                    let k2 = spec_skip_ws(s, k);
                    if !(k2 < s.len() && s[k2] == ':') {
                        None
                    } else {
                        match spec_parse_value(s, k2 + 1, depth) {
                            None => None,
                            Some((v, m)) => if !(k2 < m <= s.len()) {
                                None
                            } else {
                                let m2 = spec_skip_ws(s, m);
                                if !(m2 < s.len()) {
                                    None
                                } else if s[m2] == '}' {
                                    Some((seq![(key, v)], m2 + 1))
                                } else if s[m2] == ',' {
                                    match spec_parse_members(s, m2 + 1, depth) {
                                        None => None,
                                        Some((rest, end)) => Some((seq![(key, v)] + rest, end)),
                                    }
                                } else {
                                    None
                                }
                            },
                        }
                    }
                },
            }
        }
    }
}

/// The most deeply containers may nest; text nested further is refused.
pub const JSON_DEPTH_LIMIT: u32 = 128;

/// Reads a whole JSON document: one value with nothing but white space
/// after it.
pub open spec fn spec_parse_document(s: Seq<char>) -> Option<JsonSpec> {
    match spec_parse_value(s, 0, JSON_DEPTH_LIMIT) {
        None => None,
        Some((v, j)) => if 0 <= j <= s.len() && spec_skip_ws(s, j) == s.len() {
            Some(v)
        } else {
            None
        },
    }
}

/// Whether `c` is JSON white space.
fn is_json_ws(c: char) -> (r: bool)
    ensures
        r == spec_json_ws(c),
{
    c == ' ' || c == '\t' || c == '\n' || c == '\r'
}

/// Moves `i` past any white space.
fn skip_ws(s: &str, i: usize) -> (r: usize)
    requires
        i <= s@.len(),
    ensures
        r == spec_skip_ws(s@, i as int),
        i <= r <= s@.len(),
        r < s@.len() ==> !spec_json_ws(s@[r as int]),
{
    let n = s.unicode_len();
    let mut j: usize = i;
    while j < n && is_json_ws(s.get_char(j))
        invariant
            i <= j <= n,
            n == s@.len(),
            spec_skip_ws(s@, i as int) == spec_skip_ws(s@, j as int),
        decreases n - j,
    {
        assert(spec_ws_count(s@, j as int) == 1 + spec_ws_count(s@, j + 1));
        j = j + 1;
    }
    proof {
        lemma_skip_ws(s@, j as int);
        assert(spec_ws_count(s@, j as int) == 0);
    }
    j
}

/// The value of an ASCII hexadecimal digit.
fn hex_val(c: char) -> (r: Option<u32>)
    ensures
        r == spec_hex_val(c),
{
    let u = c as u32;
    if 48 <= u && u <= 57 {
        Some(u - 48)
    } else if 97 <= u && u <= 102 {
        Some(u - 87)
    } else if 65 <= u && u <= 70 {
        Some(u - 55)
    } else {
        None
    }
}

/// The value of the four hexadecimal digits at `i`.
fn hex4(s: &str, i: usize) -> (r: Option<u32>)
    ensures
        r == spec_hex4(s@, i as int),
{
    let n = s.unicode_len();
    if i > n || n - i < 4 {
        return None;
    }
    let a = hex_val(s.get_char(i));
    let b = hex_val(s.get_char(i + 1));
    let c = hex_val(s.get_char(i + 2));
    let d = hex_val(s.get_char(i + 3));
    match (a, b, c, d) {
        (Some(a), Some(b), Some(c), Some(d)) => Some(a * 0x1000 + b * 0x100 + c * 0x10 + d),
        _ => None,
    }
}

/// Relies on char::from_u32: the character with the given code, yielded
/// exactly when the code is a Unicode scalar value.
#[verifier::external_body]
fn char_from_u32(u: u32) -> (r: Option<char>)
    ensures
        r matches Some(c) ==> c as u32 == u,
        r is Some <==> (u < 0xD800 || (0xE000 <= u && u <= 0x10FFFF)),
{
    char::from_u32(u)
}

/// Reads the body of a JSON string from `i`, just after the opening quote.
fn parse_string_body(s: &str, i: usize) -> (r: Option<(String, usize)>)
    requires
        i <= s@.len(),
    ensures
        (match r {
            None => spec_parse_string_body(s@, i as int) is None,
            Some((t, j)) => spec_parse_string_body(s@, i as int) == Some((t@, j as int)) && i < j
                <= s@.len(),
        }),
{
    let n = s.unicode_len();
    let mut out = String::new();
    let mut j: usize = i;
    assert(out@ =~= Seq::<char>::empty());
    loop
        invariant
            i <= j <= n,
            n == s@.len(),
            (match spec_parse_string_body(s@, j as int) {
                Some((t, k)) => spec_parse_string_body(s@, i as int) == Some((out@ + t, k)),
                None => spec_parse_string_body(s@, i as int) is None,
            }),
        decreases n - j,
    {
        if j >= n {
            return None;
        }
        let c0 = s.get_char(j);
        if c0 == '"' {
            assert(out@ + Seq::<char>::empty() =~= out@);
            return Some((out, j + 1));
        }
        let ghost jo = j as int;
        let ghost old_out = out@;
        if c0 == '\\' {
            if j + 1 >= n {
                return None;
            }
            let e = s.get_char(j + 1);
            if e == '"' || e == '\\' || e == '/' {
                out.push(e);
                j = j + 2;
                proof {
                    lemma_string_body_loop_step(s@, jo, old_out, out@, e, 2);
                }
            } else if e == 'b' || e == 'f' || e == 'n' || e == 'r' || e == 't' {
                let c: char = if e == 'b' {
                    '\u{8}'
                } else if e == 'f' {
                    '\u{c}'
                } else if e == 'n' {
                    '\n'
                } else if e == 'r' {
                    '\r'
                } else {
                    '\t'
                };
                out.push(c);
                j = j + 2;
                proof {
                    lemma_string_body_loop_step(s@, jo, old_out, out@, c, 2);
                }
            } else if e == 'u' {
                match hex4(s, j + 2) {
                    None => {
                        return None;
                    },
                    Some(code) => {
                        if 0xD800 <= code && code <= 0xDBFF {
                            if n - j >= 8 && s.get_char(j + 6) == '\\' && s.get_char(j + 7)
                                == 'u' {
                                match hex4(s, j + 8) {
                                    None => {
                                        return None;
                                    },
                                    Some(lo) => {
                                        if 0xDC00 <= lo && lo <= 0xDFFF {
                                            let u: u32 = 0x10000 + (code - 0xD800) * 0x400 + (lo
                                                - 0xDC00);
                                            let c = match char_from_u32(u) {
                                                Some(c) => c,
                                                None => {
                                                    proof {
                                                        assert(0x10000 <= u && u <= 0x10FFFF);
                                                    }
                                                    return None;
                                                },
                                            };
                                            proof {
                                                vstd::utf8::char_u32_cast(c, u);
                                            }
                                            out.push(c);
                                            j = j + 12;
                                            proof {
                                                lemma_string_body_loop_step(
                                                    s@,
                                                    jo,
                                                    old_out,
                                                    out@,
                                                    c,
                                                    12,
                                                );
                                            }
                                        } else {
                                            return None;
                                        }
                                    },
                                }
                            } else {
                                return None;
                            }
                        } else if 0xDC00 <= code && code <= 0xDFFF {
                            return None;
                        } else {
                            let c = match char_from_u32(code) {
                                Some(c) => c,
                                None => {
                                    proof {
                                        assert(code < 0xD800 || (0xE000 <= code && code
                                            <= 0xFFFF));
                                    }
                                    return None;
                                },
                            };
                            proof {
                                vstd::utf8::char_u32_cast(c, code);
                            }
                            out.push(c);
                            j = j + 6;
                            proof {
                                lemma_string_body_loop_step(s@, jo, old_out, out@, c, 6);
                            }
                        }
                    },
                }
            } else {
                return None;
            }
        } else if (c0 as u32) < 0x20 {
            return None;
        } else {
            out.push(c0);
            j = j + 1;
            proof {
                lemma_string_body_loop_step(s@, jo, old_out, out@, c0, 1);
            }
        }
    }
}

/// One consuming step of the string-body loop: when the character read at
/// `jo` contributes `c` and the reader moves `w` positions, the accumulated
/// prefix composes with what remains.
proof fn lemma_string_body_loop_step(
    s: Seq<char>,
    jo: int,
    old_out: Seq<char>,
    new_out: Seq<char>,
    c: char,
    w: int,
)
    requires
        new_out == old_out.push(c),
        spec_parse_string_body(s, jo) == (match spec_parse_string_body(s, jo + w) {
            Some((t, k)) => Some::<(Seq<char>, int)>((seq![c] + t, k)),
            None => None::<(Seq<char>, int)>,
        }),
    ensures
        (match spec_parse_string_body(s, jo + w) {
            Some((t, k)) => new_out + t == old_out + (seq![c] + t),
            None => spec_parse_string_body(s, jo) is None,
        }),
{
    match spec_parse_string_body(s, jo + w) {
        Some((t, k)) => {
            assert(new_out + t =~= old_out + (seq![c] + t));
        },
        None => {},
    }
}

/// Whether `c` is an ASCII decimal digit.
fn is_digit_char(c: char) -> (r: bool)
    ensures
        r == spec_is_digit(c),
{
    let u = c as u32;
    48 <= u && u <= 57
}

/// Moves `i` past a run of ASCII digits.
fn skip_digits(s: &str, i: usize) -> (r: usize)
    requires
        i <= s@.len(),
    ensures
        r == i + spec_digits_count(s@, i as int),
        i <= r <= s@.len(),
{
    let n = s.unicode_len();
    let mut j: usize = i;
    while j < n && is_digit_char(s.get_char(j))
        invariant
            i <= j <= n,
            n == s@.len(),
            i + spec_digits_count(s@, i as int) == j + spec_digits_count(s@, j as int),
        decreases n - j,
    {
        assert(spec_digits_count(s@, j as int) == 1 + spec_digits_count(s@, j + 1));
        j = j + 1;
    }
    assert(spec_digits_count(s@, j as int) == 0);
    j
}

/// Reads a JSON number that starts at `i`.
fn skip_number(s: &str, i: usize) -> (r: Option<usize>)
    requires
        i <= s@.len(),
    ensures
        (match r {
            None => spec_skip_number(s@, i as int) is None,
            Some(j) => spec_skip_number(s@, i as int) == Some(j as int) && i < j <= s@.len(),
        }),
{
    let n = s.unicode_len();
    if i >= n {
        return None;
    }
    let j0: usize = if s.get_char(i) == '-' {
        i + 1
    } else {
        i
    };
    if j0 >= n {
        return None;
    }
    let u0 = s.get_char(j0) as u32;
    if !(48 <= u0 && u0 <= 57) {
        return None;
    }
    let j1: usize = if s.get_char(j0) == '0' {
        j0 + 1
    } else {
        skip_digits(s, j0)
    };
    assert(spec_digits_count(s@, j0 as int) >= 1);
    let j2: usize = if j1 < n && s.get_char(j1) == '.' {
        if j1 + 1 < n && is_digit_char(s.get_char(j1 + 1)) {
            skip_digits(s, j1 + 1)
        } else {
            return None;
        }
    } else {
        j1
    };
    if j2 < n && (s.get_char(j2) == 'e' || s.get_char(j2) == 'E') {
        let j3: usize = if j2 + 1 < n && (s.get_char(j2 + 1) == '+' || s.get_char(j2 + 1) == '-') {
            j2 + 2
        } else {
            j2 + 1
        };
        if j3 < n && is_digit_char(s.get_char(j3)) {
            Some(skip_digits(s, j3))
        } else {
            None
        }
    } else {
        Some(j2)
    }
}

/// Whether the four characters of `"null"`, `"true"` or another literal
/// stand at `i`.
fn lit4_at(s: &str, i: usize, a: char, b: char, c: char, d: char) -> (r: bool)
    requires
        i <= s@.len(),
    ensures
        r == (i + 4 <= s@.len() && s@[i as int] == a && s@[i + 1] == b && s@[i + 2] == c && s@[i
            + 3] == d),
{
    let n = s.unicode_len();
    if i > n || n - i < 4 {
        return false;
    }
    s.get_char(i) == a && s.get_char(i + 1) == b && s.get_char(i + 2) == c && s.get_char(i + 3)
        == d
}

proof fn lemma_view_seq_cons(x: Json, t: Seq<Json>)
    ensures
        view_json_seq(seq![x] + t) == seq![view_json(x)] + view_json_seq(t),
{
    let s = seq![x] + t;
    assert(s.len() > 0);
    assert(s[0] == x);
    assert(s.drop_first() =~= t);
}

proof fn lemma_view_entries_cons(k: String, x: Json, t: Seq<(String, Json)>)
    ensures
        view_json_entries(seq![(k, x)] + t) == seq![(k@, view_json(x))] + view_json_entries(t),
{
    let s = seq![(k, x)] + t;
    assert(s.len() > 0);
    assert(s[0] == (k, x));
    assert(s.drop_first() =~= t);
}

proof fn lemma_view_seq_push(s: Seq<Json>, x: Json)
    ensures
        view_json_seq(s.push(x)) == view_json_seq(s) + seq![view_json(x)],
    decreases s.len(),
{
    if s.len() == 0 {
        assert(s.push(x)[0] == x);
        assert(s.push(x).drop_first() =~= Seq::<Json>::empty());
        assert(view_json_seq(Seq::<Json>::empty()) == Seq::<JsonSpec>::empty());
        assert(view_json_seq(s.push(x)) =~= view_json_seq(s) + seq![view_json(x)]);
    } else {
        assert(s.push(x)[0] == s[0]);
        assert(s.push(x).drop_first() =~= s.drop_first().push(x));
        lemma_view_seq_push(s.drop_first(), x);
        assert(view_json_seq(s.push(x)) =~= view_json_seq(s) + seq![view_json(x)]);
    }
}

proof fn lemma_view_entries_push(s: Seq<(String, Json)>, k: String, x: Json)
    ensures
        view_json_entries(s.push((k, x))) == view_json_entries(s) + seq![(k@, view_json(x))],
    decreases s.len(),
{
    if s.len() == 0 {
        assert(s.push((k, x))[0] == (k, x));
        assert(s.push((k, x)).drop_first() =~= Seq::<(String, Json)>::empty());
        assert(view_json_entries(Seq::<(String, Json)>::empty())
            == Seq::<(Seq<char>, JsonSpec)>::empty());
        assert(view_json_entries(s.push((k, x))) =~= view_json_entries(s) + seq![(
            k@,
            view_json(x),
        )]);
    } else {
        assert(s.push((k, x))[0] == s[0]);
        assert(s.push((k, x)).drop_first() =~= s.drop_first().push((k, x)));
        lemma_view_entries_push(s.drop_first(), k, x);
        assert(view_json_entries(s.push((k, x))) =~= view_json_entries(s) + seq![(
            k@,
            view_json(x),
        )]);
    }
}

/// Reads the JSON value whose first non-white-space character is at or
/// after `i`, with containers nesting at most `depth` levels deep.
fn parse_value(s: &str, i: usize, depth: u32) -> (r: Option<(Json, usize)>)
    requires
        i <= s@.len(),
    ensures
        (match r {
            None => spec_parse_value(s@, i as int, depth) is None,
            Some((v, j)) => spec_parse_value(s@, i as int, depth) == Some(
                (view_json(v), j as int),
            ) && i < j <= s@.len(),
        }),
    decreases s@.len() - i, 0int,
{
    let n = s.unicode_len();
    let j = skip_ws(s, i);
    if j >= n {
        return None;
    }
    let c = s.get_char(j);
    if c == 'n' {
        if lit4_at(s, j, 'n', 'u', 'l', 'l') {
            proof {
                reveal_strlit("null");
                assert(s@.subrange(j as int, j + 4) =~= "null"@);
            }
            Some((Json::Null, j + 4))
        } else {
            proof {
                reveal_strlit("null");
                if spec_lit_at(s@, j as int, "null"@) {
                    assert(s@.subrange(j as int, j + 4)[1] == s@[j + 1]);
                    assert(s@.subrange(j as int, j + 4)[2] == s@[j + 2]);
                    assert(s@.subrange(j as int, j + 4)[3] == s@[j + 3]);
                }
            }
            None
        }
    } else if c == 't' {
        if lit4_at(s, j, 't', 'r', 'u', 'e') {
            proof {
                reveal_strlit("true");
                assert(s@.subrange(j as int, j + 4) =~= "true"@);
            }
            Some((Json::Bool(true), j + 4))
        } else {
            proof {
                reveal_strlit("true");
                if spec_lit_at(s@, j as int, "true"@) {
                    assert(s@.subrange(j as int, j + 4)[1] == s@[j + 1]);
                    assert(s@.subrange(j as int, j + 4)[2] == s@[j + 2]);
                    assert(s@.subrange(j as int, j + 4)[3] == s@[j + 3]);
                }
            }
            None
        }
    } else if c == 'f' {
        let five = n - j >= 5 && s.get_char(j + 1) == 'a' && s.get_char(j + 2) == 'l'
            && s.get_char(j + 3) == 's' && s.get_char(j + 4) == 'e';
        if five {
            proof {
                reveal_strlit("false");
                assert(s@.subrange(j as int, j + 5) =~= "false"@);
            }
            Some((Json::Bool(false), j + 5))
        } else {
            proof {
                reveal_strlit("false");
                if spec_lit_at(s@, j as int, "false"@) {
                    assert(s@.subrange(j as int, j + 5)[1] == s@[j + 1]);
                    assert(s@.subrange(j as int, j + 5)[2] == s@[j + 2]);
                    assert(s@.subrange(j as int, j + 5)[3] == s@[j + 3]);
                    assert(s@.subrange(j as int, j + 5)[4] == s@[j + 4]);
                }
            }
            None
        }
    } else if c == '"' {
        match parse_string_body(s, j + 1) {
            None => None,
            Some((t, k)) => Some((Json::Str(t), k)),
        }
    } else if c == '-' || is_digit_char(c) {
        match skip_number(s, j) {
            None => None,
            Some(k) => Some((Json::Num, k)),
        }
    } else if c == '[' {
        if depth == 0 {
            return None;
        }
        match parse_array(s, j + 1, depth - 1) {
            None => None,
            Some((items, k)) => Some((Json::Arr(items), k)),
        }
    } else if c == '{' {
        if depth == 0 {
            return None;
        }
        match parse_object(s, j + 1, depth - 1) {
            None => None,
            Some((members, k)) => Some((Json::Obj(members), k)),
        }
    } else {
        None
    }
}

/// Reads the rest of an array from just after its `[`.
fn parse_array(s: &str, i: usize, depth: u32) -> (r: Option<(Vec<Json>, usize)>)
    requires
        i <= s@.len(),
    ensures
        (match r {
            None => spec_parse_array(s@, i as int, depth) is None,
            Some((items, j)) => spec_parse_array(s@, i as int, depth) == Some(
                (view_json_seq(items@), j as int),
            ) && i < j <= s@.len(),
        }),
    decreases s@.len() - i, 2int,
{
    let n = s.unicode_len();
    let j = skip_ws(s, i);
    if j >= n {
        return None;
    }
    if s.get_char(j) == ']' {
        let items: Vec<Json> = Vec::new();
        assert(view_json_seq(items@) =~= Seq::<JsonSpec>::empty());
        return Some((items, j + 1));
    }
    parse_elements(s, i, depth)
}

/// Reads one or more comma-separated array elements from `i`.
fn parse_elements(s: &str, i: usize, depth: u32) -> (r: Option<(Vec<Json>, usize)>)
    requires
        i <= s@.len(),
    ensures
        (match r {
            None => spec_parse_elements(s@, i as int, depth) is None,
            Some((items, j)) => spec_parse_elements(s@, i as int, depth) == Some(
                (view_json_seq(items@), j as int),
            ) && i < j <= s@.len(),
        }),
    decreases s@.len() - i, 1int,
{
    let n = s.unicode_len();
    let mut items: Vec<Json> = Vec::new();
    let mut j: usize = i;
    assert(view_json_seq(items@) =~= Seq::<JsonSpec>::empty());
    loop
        invariant
            i <= j <= n,
            n == s@.len(),
            (match spec_parse_elements(s@, j as int, depth) {
                Some((rest, end)) => spec_parse_elements(s@, i as int, depth) == Some(
                    (view_json_seq(items@) + rest, end),
                ),
                None => spec_parse_elements(s@, i as int, depth) is None,
            }),
        decreases s@.len() - j, 0int,
    {
        let (v, k) = match parse_value(s, j, depth) {
            None => {
                return None;
            },
            Some(p) => p,
        };
        let k2 = skip_ws(s, k);
        if k2 >= n {
            return None;
        }
        let c = s.get_char(k2);
        if c == ']' {
            let ghost old_items = items@;
            items.push(v);
            proof {
                lemma_view_seq_push(old_items, v);
                assert(view_json_seq(old_items) + (seq![view_json(v)]
                    + Seq::<JsonSpec>::empty()) =~= view_json_seq(items@)
                    + Seq::<JsonSpec>::empty());
                assert(view_json_seq(items@) + Seq::<JsonSpec>::empty()
                    =~= view_json_seq(items@));
                assert(view_json_seq(old_items) + seq![view_json(v)]
                    =~= view_json_seq(items@));
            }
            return Some((items, k2 + 1));
        }
        if c == ',' {
            let ghost jo = j as int;
            let ghost old_items = items@;
            items.push(v);
            j = k2 + 1;
            proof {
                lemma_view_seq_push(old_items, v);
                let tailp = spec_parse_elements(s@, j as int, depth);
                if tailp is Some {
                    let (rest, end) = tailp->0;
                    assert(spec_parse_elements(s@, jo, depth) == Some(
                        (seq![view_json(v)] + rest, end),
                    ));
                    assert(view_json_seq(old_items) + (seq![view_json(v)] + rest)
                        =~= view_json_seq(items@) + rest);
                }
            }
        } else {
            return None;
        }
    }
}

/// Reads the rest of an object from just after its `{`.
fn parse_object(s: &str, i: usize, depth: u32) -> (r: Option<(Vec<(String, Json)>, usize)>)
    requires
        i <= s@.len(),
    ensures
        (match r {
            None => spec_parse_object(s@, i as int, depth) is None,
            Some((members, j)) => spec_parse_object(s@, i as int, depth) == Some(
                (view_json_entries(members@), j as int),
            ) && i < j <= s@.len(),
        }),
    decreases s@.len() - i, 2int,
{
    let n = s.unicode_len();
    let j = skip_ws(s, i);
    if j >= n {
        return None;
    }
    if s.get_char(j) == '}' {
        let members: Vec<(String, Json)> = Vec::new();
        assert(view_json_entries(members@) =~= Seq::<(Seq<char>, JsonSpec)>::empty());
        return Some((members, j + 1));
    }
    parse_members(s, i, depth)
}

/// Reads one or more comma-separated `"key": value` members from `i`.
fn parse_members(s: &str, i: usize, depth: u32) -> (r: Option<(Vec<(String, Json)>, usize)>)
    requires
        i <= s@.len(),
    ensures
        (match r {
            None => spec_parse_members(s@, i as int, depth) is None,
            Some((members, j)) => spec_parse_members(s@, i as int, depth) == Some(
                (view_json_entries(members@), j as int),
            ) && i < j <= s@.len(),
        }),
    decreases s@.len() - i, 1int,
{
    let n = s.unicode_len();
    let mut members: Vec<(String, Json)> = Vec::new();
    let mut j: usize = i;
    assert(view_json_entries(members@) =~= Seq::<(Seq<char>, JsonSpec)>::empty());
    loop
        invariant
            i <= j <= n,
            n == s@.len(),
            (match spec_parse_members(s@, j as int, depth) {
                Some((rest, end)) => spec_parse_members(s@, i as int, depth) == Some(
                    (view_json_entries(members@) + rest, end),
                ),
                None => spec_parse_members(s@, i as int, depth) is None,
            }),
        decreases s@.len() - j, 0int,
    {
        let j2 = skip_ws(s, j);
        if j2 >= n || s.get_char(j2) != '"' {
            return None;
        }
        let (key, k) = match parse_string_body(s, j2 + 1) {
            None => {
                return None;
            },
            Some(p) => p,
        };
        let k2 = skip_ws(s, k);
        if k2 >= n || s.get_char(k2) != ':' {
            return None;
        }
        let (v, m) = match parse_value(s, k2 + 1, depth) {
            None => {
                return None;
            },
            Some(p) => p,
        };
        let m2 = skip_ws(s, m);
        if m2 >= n {
            return None;
        }
        let c = s.get_char(m2);
        if c == '}' {
            let ghost old_members = members@;
            let ghost keyv = key@;
            let ghost vv = view_json(v);
            members.push((key, v));
            proof {
                lemma_view_entries_push(old_members, key, v);
                assert(view_json_entries(old_members) + seq![(keyv, vv)]
                    =~= view_json_entries(members@));
            }
            return Some((members, m2 + 1));
        }
        if c == ',' {
            let ghost jo = j as int;
            let ghost old_members = members@;
            let ghost keyv = key@;
            let ghost vv = view_json(v);
            members.push((key, v));
            j = m2 + 1;
            proof {
                lemma_view_entries_push(old_members, key, v);
                let tailp = spec_parse_members(s@, j as int, depth);
                if tailp is Some {
                    let (rest, end) = tailp->0;
                    assert(spec_parse_members(s@, jo, depth) == Some(
                        (seq![(keyv, vv)] + rest, end),
                    ));
                    assert(view_json_entries(old_members) + (seq![(keyv, vv)] + rest)
                        =~= view_json_entries(members@) + rest);
                }
            }
        } else {
            return None;
        }
    }
}

/// Reads a whole JSON document: one value with nothing but white space
/// after it.
pub fn parse_document(s: &str) -> (r: Option<Json>)
    ensures
        (match r {
            None => spec_parse_document(s@) is None,
            Some(v) => spec_parse_document(s@) == Some(view_json(v)),
        }),
{
    let n = s.unicode_len();
    match parse_value(s, 0, JSON_DEPTH_LIMIT) {
        None => None,
        Some((v, j)) => {
            let j2 = skip_ws(s, j);
            if j2 == n {
                Some(v)
            } else {
                None
            }
        },
    }
}

/// The character that renders the hexadecimal digit `d`.
pub open spec fn spec_hex_digit(d: nat) -> char {
    if d < 10 {
        ((48 + d) as u32) as char
    } else {
        ((87 + d) as u32) as char
    }
}

/// How one character is written inside a JSON string: itself, a two-character
/// escape, or a `\u00XX` escape for the remaining control characters.
pub open spec fn spec_escape_char(c: char) -> Seq<char> {
    if c == '"' {
        seq!['\\', '"']
    } else if c == '\\' {
        seq!['\\', '\\']
    } else if c == '\n' {
        seq!['\\', 'n']
    } else if c == '\r' {
        seq!['\\', 'r']
    } else if c == '\t' {
        seq!['\\', 't']
    } else if c == '\u{8}' {
        seq!['\\', 'b']
    } else if c == '\u{c}' {
        seq!['\\', 'f']
    } else if (c as u32) < 0x20 {
        seq!['\\', 'u', '0', '0', spec_hex_digit(((c as u32) / 16) as nat), spec_hex_digit(
            ((c as u32) % 16) as nat,
        )]
    } else {
        seq![c]
    }
}

/// How a whole string is written inside a JSON string literal.
pub open spec fn spec_escape(s: Seq<char>) -> Seq<char>
    decreases s.len(),
{
    if s.len() == 0 {
        Seq::empty()
    } else {
        spec_escape_char(s[0]) + spec_escape(s.drop_first())
    }
}

proof fn lemma_escape_push(s: Seq<char>, c: char)
    ensures
        spec_escape(s.push(c)) == spec_escape(s) + spec_escape_char(c),
    decreases s.len(),
{
    if s.len() == 0 {
        assert(s.push(c)[0] == c);
        assert(s.push(c).drop_first() =~= Seq::<char>::empty());
        assert(spec_escape(Seq::<char>::empty()) == Seq::<char>::empty());
        assert(spec_escape(s.push(c)) =~= spec_escape_char(c));
        assert(spec_escape(s) + spec_escape_char(c) =~= spec_escape_char(c));
    } else {
        assert(s.push(c)[0] == s[0]);
        assert(s.push(c).drop_first() =~= s.drop_first().push(c));
        lemma_escape_push(s.drop_first(), c);
        assert(spec_escape(s.push(c)) =~= spec_escape(s) + spec_escape_char(c));
    }
}

/// The quoted, escaped JSON form of `s`.
pub open spec fn spec_quote(s: Seq<char>) -> Seq<char> {
    seq!['"'] + spec_escape(s) + seq!['"']
}

/// Writes `s` as a quoted JSON string literal.
pub fn quote_json_string(s: &str) -> (r: String)
    ensures
        r@ == spec_quote(s@),
{
    let n = s.unicode_len();
    let mut out = String::new();
    out.push('"');
    let mut i: usize = 0;
    assert(s@.subrange(0, 0) =~= Seq::<char>::empty());
    while i < n
        invariant
            0 <= i <= n,
            n == s@.len(),
            out@ == seq!['"'] + spec_escape(s@.subrange(0, i as int)),
        decreases n - i,
    {
        let c = s.get_char(i);
        proof {
            lemma_escape_push(s@.subrange(0, i as int), c);
            assert(s@.subrange(0, i as int).push(c) =~= s@.subrange(0, i + 1 as int));
        }
        if c == '"' {
            out.push('\\');
            out.push('"');
        } else if c == '\\' {
            out.push('\\');
            out.push('\\');
        } else if c == '\n' {
            out.push('\\');
            out.push('n');
        } else if c == '\r' {
            out.push('\\');
            out.push('r');
        } else if c == '\t' {
            out.push('\\');
            out.push('t');
        } else if c == '\u{8}' {
            out.push('\\');
            out.push('b');
        } else if c == '\u{c}' {
            out.push('\\');
            out.push('f');
        } else if (c as u32) < 0x20 {
            out.push('\\');
            out.push('u');
            out.push('0');
            out.push('0');
            let u = c as u32;
            let hi = u / 16;
            let lo = u % 16;
            let hc: char = if hi < 10 {
                ((48 + hi) as u8) as char
            } else {
                ((87 + hi) as u8) as char
            };
            let lc: char = if lo < 10 {
                ((48 + lo) as u8) as char
            } else {
                ((87 + lo) as u8) as char
            };
            out.push(hc);
            out.push(lc);
            assert(out@ == seq!['"'] + spec_escape(s@.subrange(0, i + 1 as int)));
        } else {
            out.push(c);
        }
        i = i + 1;
    }
    out.push('"');
    assert(s@.subrange(0, n as int) =~= s@);
    out
}

} // verus!
