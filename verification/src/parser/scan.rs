//! Character scanners shared by the statement parsers: whitespace, ASCII
//! identifiers, digit runs, case-insensitive keywords, and comma-separated
//! name lists, each with an exact specification over the input characters.

use vstd::prelude::*;
use vstd::string::StrSliceExecFns;

use crate::text::is_digit_char;

verus! {

/// The whitespace characters the grammar skips.
pub open spec fn is_space(c: char) -> bool {
    c == ' ' || c == '\t' || c == '\n' || c == '\r'
}

/// An ASCII letter.
pub open spec fn is_alpha(c: char) -> bool {
    ('a' <= c && c <= 'z') || ('A' <= c && c <= 'Z')
}

/// A letter or a decimal digit.
pub open spec fn is_alnum(c: char) -> bool {
    is_alpha(c) || is_digit_char(c)
}

/// Case-insensitive character equality over ASCII letters.
pub open spec fn eq_ci(a: char, b: char) -> bool {
    a == b || (('A' <= a && a <= 'Z') && (a as u32) + 32 == (b as u32)) || (('A' <= b && b <= 'Z')
        && (b as u32) + 32 == (a as u32))
}

/// How many whitespace characters stand at `p`.
pub open spec fn space_len(s: Seq<char>, p: int) -> nat
    decreases s.len() - p,
{
    if 0 <= p < s.len() && is_space(s[p]) {
        1 + space_len(s, p + 1)
    } else {
        0
    }
}

/// How many letter-or-digit characters stand at `p`.
pub open spec fn alnum_len(s: Seq<char>, p: int) -> nat
    decreases s.len() - p,
{
    if 0 <= p < s.len() && is_alnum(s[p]) {
        1 + alnum_len(s, p + 1)
    } else {
        0
    }
}

/// How many decimal digits stand at `p`.
pub open spec fn digits_len(s: Seq<char>, p: int) -> nat
    decreases s.len() - p,
{
    if 0 <= p < s.len() && is_digit_char(s[p]) {
        1 + digits_len(s, p + 1)
    } else {
        0
    }
}

/// The length of the identifier at `p`: a letter followed by letters and
/// digits, or nothing.
pub open spec fn ident_len(s: Seq<char>, p: int) -> nat {
    if 0 <= p < s.len() && is_alpha(s[p]) {
        1 + alnum_len(s, p + 1)
    } else {
        0
    }
}

/// Whether the keyword `kw` stands at `p`, compared case-insensitively.
pub open spec fn matches_kw(s: Seq<char>, p: int, kw: Seq<char>) -> bool {
    0 <= p && p + kw.len() <= s.len() && forall|i: int| 0 <= i < kw.len() ==> eq_ci(s[p + i], kw[i])
}

/// Whether a whitespace character stands at `q`.
pub fn space_at(s: &str, q: usize) -> (r: bool)
    requires
        q <= s@.len(),
    ensures
        r == (q < s@.len() && is_space(s@[q as int])),
{
    if q >= s.unicode_len() {
        return false;
    }
    let c = s.get_char(q);
    c == ' ' || c == '\t' || c == '\n' || c == '\r'
}

/// Whether a letter or digit stands at `q`.
pub fn alnum_at(s: &str, q: usize) -> (r: bool)
    requires
        q <= s@.len(),
    ensures
        r == (q < s@.len() && is_alnum(s@[q as int])),
{
    if q >= s.unicode_len() {
        return false;
    }
    let c = s.get_char(q);
    ('a' <= c && c <= 'z') || ('A' <= c && c <= 'Z') || ('0' <= c && c <= '9')
}

/// Whether a decimal digit stands at `q`.
pub fn digit_at(s: &str, q: usize) -> (r: bool)
    requires
        q <= s@.len(),
    ensures
        r == (q < s@.len() && is_digit_char(s@[q as int])),
{
    if q >= s.unicode_len() {
        return false;
    }
    let c = s.get_char(q);
    '0' <= c && c <= '9'
}

/// Skip the whitespace at `p`.
pub fn skip_space(s: &str, p: usize) -> (r: usize)
    requires
        p <= s@.len(),
    ensures
        r == p + space_len(s@, p as int),
        r <= s@.len(),
{
    let n = s.unicode_len();
    let mut q = p;
    while space_at(s, q)
        invariant
            p <= q <= n,
            n == s@.len(),
            p + space_len(s@, p as int) == q + space_len(s@, q as int),
        decreases n - q,
    {
        q = q + 1;
    }
    q
}

/// The end of the identifier at `p`, with its text.
pub fn parse_ident<'a>(s: &'a str, p: usize) -> (r: Option<(usize, &'a str)>)
    requires
        p <= s@.len(),
    ensures
        match r {
            Some((q, id)) => ident_len(s@, p as int) > 0 && q == p + ident_len(s@, p as int) && q
                <= s@.len() && id@ == s@.subrange(p as int, q as int),
            None => ident_len(s@, p as int) == 0,
        },
{
    let n = s.unicode_len();
    if p >= n {
        return None;
    }
    let c = s.get_char(p);
    if !(('a' <= c && c <= 'z') || ('A' <= c && c <= 'Z')) {
        return None;
    }
    let mut q = p + 1;
    while alnum_at(s, q)
        invariant
            p < q <= n,
            n == s@.len(),
            p + 1 + alnum_len(s@, p + 1) == q + alnum_len(s@, q as int),
        decreases n - q,
    {
        q = q + 1;
    }
    Some((q, s.substring_char(p, q)))
}

/// The end of the digit run at `p`, with its text.
pub fn parse_digits<'a>(s: &'a str, p: usize) -> (r: Option<(usize, &'a str)>)
    requires
        p <= s@.len(),
    ensures
        match r {
            Some((q, ds)) => digits_len(s@, p as int) > 0 && q == p + digits_len(s@, p as int) && q
                <= s@.len() && ds@ == s@.subrange(p as int, q as int),
            None => digits_len(s@, p as int) == 0,
        },
{
    let n = s.unicode_len();
    if p >= n {
        return None;
    }
    let c = s.get_char(p);
    if !('0' <= c && c <= '9') {
        return None;
    }
    let mut q = p + 1;
    while digit_at(s, q)
        invariant
            p < q <= n,
            n == s@.len(),
            p + digits_len(s@, p as int) == q + digits_len(s@, q as int),
        decreases n - q,
    {
        q = q + 1;
    }
    Some((q, s.substring_char(p, q)))
}

/// Whether the keyword `kw` stands at `p`, compared case-insensitively.
pub fn match_kw(s: &str, p: usize, kw: &str) -> (r: bool)
    requires
        p <= s@.len(),
    ensures
        r == matches_kw(s@, p as int, kw@),
{
    let n = s.unicode_len();
    let m = kw.unicode_len();
    if n - p < m {
        return false;
    }
    let mut i: usize = 0;
    while i < m
        invariant
            i <= m,
            m == kw@.len(),
            n == s@.len(),
            p + m <= n,
            forall|j: int| 0 <= j < i ==> eq_ci(s@[p + j], kw@[j]),
        decreases m - i,
    {
        let a = s.get_char(p + i);
        let b = kw.get_char(i);
        let same = a == b || (('A' <= a && a <= 'Z') && (a as u32) + 32 == (b as u32)) || (('A' <= b
            && b <= 'Z') && (b as u32) + 32 == (a as u32));
        if !same {
            return false;
        }
        i = i + 1;
    }
    true
}

/// Whether the character at `p` is `c`.
pub fn char_at_is(s: &str, p: usize, c: char) -> (r: bool)
    requires
        p <= s@.len(),
    ensures
        r == (p < s@.len() && s@[p as int] == c),
{
    if p >= s.unicode_len() {
        false
    } else {
        s.get_char(p) == c
    }
}

/// The length of one list element at `p`: an identifier, or a lone `*` where
/// the list allows it.
pub open spec fn element_len(s: Seq<char>, p: int, star: bool) -> nat {
    if star && 0 <= p < s.len() && s[p] == '*' {
        1
    } else {
        ident_len(s, p)
    }
}

/// The length of an optional list separator at `q`: spaces, a comma, spaces;
/// nothing if no comma follows the spaces.
pub open spec fn sep_len(s: Seq<char>, q: int) -> nat {
    let a = space_len(s, q);
    if 0 <= q && q + a < s.len() && s[q + a] == ',' {
        (a + 1 + space_len(s, q + a + 1)) as nat
    } else {
        0
    }
}

/// The comma-separated list of elements starting at `p`: its end position
/// and the element texts, greedily, a trailing separator consumed.
pub open spec fn spec_fields_from(s: Seq<char>, p: int, star: bool) -> (int, Seq<Seq<char>>)
    decreases s.len() - p,
        when 0 <= p <= s.len() && element_len(s, p, star) > 0
        via spec_fields_from_dec
{
    let q = p + element_len(s, p, star);
    let name = s.subrange(p, q);
    let p2 = q + sep_len(s, q);
    if element_len(s, p2, star) > 0 {
        let (e, rest) = spec_fields_from(s, p2, star);
        (e, seq![name] + rest)
    } else {
        (p2, seq![name])
    }
}

#[via_fn]
proof fn spec_fields_from_dec(s: Seq<char>, p: int, star: bool) {
    if 0 <= p <= s.len() && element_len(s, p, star) > 0 {
        let q = p + element_len(s, p, star);
        let p2 = q + sep_len(s, q);
        if element_len(s, p2, star) > 0 {
            assert(0 <= p2 < s.len());
            assert(p2 > p);
        }
    }
}

/// Skip the optional list separator at `q`.
pub fn skip_sep(s: &str, q: usize) -> (r: usize)
    requires
        q <= s@.len(),
    ensures
        r == q + sep_len(s@, q as int),
        r <= s@.len(),
{
    let n = s.unicode_len();
    let a = skip_space(s, q);
    if char_at_is(s, a, ',') {
        proof {
            assert(a < n);
        }
        skip_space(s, a + 1)
    } else {
        q
    }
}

/// Parse one list element at `p`.
pub fn parse_elem<'a>(s: &'a str, p: usize, star: bool) -> (r: Option<(usize, &'a str)>)
    requires
        p <= s@.len(),
    ensures
        match r {
            Some((q, name)) => element_len(s@, p as int, star) > 0 && q == p + element_len(
                s@,
                p as int,
                star,
            ) && q <= s@.len() && name@ == s@.subrange(p as int, q as int),
            None => element_len(s@, p as int, star) == 0,
        },
{
    let n = s.unicode_len();
    if star && char_at_is(s, p, '*') {
        proof {
            assert(p < n);
        }
        Some((p + 1, s.substring_char(p, p + 1)))
    } else {
        parse_ident(s, p)
    }
}

/// Parse the comma-separated list of elements at `p`.
pub fn field_elems<'a>(s: &'a str, p: usize, star: bool) -> (r: Option<(usize, Vec<&'a str>)>)
    requires
        p <= s@.len(),
    ensures
        match r {
            Some((q, names)) => element_len(s@, p as int, star) > 0 && q == spec_fields_from(
                s@,
                p as int,
                star,
            ).0 && q <= s@.len() && names@.map_values(|t: &'a str| t@) == spec_fields_from(
                s@,
                p as int,
                star,
            ).1,
            None => element_len(s@, p as int, star) == 0,
        },
{
    match parse_elem(s, p, star) {
        Some(_) => {},
        None => {
            return None;
        },
    }
    let mut names: Vec<&'a str> = Vec::new();
    let mut cur = p;
    loop
        invariant
            cur <= s@.len(),
            element_len(s@, p as int, star) > 0,
            element_len(s@, cur as int, star) > 0,
            spec_fields_from(s@, p as int, star).0 == spec_fields_from(s@, cur as int, star).0,
            spec_fields_from(s@, p as int, star).1 =~= names@.map_values(|t: &'a str| t@)
                + spec_fields_from(s@, cur as int, star).1,
        decreases s@.len() - cur,
    {
        let ghost names0 = names@;
        let (q, name) = match parse_elem(s, cur, star) {
            Some(f) => f,
            None => {
                proof {
                    assert(false);
                }
                return None;
            },
        };
        names.push(name);
        proof {
            assert(names@.map_values(|t: &'a str| t@) =~= names0.map_values(|t: &'a str| t@).push(
                name@,
            ));
        }
        let q2 = skip_sep(s, q);
        let more = match parse_elem(s, q2, star) {
            Some(_) => true,
            None => false,
        };
        if !more {
            proof {
                assert(spec_fields_from(s@, cur as int, star) == (
                    q2 as int,
                    seq![s@.subrange(cur as int, q as int)],
                ));
                assert(names@.map_values(|t: &'a str| t@) =~= names0.map_values(|t: &'a str| t@)
                    + seq![s@.subrange(cur as int, q as int)]);
            }
            return Some((q2, names));
        }
        proof {
            let tail = spec_fields_from(s@, q2 as int, star);
            assert(spec_fields_from(s@, cur as int, star) == (
                tail.0,
                seq![s@.subrange(cur as int, q as int)] + tail.1,
            ));
            assert(names0.map_values(|t: &'a str| t@) + spec_fields_from(
                s@,
                cur as int,
                star,
            ).1 =~= names@.map_values(|t: &'a str| t@) + tail.1);
        }
        cur = q2;
    }
}

} // verus!
