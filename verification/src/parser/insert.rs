//! The insert statement: `insert into <table> (<fields>) values (<values>)`.

use vstd::prelude::*;
use vstd::string::StrSliceExecFns;

use super::ParseError;
use super::scan::element_len;
use super::scan::field_elems;
use super::scan::ident_len;
use super::scan::match_kw;
use super::scan::matches_kw;
use super::scan::char_at_is;
use super::scan::parse_ident;
use super::scan::skip_space;
use super::scan::space_len;
use super::scan::spec_fields_from;

verus! {

/// A parsed insert: the table name and the (field, value) pairs, in the
/// order written.
#[derive(Debug, PartialEq)]
pub struct Insert {
    pub table: String,
    pub values: Vec<(String, String)>,
}

/// A parenthesized, comma-separated name list at `p`.
pub open spec fn spec_paren_fields(s: Seq<char>, p: int) -> Option<(int, Seq<Seq<char>>)> {
    if 0 <= p < s.len() && s[p] == '(' && element_len(s, p + 1, false) > 0 {
        let (e, names) = spec_fields_from(s, p + 1, false);
        if e < s.len() && s[e] == ')' {
            Some((e + 1, names))
        } else {
            None
        }
    } else {
        None
    }
}

/// Whitespace, the keyword `kw` (case-insensitive), whitespace, then an
/// identifier: the table clause of both statement forms.
pub open spec fn spec_table_kw(s: Seq<char>, p: int, kw: Seq<char>) -> Option<(int, Seq<char>)> {
    let a = space_len(s, p);
    if a >= 1 && matches_kw(s, p + a, kw) {
        let q = p + a + kw.len();
        let b = space_len(s, q);
        if b >= 1 && ident_len(s, q + b) > 0 {
            Some((q + b + ident_len(s, q + b), s.subrange(q + b, q + b + ident_len(s, q + b))))
        } else {
            None
        }
    } else {
        None
    }
}

/// The whole insert statement: its end, the table, the field names, and the
/// value names.
pub open spec fn spec_insert(s: Seq<char>) -> Option<
    (int, Seq<char>, Seq<Seq<char>>, Seq<Seq<char>>),
> {
    if matches_kw(s, 0, "insert"@) {
        match spec_table_kw(s, "insert"@.len() as int, "into"@) {
            Some((p2, table)) => {
                let a = space_len(s, p2);
                if a >= 1 {
                    match spec_paren_fields(s, p2 + a) {
                        Some((p3, fields)) => {
                            let b = space_len(s, p3);
                            if b >= 1 && matches_kw(s, p3 + b, "values"@) {
                                let q = p3 + b + "values"@.len();
                                let c = space_len(s, q);
                                if c >= 1 {
                                    match spec_paren_fields(s, q + c) {
                                        Some((p4, values)) => Some((p4, table, fields, values)),
                                        None => None,
                                    }
                                } else {
                                    None
                                }
                            } else {
                                None
                            }
                        },
                        None => None,
                    }
                } else {
                    None
                }
            },
            None => None,
        }
    } else {
        None
    }
}

/// Parse a parenthesized name list at `p`.
pub(crate) fn paren_fields_at<'a>(s: &'a str, p: usize) -> (r: Option<(usize, Vec<&'a str>)>)
    requires
        p <= s@.len(),
    ensures
        match r {
            Some((q, names)) => spec_paren_fields(s@, p as int) is Some && q == spec_paren_fields(
                s@,
                p as int,
            )->Some_0.0 && q <= s@.len() && names@.map_values(|t: &'a str| t@)
                == spec_paren_fields(s@, p as int)->Some_0.1,
            None => spec_paren_fields(s@, p as int) is None,
        },
{
    let n = s.unicode_len();
    if !char_at_is(s, p, '(') {
        return None;
    }
    proof {
        assert(p < n);
    }
    let (e, names) = match field_elems(s, p + 1, false) {
        Some(x) => x,
        None => {
            return None;
        },
    };
    if !char_at_is(s, e, ')') {
        return None;
    }
    proof {
        assert(e < n);
    }
    Some((e + 1, names))
}

/// Parse the table clause at `p`: whitespace, `kw`, whitespace, identifier.
pub(crate) fn table_at<'a>(s: &'a str, p: usize, kw: &str) -> (r: Option<(usize, &'a str)>)
    requires
        p <= s@.len(),
    ensures
        match r {
            Some((q, table)) => spec_table_kw(s@, p as int, kw@) is Some && q == spec_table_kw(
                s@,
                p as int,
                kw@,
            )->Some_0.0 && q <= s@.len() && table@ == spec_table_kw(s@, p as int, kw@)->Some_0.1,
            None => spec_table_kw(s@, p as int, kw@) is None,
        },
{
    let n = s.unicode_len();
    let a = skip_space(s, p);
    if a == p {
        return None;
    }
    if !match_kw(s, a, kw) {
        return None;
    }
    proof {
        assert(a + kw@.len() <= n);
    }
    let q = a + kw.unicode_len();
    let b = skip_space(s, q);
    if b == q {
        return None;
    }
    parse_ident(s, b)
}

/// Parse a parenthesized field list at the start of `input`, handing back
/// the rest of the input.
pub fn field_parser<'a>(input: &'a str) -> (r: Result<(&'a str, Vec<&'a str>), ParseError>)
    ensures
        match r {
            Ok((rest, names)) => spec_paren_fields(input@, 0) is Some && rest@ == input@.subrange(
                spec_paren_fields(input@, 0)->Some_0.0,
                input@.len() as int,
            ) && names@.map_values(|t: &'a str| t@) == spec_paren_fields(input@, 0)->Some_0.1,
            Err(e) => e == ParseError::Syntax && spec_paren_fields(input@, 0) is None,
        },
{
    match paren_fields_at(input, 0) {
        Some((q, names)) => Ok((input.substring_char(q, input.unicode_len()), names)),
        None => Err(ParseError::Syntax),
    }
}

/// Parse the ` into <table>` clause at the start of `input`, handing back
/// the rest of the input.
pub fn table_parser<'a>(input: &'a str) -> (r: Result<(&'a str, &'a str), ParseError>)
    ensures
        match r {
            Ok((rest, table)) => spec_table_kw(input@, 0, "into"@) is Some && rest@
                == input@.subrange(
                spec_table_kw(input@, 0, "into"@)->Some_0.0,
                input@.len() as int,
            ) && table@ == spec_table_kw(input@, 0, "into"@)->Some_0.1,
            Err(e) => e == ParseError::Syntax && spec_table_kw(input@, 0, "into"@) is None,
        },
{
    match table_at(input, 0, "into") {
        Some((q, table)) => Ok((input.substring_char(q, input.unicode_len()), table)),
        None => Err(ParseError::Syntax),
    }
}

/// Parse an insert statement at the start of `input`.  The field list and
/// the value list must be of equal length; the pairs are kept in the order
/// written.
pub fn insert_parser<'a>(input: &'a str) -> (r: Result<(&'a str, Insert), ParseError>)
    ensures
        match r {
            Ok((rest, ins)) => spec_insert(input@) is Some && {
                let (e, table, fields, values) = spec_insert(input@)->Some_0;
                &&& fields.len() == values.len()
                &&& rest@ == input@.subrange(e, input@.len() as int)
                &&& ins.table@ == table
                &&& ins.values@.len() == fields.len()
                &&& forall|i: int|
                    0 <= i < fields.len() ==> (#[trigger] ins.values@[i]).0@ == fields[i]
                        && ins.values@[i].1@ == values[i]
            },
            Err(e) => {
                &&& (e == ParseError::Syntax <==> spec_insert(input@) is None)
                &&& (e == ParseError::LengthMismatch <==> spec_insert(input@) is Some && {
                    let (_e, _t, fields, values) = spec_insert(input@)->Some_0;
                    fields.len() != values.len()
                })
            },
        },
{
    if !match_kw(input, 0, "insert") {
        return Err(ParseError::Syntax);
    }
    let (p2, table) = match table_at(input, "insert".unicode_len(), "into") {
        Some(x) => x,
        None => {
            return Err(ParseError::Syntax);
        },
    };
    let a = skip_space(input, p2);
    if a == p2 {
        return Err(ParseError::Syntax);
    }
    let (p3, fields) = match paren_fields_at(input, a) {
        Some(x) => x,
        None => {
            return Err(ParseError::Syntax);
        },
    };
    let b = skip_space(input, p3);
    if b == p3 || !match_kw(input, b, "values") {
        return Err(ParseError::Syntax);
    }
    let n = input.unicode_len();
    proof {
        assert(b + "values"@.len() <= n);
    }
    let q = b + "values".unicode_len();
    let c = skip_space(input, q);
    if c == q {
        return Err(ParseError::Syntax);
    }
    let (p4, values) = match paren_fields_at(input, c) {
        Some(x) => x,
        None => {
            return Err(ParseError::Syntax);
        },
    };
    if fields.len() != values.len() {
        return Err(ParseError::LengthMismatch);
    }
    let mut pairs: Vec<(String, String)> = Vec::new();
    let mut i: usize = 0;
    while i < fields.len()
        invariant
            i <= fields@.len(),
            fields@.len() == values@.len(),
            pairs@.len() == i,
            forall|j: int|
                0 <= j < i ==> (#[trigger] pairs@[j]).0@ == fields@[j]@ && pairs@[j].1@
                    == values@[j]@,
        decreases fields@.len() - i,
    {
        pairs.push((fields[i].to_owned(), values[i].to_owned()));
        i = i + 1;
    }
    Ok((
        input.substring_char(p4, input.unicode_len()),
        Insert { table: table.to_owned(), values: pairs },
    ))
}

} // verus!
