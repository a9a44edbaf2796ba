//! The select statement:
//! `select <fields> from <table> [where <cond> [and <cond>]...]`.

use vstd::prelude::*;
use vstd::string::StrSliceExecFns;

use super::ParseError;
use super::insert::spec_table_kw;
use super::insert::table_at;
use super::scan::char_at_is;
use super::scan::digits_len;
use super::scan::element_len;
use super::scan::field_elems;
use super::scan::ident_len;
use super::scan::match_kw;
use super::scan::matches_kw;
use super::scan::parse_digits;
use super::scan::parse_ident;
use super::scan::skip_space;
use super::scan::space_len;
use super::scan::spec_fields_from;

verus! {

/// A comparison operator of a where clause.
#[derive(Debug, Clone, Copy, PartialEq, Eq, Structural)]
pub enum Operator {
    Eq,
    Ge,
    Gt,
    Le,
    Lt,
    Ne,
}

/// One `field <op> value` condition.
#[derive(Debug, PartialEq)]
pub struct Condition {
    pub field: String,
    pub operator: Operator,
    pub value: String,
}

/// A parsed select: the table, the requested fields, and the conditions.
#[derive(Debug, PartialEq)]
pub struct Select {
    pub table: String,
    pub fields: Vec<String>,
    pub conditions: Vec<Condition>,
}

/// The operator at `p`: `=` first, then the two-character forms, then the
/// remaining one-character forms.
pub open spec fn spec_op(s: Seq<char>, p: int) -> Option<(int, Operator)> {
    if 0 <= p < s.len() && s[p] == '=' {
        Some((p + 1, Operator::Eq))
    } else if 0 <= p && p + 2 <= s.len() && s[p] == '>' && s[p + 1] == '=' {
        Some((p + 2, Operator::Ge))
    } else if 0 <= p && p + 2 <= s.len() && s[p] == '<' && s[p + 1] == '=' {
        Some((p + 2, Operator::Le))
    } else if 0 <= p && p + 2 <= s.len() && s[p] == '!' && s[p + 1] == '=' {
        Some((p + 2, Operator::Ne))
    } else if 0 <= p < s.len() && s[p] == '>' {
        Some((p + 1, Operator::Gt))
    } else if 0 <= p < s.len() && s[p] == '<' {
        Some((p + 1, Operator::Lt))
    } else {
        None
    }
}

/// The condition value at `p`: a quoted identifier, or a digit run.
pub open spec fn spec_value(s: Seq<char>, p: int) -> Option<(int, Seq<char>)> {
    if 0 <= p < s.len() && s[p] == '\'' && ident_len(s, p + 1) > 0 && p + 1 + ident_len(s, p + 1)
        < s.len() && s[p + 1 + ident_len(s, p + 1)] == '\'' {
        Some((p + 2 + ident_len(s, p + 1), s.subrange(p + 1, p + 1 + ident_len(s, p + 1))))
    } else if digits_len(s, p) > 0 {
        Some((p + digits_len(s, p), s.subrange(p, p + digits_len(s, p))))
    } else {
        None
    }
}

/// The condition at `p`: field, optional spaces, operator, optional spaces,
/// value.
pub open spec fn spec_condition(s: Seq<char>, p: int) -> Option<
    (int, (Seq<char>, Operator, Seq<char>)),
> {
    if ident_len(s, p) > 0 {
        let f_end = p + ident_len(s, p);
        let op_p = f_end + space_len(s, f_end);
        match spec_op(s, op_p) {
            Some((op_end, op)) => {
                let v_p = op_end + space_len(s, op_end);
                match spec_value(s, v_p) {
                    Some((v_end, val)) => Some((v_end, (s.subrange(p, f_end), op, val))),
                    None => None,
                }
            },
            None => None,
        }
    } else {
        None
    }
}

/// The length of an optional ` and ` separator between conditions.
pub open spec fn cond_sep_len(s: Seq<char>, q: int) -> nat {
    let a = space_len(s, q);
    if a >= 1 && matches_kw(s, q + a, "and"@) {
        let b = space_len(s, q + a + "and"@.len());
        if b >= 1 {
            (a + "and"@.len() + b) as nat
        } else {
            0
        }
    } else {
        0
    }
}

/// The conditions starting at `p`, greedily, a trailing ` and ` consumed.
pub open spec fn spec_conditions_from(s: Seq<char>, p: int) -> (
    int,
    Seq<(Seq<char>, Operator, Seq<char>)>,
)
    decreases s.len() - p,
        when 0 <= p <= s.len() && spec_condition(s, p) is Some
        via spec_conditions_from_dec
{
    let (q, c) = spec_condition(s, p)->Some_0;
    let p2 = q + cond_sep_len(s, q);
    if spec_condition(s, p2) is Some {
        let (e, rest) = spec_conditions_from(s, p2);
        (e, seq![c] + rest)
    } else {
        (p2, seq![c])
    }
}

#[via_fn]
proof fn spec_conditions_from_dec(s: Seq<char>, p: int) {
    if 0 <= p <= s.len() && spec_condition(s, p) is Some {
        let (q, c) = spec_condition(s, p)->Some_0;
        assert(q > p);
        let p2 = q + cond_sep_len(s, q);
        if spec_condition(s, p2) is Some {
            assert(0 <= p2 < s.len());
        }
    }
}

/// The where clause at `p`: the keyword, whitespace, then at least one
/// condition.
pub open spec fn spec_where(s: Seq<char>, p: int) -> Option<
    (int, Seq<(Seq<char>, Operator, Seq<char>)>),
> {
    if matches_kw(s, p, "where"@) {
        let b = space_len(s, p + "where"@.len());
        if b >= 1 && spec_condition(s, p + "where"@.len() + b) is Some {
            Some(spec_conditions_from(s, p + "where"@.len() + b))
        } else {
            None
        }
    } else {
        None
    }
}

/// The whole select statement: its end, the table, the requested fields,
/// and the conditions (empty without a where clause).
pub open spec fn spec_select(s: Seq<char>) -> Option<
    (int, Seq<char>, Seq<Seq<char>>, Seq<(Seq<char>, Operator, Seq<char>)>),
> {
    if matches_kw(s, 0, "select"@) {
        let a = space_len(s, "select"@.len() as int);
        if a >= 1 && element_len(s, "select"@.len() + a as int, true) > 0 {
            let (p1, fields) = spec_fields_from(s, "select"@.len() + a as int, true);
            match spec_table_kw(s, p1, "from"@) {
                Some((p2, table)) => {
                    let d = space_len(s, p2);
                    if d >= 1 && spec_where(s, p2 + d) is Some {
                        let (p3, conds) = spec_where(s, p2 + d)->Some_0;
                        Some((p3, table, fields, conds))
                    } else {
                        Some((p2, table, fields, Seq::empty()))
                    }
                },
                None => None,
            }
        } else {
            None
        }
    } else {
        None
    }
}

/// Parse the operator at `p`.
fn op_at(s: &str, p: usize) -> (r: Option<(usize, Operator)>)
    requires
        p <= s@.len(),
    ensures
        match r {
            Some((q, op)) => spec_op(s@, p as int) == Some((q as int, op)) && q <= s@.len(),
            None => spec_op(s@, p as int) is None,
        },
{
    let n = s.unicode_len();
    proof {
        assert(n == s@.len());
    }
    if char_at_is(s, p, '=') {
        Some((p + 1, Operator::Eq))
    } else if char_at_is(s, p, '>') && char_at_is(s, p + 1, '=') {
        Some((p + 2, Operator::Ge))
    } else if char_at_is(s, p, '<') && char_at_is(s, p + 1, '=') {
        Some((p + 2, Operator::Le))
    } else if char_at_is(s, p, '!') && char_at_is(s, p + 1, '=') {
        Some((p + 2, Operator::Ne))
    } else if char_at_is(s, p, '>') {
        Some((p + 1, Operator::Gt))
    } else if char_at_is(s, p, '<') {
        Some((p + 1, Operator::Lt))
    } else {
        None
    }
}

/// Parse the condition value at `p`.
fn value_at<'a>(s: &'a str, p: usize) -> (r: Option<(usize, &'a str)>)
    requires
        p <= s@.len(),
    ensures
        match r {
            Some((q, v)) => spec_value(s@, p as int) is Some && q == spec_value(
                s@,
                p as int,
            )->Some_0.0 && q <= s@.len() && v@ == spec_value(s@, p as int)->Some_0.1,
            None => spec_value(s@, p as int) is None,
        },
{
    let n = s.unicode_len();
    if char_at_is(s, p, '\'') {
        proof {
            assert(p < n);
        }
        if let Some((e, id)) = parse_ident(s, p + 1) {
            if char_at_is(s, e, '\'') {
                proof {
                    assert(e < n);
                }
                return Some((e + 1, id));
            }
        }
        proof {
            assert(digits_len(s@, p as int) == 0);
        }
        None
    } else {
        parse_digits(s, p)
    }
}

/// Parse the condition at `p`.
fn condition_at(s: &str, p: usize) -> (r: Option<(usize, Condition)>)
    requires
        p <= s@.len(),
    ensures
        match r {
            Some((q, c)) => spec_condition(s@, p as int) is Some && {
                let (e, cv) = spec_condition(s@, p as int)->Some_0;
                q == e && q <= s@.len() && c.field@ == cv.0 && c.operator == cv.1 && c.value@
                    == cv.2
            },
            None => spec_condition(s@, p as int) is None,
        },
{
    let (f_end, field) = match parse_ident(s, p) {
        Some(x) => x,
        None => {
            return None;
        },
    };
    let op_p = skip_space(s, f_end);
    let (op_end, op) = match op_at(s, op_p) {
        Some(x) => x,
        None => {
            return None;
        },
    };
    let v_p = skip_space(s, op_end);
    let (v_end, value) = match value_at(s, v_p) {
        Some(x) => x,
        None => {
            return None;
        },
    };
    Some((v_end, Condition { field: field.to_owned(), operator: op, value: value.to_owned() }))
}

/// Skip an optional ` and ` separator at `q`.
fn skip_cond_sep(s: &str, q: usize) -> (r: usize)
    requires
        q <= s@.len(),
    ensures
        r == q + cond_sep_len(s@, q as int),
        r <= s@.len(),
{
    let n = s.unicode_len();
    let a = skip_space(s, q);
    if a > q && match_kw(s, a, "and") {
        proof {
            assert(a + "and"@.len() <= n);
        }
        let w = a + "and".unicode_len();
        let b = skip_space(s, w);
        if b > w {
            b
        } else {
            q
        }
    } else {
        q
    }
}

/// Parse the conditions at `p`.
fn conditions_from(s: &str, p: usize) -> (r: Option<(usize, Vec<Condition>)>)
    requires
        p <= s@.len(),
    ensures
        match r {
            Some((q, cs)) => spec_condition(s@, p as int) is Some && q == spec_conditions_from(
                s@,
                p as int,
            ).0 && q <= s@.len() && cs@.len() == spec_conditions_from(s@, p as int).1.len()
                && forall|i: int|
                0 <= i < cs@.len() ==> (#[trigger] cs@[i]).field@ == spec_conditions_from(
                    s@,
                    p as int,
                ).1[i].0 && cs@[i].operator == spec_conditions_from(s@, p as int).1[i].1
                    && cs@[i].value@ == spec_conditions_from(s@, p as int).1[i].2,
            None => spec_condition(s@, p as int) is None,
        },
{
    match condition_at(s, p) {
        Some(_) => {},
        None => {
            return None;
        },
    }
    let mut out: Vec<Condition> = Vec::new();
    let mut cur = p;
    loop
        invariant
            cur <= s@.len(),
            spec_condition(s@, p as int) is Some,
            spec_condition(s@, cur as int) is Some,
            spec_conditions_from(s@, p as int).0 == spec_conditions_from(s@, cur as int).0,
            spec_conditions_from(s@, p as int).1.len() == out@.len() + spec_conditions_from(
                s@,
                cur as int,
            ).1.len(),
            forall|i: int|
                0 <= i < out@.len() ==> (#[trigger] out@[i]).field@ == spec_conditions_from(
                    s@,
                    p as int,
                ).1[i].0 && out@[i].operator == spec_conditions_from(s@, p as int).1[i].1
                    && out@[i].value@ == spec_conditions_from(s@, p as int).1[i].2,
            forall|i: int|
                out@.len() <= i < spec_conditions_from(s@, p as int).1.len()
                    ==> spec_conditions_from(s@, p as int).1[i] == spec_conditions_from(
                    s@,
                    cur as int,
                ).1[i - out@.len()],
        decreases s@.len() - cur,
    {
        let ghost out0 = out@;
        let (q, c) = match condition_at(s, cur) {
            Some(x) => x,
            None => {
                proof {
                    assert(false);
                }
                return None;
            },
        };
        out.push(c);
        let q2 = skip_cond_sep(s, q);
        let more = match condition_at(s, q2) {
            Some(_) => true,
            None => false,
        };
        proof {
            let whole = spec_conditions_from(s@, p as int).1;
            let tail = spec_conditions_from(s@, cur as int);
            if more {
                let tail2 = spec_conditions_from(s@, q2 as int);
                assert(tail == (tail2.0, seq![tail.1[0]] + tail2.1));
            } else {
                assert(tail == (q2 as int, seq![tail.1[0]]));
            }
            assert(out@ == out0.push(c));
            assert(whole[out0.len() as int] == tail.1[0]);
        }
        if !more {
            return Some((q2, out));
        }
        cur = q2;
    }
}

/// Parse a bare field list (identifiers or `*`) at the start of `input`.
pub fn field_parser<'a>(input: &'a str) -> (r: Result<(&'a str, Vec<&'a str>), ParseError>)
    ensures
        match r {
            Ok((rest, names)) => element_len(input@, 0, true) > 0 && rest@ == input@.subrange(
                spec_fields_from(input@, 0, true).0,
                input@.len() as int,
            ) && names@.map_values(|t: &'a str| t@) == spec_fields_from(input@, 0, true).1,
            Err(e) => e == ParseError::Syntax && element_len(input@, 0, true) == 0,
        },
{
    match field_elems(input, 0, true) {
        Some((q, names)) => Ok((input.substring_char(q, input.unicode_len()), names)),
        None => Err(ParseError::Syntax),
    }
}

/// Parse the ` from <table>` clause at the start of `input`.
pub fn table_parser<'a>(input: &'a str) -> (r: Result<(&'a str, &'a str), ParseError>)
    ensures
        match r {
            Ok((rest, table)) => spec_table_kw(input@, 0, "from"@) is Some && rest@
                == input@.subrange(
                spec_table_kw(input@, 0, "from"@)->Some_0.0,
                input@.len() as int,
            ) && table@ == spec_table_kw(input@, 0, "from"@)->Some_0.1,
            Err(e) => e == ParseError::Syntax && spec_table_kw(input@, 0, "from"@) is None,
        },
{
    match table_at(input, 0, "from") {
        Some((q, table)) => Ok((input.substring_char(q, input.unicode_len()), table)),
        None => Err(ParseError::Syntax),
    }
}

/// Parse a where clause at the start of `input`.
pub fn where_parser(input: &str) -> (r: Result<(&str, Vec<Condition>), ParseError>)
    ensures
        match r {
            Ok((rest, cs)) => spec_where(input@, 0) is Some && {
                let (e, conds) = spec_where(input@, 0)->Some_0;
                &&& rest@ == input@.subrange(e, input@.len() as int)
                &&& cs@.len() == conds.len()
                &&& forall|i: int|
                    0 <= i < cs@.len() ==> (#[trigger] cs@[i]).field@ == conds[i].0
                        && cs@[i].operator == conds[i].1 && cs@[i].value@ == conds[i].2
            },
            Err(e) => e == ParseError::Syntax && spec_where(input@, 0) is None,
        },
{
    match where_at(input, 0) {
        Some((q, cs)) => Ok((input.substring_char(q, input.unicode_len()), cs)),
        None => Err(ParseError::Syntax),
    }
}

/// Parse a where clause at `p`.
fn where_at(s: &str, p: usize) -> (r: Option<(usize, Vec<Condition>)>)
    requires
        p <= s@.len(),
    ensures
        match r {
            Some((q, cs)) => spec_where(s@, p as int) is Some && {
                let (e, conds) = spec_where(s@, p as int)->Some_0;
                &&& q == e
                &&& q <= s@.len()
                &&& cs@.len() == conds.len()
                &&& forall|i: int|
                    0 <= i < cs@.len() ==> (#[trigger] cs@[i]).field@ == conds[i].0
                        && cs@[i].operator == conds[i].1 && cs@[i].value@ == conds[i].2
            },
            None => spec_where(s@, p as int) is None,
        },
{
    let n = s.unicode_len();
    if !match_kw(s, p, "where") {
        return None;
    }
    proof {
        assert(p + "where"@.len() <= n);
    }
    let w = p + "where".unicode_len();
    let b = skip_space(s, w);
    if b == w {
        return None;
    }
    conditions_from(s, b)
}

/// Parse a select statement at the start of `input`.
pub fn select_parser<'a>(input: &'a str) -> (r: Result<(&'a str, Select), ParseError>)
    ensures
        match r {
            Ok((rest, sel)) => spec_select(input@) is Some && {
                let (e, table, fields, conds) = spec_select(input@)->Some_0;
                &&& rest@ == input@.subrange(e, input@.len() as int)
                &&& sel.table@ == table
                &&& sel.fields@.map_values(|f: String| f@) == fields
                &&& sel.conditions@.len() == conds.len()
                &&& forall|i: int|
                    0 <= i < conds.len() ==> (#[trigger] sel.conditions@[i]).field@ == conds[i].0
                        && sel.conditions@[i].operator == conds[i].1 && sel.conditions@[i].value@
                        == conds[i].2
            },
            Err(e) => e == ParseError::Syntax && spec_select(input@) is None,
        },
{
    if !match_kw(input, 0, "select") {
        return Err(ParseError::Syntax);
    }
    let sl = "select".unicode_len();
    let a = skip_space(input, sl);
    if a == sl {
        return Err(ParseError::Syntax);
    }
    let (p1, fields) = match field_elems(input, a, true) {
        Some(x) => x,
        None => {
            return Err(ParseError::Syntax);
        },
    };
    let (p2, table) = match table_at(input, p1, "from") {
        Some(x) => x,
        None => {
            return Err(ParseError::Syntax);
        },
    };
    let mut outfields: Vec<String> = Vec::new();
    let mut i: usize = 0;
    while i < fields.len()
        invariant
            i <= fields@.len(),
            outfields@.len() == i,
            forall|j: int| 0 <= j < i ==> (#[trigger] outfields@[j])@ == fields@[j]@,
        decreases fields@.len() - i,
    {
        outfields.push(fields[i].to_owned());
        i = i + 1;
    }
    proof {
        assert(outfields@.map_values(|f: String| f@) =~= fields@.map_values(|t: &str| t@));
    }
    let d = skip_space(input, p2);
    let wh = if d > p2 {
        where_at(input, d)
    } else {
        None
    };
    match wh {
        Some((p3, conds)) => Ok((
            input.substring_char(p3, input.unicode_len()),
            Select { table: table.to_owned(), fields: outfields, conditions: conds },
        )),
        None => {
            proof {
                assert(!(space_len(input@, p2 as int) >= 1 && spec_where(
                    input@,
                    p2 as int + space_len(input@, p2 as int),
                ) is Some));
            }
            Ok((
                input.substring_char(p2, input.unicode_len()),
                Select { table: table.to_owned(), fields: outfields, conditions: Vec::new() },
            ))
        },
    }
}

} // verus!
