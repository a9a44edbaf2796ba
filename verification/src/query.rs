//! Turning the conditions of a select statement into engine arguments: an
//! inclusive time range and a canonical tag-equality set.

use vstd::prelude::*;

use crate::datapoint::Datapoint;
use crate::datapoint::tag_map;
use crate::datapoint::tags_sorted;
use crate::parser::select::Condition;
use crate::parser::select::Operator;
use crate::text::all_digits;
use crate::text::dec_val;
use crate::text::parse_u64_dec;
use crate::text::str_eq;

verus! {

/// How one condition on the temporal field narrows the range `[start, end]`,
/// saturating at the ends of time; a negated time matches nothing.
pub open spec fn spec_time_bounds(op: Operator, time: u64, start: u64, end: u64) -> (u64, u64) {
    match op {
        Operator::Ge => (time, end),
        Operator::Gt => (
            if time == u64::MAX {
                u64::MAX
            } else {
                (time + 1) as u64
            },
            end,
        ),
        Operator::Le => (start, time),
        Operator::Lt => (
            start,
            if time == 0 {
                0u64
            } else {
                (time - 1) as u64
            },
        ),
        Operator::Eq => (time, time),
        Operator::Ne => (start, 0u64),
    }
}

/// The engine arguments a condition list denotes, folded left to right over
/// the accumulator `(start, end, tags)`.  `None` for a condition the engine
/// does not define: a non-equality comparison on a tag field, or a temporal
/// value that is not a decimal number.
pub open spec fn spec_query_args(
    conds: Seq<Condition>,
    acc: (u64, u64, Map<Seq<char>, Seq<char>>),
) -> Option<(u64, u64, Map<Seq<char>, Seq<char>>)>
    decreases conds.len(),
{
    if conds.len() == 0 {
        Some(acc)
    } else {
        let c = conds[0];
        if c.field@ == "time"@ {
            if c.value@.len() > 0 && all_digits(c.value@) && dec_val(c.value@) <= u64::MAX {
                let (s2, e2) = spec_time_bounds(
                    c.operator,
                    dec_val(c.value@) as u64,
                    acc.0,
                    acc.1,
                );
                spec_query_args(conds.skip(1), (s2, e2, acc.2))
            } else {
                None
            }
        } else if c.operator == Operator::Eq {
            spec_query_args(conds.skip(1), (acc.0, acc.1, acc.2.insert(c.field@, c.value@)))
        } else {
            None
        }
    }
}

/// Narrow `[start, end]` by one condition on the temporal field.
pub fn apply_time_bounds(op: Operator, time: u64, start: u64, end: u64) -> (r: (u64, u64))
    ensures
        r == spec_time_bounds(op, time, start, end),
{
    match op {
        Operator::Ge => (time, end),
        Operator::Gt => (
            if time == u64::MAX {
                u64::MAX
            } else {
                time + 1
            },
            end,
        ),
        Operator::Le => (start, time),
        Operator::Lt => (
            start,
            if time == 0 {
                0
            } else {
                time - 1
            },
        ),
        Operator::Eq => (time, time),
        Operator::Ne => (start, 0),
    }
}

/// Turn the conditions of a select into engine arguments: the inclusive
/// time range (`[0, u32::MAX]` unless narrowed) and the tag set in
/// canonical order.  `None` for a condition the engine does not define.
pub fn conditions_to_query(conds: &Vec<Condition>) -> (r: Option<(u64, u64, Vec<(String, String)>)>)
    ensures
        match r {
            Some((start, end, tags)) => tags_sorted(tags@) && spec_query_args(
                conds@,
                (0u64, u32::MAX as u64, Map::<Seq<char>, Seq<char>>::empty()),
            ) == Some((start, end, tag_map(tags@))),
            None => spec_query_args(
                conds@,
                (0u64, u32::MAX as u64, Map::<Seq<char>, Seq<char>>::empty()),
            ) is None,
        },
{
    let mut start: u64 = 0;
    let mut end: u64 = u32::MAX as u64;
    let mut scratch = Datapoint::default();
    let mut i: usize = 0;
    proof {
        assert(conds@.skip(0) =~= conds@);
    }
    while i < conds.len()
        invariant
            i <= conds@.len(),
            scratch.wf(),
            spec_query_args(conds@, (0u64, u32::MAX as u64, Map::<Seq<char>, Seq<char>>::empty()))
                == spec_query_args(conds@.skip(i as int), (start, end, tag_map(scratch.tags@))),
        decreases conds@.len() - i,
    {
        let ghost rest = conds@.skip(i as int);
        proof {
            assert(rest[0] == conds@[i as int]);
            assert(rest.skip(1) =~= conds@.skip(i as int + 1));
        }
        let c = &conds[i];
        if str_eq(c.field.as_str(), "time") {
            let time = match parse_u64_dec(c.value.as_str()) {
                Some(t) => t,
                None => {
                    return None;
                },
            };
            let r = apply_time_bounds(c.operator, time, start, end);
            start = r.0;
            end = r.1;
        } else {
            if !matches!(c.operator, Operator::Eq) {
                return None;
            }
            scratch.add_tag(c.field.clone(), c.value.clone());
        }
        i = i + 1;
    }
    proof {
        assert(conds@.skip(conds@.len() as int) =~= Seq::<Condition>::empty());
    }
    Some((start, end, scratch.tags))
}

} // verus!
