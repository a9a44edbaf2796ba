//! The statement parser: a small recursive-descent grammar over textual
//! statements, producing either an insert request or a select request.

use vstd::prelude::*;

pub mod insert;
pub mod scan;
pub mod select;

use insert::Insert;
use insert::spec_insert;
use select::Select;
use select::spec_select;

verus! {

/// Why a statement was rejected.
#[derive(Debug, Clone, Copy, PartialEq, Eq, Structural)]
pub enum ParseError {
    /// The input does not match the grammar.
    Syntax,
    /// An insert names a different number of fields and values.
    LengthMismatch,
}

/// A parsed statement.
#[derive(Debug, PartialEq)]
pub enum SqlStatement {
    Select(Select),
    Insert(Insert),
}

/// Parse a statement: a select, or failing that an insert.
pub fn parse(input: &str) -> (r: Result<(&str, SqlStatement), ParseError>)
    ensures
        match r {
            Ok((rest, sql)) => match sql {
                SqlStatement::Select(sel) => spec_select(input@) is Some && {
                    let (e, table, fields, conds) = spec_select(input@)->Some_0;
                    &&& rest@ == input@.subrange(e, input@.len() as int)
                    &&& sel.table@ == table
                    &&& sel.fields@.map_values(|f: String| f@) == fields
                    &&& sel.conditions@.len() == conds.len()
                    &&& forall|i: int|
                        0 <= i < conds.len() ==> (#[trigger] sel.conditions@[i]).field@
                            == conds[i].0 && sel.conditions@[i].operator == conds[i].1
                            && sel.conditions@[i].value@ == conds[i].2
                },
                SqlStatement::Insert(ins) => spec_select(input@) is None && spec_insert(input@)
                    is Some && {
                    let (e, table, fields, values) = spec_insert(input@)->Some_0;
                    &&& rest@ == input@.subrange(e, input@.len() as int)
                    &&& fields.len() == values.len()
                    &&& ins.table@ == table
                    &&& ins.values@.len() == fields.len()
                    &&& forall|i: int|
                        0 <= i < fields.len() ==> (#[trigger] ins.values@[i]).0@ == fields[i]
                            && ins.values@[i].1@ == values[i]
                },
            },
            Err(e) => {
                &&& spec_select(input@) is None
                &&& (e == ParseError::LengthMismatch <==> spec_insert(input@) is Some && {
                    let (_e, _t, fields, values) = spec_insert(input@)->Some_0;
                    fields.len() != values.len()
                })
                &&& (e == ParseError::Syntax ==> spec_insert(input@) is None)
            },
        },
{
    match select::select_parser(input) {
        Ok((rest, sel)) => Ok((rest, SqlStatement::Select(sel))),
        Err(_) => match insert::insert_parser(input) {
            Ok((rest, ins)) => Ok((rest, SqlStatement::Insert(ins))),
            Err(e) => Err(e),
        },
    }
}

} // verus!
