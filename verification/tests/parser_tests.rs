use tsdb::parser::insert::{field_parser, insert_parser, table_parser, Insert};
use tsdb::parser::select;
use tsdb::parser::select::{select_parser, Condition, Operator, Select};
use tsdb::parser::{parse, ParseError, SqlStatement};

#[test]
fn insert_test_basic() {
    assert_eq!(
        insert_parser("insert into x (a,b) values (c,d)"),
        Ok((
            "",
            Insert {
                table: "x".to_owned(),
                values: vec![
                    ("a".to_owned(), "c".to_owned()),
                    ("b".to_owned(), "d".to_owned())
                ],
            }
        ))
    );
    assert_eq!(
        insert_parser("insert into x (a,b) values (c)"),
        Err(ParseError::LengthMismatch)
    );
}

#[test]
fn insert_test_fields() {
    assert_eq!(field_parser("(xxx, yyy)"), Ok(("", vec!["xxx", "yyy"])));
    assert_eq!(field_parser("(aaa,bbb)"), Ok(("", vec!["aaa", "bbb"])));
    assert_eq!(
        field_parser("(a1a, b0b,c2c)"),
        Ok(("", vec!["a1a", "b0b", "c2c"]))
    );
    assert_eq!(field_parser("(a1a)"), Ok(("", vec!["a1a"])));
}

#[test]
fn insert_test_table() {
    assert_eq!(table_parser(" into table1"), Ok(("", "table1")));
    assert_eq!(table_parser(" INTO table2"), Ok(("", "table2")));
    assert_eq!(
        table_parser(" into table1 where XX"),
        Ok((" where XX", "table1"))
    );
}

#[test]
fn mod_test_basic() {
    assert_eq!(
        parse("select x from y"),
        Ok((
            "",
            SqlStatement::Select(Select {
                table: "y".to_owned(),
                fields: vec!["x".to_owned()],
                conditions: vec![],
            })
        ))
    );
    assert_eq!(
        parse("insert into x (y,z) values (a,b)"),
        Ok((
            "",
            SqlStatement::Insert(Insert {
                table: "x".to_owned(),
                values: vec![
                    ("y".to_owned(), "a".to_owned()),
                    ("z".to_owned(), "b".to_owned())
                ],
            })
        ))
    );
    assert_eq!(parse("bla bla"), Err(ParseError::Syntax));
}

#[test]
fn select_test_basic() {
    assert_eq!(
        select_parser("select x from y"),
        Ok((
            "",
            Select {
                table: "y".to_owned(),
                fields: vec!["x".to_owned()],
                conditions: vec![],
            }
        ))
    );
    assert_eq!(
        select_parser("select x,y,z from a"),
        Ok((
            "",
            Select {
                table: "a".to_owned(),
                fields: vec!["x".to_owned(), "y".to_owned(), "z".to_owned()],
                conditions: vec![],
            }
        ))
    );
}

#[test]
fn test_with_where() {
    assert_eq!(
        select_parser("select x from y where x = 'y'"),
        Ok((
            "",
            Select {
                table: "y".to_owned(),
                fields: vec!["x".to_owned()],
                conditions: vec![Condition {
                    field: "x".to_owned(),
                    value: "y".to_owned(),
                    operator: Operator::Eq,
                }],
            }
        ))
    );
    assert_eq!(
        select_parser("select x from y where x = 10"),
        Ok((
            "",
            Select {
                table: "y".to_owned(),
                fields: vec!["x".to_owned()],
                conditions: vec![Condition {
                    field: "x".to_owned(),
                    value: "10".to_owned(),
                    operator: Operator::Eq,
                }],
            }
        ))
    );
    assert_eq!(
        select_parser("select x from y where x > 10 AND x <= 20"),
        Ok((
            "",
            Select {
                table: "y".to_owned(),
                fields: vec!["x".to_owned()],
                conditions: vec![
                    Condition {
                        field: "x".to_owned(),
                        value: "10".to_owned(),
                        operator: Operator::Gt,
                    },
                    Condition {
                        field: "x".to_owned(),
                        value: "20".to_owned(),
                        operator: Operator::Le,
                    },
                ],
            }
        ))
    );
}

#[test]
fn select_test_fields() {
    assert_eq!(
        select::field_parser("xxx, yyy"),
        Ok(("", vec!["xxx", "yyy"]))
    );
    assert_eq!(select::field_parser("aaa,bbb"), Ok(("", vec!["aaa", "bbb"])));
    assert_eq!(
        select::field_parser("a1a, b0b,c2c"),
        Ok(("", vec!["a1a", "b0b", "c2c"]))
    );
}

#[test]
fn select_test_table() {
    assert_eq!(select::table_parser(" from table1"), Ok(("", "table1")));
    assert_eq!(select::table_parser(" FROM table2"), Ok(("", "table2")));
    assert_eq!(
        select::table_parser(" from table1 where XX"),
        Ok((" where XX", "table1"))
    );
}

#[test]
fn select_star_and_garbage() {
    assert_eq!(
        select_parser("select * from t"),
        Ok((
            "",
            Select {
                table: "t".to_owned(),
                fields: vec!["*".to_owned()],
                conditions: vec![],
            }
        ))
    );
    assert_eq!(select_parser("delete from t"), Err(ParseError::Syntax));
    assert_eq!(insert_parser("insert into"), Err(ParseError::Syntax));
}

#[test]
fn where_not_equal() {
    assert_eq!(
        select_parser("select x from y where a != 'b'"),
        Ok((
            "",
            Select {
                table: "y".to_owned(),
                fields: vec!["x".to_owned()],
                conditions: vec![Condition {
                    field: "a".to_owned(),
                    value: "b".to_owned(),
                    operator: Operator::Ne,
                }],
            }
        ))
    );
}
