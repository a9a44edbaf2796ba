use tsdb::parser::select::{Condition, Operator};
use tsdb::query::conditions_to_query;
use tsdb::text::parse_u64_dec;

fn cond(field: &str, op: Operator, value: &str) -> Condition {
    Condition {
        field: field.to_owned(),
        operator: op,
        value: value.to_owned(),
    }
}

#[test]
fn time_conditions_narrow_the_range() {
    let conds = vec![
        cond("time", Operator::Gt, "10"),
        cond("time", Operator::Le, "20"),
    ];
    assert_eq!(conditions_to_query(&conds), Some((11, 20, vec![])));

    let eq = vec![cond("time", Operator::Eq, "99")];
    assert_eq!(conditions_to_query(&eq), Some((99, 99, vec![])));

    let none = vec![];
    assert_eq!(conditions_to_query(&none), Some((0, u32::MAX as u64, vec![])));
}

#[test]
fn tag_conditions_build_a_sorted_set() {
    let conds = vec![
        cond("zone", Operator::Eq, "b"),
        cond("host", Operator::Eq, "a"),
    ];
    assert_eq!(
        conditions_to_query(&conds),
        Some((
            0,
            u32::MAX as u64,
            vec![
                ("host".to_owned(), "a".to_owned()),
                ("zone".to_owned(), "b".to_owned())
            ]
        ))
    );
}

#[test]
fn unsupported_conditions_are_rejected() {
    // a non-equality comparison on a tag field is not defined by the engine
    let conds = vec![cond("host", Operator::Gt, "a")];
    assert_eq!(conditions_to_query(&conds), None);
    // a temporal value must be a decimal number
    let bad = vec![cond("time", Operator::Ge, "soon")];
    assert_eq!(conditions_to_query(&bad), None);
}

#[test]
fn decimal_parsing() {
    assert_eq!(parse_u64_dec("0"), Some(0));
    assert_eq!(parse_u64_dec("1234567890"), Some(1234567890));
    assert_eq!(parse_u64_dec("18446744073709551615"), Some(u64::MAX));
    assert_eq!(parse_u64_dec("18446744073709551616"), None);
    assert_eq!(parse_u64_dec(""), None);
    assert_eq!(parse_u64_dec("12x"), None);
}
