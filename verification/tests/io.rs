use johnnybt_polars::io::{parse_col_type, parse_schema, unknown_type};
use johnnybt_polars::loader::schema::ColType;

fn pairs(v: &[(&str, &str)]) -> Vec<(String, String)> {
    v.iter().map(|(a, b)| (a.to_string(), b.to_string())).collect()
}

#[test]
fn column_types_by_name() {
    assert!(matches!(parse_col_type("str"), Ok(ColType::Str)));
    assert!(matches!(parse_col_type("int64"), Ok(ColType::Int64)));
    assert!(matches!(parse_col_type("float64"), Ok(ColType::Float64)));
    assert!(matches!(parse_col_type("date:%Y%m%d"), Ok(ColType::Date { format }) if format == "%Y%m%d"));
    assert!(matches!(parse_col_type("date:"), Ok(ColType::Date { format }) if format.is_empty()));
}

#[test]
fn unknown_column_types_are_refused() {
    assert_eq!(
        parse_col_type("datе\n\"日\"").unwrap_err(),
        "unknown column type \"datе\\n\\\"日\\\"\"; use \"str\" / \"int64\" / \"float64\" / \
         \"date:%Y-%m-%d\""
    );
    assert_eq!(unknown_type("X"), "unknown column type X; use \"str\" / \"int64\" / \"float64\" / \"date:%Y-%m-%d\"");
    for t in ["", "Str", "date", "int", " str"] {
        assert!(parse_col_type(t).is_err(), "{t}");
    }
}

#[test]
fn a_schema_tells_what_was_declared() {
    let s = parse_schema(
        &pairs(&[("a", "str"), ("b", "int64"), ("c", "float64"), ("d", "date:%Y")]),
        "str",
    )
    .unwrap_or_else(|e| panic!("{e}"));
    assert_eq!(s.string_cols, vec!["a".to_string()]);
    assert_eq!(s.int_cols, vec!["b".to_string()]);
    assert_eq!(s.float_cols, vec!["c".to_string()]);
    assert_eq!(s.date_cols, pairs(&[("d", "%Y")]));
    assert!(matches!(s.col_type("b"), (ColType::Int64, true)));
    assert!(matches!(s.col_type("e"), (ColType::Str, false)));
}

#[test]
fn the_first_unknown_type_is_complained_about() {
    let e = parse_schema(&pairs(&[("a", "str"), ("b", "x"), ("c", "y")]), "z").err().unwrap();
    assert!(e.starts_with("unknown column type \"x\";"), "{e}");
    let e = parse_schema(&pairs(&[("a", "str")]), "z").err().unwrap();
    assert!(e.starts_with("unknown column type \"z\";"), "{e}");
}
