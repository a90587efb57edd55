use std::sync::Arc;

use arrow::array::{ArrayRef, AsArray, Int64Array, StringArray};
use arrow::datatypes::{Date32Type, Float64Type, Int64Type, Schema};
use arrow::record_batch::{RecordBatch, RecordBatchOptions};
use johnnybt_polars::loader::batch::{Batch, Column, DataType, Field};
use johnnybt_polars::loader::batch_util::{
    align_all, align_batch_to_schema, concat_aligned, union_schema,
};
use johnnybt_polars::loader::cast::cast_column;
use johnnybt_polars::loader::cells::is_float_text;

fn batch(cols: &[(&str, DataType)], n: usize) -> Batch {
    let fields: Vec<Field> = cols.iter().map(|(name, dt)| Field::new(name, *dt, true)).collect();
    let columns: Vec<Column> = cols
        .iter()
        .map(|(_, dt)| match dt {
            DataType::Utf8 => Column::Utf8(vec![Some("x".to_string()); n]),
            _ => Column::Float64(vec![Some("1.0".to_string()); n]),
        })
        .collect();
    Batch::try_new(fields, columns).unwrap()
}

fn texts(column: &Column) -> Vec<Option<String>> {
    match column {
        Column::Utf8(v) => v.clone(),
        Column::Float64(v) => v.clone(),
        _ => panic!("no text column"),
    }
}

fn some(v: &[&str]) -> Vec<Option<String>> {
    v.iter().map(|s| Some(s.to_string())).collect()
}

#[test]
fn a_cast_to_numbers_writes_numerals() {
    let text = ["1e300", "-1e300", "5e-324", "-0", "inf", "-inf", "NaN", "1.50", "x", "123456789"];
    let columns = [
        Column::Utf8(some(&text)),
        Column::Float64(some(&["1e300", "-0.0", "+Infinity", "-nan", ".5", "5."])),
        Column::Int64(vec![Some(i64::MIN), Some(0), None, Some(i64::MAX)]),
    ];
    for column in columns {
        let cast = cast_column(&column, DataType::Float64).unwrap();
        let numerals = texts(&cast);
        assert!(numerals.iter().flatten().count() >= 3);
        for numeral in numerals.iter().flatten() {
            assert!(is_float_text(numeral), "{numeral}");
        }
    }
}

#[test]
fn concat_with_missing_columns_does_not_panic() {
    let a = batch(&[("x", DataType::Float64), ("y", DataType::Float64)], 2);
    let b = batch(&[("x", DataType::Float64)], 3);
    let out = concat_aligned(&[a, b]).unwrap();
    assert_eq!(out.num_rows(), 5);
    assert_eq!(out.columns().len(), 2);
    assert_eq!(out.columns()[1].null_count(), 3);
}

#[test]
fn concat_with_extra_columns_takes_union() {
    let a = batch(&[("x", DataType::Float64)], 1);
    let b = batch(&[("x", DataType::Float64), ("z", DataType::Utf8)], 1);
    let out = concat_aligned(&[a, b]).unwrap();
    assert_eq!(out.columns().len(), 2);
    assert_eq!(out.fields()[1].name, "z");
    assert_eq!(out.num_rows(), 2);
}

#[test]
fn concat_with_reordered_columns_matches_by_name() {
    let a = batch(&[("x", DataType::Float64), ("y", DataType::Utf8)], 1);
    let b = batch(&[("y", DataType::Utf8), ("x", DataType::Float64)], 1);
    let out = concat_aligned(&[a, b]).unwrap();
    assert_eq!(out.fields()[0].name, "x");
    assert_eq!(out.fields()[1].name, "y");
    assert_eq!(texts(&out.columns()[1])[1], Some("x".to_string()));
}

#[test]
fn union_keeps_the_first_field_of_a_name() {
    let a = batch(&[("x", DataType::Float64), ("y", DataType::Utf8)], 1);
    let b = batch(&[("z", DataType::Utf8), ("x", DataType::Utf8)], 1);
    let fields = union_schema(&[a, b]);
    let shown: Vec<(String, DataType)> =
        fields.iter().map(|f| (f.name.clone(), f.data_type)).collect();
    assert_eq!(
        shown,
        vec![
            ("x".to_string(), DataType::Float64),
            ("y".to_string(), DataType::Utf8),
            ("z".to_string(), DataType::Utf8),
        ]
    );
}

#[test]
fn no_batches_are_refused() {
    assert_eq!(align_all(&[]).unwrap_err(), "无有效数据");
    assert_eq!(concat_aligned(&[]).unwrap_err(), "无有效数据");
}

#[test]
fn a_null_column_under_a_required_field_is_refused() {
    let a = batch(&[("x", DataType::Float64)], 1);
    let target = vec![
        Field::new("x", DataType::Float64, true),
        Field::new("必填", DataType::Utf8, false),
    ];
    assert_eq!(
        align_batch_to_schema(&a, &target).unwrap_err(),
        "对齐 RecordBatch 失败: Invalid argument error: Column '必填' is declared as non-nullable \
         but contains null values"
    );
    let empty = batch(&[("x", DataType::Float64)], 0);
    let out = align_batch_to_schema(&empty, &target).unwrap();
    assert_eq!(out.num_rows(), 0);
    assert_eq!(out.fields().len(), 2);
}

#[test]
fn alignment_to_no_fields_keeps_the_rows() {
    let a = batch(&[("x", DataType::Float64)], 3);
    let out = align_batch_to_schema(&a, &[]).unwrap();
    assert_eq!(out.num_rows(), 3);
    assert_eq!(out.columns().len(), 0);
}

#[test]
fn an_equal_schema_aligns_to_the_batch_itself() {
    let fields = || {
        vec![Field::new("x", DataType::Utf8, true), Field::new("x", DataType::Utf8, true)]
    };
    let a = Batch::try_new(
        fields(),
        vec![Column::Utf8(some(&["1"])), Column::Utf8(some(&["2"]))],
    )
    .unwrap();
    let out = align_batch_to_schema(&a, &fields()).unwrap();
    assert_eq!(texts(&out.columns()[0]), some(&["1"]));
    assert_eq!(texts(&out.columns()[1]), some(&["2"]));
}

#[test]
fn merged_rows_come_in_the_order_of_the_batches() {
    let one = |v: &[&str]| {
        Batch::try_new(
            vec![Field::new("k", DataType::Utf8, true)],
            vec![Column::Utf8(some(v))],
        )
        .unwrap()
    };
    let out = concat_aligned(&[one(&["a", "b"]), one(&[]), one(&["c"])]).unwrap();
    assert_eq!(texts(&out.columns()[0]), some(&["a", "b", "c"]));
}

#[test]
fn other_types_are_cast_by_arrow() {
    let text = Column::Utf8(vec![
        Some("42".to_string()),
        None,
        Some("1.5".to_string()),
        Some("某".to_string()),
    ]);
    match cast_column(&text, DataType::Int64) {
        Some(Column::Int64(v)) => assert_eq!(v, vec![Some(42), None, None, None]),
        _ => panic!("no integers"),
    }
    match cast_column(&text, DataType::Float64) {
        Some(Column::Float64(v)) => {
            let numbers: Vec<Option<f64>> =
                v.iter().map(|c| c.as_ref().map(|s| s.parse().unwrap())).collect();
            assert_eq!(numbers, vec![Some(42.0), None, Some(1.5), None]);
        }
        _ => panic!("no numbers"),
    }
    let dates = Column::Utf8(vec![Some("2024-01-15".to_string()), Some("x".to_string())]);
    match cast_column(&dates, DataType::Date32) {
        Some(Column::Date32(v)) => assert_eq!(v, vec![Some(19737), None]),
        _ => panic!("no dates"),
    }
    match cast_column(&Column::Date32(vec![Some(19737), None]), DataType::Utf8) {
        Some(Column::Utf8(v)) => assert_eq!(v, vec![Some("2024-01-15".to_string()), None]),
        _ => panic!("no texts"),
    }
    match cast_column(&Column::Int64(vec![Some(7), Some(i64::MAX)]), DataType::Date32) {
        Some(Column::Date32(v)) => assert_eq!(v, vec![Some(7), None]),
        _ => panic!("no dates"),
    }
    match cast_column(&Column::Float64(some(&["1.50", "1e3"])), DataType::Utf8) {
        Some(Column::Utf8(v)) => assert_eq!(v, some(&["1.5", "1000.0"])),
        _ => panic!("no texts"),
    }
    match cast_column(&Column::Float64(some(&["1.50", "nan"])), DataType::Int64) {
        Some(Column::Int64(v)) => assert_eq!(v, vec![Some(1), None]),
        _ => panic!("no integers"),
    }
    assert!(cast_column(&Column::Date32(vec![Some(1)]), DataType::Float64).is_none());
}

#[test]
fn alignment_casts_and_falls_back_to_nulls() {
    let a = Batch::try_new(
        vec![
            Field::new("n", DataType::Int64, true),
            Field::new("d", DataType::Date32, true),
        ],
        vec![Column::Int64(vec![Some(3), None]), Column::Date32(vec![Some(1), Some(2)])],
    )
    .unwrap();
    let target = vec![
        Field::new("d", DataType::Float64, true),
        Field::new("n", DataType::Utf8, true),
    ];
    let out = align_batch_to_schema(&a, &target).unwrap();
    assert_eq!(texts(&out.columns()[0]), vec![None, None]);
    assert_eq!(texts(&out.columns()[1]), vec![Some("3".to_string()), None]);
}

#[test]
fn batches_that_do_not_fit_together_are_refused() {
    let field = |name: &str, nullable: bool| Field::new(name, DataType::Int64, nullable);
    assert_eq!(
        Batch::try_new(vec![field("a", true)], vec![]).unwrap_err(),
        "Invalid argument error: number of columns(0) must match number of fields(1) in schema"
    );
    assert_eq!(
        Batch::try_new(vec![], vec![]).unwrap_err(),
        "Invalid argument error: must either specify a row count or at least one column"
    );
    assert_eq!(Batch::try_new_with_rows(vec![], vec![], 10).unwrap().num_rows(), 10);
    assert_eq!(
        Batch::try_new(vec![field("a", false)], vec![Column::Int64(vec![None])]).unwrap_err(),
        "Invalid argument error: Column 'a' is declared as non-nullable but contains null values"
    );
    assert_eq!(
        Batch::try_new(
            vec![field("a", true), field("b", true)],
            vec![Column::Int64(vec![None]), Column::Int64(vec![])],
        )
        .unwrap_err(),
        "Invalid argument error: all columns in a record batch must have the same length"
    );
    assert_eq!(
        Batch::try_new_with_rows(vec![field("a", true)], vec![Column::Int64(vec![None])], 2)
            .unwrap_err(),
        "Invalid argument error: all columns in a record batch must have the specified row count"
    );
    assert_eq!(
        Batch::try_new(
            vec![field("a", true), field("b", true)],
            vec![Column::Int64(vec![]), Column::Date32(vec![])],
        )
        .unwrap_err(),
        "Invalid argument error: column types must match schema types, expected Int64 but found \
         Date32 at column index 1"
    );
}

fn arrow_complaint(
    fields: &[(&str, arrow::datatypes::DataType, bool)],
    columns: Vec<ArrayRef>,
    rows: Option<usize>,
) -> String {
    let fields: Vec<arrow::datatypes::Field> = fields
        .iter()
        .map(|(name, t, nullable)| arrow::datatypes::Field::new(*name, t.clone(), *nullable))
        .collect();
    let options = RecordBatchOptions::new().with_row_count(rows);
    RecordBatch::try_new_with_options(Arc::new(Schema::new(fields)), columns, &options)
        .unwrap_err()
        .to_string()
}

#[test]
fn complaints_read_as_those_of_arrow() {
    let int = arrow::datatypes::DataType::Int64;
    let one: ArrayRef = Arc::new(Int64Array::from(vec![Some(1)]));
    let null: ArrayRef = Arc::new(Int64Array::from(vec![None]));
    let two: ArrayRef = Arc::new(Int64Array::from(vec![Some(1), Some(2)]));
    let field = |name: &str, nullable: bool| Field::new(name, DataType::Int64, nullable);
    let cells = |v: &[Option<i64>]| Column::Int64(v.to_vec());

    assert_eq!(
        Batch::try_new(vec![], vec![]).unwrap_err(),
        arrow_complaint(&[], vec![], None)
    );
    assert_eq!(
        Batch::try_new(vec![field("a", true)], vec![cells(&[]), cells(&[])]).unwrap_err(),
        arrow_complaint(&[("a", int.clone(), true)], vec![one.clone(), one.clone()], None)
    );
    assert_eq!(
        Batch::try_new(vec![field("列", false)], vec![cells(&[None])]).unwrap_err(),
        arrow_complaint(&[("列", int.clone(), false)], vec![null.clone()], None)
    );
    assert_eq!(
        Batch::try_new(
            vec![field("a", true), field("b", true)],
            vec![cells(&[Some(1)]), cells(&[Some(1), Some(2)])],
        )
        .unwrap_err(),
        arrow_complaint(
            &[("a", int.clone(), true), ("b", int.clone(), true)],
            vec![one.clone(), two],
            None,
        )
    );
    assert_eq!(
        Batch::try_new_with_rows(vec![field("a", true)], vec![cells(&[Some(1)])], 7).unwrap_err(),
        arrow_complaint(&[("a", int.clone(), true)], vec![one.clone()], Some(7))
    );
    for (mine, theirs) in [
        (DataType::Utf8, arrow::datatypes::DataType::Utf8),
        (DataType::Float64, arrow::datatypes::DataType::Float64),
        (DataType::Date32, arrow::datatypes::DataType::Date32),
    ] {
        assert_eq!(
            Batch::try_new(
                vec![field("a", true), Field::new("b", mine, true)],
                vec![cells(&[Some(1)]), cells(&[Some(1)])],
            )
            .unwrap_err(),
            arrow_complaint(
                &[("a", int.clone(), true), ("b", theirs, true)],
                vec![one.clone(), one.clone()],
                None,
            )
        );
    }
}

#[test]
fn text_casts_are_those_of_the_small_array() {
    let samples = [
        "1", "-7", "1.5", "1e3", "inf", "nan", "", " 1", "2024-01-15", "20240115", "2024-1-5",
        "2024-01-15T10:00:00", "某", "9223372036854775808", "+5", "0x1", "true",
    ];
    let column = Column::Utf8(some(&samples));
    let array = StringArray::from(samples.to_vec());
    let ints = arrow::compute::cast(&array, &arrow::datatypes::DataType::Int64).unwrap();
    let ints: Vec<Option<i64>> = ints.as_primitive::<Int64Type>().iter().collect();
    match cast_column(&column, DataType::Int64) {
        Some(Column::Int64(v)) => assert_eq!(v, ints),
        _ => panic!("no integers"),
    }
    let days = arrow::compute::cast(&array, &arrow::datatypes::DataType::Date32).unwrap();
    let days: Vec<Option<i32>> = days.as_primitive::<Date32Type>().iter().collect();
    match cast_column(&column, DataType::Date32) {
        Some(Column::Date32(v)) => assert_eq!(v, days),
        _ => panic!("no dates"),
    }
    let numbers = arrow::compute::cast(&array, &arrow::datatypes::DataType::Float64).unwrap();
    let numbers: Vec<Option<u64>> =
        numbers.as_primitive::<Float64Type>().iter().map(|c| c.map(f64::to_bits)).collect();
    match cast_column(&column, DataType::Float64) {
        Some(Column::Float64(v)) => {
            let mine: Vec<Option<u64>> = v
                .iter()
                .map(|c| c.as_ref().map(|s| s.parse::<f64>().unwrap().to_bits()))
                .collect();
            assert_eq!(mine, numbers);
        }
        _ => panic!("no numbers"),
    }
    let back = Int64Array::from(vec![Some(i64::MIN), None, Some(42)]);
    let texts = arrow::compute::cast(&back, &arrow::datatypes::DataType::Utf8).unwrap();
    let texts: Vec<Option<String>> =
        texts.as_string::<i32>().iter().map(|c| c.map(String::from)).collect();
    match cast_column(&Column::Int64(vec![Some(i64::MIN), None, Some(42)]), DataType::Utf8) {
        Some(Column::Utf8(v)) => assert_eq!(v, texts),
        _ => panic!("no texts"),
    }
}
