use johnnybt_polars::loader::batch::{Batch, Column, DataType, Field};
use johnnybt_polars::loader::batch_util::{align_batch_to_schema, union_schema};
use johnnybt_polars::loader::cells::{fast_parse_date, parse_int64, DateFormat};
use johnnybt_polars::loader::csv_scan::Scanner;
use johnnybt_polars::loader::schema::{ColType, ParseOptions, SchemaSpec};
use johnnybt_polars::loader::stock_reader::parse_csv_from_text;

fn quoted(content: &str) -> String {
    format!("\"{}\"", content.replace('"', "\"\""))
}

fn written(contents: &[&str]) -> String {
    let fields: Vec<String> = contents.iter().map(|c| quoted(c)).collect();
    format!("{}\n", fields.join(","))
}

const CONTENTS: [&str; 8] =
    ["", "a", "a,b", "he said \"no\"", "\"", "line\nbreak\r\n", " 空 格 ", "\"\","];

fn all_str() -> SchemaSpec {
    SchemaSpec {
        string_cols: Vec::new(),
        date_cols: Vec::new(),
        int_cols: Vec::new(),
        float_cols: Vec::new(),
        default_type: ColType::Str,
    }
}

#[test]
fn what_is_written_quoted_is_read_back() {
    for a in CONTENTS {
        for b in CONTENTS {
            let text = written(&[a, b, "z"]) + "next\n";
            let mut fields: Vec<String> = Vec::new();
            let mut scanner = Scanner::new(&text, 0, true, false);
            assert!(scanner.next_record(|_, v| {
                fields.push(v.to_string());
                true
            }));
            assert_eq!(fields, vec![a.to_string(), b.to_string(), "z".to_string()]);
            assert_eq!(scanner.read_row(), Some(vec!["next".to_string()]));
            for n in 1..=3 {
                let mut scanner = Scanner::new(&text, 0, true, false);
                let row = scanner.read_leading(n).unwrap();
                assert_eq!(row.len(), n);
                assert_eq!(row[0].as_str(), a);
                assert_eq!(scanner.read_row(), Some(vec!["next".to_string()]));
            }
        }
    }
}

#[test]
fn a_quote_inside_that_closes_nothing_is_kept() {
    let mut scanner = Scanner::new("\"a\"b\"c\",d\n", 0, true, false);
    assert_eq!(scanner.read_row(), Some(vec!["a\"b\"c".to_string(), "d".to_string()]));
}

#[test]
fn a_file_of_quoted_fields_is_read_back() {
    let opts = ParseOptions { skip_rows: 0, quoting: true, trim: false };
    let text = written(&[" h1 ", "h2"]) + &written(&["a,b", "\"x\"\ny"]) + &written(&["only"]);
    let b = parse_csv_from_text(&text, None, &all_str(), &opts).unwrap();
    assert_eq!(b.fields()[0].name, "h1");
    assert_eq!(b.num_rows(), 2);
    match (&b.columns()[0], &b.columns()[1]) {
        (Column::Utf8(x), Column::Utf8(y)) => {
            assert_eq!(x, &vec![Some("a,b".to_string()), Some("only".to_string())]);
            assert_eq!(y, &vec![Some("\"x\"\ny".to_string()), None]);
        }
        _ => panic!(),
    }
}

#[test]
fn without_quotes_quoting_makes_no_difference() {
    let text = "a, b ,c\r\n1,,\n\n  \n2\n";
    let read = |quoting: bool| {
        let mut scanner = Scanner::new(text, 0, quoting, true);
        let mut rows = Vec::new();
        while let Some(row) = scanner.read_row() {
            rows.push(row);
        }
        rows
    };
    assert_eq!(read(true), read(false));
    assert_eq!(read(true).len(), 3);
}

#[test]
fn without_quotes_the_next_record_does_not_depend_on_the_fields_looked_at() {
    let text = "a,b,c\n\n1,2,3\n";
    for n in 1..=4 {
        let mut scanner = Scanner::new(text, 0, true, true);
        assert_eq!(scanner.read_leading(n).unwrap().len(), n.min(3));
        let row = scanner.read_row().unwrap();
        assert_eq!(row, vec!["1".to_string(), "2".to_string(), "3".to_string()]);
        assert!(scanner.read_leading(n).is_none());
    }
}

#[test]
fn the_next_record_does_not_depend_on_the_fields_looked_at() {
    let texts = [
        "1,2,a\"b\nnext\n",
        "1,5\"x\nnext\n",
        "1,\"a\nb\",c\nnext\n",
        "\"1\"\"\",x\"\"\"y,\"z\"\r\nnext",
        "1,\"a\"\rb\",c\n\n \u{3000}\nnext\n",
        "\"1\"\r,\"a\" \r,c\"\r,d\nnext\n",
    ];
    for text in texts {
        let whole = Scanner::new(text, 0, true, true).read_row().unwrap();
        for n in 1..=4 {
            let mut scanner = Scanner::new(text, 0, true, true);
            let row = scanner.read_leading(n).unwrap();
            assert_eq!(row.len(), n.min(whole.len()));
            for (a, b) in row.iter().zip(&whole) {
                assert_eq!(a.as_str(), b);
            }
            assert_eq!(scanner.read_row(), Some(vec!["next".to_string()]), "{text:?}");
            let mut scanner = Scanner::new(text, 0, true, true);
            assert!(scanner.next_record(|i, _| i + 1 < n));
            assert_eq!(scanner.read_row(), Some(vec!["next".to_string()]), "{text:?}");
        }
    }
}

#[test]
fn asking_for_columns_changes_neither_rows_nor_values() {
    let opts = ParseOptions { skip_rows: 0, quoting: true, trim: true };
    let texts = ["a,b\n1,5\"x\n2,b\n", "a,b\n1,\"x\ny\"\n2,\"z\"\rw\"\n3\n"];
    for text in texts {
        let whole = parse_csv_from_text(text, None, &all_str(), &opts).unwrap();
        for (k, name) in ["a", "b"].iter().enumerate() {
            let names = [name.to_string()];
            let some = parse_csv_from_text(text, Some(&names), &all_str(), &opts).unwrap();
            assert_eq!(some.num_rows(), whole.num_rows());
            assert_eq!(format!("{:?}", some.columns()[0]), format!("{:?}", whole.columns()[k]));
            assert_eq!(some.fields()[0].name, *name);
        }
    }
    let b = parse_csv_from_text(texts[0], Some(&["a".to_string()]), &all_str(), &opts).unwrap();
    assert_eq!(b.num_rows(), 2);
}

#[test]
fn no_character_of_a_field_is_lost() {
    let read = |text: &str| Scanner::new(text, 0, true, false).scan_field().0.as_str().to_string();
    assert_eq!(read("\"a\"\rb\",c\n"), "a\"\rb");
    assert_eq!(read("\"a\" \t\rb\"\r\n"), "a\" \t\rb");
    assert_eq!(read("\"a\"\r\nb"), "a");
    assert_eq!(read("\"a\"\r"), "a");
    assert_eq!(read("\"a\"\r,b\n"), "a");
    assert_eq!(read("\"a\" \t\r,b\n"), "a");
    assert_eq!(read("\"a\"\r ,b\"\n"), "a\"\r ,b");
    assert_eq!(read("\"a\"\r\r\n"), "a\"\r\r\n");
    assert_eq!(read("a\rb\r\n"), "a\rb");
    assert_eq!(read("a\"b\",c"), "a\"b\"");
}

#[test]
fn trimming_once_more_changes_nothing() {
    for text in ["\"  a b \u{3000}\",c\n", "\t a \r\n", "\" \"\n"] {
        let value = Scanner::new(text, 0, true, true).scan_field().0.as_str().to_string();
        assert_eq!(value.trim(), value);
    }
}

#[test]
fn integers_are_read_back_exactly() {
    for n in [0, 1, -1, 10, -10, 9007199254740993, i64::MAX, i64::MIN] {
        assert_eq!(parse_int64(&n.to_string()), Some(n));
    }
    assert_eq!(parse_int64("9223372036854775808"), None);
    assert_eq!(parse_int64("-9223372036854775809"), None);
}

#[test]
fn dates_are_read_back() {
    let ymd = DateFormat::from_str("%Y-%m-%d");
    let ymd8 = DateFormat::from_str("%Y%m%d");
    for days in [-719_468 + 366, -1, 0, 11016, 11017, 19737, 2932896] {
        let date = chrono::NaiveDate::from_epoch_days(days).unwrap();
        assert_eq!(fast_parse_date(&date.format("%Y-%m-%d").to_string(), &ymd), Some(days));
        assert_eq!(fast_parse_date(&date.format("%Y%m%d").to_string(), &ymd8), Some(days));
    }
}

#[test]
fn chrono_reads_a_real_date_with_hyphens_as_the_same_day() {
    let ymd = DateFormat::from_str("%Y-%m-%d");
    let other = DateFormat::Other("%Y-%m-%d".to_string());
    for days in (-719_528..=2_932_896).step_by(53).chain([-719_162, 11016, 2_932_896]) {
        let date = chrono::NaiveDate::from_epoch_days(days).unwrap();
        let text = date.format("%Y-%m-%d").to_string();
        assert_eq!(text.len(), 10);
        assert_eq!(fast_parse_date(&text, &other), Some(days));
        assert_eq!(fast_parse_date(&text, &ymd), Some(days));
    }
    assert_eq!(fast_parse_date("2023-02-29", &other), None);
}

fn batch(names: &[&str]) -> Batch {
    Batch::try_new(
        names.iter().map(|n| Field::new(n, DataType::Int64, true)).collect(),
        names.iter().enumerate().map(|(i, _)| Column::Int64(vec![Some(i as i64)])).collect(),
    )
    .unwrap()
}

#[test]
fn aligning_twice_is_aligning_once() {
    let target: Vec<Field> =
        ["c", "a", "b"].iter().map(|n| Field::new(n, DataType::Int64, true)).collect();
    let once = align_batch_to_schema(&batch(&["a", "b"]), &target).unwrap();
    let twice = align_batch_to_schema(&once, &target).unwrap();
    assert_eq!(format!("{once:?}"), format!("{twice:?}"));
    assert_eq!(format!("{:?}", once.columns()), "[Int64([None]), Int64([Some(0)]), Int64([Some(1)])]");
}

#[test]
fn a_batch_only_adds_behind_the_fields_before() {
    let some = union_schema(&[batch(&["b", "a"])]);
    let more = union_schema(&[batch(&["b", "a"]), batch(&["c", "a", "d"])]);
    let names = |v: &[Field]| v.iter().map(|f| f.name.clone()).collect::<Vec<_>>();
    assert_eq!(names(&more), vec!["b", "a", "c", "d"]);
    assert_eq!(names(&more)[..2], names(&some)[..]);
}
