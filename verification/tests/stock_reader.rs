use johnnybt_polars::loader::batch::{Batch, Column, DataType};
use johnnybt_polars::loader::column_builder::ColumnBuilder;
use johnnybt_polars::loader::gbk::decode_gbk;
use johnnybt_polars::loader::schema::{ColType, ParseOptions, SchemaSpec};
use johnnybt_polars::loader::stock_reader::{
    parse_csv_file, parse_csv_from_bytes, parse_csv_from_text, read_csvs_to_batches,
};

fn spec(strings: &[&str], ints: &[&str], default_type: ColType) -> SchemaSpec {
    SchemaSpec {
        string_cols: strings.iter().map(|s| s.to_string()).collect(),
        date_cols: Vec::new(),
        int_cols: ints.iter().map(|s| s.to_string()).collect(),
        float_cols: Vec::new(),
        default_type,
    }
}

fn opts() -> ParseOptions {
    ParseOptions { skip_rows: 1, quoting: true, trim: true }
}

fn cols(names: &[&str]) -> Vec<String> {
    names.iter().map(|s| s.to_string()).collect()
}

fn column<'a>(batch: &'a Batch, name: &str) -> &'a Column {
    let i = batch.fields().iter().position(|f| f.name == name).expect("列不存在");
    &batch.columns()[i]
}

fn strs(batch: &Batch, name: &str) -> Vec<Option<String>> {
    match column(batch, name) {
        Column::Utf8(v) => v.clone(),
        _ => panic!("不是字符串列"),
    }
}

#[test]
fn columns_are_mapped_by_name_not_position() {
    let text = "免责行\nC,A,B\nC0,A0,B0\n";
    let want = cols(&["A", "B", "C"]);
    let batch = parse_csv_from_text(
        text,
        Some(&want),
        &spec(&["A", "B", "C"], &[], ColType::Float64),
        &opts(),
    )
    .unwrap();

    assert_eq!(
        batch.fields().iter().map(|f| f.name.as_str()).collect::<Vec<_>>(),
        vec!["A", "B", "C"]
    );
    assert_eq!(strs(&batch, "C"), vec![Some("C0".into())]);
    assert_eq!(strs(&batch, "A"), vec![Some("A0".into())]);
}

#[test]
fn requested_column_absent_from_file_becomes_null_column() {
    let text = "免责行\nA,B\na0,b0\n";
    let want = cols(&["A", "缺失", "B"]);
    let batch = parse_csv_from_text(
        text,
        Some(&want),
        &spec(&["A", "B", "缺失"], &[], ColType::Float64),
        &opts(),
    )
    .unwrap();

    assert_eq!(batch.columns().len(), 3);
    assert_eq!(strs(&batch, "缺失"), vec![None]);
}

#[test]
fn undeclared_column_that_never_parses_is_an_error() {
    let text = "免责行\n代码,标题\nsh600000,某公告\n";
    let err = parse_csv_from_text(text, None, &spec(&["代码"], &[], ColType::Float64), &opts())
        .unwrap_err();

    assert!(err.contains("标题"), "错误信息要指出列名: {err}");
    assert!(err.contains("某公告"), "错误信息要给出示例值: {err}");
}

#[test]
fn declared_float_column_that_never_parses_is_not_an_error() {
    let text = "免责行\nv\n--\n";
    let mut s = spec(&[], &[], ColType::Float64);
    s.float_cols.push("v".to_string());
    let batch = parse_csv_from_text(text, None, &s, &opts()).unwrap();

    assert_eq!(batch.columns()[0].null_count(), 1);
}

#[test]
fn default_type_str_keeps_undeclared_columns_as_text() {
    let text = "免责行\n代码,标题\nsh600000,某公告\n";
    let batch = parse_csv_from_text(text, None, &spec(&[], &[], ColType::Str), &opts()).unwrap();

    assert_eq!(strs(&batch, "标题"), vec![Some("某公告".into())]);
}

#[test]
fn int64_keeps_precision_beyond_float64() {
    let text = "免责行\na,v\nx,9007199254740993\nx,-42\nx,\nx,不是数字\nx,1.5\n";
    let batch =
        parse_csv_from_text(text, None, &spec(&["a"], &["v"], ColType::Float64), &opts()).unwrap();

    match column(&batch, "v") {
        Column::Int64(a) => {
            assert_eq!(a[0], Some(9007199254740993));
            assert_eq!(a[1], Some(-42));
            assert!(a[2].is_none(), "空值 → null");
            assert!(a[3].is_none(), "非数字 → null");
            assert!(a[4].is_none(), "小数 → null");
        }
        _ => panic!("不是整数列"),
    }
}

#[test]
fn int64_overflow_becomes_null() {
    let text = "免责行\nv\n99999999999999999999999\n";
    let batch =
        parse_csv_from_text(text, None, &spec(&[], &["v"], ColType::Float64), &opts()).unwrap();

    assert_eq!(batch.columns()[0].null_count(), 1);
}

#[test]
fn trim_false_preserves_whitespace_in_both_quoted_and_plain_fields() {
    let text = "免责行\na,b\n  空格  ,\"  引号内  \"\n";
    let mut o = opts();
    o.trim = false;
    let batch =
        parse_csv_from_text(text, None, &spec(&["a", "b"], &[], ColType::Float64), &o).unwrap();

    assert_eq!(strs(&batch, "a"), vec![Some("  空格  ".into())]);
    assert_eq!(strs(&batch, "b"), vec![Some("  引号内  ".into())]);
}

#[test]
fn trim_true_also_trims_quoted_fields() {
    let text = "免责行\na,b\n  空格  ,\"  引号内  \"\n";
    let batch =
        parse_csv_from_text(text, None, &spec(&["a", "b"], &[], ColType::Float64), &opts())
            .unwrap();

    assert_eq!(strs(&batch, "a"), vec![Some("空格".into())]);
    assert_eq!(strs(&batch, "b"), vec![Some("引号内".into())]);
}

#[test]
fn numbers_parse_even_when_trim_is_off() {
    let text = "免责行\nv\n  1.5  \n";
    let mut o = opts();
    o.trim = false;
    let batch = parse_csv_from_text(text, None, &spec(&[], &[], ColType::Float64), &o).unwrap();

    match &batch.columns()[0] {
        Column::Float64(a) => {
            assert_eq!(a[0].as_ref().unwrap().parse::<f64>().unwrap(), 1.5);
        }
        _ => panic!("不是浮点列"),
    }
}

#[test]
fn headers_are_trimmed_even_when_trim_is_off() {
    let text = "免责行\n a , b \nx,y\n";
    let mut o = opts();
    o.trim = false;
    let want = cols(&["a", "b"]);
    let batch = parse_csv_from_text(
        text,
        Some(&want),
        &spec(&["a", "b"], &[], ColType::Float64),
        &o,
    )
    .unwrap();

    assert_eq!(strs(&batch, "a"), vec![Some("x".into())]);
}

#[test]
fn the_complaint_about_failed_numbers_is_exact() {
    let text = "x\na,b\n1, 甲 \n2,\n3,乙\n";
    let err =
        parse_csv_from_text(text, None, &spec(&[], &[], ColType::Int64), &opts()).unwrap_err();
    assert_eq!(
        err,
        "列 'b' 未在 schema 中声明，按 int64 解析，但 2 个非空值全部解析失败（示例值: '甲'）。\
         请在 schema 里把它声明为 \"str\"，或调用时传 default_type=\"str\""
    );
    let err =
        parse_csv_from_text("x\nb\n甲\n", None, &spec(&[], &[], ColType::Float64), &opts())
            .unwrap_err();
    assert_eq!(
        err,
        "列 'b' 未在 schema 中声明，按 float64 解析，但 1 个非空值全部解析失败（示例值: '甲'）。\
         请在 schema 里把它声明为 \"str\"，或调用时传 default_type=\"str\""
    );
}

#[test]
fn one_number_saves_an_undeclared_column() {
    let text = "x\nb\n甲\n2\n";
    let batch = parse_csv_from_text(text, None, &spec(&[], &[], ColType::Int64), &opts()).unwrap();
    match &batch.columns()[0] {
        Column::Int64(v) => assert_eq!(v, &vec![None, Some(2)]),
        _ => panic!(),
    }
}

#[test]
fn a_file_without_records_has_no_header() {
    let s = spec(&[], &[], ColType::Str);
    for text in ["", "only line", "skipped\n\n  \n\t\r\n"] {
        assert_eq!(parse_csv_from_text(text, None, &s, &opts()).unwrap_err(), "文件无表头");
    }
}

#[test]
fn no_columns_make_no_batch() {
    let s = spec(&[], &[], ColType::Str);
    assert_eq!(
        parse_csv_from_text("x\na\n1\n", Some(&[]), &s, &opts()).unwrap_err(),
        "构建 RecordBatch 失败: Invalid argument error: must either specify a row count or at \
         least one column"
    );
}

#[test]
fn a_header_alone_makes_a_batch_without_rows() {
    let s = spec(&[], &[], ColType::Float64);
    let batch = parse_csv_from_text("x\na,b\n", None, &s, &opts()).unwrap();
    assert_eq!(batch.num_rows(), 0);
    assert_eq!(batch.fields()[1].data_type, DataType::Float64);
}

#[test]
fn short_records_are_filled_up_and_long_ones_cut() {
    let s = spec(&[], &[], ColType::Str);
    let batch = parse_csv_from_text("x\na,b\n1\n2,3,4\n", None, &s, &opts()).unwrap();
    assert_eq!(strs(&batch, "a"), vec![Some("1".into()), Some("2".into())]);
    assert_eq!(strs(&batch, "b"), vec![None, Some("3".into())]);
}

#[test]
fn a_name_asked_for_twice_comes_twice() {
    let s = spec(&[], &[], ColType::Str);
    let want = cols(&["b", "a", "b"]);
    let batch = parse_csv_from_text("x\na,b\n1,2\n", Some(&want), &s, &opts()).unwrap();
    let all: Vec<Vec<Option<String>>> = batch
        .columns()
        .iter()
        .map(|c| match c {
            Column::Utf8(v) => v.clone(),
            _ => panic!(),
        })
        .collect();
    assert_eq!(
        all,
        vec![
            vec![Some("2".to_string())],
            vec![Some("1".to_string())],
            vec![Some("2".to_string())],
        ]
    );
}

#[test]
fn of_two_headers_of_a_name_the_last_counts() {
    let s = spec(&[], &[], ColType::Str);
    let want = cols(&["a"]);
    let batch = parse_csv_from_text("x\na,b,a\n1,2,3\n", Some(&want), &s, &opts()).unwrap();
    assert_eq!(strs(&batch, "a"), vec![Some("3".into())]);
    let all = parse_csv_from_text("x\na,b,a\n1,2,3\n", None, &s, &opts()).unwrap();
    assert_eq!(all.columns().len(), 3);
}

#[test]
fn a_column_reads_the_same_alone_and_among_all() {
    let s = spec(&["b"], &["c"], ColType::Float64);
    let text = "x\na,b,c\n1,甲,3\n2.5,乙,x\n";
    let whole = parse_csv_from_text(text, None, &s, &opts()).unwrap();
    for name in ["a", "b", "c"] {
        let one = parse_csv_from_text(text, Some(&cols(&[name])), &s, &opts()).unwrap();
        assert_eq!(format!("{:?}", column(&one, name)), format!("{:?}", column(&whole, name)));
    }
}

#[test]
fn dates_are_read_in_their_format() {
    let mut s = spec(&[], &[], ColType::Str);
    s.date_cols.push(("d".to_string(), "%Y%m%d".to_string()));
    s.date_cols.push(("e".to_string(), "%Y-%m-%d".to_string()));
    s.date_cols.push(("f".to_string(), "%d/%m/%Y".to_string()));
    s.date_cols.push(("g".to_string(), "%Y%m%d".to_string()));
    s.date_cols.push(("g".to_string(), "%Y-%m-%d".to_string()));
    let text = "x\nd,e,f,g\n20240115, 2024-01-15 ,15/01/2024,2024-01-15\n,x,99/01/2024,20240115\n";
    let batch = parse_csv_from_text(text, None, &s, &opts()).unwrap();
    for name in ["d", "e", "f", "g"] {
        match column(&batch, name) {
            Column::Date32(v) => assert_eq!(v, &vec![Some(19737), None]),
            _ => panic!(),
        }
    }
}

#[test]
fn declarations_are_tried_in_order() {
    let mut s = spec(&["a"], &["a", "b"], ColType::Str);
    s.float_cols = cols(&["b", "c"]);
    s.date_cols = vec![("c".to_string(), "x".to_string()), ("d".to_string(), "x".to_string())];
    assert!(matches!(s.col_type("a"), (ColType::Str, true)));
    assert!(matches!(s.col_type("b"), (ColType::Int64, true)));
    assert!(matches!(s.col_type("c"), (ColType::Float64, true)));
    assert!(matches!(s.col_type("d"), (ColType::Date { .. }, true)));
    assert!(matches!(s.col_type("e"), (ColType::Str, false)));
}

#[test]
fn options_default_to_a_skipped_line_quotes_and_trimming() {
    let o = ParseOptions::default();
    assert_eq!((o.skip_rows, o.quoting, o.trim), (1, true, true));
}

#[test]
fn a_builder_counts_failures_only_where_nobody_declared_a_number() {
    let mut b = ColumnBuilder::new(&ColType::Float64, true);
    b.append("x");
    assert!(b.check_all_failed("v").is_ok());
    let mut b = ColumnBuilder::new(&ColType::Str, false);
    b.append("");
    b.append(" x ");
    assert!(b.check_all_failed("v").is_ok());
    let (field, column) = b.finish("v");
    assert_eq!((field.name.as_str(), field.data_type, field.nullable), ("v", DataType::Utf8, true));
    match column {
        Column::Utf8(v) => assert_eq!(v, vec![None, Some(" x ".to_string())]),
        _ => panic!(),
    }
    let b = ColumnBuilder::new(&ColType::Float64, false);
    assert!(b.check_all_failed("v").is_ok());
}

#[test]
fn gbk_bytes_are_decoded() {
    assert_eq!(decode_gbk(&[0xb4, 0xfa, 0xc2, 0xeb, b',', b'a']), "代码,a");
    assert_eq!(decode_gbk(b"plain\nascii"), "plain\nascii");
    let mut raw = b"skip\n".to_vec();
    raw.extend_from_slice(&[0xb4, 0xfa, 0xc2, 0xeb, b'\n']);
    raw.extend_from_slice(b"sh600000\n");
    let s = spec(&[], &[], ColType::Str);
    let batch = parse_csv_from_bytes(&raw, None, &s, &opts()).unwrap();
    assert_eq!(strs(&batch, "代码"), vec![Some("sh600000".into())]);
}

#[test]
fn a_complaint_about_a_file_names_it() {
    let s = spec(&[], &[], ColType::Str);
    assert_eq!(
        parse_csv_file(b"", "data/a.csv", None, &s, &opts()).unwrap_err(),
        "data/a.csv: 文件无表头"
    );
}

#[test]
fn many_files_are_read_in_order_across_chunks() {
    let n = 1100;
    let paths: Vec<String> = (0..n).map(|i| format!("{i}.csv")).collect();
    let files: Vec<Result<Vec<u8>, String>> = (0..n)
        .map(|i| {
            Ok(if i % 3 == 0 {
                b"x\nk,v\n".to_vec()
            } else if i % 3 == 1 {
                format!("x\nk,v\nk{i},{i}\n").into_bytes()
            } else {
                format!("x\nv,w\n{i},w{i}\n{i},\n").into_bytes()
            })
        })
        .collect();
    let s = spec(&["k", "w"], &[], ColType::Int64);
    let (fields, batches) = read_csvs_to_batches(&paths, &files, None, &s, &opts()).unwrap();
    assert_eq!(
        fields.iter().map(|f| f.name.as_str()).collect::<Vec<_>>(),
        vec!["k", "v", "w"]
    );
    assert_eq!(batches.len(), 3);
    let mut v: Vec<Option<i64>> = Vec::new();
    let mut w: Vec<Option<String>> = Vec::new();
    for b in &batches {
        match column(b, "v") {
            Column::Int64(cells) => v.extend(cells),
            _ => panic!(),
        }
        w.extend(strs(b, "w"));
    }
    let mut want_v: Vec<Option<i64>> = Vec::new();
    let mut want_w: Vec<Option<String>> = Vec::new();
    for i in 0..n {
        if i % 3 == 1 {
            want_v.push(Some(i));
            want_w.push(None);
        } else if i % 3 == 2 {
            want_v.extend([Some(i), Some(i)]);
            want_w.extend([Some(format!("w{i}")), None]);
        }
    }
    assert_eq!(v, want_v);
    assert_eq!(w, want_w);
}

#[test]
fn reading_stops_at_the_first_file_that_fails() {
    let s = spec(&[], &[], ColType::Str);
    let paths = cols(&["a", "b", "c"]);
    let files = vec![
        Ok(b"x\nk\n1\n".to_vec()),
        Err("读取文件失败 b: gone".to_string()),
        Ok(Vec::new()),
    ];
    assert_eq!(
        read_csvs_to_batches(&paths, &files, None, &s, &opts()).unwrap_err(),
        "读取文件失败 b: gone"
    );
    let files = vec![Ok(b"x\nk\n1\n".to_vec()), Ok(Vec::new()), Err("gone".to_string())];
    assert_eq!(
        read_csvs_to_batches(&paths, &files, None, &s, &opts()).unwrap_err(),
        "b: 文件无表头"
    );
}

#[test]
fn reading_nothing_is_refused() {
    let s = spec(&[], &[], ColType::Str);
    assert_eq!(
        read_csvs_to_batches(&[], &[], None, &s, &opts()).unwrap_err(),
        "路径列表为空"
    );
    assert_eq!(
        read_csvs_to_batches(&cols(&["a"]), &[Ok(b"x\nk\n".to_vec())], None, &s, &opts())
            .unwrap_err(),
        "无有效数据"
    );
}
