use johnnybt_polars::loader::batch::{Batch, Column, DataType};
use johnnybt_polars::loader::fina_reader::{
    parse_fina_csv_from_bytes, parse_fina_csv_from_text, parse_fina_file,
    read_fina_csvs_to_batches,
};
use johnnybt_polars::loader::schema::{ColType, ParseOptions, SchemaSpec};

fn spec(default_type: ColType) -> SchemaSpec {
    SchemaSpec {
        string_cols: vec!["code".to_string()],
        date_cols: Vec::new(),
        int_cols: Vec::new(),
        float_cols: Vec::new(),
        default_type,
    }
}

fn opts() -> ParseOptions {
    ParseOptions { skip_rows: 0, quoting: true, trim: true }
}

fn shown(batch: &Batch) -> Vec<(String, Vec<Option<String>>)> {
    batch
        .fields()
        .iter()
        .zip(batch.columns())
        .map(|(f, c)| {
            let cells = match c {
                Column::Utf8(v) | Column::Float64(v) => v.clone(),
                _ => panic!(),
            };
            (f.name.clone(), cells)
        })
        .collect()
}

fn some(s: &str) -> Option<String> {
    Some(s.to_string())
}

#[test]
fn columns_that_carry_nothing_are_left_out() {
    let text = "code,Unnamed: 3,,v,抓取时间,Unname,unnamed\na,1,2,3,4,5,6\nb\n";
    let b = parse_fina_csv_from_text(text, &spec(ColType::Float64), &[], &opts()).unwrap();
    assert_eq!(
        shown(&b),
        vec![
            ("code".to_string(), vec![some("a"), some("b")]),
            ("v".to_string(), vec![some("3"), None]),
            ("Unname".to_string(), vec![some("5"), None]),
            ("unnamed".to_string(), vec![some("6"), None]),
        ]
    );
}

#[test]
fn columns_are_renamed_before_their_type_is_looked_up() {
    let renames = [("代码".to_string(), "code".to_string()), ("v".to_string(), "w".to_string())];
    let b =
        parse_fina_csv_from_text("代码,v\nx,1\n", &spec(ColType::Float64), &renames, &opts())
            .unwrap();
    assert_eq!(b.fields()[0].name, "code");
    assert_eq!(b.fields()[0].data_type, DataType::Utf8);
    assert_eq!(b.fields()[1].name, "w");
}

#[test]
fn a_file_with_nothing_to_keep_is_refused() {
    assert_eq!(
        parse_fina_csv_from_text("Unnamed: 0,抓取时间\n1,2\n", &spec(ColType::Str), &[], &opts())
            .unwrap_err(),
        "构建 RecordBatch 失败: Invalid argument error: must either specify a row count or at \
         least one column"
    );
    assert_eq!(
        parse_fina_csv_from_bytes(b"", &spec(ColType::Str), &[], &opts()).unwrap_err(),
        "文件无表头"
    );
    assert_eq!(
        parse_fina_file(b"\n", "f.csv", &spec(ColType::Str), &[], &opts()).unwrap_err(),
        "f.csv: 文件无表头"
    );
}

#[test]
fn undeclared_text_is_refused_here_too() {
    let e = parse_fina_csv_from_text("code,t\na,某\n", &spec(ColType::Float64), &[], &opts())
        .unwrap_err();
    assert!(e.contains("'t'") && e.contains("某"), "{e}");
}

#[test]
fn files_with_different_columns_are_put_together_by_name() {
    let paths = ["1".to_string(), "2".to_string(), "3".to_string()];
    let files = [
        Ok(b"code,a\nx,1\n".to_vec()),
        Ok(b"code,b\n".to_vec()),
        Ok(b"b,code\n2,y\n".to_vec()),
    ];
    let (fields, batches) =
        read_fina_csvs_to_batches(&paths, &files, &spec(ColType::Float64), &[], &opts()).unwrap();
    assert_eq!(fields.iter().map(|f| f.name.as_str()).collect::<Vec<_>>(), vec!["code", "a", "b"]);
    assert_eq!(batches.len(), 1);
    assert_eq!(
        shown(&batches[0]),
        vec![
            ("code".to_string(), vec![some("x"), some("y")]),
            ("a".to_string(), vec![some("1"), None]),
            ("b".to_string(), vec![None, some("2")]),
        ]
    );
    let files = [Ok(b"code,a\nx,1\n".to_vec()), Err("gone".to_string()), Ok(Vec::new())];
    assert_eq!(
        read_fina_csvs_to_batches(&paths, &files, &spec(ColType::Float64), &[], &opts())
            .unwrap_err(),
        "gone"
    );
}
