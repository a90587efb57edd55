use johnnybt_polars::loader::csv_scan::{FieldValue, Scanner};

fn rows(text: &str, quoting: bool) -> Vec<Vec<String>> {
    let mut sc = Scanner::new(text, 0, quoting, true);
    let mut out = Vec::new();
    while let Some(r) = sc.read_row() {
        out.push(r);
    }
    out
}

#[test]
fn plain_fields() {
    assert_eq!(
        rows("a,b,c\n1,2,3\n", true),
        vec![vec!["a", "b", "c"], vec!["1", "2", "3"]]
    );
}

#[test]
fn trims_whitespace_and_skips_blank_lines() {
    assert_eq!(
        rows(" a , b \n\n\n 1 , 2 \n", true),
        vec![vec!["a", "b"], vec!["1", "2"]]
    );
}

#[test]
fn a_line_of_any_white_space_is_blank() {
    assert_eq!(
        rows("a\n\u{3000}\n\u{a0} \t\r\n1\n\u{3000}2\n\u{b}\u{c}", true),
        vec![vec!["a"], vec!["1"], vec!["2"]]
    );
}

#[test]
fn a_carriage_return_may_stand_between_a_closing_quote_and_a_comma() {
    assert_eq!(rows("\"a\"\r,b\n1,2\n", true), vec![vec!["a", "b"], vec!["1", "2"]]);
    assert_eq!(rows("\"a\" \t\r,\"b\"\r\n1\n", true), vec![vec!["a", "b"], vec!["1"]]);
}

#[test]
fn only_a_quoted_field_is_copied() {
    let text = "a, b\"c ,\"d\"\n";
    let mut sc = Scanner::new(text, 0, true, true);
    for want in ["a", "b\"c"] {
        match sc.scan_field().0 {
            FieldValue::Borrowed(s) => {
                assert_eq!(s, want);
                assert!(text.as_bytes().as_ptr_range().contains(&s.as_ptr()));
            }
            FieldValue::Buffered(_) => panic!("copied"),
        }
    }
    assert!(matches!(sc.scan_field(), (FieldValue::Buffered(s), true) if s == "d"));
    let mut sc = Scanner::new("\"d\"\n", 0, false, true);
    assert!(matches!(sc.scan_field(), (FieldValue::Borrowed("\"d\""), true)));
}

#[test]
fn finishing_a_quoted_field_twice_is_finishing_it_once() {
    for trims in [true, false] {
        let once = Scanner::finish_quoted(" a b\u{3000}".to_string(), trims);
        assert_eq!(once.as_str(), if trims { "a b" } else { " a b\u{3000}" });
        let twice = Scanner::finish_quoted(once.as_str().to_string(), trims);
        assert_eq!(twice.as_str(), once.as_str());
    }
}

#[test]
fn a_quote_in_the_middle_of_a_skipped_field_is_a_character() {
    let mut sc = Scanner::new("1,5\"x\n2,b\n", 0, true, true);
    assert_eq!(sc.scan_field().0.as_str(), "1");
    sc.skip_to_eol();
    assert_eq!(sc.byte_len(), 4);
    assert_eq!(sc.read_row().unwrap(), vec!["2", "b"]);
    let mut sc = Scanner::new("1,\"x\n2,b\n", 0, false, true);
    sc.skip_to_eol();
    assert_eq!(sc.read_row().unwrap(), vec!["2", "b"]);
}

#[test]
fn quoted_comma_does_not_split() {
    assert_eq!(
        rows("2024-05-08,\"关于变更公司名称,注册地址的公告\"\n", true),
        vec![vec!["2024-05-08", "关于变更公司名称,注册地址的公告"]]
    );
}

#[test]
fn rfc4180_escaped_quote() {
    assert_eq!(rows("\"a\"\"b\",c\n", true), vec![vec!["a\"b", "c"]]);
}

#[test]
fn lenient_unescaped_inner_quote() {
    assert_eq!(
        rows("\"安徽凤凰:落实\"提质守信重回报\"行动公告\",x\n", true),
        vec![vec!["安徽凤凰:落实\"提质守信重回报\"行动公告", "x"]]
    );
}

#[test]
fn whitespace_after_closing_quote() {
    assert_eq!(rows("\"a\" ,b\n", true), vec![vec!["a", "b"]]);
}

#[test]
fn multiline_quoted_field() {
    let out = rows("a,\"第一行\n第二行\"\nb,c\n", true);
    assert_eq!(out.len(), 2);
    assert_eq!(out[0], vec!["a", "第一行\n第二行"]);
    assert_eq!(out[1], vec!["b", "c"]);
}

#[test]
fn quoting_disabled_keeps_quotes_literal() {
    assert_eq!(rows("\"a,b\",c\n", false), vec![vec!["\"a", "b\"", "c"]]);
}

#[test]
fn crlf_line_endings() {
    assert_eq!(
        rows("a,b\r\n1,2\r\n", true),
        vec![vec!["a", "b"], vec!["1", "2"]]
    );
    assert_eq!(
        rows("\"a\",b\r\n1,2\r\n", true),
        vec![vec!["a", "b"], vec!["1", "2"]]
    );
}

#[test]
fn unterminated_quote_at_eof() {
    assert_eq!(
        rows("a,\"未闭合\n还在里面", true),
        vec![vec!["a", "未闭合\n还在里面"]]
    );
}

#[test]
fn early_exit_skips_rest_of_row() {
    let mut sc = Scanner::new("a,b,c,d\n1,2,3,4\n", 0, true, true);
    let mut first = Vec::new();
    sc.next_record(|i, v| {
        first.push(v.to_string());
        i < 1
    });
    assert_eq!(first, vec!["a", "b"]);
    assert_eq!(sc.read_row().unwrap(), vec!["1", "2", "3", "4"]);
}

#[test]
fn early_exit_is_quote_aware() {
    let mut sc = Scanner::new("a,b,\"含\n换行\"\n1,2,3\n", 0, true, true);
    let mut first = Vec::new();
    sc.next_record(|_, v| {
        first.push(v.to_string());
        false
    });
    assert_eq!(first, vec!["a"]);
    assert_eq!(sc.read_row().unwrap(), vec!["1", "2", "3"]);
}
