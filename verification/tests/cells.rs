use johnnybt_polars::loader::cells::{
    civil_to_days, fast_parse_date, is_float_text, parse_int64, DateFormat,
};
use johnnybt_polars::loader::csv_scan::Scanner;

#[test]
fn integers_read_as_the_standard_library_reads_them() {
    let texts = [
        "", "0", "-0", "+0", "7", "+7", "-7", "007", "9223372036854775807", "9223372036854775808",
        "-9223372036854775808", "-9223372036854775809", "+9223372036854775807",
        "18446744073709551616", "99999999999999999999999", "000000000000000000000000000012", "+",
        "-", "--1", "+-1", "1-", "1.5", "1e3", " 1", "1 ", "0x10", "1_000", "１", "不是数字", "12a",
        "a12", "\u{0}1", "-\u{7f}",
    ];
    for t in texts {
        assert_eq!(parse_int64(t), t.parse::<i64>().ok(), "{t:?}");
    }
}

#[test]
fn numerals_are_those_of_the_standard_library() {
    let texts = [
        "", "0", "1", "-1", "+1", "1.", ".1", ".", "-.", "+.", "1.5", "-1.5", "1e5", "1E5", "1e+5",
        "1e-5", "1e", "1e+", "e5", ".e5", "1.e5", ".5e5", "1.5.2", "inf", "-inf", "+Inf", "INF",
        "infinity", "-Infinity", "INFINITY", "infinit", "infinityy", "nan", "NaN", "-nan", "+NAN",
        "nano", "na", "--1", "+-1", "1 ", " 1", "1,5", "0x10", "1_0", "１", "１.5", "某公告", "1e400",
        "1e-400", "1e5.5", "1ee5", "5e", "+", "-", "--", "..", "1..2", "\u{7f}", "1\u{0}", "١",
        "9007199254740993", "00.00", "-0", "1e00000000000000000000005", "i", "in", "infx",
    ];
    for t in texts {
        assert_eq!(is_float_text(t), t.parse::<f64>().is_ok(), "{t:?}");
    }
}

#[test]
fn short_texts_are_numerals_just_where_they_parse() {
    let alphabet = ['0', '9', '+', '-', '.', 'e', 'E', 'n', 'a', 'i', 'f', ' '];
    let mut level: Vec<String> = vec![String::new()];
    for _ in 0..4 {
        let mut next = Vec::new();
        for t in &level {
            for c in alphabet {
                let mut s = t.clone();
                s.push(c);
                assert_eq!(is_float_text(&s), s.parse::<f64>().is_ok(), "{s:?}");
                assert_eq!(parse_int64(&s), s.parse::<i64>().ok(), "{s:?}");
                next.push(s);
            }
        }
        level = next;
    }
}

#[test]
fn dates_in_the_common_formats() {
    let ymd = DateFormat::from_str("%Y-%m-%d");
    let ymd8 = DateFormat::from_str("%Y%m%d");
    assert!(matches!(ymd, DateFormat::Ymd));
    assert!(matches!(ymd8, DateFormat::Ymd8));
    assert_eq!(fast_parse_date("1970-01-01", &ymd), Some(0));
    assert_eq!(fast_parse_date("2024-01-15", &ymd), Some(19737));
    assert_eq!(fast_parse_date("20240115", &ymd8), Some(19737));
    assert_eq!(fast_parse_date("2000-03-01", &ymd), Some(11017));
    assert_eq!(fast_parse_date("0000-03-01", &ymd), Some(-719468));
    assert_eq!(fast_parse_date("1969-12-31", &ymd), Some(-1));
    assert_eq!(fast_parse_date("9999-12-31", &ymd), Some(2932896));
    for t in ["", "2024-1-15", "2024/01/15", "2024-13-01", "2024-00-10", "2024-01-00", "2024-01-32"] {
        assert_eq!(fast_parse_date(t, &ymd), None, "{t}");
    }
    for t in ["", "2024011", "202401155", "2024011x", "20241301", "20240100", "20240132", "２024011"] {
        assert_eq!(fast_parse_date(t, &ymd8), None, "{t}");
    }
    // 31 days are allowed in every month; the day runs on into the next.
    assert_eq!(fast_parse_date("2024-02-31", &ymd), fast_parse_date("2024-03-02", &ymd));
}

#[test]
fn dates_in_other_formats_are_those_of_chrono() {
    let other = DateFormat::from_str("%d.%m.%Y");
    assert!(matches!(&other, DateFormat::Other(f) if f == "%d.%m.%Y"));
    assert_eq!(fast_parse_date("15.01.2024", &other), Some(19737));
    assert_eq!(fast_parse_date("01.01.1970", &other), Some(0));
    assert_eq!(fast_parse_date("31.12.1969", &other), Some(-1));
    assert_eq!(fast_parse_date("31.02.2024", &other), None);
    assert_eq!(fast_parse_date("2024-01-15", &other), None);
}

#[test]
fn civil_dates_agree_with_chrono() {
    for y in [-262_000i32, -400, -1, 0, 1, 4, 100, 400, 1600, 1899, 1900, 1970, 1999, 2000, 2023, 2024, 2100, 9999, 262_000] {
        for m in 1..=12 {
            for d in 1..=31 {
                if let Some(date) = chrono::NaiveDate::from_ymd_opt(y, m, d) {
                    assert_eq!(civil_to_days(y, m, d), Some(date.to_epoch_days()));
                }
            }
        }
    }
    assert_eq!(civil_to_days(5881580, 7, 11), Some(i32::MAX));
    assert_eq!(civil_to_days(-5877641, 6, 23), Some(i32::MIN));
    assert_eq!(civil_to_days(i32::MAX, 0, 1), None);
    assert_eq!(civil_to_days(2024, 0, 1), None);
    assert_eq!(civil_to_days(2024, 13, 1), None);
    assert_eq!(civil_to_days(2024, 1, 0), None);
    assert_eq!(civil_to_days(2024, 1, 32), None);
}

#[test]
fn white_space_is_trimmed_as_the_standard_library_trims_it() {
    for n in 0..=0x10ffff_u32 {
        if let Some(c) = char::from_u32(n) {
            if c == '\n' || c == ',' {
                continue;
            }
            let near = c.is_whitespace() || c.is_control() || n < 0x100 || (0x2000..0x2070).contains(&n);
            if !near {
                continue;
            }
            let text = format!("{c}x{c}x{c}");
            let mut scanner = Scanner::new(&text, 0, false, true);
            let row = scanner.read_row().unwrap();
            assert_eq!(row, vec![text.trim().to_string()], "{n:#x}");
        }
    }
}
