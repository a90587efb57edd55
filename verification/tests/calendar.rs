use johnnybt_polars::calendar::{
    civil_from_days, days_from_civil, deadline_days, quarter_index,
};

#[test]
fn days_count_from_1970() {
    assert_eq!(days_from_civil(1970, 1, 1), 0);
    assert_eq!(days_from_civil(1969, 12, 31), -1);
    assert_eq!(days_from_civil(2000, 3, 1), 11017);
    assert_eq!(days_from_civil(2024, 4, 30), 19843);
    assert_eq!(days_from_civil(0, 3, 1), -719468);
    assert_eq!(days_from_civil(-1, 12, 31), -719529);
}

#[test]
fn months_are_found_again() {
    let mut days: i64 = -1_000_000;
    while days < 4_000_000 {
        let (y, m) = civil_from_days(days as i32);
        let first = days_from_civil(y, m, 1);
        let next = if m == 12 { days_from_civil(y + 1, 1, 1) } else { days_from_civil(y, m + 1, 1) };
        assert!(first <= days && days < next, "{days}");
        days += 97;
    }
    assert_eq!(civil_from_days(0), (1970, 1));
    assert_eq!(civil_from_days(-1), (1969, 12));
    assert_eq!(civil_from_days(i32::MAX), (5881580, 7));
    assert_eq!(civil_from_days(i32::MIN), (-5877641, 6));
}

#[test]
fn quarters_are_numbered_by_the_year() {
    assert_eq!(quarter_index(0), 1970 * 4);
    assert_eq!(quarter_index(-1), 1969 * 4 + 3);
    assert_eq!(quarter_index(days_from_civil(2023, 3, 31) as i32), 2023 * 4);
    assert_eq!(quarter_index(days_from_civil(2023, 4, 1) as i32), 2023 * 4 + 1);
    assert_eq!(quarter_index(days_from_civil(2023, 12, 31) as i32), 2023 * 4 + 3);
}

#[test]
fn reports_are_due_by_statute() {
    assert_eq!(deadline_days(2023 * 4), days_from_civil(2023, 4, 30));
    assert_eq!(deadline_days(2023 * 4 + 1), days_from_civil(2023, 8, 31));
    assert_eq!(deadline_days(2023 * 4 + 2), days_from_civil(2023, 10, 31));
    assert_eq!(deadline_days(2023 * 4 + 3), days_from_civil(2024, 4, 30));
    assert_eq!(deadline_days(-1), days_from_civil(0, 4, 30));
}

#[test]
fn a_report_is_due_after_its_quarter() {
    for q in 7000..9000 {
        let due = deadline_days(q);
        assert!(quarter_index(due as i32) > q);
        assert!(due <= deadline_days(q + 1));
    }
}
