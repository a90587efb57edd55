use std::collections::{BTreeMap, BTreeSet};

use johnnybt_polars::calendar::{days_from_civil, deadline_days, quarter_index};
use johnnybt_polars::expressions::{vintage, vintage_fields, Vintages, VintageType};

fn day(y: i32, m: u32, d: u32) -> Option<i32> {
    Some(days_from_civil(y, m, d) as i32)
}

fn bits(v: &[f64]) -> Vec<Option<u64>> {
    v.iter().map(|x| Some(x.to_bits())).collect()
}

fn numbers(v: &[Option<u64>]) -> Vec<Option<f64>> {
    v.iter().map(|x| x.map(f64::from_bits)).collect()
}

#[test]
fn a_restatement_shows_from_its_day_on() {
    let report = [day(2023, 3, 31), day(2023, 6, 30), day(2023, 3, 31)];
    let publish = [day(2023, 4, 20), day(2023, 8, 20), day(2023, 9, 1)];
    let lines = [bits(&[1.0, 2.0, 1.5])];
    let v = vintage(&report, &publish, &lines, day(2023, 9, 1).unwrap(), 1);
    assert_eq!(v.values.len(), 2);
    assert_eq!(
        v.publish,
        vec![
            day(2023, 4, 20).unwrap(),
            day(2023, 8, 20).unwrap(),
            day(2023, 9, 1).unwrap(),
        ]
    );
    assert_eq!(v.current, vec![2023 * 4, 2023 * 4 + 1, 2023 * 4 + 1]);
    assert_eq!(numbers(&v.values[0]), vec![Some(1.0), Some(2.0), Some(2.0)]);
    assert_eq!(numbers(&v.values[1]), vec![None, Some(1.0), Some(1.5)]);
}

#[test]
fn a_quarter_that_came_due_unfiled_reads_as_missing() {
    let report = [day(2023, 3, 31), day(2023, 9, 30)];
    let publish = [day(2023, 4, 20), day(2023, 11, 15)];
    let lines = [bits(&[1.0, 3.0])];
    let v = vintage(&report, &publish, &lines, day(2023, 12, 31).unwrap(), 1);
    assert_eq!(
        v.publish,
        vec![
            day(2023, 4, 20).unwrap(),
            day(2023, 8, 31).unwrap(),
            day(2023, 10, 31).unwrap(),
            day(2023, 11, 15).unwrap(),
        ]
    );
    assert_eq!(v.current, vec![8092, 8093, 8094, 8094]);
    assert_eq!(numbers(&v.values[0]), vec![Some(1.0), None, None, Some(3.0)]);
    assert_eq!(numbers(&v.values[1]), vec![None, Some(1.0), None, None]);
}

#[test]
fn the_later_row_of_a_day_counts() {
    let report = [day(2023, 3, 31), day(2023, 3, 1)];
    let publish = [day(2023, 4, 20), day(2023, 4, 20)];
    let lines = [bits(&[1.0, 2.0]), vec![Some(7), None]];
    let v = vintage(&report, &publish, &lines, day(2023, 4, 20).unwrap(), 0);
    assert_eq!(v.publish.len(), 1);
    assert_eq!(v.values.len(), 2);
    assert_eq!(numbers(&v.values[0]), vec![Some(2.0)]);
    assert_eq!(v.values[1], vec![None]);
}

#[test]
fn rows_without_days_are_left_out() {
    let report = [None, day(2023, 3, 31)];
    let publish = [day(2023, 4, 20), None];
    let v = vintage(&report, &publish, &[bits(&[1.0, 2.0])], day(2024, 1, 1).unwrap(), 3);
    assert!(v.publish.is_empty() && v.current.is_empty());
    assert_eq!(v.values, vec![Vec::<Option<u64>>::new(); 4]);
    let v = vintage(&[], &[], &[], 0, usize::MAX);
    assert!(v.publish.is_empty() && v.values.is_empty());
}

#[test]
fn far_quarters_are_missing() {
    let report = [Some(i32::MIN), Some(i32::MIN + 1)];
    let publish = [Some(i32::MIN), Some(i32::MAX)];
    let v = vintage(&report, &publish, &[bits(&[1.0, 2.0])], i32::MIN, 2);
    assert_eq!(v.publish, vec![i32::MIN, i32::MAX]);
    assert_eq!(numbers(&v.values[0]), vec![Some(1.0), Some(2.0)]);
    assert_eq!(v.values[2], vec![None, None]);
}

/// The vintages read off their description, entry by entry.
fn described(
    report: &[Option<i32>],
    publish: &[Option<i32>],
    lines: &[Vec<Option<u64>>],
    horizon: i32,
    offsets: usize,
) -> (Vec<i32>, Vec<i32>, Vec<Vec<Option<u64>>>) {
    let mut entries: Vec<(i32, i32, Option<usize>)> = Vec::new();
    for i in 0..report.len() {
        if let (Some(r), Some(p)) = (report[i], publish[i]) {
            entries.push((p, quarter_index(r), Some(i)));
        }
    }
    if let Some(first) = entries.iter().map(|e| e.1).min() {
        let filed = entries.clone();
        for q in first..=quarter_index(horizon) {
            let due = deadline_days(q);
            let on_time = filed.iter().any(|e| e.1 == q && e.0 as i64 <= due);
            if due <= horizon as i64 && !on_time {
                entries.push((due as i32, q, None));
            }
        }
    }
    let days: BTreeSet<i32> = entries.iter().map(|e| e.0).collect();
    let mut current = Vec::new();
    let mut values = vec![Vec::new(); (offsets + 1) * lines.len()];
    for d in &days {
        let mut latest: BTreeMap<i32, (i32, Option<usize>)> = BTreeMap::new();
        for e in entries.iter().filter(|e| e.0 <= *d) {
            let known = latest.get(&e.1).map(|k| k.0);
            if known.is_none_or(|p| p <= e.0) {
                latest.insert(e.1, (e.0, e.2));
            }
        }
        let newest = *latest.keys().max().unwrap();
        current.push(newest);
        for k in 0..=offsets {
            for j in 0..lines.len() {
                let row = latest.get(&(newest - k as i32)).and_then(|e| e.1);
                values[k * lines.len() + j].push(row.and_then(|i| lines[j][i]));
            }
        }
    }
    (days.into_iter().collect(), current, values)
}

#[test]
fn vintages_are_as_described() {
    let mut seed: u64 = 12345;
    let mut next = |n: u64| {
        seed = seed.wrapping_mul(6364136223846793005).wrapping_add(1442695040888963407);
        (seed >> 33) % n
    };
    for round in 0..200 {
        let n = next(30) as usize;
        let start = 19000 - 400;
        let mut report = Vec::new();
        let mut publish = Vec::new();
        let mut lines = vec![Vec::new(), Vec::new()];
        for _ in 0..n {
            report.push(if next(10) == 0 { None } else { Some(start + next(900) as i32) });
            publish.push(if next(10) == 0 { None } else { Some(start + next(1200) as i32) });
            for line in lines.iter_mut() {
                line.push(if next(5) == 0 { None } else { Some(next(1000)) });
            }
        }
        let horizon = start + next(1500) as i32;
        let offsets = next(5) as usize;
        let Vintages { publish: days, current, values } =
            vintage(&report, &publish, &lines, horizon, offsets);
        let want = described(&report, &publish, &lines, horizon, offsets);
        assert_eq!((days, current, values), want, "{round}");
    }
}

#[test]
fn what_is_filed_later_does_not_show_before() {
    let report = [day(2023, 3, 31), day(2023, 6, 30), day(2023, 9, 30)];
    let publish = [day(2023, 4, 20), day(2023, 8, 20), day(2023, 10, 20)];
    let lines = [bits(&[1.0, 2.0, 3.0])];
    let all = vintage(&report, &publish, &lines, day(2023, 12, 31).unwrap(), 2);
    let some = vintage(
        &report[..2],
        &publish[..2],
        &[lines[0][..2].to_vec()],
        day(2023, 9, 30).unwrap(),
        2,
    );
    assert_eq!(all.publish[..2], some.publish[..2]);
    assert_eq!(all.current[..2], some.current[..2]);
    for c in 0..3 {
        assert_eq!(all.values[c][..2], some.values[c][..2]);
    }
}

#[test]
fn each_line_comes_at_the_newest_quarter_and_at_each_offset_before_it() {
    let v = vintage(
        &[Some(89), Some(180)],
        &[Some(110), Some(230)],
        &[bits(&[1.0, 2.0])],
        230,
        1,
    );
    assert_eq!(v.publish, vec![110, 230]);
    assert_eq!(v.values.len(), 2);
    assert_eq!(numbers(&v.values[0]), vec![Some(1.0), Some(2.0)]);
    assert_eq!(numbers(&v.values[1]), vec![None, Some(1.0)]);
}

/// The rows of vintages up to a day.
fn up_to(v: &Vintages, day: i32) -> Vec<(i32, i32, Vec<Option<u64>>)> {
    (0..v.publish.len())
        .filter(|t| v.publish[*t] <= day)
        .map(|t| (v.publish[t], v.current[t], v.values.iter().map(|c| c[t]).collect()))
        .collect()
}

#[test]
fn rows_added_anywhere_do_not_change_the_vintages_before_their_day() {
    let horizon = day(2023, 12, 31).unwrap();
    let report = [day(2023, 3, 31), day(2023, 6, 30)];
    let publish = [day(2023, 4, 20), day(2023, 8, 20)];
    let some = vintage(&report, &publish, &[bits(&[1.0, 2.0])], horizon, 3);
    let report = [day(2023, 6, 30), day(2023, 3, 31), None, day(2023, 6, 30)];
    let publish = [day(2023, 9, 1), day(2023, 4, 20), day(2023, 1, 1), day(2023, 8, 20)];
    let lines = [bits(&[9.0, 1.0, 8.0, 2.0])];
    let more = vintage(&report, &publish, &lines, horizon, 3);
    let until = day(2023, 8, 31).unwrap();
    assert_eq!(up_to(&some, until).len(), 2);
    assert_eq!(up_to(&some, until), up_to(&more, until));
}

#[test]
fn a_later_filing_on_an_earlier_quarter_keeps_the_vintages_before_it() {
    let horizon = day(2023, 12, 31).unwrap();
    let until = day(2023, 8, 31).unwrap();
    let some = vintage(
        &[day(2023, 3, 31), day(2023, 6, 30)],
        &[day(2023, 6, 1), day(2023, 8, 20)],
        &[bits(&[1.0, 2.0])],
        horizon,
        3,
    );
    let more = vintage(
        &[day(2022, 9, 30), day(2023, 3, 31), day(2023, 6, 30)],
        &[day(2023, 9, 1), day(2023, 6, 1), day(2023, 8, 20)],
        &[bits(&[7.0, 1.0, 2.0])],
        horizon,
        3,
    );
    let kept = up_to(&more, until);
    for row in up_to(&some, until) {
        assert!(kept.contains(&row));
    }
    assert_eq!(up_to(&some, until).len(), 3);
    assert_eq!(kept.len(), 4);
}

#[test]
fn columns_are_named_by_line_and_offset() {
    let lines = ["净利润".to_string(), "rev".to_string()];
    let fields = vintage_fields("公告日", &lines, 11);
    assert_eq!(fields.len(), 26);
    assert_eq!(fields[0], ("公告日".to_string(), VintageType::Date));
    assert_eq!(fields[1], ("_current".to_string(), VintageType::Int32));
    assert_eq!(fields[2], ("净利润".to_string(), VintageType::Float64));
    assert_eq!(fields[3], ("rev".to_string(), VintageType::Float64));
    assert_eq!(fields[4].0, "净利润_1");
    assert_eq!(fields[25].0, "rev_11");
    assert_eq!(vintage_fields("p", &lines, 0).len(), 4);
    assert_eq!(vintage_fields("p", &[], usize::MAX).len(), 2);
}
