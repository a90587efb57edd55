//! Vintages told by the table of filings they come from: by its rows, its days
//! and the values of its lines.

use vstd::prelude::*;

use crate::calendar::{due, quarter_of};
use crate::expressions::{
    all_entries, are_vintages, due_entries, filed_entries, filed_entry, first_quarter, holds_line,
    is_day, is_latest, is_newest, known_value, lemma_known_value, line_name, line_views, listed,
    Filings, Vintages,
};
use crate::text::decimal;
use crate::vintage_laws::{
    lemma_due_by, lemma_due_entries, lemma_due_entry_there, lemma_first_quarter,
};

verus! {

/// Whether row `r` of a table reports on quarter `q` and is published by
/// `day`. A row that lacks one of its days is no filing.
pub open spec fn reports(f: Filings, r: int, q: int, day: int) -> bool {
    &&& 0 <= r < f.report.len()
    &&& f.report[r] matches Some(reported)
    &&& f.publish[r] matches Some(published)
    &&& quarter_of(reported as int) == q
    &&& published <= day
}

/// Whether a row of a table reports on quarter `q` at all.
pub open spec fn reports_ever(f: Filings, r: int, q: int) -> bool {
    &&& 0 <= r < f.report.len()
    &&& f.report[r] matches Some(reported)
    &&& f.publish[r] is Some
    &&& quarter_of(reported as int) == q
}

/// Whether row `r` is the last word on quarter `q` by `day`: no row that
/// reports on it by then is published later, nor on the same day further down.
pub open spec fn last_word(f: Filings, r: int, q: int, day: int) -> bool {
    &&& reports(f, r, q, day)
    &&& forall|s: int| #[trigger]
        reports(f, s, q, day) ==> f.publish[s]->0 < f.publish[r]->0 || (f.publish[s]->0
            == f.publish[r]->0 && s <= r)
}

/// Whether quarter `q` came due by `horizon` with no report on it: some row
/// reports on it or on an earlier quarter, and none reports on it by its due
/// day.
pub open spec fn came_due(f: Filings, horizon: int, q: int) -> bool {
    &&& due(q) <= horizon
    &&& exists|r: int, p: int| #[trigger] reports_ever(f, r, p) && p <= q
    &&& forall|r: int| !#[trigger] reports(f, r, q, due(q))
}

/// The rows whose filings are the entries of the first `n` rows.
proof fn lemma_rows(f: Filings, n: nat) -> (rows: Seq<int>)
    requires
        n <= f.report.len(),
    ensures
        rows.len() == filed_entries(f, n).len(),
        forall|i: int|
            0 <= i < rows.len() ==> {
                &&& 0 <= #[trigger] rows[i] < n
                &&& f.report[rows[i]] is Some
                &&& f.publish[rows[i]] is Some
                &&& filed_entries(f, n)[i] == filed_entry(f, rows[i])
            },
        forall|i: int, k: int| 0 <= i < k < rows.len() ==> rows[i] < rows[k],
        forall|r: int|
            0 <= r < n && #[trigger] f.report[r] is Some && f.publish[r] is Some ==> rows.contains(
                r,
            ),
    decreases n,
{
    if n == 0 {
        Seq::empty()
    } else {
        let front = lemma_rows(f, (n - 1) as nat);
        if f.report[n - 1] is Some && f.publish[n - 1] is Some {
            let rows = front.push(n - 1);
            assert forall|r: int|
                0 <= r < n && #[trigger] f.report[r] is Some
                    && f.publish[r] is Some implies rows.contains(r) by {
                if r < n - 1 {
                    let i = choose|i: int| 0 <= i < front.len() && front[i] == r;
                    assert(rows[i] == r);
                } else {
                    assert(rows[front.len() as int] == r);
                }
            }
            rows
        } else {
            front
        }
    }
}

/// The place of a row among the entries.
proof fn lemma_entry_of_row(f: Filings, rows: Seq<int>, r: int, q: int) -> (i: int)
    requires
        rows.len() == filed_entries(f, f.report.len()).len(),
        forall|i: int|
            0 <= i < rows.len() ==> filed_entries(f, f.report.len())[i] == filed_entry(
                f,
                #[trigger] rows[i],
            ),
        forall|r: int|
            0 <= r < f.report.len() && #[trigger] f.report[r] is Some && f.publish[r] is Some
                ==> rows.contains(r),
        reports_ever(f, r, q),
    ensures
        0 <= i < rows.len(),
        rows[i] == r,
        filed_entries(f, f.report.len())[i].quarter == q,
        filed_entries(f, f.report.len())[i].publish == f.publish[r]->0,
{
    assert(f.report[r] is Some);
    choose|i: int| 0 <= i < rows.len() && rows[i] == r
}

/// An entry is that of a row, or that of a quarter that came due with no
/// report on it.
proof fn lemma_entry(f: Filings, horizon: int, rows: Seq<int>, i: int)
    requires
        rows.len() == filed_entries(f, f.report.len()).len(),
        forall|i: int|
            0 <= i < rows.len() ==> {
                &&& 0 <= #[trigger] rows[i] < f.report.len()
                &&& f.report[rows[i]] is Some
                &&& f.publish[rows[i]] is Some
                &&& filed_entries(f, f.report.len())[i] == filed_entry(f, rows[i])
            },
        forall|r: int|
            0 <= r < f.report.len() && #[trigger] f.report[r] is Some && f.publish[r] is Some
                ==> rows.contains(r),
        0 <= i < all_entries(f, horizon).len(),
    ensures
        ({
            let e = all_entries(f, horizon)[i];
            if i < rows.len() {
                &&& e == filed_entry(f, rows[i])
                &&& e.publish == f.publish[rows[i]]->0
                &&& reports(f, rows[i], e.quarter, e.publish)
                &&& reports_ever(f, rows[i], e.quarter)
            } else {
                &&& came_due(f, horizon, e.quarter)
                &&& e.publish == due(e.quarter)
                &&& forall|j: int| 0 <= j < f.lines.len() ==> (#[trigger] e.values[j]) is None
            }
        }),
{
    let filed = filed_entries(f, f.report.len());
    let entries = all_entries(f, horizon);
    let e = entries[i];
    if i < rows.len() {
        assert(e == filed[i]);
        assert(0 <= rows[i] < f.report.len());
    } else {
        let lo = first_quarter(filed);
        let hi = quarter_of(horizon);
        let width = f.lines.len();
        lemma_due_entries(filed, width, horizon, lo, hi);
        assert(e == due_entries(filed, width, horizon, lo, hi)[i - filed.len()]);
        let q = e.quarter;
        let first = lemma_first_quarter(filed);
        let r = rows[first];
        assert(reports_ever(f, r, lo));
        assert forall|r: int| !#[trigger] reports(f, r, q, due(q)) by {
            if reports(f, r, q, due(q)) {
                let k = lemma_entry_of_row(f, rows, r, q);
                assert(filed[k].quarter == q);
            }
        }
    }
}

/// A quarter that came due with no report on it has an entry on its due day.
proof fn lemma_came_due(f: Filings, horizon: int, rows: Seq<int>, q: int) -> (i: int)
    requires
        rows.len() == filed_entries(f, f.report.len()).len(),
        forall|i: int|
            0 <= i < rows.len() ==> {
                &&& 0 <= #[trigger] rows[i] < f.report.len()
                &&& f.report[rows[i]] is Some
                &&& f.publish[rows[i]] is Some
                &&& filed_entries(f, f.report.len())[i] == filed_entry(f, rows[i])
            },
        forall|r: int|
            0 <= r < f.report.len() && #[trigger] f.report[r] is Some && f.publish[r] is Some
                ==> rows.contains(r),
        came_due(f, horizon, q),
    ensures
        0 <= i < all_entries(f, horizon).len(),
        all_entries(f, horizon)[i].quarter == q,
        all_entries(f, horizon)[i].publish == due(q),
{
    let filed = filed_entries(f, f.report.len());
    let (r, p) = choose|r: int, p: int| #[trigger] reports_ever(f, r, p) && p <= q;
    let k = lemma_entry_of_row(f, rows, r, p);
    let first = lemma_first_quarter(filed);
    let lo = first_quarter(filed);
    assert(filed[k].quarter >= lo);
    assert forall|i: int|
        0 <= i < filed.len() && (#[trigger] filed[i]).quarter == q implies filed[i].publish > due(
        q,
    ) by {
        assert(filed[i] == filed_entry(f, rows[i]));
        assert(!reports(f, rows[i], q, due(q)));
    }
    lemma_due_by(q, horizon);
    let at = lemma_due_entry_there(
        filed,
        f.lines.len(),
        horizon,
        lo,
        quarter_of(horizon),
        q,
    );
    filed.len() + at
}

/// What a vintage holds of a line, `back` quarters before the newest, is what
/// stands in the table: the value of the line in the row that is the last word
/// on that quarter by the vintage's day, whatever the value is. Where no row
/// reports on the quarter by then, it is missing.
///
/// There are columns for the newest quarter and for `offsets` quarters before
/// it, those of a quarter side by side.
pub proof fn law_value_stands_in_table(
    f: Filings,
    horizon: int,
    offsets: int,
    v: Vintages,
    t: int,
    back: int,
    line: int,
    r: int,
)
    requires
        are_vintages(f, horizon, offsets, v),
        0 <= t < v.publish@.len(),
        0 <= back <= offsets,
        0 <= line < f.lines.len(),
    ensures
        v.values@.len() == (offsets + 1) * f.lines.len(),
        0 <= back * f.lines.len() + line < v.values@.len(),
        v.values@[back * f.lines.len() + line]@.len() == v.publish@.len(),
        last_word(f, r, v.current@[t] - back, v.publish@[t] as int)
            ==> v.values@[back * f.lines.len() + line]@[t] == f.lines[line][r],
        (forall|s: int| !#[trigger] reports(f, s, v.current@[t] - back, v.publish@[t] as int))
            ==> v.values@[back * f.lines.len() + line]@[t] is None,
{
    let width = f.lines.len() as int;
    let c = back * width + line;
    assert(0 <= c < (offsets + 1) * width) by (nonlinear_arith)
        requires
            c == back * width + line,
            0 <= back <= offsets,
            0 <= line < width,
    ;
    vstd::arithmetic::div_mod::lemma_fundamental_div_mod_converse(c, width, back, line);
    let entries = all_entries(f, horizon);
    let filed = filed_entries(f, f.report.len());
    let day = v.publish@[t] as int;
    let q = v.current@[t] - back;
    assert(holds_line(v.values@[c]@, entries, v.publish@, v.current@, back, line));
    assert(v.values@[c]@[t] == known_value(entries, q, day, line));
    let rows = lemma_rows(f, f.report.len());
    if last_word(f, r, q, day) {
        let i = lemma_entry_of_row(f, rows, r, q);
        assert(entries[i] == filed[i]);
        assert forall|k: int|
            0 <= k < entries.len() && (#[trigger] entries[k]).quarter == q && entries[k].publish
                <= day implies entries[k].publish < entries[i].publish || (entries[k].publish
            == entries[i].publish && k <= i) by {
            lemma_entry(f, horizon, rows, k);
            if k < rows.len() {
                assert(reports(f, rows[k], q, day));
            } else {
                assert(!reports(f, r, q, due(q)));
            }
        }
        assert(is_latest(entries, q, day, i));
        lemma_known_value(entries, q, day, line, i);
        assert(entries[i] == filed_entry(f, rows[i]));
    }
    if forall|s: int| !#[trigger] reports(f, s, q, day) {
        if exists|k: int| is_latest(entries, q, day, k) {
            let k = choose|k: int| is_latest(entries, q, day, k);
            lemma_entry(f, horizon, rows, k);
            if k < rows.len() {
                assert(reports(f, rows[k], q, day));
            }
        }
    }
}

/// There is a vintage for each day on which a row is published or a quarter
/// came due with no report on it, and for no other day; they go by their days.
pub proof fn law_vintage_days(f: Filings, horizon: int, offsets: int, v: Vintages, day: i32)
    requires
        are_vintages(f, horizon, offsets, v),
    ensures
        v.current@.len() == v.publish@.len(),
        forall|s: int, t: int| 0 <= s < t < v.publish@.len() ==> v.publish@[s] < v.publish@[t],
        v.publish@.contains(day) <==> {
            ||| exists|r: int, q: int| #[trigger] reports_ever(f, r, q) && f.publish[r] == Some(day)
            ||| exists|q: int| #[trigger] came_due(f, horizon, q) && due(q) == day
        },
{
    let entries = all_entries(f, horizon);
    let filed = filed_entries(f, f.report.len());
    let rows = lemma_rows(f, f.report.len());
    if v.publish@.contains(day) {
        let t = choose|t: int| 0 <= t < v.publish@.len() && v.publish@[t] == day;
        assert(is_day(entries, v.publish@[t] as int));
        let i = choose|i: int| 0 <= i < entries.len() && (#[trigger] entries[i]).publish == day;
        lemma_entry(f, horizon, rows, i);
    }
    if exists|r: int, q: int| #[trigger] reports_ever(f, r, q) && f.publish[r] == Some(day) {
        let (r, q) = choose|r: int, q: int| #[trigger]
            reports_ever(f, r, q) && f.publish[r] == Some(day);
        let i = lemma_entry_of_row(f, rows, r, q);
        assert(entries[i] == filed[i]);
        assert(listed(v.publish@, entries[i].publish));
    }
    if exists|q: int| #[trigger] came_due(f, horizon, q) && due(q) == day {
        let q = choose|q: int| #[trigger] came_due(f, horizon, q) && due(q) == day;
        let i = lemma_came_due(f, horizon, rows, q);
        assert(listed(v.publish@, entries[i].publish));
    }
}

/// The newest quarter of a vintage is one that a row reports on by its day, or
/// that came due by then with no report on it, and no later quarter is.
pub proof fn law_vintage_newest(
    f: Filings,
    horizon: int,
    offsets: int,
    v: Vintages,
    t: int,
)
    requires
        are_vintages(f, horizon, offsets, v),
        0 <= t < v.publish@.len(),
    ensures
        ({
            let day = v.publish@[t] as int;
            let newest = v.current@[t] as int;
            &&& {
                ||| exists|r: int| reports(f, r, newest, day)
                ||| came_due(f, horizon, newest) && due(newest) <= day
            }
            &&& forall|r: int, q: int| #[trigger] reports(f, r, q, day) ==> q <= newest
            &&& forall|q: int| #[trigger]
                came_due(f, horizon, q) && due(q) <= day ==> q <= newest
        }),
{
    let entries = all_entries(f, horizon);
    let filed = filed_entries(f, f.report.len());
    let rows = lemma_rows(f, f.report.len());
    let day = v.publish@[t] as int;
    let newest = v.current@[t] as int;
    assert(is_newest(entries, day, newest));
    let i = choose|i: int|
        0 <= i < entries.len() && (#[trigger] entries[i]).publish <= day && entries[i].quarter
            == newest;
    lemma_entry(f, horizon, rows, i);
    if i < rows.len() {
        assert(reports(f, rows[i], newest, day));
    }
    assert forall|r: int, q: int| #[trigger] reports(f, r, q, day) implies q <= newest by {
        assert(reports_ever(f, r, q));
        let k = lemma_entry_of_row(f, rows, r, q);
        assert(entries[k] == filed[k]);
    }
    assert forall|q: int| #[trigger]
        came_due(f, horizon, q) && due(q) <= day implies q <= newest by {
        let k = lemma_came_due(f, horizon, rows, q);
        assert(entries[k].publish <= day);
    }
}

/// A column is named by its line alone at the newest quarter, and by the line
/// and the number of quarters back before it. The lines are taken as they are.
pub proof fn law_line_names(line: Seq<char>, back: nat, lines: Seq<Vec<Option<u64>>>)
    ensures
        line_name(line, 0) == line,
        back > 0 ==> line_name(line, back) == line + ("_"@ + decimal(back)),
        line_views(lines).len() == lines.len(),
        forall|j: int| 0 <= j < lines.len() ==> #[trigger] line_views(lines)[j] == lines[j]@,
{
    assert(back > 0 ==> line_name(line, back) =~= line + ("_"@ + decimal(back)));
}

} // verus!
