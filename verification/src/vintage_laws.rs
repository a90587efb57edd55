//! What holds of vintages as a whole.

use vstd::prelude::*;

use crate::calendar::{
    due, law_due_after_quarter, law_quarter_exists, lemma_quarter_start_monotone, quarter_of,
};
use crate::expressions::{
    all_entries, are_vintages, due_entries, due_entry, expand, filed_entries, filed_entry,
    first_quarter, holds_line, is_day, is_latest, is_newest, known_value, listed, rectangular,
    unfiled, with_due, Entry, Filings, Vintages,
};

verus! {

/// The newest known quarter never goes back.
pub proof fn law_newest_never_goes_back(
    entries: Seq<Entry>,
    day: int,
    later: int,
    q: int,
    r: int,
)
    requires
        day <= later,
        is_newest(entries, day, q),
        is_newest(entries, later, r),
    ensures
        q <= r,
{
    let i = choose|i: int|
        0 <= i < entries.len() && (#[trigger] entries[i]).publish <= day && entries[i].quarter
            == q;
    assert(entries[i].publish <= later);
}

/// Only one quarter is the newest by a day.
pub proof fn law_newest_unique(entries: Seq<Entry>, day: int, q: int, r: int)
    requires
        is_newest(entries, day, q),
        is_newest(entries, day, r),
    ensures
        q == r,
{
    law_newest_never_goes_back(entries, day, day, q, r);
    law_newest_never_goes_back(entries, day, day, r, q);
}

/// Whether an entry on a quarter is out by a day.
pub open spec fn is_out(e: Entry, q: int, day: int) -> bool {
    e.quarter == q && e.publish <= day
}

/// Where an entry on a quarter is out by a day, one is the latest.
pub proof fn law_latest_exists(entries: Seq<Entry>, q: int, day: int, i: int)
    requires
        0 <= i < entries.len(),
        is_out(entries[i], q, day),
    ensures
        exists|k: int| is_latest(entries, q, day, k),
    decreases entries.len(),
{
    let front = entries.drop_last();
    let n = front.len() as int;
    if exists|k: int| 0 <= k < n && is_out(#[trigger] front[k], q, day) {
        let k = choose|k: int| 0 <= k < n && is_out(#[trigger] front[k], q, day);
        law_latest_exists(front, q, day, k);
        let best = choose|k: int| is_latest(front, q, day, k);
        if is_out(entries[n], q, day) && entries[n].publish >= entries[best].publish {
            assert forall|k: int|
                0 <= k < entries.len() && (#[trigger] entries[k]).quarter == q
                    && entries[k].publish <= day implies entries[k].publish < entries[n].publish
                || (entries[k].publish == entries[n].publish && k <= n) by {
                if k < n {
                    assert(front[k] == entries[k]);
                }
            }
            assert(is_latest(entries, q, day, n));
        } else {
            assert forall|k: int|
                0 <= k < entries.len() && (#[trigger] entries[k]).quarter == q
                    && entries[k].publish <= day implies entries[k].publish
                < entries[best].publish || (entries[k].publish == entries[best].publish && k
                <= best) by {
                if k < n {
                    assert(front[k] == entries[k]);
                }
            }
            assert(is_latest(entries, q, day, best));
        }
    } else {
        assert forall|k: int| 0 <= k < entries.len() && is_out(
            #[trigger] entries[k],
            q,
            day,
        ) implies k == n by {
            if k < n {
                assert(front[k] == entries[k]);
            }
        }
        assert(is_out(entries[n], q, day));
        assert forall|k: int|
            0 <= k < entries.len() && (#[trigger] entries[k]).quarter == q && entries[k].publish
                <= day implies entries[k].publish < entries[n].publish || (entries[k].publish
            == entries[n].publish && k <= n) by {
            assert(is_out(entries[k], q, day));
        }
        assert(is_latest(entries, q, day, n));
    }
}

/// The entries of quarters that came due unfiled are those of their quarters,
/// and no quarter has two.
pub proof fn lemma_due_entries(filed: Seq<Entry>, width: nat, horizon: int, lo: int, hi: int)
    ensures
        ({
            let all = due_entries(filed, width, horizon, lo, hi);
            &&& forall|i: int|
                0 <= i < all.len() ==> {
                    &&& #[trigger] all[i] == due_entry(all[i].quarter, width)
                    &&& lo <= all[i].quarter <= hi
                    &&& due(all[i].quarter) <= horizon
                    &&& unfiled(filed, all[i].quarter)
                }
            &&& forall|i: int, k: int|
                0 <= i < k < all.len() ==> (#[trigger] all[i]).quarter < (
                #[trigger] all[k]).quarter
        }),
    decreases hi - lo + 1,
{
    if lo <= hi {
        lemma_due_entries(filed, width, horizon, lo, hi - 1);
        let front = due_entries(filed, width, horizon, lo, hi - 1);
        let all = due_entries(filed, width, horizon, lo, hi);
        assert forall|i: int| 0 <= i < front.len() implies all[i] == #[trigger] front[i] by {}
    }
}

/// A quarter that came due unfiled has its entry.
pub proof fn lemma_due_entry_there(
    filed: Seq<Entry>,
    width: nat,
    horizon: int,
    lo: int,
    hi: int,
    q: int,
) -> (i: int)
    requires
        lo <= q <= hi,
        due(q) <= horizon,
        unfiled(filed, q),
    ensures
        0 <= i < due_entries(filed, width, horizon, lo, hi).len(),
        due_entries(filed, width, horizon, lo, hi)[i] == due_entry(q, width),
    decreases hi - lo + 1,
{
    if q == hi {
        due_entries(filed, width, horizon, lo, hi).len() - 1
    } else {
        lemma_due_entry_there(filed, width, horizon, lo, hi - 1, q)
    }
}

/// A quarter that is due by a day lies before the day's quarter, or in it.
pub proof fn lemma_due_by(q: int, day: int)
    requires
        due(q) <= day,
    ensures
        q <= quarter_of(day),
{
    law_due_after_quarter(q);
    law_quarter_exists(day);
    let r = quarter_of(day);
    if r < q {
        lemma_quarter_start_monotone(r + 1, q + 1);
    }
}

/// A quarter that came due unfiled reads as missing from its due day on, until
/// a report on it is filed, and it counts as known: the newest known quarter
/// is no earlier.
pub proof fn law_unfiled_reads_missing(f: Filings, horizon: int, q: int, day: int, line: int)
    requires
        ({
            let filed = filed_entries(f, f.report.len());
            &&& filed.len() > 0
            &&& first_quarter(filed) <= q
            &&& due(q) <= horizon
            &&& due(q) <= day
            &&& forall|i: int|
                0 <= i < filed.len() && (#[trigger] filed[i]).quarter == q ==> filed[i].publish
                    > day
        }),
        0 <= line < f.lines.len(),
    ensures
        known_value(all_entries(f, horizon), q, day, line) is None,
        forall|r: int| is_newest(all_entries(f, horizon), day, r) ==> q <= r,
{
    let filed = filed_entries(f, f.report.len());
    let width = f.lines.len();
    let lo = first_quarter(filed);
    let hi = quarter_of(horizon);
    let dues = due_entries(filed, width, horizon, lo, hi);
    let entries = all_entries(f, horizon);
    assert(unfiled(filed, q));
    lemma_due_by(q, horizon);
    lemma_due_entries(filed, width, horizon, lo, hi);
    let at = lemma_due_entry_there(filed, width, horizon, lo, hi, q);
    let i = filed.len() + at;
    assert(entries[i] == dues[at]);
    assert(is_out(entries[i], q, day));
    if exists|k: int| is_latest(entries, q, day, k) {
        let k = choose|k: int| is_latest(entries, q, day, k);
        if k < filed.len() {
            assert(entries[k] == filed[k]);
        } else {
            assert(entries[k] == dues[k - filed.len()]);
        }
    }
    assert forall|r: int| is_newest(entries, day, r) implies q <= r by {
        assert(entries[i].publish <= day);
    }
}

/// Days in order are told by which days they are.
proof fn lemma_days_unique(a: Seq<i32>, b: Seq<i32>)
    requires
        forall|s: int, t: int| 0 <= s < t < a.len() ==> a[s] < a[t],
        forall|s: int, t: int| 0 <= s < t < b.len() ==> b[s] < b[t],
        forall|t: int| 0 <= t < a.len() ==> listed(b, #[trigger] a[t] as int),
        forall|t: int| 0 <= t < b.len() ==> listed(a, #[trigger] b[t] as int),
    ensures
        a == b,
    decreases a.len(),
{
    if a.len() == 0 {
        if b.len() > 0 {
            assert(listed(a, b[0] as int));
        }
    } else {
        let m = a.len() - 1;
        let n = b.len() - 1;
        assert(listed(b, a[m] as int));
        assert(listed(a, b[n] as int));
        let s = choose|s: int| 0 <= s < b.len() && (#[trigger] b[s]) == a[m];
        let t = choose|t: int| 0 <= t < a.len() && (#[trigger] a[t]) == b[n];
        assert(a[m] == b[n]);
        let x = a.drop_last();
        let y = b.drop_last();
        assert forall|t: int| 0 <= t < x.len() implies listed(y, #[trigger] x[t] as int) by {
            assert(listed(b, a[t] as int));
            let s = choose|s: int| 0 <= s < b.len() && (#[trigger] b[s]) == a[t];
            assert(y[s] == x[t]);
        }
        assert forall|t: int| 0 <= t < y.len() implies listed(x, #[trigger] y[t] as int) by {
            assert(listed(a, b[t] as int));
            let s = choose|s: int| 0 <= s < a.len() && (#[trigger] a[s]) == b[t];
            assert(x[s] == y[t]);
        }
        lemma_days_unique(x, y);
        assert(a == x.push(a[m]) && b == y.push(b[n]));
    }
}

/// A company's filings have one expansion into vintages.
pub proof fn law_vintages_determined(
    f: Filings,
    horizon: int,
    offsets: int,
    v: Vintages,
    w: Vintages,
)
    requires
        are_vintages(f, horizon, offsets, v),
        are_vintages(f, horizon, offsets, w),
    ensures
        v.publish@ == w.publish@,
        v.current@ == w.current@,
        v.values@.len() == w.values@.len(),
        forall|c: int| 0 <= c < v.values@.len() ==> (#[trigger] v.values@[c])@ == w.values@[c]@,
{
    let entries = all_entries(f, horizon);
    let a = v.publish@;
    let b = w.publish@;
    assert forall|t: int| 0 <= t < a.len() implies listed(b, #[trigger] a[t] as int) by {
        assert(is_day(entries, a[t] as int));
        let i = choose|i: int|
            0 <= i < entries.len() && (#[trigger] entries[i]).publish == a[t] as int;
        assert(listed(b, entries[i].publish));
    }
    assert forall|t: int| 0 <= t < b.len() implies listed(a, #[trigger] b[t] as int) by {
        assert(is_day(entries, b[t] as int));
        let i = choose|i: int|
            0 <= i < entries.len() && (#[trigger] entries[i]).publish == b[t] as int;
        assert(listed(a, entries[i].publish));
    }
    lemma_days_unique(a, b);
    assert forall|t: int| 0 <= t < a.len() implies #[trigger] v.current@[t] == w.current@[t] by {
        assert(is_newest(entries, a[t] as int, v.current@[t] as int));
        assert(is_newest(entries, b[t] as int, w.current@[t] as int));
        law_newest_unique(
            entries,
            a[t] as int,
            v.current@[t] as int,
            w.current@[t] as int,
        );
    }
    assert(v.current@ == w.current@);
    let width = f.lines.len() as int;
    assert forall|c: int| 0 <= c < v.values@.len() implies (#[trigger] v.values@[c])@
        == w.values@[c]@ by {
        let x = v.values@[c]@;
        let y = w.values@[c]@;
        assert(holds_line(x, entries, a, v.current@, c / width, c % width));
        assert(holds_line(y, entries, b, w.current@, c / width, c % width));
        assert forall|t: int| 0 <= t < x.len() implies x[t] == y[t] by {}
        assert(x == y);
    }
}

/// Whether row `r` of a table of filings is out by a day: both its days are
/// given, and it is published by then.
pub open spec fn row_out(g: Filings, r: int, day: int) -> bool {
    g.report[r] is Some && g.publish[r] is Some && g.publish[r]->0 <= day
}

/// Whether row `r` of `g` holds what row `i` of `f` holds.
pub open spec fn row_kept(f: Filings, i: int, g: Filings, r: int) -> bool {
    &&& 0 <= r < g.report.len()
    &&& g.report[r] == f.report[i]
    &&& g.publish[r] == f.publish[i]
    &&& forall|j: int| 0 <= j < f.lines.len() ==> #[trigger] g.lines[j][r] == f.lines[j][i]
}

/// Whether `g` is the table of filings `f` with rows added, at any place, none
/// of them out by a day: the rows of `f` stand in `g` at `at`, in their order.
pub open spec fn extends(f: Filings, g: Filings, at: Seq<int>, day: int) -> bool {
    &&& rectangular(f)
    &&& rectangular(g)
    &&& f.lines.len() == g.lines.len()
    &&& at.len() == f.report.len()
    &&& forall|i: int, k: int| 0 <= i < k < at.len() ==> at[i] < at[k]
    &&& forall|i: int| 0 <= i < at.len() ==> row_kept(f, i, g, #[trigger] at[i])
    &&& forall|r: int|
        0 <= r < g.report.len() && #[trigger] row_out(g, r, day) ==> at.contains(r)
}

/// Whether entries `a` stand among entries `b` at `at`, in their order, and
/// no other of them is out by a day.
spec fn embedded(a: Seq<Entry>, b: Seq<Entry>, at: Seq<int>, day: int) -> bool {
    &&& at.len() == a.len()
    &&& forall|i: int, k: int| 0 <= i < k < at.len() ==> at[i] < at[k]
    &&& forall|i: int|
        0 <= i < at.len() ==> 0 <= #[trigger] at[i] < b.len() && b[at[i]] == a[i]
    &&& forall|k: int|
        0 <= k < b.len() && (#[trigger] b[k]).publish <= day ==> at.contains(k)
}

/// The entries of the rows of `f` stand among those of `g`.
proof fn lemma_embedded(f: Filings, g: Filings, at: Seq<int>, day: int, m: nat, n: nat) -> (r: Seq<
    int,
>)
    requires
        extends(f, g, at, day),
        m <= f.report.len(),
        n <= g.report.len(),
        forall|i: int| 0 <= i < m ==> #[trigger] at[i] < n,
        forall|i: int| m <= i < at.len() ==> #[trigger] at[i] >= n,
    ensures
        embedded(filed_entries(f, m), filed_entries(g, n), r, day),
    decreases n,
{
    let a = filed_entries(f, m);
    let b = filed_entries(g, n);
    if n == 0 {
        if m > 0 {
            assert(row_kept(f, 0, g, at[0]));
        }
        Seq::empty()
    } else if m > 0 && at[m - 1] == n - 1 {
        assert(row_kept(f, m - 1, g, at[m - 1]));
        let r = lemma_embedded(f, g, at, day, (m - 1) as nat, (n - 1) as nat);
        let x = filed_entries(f, (m - 1) as nat);
        let y = filed_entries(g, (n - 1) as nat);
        if f.report[m - 1] is Some && f.publish[m - 1] is Some {
            assert(filed_entry(f, m - 1) == filed_entry(g, n - 1));
            let all = r.push(y.len() as int);
            assert forall|k: int|
                0 <= k < b.len() && (#[trigger] b[k]).publish <= day implies all.contains(k) by {
                if k < y.len() {
                    assert(b[k] == y[k]);
                    let i = choose|i: int| 0 <= i < r.len() && r[i] == k;
                    assert(all[i] == k);
                } else {
                    assert(all[r.len() as int] == k);
                }
            }
            assert forall|i: int| 0 <= i < all.len() implies 0 <= #[trigger] all[i] < b.len()
                && b[all[i]] == a[i] by {
                if i < r.len() {
                    assert(r[i] < y.len());
                    assert(y[r[i]] == x[i]);
                }
            }
            all
        } else {
            r
        }
    } else {
        let r = lemma_embedded(f, g, at, day, m, (n - 1) as nat);
        let y = filed_entries(g, (n - 1) as nat);
        assert forall|k: int| 0 <= k < b.len() && (#[trigger] b[k]).publish <= day implies r.contains(
            k,
        ) by {
            if k < y.len() {
                assert(b[k] == y[k]);
            } else {
                assert(row_out(g, n - 1, day));
                let i = choose|i: int| 0 <= i < at.len() && at[i] == n - 1;
                assert(i < m);
                assert(at[m - 1] < n);
            }
        }
        assert forall|i: int| 0 <= i < r.len() implies 0 <= #[trigger] r[i] < b.len() && b[r[i]]
            == a[i] by {
            assert(y[r[i]] == a[i]);
        }
        r
    }
}

/// The first quarter among entries is that of one, and none is before it.
pub proof fn lemma_first_quarter(entries: Seq<Entry>) -> (at: int)
    requires
        entries.len() > 0,
    ensures
        0 <= at < entries.len(),
        entries[at].quarter == first_quarter(entries),
        forall|i: int|
            0 <= i < entries.len() ==> first_quarter(entries) <= (#[trigger] entries[i]).quarter,
    decreases entries.len(),
{
    if entries.len() == 1 {
        0
    } else {
        let front = entries.drop_last();
        let k = lemma_first_quarter(front);
        assert forall|i: int| 0 <= i < entries.len() implies first_quarter(entries) <= (
        #[trigger] entries[i]).quarter by {
            if i < front.len() {
                assert(front[i] == entries[i]);
            }
        }
        if entries.last().quarter < first_quarter(front) {
            entries.len() - 1
        } else {
            k
        }
    }
}

/// Filings published after a day do not tell which quarters had come due
/// unfiled by it.
proof fn lemma_unfiled_kept(a: Seq<Entry>, b: Seq<Entry>, at: Seq<int>, day: int, q: int)
    requires
        embedded(a, b, at, day),
        due(q) <= day,
    ensures
        unfiled(b, q) == unfiled(a, q),
{
    if unfiled(b, q) {
        assert forall|i: int| 0 <= i < a.len() && (#[trigger] a[i]).quarter == q implies a[i].publish
            > due(q) by {
            assert(b[at[i]] == a[i]);
        }
    }
    if unfiled(a, q) {
        assert forall|k: int| 0 <= k < b.len() && (#[trigger] b[k]).quarter == q implies b[k].publish
            > due(q) by {
            if b[k].publish <= day {
                let i = choose|i: int| 0 <= i < at.len() && at[i] == k;
                assert(b[at[i]] == a[i]);
            }
        }
    }
}

/// Whether two horizons do not tell apart what is out by a day: they are the
/// same, or both lie on the day or behind it.
pub open spec fn agree_by(horizon: int, other: int, day: int) -> bool {
    horizon == other || (day <= horizon && day <= other)
}

/// Whatever is out by a day among the entries of some filings is out among
/// those of the same filings and later ones.
proof fn lemma_out_kept(
    a: Seq<Entry>,
    b: Seq<Entry>,
    at: Seq<int>,
    width: nat,
    day: int,
    horizon: int,
    other: int,
    i: int,
) -> (k: int)
    requires
        embedded(a, b, at, day),
        agree_by(horizon, other, day),
        0 <= i < with_due(a, width, horizon).len(),
        with_due(a, width, horizon)[i].publish <= day,
    ensures
        0 <= k < with_due(b, width, other).len(),
        with_due(b, width, other)[k] == with_due(a, width, horizon)[i],
        i < a.len() ==> k == at[i],
        i >= a.len() ==> k >= b.len(),
{
    assert(0 <= at[0] < b.len());
    if i < a.len() {
        assert(b[at[i]] == a[i]);
        at[i]
    } else {
        let lo = first_quarter(a);
        lemma_due_entries(a, width, horizon, lo, quarter_of(horizon));
        let e = due_entries(a, width, horizon, lo, quarter_of(horizon))[i - a.len()];
        assert(with_due(a, width, horizon)[i] == e);
        let q = e.quarter;
        let first = lemma_first_quarter(a);
        let least = lemma_first_quarter(b);
        assert(b[at[first]] == a[first]);
        lemma_unfiled_kept(a, b, at, day, q);
        lemma_due_by(q, other);
        let found = lemma_due_entry_there(b, width, other, first_quarter(b), quarter_of(other), q);
        b.len() + found
    }
}

/// Whatever is out by a day among the entries of filings and later ones is out
/// among those of the filings alone, unless it says that a quarter before all
/// of theirs came due unfiled.
proof fn lemma_out_known(
    a: Seq<Entry>,
    b: Seq<Entry>,
    at: Seq<int>,
    width: nat,
    day: int,
    horizon: int,
    other: int,
    k: int,
) -> (i: int)
    requires
        a.len() > 0,
        embedded(a, b, at, day),
        agree_by(horizon, other, day),
        0 <= k < with_due(b, width, other).len(),
        with_due(b, width, other)[k].publish <= day,
    ensures
        ({
            let e = with_due(b, width, other)[k];
            if e.quarter < first_quarter(a) {
                e == due_entry(e.quarter, width)
            } else {
                &&& 0 <= i < with_due(a, width, horizon).len()
                &&& with_due(a, width, horizon)[i] == e
                &&& i < a.len() ==> k == at[i]
                &&& i >= a.len() ==> k >= b.len()
            }
        }),
{
    let lo = first_quarter(a);
    let first = lemma_first_quarter(a);
    if k < b.len() {
        assert(with_due(b, width, other)[k] == b[k]);
        let i = choose|i: int| 0 <= i < at.len() && at[i] == k;
        assert(b[at[i]] == a[i]);
        assert(with_due(a, width, horizon)[i] == a[i]);
        i
    } else {
        let least = first_quarter(b);
        lemma_due_entries(b, width, other, least, quarter_of(other));
        let e = due_entries(b, width, other, least, quarter_of(other))[k - b.len()];
        assert(with_due(b, width, other)[k] == e);
        let q = e.quarter;
        if q < lo {
            0
        } else {
            lemma_unfiled_kept(a, b, at, day, q);
            lemma_due_by(q, horizon);
            let found = lemma_due_entry_there(a, width, horizon, lo, quarter_of(horizon), q);
            a.len() + found
        }
    }
}

/// What is known of a quarter by a day is the same with and without filings
/// published later.
proof fn lemma_known_kept(
    a: Seq<Entry>,
    b: Seq<Entry>,
    at: Seq<int>,
    width: nat,
    day: int,
    horizon: int,
    other: int,
    q: int,
    on: int,
    line: int,
)
    requires
        a.len() > 0,
        embedded(a, b, at, day),
        agree_by(horizon, other, day),
        on <= day,
        0 <= line < width,
    ensures
        known_value(with_due(b, width, other), q, on, line) == known_value(
            with_due(a, width, horizon),
            q,
            on,
            line,
        ),
{
    let x = with_due(a, width, horizon);
    let y = with_due(b, width, other);
    let lo = first_quarter(a);
    let first = lemma_first_quarter(a);
    lemma_due_entries(a, width, horizon, lo, quarter_of(horizon));
    if exists|i: int| is_latest(x, q, on, i) {
        let i = choose|i: int| is_latest(x, q, on, i);
        let j = lemma_out_kept(a, b, at, width, day, horizon, other, i);
        assert(is_out(y[j], q, on));
        law_latest_exists(y, q, on, j);
        let k = choose|k: int| is_latest(y, q, on, k);
        if i < a.len() {
            assert(x[i] == a[i]);
        } else {
            assert(x[i] == due_entries(a, width, horizon, lo, quarter_of(horizon))[i - a.len()]);
        }
        let l = lemma_out_known(a, b, at, width, day, horizon, other, k);
        if l >= a.len() {
            assert(x[l] == due_entries(a, width, horizon, lo, quarter_of(horizon))[l - a.len()]);
        }
        assert(x[l] == y[k]);
        // Each of the two is out in the other sequence, so neither is
        // published before the other.
        assert(y[j].publish <= y[k].publish);
        assert(x[l].publish <= x[i].publish);
        assert(l <= i && j <= k);
        if i < a.len() {
            if l < i {
                assert(at[l] < at[i]);
            }
        }
        assert(x[i] == y[k]);
    } else if exists|k: int| is_latest(y, q, on, k) {
        let k = choose|k: int| is_latest(y, q, on, k);
        let l = lemma_out_known(a, b, at, width, day, horizon, other, k);
        if q >= lo {
            assert(is_out(x[l], q, on));
            law_latest_exists(x, q, on, l);
        }
    }
}

/// The newest quarter that is known by a day is the same with and without
/// filings published later.
proof fn lemma_newest_kept(
    a: Seq<Entry>,
    b: Seq<Entry>,
    at: Seq<int>,
    width: nat,
    day: int,
    horizon: int,
    other: int,
    q: int,
    on: int,
)
    requires
        a.len() > 0,
        embedded(a, b, at, day),
        agree_by(horizon, other, day),
        on <= day,
        is_newest(with_due(a, width, horizon), on, q),
    ensures
        is_newest(with_due(b, width, other), on, q),
{
    let x = with_due(a, width, horizon);
    let y = with_due(b, width, other);
    let lo = first_quarter(a);
    let first = lemma_first_quarter(a);
    lemma_due_entries(a, width, horizon, lo, quarter_of(horizon));
    let i = choose|i: int| 0 <= i < x.len() && (#[trigger] x[i]).publish <= on && x[i].quarter == q;
    if i < a.len() {
        assert(x[i] == a[i]);
    } else {
        assert(x[i] == due_entries(a, width, horizon, lo, quarter_of(horizon))[i - a.len()]);
    }
    let j = lemma_out_kept(a, b, at, width, day, horizon, other, i);
    assert(y[j].publish <= on && y[j].quarter == q);
    assert forall|k: int| 0 <= k < y.len() && (#[trigger] y[k]).publish <= on implies y[k].quarter
        <= q by {
        let l = lemma_out_known(a, b, at, width, day, horizon, other, k);
        if y[k].quarter >= lo {
            assert(x[l].quarter <= q);
        }
    }
}

/// Whether row `t` of some vintages is row `u` of others: the same day, the
/// same newest quarter, and the same value in every column.
pub open spec fn same_row(v: Vintages, t: int, w: Vintages, u: int) -> bool {
    &&& 0 <= t < v.publish@.len()
    &&& 0 <= u < w.publish@.len()
    &&& v.publish@[t] == w.publish@[u]
    &&& v.current@[t] == w.current@[u]
    &&& v.values@.len() == w.values@.len()
    &&& forall|c: int|
        0 <= c < v.values@.len() ==> (#[trigger] v.values@[c])@[t] == w.values@[c]@[u]
}

/// Vintages do not look ahead: filings published after a day, wherever their
/// rows are put and whatever quarters they are on, change no vintage up to the
/// day, nor does how far beyond it the horizon lies.
///
/// No vintage up to the day is added either, unless a later filing is on a
/// quarter before the first one filed: it moves the quarter from which on due
/// days are watched.
pub proof fn law_no_look_ahead(
    f: Filings,
    g: Filings,
    at: Seq<int>,
    day: int,
    horizon: int,
    other: int,
    offsets: int,
    v: Vintages,
    w: Vintages,
)
    requires
        extends(f, g, at, day),
        agree_by(horizon, other, day),
        are_vintages(f, horizon, offsets, v),
        are_vintages(g, other, offsets, w),
    ensures
        forall|t: int|
            0 <= t < v.publish@.len() && #[trigger] v.publish@[t] <= day ==> exists|u: int|
                same_row(v, t, w, u),
        ({
            let a = filed_entries(f, f.report.len());
            a.len() > 0 && first_quarter(a) <= first_quarter(filed_entries(g, g.report.len()))
        }) ==> forall|u: int|
            0 <= u < w.publish@.len() && #[trigger] w.publish@[u] <= day ==> exists|t: int|
                same_row(v, t, w, u),
{
    let a = filed_entries(f, f.report.len());
    let b = filed_entries(g, g.report.len());
    assert forall|i: int| 0 <= i < at.len() implies #[trigger] at[i] < g.report.len() by {
        assert(row_kept(f, i, g, at[i]));
    }
    let emb = lemma_embedded(f, g, at, day, f.report.len(), g.report.len());
    let width = f.lines.len();
    let x = all_entries(f, horizon);
    let y = all_entries(g, other);
    assert forall|t: int|
        0 <= t < v.publish@.len() && #[trigger] v.publish@[t] <= day implies exists|u: int|
        same_row(v, t, w, u) by {
        let u = lemma_row_kept(a, b, emb, width, day, horizon, other, offsets, v, w, t);
    }
    if a.len() > 0 && first_quarter(a) <= first_quarter(b) {
        assert(0 <= emb[0] < b.len());
        let least = lemma_first_quarter(b);
        assert forall|u: int|
            0 <= u < w.publish@.len() && #[trigger] w.publish@[u] <= day implies exists|t: int|
            same_row(v, t, w, u) by {
            let on = w.publish@[u] as int;
            assert(is_day(y, on));
            let k = choose|k: int| 0 <= k < y.len() && (#[trigger] y[k]).publish == on;
            lemma_due_entries(b, width, other, first_quarter(b), quarter_of(other));
            if k < b.len() {
                assert(y[k] == b[k]);
            } else {
                assert(y[k] == due_entries(
                    b,
                    width,
                    other,
                    first_quarter(b),
                    quarter_of(other),
                )[k - b.len()]);
            }
            let i = lemma_out_known(a, b, emb, width, day, horizon, other, k);
            assert(listed(v.publish@, x[i].publish));
            let t = choose|t: int| 0 <= t < v.publish@.len() && (#[trigger] v.publish@[t]) == on;
            let m = lemma_row_kept(a, b, emb, width, day, horizon, other, offsets, v, w, t);
            assert(m == u);
        }
    }
}

/// A row of vintages stands among those of more filings.
proof fn lemma_row_kept(
    a: Seq<Entry>,
    b: Seq<Entry>,
    at: Seq<int>,
    width: nat,
    day: int,
    horizon: int,
    other: int,
    offsets: int,
    v: Vintages,
    w: Vintages,
    t: int,
) -> (u: int)
    requires
        embedded(a, b, at, day),
        agree_by(horizon, other, day),
        expand(with_due(a, width, horizon), offsets + 1, width as int, v),
        expand(with_due(b, width, other), offsets + 1, width as int, w),
        0 <= t < v.publish@.len(),
        v.publish@[t] <= day,
    ensures
        same_row(v, t, w, u),
{
    let x = with_due(a, width, horizon);
    let y = with_due(b, width, other);
    let on = v.publish@[t] as int;
    assert(is_day(x, on));
    let i = choose|i: int| 0 <= i < x.len() && (#[trigger] x[i]).publish == on;
    let k = lemma_out_kept(a, b, at, width, day, horizon, other, i);
    assert(listed(w.publish@, y[k].publish));
    let u = choose|u: int| 0 <= u < w.publish@.len() && (#[trigger] w.publish@[u]) == on;
    let q = v.current@[t] as int;
    assert(is_newest(x, on, q));
    assert(is_newest(y, on, w.current@[u] as int));
    lemma_newest_kept(a, b, at, width, day, horizon, other, q, on);
    law_newest_unique(y, on, q, w.current@[u] as int);
    assert forall|c: int| 0 <= c < v.values@.len() implies (#[trigger] v.values@[c])@[t]
        == w.values@[c]@[u] by {
        assert(holds_line(
            v.values@[c]@,
            x,
            v.publish@,
            v.current@,
            c / width as int,
            c % width as int,
        ));
        assert(holds_line(
            w.values@[c]@,
            y,
            w.publish@,
            w.current@,
            c / width as int,
            c % width as int,
        ));
        if width > 0 {
            lemma_known_kept(
                a,
                b,
                at,
                width,
                day,
                horizon,
                other,
                q - c / width as int,
                on,
                c % width as int,
            );
        } else {
            assert((offsets + 1) * width == 0) by (nonlinear_arith)
                requires
                    width == 0,
            ;
        }
    }
    u
}

} // verus!
