//! Vintages: what the market knew of a company, day by day.
//!
//! A filing reports on a quarter and is published on a day. For every day on
//! which something is published, a vintage tells the newest quarter then
//! known and each line's value at that quarter and at the quarters before it,
//! as of the latest filing by that day. A quarter whose report came due
//! unfiled enters on its due day with nothing, so that a company that stopped
//! reporting reads as missing rather than as its stale numbers.
//!
//! The values of a line are carried as they come, by their bits.

use std::collections::HashMap;

use vstd::prelude::*;

use crate::calendar::{
    deadline_days, due, law_due_after_quarter, lemma_quarter_start_monotone,
    quarter_index, quarter_of, quarter_start,
};
use crate::text::{copied, decimal, decimal_text, joined, texts};

verus! {

/// What is published on a day about a quarter: a value, or none, for each
/// line.
#[verifier::ext_equal]
pub struct Entry {
    pub publish: int,
    pub quarter: int,
    pub values: Seq<Option<u64>>,
}

/// The columns of a company's filings: the reported day, the day of
/// publication, and the lines.
#[verifier::ext_equal]
pub struct Filings {
    pub report: Seq<Option<i32>>,
    pub publish: Seq<Option<i32>>,
    pub lines: Seq<Seq<Option<u64>>>,
}

/// The lines of a slice.
pub open spec fn line_views(lines: Seq<Vec<Option<u64>>>) -> Seq<Seq<Option<u64>>> {
    lines.map_values(|v: Vec<Option<u64>>| v@)
}

/// The entry of the filing in a row.
pub open spec fn filed_entry(f: Filings, row: int) -> Entry {
    Entry {
        publish: f.publish[row]->0 as int,
        quarter: quarter_of(f.report[row]->0 as int),
        values: Seq::new(f.lines.len(), |j: int| f.lines[j][row]),
    }
}

/// The entries of the filings in the first `n` rows, those without a day left
/// out.
pub open spec fn filed_entries(f: Filings, n: nat) -> Seq<Entry>
    decreases n,
{
    if n == 0 {
        Seq::empty()
    } else {
        let front = filed_entries(f, (n - 1) as nat);
        if f.report[n - 1] is Some && f.publish[n - 1] is Some {
            front.push(filed_entry(f, n - 1))
        } else {
            front
        }
    }
}

/// The first quarter among entries.
pub open spec fn first_quarter(entries: Seq<Entry>) -> int
    decreases entries.len(),
{
    if entries.len() <= 1 {
        entries[0].quarter
    } else {
        let q = first_quarter(entries.drop_last());
        if entries.last().quarter < q {
            entries.last().quarter
        } else {
            q
        }
    }
}

/// Whether no report on a quarter was filed by its due day.
pub open spec fn unfiled(entries: Seq<Entry>, q: int) -> bool {
    forall|i: int|
        0 <= i < entries.len() && (#[trigger] entries[i]).quarter == q ==> entries[i].publish
            > due(q)
}

/// The entry of a quarter that came due unfiled.
pub open spec fn due_entry(q: int, width: nat) -> Entry {
    Entry { publish: due(q), quarter: q, values: Seq::new(width, |j: int| None) }
}

/// The entries of the quarters from `lo` up to `hi` that came due unfiled by
/// `horizon`.
pub open spec fn due_entries(
    filed: Seq<Entry>,
    width: nat,
    horizon: int,
    lo: int,
    hi: int,
) -> Seq<Entry>
    decreases hi - lo + 1,
{
    if lo > hi {
        Seq::empty()
    } else {
        let front = due_entries(filed, width, horizon, lo, hi - 1);
        if due(hi) <= horizon && unfiled(filed, hi) {
            front.push(due_entry(hi, width))
        } else {
            front
        }
    }
}

/// All the entries of a company: those of its filings, in their order, and
/// the quarters that came due unfiled since the first quarter it filed.
pub open spec fn with_due(filed: Seq<Entry>, width: nat, horizon: int) -> Seq<Entry> {
    if filed.len() == 0 {
        filed
    } else {
        filed + due_entries(filed, width, horizon, first_quarter(filed), quarter_of(horizon))
    }
}

/// All the entries of a company's filings, up to a horizon.
pub open spec fn all_entries(f: Filings, horizon: int) -> Seq<Entry> {
    with_due(filed_entries(f, f.report.len()), f.lines.len(), horizon)
}

/// Whether the entry at `i` is the latest on a quarter by a day: the last
/// published, and of those the last in order.
pub open spec fn is_latest(entries: Seq<Entry>, q: int, day: int, i: int) -> bool {
    &&& 0 <= i < entries.len()
    &&& entries[i].quarter == q
    &&& entries[i].publish <= day
    &&& forall|k: int|
        0 <= k < entries.len() && (#[trigger] entries[k]).quarter == q && entries[k].publish <= day
            ==> entries[k].publish < entries[i].publish || (entries[k].publish
            == entries[i].publish && k <= i)
}

/// The value of a line for a quarter, as known by a day.
pub open spec fn known_value(entries: Seq<Entry>, q: int, day: int, line: int) -> Option<u64> {
    if exists|i: int| is_latest(entries, q, day, i) {
        entries[choose|i: int| is_latest(entries, q, day, i)].values[line]
    } else {
        None
    }
}

/// Whether nothing on a quarter is known by a day.
pub open spec fn unknown(entries: Seq<Entry>, q: int, day: int) -> bool {
    forall|i: int| !is_latest(entries, q, day, i)
}

/// Whether a quarter is the newest that is known by a day.
pub open spec fn is_newest(entries: Seq<Entry>, day: int, q: int) -> bool {
    &&& exists|i: int|
        0 <= i < entries.len() && (#[trigger] entries[i]).publish <= day && entries[i].quarter == q
    &&& forall|i: int|
        0 <= i < entries.len() && (#[trigger] entries[i]).publish <= day ==> entries[i].quarter
            <= q
}

/// Vintages, one for each day of publication.
pub struct Vintages {
    /// The days of publication.
    pub publish: Vec<i32>,
    /// The newest quarter known on each day.
    pub current: Vec<i32>,
    /// For each number of quarters back, and each line: the value known on
    /// each day.
    pub values: Vec<Vec<Option<u64>>>,
}

/// Whether something is published on a day.
pub open spec fn is_day(entries: Seq<Entry>, day: int) -> bool {
    exists|i: int| 0 <= i < entries.len() && (#[trigger] entries[i]).publish == day
}

/// Whether a day is among days.
pub open spec fn listed(days: Seq<i32>, day: int) -> bool {
    exists|t: int| 0 <= t < days.len() && (#[trigger] days[t]) == day
}

/// Whether days are those of the entries, each once, in order.
pub open spec fn are_days(days: Seq<i32>, entries: Seq<Entry>) -> bool {
    &&& forall|s: int, t: int| 0 <= s < t < days.len() ==> days[s] < days[t]
    &&& forall|t: int| 0 <= t < days.len() ==> is_day(entries, #[trigger] days[t] as int)
    &&& forall|i: int| 0 <= i < entries.len() ==> #[trigger] listed(days, entries[i].publish)
}

/// Sorts triples, by `slice::sort_unstable`: the same triples come out, as
/// often as they went in, none before a smaller one. Triples go by their
/// first number, then by their second, then by their third.
#[verifier::external_body]
fn sort_triples(v: &mut Vec<(i32, i32, usize)>)
    ensures
        final(v)@.to_multiset() == old(v)@.to_multiset(),
        forall|i: int, j: int|
            0 <= i < j < final(v)@.len() ==> not_behind(
                #[trigger] final(v)@[i],
                #[trigger] final(v)@[j],
            ),
{
    v.sort_unstable();
}

/// Whether triple `a` does not go behind triple `b`.
pub open spec fn not_behind(a: (i32, i32, usize), b: (i32, i32, usize)) -> bool {
    a.0 < b.0 || (a.0 == b.0 && (a.1 < b.1 || (a.1 == b.1 && a.2 <= b.2)))
}

/// Whether triples hold the day, the quarter and the index of each entry.
spec fn keyed(keys: Seq<(i32, i32, usize)>, entries: Seq<Entry>) -> bool {
    &&& keys.len() == entries.len()
    &&& forall|i: int|
        0 <= i < keys.len() ==> {
            &&& (#[trigger] keys[i]).0 == entries[i].publish
            &&& keys[i].1 == entries[i].quarter
            &&& keys[i].2 == i
        }
}

/// Whether quarters are small enough to be counted with, and end at a day that
/// can be counted.
spec fn bounded(keys: Seq<(i32, i32, usize)>) -> bool {
    forall|i: int|
        0 <= i < keys.len() ==> {
            &&& -24_000_000 <= (#[trigger] keys[i]).1 <= 24_000_000
            &&& quarter_start(keys[i].1 + 1) > i32::MIN
        }
}

/// Whether the filings of a table have a value in each row of each line.
pub open spec fn rectangular(f: Filings) -> bool {
    &&& f.publish.len() == f.report.len()
    &&& forall|j: int| 0 <= j < f.lines.len() ==> (#[trigger] f.lines[j]).len() == f.report.len()
}

/// The filings, and the rows that they stand in.
fn collect_filings(
    report: &[Option<i32>],
    publish: &[Option<i32>],
    Ghost(f): Ghost<Filings>,
) -> (r: (Vec<(i32, i32, usize)>, Vec<usize>))
    requires
        f.report == report@,
        f.publish == publish@,
        report@.len() == publish@.len(),
    ensures
        keyed(r.0@, filed_entries(f, f.report.len())),
        bounded(r.0@),
        r.1@.len() == r.0@.len(),
        forall|i: int|
            0 <= i < r.1@.len() ==> (#[trigger] r.1@[i]) < report@.len() && filed_entries(
                f,
                f.report.len(),
            )[i] == filed_entry(f, r.1@[i] as int),
{
    let mut keys: Vec<(i32, i32, usize)> = Vec::new();
    let mut rows: Vec<usize> = Vec::new();
    let mut i: usize = 0;
    while i < report.len()
        invariant
            f.report == report@,
            f.publish == publish@,
            report@.len() == publish@.len(),
            i <= report@.len(),
            keyed(keys@, filed_entries(f, i as nat)),
            bounded(keys@),
            rows@.len() == keys@.len(),
            forall|k: int|
                0 <= k < rows@.len() ==> (#[trigger] rows@[k]) < report@.len() && filed_entries(
                    f,
                    i as nat,
                )[k] == filed_entry(f, rows@[k] as int),
        decreases report@.len() - i,
    {
        if let (Some(reported), Some(published)) = (report[i], publish[i]) {
            let q: i32 = quarter_index(reported);
            keys.push((published, q, keys.len()));
            rows.push(i);
        }
        i = i + 1;
    }
    (keys, rows)
}

/// Whether a map holds the earliest day of publication of each quarter.
spec fn are_earliest(map: Map<i32, i32>, keys: Seq<(i32, i32, usize)>) -> bool {
    &&& forall|q: i32| #[trigger]
        map.contains_key(q) ==> exists|i: int|
            0 <= i < keys.len() && (#[trigger] keys[i]).1 == q && keys[i].0 == map[q]
    &&& forall|i: int|
        0 <= i < keys.len() ==> map.contains_key((#[trigger] keys[i]).1) && map[keys[i].1]
            <= keys[i].0
}

/// The earliest day of publication of each quarter.
fn earliest_days(keys: &Vec<(i32, i32, usize)>) -> (r: HashMap<i32, i32>)
    ensures
        are_earliest(r@, keys@),
{
    broadcast use vstd::std_specs::hash::group_hash_axioms;

    let mut r: HashMap<i32, i32> = HashMap::new();
    let mut i: usize = 0;
    while i < keys.len()
        invariant
            i <= keys@.len(),
            are_earliest(r@, keys@.take(i as int)),
        decreases keys@.len() - i,
    {
        let (p, q, _) = keys[i];
        let known: bool = match r.get(&q) {
            Some(e) => *e <= p,
            None => false,
        };
        let ghost before = r@;
        let ghost seen = keys@.take(i as int);
        let ghost more = keys@.take(i + 1);
        if !known {
            r.insert(q, p);
        }
        proof {
            assert forall|c: i32| #[trigger] r@.contains_key(c) implies exists|k: int|
                0 <= k < more.len() && (#[trigger] more[k]).1 == c && more[k].0 == r@[c] by {
                if c == q && !known {
                    assert(more[i as int].1 == c);
                } else {
                    assert(before.contains_key(c));
                    let k = choose|k: int|
                        0 <= k < seen.len() && (#[trigger] seen[k]).1 == c && seen[k].0
                            == before[c];
                    assert(more[k] == seen[k]);
                }
            }
            assert forall|k: int| 0 <= k < more.len() implies r@.contains_key(
                (#[trigger] more[k]).1,
            ) && r@[more[k].1] <= more[k].0 by {
                if k < i {
                    assert(more[k] == seen[k]);
                }
            }
        }
        i = i + 1;
    }
    assert(keys@.take(i as int) == keys@);
    r
}

/// The first quarter of triples.
fn first_of_keys(keys: &Vec<(i32, i32, usize)>, Ghost(entries): Ghost<Seq<Entry>>) -> (r: i32)
    requires
        keyed(keys@, entries),
        bounded(keys@),
        keys@.len() > 0,
    ensures
        r == first_quarter(entries),
        -24_000_000 <= r <= 24_000_000,
        quarter_start(r + 1) > i32::MIN,
{
    let mut r: i32 = keys[0].1;
    let mut i: usize = 1;
    assert(entries.take(1)[0] == entries[0]);
    while i < keys.len()
        invariant
            keyed(keys@, entries),
            bounded(keys@),
            1 <= i <= keys@.len(),
            r == first_quarter(entries.take(i as int)),
            -24_000_000 <= r <= 24_000_000,
            quarter_start(r + 1) > i32::MIN,
        decreases keys@.len() - i,
    {
        proof {
            assert(entries.take(i + 1).drop_last() == entries.take(i as int));
            assert(keys@[i as int].1 == entries[i as int].quarter);
        }
        let q: i32 = keys[i].1;
        if q < r {
            r = q;
        }
        i = i + 1;
    }
    assert(entries.take(i as int) == entries);
    r
}

/// Adds the quarters that came due unfiled.
fn add_due(
    keys: &mut Vec<(i32, i32, usize)>,
    horizon: i32,
    Ghost(filed): Ghost<Seq<Entry>>,
    Ghost(width): Ghost<nat>,
)
    requires
        keyed(old(keys)@, filed),
        bounded(old(keys)@),
        old(keys)@.len() > 0,
    ensures
        keyed(
            final(keys)@,
            filed + due_entries(
                filed,
                width,
                horizon as int,
                first_quarter(filed),
                quarter_of(horizon as int),
            ),
        ),
        final(keys)@.len() >= old(keys)@.len(),
{
    broadcast use vstd::std_specs::hash::group_hash_axioms;

    let ghost start = keys@;
    let earliest = earliest_days(keys);
    let first: i32 = first_of_keys(keys, Ghost(filed));
    let last: i32 = quarter_index(horizon);
    let mut q: i32 = first;
    proof {
        assert(filed + due_entries(filed, width, horizon as int, first as int, first - 1) == filed);
    }
    while q <= last
        invariant
            keyed(start, filed),
            are_earliest(earliest@, start),
            -24_000_000 <= first <= q <= 24_000_001,
            first <= last ==> q <= last + 1,
            first > last ==> q == first,
            last <= 24_000_000,
            quarter_start(first + 1) > i32::MIN,
            keyed(
                keys@,
                filed + due_entries(filed, width, horizon as int, first as int, q - 1),
            ),
            keys@.len() >= start.len(),
        decreases last - q + 1,
    {
        broadcast use vstd::std_specs::hash::group_hash_axioms;

        let due_day: i64 = deadline_days(q);
        let open: bool = match earliest.get(&q) {
            Some(p) => *p as i64 > due_day,
            None => true,
        };
        let ghost before = due_entries(filed, width, horizon as int, first as int, q - 1);
        proof {
            law_due_after_quarter(q as int);
            lemma_quarter_start_monotone(first + 1, q + 1);
            lemma_open(earliest@, start, filed, q, open);
        }
        if due_day <= horizon as i64 && open {
            keys.push((due_day as i32, q, keys.len()));
            proof {
                assert(filed + before.push(due_entry(q as int, width)) == (filed + before).push(
                    due_entry(q as int, width),
                ));
            }
        }
        q = q + 1;
    }
    proof {
        if first > last {
            let end = horizon as int;
            assert(due_entries(filed, width, end, first as int, last as int) == due_entries(
                filed,
                width,
                end,
                first as int,
                first - 1,
            ));
        }
    }
}

/// A quarter is unfiled where its earliest filing, if any, comes after its due
/// day.
proof fn lemma_open(
    earliest: Map<i32, i32>,
    keys: Seq<(i32, i32, usize)>,
    filed: Seq<Entry>,
    q: i32,
    open: bool,
)
    requires
        keyed(keys, filed),
        are_earliest(earliest, keys),
        open == (earliest.contains_key(q) ==> earliest[q] > due(q as int)),
    ensures
        open == unfiled(filed, q as int),
{
    if open {
        assert forall|i: int|
            0 <= i < filed.len() && (#[trigger] filed[i]).quarter == q implies filed[i].publish
            > due(q as int) by {
            assert(keys[i].1 == q);
            assert(earliest.contains_key(keys[i].1));
        }
    } else {
        let i = choose|i: int|
            0 <= i < keys.len() && (#[trigger] keys[i]).1 == q && keys[i].0 == earliest[q];
        assert(filed[i].quarter == q);
        assert(filed[i].publish <= due(q as int));
    }
}

/// An entry is the latest on its quarter alone.
pub proof fn law_latest_unique(entries: Seq<Entry>, q: int, day: int, i: int, k: int)
    requires
        is_latest(entries, q, day, i),
        is_latest(entries, q, day, k),
    ensures
        i == k,
{
    assert(entries[i].quarter == q && entries[k].quarter == q);
}

/// The value that is known is that of the latest entry.
pub proof fn lemma_known_value(entries: Seq<Entry>, q: int, day: int, line: int, i: int)
    requires
        is_latest(entries, q, day, i),
    ensures
        known_value(entries, q, day, line) == entries[i].values[line],
{
    law_latest_unique(entries, q, day, i, choose|k: int| is_latest(entries, q, day, k));
}

/// Whether the entry at `i` has a triple.
spec fn placed(sorted: Seq<(i32, i32, usize)>, i: int) -> bool {
    exists|s: int| 0 <= s < sorted.len() && (#[trigger] sorted[s]).2 == i
}

/// Whether triples are those of entries, in order.
spec fn arranged(sorted: Seq<(i32, i32, usize)>, entries: Seq<Entry>) -> bool {
    &&& forall|s: int|
        0 <= s < sorted.len() ==> {
            &&& (#[trigger] sorted[s]).2 < entries.len()
            &&& sorted[s].0 == entries[sorted[s].2 as int].publish
            &&& sorted[s].1 == entries[sorted[s].2 as int].quarter
        }
    &&& forall|i: int| 0 <= i < entries.len() ==> #[trigger] placed(sorted, i)
    &&& forall|s: int, t: int|
        0 <= s < t < sorted.len() ==> not_behind(#[trigger] sorted[s], #[trigger] sorted[t])
}

/// Sorted triples of entries are arranged.
proof fn lemma_arranged(
    keys: Seq<(i32, i32, usize)>,
    sorted: Seq<(i32, i32, usize)>,
    entries: Seq<Entry>,
)
    requires
        keyed(keys, entries),
        sorted.to_multiset() == keys.to_multiset(),
        forall|s: int, t: int|
            0 <= s < t < sorted.len() ==> not_behind(#[trigger] sorted[s], #[trigger] sorted[t]),
    ensures
        arranged(sorted, entries),
{
    broadcast use vstd::seq_lib::group_to_multiset_ensures;

    assert forall|s: int| 0 <= s < sorted.len() implies {
        &&& (#[trigger] sorted[s]).2 < entries.len()
        &&& sorted[s].0 == entries[sorted[s].2 as int].publish
        &&& sorted[s].1 == entries[sorted[s].2 as int].quarter
    } by {
        assert(sorted.contains(sorted[s]));
        assert(keys.to_multiset().count(sorted[s]) > 0);
        assert(keys.contains(sorted[s]));
        let i = choose|i: int| 0 <= i < keys.len() && keys[i] == sorted[s];
        assert(keys[i].2 == i);
    }
    assert forall|i: int| 0 <= i < entries.len() implies #[trigger] placed(sorted, i) by {
        assert(keys.contains(keys[i]));
        assert(sorted.to_multiset().count(keys[i]) > 0);
        assert(sorted.contains(keys[i]));
        let s = choose|s: int| 0 <= s < sorted.len() && sorted[s] == keys[i];
        assert(sorted[s].2 == i);
    }
}

/// Whether a map holds, for each quarter among the first `n` triples, the
/// index in its last triple.
spec fn tracks(latest: Map<i32, usize>, sorted: Seq<(i32, i32, usize)>, n: int) -> bool {
    &&& forall|q: i32| #[trigger]
        latest.contains_key(q) ==> exists|s: int|
            0 <= s < n && (#[trigger] sorted[s]).1 == q && sorted[s].2 == latest[q] && forall|
                t: int,
            |
                s < t < n ==> (#[trigger] sorted[t]).1 != q
    &&& forall|s: int| 0 <= s < n ==> latest.contains_key((#[trigger] sorted[s]).1)
}

/// Whether the first `n` triples are those published by a day.
spec fn split_by(sorted: Seq<(i32, i32, usize)>, n: int, day: int) -> bool {
    &&& 0 <= n <= sorted.len()
    &&& forall|s: int| 0 <= s < n ==> (#[trigger] sorted[s]).0 <= day
    &&& forall|s: int| n <= s < sorted.len() ==> (#[trigger] sorted[s]).0 > day
}

/// What the map holds is the latest entry by the day.
proof fn lemma_tracks_latest(
    latest: Map<i32, usize>,
    sorted: Seq<(i32, i32, usize)>,
    entries: Seq<Entry>,
    n: int,
    day: int,
    q: i32,
)
    requires
        arranged(sorted, entries),
        tracks(latest, sorted, n),
        split_by(sorted, n, day),
    ensures
        latest.contains_key(q) ==> is_latest(entries, q as int, day, latest[q] as int),
        !latest.contains_key(q) ==> unknown(entries, q as int, day),
{
    if latest.contains_key(q) {
        let s = choose|s: int|
            0 <= s < n && (#[trigger] sorted[s]).1 == q && sorted[s].2 == latest[q] && forall|
                t: int,
            |
                s < t < n ==> (#[trigger] sorted[t]).1 != q;
        let i = latest[q] as int;
        assert(entries[i].quarter == q && entries[i].publish == sorted[s].0);
        assert forall|k: int|
            0 <= k < entries.len() && (#[trigger] entries[k]).quarter == q && entries[k].publish
                <= day implies entries[k].publish < entries[i].publish || (entries[k].publish
            == entries[i].publish && k <= i) by {
            assert(placed(sorted, k));
            let t = choose|t: int| 0 <= t < sorted.len() && (#[trigger] sorted[t]).2 == k;
            assert(sorted[t].1 == q);
            assert(t < n);
            assert(t <= s);
            if t < s {
                assert(not_behind(sorted[t], sorted[s]));
            }
        }
    } else {
        assert forall|i: int| !is_latest(entries, q as int, day, i) by {
            if is_latest(entries, q as int, day, i) {
                assert(placed(sorted, i));
                let t = choose|t: int| 0 <= t < sorted.len() && (#[trigger] sorted[t]).2 == i;
                assert(t < n);
                assert(sorted[t].1 == q);
            }
        }
    }
}

/// The latest entry on the quarter `back` quarters before `current`.
fn find_known(
    latest: &HashMap<i32, usize>,
    current: i32,
    back: usize,
    Ghost(sorted): Ghost<Seq<(i32, i32, usize)>>,
    Ghost(entries): Ghost<Seq<Entry>>,
    Ghost(n): Ghost<int>,
    Ghost(day): Ghost<int>,
) -> (r: Option<usize>)
    requires
        arranged(sorted, entries),
        tracks(latest@, sorted, n),
        split_by(sorted, n, day),
    ensures
        match r {
            Some(i) => is_latest(entries, current - back, day, i as int),
            None => unknown(entries, current - back, day),
        },
{
    broadcast use vstd::std_specs::hash::group_hash_axioms;

    if back > 0xffff_ffff || (current as i64) - (back as i64) < i32::MIN as i64 {
        proof {
            let q = current - back;
            assert forall|i: int| !is_latest(entries, q, day, i) by {
                if is_latest(entries, q, day, i) {
                    assert(placed(sorted, i));
                    let t = choose|t: int| 0 <= t < sorted.len() && (#[trigger] sorted[t]).2 == i;
                    assert(sorted[t].1 == q);
                }
            }
        }
        return None;
    }
    let q: i32 = (current as i64 - back as i64) as i32;
    proof {
        lemma_tracks_latest(latest@, sorted, entries, n, day, q);
    }
    match latest.get(&q) {
        Some(i) => Some(*i),
        None => None,
    }
}

/// Whether the values of entries are found in the lines: those of a filing in
/// its row, and nothing of a quarter that came due unfiled.
spec fn sourced(entries: Seq<Entry>, rows: Seq<usize>, f: Filings) -> bool {
    &&& forall|i: int| 0 <= i < rows.len() ==> (#[trigger] rows[i]) < f.report.len()
    &&& forall|i: int, j: int|
        0 <= i < entries.len() && 0 <= j < f.lines.len() ==> #[trigger] entries[i].values[j]
            == if i < rows.len() {
            f.lines[j][rows[i] as int]
        } else {
            None
        }
}

/// Whether a column holds the value of a line, `back` quarters before the
/// newest, as known on each day.
pub open spec fn holds_line(
    column: Seq<Option<u64>>,
    entries: Seq<Entry>,
    days: Seq<i32>,
    current: Seq<i32>,
    back: int,
    line: int,
) -> bool {
    &&& column.len() == days.len()
    &&& forall|t: int|
        0 <= t < days.len() ==> #[trigger] column[t] == known_value(
            entries,
            current[t] - back,
            days[t] as int,
            line,
        )
}

/// Whether columns hold the values of `width` lines at the newest quarter,
/// then those at the quarter before it, and on.
pub open spec fn hold_lines(
    columns: Seq<Vec<Option<u64>>>,
    entries: Seq<Entry>,
    days: Seq<i32>,
    current: Seq<i32>,
    width: int,
) -> bool {
    forall|c: int|
        0 <= c < columns.len() ==> holds_line(
            (#[trigger] columns[c])@,
            entries,
            days,
            current,
            c / width,
            c % width,
        )
}

/// Appends the values known on a day to the columns.
fn push_values(
    columns: &mut Vec<Vec<Option<u64>>>,
    lines: &[Vec<Option<u64>>],
    rows: &Vec<usize>,
    latest: &HashMap<i32, usize>,
    current: i32,
    quarters: usize,
    Ghost(f): Ghost<Filings>,
    Ghost(sorted): Ghost<Seq<(i32, i32, usize)>>,
    Ghost(entries): Ghost<Seq<Entry>>,
    Ghost(n): Ghost<int>,
    Ghost(day): Ghost<int>,
)
    requires
        f.lines == line_views(lines@),
        rectangular(f),
        sourced(entries, rows@, f),
        arranged(sorted, entries),
        tracks(latest@, sorted, n),
        split_by(sorted, n, day),
        old(columns)@.len() == quarters * lines@.len(),
    ensures
        final(columns)@.len() == old(columns)@.len(),
        forall|c: int|
            0 <= c < final(columns)@.len() ==> (#[trigger] final(columns)@[c])@ == old(
                columns,
            )@[c]@.push(
                known_value(
                    entries,
                    current - c / lines@.len() as int,
                    day,
                    c % lines@.len() as int,
                ),
            ),
{
    let width: usize = lines.len();
    let ghost start = columns@;
    let total: usize = columns.len();
    let mut k: usize = 0;
    let mut c: usize = 0;
    while k < quarters
        invariant
            width == lines@.len(),
            total == start.len(),
            f.lines == line_views(lines@),
            rectangular(f),
            sourced(entries, rows@, f),
            arranged(sorted, entries),
            tracks(latest@, sorted, n),
            split_by(sorted, n, day),
            start.len() == quarters * width,
            columns@.len() == start.len(),
            k <= quarters,
            c == k * width,
            forall|d: int|
                0 <= d < c ==> (#[trigger] columns@[d])@ == start[d]@.push(
                    known_value(entries, current - d / width as int, day, d % width as int),
                ),
            forall|d: int| c <= d < start.len() ==> #[trigger] columns@[d] == start[d],
        decreases quarters - k,
    {
        let known = find_known(
            latest,
            current,
            k,
            Ghost(sorted),
            Ghost(entries),
            Ghost(n),
            Ghost(day),
        );
        proof {
            assert(k * width + width <= quarters * width) by (nonlinear_arith)
                requires
                    k + 1 <= quarters,
                    width >= 0,
            ;
        }
        let mut j: usize = 0;
        while j < width
            invariant
                width == lines@.len(),
                total == start.len(),
                f.lines == line_views(lines@),
                rectangular(f),
                sourced(entries, rows@, f),
                match known {
                    Some(i) => is_latest(entries, current - k, day, i as int),
                    None => unknown(entries, current - k, day),
                },
                columns@.len() == start.len(),
                k * width + width <= start.len(),
                j <= width,
                c == k * width + j,
                forall|d: int|
                    0 <= d < c ==> (#[trigger] columns@[d])@ == start[d]@.push(
                        known_value(entries, current - d / width as int, day, d % width as int),
                    ),
                forall|d: int| c <= d < start.len() ==> #[trigger] columns@[d] == start[d],
            decreases width - j,
        {
            proof {
                vstd::arithmetic::div_mod::lemma_fundamental_div_mod_converse(
                    c as int,
                    width as int,
                    k as int,
                    j as int,
                );
                if known is Some {
                    lemma_known_value(entries, current - k, day, j as int, known->0 as int);
                }
                assert(f.lines[j as int] == lines@[j as int]@);
            }
            let value: Option<u64> = match known {
                Some(i) => if i < rows.len() {
                    lines[j][rows[i]]
                } else {
                    None
                },
                None => None,
            };
            proof {
                if known is Some {
                    assert(entries[known->0 as int].values[j as int] == value);
                }
                assert(value == known_value(entries, current - k, day, j as int));
            }
            columns[c].push(value);
            c = c + 1;
            j = j + 1;
        }
        proof {
            assert(k * width + width == (k + 1) * width) by (nonlinear_arith);
        }
        k = k + 1;
    }
}

proof fn lemma_due_entries_empty(
    filed: Seq<Entry>,
    width: nat,
    horizon: int,
    lo: int,
    hi: int,
    i: int,
)
    requires
        0 <= i < due_entries(filed, width, horizon, lo, hi).len(),
    ensures
        due_entries(filed, width, horizon, lo, hi)[i].values == Seq::new(
            width,
            |j: int| None::<u64>,
        ),
    decreases hi - lo + 1,
{
    let front = due_entries(filed, width, horizon, lo, hi - 1);
    if i < front.len() {
        lemma_due_entries_empty(filed, width, horizon, lo, hi - 1, i);
    }
}

/// Empty columns.
fn empty_columns(n: usize) -> (r: Vec<Vec<Option<u64>>>)
    ensures
        r@.len() == n,
        forall|c: int| 0 <= c < n ==> (#[trigger] r@[c])@.len() == 0,
{
    let mut r: Vec<Vec<Option<u64>>> = Vec::new();
    let mut i: usize = 0;
    while i < n
        invariant
            i <= n,
            r@.len() == i,
            forall|c: int| 0 <= c < i ==> (#[trigger] r@[c])@.len() == 0,
        decreases n - i,
    {
        r.push(Vec::new());
        i = i + 1;
    }
    r
}

/// A map without quarters.
fn empty_map() -> (r: HashMap<i32, usize>)
    ensures
        r@ == Map::<i32, usize>::empty(),
{
    HashMap::new()
}

/// Takes in the triples of a day: the index behind them, and the newest
/// quarter then known.
fn absorb_day(
    sorted: &Vec<(i32, i32, usize)>,
    start: usize,
    latest: &mut HashMap<i32, usize>,
    current: i32,
    Ghost(entries): Ghost<Seq<Entry>>,
) -> (r: (usize, i32))
    requires
        start < sorted@.len(),
        arranged(sorted@, entries),
        tracks(old(latest)@, sorted@, start as int),
        forall|s: int| 0 <= s < start ==> (#[trigger] sorted@[s]).1 <= current,
        start > 0 ==> exists|s: int| 0 <= s < start && (#[trigger] sorted@[s]).1 == current,
        start == 0 ==> current == i32::MIN,
    ensures
        start < r.0 <= sorted@.len(),
        tracks(final(latest)@, sorted@, r.0 as int),
        forall|s: int|
            start <= s < r.0 ==> (#[trigger] sorted@[s]).0 == sorted@[start as int].0,
        r.0 < sorted@.len() ==> sorted@[r.0 as int].0 > sorted@[start as int].0,
        forall|s: int| 0 <= s < r.0 ==> (#[trigger] sorted@[s]).1 <= r.1,
        exists|s: int| 0 <= s < r.0 && (#[trigger] sorted@[s]).1 == r.1,
{
    broadcast use vstd::std_specs::hash::group_hash_axioms;

    let day: i32 = sorted[start].0;
    let mut newest: i32 = current;
    let mut i: usize = start;
    while i < sorted.len() && sorted[i].0 == day
        invariant
            start <= i <= sorted@.len(),
            start < sorted@.len(),
            day == sorted@[start as int].0,
            arranged(sorted@, entries),
            tracks(latest@, sorted@, i as int),
            forall|s: int| start <= s < i ==> (#[trigger] sorted@[s]).0 == day,
            forall|s: int| 0 <= s < i ==> (#[trigger] sorted@[s]).1 <= newest,
            i > 0 ==> exists|s: int| 0 <= s < i && (#[trigger] sorted@[s]).1 == newest,
            i == 0 ==> newest == i32::MIN,
        decreases sorted@.len() - i,
    {
        broadcast use vstd::std_specs::hash::group_hash_axioms;

        let (_, q, entry) = sorted[i];
        let ghost before = latest@;
        if q > newest {
            newest = q;
        }
        latest.insert(q, entry);
        proof {
            assert(sorted@[i as int].1 == q);
            assert forall|c: i32| #[trigger] latest@.contains_key(c) implies exists|s: int|
                0 <= s < i + 1 && (#[trigger] sorted@[s]).1 == c && sorted@[s].2 == latest@[c]
                    && forall|t: int| s < t < i + 1 ==> (#[trigger] sorted@[t]).1 != c by {
                if c == q {
                    assert(sorted@[i as int].1 == c);
                } else {
                    assert(before.contains_key(c));
                }
            }
        }
        i = i + 1;
    }
    proof {
        assert(i > start);
        if i < sorted@.len() {
            assert(not_behind(sorted@[start as int], sorted@[i as int]));
        }
    }
    (i, newest)
}

/// The newest quarter among the triples published by a day is the newest that
/// is known.
proof fn lemma_newest(
    sorted: Seq<(i32, i32, usize)>,
    entries: Seq<Entry>,
    n: int,
    day: int,
    q: i32,
)
    requires
        arranged(sorted, entries),
        split_by(sorted, n, day),
        forall|s: int| 0 <= s < n ==> (#[trigger] sorted[s]).1 <= q,
        exists|s: int| 0 <= s < n && (#[trigger] sorted[s]).1 == q,
    ensures
        is_newest(entries, day, q as int),
{
    let s = choose|s: int| 0 <= s < n && (#[trigger] sorted[s]).1 == q;
    let i = sorted[s].2 as int;
    assert(entries[i].publish <= day && entries[i].quarter == q);
    assert forall|k: int|
        0 <= k < entries.len() && (#[trigger] entries[k]).publish <= day implies entries[k].quarter
        <= q by {
        assert(placed(sorted, k));
        let t = choose|t: int| 0 <= t < sorted.len() && (#[trigger] sorted[t]).2 == k;
        assert(t < n);
    }
}

/// The entries of a company's filings as sorted triples, and the rows that
/// its filings stand in.
fn sorted_entries(
    report: &[Option<i32>],
    publish: &[Option<i32>],
    horizon: i32,
    Ghost(f): Ghost<Filings>,
) -> (r: (Vec<(i32, i32, usize)>, Vec<usize>))
    requires
        f.report == report@,
        f.publish == publish@,
        rectangular(f),
    ensures
        arranged(r.0@, all_entries(f, horizon as int)),
        sourced(all_entries(f, horizon as int), r.1@, f),
{
    let ghost filed = filed_entries(f, f.report.len());
    let ghost entries = all_entries(f, horizon as int);
    let ghost width = f.lines.len();
    let (mut keys, rows) = collect_filings(report, publish, Ghost(f));
    if keys.len() > 0 {
        add_due(&mut keys, horizon, Ghost(filed), Ghost(width));
    }
    assert(keyed(keys@, entries));
    proof {
        assert forall|i: int, j: int|
            0 <= i < entries.len() && 0 <= j < width implies #[trigger] entries[i].values[j]
            == if i < rows@.len() {
            f.lines[j][rows@[i] as int]
        } else {
            None
        } by {
            if i < filed.len() {
                assert(entries[i] == filed[i]);
                assert(rows@[i] < report@.len());
            } else {
                lemma_due_entries_empty(
                    filed,
                    width,
                    horizon as int,
                    first_quarter(filed),
                    quarter_of(horizon as int),
                    i - filed.len(),
                );
            }
        }
    }
    let ghost unsorted = keys@;
    sort_triples(&mut keys);
    proof {
        lemma_arranged(unsorted, keys@, entries);
    }
    (keys, rows)
}

/// Whether `v` holds the vintages of entries with values for `width` lines at
/// `quarters` quarters.
pub open spec fn expand(entries: Seq<Entry>, quarters: int, width: int, v: Vintages) -> bool {
    &&& are_days(v.publish@, entries)
    &&& v.current@.len() == v.publish@.len()
    &&& forall|t: int|
        0 <= t < v.publish@.len() ==> is_newest(
            entries,
            #[trigger] v.publish@[t] as int,
            v.current@[t] as int,
        )
    &&& v.values@.len() == quarters * width
    &&& hold_lines(v.values@, entries, v.publish@, v.current@, width)
}

/// Walks the entries, day by day.
fn walk(
    sorted: Vec<(i32, i32, usize)>,
    rows: Vec<usize>,
    lines: &[Vec<Option<u64>>],
    quarters: usize,
    Ghost(f): Ghost<Filings>,
    Ghost(entries): Ghost<Seq<Entry>>,
) -> (r: Vintages)
    requires
        f.lines == line_views(lines@),
        rectangular(f),
        sourced(entries, rows@, f),
        arranged(sorted@, entries),
        quarters * lines@.len() <= usize::MAX,
    ensures
        expand(entries, quarters as int, lines@.len() as int, r),
{
    let width: usize = lines.len();
    let mut out_publish: Vec<i32> = Vec::new();
    let mut out_current: Vec<i32> = Vec::new();
    let mut out_values = empty_columns(quarters * width);
    let mut latest = empty_map();
    let mut current: i32 = i32::MIN;
    let mut index: usize = 0;
    while index < sorted.len()
        invariant
            f.lines == line_views(lines@),
            width == lines@.len(),
            rectangular(f),
            sourced(entries, rows@, f),
            arranged(sorted@, entries),
            index <= sorted@.len(),
            tracks(latest@, sorted@, index as int),
            forall|s: int| 0 <= s < index ==> (#[trigger] sorted@[s]).1 <= current,
            index > 0 ==> exists|s: int| 0 <= s < index && (#[trigger] sorted@[s]).1 == current,
            index == 0 ==> current == i32::MIN,
            out_current@.len() == out_publish@.len(),
            forall|s: int, t: int|
                0 <= s < t < out_publish@.len() ==> out_publish@[s] < out_publish@[t],
            forall|t: int, s: int|
                0 <= t < out_publish@.len() && index <= s < sorted@.len()
                    ==> #[trigger] out_publish@[t] < (#[trigger] sorted@[s]).0,
            forall|t: int|
                0 <= t < out_publish@.len() ==> is_day(entries, #[trigger] out_publish@[t] as int),
            forall|s: int|
                0 <= s < index ==> #[trigger] listed(out_publish@, sorted@[s].0 as int),
            forall|t: int|
                0 <= t < out_publish@.len() ==> is_newest(
                    entries,
                    #[trigger] out_publish@[t] as int,
                    out_current@[t] as int,
                ),
            out_values@.len() == quarters * width,
            hold_lines(out_values@, entries, out_publish@, out_current@, width as int),
        decreases sorted@.len() - index,
    {
        let day: i32 = sorted[index].0;
        let ghost start = index as int;
        let (next, newest) = absorb_day(&sorted, index, &mut latest, current, Ghost(entries));
        proof {
            assert forall|s: int| 0 <= s < next implies (#[trigger] sorted@[s]).0 <= day by {
                if s < start {
                    assert(not_behind(sorted@[s], sorted@[start]));
                }
            }
            assert forall|s: int| next <= s < sorted@.len() implies (#[trigger] sorted@[s]).0
                > day by {
                if s > next {
                    assert(not_behind(sorted@[next as int], sorted@[s]));
                }
            }
            assert(split_by(sorted@, next as int, day as int));
            lemma_newest(sorted@, entries, next as int, day as int, newest);
            assert(entries[sorted@[start].2 as int].publish == day);
            assert(is_day(entries, day as int));
        }
        push_values(
            &mut out_values,
            lines,
            &rows,
            &latest,
            newest,
            quarters,
            Ghost(f),
            Ghost(sorted@),
            Ghost(entries),
            Ghost(next as int),
            Ghost(day as int),
        );
        let ghost days = out_publish@;
        out_publish.push(day);
        out_current.push(newest);
        proof {
            assert forall|s: int| 0 <= s < next implies #[trigger] listed(
                out_publish@,
                sorted@[s].0 as int,
            ) by {
                if s < start {
                    assert(listed(days, sorted@[s].0 as int));
                    let t = choose|t: int|
                        0 <= t < days.len() && (#[trigger] days[t]) == sorted@[s].0;
                    assert(out_publish@[t] == sorted@[s].0);
                } else {
                    assert(out_publish@[days.len() as int] == sorted@[s].0);
                }
            }
        }
        index = next;
        current = newest;
    }
    proof {
        assert forall|i: int| 0 <= i < entries.len() implies #[trigger] listed(
            out_publish@,
            entries[i].publish,
        ) by {
            assert(placed(sorted@, i));
            let s = choose|s: int| 0 <= s < sorted@.len() && (#[trigger] sorted@[s]).2 == i;
            assert(listed(out_publish@, sorted@[s].0 as int));
        }
    }
    Vintages { publish: out_publish, current: out_current, values: out_values }
}

/// Whether `v` holds the vintages of a company's filings, up to `horizon`,
/// with the newest quarter and `offsets` quarters before it in each.
pub open spec fn are_vintages(f: Filings, horizon: int, offsets: int, v: Vintages) -> bool {
    expand(all_entries(f, horizon), offsets + 1, f.lines.len() as int, v)
}

/// The number of quarters that vintages have columns of, where there are
/// lines: the newest and `offsets` before it.
fn quarters_shown(offsets: usize, width: usize) -> (r: usize)
    requires
        (offsets + 1) * width <= usize::MAX,
    ensures
        width > 0 ==> r == offsets + 1,
        r * width == (offsets + 1) * width,
{
    if width == 0 {
        return 0;
    }
    assert(offsets + 1 <= (offsets + 1) * width) by (nonlinear_arith)
        requires
            width >= 1,
    ;
    offsets + 1
}

/// One company's filings, expanded into vintages.
///
/// `report` and `publish` hold the reported day and the day of publication of
/// each filing, `lines` a column for each statement line. Each line comes out
/// at the newest quarter and at each of `offsets` quarters before it. Quarters
/// that came due unfiled are entered up to `horizon_days`.
pub fn vintage(
    report: &[Option<i32>],
    publish: &[Option<i32>],
    lines: &[Vec<Option<u64>>],
    horizon_days: i32,
    offsets: usize,
) -> (r: Vintages)
    requires
        publish@.len() == report@.len(),
        forall|j: int| 0 <= j < lines@.len() ==> (#[trigger] lines@[j])@.len() == report@.len(),
        (offsets + 1) * lines@.len() <= usize::MAX,
    ensures
        are_vintages(
            Filings { report: report@, publish: publish@, lines: line_views(lines@) },
            horizon_days as int,
            offsets as int,
            r,
        ),
{
    let ghost f = Filings { report: report@, publish: publish@, lines: line_views(lines@) };
    let ghost entries = all_entries(f, horizon_days as int);
    assert(rectangular(f));
    let (sorted, rows) = sorted_entries(report, publish, horizon_days, Ghost(f));
    let quarters: usize = quarters_shown(offsets, lines.len());
    walk(sorted, rows, lines, quarters, Ghost(f), Ghost(entries))
}

/// The type of a column of vintages.
#[derive(Clone, Copy, Debug, PartialEq, Eq, Structural)]
pub enum VintageType {
    Date,
    Int32,
    Float64,
}

/// The name of a line, `back` quarters before the newest.
pub open spec fn line_name(line: Seq<char>, back: nat) -> Seq<char> {
    if back == 0 {
        line
    } else {
        line + "_"@ + decimal(back)
    }
}

/// The names and types of the columns of vintages: the day of publication,
/// the newest quarter, then each line at the newest quarter, each line at the
/// quarter before it, and on, `offsets` quarters back.
pub fn vintage_fields(published: &str, lines: &[String], offsets: usize) -> (r: Vec<
    (String, VintageType),
>)
    requires
        (offsets + 1) * lines@.len() + 2 <= usize::MAX,
    ensures
        r@.len() == (offsets + 1) * lines@.len() + 2,
        r@[0].0@ == published@ && r@[0].1 == VintageType::Date,
        r@[1].0@ == "_current"@ && r@[1].1 == VintageType::Int32,
        forall|c: int|
            2 <= c < r@.len() ==> {
                let width = lines@.len() as int;
                &&& (#[trigger] r@[c]).0@ == line_name(
                    texts(lines@)[(c - 2) % width],
                    ((c - 2) / width) as nat,
                )
                &&& r@[c].1 == VintageType::Float64
            },
{
    let width: usize = lines.len();
    let quarters: usize = quarters_shown(offsets, width);
    let mut r: Vec<(String, VintageType)> = Vec::new();
    r.push((copied(published), VintageType::Date));
    r.push((copied("_current"), VintageType::Int32));
    let mut k: usize = 0;
    while k < quarters
        invariant
            width == lines@.len(),
            quarters * width + 2 <= usize::MAX,
            k <= quarters,
            r@.len() == k * width + 2,
            r@[0].0@ == published@ && r@[0].1 == VintageType::Date,
            r@[1].0@ == "_current"@ && r@[1].1 == VintageType::Int32,
            forall|c: int|
                2 <= c < r@.len() ==> {
                    &&& (#[trigger] r@[c]).0@ == line_name(
                        texts(lines@)[(c - 2) % width as int],
                        ((c - 2) / width as int) as nat,
                    )
                    &&& r@[c].1 == VintageType::Float64
                },
        decreases quarters - k,
    {
        let mut j: usize = 0;
        while j < width
            invariant
                width == lines@.len(),
                j <= width,
                r@.len() == k * width + j + 2,
                r@[0].0@ == published@ && r@[0].1 == VintageType::Date,
                r@[1].0@ == "_current"@ && r@[1].1 == VintageType::Int32,
                forall|c: int|
                    2 <= c < r@.len() ==> {
                        &&& (#[trigger] r@[c]).0@ == line_name(
                            texts(lines@)[(c - 2) % width as int],
                            ((c - 2) / width as int) as nat,
                        )
                        &&& r@[c].1 == VintageType::Float64
                    },
            decreases width - j,
        {
            let name = if k == 0 {
                copied(lines[j].as_str())
            } else {
                let mut s = joined(lines[j].as_str(), "_");
                s.append(decimal_text(k).as_str());
                s
            };
            proof {
                vstd::arithmetic::div_mod::lemma_fundamental_div_mod_converse(
                    k * width + j,
                    width as int,
                    k as int,
                    j as int,
                );
                assert(texts(lines@)[j as int] == lines@[j as int]@);
            }
            r.push((name, VintageType::Float64));
            j = j + 1;
        }
        proof {
            assert(k * width + width == (k + 1) * width) by (nonlinear_arith);
        }
        k = k + 1;
    }
    r
}

} // verus!
