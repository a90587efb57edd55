//! The proleptic Gregorian calendar in days since 1970-01-01, its quarters,
//! and the dates by which a quarter's report is due.

use vstd::prelude::*;

verus! {

/// Whether year `y` has a 29 February.
pub open spec fn is_leap(y: int) -> bool {
    y % 4 == 0 && (y % 100 != 0 || y % 400 == 0)
}

/// How many years have a 29 February, counted from year 1 up to year `y`.
pub open spec fn leap_years(y: int) -> int {
    y / 4 - y / 100 + y / 400
}

/// The days from 1970-01-01 to 1 January of year `y`.
pub open spec fn year_start(y: int) -> int {
    365 * (y - 1970) + leap_years(y - 1) - leap_years(1969)
}

/// The number of days of month `m` of year `y`.
pub open spec fn month_len(y: int, m: int) -> int {
    if m == 2 {
        if is_leap(y) {
            29
        } else {
            28
        }
    } else if m == 4 || m == 6 || m == 9 || m == 11 {
        30
    } else {
        31
    }
}

/// The days from 1 January to the first day of month `m` of year `y`.
pub open spec fn month_start(y: int, m: int) -> int
    decreases m,
{
    if m <= 1 {
        0
    } else {
        month_start(y, m - 1) + month_len(y, m - 1)
    }
}

/// The days from 1970-01-01 to day `d` of month `m` of year `y`. A `d` beyond
/// the month's end runs on into the months behind it.
pub open spec fn civil_days(y: int, m: int, d: int) -> int {
    year_start(y) + month_start(y, m) + d - 1
}

/// The first day of quarter `q`, where quarters are numbered `4 * year` for
/// January to March and on.
pub open spec fn quarter_start(q: int) -> int {
    civil_days(q / 4, 3 * (q % 4) + 1, 1)
}

/// Whether `days` falls into quarter `q`.
pub open spec fn in_quarter(days: int, q: int) -> bool {
    quarter_start(q) <= days < quarter_start(q + 1)
}

/// The quarter that `days` falls into.
pub open spec fn quarter_of(days: int) -> int {
    choose|q: int| in_quarter(days, q)
}

/// The day on which the report on quarter `q` is due: the end of April,
/// August and October for the first three quarters of a year, and the end of
/// next year's April for the last.
pub open spec fn due(q: int) -> int {
    if q % 4 == 0 {
        civil_days(q / 4, 4, 30)
    } else if q % 4 == 1 {
        civil_days(q / 4, 8, 31)
    } else if q % 4 == 2 {
        civil_days(q / 4, 10, 31)
    } else {
        civil_days(q / 4 + 1, 4, 30)
    }
}

/// The starts of the twelve months.
pub proof fn lemma_month_start(y: int)
    ensures
        ({
            let leap = if is_leap(y) {
                1int
            } else {
                0
            };
            &&& month_start(y, 1) == 0
            &&& month_start(y, 2) == 31
            &&& month_start(y, 3) == 59 + leap
            &&& month_start(y, 4) == 90 + leap
            &&& month_start(y, 5) == 120 + leap
            &&& month_start(y, 6) == 151 + leap
            &&& month_start(y, 7) == 181 + leap
            &&& month_start(y, 8) == 212 + leap
            &&& month_start(y, 9) == 243 + leap
            &&& month_start(y, 10) == 273 + leap
            &&& month_start(y, 11) == 304 + leap
            &&& month_start(y, 12) == 334 + leap
        }),
{
    reveal_with_fuel(month_start, 13);
}

/// A year has 365 days, and one more when it has a 29 February.
pub proof fn law_year_length(y: int)
    ensures
        year_start(y + 1) - year_start(y) == (if is_leap(y) {
            366int
        } else {
            365
        }),
        year_start(y + 1) == year_start(y) + month_start(y, 12) + month_len(y, 12),
{
    lemma_month_start(y);
}

proof fn lemma_leap_years_step(y: int)
    ensures
        leap_years(y) == leap_years(y - 1) + (if is_leap(y) {
            1int
        } else {
            0
        }),
{
}

proof fn lemma_leap_years_cycle(era: int, yoe: int)
    requires
        0 <= yoe <= 399,
    ensures
        leap_years(400 * era + yoe) == 97 * era + yoe / 4 - yoe / 100,
        is_leap(400 * era + yoe) == is_leap(yoe),
{
}

/// The days from 1 March to the first day of the month `mp` months later.
spec fn since_march(mp: int) -> int {
    (153 * mp + 2) / 5
}

proof fn lemma_since_march()
    ensures
        since_march(0) == 0,
        since_march(1) == 31,
        since_march(2) == 61,
        since_march(3) == 92,
        since_march(4) == 122,
        since_march(5) == 153,
        since_march(6) == 184,
        since_march(7) == 214,
        since_march(8) == 245,
        since_march(9) == 275,
        since_march(10) == 306,
        since_march(11) == 337,
{
}

/// The first day of month `m` counted in years that start in March: `era` and
/// `yoe` are the 400 years' cycle and the year in it, `mp` the months since
/// March.
proof fn lemma_march(y: int, m: int, era: int, yoe: int, mp: int)
    requires
        1 <= m <= 12,
        0 <= yoe <= 399,
        m <= 2 ==> y - 1 == 400 * era + yoe && mp == m + 9,
        m > 2 ==> y == 400 * era + yoe && mp == m - 3,
    ensures
        civil_days(y, m, 1) == era * 146097 + yoe * 365 + yoe / 4 - yoe / 100 + since_march(mp)
            - 719468,
{
    lemma_month_start(y);
    lemma_since_march();
    lemma_leap_years_cycle(era, yoe);
    lemma_leap_years_step(y);
    assert(leap_years(1969) == 477);
}

proof fn lemma_month_of_day(doy: int, mp: int)
    requires
        0 <= doy <= 365,
        mp == (5 * doy + 2) / 153,
    ensures
        0 <= mp <= 11,
        since_march(mp) <= doy,
        mp < 11 ==> doy < since_march(mp + 1),
{
}

/// The quotient of `a` and a positive `b`, rounded down.
fn floor_div(a: i64, b: i64) -> (r: i64)
    requires
        0 < b <= 1_000_000,
        -0x4000_0000_0000_0000 <= a <= 0x4000_0000_0000_0000,
    ensures
        r == a as int / b as int,
{
    if a >= 0 {
        a / b
    } else {
        let q: i64 = (b - 1 - a) / b;
        proof {
            let n = b - 1 - a;
            vstd::arithmetic::div_mod::lemma_fundamental_div_mod(n as int, b as int);
            let rem = n as int % b as int;
            assert(a == b * (-q) + (b - 1 - rem)) by (nonlinear_arith)
                requires
                    n == b * q + rem,
                    n == b - 1 - a,
            ;
            vstd::arithmetic::div_mod::lemma_fundamental_div_mod_converse(
                a as int,
                b as int,
                -(q as int),
                b - 1 - rem,
            );
        }
        -q
    }
}

/// The days since 1970-01-01 of a civil date, by Howard Hinnant's algorithm.
pub fn days_from_civil(y: i32, m: u32, d: u32) -> (r: i64)
    requires
        1 <= m <= 12,
    ensures
        r == civil_days(y as int, m as int, d as int),
{
    let y: i64 = if m <= 2 {
        y as i64 - 1
    } else {
        y as i64
    };
    let era: i64 = floor_div(y, 400);
    let yoe: i64 = y - era * 400;
    let mp: i64 = if m > 2 {
        m as i64 - 3
    } else {
        m as i64 + 9
    };
    let doy: i64 = (153 * mp + 2) / 5 + d as i64 - 1;
    let doe: i64 = yoe * 365 + yoe / 4 - yoe / 100 + doy;
    proof {
        lemma_march(
            if m <= 2 {
                y + 1
            } else {
                y as int
            },
            m as int,
            era as int,
            yoe as int,
            mp as int,
        );
    }
    era * 146097 + doe - 719468
}

proof fn lemma_year_of_era(doe: int, yoe: int)
    requires
        0 <= doe < 146097,
        yoe == (doe - doe / 1460 + doe / 36524 - doe / 146096) / 365,
    ensures
        0 <= yoe <= 399,
        365 * yoe + yoe / 4 - yoe / 100 <= doe,
        yoe < 399 ==> doe < 365 * (yoe + 1) + (yoe + 1) / 4 - (yoe + 1) / 100,
{
}

proof fn lemma_leap_of_cycle(era: int, yoe: int)
    requires
        0 <= yoe <= 399,
    ensures
        is_leap(400 * era + yoe + 1) == ((yoe + 1) % 4 == 0 && ((yoe + 1) % 100 != 0 || yoe
            == 399)),
{
    if yoe < 399 {
        lemma_leap_years_cycle(era, yoe + 1);
        assert((yoe + 1) % 400 == yoe + 1);
    } else {
        lemma_leap_years_cycle(era + 1, 0);
        assert(400 * era + yoe + 1 == 400 * (era + 1) + 0);
    }
}

/// The civil year and month that a day falls into.
pub fn civil_from_days(days: i32) -> (r: (i32, u32))
    ensures
        1 <= r.1 <= 12,
        civil_days(r.0 as int, r.1 as int, 1) <= days < civil_days(r.0 as int, r.1 as int, 1)
            + month_len(r.0 as int, r.1 as int),
{
    let z: i64 = days as i64 + 719468;
    let era: i64 = floor_div(z, 146097);
    let doe: i64 = z - era * 146097;
    let yoe: i64 = (doe - doe / 1460 + doe / 36524 - doe / 146096) / 365;
    proof {
        lemma_year_of_era(doe as int, yoe as int);
    }
    let y: i64 = yoe + era * 400;
    let doy: i64 = doe - (365 * yoe + yoe / 4 - yoe / 100);
    assert(0 <= doy <= 365);
    let mp: i64 = (5 * doy + 2) / 153;
    proof {
        lemma_month_of_day(doy as int, mp as int);
    }
    let m: i64 = if mp < 10 {
        mp + 3
    } else {
        mp - 9
    };
    let year: i64 = if m <= 2 {
        y + 1
    } else {
        y
    };
    proof {
        lemma_march(year as int, m as int, era as int, yoe as int, mp as int);
        lemma_since_march();
        lemma_leap_of_cycle(era as int, yoe as int);
        assert(m != 2 ==> month_len(year as int, m as int) == since_march(mp + 1) - since_march(
            mp as int,
        ));
    }
    (year as i32, m as u32)
}

proof fn lemma_quarter_len(q: int)
    ensures
        90 <= quarter_start(q + 1) - quarter_start(q) <= 92,
{
    let y = q / 4;
    lemma_month_start(y);
    lemma_month_start(y + 1);
    law_year_length(y);
}

/// A later quarter starts no earlier.
pub proof fn lemma_quarter_start_monotone(q: int, r: int)
    requires
        q <= r,
    ensures
        quarter_start(q) <= quarter_start(r),
    decreases r - q,
{
    if q < r {
        lemma_quarter_len(q);
        lemma_quarter_start_monotone(q + 1, r);
    }
}

/// A day falls into one quarter only.
pub proof fn law_quarter_unique(days: int, q: int)
    requires
        in_quarter(days, q),
    ensures
        quarter_of(days) == q,
{
    let r = quarter_of(days);
    assert(in_quarter(days, r));
    if q < r {
        lemma_quarter_start_monotone(q + 1, r);
    } else if r < q {
        lemma_quarter_start_monotone(r + 1, q);
    }
}

/// The number of the quarter that a day falls into, so that subtracting four
/// is a year.
pub fn quarter_index(days: i32) -> (r: i32)
    ensures
        r == quarter_of(days as int),
        in_quarter(days as int, r as int),
        -24_000_000 <= r <= 24_000_000,
{
    let (y, m) = civil_from_days(days);
    proof {
        lemma_month_start(y as int);
        lemma_month_start(y + 1);
        law_year_length(y as int);
    }
    assert(-6_000_000 < y < 6_000_000);
    let r: i32 = y * 4 + (m as i32 - 1) / 3;
    proof {
        assert(r / 4 == y && r % 4 == (m - 1) / 3);
        assert(in_quarter(days as int, r as int));
        law_quarter_unique(days as int, r as int);
    }
    r
}

/// The day on which a quarter's report is due.
pub fn deadline_days(quarter: i32) -> (r: i64)
    ensures
        r == due(quarter as int),
{
    let year: i64 = floor_div(quarter as i64, 4);
    let part: i64 = quarter as i64 - year * 4;
    if part == 0 {
        days_from_civil(year as i32, 4, 30)
    } else if part == 1 {
        days_from_civil(year as i32, 8, 31)
    } else if part == 2 {
        days_from_civil(year as i32, 10, 31)
    } else {
        days_from_civil((year + 1) as i32, 4, 30)
    }
}

/// A quarter's report is due after the quarter is over, within four months,
/// and never before an earlier quarter's.
pub proof fn law_due_after_quarter(q: int)
    ensures
        quarter_start(q + 1) <= due(q) < quarter_start(q + 1) + 124,
        due(q) <= due(q + 1),
{
    let y = q / 4;
    lemma_month_start(y);
    lemma_month_start(y + 1);
    law_year_length(y);
}

proof fn lemma_quarter_exists(days: int, q: int)
    ensures
        exists|r: int| in_quarter(days, r),
    decreases
            if days < quarter_start(q) {
                quarter_start(q) - days
            } else {
                days - quarter_start(q)
            },
{
    lemma_quarter_len(q);
    lemma_quarter_len(q - 1);
    if in_quarter(days, q) {
    } else if days < quarter_start(q) {
        if in_quarter(days, q - 1) {
        } else {
            lemma_quarter_exists(days, q - 1);
        }
    } else {
        lemma_quarter_exists(days, q + 1);
    }
}

/// Every day falls into a quarter.
pub proof fn law_quarter_exists(days: int)
    ensures
        in_quarter(days, quarter_of(days)),
{
    lemma_quarter_exists(days, 0);
}

/// A day falls into one month only.
pub proof fn law_month_unique(days: int, y: int, m: int, z: int, n: int)
    requires
        1 <= m <= 12,
        1 <= n <= 12,
        civil_days(y, m, 1) <= days < civil_days(y, m, 1) + month_len(y, m),
        civil_days(z, n, 1) <= days < civil_days(z, n, 1) + month_len(z, n),
    ensures
        y == z,
        m == n,
{
    lemma_month_start(y);
    lemma_month_start(z);
    if y < z {
        lemma_year_start_monotone(y + 1, z);
        law_year_length(y);
    } else if z < y {
        lemma_year_start_monotone(z + 1, y);
        law_year_length(z);
    }
}

proof fn lemma_year_start_monotone(y: int, z: int)
    requires
        y <= z,
    ensures
        year_start(y) <= year_start(z),
    decreases z - y,
{
    if y < z {
        law_year_length(y);
        lemma_year_start_monotone(y + 1, z);
    }
}

} // verus!
