//! The calendar told day by day: where it starts, and what date follows which.

use vstd::prelude::*;

use crate::calendar::{
    civil_days, due, in_quarter, law_quarter_unique, law_year_length, lemma_month_start, month_len,
    quarter_of, quarter_start,
};

verus! {

/// Day 0 is 1970-01-01, and of two dates in a month that are a day apart the
/// later one is the next day.
pub proof fn law_days_are_counted(y: int, m: int, d: int)
    ensures
        civil_days(1970, 1, 1) == 0,
        civil_days(y, m, d + 1) == civil_days(y, m, d) + 1,
{
}

/// Behind the last day of a month comes the first of the next: behind 30 days
/// for April, June, September and November, behind 28 or 29 for February, and
/// behind 31 for the others. February has 29 days in years that four divides,
/// but for those that a hundred divides and four hundred does not.
pub proof fn law_month_follows_month(y: int, m: int)
    requires
        1 <= m <= 12,
    ensures
        m == 4 || m == 6 || m == 9 || m == 11 ==> civil_days(y, m + 1, 1) == civil_days(y, m, 30)
            + 1,
        m == 2 && y % 4 == 0 && (y % 100 != 0 || y % 400 == 0) ==> civil_days(y, 3, 1)
            == civil_days(y, 2, 29) + 1,
        m == 2 && (y % 4 != 0 || (y % 100 == 0 && y % 400 != 0)) ==> civil_days(y, 3, 1)
            == civil_days(y, 2, 28) + 1,
        m == 1 || m == 3 || m == 5 || m == 7 || m == 8 || m == 10 ==> civil_days(y, m + 1, 1)
            == civil_days(y, m, 31) + 1,
        civil_days(y + 1, 1, 1) == civil_days(y, 12, 31) + 1,
        m < 12 ==> month_len(y, m) == civil_days(y, m + 1, 1) - civil_days(y, m, 1),
        m == 12 ==> month_len(y, m) == civil_days(y + 1, 1, 1) - civil_days(y, m, 1),
{
    lemma_month_start(y);
    lemma_month_start(y + 1);
    law_year_length(y);
}

/// A date of month `m` of year `y` lies in quarter `4 * y` for January to
/// March, in the next for April to June, and on.
pub proof fn law_quarter_of_date(y: int, m: int, d: int)
    requires
        1 <= m <= 12,
        1 <= d <= month_len(y, m),
    ensures
        quarter_of(civil_days(y, m, d)) == 4 * y + (m - 1) / 3,
        quarter_start(4 * y + (m - 1) / 3) == civil_days(y, m - (m - 1) % 3, 1),
{
    let q = 4 * y + (m - 1) / 3;
    let days = civil_days(y, m, d);
    lemma_month_start(y);
    lemma_month_start(y + 1);
    law_year_length(y);
    assert(q / 4 == y && q % 4 == (m - 1) / 3);
    assert((q + 1) / 4 == if m > 9 {
        y + 1
    } else {
        y
    });
    assert(in_quarter(days, q));
    law_quarter_unique(days, q);
}

/// A quarter's report is due on the last day before May for the first quarter
/// of a year, before September for the second, before November for the third,
/// and before May of the next year for the last.
pub proof fn law_due_dates(y: int)
    ensures
        due(4 * y) + 1 == civil_days(y, 5, 1),
        due(4 * y + 1) + 1 == civil_days(y, 9, 1),
        due(4 * y + 2) + 1 == civil_days(y, 11, 1),
        due(4 * y + 3) + 1 == civil_days(y + 1, 5, 1),
{
    lemma_month_start(y);
    lemma_month_start(y + 1);
}

} // verus!
