//! What reading a cell gives back of what was written into it.

use vstd::prelude::*;

use crate::calendar::{civil_days, month_len};
use crate::loader::cells::{
    all_digits, date_days, digits_value, int64_value, is_digit, real_date, unsigned,
    DateFormatView,
};
use crate::text::decimal;

verus! {

/// A decimal numeral is made of digits, has at least one, and stands for its
/// number.
pub proof fn law_decimal_value(n: nat)
    ensures
        decimal(n).len() > 0,
        all_digits(decimal(n)),
        digits_value(decimal(n)) == n,
    decreases n,
{
    let digit = ('0' as int + n % 10) as char;
    let s = decimal(n);
    assert(is_digit(digit) && digit as int - '0' as int == n % 10);
    if n < 10 {
        assert(s.drop_last() == Seq::<char>::empty());
        assert(digits_value(s.drop_last()) == 0);
        assert(s.last() == digit);
    } else {
        law_decimal_value(n / 10);
        assert(s.drop_last() == decimal(n / 10));
        assert(s.last() == digit);
    }
}

/// An integer written in decimal, with a sign where it is negative.
pub open spec fn written_integer(n: int) -> Seq<char> {
    if n < 0 {
        seq!['-'] + decimal((-n) as nat)
    } else {
        decimal(n as nat)
    }
}

/// A 64-bit integer is read back exactly as it was written.
pub proof fn law_integer_round_trip(n: i64)
    ensures
        int64_value(written_integer(n as int)) == Some(n),
{
    let s = written_integer(n as int);
    if n < 0 {
        law_decimal_value((-n) as nat);
        assert(s[0] == '-');
        assert(s.skip(1) == decimal((-n) as nat));
    } else {
        law_decimal_value(n as nat);
        assert(is_digit(s[0]));
        assert(unsigned(s) == s);
    }
}

/// An integer beyond 64 bits is not read as one.
pub proof fn law_integer_beyond_range(n: int)
    requires
        n < i64::MIN || i64::MAX < n,
    ensures
        int64_value(written_integer(n)) is None,
{
    let s = written_integer(n);
    if n < 0 {
        law_decimal_value((-n) as nat);
        assert(s[0] == '-');
        assert(s.skip(1) == decimal((-n) as nat));
    } else {
        law_decimal_value(n as nat);
        assert(is_digit(s[0]));
        assert(unsigned(s) == s);
    }
}

/// A number in two digits.
pub open spec fn two_digits(n: int) -> Seq<char> {
    seq![('0' as int + n / 10) as char, ('0' as int + n % 10) as char]
}

/// A date written as year, month and day, with `between` between them.
pub open spec fn written_date(y: int, m: int, d: int, between: Seq<char>) -> Seq<char> {
    two_digits(y / 100) + two_digits(y % 100) + between + two_digits(m) + between + two_digits(d)
}

pub proof fn lemma_two_digits(n: int)
    requires
        0 <= n < 100,
    ensures
        two_digits(n).len() == 2,
        is_digit(two_digits(n)[0]),
        is_digit(two_digits(n)[1]),
        two_digits(n)[0] as int - '0' as int == n / 10,
        two_digits(n)[1] as int - '0' as int == n % 10,
{
    let a = ('0' as int + n / 10) as char;
    let b = ('0' as int + n % 10) as char;
    assert(two_digits(n)[0] == a && two_digits(n)[1] == b);
    assert(a as int == '0' as int + n / 10);
    assert(b as int == '0' as int + n % 10);
}

pub proof fn lemma_value_of_two(s: Seq<char>, n: int)
    requires
        0 <= n < 100,
        s == two_digits(n),
    ensures
        all_digits(s),
        digits_value(s) == n,
{
    lemma_two_digits(n);
    let one = s.drop_last();
    assert(one.drop_last() == Seq::<char>::empty());
    assert(digits_value(one.drop_last()) == 0);
    assert(one.last() == s[0]);
    assert(digits_value(one) == n / 10);
    assert(s.last() == s[1]);
}

pub proof fn lemma_value_of_four(s: Seq<char>, n: int)
    requires
        0 <= n < 10000,
        s == two_digits(n / 100) + two_digits(n % 100),
    ensures
        all_digits(s),
        digits_value(s) == n,
{
    let a = two_digits(n / 100);
    let b = two_digits(n % 100);
    lemma_two_digits(n / 100);
    lemma_two_digits(n % 100);
    lemma_value_of_two(a, n / 100);
    let three = s.drop_last();
    assert(three.drop_last() == a);
    assert(three.last() == b[0] && s.last() == b[1]);
    assert(digits_value(three) == 10 * (n / 100) + (n % 100) / 10);
    assert forall|i: int| 0 <= i < s.len() implies is_digit(#[trigger] s[i]) by {
        if i < 2 {
            assert(s[i] == a[i]);
        } else {
            assert(s[i] == b[i - 2]);
        }
    }
}

/// A date of four, two and two digits is read back as its day, with hyphens
/// between them and without. On a day that its month has, it is a real date,
/// which chrono's `%Y-%m-%d` reads as the same day.
pub proof fn law_date_round_trip(y: int, m: int, d: int)
    requires
        0 <= y <= 9999,
        1 <= m <= 12,
        1 <= d <= 31,
    ensures
        date_days(written_date(y, m, d, seq!['-']), DateFormatView::Ymd) == Some(
            civil_days(y, m, d),
        ),
        date_days(written_date(y, m, d, Seq::empty()), DateFormatView::Ymd8) == Some(
            civil_days(y, m, d),
        ),
        real_date(written_date(y, m, d, seq!['-'])) <==> d <= month_len(y, m),
{
    let year = two_digits(y / 100) + two_digits(y % 100);
    lemma_value_of_four(year, y);
    lemma_value_of_two(two_digits(m), m);
    lemma_value_of_two(two_digits(d), d);
    let s = written_date(y, m, d, seq!['-']);
    assert(s.len() == 10 && s[4] == '-' && s[7] == '-');
    assert(s.subrange(0, 4) == year);
    assert(s.subrange(5, 7) == two_digits(m));
    assert(s.subrange(8, 10) == two_digits(d));
    let t = written_date(y, m, d, Seq::empty());
    assert(t.len() == 8);
    assert(t.subrange(0, 4) == year);
    assert(t.subrange(4, 6) == two_digits(m));
    assert(t.subrange(6, 8) == two_digits(d));
}

} // verus!
