//! Reading the text of a field as a number or a date.

use vstd::prelude::*;

use crate::calendar::{civil_days, days_from_civil, lemma_month_start, month_len};
use crate::text::same_text;

verus! {

/// Whether `c` is an ASCII digit.
pub open spec fn is_digit(c: char) -> bool {
    '0' <= c <= '9'
}

/// Whether `s` holds nothing but ASCII digits.
pub open spec fn all_digits(s: Seq<char>) -> bool {
    forall|i: int| 0 <= i < s.len() ==> is_digit(#[trigger] s[i])
}

/// The value of the decimal digits `s`.
pub open spec fn digits_value(s: Seq<char>) -> int
    decreases s.len(),
{
    if s.len() == 0 {
        0
    } else {
        10 * digits_value(s.drop_last()) + (s.last() as int - '0' as int)
    }
}

/// `s` without a sign at its start.
pub open spec fn unsigned(s: Seq<char>) -> Seq<char> {
    if s.len() > 0 && (s[0] == '+' || s[0] == '-') {
        s.skip(1)
    } else {
        s
    }
}

/// The number that `s` writes as an optional sign and at least one digit.
pub open spec fn integer_value(s: Seq<char>) -> Option<int> {
    let digits = unsigned(s);
    if digits.len() == 0 || !all_digits(digits) {
        None
    } else if s[0] == '-' {
        Some(-digits_value(digits))
    } else {
        Some(digits_value(digits))
    }
}

/// The number that `s` writes, where it fits into 64 bits.
pub open spec fn int64_value(s: Seq<char>) -> Option<i64> {
    match integer_value(s) {
        Some(v) => if i64::MIN <= v <= i64::MAX {
            Some(v as i64)
        } else {
            None
        },
        None => None,
    }
}

proof fn lemma_digits_value(s: Seq<char>, n: int)
    requires
        0 <= n <= s.len(),
        all_digits(s),
    ensures
        0 <= digits_value(s.take(n)) <= digits_value(s),
    decreases s.len(),
{
    if n == s.len() {
        assert(s.take(n) == s);
        lemma_digits_value_nonnegative(s);
    } else {
        let t = s.drop_last();
        assert(is_digit(s.last()));
        assert forall|i: int| 0 <= i < t.len() implies is_digit(#[trigger] t[i]) by {
            assert(t[i] == s[i]);
        }
        assert(t.take(n) == s.take(n));
        lemma_digits_value(t, n);
    }
}

proof fn lemma_digits_value_nonnegative(s: Seq<char>)
    requires
        all_digits(s),
    ensures
        digits_value(s) >= 0,
    decreases s.len(),
{
    if s.len() > 0 {
        let t = s.drop_last();
        assert(is_digit(s.last()));
        assert forall|i: int| 0 <= i < t.len() implies is_digit(#[trigger] t[i]) by {
            assert(t[i] == s[i]);
        }
        lemma_digits_value_nonnegative(t);
    }
}

/// The magnitude written by the digits from `from` on, where there is at
/// least one digit, nothing else, and it is at most 2 to the 63rd.
fn magnitude(s: &str, from: usize) -> (r: Option<u64>)
    requires
        s.is_ascii(),
        from <= s@.len(),
    ensures
        ({
            let digits = s@.skip(from as int);
            &&& r is Some <==> digits.len() > 0 && all_digits(digits) && digits_value(digits)
                <= 0x8000_0000_0000_0000
            &&& r matches Some(v) ==> v == digits_value(digits)
        }),
{
    let ghost digits = s@.skip(from as int);
    let bytes = s.as_bytes();
    if from == bytes.len() {
        return None;
    }
    let mut value: u64 = 0;
    let mut i: usize = from;
    assert(digits.take(0) == Seq::<char>::empty());
    while i < bytes.len()
        invariant
            from <= i <= bytes@.len(),
            bytes@.len() == s@.len(),
            digits == s@.skip(from as int),
            forall|j: int| 0 <= j < s@.len() ==> #[trigger] bytes@[j] == s@[j] as u8,
            forall|j: int| 0 <= j < s@.len() ==> '\0' <= #[trigger] s@[j] <= '\u{7f}',
            forall|j: int| 0 <= j < i - from ==> is_digit(#[trigger] digits[j]),
            value == digits_value(digits.take(i - from)),
            value <= 0x8000_0000_0000_0000,
        decreases bytes@.len() - i,
    {
        let ghost k = i - from;
        assert(digits[k] == s@[i as int]);
        assert(bytes@[i as int] == s@[i as int] as u8);
        let c: u8 = bytes[i];
        if c < 0x30 || c > 0x39 {
            assert(!is_digit(digits[k]));
            return None;
        }
        let next: u128 = value as u128 * 10 + (c - 0x30) as u128;
        proof {
            assert(digits.take(k + 1).drop_last() == digits.take(k));
            assert(next == digits_value(digits.take(k + 1)));
        }
        if next > 0x8000_0000_0000_0000 {
            proof {
                if all_digits(digits) {
                    lemma_digits_value(digits, k + 1);
                }
            }
            return None;
        }
        value = next as u64;
        i = i + 1;
    }
    assert(digits.take(digits.len() as int) == digits);
    Some(value)
}

/// The 64-bit integer that `s` writes as an optional sign and digits.
pub fn parse_int64(s: &str) -> (r: Option<i64>)
    ensures
        r == int64_value(s@),
{
    if !s.is_ascii() {
        proof {
            let i = choose|i: int| 0 <= i < s@.len() && !('\0' <= #[trigger] s@[i] <= '\u{7f}');
            let digits = unsigned(s@);
            if integer_value(s@) is Some {
                if digits == s@ {
                    assert(is_digit(digits[i]));
                } else {
                    assert(i > 0);
                    assert(digits[i - 1] == s@[i]);
                }
            }
        }
        return None;
    }
    let bytes = s.as_bytes();
    if bytes.len() == 0 {
        return None;
    }
    assert(bytes@[0] == s@[0] as u8);
    let sign: u8 = bytes[0];
    let signed = sign == 0x2b || sign == 0x2d;
    let ghost digits = unsigned(s@);
    proof {
        assert(s@.skip(0) == s@);
        if all_digits(digits) {
            lemma_digits_value_nonnegative(digits);
        }
    }
    match magnitude(
        s,
        if signed {
            1
        } else {
            0
        },
    ) {
        None => None,
        Some(v) => if sign == 0x2d {
            if v == 0x8000_0000_0000_0000 {
                Some(i64::MIN)
            } else {
                Some(-(v as i64))
            }
        } else if v == 0x8000_0000_0000_0000 {
            None
        } else {
            Some(v as i64)
        },
    }
}

/// How many digits stand at the start of `s`.
pub open spec fn digit_run(s: Seq<char>) -> int
    decreases s.len(),
{
    if s.len() > 0 && is_digit(s[0]) {
        1 + digit_run(s.drop_first())
    } else {
        0
    }
}

/// Whether `s` is nothing, or an exponent: the letter e, an optional sign and
/// at least one digit.
pub open spec fn is_exponent(s: Seq<char>) -> bool {
    s.len() == 0 || {
        let digits = unsigned(s.skip(1));
        (s[0] == 'e' || s[0] == 'E') && digits.len() > 0 && all_digits(digits)
    }
}

/// Whether `s` is a decimal numeral: digits with at most one point among or
/// around them, and an optional exponent.
pub open spec fn is_decimal(s: Seq<char>) -> bool {
    let n = digit_run(s);
    let t = s.skip(n);
    if t.len() > 0 && t[0] == '.' {
        let m = digit_run(t.skip(1));
        n + m > 0 && is_exponent(t.skip(1 + m))
    } else {
        n > 0 && is_exponent(t)
    }
}

/// Whether `s` is the word `w`, in whatever case.
pub open spec fn is_word(s: Seq<char>, w: Seq<char>) -> bool {
    s.len() == w.len() && forall|i: int|
        0 <= i < s.len() ==> #[trigger] s[i] == w[i] || s[i] as int + 32 == w[i] as int
}

/// Whether `s` writes a floating-point number: an optional sign, then a
/// decimal numeral, `inf`, `infinity` or `nan`.
pub open spec fn is_float(s: Seq<char>) -> bool {
    let t = unsigned(s);
    ||| is_decimal(t)
    ||| is_word(t, seq!['i', 'n', 'f'])
    ||| is_word(t, seq!['i', 'n', 'f', 'i', 'n', 'i', 't', 'y'])
    ||| is_word(t, seq!['n', 'a', 'n'])
}

/// The characters that ASCII bytes stand for.
pub open spec fn ascii_text(bytes: Seq<u8>) -> Seq<char> {
    bytes.map_values(|b: u8| b as char)
}

pub proof fn lemma_digit_run(s: Seq<char>)
    ensures
        0 <= digit_run(s) <= s.len(),
        forall|i: int| 0 <= i < digit_run(s) ==> is_digit(#[trigger] s[i]),
        digit_run(s) < s.len() ==> !is_digit(s[digit_run(s)]),
    decreases s.len(),
{
    if s.len() > 0 && is_digit(s[0]) {
        lemma_digit_run(s.drop_first());
        let n = digit_run(s);
        assert forall|i: int| 0 <= i < n implies is_digit(#[trigger] s[i]) by {
            if i > 0 {
                assert(s[i] == s.drop_first()[i - 1]);
            }
        }
        if n < s.len() {
            assert(s[n] == s.drop_first()[n - 1]);
        }
    }
}

pub proof fn lemma_digit_run_unique(s: Seq<char>, n: int)
    requires
        0 <= n <= s.len(),
        forall|i: int| 0 <= i < n ==> is_digit(#[trigger] s[i]),
        n < s.len() ==> !is_digit(s[n]),
    ensures
        digit_run(s) == n,
{
    lemma_digit_run(s);
    let m = digit_run(s);
    if m < n {
        assert(is_digit(s[m]));
    } else if n < m {
        assert(is_digit(s[n]));
    }
}

/// Where the run of digits that starts at `from` ends.
fn run_end(b: &[u8], from: usize) -> (r: usize)
    requires
        from <= b@.len(),
    ensures
        from <= r <= b@.len(),
        r == from + digit_run(ascii_text(b@).skip(from as int)),
{
    let ghost s = ascii_text(b@).skip(from as int);
    let mut i: usize = from;
    while i < b.len() && 0x30 <= b[i] && b[i] <= 0x39
        invariant
            from <= i <= b@.len(),
            s == ascii_text(b@).skip(from as int),
            forall|j: int| 0 <= j < i - from ==> is_digit(#[trigger] s[j]),
        decreases b@.len() - i,
    {
        assert(s[i - from] == b@[i as int] as char);
        i = i + 1;
    }
    proof {
        if i < b@.len() {
            assert(s[i - from] == b@[i as int] as char);
        }
        lemma_digit_run_unique(s, i - from);
    }
    i
}

/// The start of the digits where a sign may stand at `from`.
fn behind_sign(b: &[u8], from: usize) -> (r: usize)
    requires
        from <= b@.len(),
    ensures
        from <= r <= b@.len(),
        ascii_text(b@).skip(r as int) == unsigned(ascii_text(b@).skip(from as int)),
{
    let ghost s = ascii_text(b@);
    proof {
        if from < b@.len() {
            assert(s.skip(from as int)[0] == b@[from as int] as char);
            assert(s.skip(from as int).skip(1) == s.skip(from + 1));
        }
    }
    if from < b.len() && (b[from] == 0x2b || b[from] == 0x2d) {
        from + 1
    } else {
        from
    }
}

/// Whether nothing or an exponent stands from `from` on.
fn exponent_at(b: &[u8], from: usize) -> (r: bool)
    requires
        from <= b@.len(),
    ensures
        r == is_exponent(ascii_text(b@).skip(from as int)),
{
    let ghost s = ascii_text(b@).skip(from as int);
    if from == b.len() {
        return true;
    }
    assert(s[0] == b@[from as int] as char);
    if b[from] != 0x65 && b[from] != 0x45 {
        return false;
    }
    let start: usize = behind_sign(b, from + 1);
    let end: usize = run_end(b, start);
    proof {
        assert(ascii_text(b@).skip(from + 1) == s.skip(1));
        let digits = unsigned(s.skip(1));
        assert(digits == ascii_text(b@).skip(start as int));
        lemma_digit_run(digits);
        if end < b@.len() {
            assert(!is_digit(digits[end - start]));
        }
    }
    start < end && end == b.len()
}

/// Whether a decimal numeral stands from `from` on.
fn decimal_at(b: &[u8], from: usize) -> (r: bool)
    requires
        from <= b@.len(),
    ensures
        r == is_decimal(ascii_text(b@).skip(from as int)),
{
    let ghost s = ascii_text(b@).skip(from as int);
    let whole: usize = run_end(b, from);
    let ghost n = whole - from;
    assert(s.skip(n) == ascii_text(b@).skip(whole as int));
    if whole < b.len() && b[whole] == 0x2e {
        let end: usize = run_end(b, whole + 1);
        proof {
            assert(s.skip(n)[0] == '.');
            assert(s.skip(n).skip(1) == ascii_text(b@).skip(whole + 1));
            assert(s.skip(n).skip(1 + (end - whole - 1)) == ascii_text(b@).skip(end as int));
        }
        (whole > from || end > whole + 1) && exponent_at(b, end)
    } else {
        proof {
            if whole < b@.len() {
                assert(s.skip(n)[0] == b@[whole as int] as char);
            }
        }
        whole > from && exponent_at(b, whole)
    }
}

/// Whether the word `w` stands from `from` on, in whatever case.
fn word_at(b: &[u8], from: usize, w: &[u8]) -> (r: bool)
    requires
        from <= b@.len(),
        forall|i: int| 0 <= i < w@.len() ==> 0x61 <= #[trigger] w@[i] <= 0x7a,
    ensures
        r == is_word(ascii_text(b@).skip(from as int), ascii_text(w@)),
{
    let ghost s = ascii_text(b@).skip(from as int);
    if b.len() - from != w.len() {
        return false;
    }
    let mut i: usize = 0;
    while i < w.len()
        invariant
            i <= w@.len(),
            from + w@.len() == b@.len(),
            b@.len() <= usize::MAX,
            s == ascii_text(b@).skip(from as int),
            forall|j: int| 0 <= j < w@.len() ==> 0x61 <= #[trigger] w@[j] <= 0x7a,
            forall|j: int|
                0 <= j < i ==> #[trigger] s[j] == ascii_text(w@)[j] || s[j] as int + 32
                    == ascii_text(w@)[j] as int,
        decreases w@.len() - i,
    {
        assert(s[i as int] == b@[from + i] as char);
        assert(ascii_text(w@)[i as int] == w@[i as int] as char);
        let c: u8 = b[from + i];
        if c != w[i] && (c >= 0x80 || c + 32 != w[i]) {
            return false;
        }
        i = i + 1;
    }
    true
}

proof fn lemma_exponent_ascii(s: Seq<char>)
    requires
        is_exponent(s),
    ensures
        forall|i: int| 0 <= i < s.len() ==> '\0' <= #[trigger] s[i] <= '\u{7f}',
{
    if s.len() > 0 {
        let t = s.skip(1);
        let digits = unsigned(t);
        assert forall|i: int| 0 <= i < s.len() implies '\0' <= #[trigger] s[i] <= '\u{7f}' by {
            if i > 0 {
                assert(s[i] == t[i - 1]);
                if digits == t {
                    assert(is_digit(digits[i - 1]));
                } else if i > 1 {
                    assert(digits[i - 2] == t[i - 1]);
                    assert(is_digit(digits[i - 2]));
                }
            }
        }
    }
}

proof fn lemma_decimal_ascii(s: Seq<char>)
    requires
        is_decimal(s),
    ensures
        forall|i: int| 0 <= i < s.len() ==> '\0' <= #[trigger] s[i] <= '\u{7f}',
{
    lemma_digit_run(s);
    let n = digit_run(s);
    let t = s.skip(n);
    if t.len() > 0 && t[0] == '.' {
        let u = t.skip(1);
        lemma_digit_run(u);
        let m = digit_run(u);
        let e = t.skip(1 + m);
        lemma_exponent_ascii(e);
        assert forall|i: int| 0 <= i < s.len() implies '\0' <= #[trigger] s[i] <= '\u{7f}' by {
            if i < n {
                assert(is_digit(s[i]));
            } else if i == n {
                assert(s[i] == t[0]);
            } else if i < n + 1 + m {
                assert(s[i] == u[i - n - 1]);
                assert(is_digit(u[i - n - 1]));
            } else {
                assert(s[i] == e[i - n - 1 - m]);
            }
        }
    } else {
        lemma_exponent_ascii(t);
        assert forall|i: int| 0 <= i < s.len() implies '\0' <= #[trigger] s[i] <= '\u{7f}' by {
            if i < n {
                assert(is_digit(s[i]));
            } else {
                assert(s[i] == t[i - n]);
            }
        }
    }
}

/// Only ASCII characters write a floating-point number.
proof fn lemma_float_ascii(s: Seq<char>)
    requires
        is_float(s),
    ensures
        forall|i: int| 0 <= i < s.len() ==> '\0' <= #[trigger] s[i] <= '\u{7f}',
{
    let t = unsigned(s);
    if is_decimal(t) {
        lemma_decimal_ascii(t);
    } else {
        assert forall|i: int| 0 <= i < t.len() implies '\0' <= #[trigger] t[i] <= '\u{7f}' by {
            char_range(t[i]);
        }
    }
    assert forall|i: int| 0 <= i < s.len() implies '\0' <= #[trigger] s[i] <= '\u{7f}' by {
        if t == s {
            assert(t[i] == s[i]);
        } else if i > 0 {
            assert(t[i - 1] == s[i]);
        }
    }
}

proof fn char_range(c: char)
    ensures
        0 <= c as int <= 0x10ffff,
{
}

/// Whether `s` writes a floating-point number.
pub fn is_float_text(s: &str) -> (r: bool)
    ensures
        r == is_float(s@),
{
    if !s.is_ascii() {
        proof {
            if is_float(s@) {
                lemma_float_ascii(s@);
            }
        }
        return false;
    }
    let b = s.as_bytes();
    proof {
        assert forall|i: int| 0 <= i < s@.len() implies ascii_text(b@)[i] == #[trigger] s@[i] by {
            assert(b@[i] == s@[i] as u8);
        }
        assert(ascii_text(b@) == s@);
        assert(s@.skip(0) == s@);
    }
    let start: usize = behind_sign(b, 0);
    let inf: [u8; 3] = [0x69, 0x6e, 0x66];
    let infinity: [u8; 8] = [0x69, 0x6e, 0x66, 0x69, 0x6e, 0x69, 0x74, 0x79];
    let nan: [u8; 3] = [0x6e, 0x61, 0x6e];
    proof {
        assert(ascii_text(inf@) =~= seq!['i', 'n', 'f']);
        assert(ascii_text(infinity@) =~= seq!['i', 'n', 'f', 'i', 'n', 'i', 't', 'y']);
        assert(ascii_text(nan@) =~= seq!['n', 'a', 'n']);
    }
    decimal_at(b, start) || word_at(b, start, inf.as_slice()) || word_at(
        b,
        start,
        infinity.as_slice(),
    ) || word_at(b, start, nan.as_slice())
}

/// A date format, the two common ones told apart.
pub enum DateFormat {
    /// `%Y-%m-%d`
    Ymd,
    /// `%Y%m%d`
    Ymd8,
    /// Any other format.
    Other(String),
}

/// What a date format means to a reader of contracts.
pub enum DateFormatView {
    Ymd,
    Ymd8,
    Other(Seq<char>),
}

/// The date format that a format text names.
pub open spec fn date_format(format: Seq<char>) -> DateFormatView {
    if format == "%Y-%m-%d"@ {
        DateFormatView::Ymd
    } else if format == "%Y%m%d"@ {
        DateFormatView::Ymd8
    } else {
        DateFormatView::Other(format)
    }
}

impl View for DateFormat {
    type V = DateFormatView;

    open spec fn view(&self) -> DateFormatView {
        match self {
            DateFormat::Ymd => DateFormatView::Ymd,
            DateFormat::Ymd8 => DateFormatView::Ymd8,
            DateFormat::Other(format) => DateFormatView::Other(format@),
        }
    }
}

impl DateFormat {
    /// The date format that a format text names.
    pub fn from_str(fmt: &str) -> (r: Self)
        ensures
            r@ == date_format(fmt@),
    {
        if same_text(fmt, "%Y-%m-%d") {
            DateFormat::Ymd
        } else if same_text(fmt, "%Y%m%d") {
            DateFormat::Ymd8
        } else {
            DateFormat::Other(fmt.to_string())
        }
    }
}

/// The number written by the `n` digits of `s` from index `at` on.
pub open spec fn number_at(s: Seq<char>, at: int, n: int) -> Option<int> {
    let digits = s.subrange(at, at + n);
    if all_digits(digits) {
        Some(digits_value(digits))
    } else {
        None
    }
}

/// The days since 1970-01-01 of a date with a month from 1 to 12 and a day
/// from 1 to 31; a day beyond the month's end runs on into the next month.
pub open spec fn date_value(y: Option<int>, m: Option<int>, d: Option<int>) -> Option<int> {
    match (y, m, d) {
        (Some(y), Some(m), Some(d)) => if 1 <= m <= 12 && 1 <= d <= 31 {
            Some(civil_days(y, m, d))
        } else {
            None
        },
        _ => None,
    }
}

/// What `chrono::NaiveDate::parse_from_str` makes of a text and a format, as
/// days since 1970-01-01; `None` for its errors.
pub uninterp spec fn chrono_date(s: Seq<char>, format: Seq<char>) -> Option<i32>;

/// `chrono::NaiveDate::parse_from_str`, the date taken as the days since
/// 1970-01-01 that `NaiveDate::to_epoch_days` counts and every error as
/// `None`. The result depends on the two texts alone. A real date of four, two
/// and two digits with hyphens between them is read by `%Y-%m-%d` as its day;
/// which other texts which formats accept is chrono's, and left unsaid.
#[verifier::external_body]
fn parse_with_format(s: &str, format: &str) -> (r: Option<i32>)
    ensures
        r == chrono_date(s@, format@),
        real_date(s@) && format@ == "%Y-%m-%d"@ ==> r is Some && date_days(
            s@,
            DateFormatView::Ymd,
        ) == Some(r->0 as int),
{
    chrono::NaiveDate::parse_from_str(s, format).ok().map(|date| date.to_epoch_days())
}

/// The days since 1970-01-01 of the date that `s` writes in a format.
pub open spec fn date_days(s: Seq<char>, format: DateFormatView) -> Option<int> {
    match format {
        DateFormatView::Ymd => if s.len() == 10 && s[4] == '-' && s[7] == '-' {
            date_value(number_at(s, 0, 4), number_at(s, 5, 2), number_at(s, 8, 2))
        } else {
            None
        },
        DateFormatView::Ymd8 => if s.len() == 8 {
            date_value(number_at(s, 0, 4), number_at(s, 4, 2), number_at(s, 6, 2))
        } else {
            None
        },
        DateFormatView::Other(format) => match chrono_date(s, format) {
            Some(days) => Some(days as int),
            None => None,
        },
    }
}

/// Whether `s` writes a date of four, two and two digits with hyphens between
/// them, on a day that its month has.
pub open spec fn real_date(s: Seq<char>) -> bool {
    date_days(s, DateFormatView::Ymd) is Some && number_at(s, 8, 2)->0 <= month_len(
        number_at(s, 0, 4)->0,
        number_at(s, 5, 2)->0,
    )
}

/// The number written by `n` digits from index `at` on.
fn parse_digits(b: &[u8], at: usize, n: usize) -> (r: Option<u32>)
    requires
        at + n <= b@.len(),
        n <= 4,
    ensures
        r is Some <==> number_at(ascii_text(b@), at as int, n as int) is Some,
        r matches Some(v) ==> number_at(ascii_text(b@), at as int, n as int) == Some(v as int) && v
            <= 9999 && (n == 2 ==> v <= 99),
{
    let ghost digits = ascii_text(b@).subrange(at as int, at + n);
    assert(at + n <= b.len());
    let mut value: u32 = 0;
    let mut i: usize = 0;
    assert(digits.take(0) == Seq::<char>::empty());
    while i < n
        invariant
            i <= n <= 4,
            at + n <= b@.len() <= usize::MAX,
            digits == ascii_text(b@).subrange(at as int, at + n),
            forall|j: int| 0 <= j < i ==> is_digit(#[trigger] digits[j]),
            value == digits_value(digits.take(i as int)),
            i == 0 ==> value == 0,
            i == 1 ==> value <= 9,
            i == 2 ==> value <= 99,
            i == 3 ==> value <= 999,
            i == 4 ==> value <= 9999,
        decreases n - i,
    {
        let c: u8 = b[at + i];
        assert(digits[i as int] == c as char);
        if c < 0x30 || c > 0x39 {
            assert(!is_digit(digits[i as int]));
            return None;
        }
        assert(digits.take(i + 1).drop_last() == digits.take(i as int));
        value = value * 10 + (c - 0x30) as u32;
        i = i + 1;
    }
    assert(digits.take(n as int) == digits);
    Some(value)
}

/// The days since 1970-01-01 of a civil date; `None` for a month or a day
/// that no month has.
pub fn civil_to_days(y: i32, m: u32, d: u32) -> (r: Option<i32>)
    requires
        1 <= m <= 12 && 1 <= d <= 31 ==> i32::MIN <= civil_days(y as int, m as int, d as int)
            <= i32::MAX,
    ensures
        r is Some <==> 1 <= m <= 12 && 1 <= d <= 31,
        r matches Some(days) ==> days == civil_days(y as int, m as int, d as int),
{
    if m < 1 || m > 12 || d < 1 || d > 31 {
        return None;
    }
    Some(days_from_civil(y, m, d) as i32)
}

proof fn lemma_dates_ascii(s: Seq<char>, format: DateFormatView)
    requires
        date_days(s, format) is Some,
        !(format is Other),
    ensures
        forall|i: int| 0 <= i < s.len() ==> '\0' <= #[trigger] s[i] <= '\u{7f}',
{
    assert forall|i: int| 0 <= i < s.len() implies '\0' <= #[trigger] s[i] <= '\u{7f}' by {
        let y = s.subrange(0, 4);
        let (mid, end) = if format is Ymd {
            (5int, 8int)
        } else {
            (4int, 6int)
        };
        let m = s.subrange(mid, mid + 2);
        let d = s.subrange(end, end + 2);
        if i < 4 {
            assert(is_digit(y[i]));
        } else if mid <= i < mid + 2 {
            assert(is_digit(m[i - mid]));
        } else if end <= i < end + 2 {
            assert(is_digit(d[i - end]));
        }
    }
}

/// The days since 1970-01-01 of the date that `s` writes in the format `fmt`.
///
/// A real date with hyphens is the same day to chrono's `%Y-%m-%d`.
pub fn fast_parse_date(s: &str, fmt: &DateFormat) -> (r: Option<i32>)
    ensures
        r is Some <==> date_days(s@, fmt@) is Some,
        r matches Some(days) ==> date_days(s@, fmt@) == Some(days as int),
        real_date(s@) && fmt@ == DateFormatView::Other("%Y-%m-%d"@) ==> r is Some && date_days(
            s@,
            DateFormatView::Ymd,
        ) == Some(r->0 as int),
{
    let ymd = match fmt {
        DateFormat::Ymd => true,
        DateFormat::Ymd8 => false,
        DateFormat::Other(format) => {
            return parse_with_format(s, format.as_str());
        },
    };
    if !s.is_ascii() {
        proof {
            if date_days(s@, fmt@) is Some {
                lemma_dates_ascii(s@, fmt@);
            }
        }
        return None;
    }
    let b = s.as_bytes();
    proof {
        assert forall|i: int| 0 <= i < s@.len() implies ascii_text(b@)[i] == #[trigger] s@[i] by {
            assert(b@[i] == s@[i] as u8);
        }
        assert(ascii_text(b@) == s@);
    }
    let (mid, end): (usize, usize) = if ymd {
        if b.len() != 10 || b[4] != 0x2d || b[7] != 0x2d {
            return None;
        }
        (5, 8)
    } else {
        if b.len() != 8 {
            return None;
        }
        (4, 6)
    };
    match (parse_digits(b, 0, 4), parse_digits(b, mid, 2), parse_digits(b, end, 2)) {
        (Some(y), Some(m), Some(d)) => {
            proof {
                lemma_month_start(y as int);
            }
            civil_to_days(y as i32, m, d)
        },
        _ => None,
    }
}

} // verus!
