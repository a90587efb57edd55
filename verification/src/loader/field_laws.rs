//! What a field becomes, told by the characters it is written with.

use vstd::prelude::*;

use crate::calendar::civil_days;
use crate::loader::batch::Cell;
use crate::loader::cell_laws::{
    law_date_round_trip, law_decimal_value, law_integer_round_trip, lemma_two_digits,
    lemma_value_of_four, lemma_value_of_two, two_digits, written_date, written_integer,
};
use crate::loader::cells::{
    all_digits, chrono_date, date_days, date_format, digit_run, digits_value, int64_value,
    is_decimal, is_digit, is_exponent, is_float, is_word, lemma_digit_run, lemma_digit_run_unique,
    unsigned, DateFormatView,
};
use crate::loader::column_builder::{cell_of, cells_of};
use crate::loader::csv_scan::field_text;
use crate::loader::schema::ColTypeView;
use crate::text::{all_white, decimal, is_white, lemma_trimmed_empty, trim_end, trim_start, trimmed};

verus! {

/// Whether every character of `s` is one of the ten ASCII digits.
pub open spec fn digits_only(s: Seq<char>) -> bool {
    forall|i: int| 0 <= i < s.len() ==> '0' <= #[trigger] s[i] <= '9'
}

/// Whether `s` is nothing, a plus or a minus.
pub open spec fn is_sign(s: Seq<char>) -> bool {
    s == Seq::<char>::empty() || s == seq!['+'] || s == seq!['-']
}

/// Whether `s` is `word`, its letters in either case.
pub open spec fn spells(s: Seq<char>, word: Seq<char>) -> bool {
    s.len() == word.len() && forall|i: int|
        0 <= i < s.len() ==> #[trigger] s[i] as int == word[i] as int || s[i] as int + 32
            == word[i] as int
}

/// The parts of a numeral: a sign, digits, where there is a point the digits
/// behind it, and where there is an exponent its letter, sign and digits.
pub struct Numeral {
    pub sign: Seq<char>,
    pub whole: Seq<char>,
    pub point: bool,
    pub fraction: Seq<char>,
    pub letter: Seq<char>,
    pub power_sign: Seq<char>,
    pub power: Seq<char>,
}

impl Numeral {
    /// The numeral as it is written.
    pub open spec fn text(self) -> Seq<char> {
        self.sign + self.whole + (if self.point {
            seq!['.']
        } else {
            Seq::empty()
        }) + self.fraction + self.letter + self.power_sign + self.power
    }

    /// Whether the parts are what they should be: there is a digit before the
    /// point or behind it, and an exponent has digits of its own.
    pub open spec fn valid(self) -> bool {
        &&& is_sign(self.sign)
        &&& digits_only(self.whole)
        &&& digits_only(self.fraction)
        &&& self.whole.len() + self.fraction.len() > 0
        &&& !self.point ==> self.fraction.len() == 0
        &&& if self.letter == seq!['e'] || self.letter == seq!['E'] {
            is_sign(self.power_sign) && digits_only(self.power) && self.power.len() > 0
        } else {
            self.letter.len() == 0 && self.power_sign.len() == 0 && self.power.len() == 0
        }
    }
}

/// Whether `s` writes an infinity or no number at all: a sign or none, and
/// `inf`, `infinity` or `nan`.
pub open spec fn is_special(sign: Seq<char>, word: Seq<char>) -> bool {
    is_sign(sign) && {
        ||| spells(word, seq!['i', 'n', 'f'])
        ||| spells(word, seq!['i', 'n', 'f', 'i', 'n', 'i', 't', 'y'])
        ||| spells(word, seq!['n', 'a', 'n'])
    }
}

/// White space is the space, the control characters from tab to carriage
/// return and next line, the no-break and the ideographic space, and the
/// spaces and separators of typography. No visible ASCII character is, and
/// nothing from the ideographs on. A text is white where each character is.
pub proof fn law_white_space(c: char, s: Seq<char>)
    ensures
        c == ' ' || c == '\t' || c == '\n' || c == '\r' || c == '\u{b}' || c == '\u{c}' || c
            == '\u{85}' || c == '\u{a0}' || c == '\u{3000}' ==> is_white(c),
        '!' <= c <= '~' || c > '\u{3000}' || c < '\t' ==> !is_white(c),
        '\u{80}' <= c < '\u{3000}' ==> (is_white(c) <==> c == '\u{85}' || c == '\u{a0}' || c
            == '\u{1680}' || '\u{2000}' <= c <= '\u{200a}' || c == '\u{2028}' || c == '\u{2029}'
            || c == '\u{202f}' || c == '\u{205f}'),
        all_white(s) <==> forall|i: int| 0 <= i < s.len() ==> is_white(#[trigger] s[i]),
{
}

proof fn lemma_trim_end_append(s: Seq<char>, w: Seq<char>)
    requires
        all_white(w),
    ensures
        trim_end(s + w) == trim_end(s),
    decreases w.len(),
{
    if w.len() == 0 {
        assert(s + w == s);
    } else {
        let t = s + w;
        assert(t.last() == w[w.len() - 1]);
        assert(t.drop_last() == s + w.drop_last());
        assert forall|i: int| 0 <= i < w.drop_last().len() implies is_white(
            #[trigger] w.drop_last()[i],
        ) by {
            assert(is_white(w[i]));
        }
        lemma_trim_end_append(s, w.drop_last());
    }
}

proof fn lemma_trim_start_prepend(w: Seq<char>, s: Seq<char>)
    requires
        all_white(w),
    ensures
        trim_start(w + s) == trim_start(s),
    decreases w.len(),
{
    if w.len() == 0 {
        assert(w + s == s);
    } else {
        let t = w + s;
        assert(t[0] == w[0]);
        assert(is_white(w[0]));
        assert(t.drop_first() == w.drop_first() + s);
        assert forall|i: int| 0 <= i < w.drop_first().len() implies is_white(
            #[trigger] w.drop_first()[i],
        ) by {
            assert(is_white(w[i + 1]));
        }
        lemma_trim_start_prepend(w.drop_first(), s);
    }
}

/// Trimming takes off the white space at the two ends, and nothing else.
pub proof fn law_trimming(before: Seq<char>, s: Seq<char>, behind: Seq<char>)
    requires
        all_white(before),
        all_white(behind),
        s.len() > 0 ==> !is_white(s[0]) && !is_white(s.last()),
    ensures
        trimmed(before + s + behind) == s,
        field_text(before + s + behind, true) == s,
        field_text(before + s + behind, false) == before + s + behind,
{
    lemma_trim_end_append(before + s, behind);
    if s.len() == 0 {
        assert(before + s == before);
        assert forall|i: int| 0 <= i < (before + s + behind).len() implies is_white(
            #[trigger] (before + s + behind)[i],
        ) by {
            if i < before.len() {
                assert(is_white(before[i]));
            } else {
                assert(is_white(behind[i - before.len()]));
            }
        }
        lemma_trimmed_empty(before + s + behind);
        assert(trimmed(before + s + behind) == s);
    } else {
        let t = before + s;
        assert(t.last() == s.last());
        assert(trim_end(t) == t);
        lemma_trim_start_prepend(before, s);
        assert(trim_start(s) == s);
    }
}

/// A digit behind digits makes their number ten times as large and adds its
/// own; digits in front that are zeros add nothing.
pub proof fn law_place_value(s: Seq<char>, c: char)
    requires
        '0' <= c <= '9',
    ensures
        digits_value(Seq::empty()) == 0,
        digits_value(s.push(c)) == 10 * digits_value(s) + (c as int - 48),
        digits_value(seq!['0'] + s) == digits_value(s),
    decreases s.len(),
{
    assert(s.push(c).drop_last() == s);
    let t = seq!['0'] + s;
    if s.len() == 0 {
        assert(t.drop_last() == Seq::<char>::empty());
        assert(digits_value(t.drop_last()) == 0);
        assert(digits_value(t) == 0);
    } else {
        assert(t.drop_last() == seq!['0'] + s.drop_last());
        assert(t.last() == s.last());
        law_place_value(s.drop_last(), c);
    }
}

/// A decimal numeral is made of digits that stand for its number, at least one,
/// and no zero stands in front of others.
pub proof fn law_decimal_digits(n: nat)
    ensures
        decimal(n).len() > 0,
        digits_only(decimal(n)),
        decimal(n).len() > 1 ==> decimal(n)[0] != '0',
        digits_value(decimal(n)) == n,
    decreases n,
{
    law_decimal_value(n);
    let s = decimal(n);
    assert forall|i: int| 0 <= i < s.len() implies '0' <= #[trigger] s[i] <= '9' by {
        assert(is_digit(s[i]));
    }
    if n >= 10 {
        law_decimal_digits(n / 10);
        assert(s[0] == decimal(n / 10)[0]);
        let m = n / 10;
        if m < 10 {
            let digit = ('0' as int + m % 10) as char;
            assert(decimal(m) == seq![digit]);
            assert(digit as int == '0' as int + m);
        } else {
            assert(decimal(m).len() == decimal(m / 10).len() + 1);
            law_decimal_digits(m / 10);
        }
    }
}

proof fn lemma_digits_only(s: Seq<char>)
    requires
        digits_only(s),
    ensures
        all_digits(s),
{
    assert forall|i: int| 0 <= i < s.len() implies is_digit(#[trigger] s[i]) by {
        assert('0' <= s[i] <= '9');
    }
}

proof fn lemma_unsigned(sign: Seq<char>, s: Seq<char>)
    requires
        is_sign(sign),
        s.len() > 0 ==> s[0] != '+' && s[0] != '-',
    ensures
        unsigned(sign + s) == s,
{
    if sign.len() == 0 {
        assert(sign + s == s);
    } else {
        assert((sign + s).skip(1) == s);
    }
}

/// An integer is a sign or none and at least one digit, leading zeros and all,
/// with a number that fits into 64 bits.
pub proof fn law_integer_forms(sign: Seq<char>, digits: Seq<char>)
    requires
        is_sign(sign),
        digits_only(digits),
        digits.len() > 0,
    ensures
        ({
            let n = if sign == seq!['-'] {
                -digits_value(digits)
            } else {
                digits_value(digits)
            };
            int64_value(sign + digits) == if -0x8000_0000_0000_0000 <= n <= 0x7fff_ffff_ffff_ffff {
                Some(n as i64)
            } else {
                None
            }
        }),
{
    assert('0' <= digits[0] <= '9');
    lemma_digits_only(digits);
    lemma_unsigned(sign, digits);
    let s = sign + digits;
    if sign == seq!['-'] {
        assert(s[0] == '-');
    } else if sign.len() == 0 {
        assert(s == digits);
        assert(seq!['-'].len() == 1);
    } else {
        assert(s[0] == '+');
        assert(seq!['-'][0] == '-');
        assert(sign[0] == '+');
    }
}

/// What is no sign and digits is no integer.
pub proof fn law_integer_only(s: Seq<char>) -> (parts: (Seq<char>, Seq<char>))
    requires
        int64_value(s) is Some,
    ensures
        s == parts.0 + parts.1,
        is_sign(parts.0),
        digits_only(parts.1),
        parts.1.len() > 0,
{
    let digits = unsigned(s);
    assert forall|i: int| 0 <= i < digits.len() implies '0' <= #[trigger] digits[i] <= '9' by {
        assert(is_digit(digits[i]));
    }
    if s[0] == '+' || s[0] == '-' {
        assert(s == seq![s[0]] + digits);
        (seq![s[0]], digits)
    } else {
        assert(s == Seq::<char>::empty() + digits);
        (Seq::empty(), digits)
    }
}

proof fn lemma_exponent(letter: Seq<char>, sign: Seq<char>, power: Seq<char>)
    requires
        letter == seq!['e'] || letter == seq!['E'],
        is_sign(sign),
        digits_only(power),
        power.len() > 0,
    ensures
        is_exponent(letter + sign + power),
{
    let s = letter + sign + power;
    assert(s[0] == letter[0]);
    assert(s.skip(1) == sign + power);
    assert('0' <= power[0] <= '9');
    lemma_unsigned(sign, power);
    lemma_digits_only(power);
}

/// Digits, then something that starts with no digit.
proof fn lemma_digits_then(digits: Seq<char>, s: Seq<char>)
    requires
        digits_only(digits),
        s.len() > 0 ==> !is_digit(s[0]),
    ensures
        digit_run(digits + s) == digits.len(),
        (digits + s).skip(digits.len() as int) == s,
{
    let t = digits + s;
    let k = digits.len() as int;
    assert forall|i: int| 0 <= i < k implies is_digit(#[trigger] t[i]) by {
        assert('0' <= digits[i] <= '9');
    }
    if k < t.len() {
        assert(t[k] == s[0]);
    }
    lemma_digit_run_unique(t, k);
    assert(t.skip(k) == s);
}

proof fn lemma_point_decimal(whole: Seq<char>, fraction: Seq<char>, power: Seq<char>)
    requires
        digits_only(whole),
        digits_only(fraction),
        whole.len() + fraction.len() > 0,
        is_exponent(power),
        power.len() > 0 ==> power[0] == 'e' || power[0] == 'E',
    ensures
        is_decimal(whole + (seq!['.'] + (fraction + power))),
{
    let u = fraction + power;
    let behind = seq!['.'] + u;
    lemma_digits_then(whole, behind);
    lemma_digits_then(fraction, power);
    let m = fraction.len() as int;
    assert(behind.skip(1) == u);
    assert(behind.skip(1 + m) == u.skip(m));
}

proof fn lemma_whole_decimal(whole: Seq<char>, power: Seq<char>)
    requires
        digits_only(whole),
        whole.len() > 0,
        is_exponent(power),
        power.len() > 0 ==> power[0] == 'e' || power[0] == 'E',
    ensures
        is_decimal(whole + power),
{
    lemma_digits_then(whole, power);
}

/// Every numeral writes a number, whatever its sign.
pub proof fn law_numerals_are_numbers(n: Numeral)
    requires
        n.valid(),
    ensures
        is_float(n.text()),
{
    let power = n.letter + n.power_sign + n.power;
    if n.letter.len() > 0 {
        lemma_exponent(n.letter, n.power_sign, n.power);
        assert(power[0] == n.letter[0]);
    } else {
        assert(power == Seq::<char>::empty());
    }
    let t = if n.point {
        n.whole + (seq!['.'] + (n.fraction + power))
    } else {
        n.whole + power
    };
    assert(n.text() == n.sign + t) by {
        if n.point {
            assert(n.text() =~= n.sign + t);
        } else {
            assert(n.fraction == Seq::<char>::empty());
            assert(n.text() =~= n.sign + t);
        }
    }
    if n.point {
        lemma_point_decimal(n.whole, n.fraction, power);
    } else {
        lemma_whole_decimal(n.whole, power);
    }
    assert(t[0] != '+' && t[0] != '-') by {
        if n.whole.len() > 0 {
            assert(t[0] == n.whole[0]);
            assert('0' <= n.whole[0] <= '9');
        } else {
            assert(t[0] == '.');
        }
    }
    lemma_unsigned(n.sign, t);
}

/// An infinity and what is no number count as numbers, in either case.
pub proof fn law_specials_are_numbers(sign: Seq<char>, word: Seq<char>)
    requires
        is_special(sign, word),
    ensures
        is_float(sign + word),
{
    assert(word[0] as int == 'i' as int || word[0] as int + 32 == 'i' as int || word[0] as int
        == 'n' as int || word[0] as int + 32 == 'n' as int);
    lemma_unsigned(sign, word);
    lemma_spells(word);
}

proof fn lemma_spells(word: Seq<char>)
    ensures
        spells(word, seq!['i', 'n', 'f']) <==> is_word(word, seq!['i', 'n', 'f']),
        spells(word, seq!['i', 'n', 'f', 'i', 'n', 'i', 't', 'y']) <==> is_word(
            word,
            seq!['i', 'n', 'f', 'i', 'n', 'i', 't', 'y'],
        ),
        spells(word, seq!['n', 'a', 'n']) <==> is_word(word, seq!['n', 'a', 'n']),
{
    lemma_spells_word(word, seq!['i', 'n', 'f']);
    lemma_spells_word(word, seq!['i', 'n', 'f', 'i', 'n', 'i', 't', 'y']);
    lemma_spells_word(word, seq!['n', 'a', 'n']);
}

proof fn lemma_spells_word(s: Seq<char>, w: Seq<char>)
    ensures
        spells(s, w) <==> is_word(s, w),
{
    if s.len() == w.len() {
        assert forall|i: int| 0 <= i < s.len() implies (#[trigger] s[i] as int == w[i] as int) == (
        s[i] == w[i]) by {
            lemma_char_code(s[i], w[i]);
        }
        if spells(s, w) {
            assert forall|i: int| 0 <= i < s.len() implies #[trigger] s[i] == w[i] || s[i] as int
                + 32 == w[i] as int by {
                assert(s[i] as int == w[i] as int || s[i] as int + 32 == w[i] as int);
            }
        }
        if is_word(s, w) {
            assert forall|i: int| 0 <= i < s.len() implies #[trigger] s[i] as int == w[i] as int
                || s[i] as int + 32 == w[i] as int by {
                assert(s[i] == w[i] || s[i] as int + 32 == w[i] as int);
            }
        }
    }
}

proof fn lemma_char_code(a: char, b: char)
    ensures
        (a as int == b as int) == (a == b),
{
}

/// The parts of an exponent.
proof fn lemma_exponent_parts(s: Seq<char>) -> (parts: (Seq<char>, Seq<char>))
    requires
        is_exponent(s),
        s.len() > 0,
    ensures
        s == seq![s[0]] + parts.0 + parts.1,
        s[0] == 'e' || s[0] == 'E',
        is_sign(parts.0),
        digits_only(parts.1),
        parts.1.len() > 0,
{
    let t = s.skip(1);
    let digits = unsigned(t);
    assert forall|i: int| 0 <= i < digits.len() implies '0' <= #[trigger] digits[i] <= '9' by {
        assert(is_digit(digits[i]));
    }
    if t[0] == '+' || t[0] == '-' {
        assert(s == seq![s[0]] + seq![t[0]] + digits);
        (seq![t[0]], digits)
    } else {
        assert(s == seq![s[0]] + Seq::<char>::empty() + digits);
        (Seq::empty(), digits)
    }
}

/// The digits at the start of a text.
proof fn lemma_run_digits(s: Seq<char>)
    ensures
        0 <= digit_run(s) <= s.len(),
        digits_only(s.take(digit_run(s))),
{
    lemma_digit_run(s);
    let n = digit_run(s);
    assert forall|i: int| 0 <= i < n implies '0' <= #[trigger] s.take(n)[i] <= '9' by {
        assert(is_digit(s[i]));
    }
}

/// A numeral of parts is its sign, what stands before the exponent, and the
/// exponent.
proof fn lemma_numeral_text(n: Numeral, mantissa: Seq<char>, exponent: Seq<char>)
    requires
        mantissa == n.whole + (if n.point {
            seq!['.']
        } else {
            Seq::empty()
        }) + n.fraction,
        exponent == n.letter + n.power_sign + n.power,
    ensures
        n.text() == n.sign + (mantissa + exponent),
{
    assert(n.text() =~= n.sign + (mantissa + exponent));
}

/// The exponent of a numeral, or none.
proof fn lemma_with_exponent(
    sign: Seq<char>,
    whole: Seq<char>,
    point: bool,
    fraction: Seq<char>,
    exponent: Seq<char>,
) -> (n: Numeral)
    requires
        is_sign(sign),
        digits_only(whole),
        digits_only(fraction),
        whole.len() + fraction.len() > 0,
        !point ==> fraction.len() == 0,
        is_exponent(exponent),
    ensures
        n.valid(),
        n.text() == sign + ((whole + (if point {
            seq!['.']
        } else {
            Seq::empty()
        }) + fraction) + exponent),
{
    let mantissa = whole + (if point {
        seq!['.']
    } else {
        Seq::empty()
    }) + fraction;
    let none = Seq::<char>::empty();
    if exponent.len() > 0 {
        let (power_sign, power) = lemma_exponent_parts(exponent);
        let letter = seq![exponent[0]];
        let n = Numeral { sign, whole, point, fraction, letter, power_sign, power };
        lemma_numeral_text(n, mantissa, exponent);
        n
    } else {
        let n = Numeral {
            sign,
            whole,
            point,
            fraction,
            letter: none,
            power_sign: none,
            power: none,
        };
        assert(exponent == none + none + none);
        lemma_numeral_text(n, mantissa, exponent);
        assert(seq!['e'].len() == 1 && seq!['E'].len() == 1);
        n
    }
}

/// The parts of a decimal numeral behind a sign.
proof fn lemma_decimal_parts(sign: Seq<char>, t: Seq<char>) -> (n: Numeral)
    requires
        is_sign(sign),
        is_decimal(t),
    ensures
        n.valid(),
        n.text() == sign + t,
{
    let k = digit_run(t);
    lemma_run_digits(t);
    let whole = t.take(k);
    let behind = t.skip(k);
    if behind.len() > 0 && behind[0] == '.' {
        let u = behind.skip(1);
        let m = digit_run(u);
        lemma_run_digits(u);
        let fraction = u.take(m);
        let exponent = behind.skip(1 + m);
        assert(t == (whole + seq!['.'] + fraction) + exponent);
        lemma_with_exponent(sign, whole, true, fraction, exponent)
    } else {
        let none = Seq::<char>::empty();
        assert(t == (whole + none + none) + behind);
        lemma_with_exponent(sign, whole, false, none, behind)
    }
}

/// What is neither a numeral nor a special word writes no number.
pub proof fn law_numbers_only(s: Seq<char>)
    requires
        is_float(s),
    ensures
        (exists|n: Numeral| #[trigger] n.valid() && n.text() == s) || (exists|
            sign: Seq<char>,
            word: Seq<char>,
        | #[trigger]
            is_special(sign, word) && s == sign + word),
{
    let t = unsigned(s);
    let sign = if s.len() > 0 && (s[0] == '+' || s[0] == '-') {
        seq![s[0]]
    } else {
        Seq::<char>::empty()
    };
    assert(s == sign + t);
    if is_decimal(t) {
        let n = lemma_decimal_parts(sign, t);
        assert(n.valid() && n.text() == s);
    } else {
        lemma_spells(t);
        assert(is_special(sign, t));
    }
}

proof fn lemma_numeral_ends(n: Numeral)
    requires
        n.valid(),
    ensures
        n.text().len() > 0,
        !is_white(n.text()[0]),
        !is_white(n.text().last()),
{
    let s = n.text();
    let first = s[0];
    assert('!' <= first <= '~') by {
        if n.sign.len() > 0 {
            assert(first == n.sign[0]);
        } else if n.whole.len() > 0 {
            assert(first == n.whole[0]);
        } else {
            assert(first == '.');
        }
    }
    let last = s.last();
    assert('!' <= last <= '~') by {
        if n.power.len() > 0 {
            assert(last == n.power[n.power.len() - 1]);
        } else if n.fraction.len() > 0 {
            assert(last == n.fraction[n.fraction.len() - 1]);
        } else if n.point {
            assert(last == '.');
        } else {
            assert(last == n.whole[n.whole.len() - 1]);
        }
    }
}

/// A number that is written into a column of numbers is read back as it was
/// written, sign and all, with white space around it or none.
pub proof fn law_number_is_kept(before: Seq<char>, n: Numeral, behind: Seq<char>)
    requires
        all_white(before),
        all_white(behind),
        n.valid(),
    ensures
        cell_of(ColTypeView::Float64, before + n.text() + behind) == Some(
            Cell::Numeral(n.text()),
        ),
{
    law_numerals_are_numbers(n);
    lemma_numeral_ends(n);
    law_trimming(before, n.text(), behind);
}

/// A cell of a column of numbers that is no null holds the field without the
/// white space around it, and that is a numeral or a special word. A null
/// stands only for a field that is neither.
pub proof fn law_number_or_null(value: Seq<char>)
    ensures
        cell_of(ColTypeView::Float64, value) matches Some(c) ==> {
            &&& c == Cell::Numeral(trimmed(value))
            &&& {
                ||| exists|n: Numeral| #[trigger] n.valid() && n.text() == trimmed(value)
                ||| exists|sign: Seq<char>, word: Seq<char>| #[trigger]
                    is_special(sign, word) && trimmed(value) == sign + word
            }
        },
        cell_of(ColTypeView::Float64, value) is None ==> {
            &&& forall|n: Numeral| #[trigger] n.valid() ==> n.text() != trimmed(value)
            &&& forall|sign: Seq<char>, word: Seq<char>| #[trigger]
                is_special(sign, word) ==> trimmed(value) != sign + word
        },
{
    let inner = trimmed(value);
    if is_float(inner) {
        law_numbers_only(inner);
    } else {
        assert forall|n: Numeral| #[trigger] n.valid() implies n.text() != inner by {
            law_numerals_are_numbers(n);
        }
        assert forall|sign: Seq<char>, word: Seq<char>| #[trigger]
            is_special(sign, word) implies inner != sign + word by {
            law_specials_are_numbers(sign, word);
        }
    }
}

/// An integer that is written into a column of integers is read back, with
/// white space around it or none, and so is one with a plus or with zeros in
/// front; one that does not fit into 64 bits is null.
pub proof fn law_integer_is_kept(
    before: Seq<char>,
    sign: Seq<char>,
    digits: Seq<char>,
    behind: Seq<char>,
    n: i64,
)
    requires
        all_white(before),
        all_white(behind),
        is_sign(sign),
        digits_only(digits),
        digits.len() > 0,
    ensures
        cell_of(ColTypeView::Int64, before + written_integer(n as int) + behind) == Some(
            Cell::Integer(n),
        ),
        ({
            let v = if sign == seq!['-'] {
                -digits_value(digits)
            } else {
                digits_value(digits)
            };
            cell_of(ColTypeView::Int64, before + (sign + digits) + behind) == if i64::MIN <= v
                <= i64::MAX {
                Some(Cell::Integer(v as i64))
            } else {
                None
            }
        }),
{
    law_integer_round_trip(n);
    let s = written_integer(n as int);
    let (a, b) = law_integer_only(s);
    lemma_signed_ends(a, b);
    law_trimming(before, s, behind);
    law_integer_forms(sign, digits);
    lemma_signed_ends(sign, digits);
    law_trimming(before, sign + digits, behind);
}

proof fn lemma_signed_ends(sign: Seq<char>, digits: Seq<char>)
    requires
        is_sign(sign),
        digits_only(digits),
        digits.len() > 0,
    ensures
        !is_white((sign + digits)[0]),
        !is_white((sign + digits).last()),
{
    let s = sign + digits;
    assert('0' <= digits[0] <= '9');
    assert('0' <= digits[digits.len() - 1] <= '9');
    assert(s.last() == digits[digits.len() - 1]);
    if sign.len() > 0 {
        assert(s[0] == sign[0]);
    } else {
        assert(s[0] == digits[0]);
    }
}

/// A cell of a column of integers that is no null comes from a sign or none
/// and digits.
pub proof fn law_integer_or_null(value: Seq<char>)
    requires
        cell_of(ColTypeView::Int64, value) is Some,
    ensures
        exists|sign: Seq<char>, digits: Seq<char>|
            trimmed(value) == #[trigger] (sign + digits) && is_sign(sign) && digits_only(digits)
                && digits.len() > 0,
{
    let (sign, digits) = law_integer_only(trimmed(value));
    assert(trimmed(value) == sign + digits);
}

/// A text is kept as it is, and only an empty one is null.
pub proof fn law_text_is_kept(value: Seq<char>)
    ensures
        value.len() == 0 ==> cell_of(ColTypeView::Str, value) is None,
        value.len() > 0 ==> cell_of(ColTypeView::Str, value) == Some(Cell::Text(value)),
{
}

/// A field of nothing but white space is null in a column of numbers or dates.
pub proof fn law_blank_is_null(value: Seq<char>, format: Seq<char>)
    requires
        all_white(value),
    ensures
        cell_of(ColTypeView::Float64, value) is None,
        cell_of(ColTypeView::Int64, value) is None,
        cell_of(ColTypeView::Date(format), value) is None,
{
    lemma_trimmed_empty(value);
    let inner = trimmed(value);
    assert(inner == Seq::<char>::empty());
    assert(unsigned(inner) == inner);
    assert(!is_float(inner));
}

/// The cells of a column are those of its fields, one for each.
pub proof fn law_cell_for_each_field(t: ColTypeView, values: Seq<Seq<char>>, i: int)
    requires
        0 <= i < values.len(),
    ensures
        cells_of(t, values).len() == values.len(),
        cells_of(t, values)[i] == cell_of(t, values[i]),
{
}

proof fn lemma_two_of_value(s: Seq<char>) -> (n: int)
    requires
        s.len() == 2,
        all_digits(s),
    ensures
        0 <= n < 100,
        digits_value(s) == n,
        s == two_digits(n),
{
    assert(is_digit(s[0]) && is_digit(s[1]));
    let n = 10 * (s[0] as int - '0' as int) + (s[1] as int - '0' as int);
    lemma_two_digits(n);
    assert(n / 10 == s[0] as int - '0' as int && n % 10 == s[1] as int - '0' as int);
    lemma_char_code(two_digits(n)[0], s[0]);
    lemma_char_code(two_digits(n)[1], s[1]);
    assert(s == two_digits(n));
    lemma_value_of_two(s, n);
    n
}

proof fn lemma_four_of_value(s: Seq<char>) -> (n: int)
    requires
        s.len() == 4,
        all_digits(s),
    ensures
        0 <= n < 10000,
        digits_value(s) == n,
        s == two_digits(n / 100) + two_digits(n % 100),
{
    let a = s.take(2);
    let b = s.skip(2);
    assert forall|i: int| 0 <= i < 2 implies is_digit(#[trigger] a[i]) by {
        assert(is_digit(s[i]));
    }
    assert forall|i: int| 0 <= i < 2 implies is_digit(#[trigger] b[i]) by {
        assert(is_digit(s[i + 2]));
    }
    let x = lemma_two_of_value(a);
    let y = lemma_two_of_value(b);
    let n = 100 * x + y;
    assert(n / 100 == x && n % 100 == y);
    assert(s == a + b);
    lemma_value_of_four(s, n);
    n
}

/// A date of the two built-in formats is four digits of a year, two of a month
/// from 1 to 12 and two of a day from 1 to 31, with hyphens between them or
/// without; its number is that of its day.
pub proof fn law_dates_only(s: Seq<char>, hyphens: bool) -> (date: (int, int, int))
    requires
        date_days(
            s,
            if hyphens {
                DateFormatView::Ymd
            } else {
                DateFormatView::Ymd8
            },
        ) is Some,
    ensures
        ({
            let (y, m, d) = date;
            &&& 0 <= y <= 9999
            &&& 1 <= m <= 12
            &&& 1 <= d <= 31
            &&& s == written_date(
                y,
                m,
                d,
                if hyphens {
                    seq!['-']
                } else {
                    Seq::empty()
                },
            )
        }),
{
    let at = if hyphens {
        (5int, 8int)
    } else {
        (4int, 6int)
    };
    let y = lemma_four_of_value(s.subrange(0, 4));
    let m = lemma_two_of_value(s.subrange(at.0, at.0 + 2));
    let d = lemma_two_of_value(s.subrange(at.1, at.1 + 2));
    let between = if hyphens {
        seq!['-']
    } else {
        Seq::<char>::empty()
    };
    let w = written_date(y, m, d, between);
    assert(s == w) by {
        let year = s.subrange(0, 4);
        let month = s.subrange(at.0, at.0 + 2);
        let day = s.subrange(at.1, at.1 + 2);
        assert(w == year + between + month + between + day);
        assert(s =~= year + between + month + between + day);
    }
    (y, m, d)
}

/// The two built-in formats are told by their texts, and any other goes to
/// chrono as it is.
pub proof fn law_date_formats(format: Seq<char>)
    ensures
        date_format(seq!['%', 'Y', '-', '%', 'm', '-', '%', 'd']) == DateFormatView::Ymd,
        date_format(seq!['%', 'Y', '%', 'm', '%', 'd']) == DateFormatView::Ymd8,
        format != seq!['%', 'Y', '-', '%', 'm', '-', '%', 'd'] && format != seq![
            '%',
            'Y',
            '%',
            'm',
            '%',
            'd',
        ] ==> date_format(format) == DateFormatView::Other(format),
{
    reveal_strlit("%Y-%m-%d");
    reveal_strlit("%Y%m%d");
    assert("%Y-%m-%d"@ =~= seq!['%', 'Y', '-', '%', 'm', '-', '%', 'd']);
    assert("%Y%m%d"@ =~= seq!['%', 'Y', '%', 'm', '%', 'd']);
}

proof fn lemma_date_ends(y: int, m: int, d: int, between: Seq<char>)
    requires
        0 <= y <= 9999,
        1 <= m <= 12,
        1 <= d <= 31,
    ensures
        written_date(y, m, d, between).len() > 0,
        !is_white(written_date(y, m, d, between)[0]),
        !is_white(written_date(y, m, d, between).last()),
{
    lemma_two_digits(y / 100);
    lemma_two_digits(d);
    let s = written_date(y, m, d, between);
    assert(s[0] == two_digits(y / 100)[0]);
    assert(s.last() == two_digits(d)[1]);
}

/// A date that is written into a column of dates is read back as its day, with
/// white space around it or none.
pub proof fn law_date_is_kept(before: Seq<char>, y: int, m: int, d: int, behind: Seq<char>)
    requires
        all_white(before),
        all_white(behind),
        0 <= y <= 9999,
        1 <= m <= 12,
        1 <= d <= 31,
    ensures
        cell_of(
            ColTypeView::Date(seq!['%', 'Y', '-', '%', 'm', '-', '%', 'd']),
            before + written_date(y, m, d, seq!['-']) + behind,
        ) == Some(Cell::Day(civil_days(y, m, d) as i32)),
        cell_of(
            ColTypeView::Date(seq!['%', 'Y', '%', 'm', '%', 'd']),
            before + written_date(y, m, d, Seq::empty()) + behind,
        ) == Some(Cell::Day(civil_days(y, m, d) as i32)),
{
    law_date_formats(Seq::empty());
    law_date_round_trip(y, m, d);
    lemma_date_ends(y, m, d, seq!['-']);
    lemma_date_ends(y, m, d, Seq::empty());
    law_trimming(before, written_date(y, m, d, seq!['-']), behind);
    law_trimming(before, written_date(y, m, d, Seq::empty()), behind);
}

/// In a column of dates of another format a field holds the day that chrono
/// makes of it without the white space around it, and is null where chrono
/// makes none.
pub proof fn law_other_dates(before: Seq<char>, s: Seq<char>, behind: Seq<char>, format: Seq<char>)
    requires
        all_white(before),
        all_white(behind),
        s.len() > 0,
        !is_white(s[0]),
        !is_white(s.last()),
        format != seq!['%', 'Y', '-', '%', 'm', '-', '%', 'd'],
        format != seq!['%', 'Y', '%', 'm', '%', 'd'],
    ensures
        cell_of(ColTypeView::Date(format), before + s + behind) == match chrono_date(s, format) {
            Some(days) => Some(Cell::Day(days)),
            None => None,
        },
{
    law_date_formats(format);
    law_trimming(before, s, behind);
}

} // verus!
