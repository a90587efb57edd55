//! A quote-aware scanner of CSV records.
//!
//! Separators are found by `memchr`, plain fields are borrowed from the text,
//! and only a quoted field is copied into a buffer. The quoting rules:
//!   - `"a,b"` is `a,b`: a comma inside quotes does not split;
//!   - `"a""b"` is `a"b`: a doubled quote is one quote;
//!   - `"a"b"c"` is `a"b"c`: a quote that no separator follows is a literal
//!     quote;
//!   - a line break inside quotes does not end the record.
//!
//! A quote is special only where a field opens with it: in the middle of a
//! plain field it is a character like any other. With `quoting` off it is one
//! everywhere.

use vstd::prelude::*;
use vstd::utf8::encode_utf8;

use crate::text::{
    all_white, behind_head, cut_at, cut_at_either, first_of, head, is_white, lemma_encode_len,
    lemma_first_of, lemma_first_of_unique, lemma_trimmed_empty, lemma_trimmed_idempotent, nothing,
    strip_last, texts, trim, trimmed, without_last,
};

verus! {

const TAB: u8 = 0x09;

const LINE_FEED: u8 = 0x0a;

const CARRIAGE_RETURN: u8 = 0x0d;

const SPACE: u8 = 0x20;

const QUOTE: u8 = 0x22;

const COMMA: u8 = 0x2c;

/// The outcome of scanning one field: its text before trimming, the text
/// behind it and its separator, and whether it ends its record.
#[verifier::ext_equal]
pub struct FieldScan {
    pub value: Seq<char>,
    pub rest: Seq<char>,
    pub last: bool,
}

/// What a scanner has still to read, and how it reads it.
#[verifier::ext_equal]
pub struct ScannerView {
    pub rest: Seq<char>,
    pub quoting: bool,
    pub trim: bool,
}

/// `s` behind its first line break, nothing where it has none.
pub open spec fn behind_line(s: Seq<char>) -> Seq<char> {
    let k = first_of(s, '\n', '\n');
    if k < s.len() {
        s.skip(k + 1)
    } else {
        Seq::empty()
    }
}

/// `s` without its first `n` physical lines.
pub open spec fn behind_lines(s: Seq<char>, n: nat) -> Seq<char>
    decreases n,
{
    if n == 0 {
        s
    } else {
        behind_lines(behind_line(s), (n - 1) as nat)
    }
}

/// The first line of `s`, with its line break where it has one.
pub open spec fn first_line(s: Seq<char>) -> Seq<char> {
    s.take(s.len() - behind_line(s).len())
}

/// Whether `s` starts with a blank line: one that holds nothing but white
/// space.
pub open spec fn starts_blank(s: Seq<char>) -> bool {
    s.len() > 0 && all_white(first_line(s))
}

/// `s` without the blank lines at its start.
pub open spec fn behind_blank_lines(s: Seq<char>) -> Seq<char>
    decreases s.len(),
    via behind_blank_lines_terminates
{
    if starts_blank(s) {
        behind_blank_lines(behind_line(s))
    } else {
        s
    }
}

#[via_fn]
proof fn behind_blank_lines_terminates(s: Seq<char>) {
    lemma_first_of(s, '\n', '\n');
}

/// `s` without the spaces and tabs at its start.
pub open spec fn behind_blanks(s: Seq<char>) -> Seq<char>
    decreases s.len(),
{
    if s.len() > 0 && (s[0] == ' ' || s[0] == '\t') {
        behind_blanks(s.drop_first())
    } else {
        s
    }
}

/// Whether a quote that stands right before `s` closes its field: behind any
/// spaces and tabs, and a carriage return or none, comes a comma, a line break
/// or the end.
pub open spec fn closes(s: Seq<char>) -> bool {
    let t = behind_blanks(s);
    ||| t.len() == 0
    ||| t[0] == ','
    ||| t[0] == '\n'
    ||| t[0] == '\r' && (t.len() == 1 || t[1] == ',' || t[1] == '\n')
}

/// The end of a quoted field whose closing quote stands right before `s`: the
/// separator is passed over, with a carriage return that belongs to it, and
/// the record ends there unless it is a comma.
pub open spec fn closed_field(s: Seq<char>) -> FieldScan {
    let t = behind_blanks(s);
    let u = if t.len() > 0 && t[0] == '\r' {
        t.drop_first()
    } else {
        t
    };
    FieldScan {
        value: Seq::empty(),
        rest: if u.len() == 0 {
            u
        } else {
            u.drop_first()
        },
        last: u.len() == 0 || u[0] == '\n',
    }
}

/// `f` with `c` before its text.
pub open spec fn with_char(c: char, f: FieldScan) -> FieldScan {
    FieldScan { value: seq![c] + f.value, rest: f.rest, last: f.last }
}

/// The quoted field that continues with `s`, its opening quote read: a
/// doubled quote is one quote, a quote that closes ends the field, and every
/// other character stands for itself. A field that nothing closes reaches to
/// the end.
pub open spec fn quoted_field(s: Seq<char>) -> FieldScan
    decreases s.len(),
{
    if s.len() == 0 {
        FieldScan { value: s, rest: s, last: true }
    } else if s[0] != '"' {
        with_char(s[0], quoted_field(s.drop_first()))
    } else if s.len() > 1 && s[1] == '"' {
        with_char('"', quoted_field(s.skip(2)))
    } else if closes(s.drop_first()) {
        closed_field(s.drop_first())
    } else {
        with_char('"', quoted_field(s.drop_first()))
    }
}

/// The unquoted field at the start of `s`: it reaches to the next comma or
/// line break, and a carriage return right before the line break is not part
/// of it.
pub open spec fn plain_field(s: Seq<char>) -> FieldScan {
    let k = first_of(s, ',', '\n');
    if k == s.len() {
        FieldScan { value: s, rest: Seq::empty(), last: true }
    } else if s[k] == '\n' {
        FieldScan { value: without_last(s.take(k), '\r'), rest: s.skip(k + 1), last: true }
    } else {
        FieldScan { value: s.take(k), rest: s.skip(k + 1), last: false }
    }
}

/// Whether the field at the start of `s` is a quoted one.
pub open spec fn opens_quoted(s: Seq<char>, quoting: bool) -> bool {
    quoting && s.len() > 0 && s[0] == '"'
}

/// The field at the start of `s`.
pub open spec fn field(s: Seq<char>, quoting: bool) -> FieldScan {
    if opens_quoted(s, quoting) {
        quoted_field(s.drop_first())
    } else {
        plain_field(s)
    }
}

/// The fields of the record at the start of `s`.
pub open spec fn record(s: Seq<char>, quoting: bool) -> Seq<FieldScan>
    decreases s.len(),
    via record_terminates
{
    let f = field(s, quoting);
    if f.last {
        seq![f]
    } else {
        seq![f] + record(f.rest, quoting)
    }
}

/// `s` behind the rest of its record.
pub open spec fn behind_record(s: Seq<char>, quoting: bool) -> Seq<char> {
    record(s, quoting).last().rest
}

proof fn lemma_behind_blanks(s: Seq<char>)
    ensures
        behind_blanks(s).len() <= s.len(),
    decreases s.len(),
{
    if s.len() > 0 {
        lemma_behind_blanks(s.drop_first());
    }
}

proof fn lemma_quoted_field_rest(s: Seq<char>)
    ensures
        quoted_field(s).rest.len() <= s.len(),
    decreases s.len(),
{
    if s.len() > 0 {
        lemma_behind_blanks(s.drop_first());
        lemma_quoted_field_rest(s.drop_first());
        if s.len() > 1 {
            lemma_quoted_field_rest(s.skip(2));
        }
    }
}

/// Scanning a field of a text that is not empty takes something off it, and
/// only the last field of a record can be scanned off an empty text.
pub proof fn lemma_field_rest(s: Seq<char>, quoting: bool)
    ensures
        field(s, quoting).rest.len() <= s.len(),
        s.len() > 0 ==> field(s, quoting).rest.len() < s.len(),
        s.len() == 0 ==> field(s, quoting).last,
{
    lemma_first_of(s, ',', '\n');
    if s.len() > 0 {
        lemma_quoted_field_rest(s.drop_first());
    }
}

#[via_fn]
proof fn record_terminates(s: Seq<char>, quoting: bool) {
    lemma_field_rest(s, quoting);
}

proof fn lemma_behind_empty(n: nat)
    ensures
        behind_lines(Seq::empty(), n) == Seq::<char>::empty(),
    decreases n,
{
    if n > 0 {
        lemma_behind_empty((n - 1) as nat);
    }
}

/// `f` with `text` before its text.
pub open spec fn with_text(text: Seq<char>, f: FieldScan) -> FieldScan {
    FieldScan { value: text + f.value, rest: f.rest, last: f.last }
}

/// Characters before the next quote stand for themselves.
proof fn lemma_quoted_field_run(s: Seq<char>)
    ensures
        ({
            let k = first_of(s, '"', '"');
            &&& 0 <= k <= s.len()
            &&& quoted_field(s) == with_text(s.take(k), quoted_field(s.skip(k)))
        }),
    decreases s.len(),
{
    lemma_first_of(s, '"', '"');
    let k = first_of(s, '"', '"');
    if k == 0 {
        assert(s.skip(0) == s);
        assert(s.take(0) + quoted_field(s).value == quoted_field(s).value);
    } else {
        let t = s.drop_first();
        lemma_quoted_field_run(t);
        assert(t.skip(k - 1) == s.skip(k));
        assert(seq![s[0]] + (t.take(k - 1) + quoted_field(s.skip(k)).value) == s.take(k)
            + quoted_field(s.skip(k)).value);
    }
}

/// The text of a field as it is handed out: trimmed where the scanner trims.
pub open spec fn field_text(value: Seq<char>, trim: bool) -> Seq<char> {
    if trim {
        trimmed(value)
    } else {
        value
    }
}

/// The text of a field: a piece of the scanned text, or a copy where quotes
/// had to be read.
pub enum FieldValue<'a> {
    Borrowed(&'a str),
    Buffered(String),
}

impl<'a> FieldValue<'a> {
    /// The text of the field.
    pub open spec fn text(&self) -> Seq<char> {
        match self {
            FieldValue::Borrowed(s) => s@,
            FieldValue::Buffered(s) => s@,
        }
    }

    /// The text of the field.
    pub fn as_str(&self) -> (r: &str)
        ensures
            r@ == self.text(),
    {
        match self {
            FieldValue::Borrowed(s) => s,
            FieldValue::Buffered(s) => s.as_str(),
        }
    }
}

/// A scanner of the records of a CSV text.
pub struct Scanner<'a> {
    rest: &'a str,
    quoting: bool,
    trim: bool,
}

impl<'a> View for Scanner<'a> {
    type V = ScannerView;

    closed spec fn view(&self) -> ScannerView {
        ScannerView { rest: self.rest@, quoting: self.quoting, trim: self.trim }
    }
}

impl<'a> Scanner<'a> {
    /// Starts to scan `text` behind its first `skip_rows` physical lines.
    pub fn new(text: &'a str, skip_rows: usize, quoting: bool, trim: bool) -> (r: Self)
        ensures
            r@ == (ScannerView { rest: behind_lines(text@, skip_rows as nat), quoting, trim }),
    {
        let mut rest: &'a str = text;
        let mut left: usize = skip_rows;
        while left > 0
            invariant
                behind_lines(rest@, left as nat) == behind_lines(text@, skip_rows as nat),
            decreases left,
        {
            match cut_at(rest, LINE_FEED) {
                Some((_, after)) => {
                    rest = after;
                    left = left - 1;
                },
                None => {
                    proof {
                        lemma_first_of(rest@, '\n', '\n');
                        lemma_behind_empty((left - 1) as nat);
                    }
                    rest = nothing();
                    left = 0;
                },
            }
        }
        Scanner { rest, quoting, trim }
    }

    /// The number of bytes that are left, at least one for each character.
    pub fn byte_len(&self) -> (r: usize)
        ensures
            r == encode_utf8(self@.rest).len(),
            self@.rest.len() <= r,
    {
        proof {
            lemma_encode_len(self.rest@);
        }
        self.rest.as_bytes().len()
    }

    /// Passes over blank lines; `false` when nothing is left.
    pub fn skip_blank_lines(&mut self) -> (r: bool)
        ensures
            final(self)@ == (ScannerView {
                rest: behind_blank_lines(old(self)@.rest),
                ..old(self)@
            }),
            r == (final(self)@.rest.len() > 0),
    {
        loop
            invariant
                behind_blank_lines(self@.rest) == behind_blank_lines(old(self)@.rest),
                self.quoting == old(self).quoting,
                self.trim == old(self).trim,
            decreases self@.rest.len(),
        {
            let ghost s = self.rest@;
            proof {
                lemma_first_of(s, '\n', '\n');
            }
            let c: u8 = match head(self.rest) {
                None => {
                    return false;
                },
                Some(c) => c,
            };
            assert(first_line(s)[0] == s[0]);
            if c < 0x80 && c != SPACE && !(TAB <= c && c <= CARRIAGE_RETURN) {
                return true;
            }
            match cut_at(self.rest, LINE_FEED) {
                Some((line, after)) => {
                    let white = trim(line).is_empty();
                    proof {
                        lemma_trimmed_empty(line@);
                        let k = first_of(s, '\n', '\n');
                        assert(first_line(s) == line@.push('\n'));
                        assert(all_white(line@) ==> all_white(first_line(s)));
                        if all_white(first_line(s)) {
                            assert forall|i: int| 0 <= i < line@.len() implies is_white(
                                #[trigger] line@[i],
                            ) by {
                                assert(line@[i] == first_line(s)[i]);
                            }
                        }
                    }
                    if white {
                        self.rest = after;
                    } else {
                        return true;
                    }
                },
                None => {
                    let white = trim(self.rest).is_empty();
                    proof {
                        lemma_trimmed_empty(s);
                        assert(first_line(s) == s);
                    }
                    if white {
                        self.rest = nothing();
                    } else {
                        return true;
                    }
                },
            }
        }
    }

    /// Moves behind the rest of the record, past line breaks inside quoted
    /// fields.
    pub fn skip_to_eol(&mut self)
        ensures
            final(self)@ == (ScannerView {
                rest: behind_record(old(self)@.rest, old(self)@.quoting),
                ..old(self)@
            }),
    {
        if !self.quoting {
            proof {
                lemma_plain_record(self.rest@);
                lemma_first_of(self.rest@, '\n', '\n');
            }
            match cut_at(self.rest, LINE_FEED) {
                Some((_, after)) => {
                    self.rest = after;
                },
                None => {
                    self.rest = nothing();
                },
            }
            return;
        }
        loop
            invariant
                self.quoting == old(self).quoting,
                self.trim == old(self).trim,
                behind_record(self.rest@, self.quoting) == behind_record(
                    old(self).rest@,
                    self.quoting,
                ),
            decreases self.rest@.len(),
        {
            proof {
                lemma_field_rest(self.rest@, self.quoting);
                lemma_record_len(field(self.rest@, self.quoting).rest, self.quoting);
            }
            let (_, last) = self.scan_field();
            if last {
                return;
            }
        }
    }

    /// The quoted field whose opening quote has just been read.
    fn scan_quoted_field(&mut self) -> (r: (FieldValue<'a>, bool))
        ensures
            ({
                let f = quoted_field(old(self)@.rest);
                &&& r.0 is Buffered
                &&& r.0.text() == field_text(f.value, old(self)@.trim)
                &&& r.1 == f.last
                &&& final(self)@ == (ScannerView { rest: f.rest, ..old(self)@ })
            }),
    {
        let mut buf = String::new();
        loop
            invariant
                self.quoting == old(self).quoting,
                self.trim == old(self).trim,
                quoted_field(old(self).rest@) == with_text(buf@, quoted_field(self.rest@)),
            decreases self.rest@.len(),
        {
            let ghost s = self.rest@;
            let ghost before = buf@;
            let ghost whole = quoted_field(old(self).rest@);
            proof {
                lemma_first_of(s, '"', '"');
                lemma_quoted_field_run(s);
            }
            match cut_at(self.rest, QUOTE) {
                None => {
                    buf.append(self.rest);
                    proof {
                        assert(s.take(s.len() as int) == s);
                        assert(s.skip(s.len() as int) == Seq::<char>::empty());
                        assert(before + (s + Seq::<char>::empty()) == buf@);
                    }
                    self.rest = nothing();
                    return (Self::finish_quoted(buf, self.trim), true);
                },
                Some((run, after)) => {
                    let ghost k = first_of(s, '"', '"');
                    buf.append(run);
                    proof {
                        assert(s.skip(k)[0] == '"');
                        assert(s.skip(k).drop_first() == s.skip(k + 1));
                        assert(whole == with_text(buf@, quoted_field(s.skip(k)))) by {
                            assert(before + (s.take(k) + quoted_field(s.skip(k)).value) == buf@
                                + quoted_field(s.skip(k)).value);
                        }
                        reveal_strlit("\"");
                        assert("\""@ == seq!['"']);
                    }
                    if head(after) == Some(QUOTE) {
                        let ghost mid = buf@;
                        buf.append("\"");
                        proof {
                            assert(s.skip(k)[1] == after@[0]);
                            assert(s.skip(k).skip(2) == after@.skip(1));
                            assert(mid + (seq!['"'] + quoted_field(after@.skip(1)).value) == buf@
                                + quoted_field(after@.skip(1)).value);
                        }
                        self.rest = behind_head(after);
                        continue;
                    }
                    proof {
                        if after@.len() > 0 {
                            assert(s.skip(k)[1] == after@[0]);
                        }
                    }
                    match Self::scan_closing(after) {
                        Some((rest, last)) => {
                            proof {
                                assert(buf@ + Seq::<char>::empty() == buf@);
                            }
                            self.rest = rest;
                            return (Self::finish_quoted(buf, self.trim), last);
                        },
                        None => {
                            let ghost mid = buf@;
                            buf.append("\"");
                            proof {
                                assert(mid + (seq!['"'] + quoted_field(after@).value) == buf@
                                    + quoted_field(after@).value);
                            }
                            self.rest = after;
                        },
                    }
                },
            }
        }
    }

    /// The text behind the end of a quoted field, and whether the record ends
    /// with it, where the quote that stands right before `s` closes it.
    fn scan_closing(s: &'a str) -> (r: Option<(&'a str, bool)>)
        ensures
            r is Some <==> closes(s@),
            r matches Some((rest, last)) ==> rest@ == closed_field(s@).rest && last
                == closed_field(s@).last,
    {
        let mut t: &'a str = s;
        loop
            invariant
                behind_blanks(t@) == behind_blanks(s@),
            decreases t@.len(),
        {
            match head(t) {
                None => {
                    return Some((t, true));
                },
                Some(c) => {
                    proof {
                        assert(t@.drop_first() == t@.skip(1));
                    }
                    if c == SPACE || c == TAB {
                        t = behind_head(t);
                    } else if c == COMMA || c == LINE_FEED {
                        return Some((behind_head(t), c == LINE_FEED));
                    } else if c == CARRIAGE_RETURN {
                        let u: &'a str = behind_head(t);
                        return match head(u) {
                            None => Some((u, true)),
                            Some(found) => {
                                proof {
                                    assert(u@.drop_first() == u@.skip(1));
                                    assert(t@[1] == u@[0]);
                                }
                                if found == COMMA || found == LINE_FEED {
                                    Some((behind_head(u), found == LINE_FEED))
                                } else {
                                    None
                                }
                            },
                        };
                    } else {
                        return None;
                    }
                },
            }
        }
    }

    /// The buffered text of a quoted field, trimmed where `trims` says so.
    pub fn finish_quoted(buf: String, trims: bool) -> (r: FieldValue<'a>)
        ensures
            r is Buffered,
            r.text() == field_text(buf@, trims),
            field_text(r.text(), trims) == r.text(),
    {
        proof {
            lemma_trimmed_idempotent(buf@);
        }
        if trims {
            FieldValue::Buffered(trim(buf.as_str()).to_string())
        } else {
            FieldValue::Buffered(buf)
        }
    }

    /// The text of an unquoted field, borrowed from the scanned text and
    /// trimmed where the scanner trims.
    pub fn plain_field(&self, value: &'a str) -> (r: FieldValue<'a>)
        ensures
            r is Borrowed,
            r.text() == field_text(value@, self@.trim),
    {
        if self.trim {
            FieldValue::Borrowed(trim(value))
        } else {
            FieldValue::Borrowed(value)
        }
    }

    /// Scans one field: its text, and whether it is the last of its record. A
    /// plain field is borrowed from the scanned text; only one that opens with
    /// a quote is copied.
    pub fn scan_field(&mut self) -> (r: (FieldValue<'a>, bool))
        ensures
            ({
                let f = field(old(self)@.rest, old(self)@.quoting);
                &&& r.0 is Buffered <==> opens_quoted(old(self)@.rest, old(self)@.quoting)
                &&& r.0.text() == field_text(f.value, old(self)@.trim)
                &&& r.1 == f.last
                &&& final(self)@ == (ScannerView { rest: f.rest, ..old(self)@ })
            }),
    {
        let ghost s = self.rest@;
        if self.quoting && head(self.rest) == Some(QUOTE) {
            proof {
                assert(s.drop_first() == s.skip(1));
            }
            self.rest = behind_head(self.rest);
            return self.scan_quoted_field();
        }
        proof {
            lemma_first_of(s, ',', '\n');
        }
        match cut_at_either(self.rest, COMMA, LINE_FEED) {
            None => {
                let value = self.plain_field(self.rest);
                self.rest = nothing();
                (value, true)
            },
            Some((before, found, after)) => {
                let last = found == LINE_FEED;
                let value = self.plain_field(
                    if last {
                        strip_last(before, CARRIAGE_RETURN)
                    } else {
                        before
                    },
                );
                self.rest = after;
                (value, last)
            },
        }
    }
}

/// Whether `f` was shown `text` as field number `i` and gave `answer`.
pub open spec fn shown<F: FnMut(usize, &str) -> bool>(
    f: F,
    i: int,
    text: Seq<char>,
    answer: bool,
) -> bool {
    exists|v: &str| v@ == text && #[trigger] call_ensures(f, (i as usize, v), answer)
}

/// The fields of the next record of a scanner.
pub open spec fn next_fields(scanner: ScannerView) -> Seq<FieldScan> {
    record(behind_blank_lines(scanner.rest), scanner.quoting)
}

/// Whether `f` was shown the fields of the next record in their order, gave
/// `answers`, and was shown no more once it had answered `false`.
pub open spec fn record_shown<F: FnMut(usize, &str) -> bool>(
    f: F,
    scanner: ScannerView,
    answers: Seq<bool>,
) -> bool {
    let fields = next_fields(scanner);
    &&& 0 < answers.len() <= fields.len()
    &&& forall|i: int|
        0 <= i < answers.len() ==> shown(
            f,
            i,
            field_text(fields[i].value, scanner.trim),
            #[trigger] answers[i],
        )
    &&& forall|i: int| 0 <= i < answers.len() - 1 ==> #[trigger] answers[i]
    &&& answers.len() < fields.len() ==> !answers.last()
}

/// A scanner behind its next record.
pub open spec fn behind_next(scanner: ScannerView) -> ScannerView {
    ScannerView { rest: next_fields(scanner).last().rest, ..scanner }
}

impl<'a> Scanner<'a> {
    /// Scans the next record, field by field, and calls `f` with each field's
    /// number and text.
    ///
    /// An `f` that answers `false` wants no more fields: the scanner moves
    /// behind the record without showing them. Where it stands then does not
    /// depend on the answers. Returns `false` when there was no record left.
    pub fn next_record<F>(&mut self, f: F) -> (r: bool) where F: FnMut(usize, &str) -> bool
        requires
            forall|i: usize, v: &str| call_requires(f, (i, v)),
        ensures
            r == (behind_blank_lines(old(self)@.rest).len() > 0),
            !r ==> final(self)@ == (ScannerView { rest: Seq::empty(), ..old(self)@ }),
            r ==> final(self)@ == behind_next(old(self)@),
            r ==> exists|answers: Seq<bool>| #[trigger] record_shown(f, old(self)@, answers),
    {
        if !self.skip_blank_lines() {
            return false;
        }
        let mut field_idx: usize = 0;
        let ghost fields = next_fields(old(self)@);
        let ghost mut answers: Seq<bool> = Seq::empty();
        let size: usize = self.byte_len();
        let mut visit = f;
        assert(fields.skip(0) == fields);
        loop
            invariant
                self@.quoting == old(self)@.quoting,
                self@.trim == old(self)@.trim,
                visit == f,
                forall|i: usize, v: &str| call_requires(f, (i, v)),
                behind_blank_lines(old(self)@.rest).len() > 0,
                fields == next_fields(old(self)@),
                answers.len() == field_idx,
                field_idx + self.rest@.len() <= size,
                field_idx < fields.len(),
                fields.skip(field_idx as int) == record(self.rest@, self.quoting),
                forall|i: int|
                    0 <= i < answers.len() ==> shown(
                        f,
                        i,
                        field_text(fields[i].value, old(self)@.trim),
                        #[trigger] answers[i],
                    ),
                forall|i: int| 0 <= i < answers.len() ==> #[trigger] answers[i],
            decreases self.rest@.len(),
        {
            let ghost s = self.rest@;
            proof {
                lemma_field_rest(s, self.quoting);
                assert(fields[field_idx as int] == fields.skip(field_idx as int)[0]);
            }
            let (value, last) = self.scan_field();
            let text = value.as_str();
            let want_more = visit(field_idx, text);
            proof {
                assert(call_ensures(f, (field_idx as int as usize, text), want_more));
                assert(shown(
                    f,
                    field_idx as int,
                    field_text(fields[field_idx as int].value, old(self)@.trim),
                    want_more,
                ));
                answers = answers.push(want_more);
                assert(fields.skip(field_idx as int).len() == fields.len() - field_idx);
            }
            if last {
                assert(record_shown(f, old(self)@, answers));
                return true;
            }
            proof {
                let more = record(self.rest@, self.quoting);
                assert(fields.skip(field_idx as int).skip(1) == more);
                assert(fields.skip(field_idx + 1) == fields.skip(field_idx as int).skip(1));
                lemma_record_len(self.rest@, self.quoting);
            }
            if !want_more {
                self.skip_to_eol();
                assert(record_shown(f, old(self)@, answers));
                return true;
            }
            field_idx = field_idx + 1;
        }
    }

    /// Reads all the fields of the next record, each trimmed; `None` when
    /// there is no record left.
    pub fn read_row(&mut self) -> (r: Option<Vec<String>>)
        ensures
            r is Some <==> behind_blank_lines(old(self)@.rest).len() > 0,
            r is None ==> final(self)@ == (ScannerView { rest: Seq::empty(), ..old(self)@ }),
            r matches Some(row) ==> {
                &&& texts(row@) == next_fields(old(self)@).map_values(
                    |f: FieldScan| trimmed(f.value),
                )
                &&& final(self)@ == behind_next(old(self)@)
            },
    {
        if !self.skip_blank_lines() {
            return None;
        }
        let ghost fields = next_fields(old(self)@);
        let mut row: Vec<String> = Vec::new();
        assert(fields.skip(0) == fields);
        loop
            invariant
                self@.quoting == old(self)@.quoting,
                self@.trim == old(self)@.trim,
                behind_blank_lines(old(self)@.rest).len() > 0,
                fields == next_fields(old(self)@),
                row@.len() < fields.len(),
                fields.skip(row@.len() as int) == record(self.rest@, self.quoting),
                forall|i: int|
                    0 <= i < row@.len() ==> (#[trigger] row@[i])@ == trimmed(fields[i].value),
            decreases self.rest@.len(),
        {
            let ghost s = self.rest@;
            let ghost n = row@.len() as int;
            proof {
                lemma_field_rest(s, self.quoting);
                assert(fields[n] == fields.skip(n)[0]);
                lemma_trimmed_idempotent(fields[n].value);
            }
            let (value, last) = self.scan_field();
            row.push(trim(value.as_str()).to_string());
            assert(fields.skip(n).len() == fields.len() - n);
            if last {
                assert(texts(row@) == fields.map_values(|f: FieldScan| trimmed(f.value)));
                return Some(row);
            }
            proof {
                assert(fields.skip(n).skip(1) == record(self.rest@, self.quoting));
                assert(fields.skip(n + 1) == fields.skip(n).skip(1));
                lemma_record_len(self.rest@, self.quoting);
            }
        }
    }

    /// Reads the first `need` fields of the next record, or all where it has
    /// fewer, and moves to the record behind it; `None` when there is no
    /// record left.
    pub fn read_leading(&mut self, need: usize) -> (r: Option<Vec<FieldValue<'a>>>)
        requires
            need > 0,
        ensures
            r is Some <==> behind_blank_lines(old(self)@.rest).len() > 0,
            r is None ==> final(self)@ == (ScannerView { rest: Seq::empty(), ..old(self)@ }),
            r matches Some(row) ==> {
                let fields = next_fields(old(self)@);
                &&& row@.len() == (if need <= fields.len() {
                    need as nat
                } else {
                    fields.len()
                })
                &&& forall|i: int|
                    0 <= i < row@.len() ==> (#[trigger] row@[i]).text() == field_text(
                        fields[i].value,
                        old(self)@.trim,
                    )
                &&& final(self)@ == behind_next(old(self)@)
            },
    {
        if !self.skip_blank_lines() {
            return None;
        }
        let ghost fields = next_fields(old(self)@);
        let mut row: Vec<FieldValue<'a>> = Vec::new();
        assert(fields.skip(0) == fields);
        loop
            invariant
                self@.quoting == old(self)@.quoting,
                self@.trim == old(self)@.trim,
                behind_blank_lines(old(self)@.rest).len() > 0,
                fields == next_fields(old(self)@),
                row@.len() < need,
                row@.len() < fields.len(),
                fields.skip(row@.len() as int) == record(self.rest@, self.quoting),
                forall|i: int|
                    0 <= i < row@.len() ==> (#[trigger] row@[i]).text() == field_text(
                        fields[i].value,
                        old(self)@.trim,
                    ),
            decreases self.rest@.len(),
        {
            let ghost s = self.rest@;
            let ghost n = row@.len() as int;
            proof {
                lemma_field_rest(s, self.quoting);
                assert(fields[n] == fields.skip(n)[0]);
            }
            let (value, last) = self.scan_field();
            row.push(value);
            assert(fields.skip(n).len() == fields.len() - n);
            if last {
                return Some(row);
            }
            proof {
                assert(fields.skip(n).skip(1) == record(self.rest@, self.quoting));
                assert(fields.skip(n + 1) == fields.skip(n).skip(1));
                lemma_record_len(self.rest@, self.quoting);
            }
            if row.len() == need {
                self.skip_to_eol();
                return Some(row);
            }
        }
    }
}

/// A record has at least one field, and its last field alone ends it.
pub proof fn lemma_record_len(s: Seq<char>, quoting: bool)
    ensures
        record(s, quoting).len() > 0,
        record(s, quoting).last().last,
        forall|i: int| 0 <= i < record(s, quoting).len() - 1 ==> !record(s, quoting)[i].last,
        s.len() > 0 ==> record(s, quoting).last().rest.len() < s.len(),
    decreases s.len(),
{
    lemma_field_rest(s, quoting);
    let f = field(s, quoting);
    if !f.last {
        lemma_record_len(f.rest, quoting);
        let all = record(s, quoting);
        let more = record(f.rest, quoting);
        assert(all == seq![f] + more);
        if f.rest.len() == 0 {
            lemma_field_rest(f.rest, quoting);
        }
        assert forall|i: int| 0 <= i < all.len() - 1 implies !all[i].last by {
            if i > 0 {
                assert(all[i] == more[i - 1]);
            }
        }
    }
}

proof fn lemma_behind_blank_lines(s: Seq<char>)
    ensures
        behind_blank_lines(s).len() <= s.len(),
    decreases s.len(),
{
    lemma_first_of(s, '\n', '\n');
    if starts_blank(s) {
        lemma_behind_blank_lines(behind_line(s));
    }
}

/// Reading a record takes something off the text.
pub proof fn lemma_behind_next(scanner: ScannerView)
    requires
        behind_blank_lines(scanner.rest).len() > 0,
    ensures
        behind_next(scanner).rest.len() < scanner.rest.len(),
{
    let s = behind_blank_lines(scanner.rest);
    lemma_behind_blank_lines(scanner.rest);
    lemma_record_len(s, scanner.quoting);
}

/// Where quotes are not read, a record is a line.
pub proof fn lemma_plain_record(s: Seq<char>)
    ensures
        behind_record(s, false) == behind_line(s),
    decreases s.len(),
{
    let f = field(s, false);
    lemma_first_of(s, ',', '\n');
    let k = first_of(s, ',', '\n');
    if f.last {
        lemma_first_of_unique(s, '\n', '\n', k);
    } else {
        lemma_field_rest(s, false);
        lemma_record_len(f.rest, false);
        lemma_plain_record(f.rest);
        lemma_first_of(f.rest, '\n', '\n');
        let m = first_of(f.rest, '\n', '\n');
        assert forall|i: int| 0 <= i < k + 1 + m implies s[i] != '\n' && s[i] != '\n' by {
            if i > k {
                assert(s[i] == f.rest[i - k - 1]);
            }
        }
        if m < f.rest.len() {
            assert(s[k + 1 + m] == f.rest[m]);
            assert(f.rest.skip(m + 1) == s.skip(k + 1 + m + 1));
        }
        lemma_first_of_unique(s, '\n', '\n', k + 1 + m);
    }
}

} // verus!
