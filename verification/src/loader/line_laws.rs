//! What a scanner finds in a text, told by the characters that were written
//! into it: lines to pass over, blank lines, plain and quoted fields side by
//! side, and the ends of lines.

use vstd::prelude::*;

use crate::loader::csv_laws::{escaped, quoted};
use crate::loader::csv_scan::{
    behind_blank_lines, behind_blanks, behind_line, behind_lines, behind_next, behind_record,
    closed_field, closes, field, field_text, first_line, lemma_field_rest, next_fields,
    opens_quoted, quoted_field, record, record_shown, shown, with_text, FieldScan, FieldValue,
    ScannerView,
};
use crate::loader::schema::ParseOptions;
use crate::loader::stock_reader::file_start;
use crate::loader::table::records;
use crate::text::{
    all_white, first_of, is_white, lemma_first_of, lemma_first_of_unique, trimmed, without_last,
};

verus! {

/// Whether no line break stands in `s`.
pub open spec fn one_line(s: Seq<char>) -> bool {
    forall|i: int| 0 <= i < s.len() ==> #[trigger] s[i] != '\n'
}

/// Lines, each with its line break.
pub open spec fn lines_text(lines: Seq<Seq<char>>) -> Seq<char>
    decreases lines.len(),
{
    if lines.len() == 0 {
        Seq::empty()
    } else {
        lines[0] + seq!['\n'] + lines_text(lines.drop_first())
    }
}

proof fn lemma_behind_line(line: Seq<char>, rest: Seq<char>)
    requires
        one_line(line),
    ensures
        behind_line(line + seq!['\n'] + rest) == rest,
        first_line(line + seq!['\n'] + rest) == line.push('\n'),
{
    let s = line + seq!['\n'] + rest;
    let k = line.len() as int;
    assert forall|i: int| 0 <= i < k implies s[i] != '\n' && s[i] != '\n' by {
        assert(s[i] == line[i]);
        assert(line[i] != '\n');
    }
    assert(s[k] == '\n');
    lemma_first_of_unique(s, '\n', '\n', k);
    assert(s.skip(k + 1) == rest);
    assert(s.take(k + 1) == line.push('\n'));
}

/// Passing over as many lines as there are takes exactly those off the text,
/// whatever they hold, and leaves the rest as it is.
pub proof fn law_skips_lines(lines: Seq<Seq<char>>, rest: Seq<char>, opts: ParseOptions)
    requires
        forall|i: int| 0 <= i < lines.len() ==> one_line(#[trigger] lines[i]),
        opts.skip_rows == lines.len(),
    ensures
        behind_lines(lines_text(lines) + rest, lines.len()) == rest,
        file_start(lines_text(lines) + rest, opts) == (ScannerView {
            rest,
            quoting: opts.quoting,
            trim: opts.trim,
        }),
{
    lemma_skips_lines(lines, rest);
}

proof fn lemma_skips_lines(lines: Seq<Seq<char>>, rest: Seq<char>)
    requires
        forall|i: int| 0 <= i < lines.len() ==> one_line(#[trigger] lines[i]),
    ensures
        behind_lines(lines_text(lines) + rest, lines.len()) == rest,
    decreases lines.len(),
{
    let s = lines_text(lines) + rest;
    if lines.len() == 0 {
        assert(s == rest);
    } else {
        let more = lines.drop_first();
        assert forall|i: int| 0 <= i < more.len() implies one_line(#[trigger] more[i]) by {
            assert(one_line(lines[i + 1]));
        }
        lemma_skips_lines(more, rest);
        let t = lines_text(more) + rest;
        assert(s == lines[0] + seq!['\n'] + t);
        assert(one_line(lines[0]));
        lemma_behind_line(lines[0], t);
    }
}

/// Passing over more lines than the text has leaves nothing.
pub proof fn law_skips_all_lines(lines: Seq<Seq<char>>, last: Seq<char>, n: nat)
    requires
        forall|i: int| 0 <= i < lines.len() ==> one_line(#[trigger] lines[i]),
        one_line(last),
        n > lines.len(),
    ensures
        behind_lines(lines_text(lines) + last, n) == Seq::<char>::empty(),
    decreases lines.len(),
{
    let s = lines_text(lines) + last;
    if lines.len() == 0 {
        assert(s == last);
        assert forall|i: int| 0 <= i < s.len() implies s[i] != '\n' && s[i] != '\n' by {
            assert(last[i] != '\n');
        }
        lemma_first_of_unique(s, '\n', '\n', s.len() as int);
        lemma_behind_nothing((n - 1) as nat);
    } else {
        let more = lines.drop_first();
        assert forall|i: int| 0 <= i < more.len() implies one_line(#[trigger] more[i]) by {
            assert(one_line(lines[i + 1]));
        }
        law_skips_all_lines(more, last, (n - 1) as nat);
        let t = lines_text(more) + last;
        assert(s == lines[0] + seq!['\n'] + t);
        assert(one_line(lines[0]));
        lemma_behind_line(lines[0], t);
    }
}

proof fn lemma_behind_nothing(n: nat)
    ensures
        behind_lines(Seq::empty(), n) == Seq::<char>::empty(),
    decreases n,
{
    if n > 0 {
        lemma_behind_nothing((n - 1) as nat);
    }
}

/// Whether the first line of `s` holds more than white space.
pub open spec fn starts_filled(s: Seq<char>) -> bool {
    exists|k: int|
        0 <= k < s.len() && !is_white(#[trigger] s[k]) && one_line(s.take(k))
}

/// Whether `s` is blank lines: nothing but white space, up to a line break.
pub open spec fn blank_lines(s: Seq<char>) -> bool {
    all_white(s) && (s.len() == 0 || s.last() == '\n')
}

/// Blank lines are passed over, whatever white space they hold, and a line
/// that holds anything else is not.
pub proof fn law_blank_lines_skipped(blank: Seq<char>, s: Seq<char>)
    requires
        blank_lines(blank),
        s.len() == 0 || starts_filled(s),
    ensures
        behind_blank_lines(blank + s) == s,
    decreases blank.len(),
{
    let t = blank + s;
    if blank.len() == 0 {
        assert(t == s);
        if s.len() > 0 {
            let k = choose|k: int|
                0 <= k < s.len() && !is_white(#[trigger] s[k]) && one_line(s.take(k));
            lemma_first_of(s, '\n', '\n');
            let m = first_of(s, '\n', '\n');
            if m < k {
                assert(s.take(k)[m] != '\n');
            }
            if m == k {
                assert(is_white('\n'));
            }
            assert(first_line(s)[k] == s[k]);
        }
    } else {
        lemma_first_of(blank, '\n', '\n');
        let p = first_of(blank, '\n', '\n');
        assert(blank[blank.len() - 1] == '\n');
        let line = blank.take(p);
        let more = blank.skip(p + 1);
        assert(one_line(line));
        assert(t == line + seq!['\n'] + (more + s));
        lemma_behind_line(line, more + s);
        assert forall|i: int| 0 <= i < first_line(t).len() implies is_white(
            #[trigger] first_line(t)[i],
        ) by {
            assert(first_line(t)[i] == blank[i]);
            assert(is_white(blank[i]));
        }
        assert forall|i: int| 0 <= i < more.len() implies is_white(#[trigger] more[i]) by {
            assert(is_white(blank[i + p + 1]));
        }
        if more.len() > 0 {
            assert(more.last() == blank.last());
        }
        law_blank_lines_skipped(more, s);
    }
}

/// In a text of nothing but white space there is no record.
pub proof fn law_white_text_is_empty(s: Seq<char>)
    requires
        all_white(s),
    ensures
        behind_blank_lines(s).len() == 0,
    decreases s.len(),
{
    if s.len() > 0 {
        lemma_first_of(s, '\n', '\n');
        let line = first_line(s);
        assert forall|i: int| 0 <= i < line.len() implies is_white(#[trigger] line[i]) by {
            assert(is_white(s[i]));
        }
        let rest = behind_line(s);
        assert forall|i: int| 0 <= i < rest.len() implies is_white(#[trigger] rest[i]) by {
            assert(is_white(s[i + first_of(s, '\n', '\n') + 1]));
        }
        law_white_text_is_empty(rest);
    }
}

/// Whether `s` can stand as a plain field: it holds no separator and, where
/// quotes are read, does not open with one.
pub open spec fn can_be_plain(s: Seq<char>, quoting: bool) -> bool {
    &&& forall|i: int| 0 <= i < s.len() ==> #[trigger] s[i] != ',' && s[i] != '\n'
    &&& quoting && s.len() > 0 ==> s[0] != '"'
}

/// Whether `end` can stand behind the plain field `value` and before `rest`: a
/// comma, a line break with a carriage return or without, or nothing at the
/// end of the text. A carriage return before a line break belongs to the line
/// break.
pub open spec fn ends_plain(value: Seq<char>, end: Seq<char>, rest: Seq<char>) -> bool {
    ||| end == seq![',']
    ||| end == seq!['\r', '\n']
    ||| end == seq!['\n'] && (value.len() == 0 || value.last() != '\r')
    ||| end.len() == 0 && rest.len() == 0
}

/// A plain field is what stands before the next separator, and is the last of
/// its record unless that is a comma.
pub proof fn law_plain_field(value: Seq<char>, end: Seq<char>, rest: Seq<char>, quoting: bool)
    requires
        can_be_plain(value, quoting),
        ends_plain(value, end, rest),
    ensures
        field(value + end + rest, quoting) == (FieldScan { value, rest, last: end != seq![','] }),
{
    let s = value + end + rest;
    let n = value.len() as int;
    if s.len() > 0 {
        if n > 0 {
            assert(s[0] == value[0]);
        } else if end.len() > 0 {
            assert(s[0] == end[0]);
        }
    }
    assert forall|i: int| 0 <= i < n implies s[i] != ',' && s[i] != '\n' by {
        assert(s[i] == value[i]);
        assert(value[i] != ',' && value[i] != '\n');
    }
    let k = if end == seq!['\r', '\n'] {
        n + 1
    } else {
        n
    };
    if end == seq!['\r', '\n'] {
        assert(s[n] == '\r');
        assert(s[n + 1] == '\n');
    } else if end.len() > 0 {
        assert(s[n] == end[0]);
    }
    if end.len() == 0 {
        assert(s == value);
    }
    lemma_first_of_unique(s, ',', '\n', k);
    if end == seq!['\r', '\n'] {
        assert(s.take(k) == value.push('\r'));
        assert(value.push('\r').drop_last() == value);
        assert(s.skip(k + 1) == rest);
        assert(seq![','].len() == 1);
    } else if end.len() > 0 {
        assert(s.take(k) == value);
        assert(s.skip(k + 1) == rest);
        if end == seq!['\n'] {
            assert(seq![','][0] == ',' && end[0] == '\n');
            assert(without_last(value, '\r') == value);
        }
    } else {
        assert(seq![','].len() == 1);
        assert(rest == Seq::<char>::empty());
    }
}

/// Whether `end` can stand behind the closing quote of a field and before
/// `rest`: spaces and tabs, a carriage return or none, and a comma, a line
/// break or the end of the text.
pub open spec fn ends_quoted(
    blanks: Seq<char>,
    end: Seq<char>,
    rest: Seq<char>,
    last: bool,
) -> bool {
    &&& forall|i: int| 0 <= i < blanks.len() ==> #[trigger] blanks[i] == ' ' || blanks[i] == '\t'
    &&& {
        ||| !last && (end == seq![','] || end == seq!['\r', ','])
        ||| last && (end == seq!['\n'] || end == seq!['\r', '\n'])
        ||| last && rest.len() == 0 && (end.len() == 0 || end == seq!['\r'])
    }
}

proof fn lemma_behind_blanks_of(blanks: Seq<char>, s: Seq<char>)
    requires
        forall|i: int| 0 <= i < blanks.len() ==> #[trigger] blanks[i] == ' ' || blanks[i] == '\t',
        s.len() > 0 ==> s[0] != ' ' && s[0] != '\t',
    ensures
        behind_blanks(blanks + s) == s,
    decreases blanks.len(),
{
    let t = blanks + s;
    if blanks.len() == 0 {
        assert(t == s);
    } else {
        assert(blanks[0] == ' ' || blanks[0] == '\t');
        assert(t[0] == blanks[0]);
        assert(t.drop_first() == blanks.drop_first() + s);
        let more = blanks.drop_first();
        assert forall|i: int| 0 <= i < more.len() implies #[trigger] more[i] == ' ' || more[i]
            == '\t' by {
            assert(blanks[i + 1] == ' ' || blanks[i + 1] == '\t');
        }
        lemma_behind_blanks_of(blanks.drop_first(), s);
    }
}

/// Escaped text inside quotes stands for itself, whatever comes behind it.
proof fn lemma_escaped_then(content: Seq<char>, s: Seq<char>)
    ensures
        quoted_field(escaped(content) + s) == with_text(content, quoted_field(s)),
    decreases content.len(),
{
    let t = escaped(content) + s;
    let f = quoted_field(s);
    if content.len() == 0 {
        assert(t == s);
        assert(content + f.value == f.value);
    } else {
        let more = content.drop_first();
        lemma_escaped_then(more, s);
        let u = escaped(more) + s;
        assert(seq![content[0]] + (more + f.value) == content + f.value);
        if content[0] == '"' {
            assert(t[0] == '"' && t[1] == '"');
            assert(t.skip(2) == u);
        } else {
            assert(t[0] == content[0]);
            assert(t.drop_first() == u);
        }
    }
}

/// A quoted field whose quotes were doubled is read back as it was, whatever
/// it holds and however it ends.
pub proof fn law_quoted_field(
    content: Seq<char>,
    blanks: Seq<char>,
    end: Seq<char>,
    rest: Seq<char>,
    last: bool,
)
    requires
        ends_quoted(blanks, end, rest, last),
    ensures
        field(quoted(content) + (blanks + end + rest), true) == (FieldScan {
            value: content,
            rest,
            last,
        }),
{
    let tail = blanks + end + rest;
    let s = quoted(content) + tail;
    let u = seq!['"'] + tail;
    assert(s[0] == '"');
    assert(s.drop_first() == escaped(content) + u);
    lemma_escaped_then(content, u);
    let t = end + rest;
    assert(tail == blanks + t);
    if end.len() > 0 {
        assert(t[0] == end[0]);
        if end.len() > 1 {
            assert(t[1] == end[1]);
        }
    }
    lemma_behind_blanks_of(blanks, t);
    assert(closes(tail));
    assert(u.drop_first() == tail);
    if tail.len() > 0 {
        assert(u[1] == tail[0]);
        if blanks.len() > 0 {
            assert(tail[0] == blanks[0]);
            assert(blanks[0] == ' ' || blanks[0] == '\t');
        } else {
            assert(tail[0] == t[0]);
        }
    }
    let f = closed_field(tail);
    assert(f.rest == rest && f.last == last) by {
        if end == seq!['\r', ','] || end == seq!['\r', '\n'] {
            assert(t.drop_first().drop_first() == rest);
            assert(t.drop_first()[0] == end[1]);
        } else if end == seq!['\r'] {
            assert(t.drop_first() == rest);
        } else if end.len() > 0 {
            assert(t.drop_first() == rest);
        } else {
            assert(t == rest);
        }
    }
    assert(content + f.value == content);
}

/// A quoted field that nothing closes reaches to the end of the text.
pub proof fn law_unclosed_field(content: Seq<char>)
    ensures
        field(seq!['"'] + escaped(content), true) == (FieldScan {
            value: content,
            rest: Seq::empty(),
            last: true,
        }),
{
    let s = seq!['"'] + escaped(content);
    let none = Seq::<char>::empty();
    assert(s[0] == '"');
    assert(s.drop_first() == escaped(content) + none);
    lemma_escaped_then(content, none);
    assert(content + none == content);
}

/// A quote inside a quoted field that neither another quote nor the end of the
/// field follows is kept, and the field goes on: behind spaces and tabs comes
/// a character that is no separator, or a carriage return that none follows.
pub proof fn law_literal_quote(
    content: Seq<char>,
    blanks: Seq<char>,
    c: char,
    tail: Seq<char>,
)
    requires
        forall|i: int| 0 <= i < blanks.len() ==> #[trigger] blanks[i] == ' ' || blanks[i] == '\t',
        c != ' ' && c != '\t' && c != ',' && c != '\n',
        c == '"' ==> blanks.len() > 0,
        c == '\r' ==> tail.len() > 0 && tail[0] != ',' && tail[0] != '\n',
    ensures
        ({
            let behind = blanks + seq![c] + tail;
            let whole = field(quoted(content) + behind, true);
            let more = field(seq!['"'] + behind, true);
            &&& whole.value == content + seq!['"'] + more.value
            &&& whole.rest == more.rest
            &&& whole.last == more.last
        }),
{
    let behind = blanks + seq![c] + tail;
    let s = quoted(content) + behind;
    let u = seq!['"'] + behind;
    assert(s[0] == '"');
    assert(s.drop_first() == escaped(content) + u);
    lemma_escaped_then(content, u);
    let t = seq![c] + tail;
    assert(behind == blanks + t);
    lemma_behind_blanks_of(blanks, t);
    if tail.len() > 0 {
        assert(t[1] == tail[0]);
    }
    assert(!closes(behind));
    assert(u.drop_first() == behind);
    assert(u[1] == behind[0]);
    if blanks.len() > 0 {
        assert(behind[0] == blanks[0]);
        assert(blanks[0] == ' ' || blanks[0] == '\t');
    } else {
        assert(behind[0] == c);
    }
    let more = quoted_field(behind);
    assert(content + (seq!['"'] + more.value) == content + seq!['"'] + more.value);
}

/// A field as it is written: its content, with quotes around it or plain.
pub struct Written {
    pub content: Seq<char>,
    pub quotes: bool,
}

impl Written {
    /// The field as it is written.
    pub open spec fn text(self) -> Seq<char> {
        if self.quotes {
            quoted(self.content)
        } else {
            self.content
        }
    }

    /// Whether the field can be written so: quotes must be read, and a plain
    /// field must be able to stand as one.
    pub open spec fn valid(self, quoting: bool) -> bool {
        if self.quotes {
            quoting
        } else {
            can_be_plain(self.content, quoting)
        }
    }
}

/// Fields side by side, with commas between them.
pub open spec fn fields_text(fields: Seq<Written>) -> Seq<char>
    decreases fields.len(),
{
    if fields.len() <= 1 {
        fields[0].text()
    } else {
        fields[0].text() + seq![','] + fields_text(fields.drop_first())
    }
}

/// The contents of fields.
pub open spec fn contents(fields: Seq<Written>) -> Seq<Seq<char>> {
    fields.map_values(|w: Written| w.content)
}

/// Whether `end` ends a record of fields before `rest`: a line break, with a
/// carriage return or without, or nothing at the end of the text. A plain
/// field must not leave its own carriage return before a line break.
pub open spec fn ends_record(fields: Seq<Written>, end: Seq<char>, rest: Seq<char>) -> bool {
    ||| end == seq!['\r', '\n']
    ||| end == seq!['\n'] && (fields.last().quotes || fields.last().content.len() == 0
        || fields.last().content.last() != '\r')
    ||| end.len() == 0 && rest.len() == 0
}

/// Whether fields can be written so.
pub open spec fn all_valid(fields: Seq<Written>, quoting: bool) -> bool {
    fields.len() > 0 && forall|i: int|
        0 <= i < fields.len() ==> (#[trigger] fields[i]).valid(quoting)
}

proof fn lemma_written_field(w: Written, end: Seq<char>, rest: Seq<char>, quoting: bool)
    requires
        w.valid(quoting),
        end == seq![','] || ends_record(seq![w], end, rest),
    ensures
        field(w.text() + end + rest, quoting) == (FieldScan {
            value: w.content,
            rest,
            last: end != seq![','],
        }),
{
    assert(seq![w].last() == w);
    assert(seq![','].len() == 1 && seq![','][0] == ',');
    if w.quotes {
        let none = Seq::<char>::empty();
        assert(w.text() + end + rest == quoted(w.content) + (none + end + rest));
        if end == seq!['\n'] {
            assert(end[0] == '\n');
        }
        law_quoted_field(w.content, none, end, rest, end != seq![',']);
    } else {
        law_plain_field(w.content, end, rest, quoting);
    }
}

/// A record is read back field by field, plain and quoted ones side by side,
/// empty ones too; behind it stands the rest of the text.
pub proof fn law_record_is_read_back(
    fields: Seq<Written>,
    end: Seq<char>,
    rest: Seq<char>,
    quoting: bool,
)
    requires
        all_valid(fields, quoting),
        ends_record(fields, end, rest),
    ensures
        ({
            let found = record(fields_text(fields) + end + rest, quoting);
            &&& found.map_values(|f: FieldScan| f.value) == contents(fields)
            &&& found.last().rest == rest
            &&& behind_record(fields_text(fields) + end + rest, quoting) == rest
        }),
    decreases fields.len(),
{
    let s = fields_text(fields) + end + rest;
    let found = record(s, quoting);
    let w = fields[0];
    assert(w.valid(quoting));
    if fields.len() == 1 {
        assert(fields == seq![w]);
        lemma_written_field(w, end, rest, quoting);
        assert(seq![','].len() == 1 && seq![','][0] == ',');
        if end == seq!['\n'] {
            assert(end[0] == '\n');
        }
        assert(found == seq![field(s, quoting)]);
        assert(found.map_values(|f: FieldScan| f.value) == contents(fields));
    } else {
        let more = fields.drop_first();
        let t = fields_text(more) + end + rest;
        assert(s == w.text() + seq![','] + t);
        lemma_written_field(w, seq![','], t, quoting);
        assert forall|i: int| 0 <= i < more.len() implies (#[trigger] more[i]).valid(quoting) by {
            assert(fields[i + 1].valid(quoting));
        }
        assert(more.last() == fields.last());
        law_record_is_read_back(more, end, rest, quoting);
        lemma_field_rest(s, quoting);
        let tail = record(t, quoting);
        assert(found == seq![field(s, quoting)] + tail);
        let values = tail.map_values(|f: FieldScan| f.value);
        assert(values.len() == tail.len());
        assert(contents(more).len() == more.len());
        let all = found.map_values(|f: FieldScan| f.value);
        assert forall|i: int| 0 <= i < all.len() implies all[i] == contents(fields)[i] by {
            if i > 0 {
                assert(found[i] == tail[i - 1]);
                assert(values[i - 1] == contents(more)[i - 1]);
            }
        }
        assert(all == contents(fields));
        assert(found.last() == tail.last());
    }
}

/// A record on lines of its own: the blank lines before it, its fields, and
/// how its last line ends.
pub struct Row {
    pub blank: Seq<char>,
    pub fields: Seq<Written>,
    pub end: Seq<char>,
}

impl Row {
    /// The record as it is written.
    pub open spec fn text(self) -> Seq<char> {
        self.blank + (fields_text(self.fields) + self.end)
    }

    /// Whether the record can be written so before `rest`. A record of one
    /// plain field must hold more than white space: it would be a blank line.
    pub open spec fn valid(self, rest: Seq<char>, quoting: bool) -> bool {
        &&& blank_lines(self.blank)
        &&& all_valid(self.fields, quoting)
        &&& ends_record(self.fields, self.end, rest)
        &&& self.fields.len() > 1 || self.fields[0].quotes || !all_white(self.fields[0].content)
    }
}

proof fn lemma_row_filled(row: Row, rest: Seq<char>, quoting: bool)
    requires
        row.valid(rest, quoting),
    ensures
        starts_filled(fields_text(row.fields) + row.end + rest),
{
    let s = fields_text(row.fields) + row.end + rest;
    let w = row.fields[0];
    assert(w.valid(quoting));
    let k = if w.quotes {
        0
    } else if row.fields.len() > 1 {
        w.content.len() as int
    } else {
        choose|i: int| 0 <= i < w.content.len() && !is_white(#[trigger] w.content[i])
    };
    if w.quotes {
        assert(s[0] == '"');
        assert(!is_white('"'));
    } else if row.fields.len() > 1 {
        assert(s[k] == ',');
        assert(!is_white(','));
    } else {
        assert(s[k] == w.content[k]);
    }
    assert forall|i: int| 0 <= i < k implies #[trigger] s.take(k)[i] != '\n' by {
        assert(s[i] == w.content[i]);
        assert(w.content[i] != '\n');
    }
    assert(one_line(s.take(k)));
}

/// The next record of a scanner is the one that was written next, and the
/// scanner then stands behind it.
pub proof fn law_next_record_is_read_back(row: Row, rest: Seq<char>, quoting: bool, trim: bool)
    requires
        row.valid(rest, quoting),
    ensures
        ({
            let scanner = ScannerView { rest: row.text() + rest, quoting, trim };
            &&& behind_blank_lines(scanner.rest).len() > 0
            &&& next_fields(scanner).map_values(|f: FieldScan| f.value) == contents(row.fields)
            &&& behind_next(scanner) == (ScannerView { rest, quoting, trim })
        }),
{
    let s = fields_text(row.fields) + row.end + rest;
    assert(row.text() + rest == row.blank + s);
    lemma_row_filled(row, rest, quoting);
    law_blank_lines_skipped(row.blank, s);
    law_record_is_read_back(row.fields, row.end, rest, quoting);
}

/// Records, one behind the other.
pub open spec fn rows_text(rows: Seq<Row>) -> Seq<char>
    decreases rows.len(),
{
    if rows.len() == 0 {
        Seq::empty()
    } else {
        rows[0].text() + rows_text(rows.drop_first())
    }
}

/// Whether records can be written so before `tail`, which is white space.
pub open spec fn rows_valid(rows: Seq<Row>, tail: Seq<char>, quoting: bool) -> bool
    decreases rows.len(),
{
    if rows.len() == 0 {
        all_white(tail)
    } else {
        rows[0].valid(rows_text(rows.drop_first()) + tail, quoting) && rows_valid(
            rows.drop_first(),
            tail,
            quoting,
        )
    }
}

/// A scanner finds the records that were written, all of them, in their order,
/// and no others.
pub proof fn law_records_are_read_back(
    rows: Seq<Row>,
    tail: Seq<char>,
    quoting: bool,
    trim: bool,
)
    requires
        rows_valid(rows, tail, quoting),
    ensures
        ({
            let found = records(ScannerView { rest: rows_text(rows) + tail, quoting, trim });
            &&& found.len() == rows.len()
            &&& forall|i: int|
                0 <= i < rows.len() ==> (#[trigger] found[i]).map_values(
                    |f: FieldScan| f.value,
                ) == contents(rows[i].fields)
        }),
    decreases rows.len(),
{
    let scanner = ScannerView { rest: rows_text(rows) + tail, quoting, trim };
    let found = records(scanner);
    if rows.len() == 0 {
        assert(scanner.rest == tail);
        law_white_text_is_empty(tail);
    } else {
        let more = rows.drop_first();
        let rest = rows_text(more) + tail;
        assert(scanner.rest == rows[0].text() + rest);
        law_next_record_is_read_back(rows[0], rest, quoting, trim);
        law_records_are_read_back(more, tail, quoting, trim);
        let behind = records(behind_next(scanner));
        assert(found == seq![next_fields(scanner)] + behind);
        assert forall|i: int| 0 <= i < rows.len() implies (#[trigger] found[i]).map_values(
            |f: FieldScan| f.value,
        ) == contents(rows[i].fields) by {
            if i > 0 {
                assert(found[i] == behind[i - 1]);
                assert(more[i - 1] == rows[i]);
            }
        }
    }
}

/// A field is handed out trimmed where the scanner trims, and as it is where
/// it does not. It is a quoted one where quotes are read and it opens with one.
pub proof fn law_field_handed_out(value: Seq<char>, s: Seq<char>, text: &str, copy: String)
    ensures
        field_text(value, true) == trimmed(value),
        field_text(value, false) == value,
        opens_quoted(s, false) == false,
        opens_quoted(s, true) <==> s.len() > 0 && s[0] == '"',
        FieldValue::Borrowed(text).text() == text@,
        FieldValue::Buffered(copy).text() == copy@,
{
}

/// A visitor of a record's fields is shown the first field under number 0, the
/// next under number 1, and on, each with its text, until it answers that it
/// wants no more.
pub proof fn law_fields_shown_in_order<F: FnMut(usize, &str) -> bool>(
    f: F,
    scanner: ScannerView,
    answers: Seq<bool>,
    i: int,
)
    requires
        record_shown(f, scanner, answers),
        0 <= i < answers.len(),
    ensures
        answers.len() <= next_fields(scanner).len(),
        i < answers.len() - 1 ==> answers[i],
        answers.len() < next_fields(scanner).len() ==> !answers[answers.len() - 1],
        exists|v: &str|
            v@ == (if scanner.trim {
                trimmed(next_fields(scanner)[i].value)
            } else {
                next_fields(scanner)[i].value
            }) && #[trigger] call_ensures(f, (i as usize, v), answers[i]),
{
    assert(shown(
        f,
        i,
        field_text(next_fields(scanner)[i].value, scanner.trim),
        answers[i],
    ));
}

} // verus!
