//! What scanning a CSV text gives back of what was written into it.

use vstd::prelude::*;

use crate::loader::csv_scan::{
    behind_blank_lines, behind_blanks, behind_next, behind_record, closed_field, closes, field,
    field_text, first_line, lemma_field_rest, next_fields, quoted_field, record, with_text,
    FieldScan, ScannerView,
};
use crate::text::{first_of, is_white, lemma_first_of, lemma_trimmed_idempotent};

verus! {

/// `content` with every quote doubled.
pub open spec fn escaped(content: Seq<char>) -> Seq<char>
    decreases content.len(),
{
    if content.len() == 0 {
        content
    } else if content[0] == '"' {
        seq!['"', '"'] + escaped(content.drop_first())
    } else {
        seq![content[0]] + escaped(content.drop_first())
    }
}

/// `content` written as a quoted field.
pub open spec fn quoted(content: Seq<char>) -> Seq<char> {
    seq!['"'] + escaped(content) + seq!['"']
}

/// `raw` with every doubled quote made one.
pub open spec fn unescaped(raw: Seq<char>) -> Seq<char>
    decreases raw.len(),
{
    if raw.len() == 0 {
        raw
    } else if raw[0] == '"' && raw.len() > 1 && raw[1] == '"' {
        seq!['"'] + unescaped(raw.skip(2))
    } else {
        seq![raw[0]] + unescaped(raw.drop_first())
    }
}

/// Whether a field that is the `last` of its record or not can be separated by
/// `sep` from the `rest` of the text.
pub open spec fn separates(sep: Seq<char>, rest: Seq<char>, last: bool) -> bool {
    ||| !last && sep == seq![',']
    ||| !last && sep == seq!['\r', ',']
    ||| last && sep == seq!['\n']
    ||| last && sep == seq!['\r', '\n']
    ||| last && rest.len() == 0 && sep.len() == 0
    ||| last && rest.len() == 0 && sep == seq!['\r']
}

/// Whether `s` is nothing but spaces and tabs.
pub open spec fn all_blank(s: Seq<char>) -> bool {
    forall|i: int| 0 <= i < s.len() ==> #[trigger] s[i] == ' ' || s[i] == '\t'
}

/// `contents` written as one record of quoted fields, with its line break.
pub open spec fn written(contents: Seq<Seq<char>>) -> Seq<char>
    decreases contents.len(),
{
    if contents.len() == 0 {
        Seq::empty()
    } else if contents.len() == 1 {
        quoted(contents[0]) + seq!['\n']
    } else {
        quoted(contents[0]) + seq![','] + written(contents.drop_first())
    }
}

/// Whether no quote stands in `s`.
pub open spec fn quoteless(s: Seq<char>) -> bool {
    forall|i: int| 0 <= i < s.len() ==> #[trigger] s[i] != '"'
}

proof fn lemma_closes_not_quote(tail: Seq<char>)
    requires
        closes(tail),
    ensures
        tail.len() > 0 ==> tail[0] != '"',
{
}

proof fn lemma_quoted_field_escaped(content: Seq<char>, tail: Seq<char>)
    requires
        closes(tail),
    ensures
        quoted_field(escaped(content) + seq!['"'] + tail) == with_text(content, closed_field(tail)),
    decreases content.len(),
{
    let s = escaped(content) + seq!['"'] + tail;
    lemma_closes_not_quote(tail);
    if content.len() == 0 {
        assert(s.drop_first() == tail);
        if tail.len() > 0 {
            assert(s[1] == tail[0]);
        }
        assert(content + closed_field(tail).value == closed_field(tail).value);
    } else {
        let more = content.drop_first();
        lemma_quoted_field_escaped(more, tail);
        let t = escaped(more) + seq!['"'] + tail;
        assert(seq![content[0]] + (more + closed_field(tail).value) == content + closed_field(
            tail,
        ).value);
        if content[0] == '"' {
            assert(s[0] == '"' && s[1] == '"');
            assert(s.skip(2) == t);
        } else {
            assert(s[0] == content[0]);
            assert(s.drop_first() == t);
        }
    }
}

/// A field that is written with its quotes doubled, between quotes, is read
/// back as it was, whatever it holds: commas, quotes and line breaks too.
pub proof fn law_quoted_field_round_trip(content: Seq<char>, tail: Seq<char>)
    requires
        closes(tail),
    ensures
        field(quoted(content) + tail, true) == with_text(content, closed_field(tail)),
        field(quoted(content) + tail, true).value == content,
{
    let s = quoted(content) + tail;
    assert(s[0] == '"');
    assert(s.drop_first() == escaped(content) + seq!['"'] + tail);
    lemma_quoted_field_escaped(content, tail);
    assert(content + closed_field(tail).value == content);
}

/// A quoted field whose quotes were not doubled loses no character, where no
/// quote of it stands next to another and none could be its closing quote.
pub proof fn law_literal_quotes_kept(content: Seq<char>, tail: Seq<char>)
    requires
        closes(tail),
        forall|i: int|
            0 <= i < content.len() && #[trigger] content[i] == '"' ==> {
                let behind = (content + seq!['"'] + tail).skip(i + 1);
                behind[0] != '"' && !closes(behind)
            },
    ensures
        field(seq!['"'] + content + seq!['"'] + tail, true) == with_text(
            content,
            closed_field(tail),
        ),
        field(seq!['"'] + content + seq!['"'] + tail, true).value == content,
{
    let s = seq!['"'] + content + seq!['"'] + tail;
    assert(s.drop_first() == content + seq!['"'] + tail);
    lemma_literal_quotes(content, tail);
    assert(content + closed_field(tail).value == content);
}

proof fn lemma_literal_quotes(content: Seq<char>, tail: Seq<char>)
    requires
        closes(tail),
        forall|i: int|
            0 <= i < content.len() && #[trigger] content[i] == '"' ==> {
                let behind = (content + seq!['"'] + tail).skip(i + 1);
                behind[0] != '"' && !closes(behind)
            },
    ensures
        quoted_field(content + seq!['"'] + tail) == with_text(content, closed_field(tail)),
    decreases content.len(),
{
    let s = content + seq!['"'] + tail;
    lemma_closes_not_quote(tail);
    if content.len() == 0 {
        assert(s.drop_first() == tail);
        if tail.len() > 0 {
            assert(s[1] == tail[0]);
        }
        assert(content + closed_field(tail).value == closed_field(tail).value);
    } else {
        let more = content.drop_first();
        let t = more + seq!['"'] + tail;
        assert(s.drop_first() == t);
        assert(s.skip(1) == t);
        assert forall|i: int| 0 <= i < more.len() && #[trigger] more[i] == '"' implies {
            let behind = t.skip(i + 1);
            behind[0] != '"' && !closes(behind)
        } by {
            assert(content[i + 1] == '"');
            assert(s.skip(i + 2) == t.skip(i + 1));
        }
        lemma_literal_quotes(more, tail);
        assert(seq![content[0]] + (more + closed_field(tail).value) == content + closed_field(
            tail,
        ).value);
        if content[0] == '"' {
            assert(s[1] == t[0]);
        }
    }
}

proof fn lemma_written_starts(contents: Seq<Seq<char>>)
    requires
        contents.len() > 0,
    ensures
        written(contents).len() > 0,
        written(contents)[0] == '"',
{
}

proof fn lemma_record_written(contents: Seq<Seq<char>>, tail: Seq<char>)
    requires
        contents.len() > 0,
    ensures
        ({
            let fields = record(written(contents) + tail, true);
            &&& fields.len() == contents.len()
            &&& forall|i: int| 0 <= i < contents.len() ==> #[trigger] fields[i].value == contents[i]
            &&& forall|i: int|
                0 <= i < contents.len() ==> #[trigger] fields[i].rest == written(
                    contents.skip(i + 1),
                ) + tail
        }),
    decreases contents.len(),
{
    let s = written(contents) + tail;
    let fields = record(s, true);
    if contents.len() == 1 {
        let after = seq!['\n'] + tail;
        assert(s == quoted(contents[0]) + after);
        law_quoted_field_round_trip(contents[0], after);
        assert(after.drop_first() == tail);
        assert(written(contents.skip(1)) + tail == tail);
    } else {
        let more = contents.drop_first();
        let after = seq![','] + (written(more) + tail);
        assert(s == quoted(contents[0]) + after);
        law_quoted_field_round_trip(contents[0], after);
        assert(after.drop_first() == written(more) + tail);
        lemma_field_rest(s, true);
        lemma_record_written(more, tail);
        assert(contents.skip(1) == more);
        let rest = record(written(more) + tail, true);
        assert(fields == seq![field(s, true)] + rest);
        assert forall|i: int| 0 <= i < contents.len() implies #[trigger] fields[i].value
            == contents[i] by {
            if i > 0 {
                assert(fields[i] == rest[i - 1]);
            }
        }
        assert forall|i: int| 0 <= i < contents.len() implies #[trigger] fields[i].rest == written(
            contents.skip(i + 1),
        ) + tail by {
            if i > 0 {
                assert(fields[i] == rest[i - 1]);
                assert(more.skip(i) == contents.skip(i + 1));
            }
        }
    }
}

/// A record of quoted fields is read back field by field as it was written,
/// and the scanner then stands right behind it.
pub proof fn law_record_round_trip(contents: Seq<Seq<char>>, tail: Seq<char>, trim: bool)
    requires
        contents.len() > 0,
    ensures
        ({
            let scanner = ScannerView { rest: written(contents) + tail, quoting: true, trim };
            let fields = next_fields(scanner);
            &&& behind_blank_lines(scanner.rest) == scanner.rest
            &&& fields.map_values(|f: FieldScan| f.value) == contents
            &&& behind_next(scanner).rest == tail
        }),
{
    let s = written(contents) + tail;
    lemma_written_starts(contents);
    lemma_first_of(s, '\n', '\n');
    assert(first_line(s)[0] == '"');
    assert(!is_white('"'));
    lemma_record_written(contents, tail);
    let fields = record(s, true);
    assert(fields.map_values(|f: FieldScan| f.value) == contents);
    assert(contents.skip(contents.len() as int) == Seq::<Seq<char>>::empty());
    assert(written(contents.skip(contents.len() as int)) + tail == tail);
}

/// On a text without quotes it makes no difference whether quoting is on.
pub proof fn law_quoting_needs_quotes(s: Seq<char>)
    requires
        quoteless(s),
    ensures
        record(s, true) == record(s, false),
        behind_record(s, true) == behind_record(s, false),
    decreases s.len(),
{
    lemma_first_of(s, ',', '\n');
    let f = field(s, true);
    if s.len() > 0 {
        assert(s[0] != '"');
    }
    assert(f == field(s, false));
    if !f.last {
        lemma_field_rest(s, true);
        assert forall|i: int| 0 <= i < f.rest.len() implies #[trigger] f.rest[i] != '"' by {
            assert(f.rest[i] == s[i + first_of(s, ',', '\n') + 1]);
        }
        law_quoting_needs_quotes(f.rest);
    }
}

/// Which record comes next does not depend on how many fields of this one
/// were looked at: what is skipped behind any of its fields is the rest of
/// this record, and no more.
pub proof fn law_early_exit(scanner: ScannerView, n: nat)
    requires
        0 < n < next_fields(scanner).len(),
    ensures
        ({
            let rest = next_fields(scanner)[n - 1].rest;
            &&& record(rest, scanner.quoting) == next_fields(scanner).skip(n as int)
            &&& behind_record(rest, scanner.quoting) == behind_next(scanner).rest
        }),
{
    lemma_record_behind(behind_blank_lines(scanner.rest), scanner.quoting, n);
}

proof fn lemma_record_behind(s: Seq<char>, quoting: bool, n: nat)
    requires
        0 < n < record(s, quoting).len(),
    ensures
        record(record(s, quoting)[n - 1].rest, quoting) == record(s, quoting).skip(n as int),
    decreases n,
{
    let f = field(s, quoting);
    let all = record(s, quoting);
    let more = record(f.rest, quoting);
    lemma_field_rest(s, quoting);
    assert(all == seq![f] + more);
    assert(all.skip(1) == more);
    if n > 1 {
        lemma_record_behind(f.rest, quoting, (n - 1) as nat);
        assert(all[n - 1] == more[n - 2]);
        assert(all.skip(n as int) == more.skip(n - 1));
    }
}

/// Trimming the text of a field once more does not change it.
pub proof fn law_trimmed_once(value: Seq<char>, trim: bool)
    ensures
        field_text(field_text(value, trim), trim) == field_text(value, trim),
{
    lemma_trimmed_idempotent(value);
}

/// No character of a plain field is lost: the text is the field's value, its
/// separator and the rest.
pub proof fn law_plain_field_keeps_all(s: Seq<char>, quoting: bool) -> (sep: Seq<char>)
    requires
        quoting ==> s.len() == 0 || s[0] != '"',
    ensures
        s == field(s, quoting).value + sep + field(s, quoting).rest,
        separates(sep, field(s, quoting).rest, field(s, quoting).last),
{
    let f = field(s, quoting);
    lemma_first_of(s, ',', '\n');
    let k = first_of(s, ',', '\n');
    if k == s.len() {
        assert(s == s + Seq::<char>::empty() + Seq::<char>::empty());
        Seq::empty()
    } else if s[k] == '\n' && k > 0 && s[k - 1] == '\r' {
        let line = s.take(k);
        assert(line.last() == '\r');
        assert(f.value == line.drop_last());
        assert(s == line.drop_last() + seq!['\r', '\n'] + s.skip(k + 1));
        seq!['\r', '\n']
    } else {
        if k > 0 {
            assert(s.take(k).last() == s[k - 1]);
        }
        assert(f.value == s.take(k));
        assert(s == s.take(k) + seq![s[k]] + s.skip(k + 1));
        seq![s[k]]
    }
}

/// No character of a quoted field is lost. The text behind the opening quote
/// is the field's value, its quotes doubled or not, and the rest; between them
/// stands the closing quote with any spaces and tabs and the separator, or
/// nothing where no quote closes the field.
pub proof fn law_quoted_field_keeps_all(s: Seq<char>) -> (parts: (Seq<char>, Seq<char>))
    requires
        s.len() > 0,
        s[0] == '"',
    ensures
        ({
            let (raw, end) = parts;
            let f = field(s, true);
            &&& s == seq!['"'] + raw + end + f.rest
            &&& f.value == unescaped(raw)
            &&& closing(end, f.rest, f.last)
        }),
{
    let t = s.drop_first();
    let (raw, end) = lemma_quoted_field_parts(t);
    let f = quoted_field(t);
    assert(s == seq!['"'] + t);
    assert(s == seq!['"'] + raw + end + f.rest);
    (raw, end)
}

/// Whether `end` closes a quoted field before `rest`.
pub open spec fn closing(end: Seq<char>, rest: Seq<char>, last: bool) -> bool {
    ||| last && rest.len() == 0 && end.len() == 0
    ||| exists|blanks: Seq<char>, sep: Seq<char>|
        end == seq!['"'] + blanks + sep && #[trigger] separated(
            blanks,
            sep,
            rest,
            last,
        )
}

/// Whether `blanks` and `sep` stand before `rest`.
pub open spec fn separated(
    blanks: Seq<char>,
    sep: Seq<char>,
    rest: Seq<char>,
    last: bool,
) -> bool {
    all_blank(blanks) && separates(sep, rest, last)
}

proof fn lemma_blanks(s: Seq<char>) -> (blanks: Seq<char>)
    ensures
        all_blank(blanks),
        s == blanks + behind_blanks(s),
    decreases s.len(),
{
    if s.len() > 0 && (s[0] == ' ' || s[0] == '\t') {
        let more = lemma_blanks(s.drop_first());
        let blanks = seq![s[0]] + more;
        assert(s == seq![s[0]] + s.drop_first());
        assert(s == blanks + behind_blanks(s));
        blanks
    } else {
        assert(s == Seq::<char>::empty() + s);
        Seq::empty()
    }
}

proof fn lemma_closed_field_parts(s: Seq<char>) -> (end: Seq<char>)
    requires
        closes(s),
    ensures
        s == end + closed_field(s).rest,
        closing(seq!['"'] + end, closed_field(s).rest, closed_field(s).last),
{
    let blanks = lemma_blanks(s);
    let t = behind_blanks(s);
    let f = closed_field(s);
    let sep = t.take(t.len() - f.rest.len());
    if t.len() == 0 {
        assert(sep == Seq::<char>::empty());
    } else if t[0] == '\r' {
        if t.len() == 1 {
            assert(sep == seq!['\r']);
        } else {
            assert(sep == seq!['\r', t[1]]);
        }
    } else {
        assert(sep == seq![t[0]]);
    }
    assert(t == sep + f.rest);
    assert(s == blanks + sep + f.rest);
    assert(seq!['"'] + (blanks + sep) == seq!['"'] + blanks + sep);
    assert(separated(blanks, sep, f.rest, f.last));
    blanks + sep
}

proof fn lemma_quoted_field_parts(s: Seq<char>) -> (parts: (Seq<char>, Seq<char>))
    ensures
        ({
            let (raw, end) = parts;
            let f = quoted_field(s);
            &&& s == raw + end + f.rest
            &&& f.value == unescaped(raw)
            &&& closing(end, f.rest, f.last)
        }),
    decreases s.len(),
{
    let f = quoted_field(s);
    let none = Seq::<char>::empty();
    if s.len() == 0 {
        assert(s == none + none + f.rest);
        (none, none)
    } else if s[0] == '"' && s.len() > 1 && s[1] == '"' {
        let (raw, end) = lemma_quoted_field_parts(s.skip(2));
        let all = seq!['"', '"'] + raw;
        assert(s == seq!['"', '"'] + s.skip(2));
        assert(s == all + end + f.rest);
        assert(all.skip(2) == raw);
        (all, end)
    } else if s[0] == '"' && closes(s.drop_first()) {
        let end = lemma_closed_field_parts(s.drop_first());
        assert(s == seq!['"'] + s.drop_first());
        assert(s == none + (seq!['"'] + end) + f.rest);
        (none, seq!['"'] + end)
    } else {
        let (raw, end) = lemma_quoted_field_parts(s.drop_first());
        let all = seq![s[0]] + raw;
        assert(s == seq![s[0]] + s.drop_first());
        assert(s == all + end + f.rest);
        if raw.len() > 0 {
            assert(raw[0] == s[1]);
        }
        assert(all.drop_first() == raw);
        (all, end)
    }
}

} // verus!
