//! What holds of parsing as a whole.

use vstd::prelude::*;

use crate::loader::cells::unsigned;
use crate::loader::column_builder::{all_failed, cell_of, numeric, BuilderView};
use crate::loader::csv_laws::{law_record_round_trip, written};
use crate::loader::csv_scan::{
    behind_blank_lines, behind_next, field_text, lemma_record_len, next_fields, starts_blank,
    FieldScan, ScannerView,
};
use crate::loader::fina_reader::{excluded, kept_plan, renamed};
use crate::loader::schema::{declared_type, ColTypeView, ParseOptions, SchemaView};
use crate::loader::stock_reader::{
    behind_header, column_plan, file_start, has_header, header_names, last_index, parsed, parses,
};
use crate::loader::table::{
    column_values, filled_builder, filled_builders, first_all_failed,
    lemma_first_all_failed_unique, records, value_at,
};
use crate::text::{lemma_trimmed_empty, lemma_trimmed_idempotent, trimmed};

verus! {

proof fn lemma_last_index(names: Seq<Seq<char>>, name: Seq<char>)
    ensures
        last_index(names, name) matches Some(k) ==> k < names.len() && names[k as int] == name,
    decreases names.len(),
{
    if names.len() > 0 && names.last() != name {
        lemma_last_index(names.drop_last(), name);
    }
}

/// A column that is asked for by name holds what it holds when the whole file
/// is read, wherever it is asked for and whatever else is.
pub proof fn law_columns_by_name(
    text: Seq<char>,
    columns: Seq<Seq<char>>,
    schema: SchemaView,
    opts: ParseOptions,
    i: int,
)
    requires
        0 <= i < columns.len(),
        last_index(header_names(file_start(text, opts)), columns[i]) is Some,
    ensures
        ({
            let k = last_index(header_names(file_start(text, opts)), columns[i])->0 as int;
            let asked = parsed(text, Some(columns), schema, opts);
            let whole = parsed(text, None, schema, opts);
            &&& 0 <= k < whole.columns.len()
            &&& asked.fields[i] == whole.fields[k]
            &&& asked.columns[i] == whole.columns[k]
            &&& asked.rows == whole.rows
        }),
{
    let start = file_start(text, opts);
    let headers = header_names(start);
    let body = behind_header(start);
    let name = columns[i];
    lemma_last_index(headers, name);
    let k = last_index(headers, name)->0 as int;
    let asked = column_plan(headers, Some(columns));
    let whole = column_plan(headers, None);
    assert(asked.sources[i] == whole.sources[k]);
    assert(column_values(body, asked, i) == column_values(body, whole, k));
    assert(filled_builder(body, asked, schema, i) == filled_builder(body, whole, schema, k));
}

/// Asking for columns that the file has, and for at least one, changes neither
/// the rows nor what a column holds: a file that can be read as a whole can be
/// read, and each column is the one of its name.
pub proof fn law_projection(
    text: Seq<char>,
    columns: Seq<Seq<char>>,
    schema: SchemaView,
    opts: ParseOptions,
)
    requires
        parses(text, None, schema, opts),
        columns.len() > 0,
        forall|i: int|
            0 <= i < columns.len() ==> header_names(file_start(text, opts)).contains(
                #[trigger] columns[i],
            ),
    ensures
        parses(text, Some(columns), schema, opts),
        ({
            let headers = header_names(file_start(text, opts));
            let asked = parsed(text, Some(columns), schema, opts);
            let whole = parsed(text, None, schema, opts);
            &&& asked.rows == whole.rows
            &&& asked.columns.len() == columns.len()
            &&& forall|i: int|
                0 <= i < columns.len() ==> {
                    let k = last_index(headers, #[trigger] columns[i])->0 as int;
                    &&& 0 <= k < headers.len()
                    &&& headers[k] == columns[i]
                    &&& asked.fields[i] == whole.fields[k]
                    &&& asked.columns[i] == whole.columns[k]
                }
        }),
{
    let start = file_start(text, opts);
    let headers = header_names(start);
    let body = behind_header(start);
    let asked = column_plan(headers, Some(columns));
    let whole = column_plan(headers, None);
    let builders = filled_builders(body, asked, schema);
    let all = filled_builders(body, whole, schema);
    assert forall|i: int| 0 <= i < columns.len() implies {
        let k = last_index(headers, #[trigger] columns[i])->0 as int;
        &&& 0 <= k < headers.len()
        &&& headers[k] == columns[i]
        &&& parsed(text, Some(columns), schema, opts).fields[i] == parsed(
            text,
            None,
            schema,
            opts,
        ).fields[k]
        &&& parsed(text, Some(columns), schema, opts).columns[i] == parsed(
            text,
            None,
            schema,
            opts,
        ).columns[k]
    } by {
        lemma_last_index_found(headers, columns[i]);
        lemma_last_index(headers, columns[i]);
        law_columns_by_name(text, columns, schema, opts, i);
    }
    assert forall|i: int| 0 <= i < builders.len() implies !all_failed(#[trigger] builders[i]) by {
        let name = columns[i];
        lemma_last_index_found(headers, name);
        lemma_last_index(headers, name);
        let k = last_index(headers, name)->0 as int;
        lemma_none_failed(all, k);
        assert(asked.sources[i] == whole.sources[k]);
        assert(column_values(body, asked, i) == column_values(body, whole, k));
        assert(builders[i] == all[k]);
    }
    lemma_first_all_failed_unique(builders, builders.len() as int);
}

proof fn lemma_last_index_found(names: Seq<Seq<char>>, name: Seq<char>)
    requires
        names.contains(name),
    ensures
        last_index(names, name) is Some,
    decreases names.len(),
{
    if names.last() != name {
        let i = choose|i: int| 0 <= i < names.len() && names[i] == name;
        assert(names.drop_last()[i] == name);
        lemma_last_index_found(names.drop_last(), name);
    }
}

proof fn lemma_none_failed(builders: Seq<BuilderView>, k: int)
    requires
        0 <= k < builders.len(),
        first_all_failed(builders) == builders.len(),
    ensures
        !all_failed(builders[k]),
    decreases builders.len(),
{
    lemma_first_all_failed_least(builders.drop_first());
    if k > 0 {
        lemma_none_failed(builders.drop_first(), k - 1);
    }
}

proof fn lemma_first_all_failed_least(builders: Seq<BuilderView>)
    ensures
        0 <= first_all_failed(builders) <= builders.len(),
    decreases builders.len(),
{
    if builders.len() > 0 {
        lemma_first_all_failed_least(builders.drop_first());
    }
}

/// An empty field is null, whatever its column's type.
pub proof fn law_empty_field_is_null(t: ColTypeView)
    ensures
        cell_of(t, Seq::empty()) is None,
{
    let empty = Seq::<char>::empty();
    lemma_trimmed_empty(empty);
    assert(trimmed(empty).len() == 0);
    assert(trimmed(empty) == empty);
    assert(unsigned(empty) == empty);
}

/// A column that the file lacks comes out as a column of nulls.
pub proof fn law_absent_column_is_null(
    text: Seq<char>,
    columns: Seq<Seq<char>>,
    schema: SchemaView,
    opts: ParseOptions,
    i: int,
    row: int,
)
    requires
        0 <= i < columns.len(),
        last_index(header_names(file_start(text, opts)), columns[i]) is None,
        0 <= row < parsed(text, Some(columns), schema, opts).rows,
    ensures
        parsed(text, Some(columns), schema, opts).columns[i].cells[row] is None,
{
    let start = file_start(text, opts);
    let plan = column_plan(header_names(start), Some(columns));
    let b = filled_builder(behind_header(start), plan, schema, i);
    assert(plan.sources[i] is None);
    assert(b.values[row] == Seq::<char>::empty());
    law_empty_field_is_null(b.col_type);
}

/// Header names are trimmed whether or not fields are.
pub proof fn law_headers_always_trimmed(start: ScannerView, trim: bool)
    ensures
        header_names(ScannerView { trim, ..start }) == header_names(start),
        forall|i: int|
            0 <= i < header_names(start).len() ==> trimmed(#[trigger] header_names(start)[i])
                == header_names(start)[i],
{
    let names = header_names(start);
    let other = ScannerView { trim, ..start };
    assert(next_fields(other) == next_fields(start));
    assert forall|i: int| 0 <= i < names.len() implies trimmed(#[trigger] names[i]) == names[i] by {
        lemma_trimmed_idempotent(next_fields(start)[i].value);
    }
}

/// Numbers and dates read the same whether or not fields are trimmed.
pub proof fn law_numbers_ignore_trim(t: ColTypeView, value: Seq<char>)
    requires
        t != ColTypeView::Str,
    ensures
        cell_of(t, field_text(value, true)) == cell_of(t, field_text(value, false)),
{
    lemma_trimmed_idempotent(value);
}

/// A file with a header is never refused where every column that is asked
/// for, and there is one, is declared or falls to a type that is no number.
pub proof fn law_declared_never_refused(
    text: Seq<char>,
    columns: Option<Seq<Seq<char>>>,
    schema: SchemaView,
    opts: ParseOptions,
)
    requires
        has_header(file_start(text, opts)),
        columns matches Some(names) ==> names.len() > 0,
        ({
            let names = column_plan(header_names(file_start(text, opts)), columns).names;
            forall|i: int|
                0 <= i < names.len() ==> {
                    let (t, declared) = declared_type(schema, #[trigger] names[i]);
                    declared || !numeric(t)
                }
        }),
    ensures
        parses(text, columns, schema, opts),
{
    let start = file_start(text, opts);
    let body = behind_header(start);
    let plan = column_plan(header_names(start), columns);
    let builders = filled_builders(body, plan, schema);
    lemma_record_len(behind_blank_lines(start.rest), start.quoting);
    assert forall|i: int| 0 <= i < builders.len() implies !all_failed(#[trigger] builders[i]) by {
        let (t, declared) = declared_type(schema, plan.names[i]);
        assert(declared || !numeric(t));
    }
    lemma_first_all_failed_unique(builders, builders.len() as int);
}

/// The lines of records, every field quoted.
pub open spec fn written_lines(rows: Seq<Seq<Seq<char>>>) -> Seq<char>
    decreases rows.len(),
{
    if rows.len() == 0 {
        Seq::empty()
    } else {
        written(rows[0]) + written_lines(rows.drop_first())
    }
}

/// The records of lines that were written with every field quoted are found
/// again, field by field.
pub proof fn law_lines_round_trip(rows: Seq<Seq<Seq<char>>>, trim: bool)
    requires
        forall|i: int| 0 <= i < rows.len() ==> (#[trigger] rows[i]).len() > 0,
    ensures
        ({
            let found = records(ScannerView { rest: written_lines(rows), quoting: true, trim });
            &&& found.len() == rows.len()
            &&& forall|i: int|
                0 <= i < rows.len() ==> (#[trigger] found[i]).map_values(
                    |f: FieldScan| f.value,
                ) == rows[i]
        }),
    decreases rows.len(),
{
    let scanner = ScannerView { rest: written_lines(rows), quoting: true, trim };
    if rows.len() == 0 {
        assert(!starts_blank(scanner.rest));
    } else {
        let more = rows.drop_first();
        let tail = written_lines(more);
        assert(rows[0].len() > 0);
        law_record_round_trip(rows[0], tail, trim);
        let fields = next_fields(scanner);
        assert(behind_next(scanner) == (ScannerView { rest: tail, quoting: true, trim }));
        assert forall|i: int| 0 <= i < more.len() implies (#[trigger] more[i]).len() > 0 by {
            assert(rows[i + 1].len() > 0);
        }
        law_lines_round_trip(more, trim);
        lemma_record_len(scanner.rest, true);
        let found = records(scanner);
        let rest = records(behind_next(scanner));
        assert(found == seq![fields] + rest);
        assert forall|i: int| 0 <= i < rows.len() implies (#[trigger] found[i]).map_values(
            |f: FieldScan| f.value,
        ) == rows[i] by {
            if i > 0 {
                assert(found[i] == rest[i - 1]);
                assert(more[i - 1] == rows[i]);
            }
        }
    }
}

/// A file that was written with every field quoted is read back: a column for
/// each header, a row for each record, and each cell is what its column's type
/// makes of the field.
pub proof fn law_file_round_trip(
    header: Seq<Seq<char>>,
    rows: Seq<Seq<Seq<char>>>,
    schema: SchemaView,
    trim: bool,
    row: int,
    i: int,
)
    requires
        0 <= row < rows.len(),
        0 <= i < header.len(),
        forall|k: int| 0 <= k < rows.len() ==> (#[trigger] rows[k]).len() > 0,
    ensures
        ({
            let opts = ParseOptions { skip_rows: 0, quoting: true, trim };
            let text = written(header) + written_lines(rows);
            let b = parsed(text, None, schema, opts);
            let value = if i < rows[row].len() {
                field_text(rows[row][i], trim)
            } else {
                Seq::empty()
            };
            &&& b.fields.len() == header.len()
            &&& b.fields[i].name == trimmed(header[i])
            &&& b.rows == rows.len()
            &&& b.columns[i].cells[row] == cell_of(
                declared_type(schema, trimmed(header[i])).0,
                value,
            )
        }),
{
    let opts = ParseOptions { skip_rows: 0, quoting: true, trim };
    let tail = written_lines(rows);
    let text = written(header) + tail;
    let start = file_start(text, opts);
    assert(start == (ScannerView { rest: text, quoting: true, trim }));
    law_record_round_trip(header, tail, trim);
    let fields = next_fields(start);
    let contents = fields.map_values(|f: FieldScan| f.value);
    assert(contents.len() == fields.len());
    let names = header_names(start);
    assert forall|k: int| 0 <= k < header.len() implies #[trigger] names[k] == trimmed(
        header[k],
    ) by {
        assert(contents[k] == header[k]);
    }
    let body = behind_header(start);
    lemma_record_len(text, true);
    assert(body == (ScannerView { rest: tail, quoting: true, trim }));
    let plan = column_plan(names, None);
    law_lines_round_trip(rows, trim);
    let found = records(body);
    let record = found[row].map_values(|f: FieldScan| f.value);
    assert(record == rows[row]);
    assert(record.len() == found[row].len());
    if i < rows[row].len() {
        assert(record[i] == found[row][i].value);
    }
    assert(column_values(body, plan, i)[row] == value_at(found[row], Some(i as nat), trim));
}

/// Of a financial statement every column is kept, under the name that it is
/// given, but for one without a name or whose name starts with `Unnamed` or
/// with the words for the time of download.
pub proof fn law_kept_columns(
    headers: Seq<Seq<char>>,
    renames: Seq<(Seq<char>, Seq<char>)>,
    k: int,
)
    requires
        0 <= k < headers.len(),
    ensures
        ({
            let plan = kept_plan(headers, renames);
            &&& plan.names.len() == plan.sources.len()
            &&& headers[k].len() == 0 || "Unnamed"@.is_prefix_of(headers[k])
                || "抓取时间"@.is_prefix_of(headers[k]) <==> !plan.sources.contains(
                Some(k as nat),
            )
            &&& forall|j: int|
                0 <= j < plan.sources.len() && #[trigger] plan.sources[j] == Some(k as nat)
                    ==> plan.names[j] == renamed(renames, headers[k])
        }),
    decreases headers.len(),
{
    lemma_kept_sources(headers, renames);
    let plan = kept_plan(headers, renames);
    let last = headers.len() - 1;
    let front = headers.drop_last();
    let before = kept_plan(front, renames);
    lemma_kept_sources(front, renames);
    if k < last {
        law_kept_columns(front, renames, k);
        assert(front[k] == headers[k]);
        if before.sources.contains(Some(k as nat)) {
            let j = choose|j: int|
                0 <= j < before.sources.len() && before.sources[j] == Some(k as nat);
            assert(plan.sources[j] == Some(k as nat));
        }
        if plan.sources.contains(Some(k as nat)) {
            let j = choose|j: int|
                0 <= j < plan.sources.len() && plan.sources[j] == Some(k as nat);
            assert(j < before.sources.len());
            assert(before.sources[j] == Some(k as nat));
        }
        assert forall|j: int|
            0 <= j < plan.sources.len() && #[trigger] plan.sources[j] == Some(
                k as nat,
            ) implies plan.names[j] == renamed(renames, headers[k]) by {
            assert(before.sources[j] == Some(k as nat));
        }
    } else if !excluded(headers[k]) {
        assert(plan.sources[plan.sources.len() - 1] == Some(k as nat));
        assert forall|j: int|
            0 <= j < plan.sources.len() && #[trigger] plan.sources[j] == Some(
                k as nat,
            ) implies plan.names[j] == renamed(renames, headers[k]) by {
            if j < before.sources.len() {
                assert(before.sources[j]->0 < last);
            }
        }
    }
}

/// The fields that hold kept columns are fields of the header.
proof fn lemma_kept_sources(headers: Seq<Seq<char>>, renames: Seq<(Seq<char>, Seq<char>)>)
    ensures
        ({
            let plan = kept_plan(headers, renames);
            &&& plan.names.len() == plan.sources.len()
            &&& forall|j: int|
                0 <= j < plan.sources.len() ==> (#[trigger] plan.sources[j]) is Some
                    && plan.sources[j]->0 < headers.len()
        }),
    decreases headers.len(),
{
    if headers.len() > 0 {
        lemma_kept_sources(headers.drop_last(), renames);
        let before = kept_plan(headers.drop_last(), renames);
        let plan = kept_plan(headers, renames);
        assert forall|j: int| 0 <= j < plan.sources.len() implies (
        #[trigger] plan.sources[j]) is Some && plan.sources[j]->0 < headers.len() by {
            if j < before.sources.len() {
                assert(plan.sources[j] == before.sources[j]);
            }
        }
    }
}

} // verus!
