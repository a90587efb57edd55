//! Reading a CSV file into a batch, its columns picked by name.

use vstd::prelude::*;

use crate::loader::batch::{field_views, Batch, BatchView, Field};
use crate::loader::batch_util::batch_views;
use crate::loader::cells::ascii_text;
use crate::loader::chunked_io::{
    align_run, file_view, lemma_run_determined, outcome, read_fields, read_outcome,
    read_parse_chunked,
};
use crate::loader::csv_scan::{
    behind_blank_lines, behind_lines, next_fields, FieldScan, Scanner, ScannerView,
};
use crate::loader::gbk::{all_ascii, decode_gbk, gbk_text};
use crate::loader::schema::SchemaView;
use crate::loader::table::{
    countable, read_table, readable, source_views, table, table_complaint, Plan,
};
use crate::text::{copied, joined, same_text, texts, trimmed};

pub use crate::loader::cells::DateFormat;
pub use crate::loader::column_builder::ColumnBuilder;
pub use crate::loader::schema::{ColType, ParseOptions, SchemaSpec};

verus! {

/// A scanner at the start of a file.
pub open spec fn file_start(text: Seq<char>, opts: ParseOptions) -> ScannerView {
    ScannerView {
        rest: behind_lines(text, opts.skip_rows as nat),
        quoting: opts.quoting,
        trim: opts.trim,
    }
}

/// Whether a file has a header: a record at all.
pub open spec fn has_header(start: ScannerView) -> bool {
    behind_blank_lines(start.rest).len() > 0
}

/// The header names of a file. They are always trimmed.
pub open spec fn header_names(start: ScannerView) -> Seq<Seq<char>> {
    next_fields(start).map_values(|f: FieldScan| trimmed(f.value))
}

/// A scanner behind the header of a file.
pub open spec fn behind_header(start: ScannerView) -> ScannerView {
    ScannerView { rest: next_fields(start).last().rest, ..start }
}

/// The index of the last name that is `name`.
pub open spec fn last_index(names: Seq<Seq<char>>, name: Seq<char>) -> Option<nat>
    decreases names.len(),
{
    if names.len() == 0 {
        None
    } else if names.last() == name {
        Some((names.len() - 1) as nat)
    } else {
        last_index(names.drop_last(), name)
    }
}

/// Where the columns of a batch come from: with `columns`, each from the field
/// under its name, in the order that was asked for; without, every field in
/// the order of the file.
pub open spec fn column_plan(headers: Seq<Seq<char>>, columns: Option<Seq<Seq<char>>>) -> Plan {
    match columns {
        Some(names) => Plan {
            names,
            sources: names.map_values(|name: Seq<char>| last_index(headers, name)),
        },
        None => Plan {
            names: headers,
            sources: Seq::new(headers.len(), |i: int| Some(i as nat)),
        },
    }
}

/// The names of requested columns.
pub open spec fn requested(columns: Option<&[String]>) -> Option<Seq<Seq<char>>> {
    match columns {
        Some(names) => Some(texts(names@)),
        None => None,
    }
}

/// Whether a text can be parsed: it has a header, and its table can be read.
pub open spec fn parses(
    text: Seq<char>,
    columns: Option<Seq<Seq<char>>>,
    schema: SchemaView,
    opts: ParseOptions,
) -> bool {
    let start = file_start(text, opts);
    has_header(start) && readable(
        behind_header(start),
        column_plan(header_names(start), columns),
        schema,
    )
}

/// The batch that a text is parsed into.
pub open spec fn parsed(
    text: Seq<char>,
    columns: Option<Seq<Seq<char>>>,
    schema: SchemaView,
    opts: ParseOptions,
) -> BatchView {
    let start = file_start(text, opts);
    table(behind_header(start), column_plan(header_names(start), columns), schema)
}

/// The complaint about a text that cannot be parsed.
pub open spec fn parse_complaint(
    text: Seq<char>,
    columns: Option<Seq<Seq<char>>>,
    schema: SchemaView,
    opts: ParseOptions,
) -> Seq<char> {
    let start = file_start(text, opts);
    if has_header(start) {
        table_complaint(
            behind_header(start),
            column_plan(header_names(start), columns),
            schema,
        )
    } else {
        "文件无表头"@
    }
}

/// The index of the last name that is `name`.
fn find_last(names: &[String], name: &str) -> (r: Option<usize>)
    ensures
        r is Some <==> last_index(texts(names@), name@) is Some,
        r matches Some(k) ==> last_index(texts(names@), name@) == Some(k as nat) && k
            < names@.len() <= usize::MAX,
{
    let ghost views = texts(names@);
    let mut i: usize = names.len();
    assert(views.take(i as int) == views);
    while i > 0
        invariant
            views == texts(names@),
            i <= names@.len(),
            last_index(views, name@) == last_index(views.take(i as int), name@),
        decreases i,
    {
        proof {
            assert(views[i - 1] == names@[i - 1]@);
            assert(views.take(i as int).drop_last() == views.take(i - 1));
        }
        i = i - 1;
        if same_text(names[i].as_str(), name) {
            return Some(i);
        }
    }
    None
}

/// The field that holds each column.
fn find_sources(headers: &[String], columns: Option<&[String]>) -> (r: Vec<Option<usize>>)
    ensures
        source_views(r@) == column_plan(texts(headers@), requested(columns)).sources,
        countable(r@),
{
    let ghost plan = column_plan(texts(headers@), requested(columns));
    let mut r: Vec<Option<usize>> = Vec::new();
    let mut i: usize = 0;
    match columns {
        Some(names) => {
            while i < names.len()
                invariant
                    columns == Some(names),
                    plan == column_plan(texts(headers@), requested(columns)),
                    i <= names@.len(),
                    r@.len() == i,
                    forall|k: int|
                        0 <= k < i ==> source_views(r@)[k] == #[trigger] plan.sources[k],
                    forall|k: int|
                        0 <= k < i && (#[trigger] r@[k]) is Some ==> r@[k]->0 < usize::MAX,
                decreases names@.len() - i,
            {
                let k = find_last(headers, names[i].as_str());
                r.push(k);
                i = i + 1;
            }
        },
        None => {
            while i < headers.len()
                invariant
                    columns is None,
                    plan == column_plan(texts(headers@), requested(columns)),
                    i <= headers@.len(),
                    r@.len() == i,
                    forall|k: int|
                        0 <= k < i ==> source_views(r@)[k] == #[trigger] plan.sources[k],
                    forall|k: int|
                        0 <= k < i && (#[trigger] r@[k]) is Some ==> r@[k]->0 < usize::MAX,
                decreases headers@.len() - i,
            {
                r.push(Some(i));
                i = i + 1;
            }
        },
    }
    assert(source_views(r@) == plan.sources);
    r
}

/// Parses a CSV text.
///
/// `columns` are found by name, in any order, and come out in the order of
/// `columns`. One that the file lacks is a column of nulls.
pub fn parse_csv_from_text(
    text: &str,
    columns: Option<&[String]>,
    schema_spec: &SchemaSpec,
    opts: &ParseOptions,
) -> (r: Result<Batch, String>)
    ensures
        r is Ok <==> parses(text@, requested(columns), schema_spec@, *opts),
        r matches Ok(b) ==> b@ == parsed(text@, requested(columns), schema_spec@, *opts),
        r matches Err(e) ==> e@ == parse_complaint(
            text@,
            requested(columns),
            schema_spec@,
            *opts,
        ),
{
    let mut scanner = Scanner::new(text, opts.skip_rows, opts.quoting, opts.trim);
    let headers = match scanner.read_row() {
        Some(headers) => headers,
        None => {
            return Err(copied("文件无表头"));
        },
    };
    let ghost start = file_start(text@, *opts);
    let sources = find_sources(headers.as_slice(), columns);
    proof {
        assert(texts(headers@) == header_names(start));
        assert(scanner@ == behind_header(start));
    }
    let names: &[String] = match columns {
        Some(names) => names,
        None => headers.as_slice(),
    };
    assert(source_views(sources@).len() == names@.len());
    read_table(scanner, names, sources.as_slice(), schema_spec)
}

/// Parses the GBK bytes of a CSV file.
pub fn parse_csv_from_bytes(
    raw: &[u8],
    columns: Option<&[String]>,
    schema_spec: &SchemaSpec,
    opts: &ParseOptions,
) -> (r: Result<Batch, String>)
    requires
        raw@.len() < usize::MAX / 8,
    ensures
        all_ascii(raw@) ==> gbk_text(raw@) == ascii_text(raw@),
        r is Ok <==> parses(gbk_text(raw@), requested(columns), schema_spec@, *opts),
        r matches Ok(b) ==> b@ == parsed(gbk_text(raw@), requested(columns), schema_spec@, *opts),
        r matches Err(e) ==> e@ == parse_complaint(
            gbk_text(raw@),
            requested(columns),
            schema_spec@,
            *opts,
        ),
{
    let text = decode_gbk(raw);
    parse_csv_from_text(text.as_str(), columns, schema_spec, opts)
}

/// What a file is parsed into. A complaint names the file.
pub open spec fn file_outcome(
    file: Result<Seq<u8>, Seq<char>>,
    path: Seq<char>,
    columns: Option<Seq<Seq<char>>>,
    schema: SchemaView,
    opts: ParseOptions,
) -> Result<BatchView, Seq<char>> {
    match file {
        Err(e) => Err(e),
        Ok(bytes) => if parses(gbk_text(bytes), columns, schema, opts) {
            Ok(parsed(gbk_text(bytes), columns, schema, opts))
        } else {
            Err(path + ": "@ + parse_complaint(gbk_text(bytes), columns, schema, opts))
        },
    }
}

/// Parses the GBK bytes of the CSV file at a path, for a complaint that names
/// it.
pub fn parse_csv_file(
    raw: &[u8],
    path: &str,
    columns: Option<&[String]>,
    schema_spec: &SchemaSpec,
    opts: &ParseOptions,
) -> (r: Result<Batch, String>)
    requires
        raw@.len() < usize::MAX / 8,
    ensures
        outcome(r) == file_outcome(Ok(raw@), path@, requested(columns), schema_spec@, *opts),
        r matches Ok(b) ==> b@.fields.len() > 0,
{
    match parse_csv_from_bytes(raw, columns, schema_spec, opts) {
        Ok(b) => Ok(b),
        Err(e) => {
            let mut s = joined(path, ": ");
            s.append(e.as_str());
            Err(s)
        },
    }
}

/// What files are parsed into.
pub open spec fn file_outcomes(
    files: Seq<Result<Vec<u8>, String>>,
    paths: Seq<String>,
    columns: Option<Seq<Seq<char>>>,
    schema: SchemaView,
    opts: ParseOptions,
) -> Seq<Result<BatchView, Seq<char>>> {
    Seq::new(
        files.len(),
        |i: int| file_outcome(file_view(files[i]), paths[i]@, columns, schema, opts),
    )
}

/// Parses CSV files that were read, chunk by chunk, and aligns the batches of
/// the chunks by name.
pub fn read_csvs_to_batches(
    paths: &[String],
    files: &[Result<Vec<u8>, String>],
    columns: Option<&[String]>,
    schema_spec: &SchemaSpec,
    opts: &ParseOptions,
) -> (r: Result<(Vec<Field>, Vec<Batch>), String>)
    requires
        paths@.len() == files@.len(),
        forall|i: int|
            0 <= i < files@.len() && (#[trigger] files@[i]) is Ok ==> files@[i]->Ok_0@.len()
                < usize::MAX / 8,
    ensures
        ({
            let all = file_outcomes(files@, paths@, requested(columns), schema_spec@, *opts);
            match read_outcome(all) {
                Err(e) => r matches Err(s) && s@ == e,
                Ok(batches) => r matches Ok((fields, out)) && field_views(fields@)
                    == read_fields(all) && batch_views(out@) == batches,
            }
        }),
{
    let parse = |bytes: &[u8], path: &str| -> (r: Result<Batch, String>)
        requires
            bytes@.len() < usize::MAX / 8,
        ensures
            outcome(r) == file_outcome(
                Ok(bytes@),
                path@,
                requested(columns),
                schema_spec@,
                *opts,
            ),
            r matches Ok(b) ==> b@.fields.len() > 0,
        { parse_csv_file(bytes, path, columns, schema_spec, opts) };
    let ghost all = file_outcomes(files@, paths@, requested(columns), schema_spec@, *opts);
    let run = read_parse_chunked(paths, files, parse);
    proof {
        lemma_run_determined(parse, files@, paths@, all, run);
    }
    align_run(run)
}

} // verus!
