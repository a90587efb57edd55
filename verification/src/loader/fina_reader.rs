//! Reading the CSV file of a financial statement into a batch.
//!
//! These files differ in their columns. Every column is kept but for those
//! that carry nothing, and the batches are aligned by name afterwards.

use vstd::prelude::*;

use crate::loader::batch::{field_views, Batch, BatchView, Field};
use crate::loader::batch_util::batch_views;
use crate::loader::cells::ascii_text;
use crate::loader::chunked_io::{
    align_run, file_view, lemma_run_determined, outcome, read_fields, read_outcome,
    read_parse_chunked,
};
use crate::loader::csv_scan::Scanner;
use crate::loader::gbk::{all_ascii, decode_gbk, gbk_text};
use crate::loader::schema::{
    find_paired, paired_with, text_pairs, ParseOptions, SchemaSpec, SchemaView,
};
use crate::loader::stock_reader::{behind_header, file_start, has_header, header_names};
use crate::loader::table::{
    countable, read_table, readable, source_views, table, table_complaint, Plan,
};
use crate::text::{behind_prefix, copied, joined, texts};

verus! {

/// Whether a column is left out: it has no name, or one that tells that it
/// holds no statement line.
pub open spec fn excluded(header: Seq<char>) -> bool {
    header.len() == 0 || "Unnamed"@.is_prefix_of(header) || "抓取时间"@.is_prefix_of(header)
}

/// The name that a column gets: its new name where it is renamed.
pub open spec fn renamed(renames: Seq<(Seq<char>, Seq<char>)>, header: Seq<char>) -> Seq<char> {
    match paired_with(renames, header) {
        Some(name) => name,
        None => header,
    }
}

/// Where the columns of a batch come from: every column that is not left out,
/// in the order of the file.
pub open spec fn kept_plan(
    headers: Seq<Seq<char>>,
    renames: Seq<(Seq<char>, Seq<char>)>,
) -> Plan
    decreases headers.len(),
{
    if headers.len() == 0 {
        Plan { names: Seq::empty(), sources: Seq::empty() }
    } else {
        let front = kept_plan(headers.drop_last(), renames);
        if excluded(headers.last()) {
            front
        } else {
            Plan {
                names: front.names.push(renamed(renames, headers.last())),
                sources: front.sources.push(Some((headers.len() - 1) as nat)),
            }
        }
    }
}

/// Whether a text can be parsed: it has a header, and its table can be read.
pub open spec fn fina_parses(
    text: Seq<char>,
    schema: SchemaView,
    renames: Seq<(Seq<char>, Seq<char>)>,
    opts: ParseOptions,
) -> bool {
    let start = file_start(text, opts);
    has_header(start) && readable(
        behind_header(start),
        kept_plan(header_names(start), renames),
        schema,
    )
}

/// The batch that a text is parsed into.
pub open spec fn fina_parsed(
    text: Seq<char>,
    schema: SchemaView,
    renames: Seq<(Seq<char>, Seq<char>)>,
    opts: ParseOptions,
) -> BatchView {
    let start = file_start(text, opts);
    table(behind_header(start), kept_plan(header_names(start), renames), schema)
}

/// The complaint about a text that cannot be parsed.
pub open spec fn fina_complaint(
    text: Seq<char>,
    schema: SchemaView,
    renames: Seq<(Seq<char>, Seq<char>)>,
    opts: ParseOptions,
) -> Seq<char> {
    let start = file_start(text, opts);
    if has_header(start) {
        table_complaint(behind_header(start), kept_plan(header_names(start), renames), schema)
    } else {
        "文件无表头"@
    }
}

/// Whether a column is left out.
fn is_excluded(header: &str) -> (r: bool)
    ensures
        r == excluded(header@),
{
    header.is_empty() || behind_prefix(header, "Unnamed").is_some() || behind_prefix(
        header,
        "抓取时间",
    ).is_some()
}

/// The names of the columns that are kept, and the fields that hold them.
fn keep_columns(headers: &[String], renames: &[(String, String)]) -> (r: (
    Vec<String>,
    Vec<Option<usize>>,
))
    ensures
        texts(r.0@) == kept_plan(texts(headers@), text_pairs(renames@)).names,
        source_views(r.1@) == kept_plan(texts(headers@), text_pairs(renames@)).sources,
        r.0@.len() == r.1@.len(),
        countable(r.1@),
{
    let ghost views = texts(headers@);
    let ghost pairs = text_pairs(renames@);
    let mut names: Vec<String> = Vec::new();
    let mut sources: Vec<Option<usize>> = Vec::new();
    let mut i: usize = 0;
    proof {
        assert(views.take(0) == Seq::<Seq<char>>::empty());
        assert(texts(names@) == Seq::<Seq<char>>::empty());
        assert(source_views(sources@) == Seq::<Option<nat>>::empty());
    }
    while i < headers.len()
        invariant
            views == texts(headers@),
            pairs == text_pairs(renames@),
            i <= headers@.len(),
            texts(names@) == kept_plan(views.take(i as int), pairs).names,
            source_views(sources@) == kept_plan(views.take(i as int), pairs).sources,
            names@.len() == sources@.len(),
            countable(sources@),
        decreases headers@.len() - i,
    {
        let header = headers[i].as_str();
        let ghost before = names@;
        let ghost known = sources@;
        proof {
            assert(views[i as int] == header@);
            assert(views.take(i + 1).drop_last() == views.take(i as int));
        }
        if !is_excluded(header) {
            let name = match find_paired(renames, header) {
                Some(name) => copied(name),
                None => copied(header),
            };
            names.push(name);
            sources.push(Some(i));
            proof {
                assert(texts(names@) == texts(before).push(name@));
                assert(source_views(sources@) == source_views(known).push(Some(i as nat)));
            }
        }
        i = i + 1;
    }
    assert(views.take(i as int) == views);
    (names, sources)
}

/// Parses the CSV text of a financial statement.
pub fn parse_fina_csv_from_text(
    text: &str,
    schema_spec: &SchemaSpec,
    renames: &[(String, String)],
    opts: &ParseOptions,
) -> (r: Result<Batch, String>)
    ensures
        r is Ok <==> fina_parses(text@, schema_spec@, text_pairs(renames@), *opts),
        r matches Ok(b) ==> b@ == fina_parsed(text@, schema_spec@, text_pairs(renames@), *opts),
        r matches Err(e) ==> e@ == fina_complaint(
            text@,
            schema_spec@,
            text_pairs(renames@),
            *opts,
        ),
{
    let mut scanner = Scanner::new(text, opts.skip_rows, opts.quoting, opts.trim);
    let headers = match scanner.read_row() {
        Some(headers) => headers,
        None => {
            return Err(copied("文件无表头"));
        },
    };
    let ghost start = file_start(text@, *opts);
    let (names, sources) = keep_columns(headers.as_slice(), renames);
    proof {
        assert(texts(headers@) == header_names(start));
        assert(scanner@ == behind_header(start));
    }
    read_table(scanner, names.as_slice(), sources.as_slice(), schema_spec)
}

/// Parses the GBK bytes of a financial statement's CSV file.
pub fn parse_fina_csv_from_bytes(
    raw: &[u8],
    schema_spec: &SchemaSpec,
    renames: &[(String, String)],
    opts: &ParseOptions,
) -> (r: Result<Batch, String>)
    requires
        raw@.len() < usize::MAX / 8,
    ensures
        all_ascii(raw@) ==> gbk_text(raw@) == ascii_text(raw@),
        r is Ok <==> fina_parses(gbk_text(raw@), schema_spec@, text_pairs(renames@), *opts),
        r matches Ok(b) ==> b@ == fina_parsed(
            gbk_text(raw@),
            schema_spec@,
            text_pairs(renames@),
            *opts,
        ),
        r matches Err(e) ==> e@ == fina_complaint(
            gbk_text(raw@),
            schema_spec@,
            text_pairs(renames@),
            *opts,
        ),
{
    let text = decode_gbk(raw);
    parse_fina_csv_from_text(text.as_str(), schema_spec, renames, opts)
}

/// What a file is parsed into. A complaint names the file.
pub open spec fn fina_file_outcome(
    file: Result<Seq<u8>, Seq<char>>,
    path: Seq<char>,
    schema: SchemaView,
    renames: Seq<(Seq<char>, Seq<char>)>,
    opts: ParseOptions,
) -> Result<BatchView, Seq<char>> {
    match file {
        Err(e) => Err(e),
        Ok(bytes) => if fina_parses(gbk_text(bytes), schema, renames, opts) {
            Ok(fina_parsed(gbk_text(bytes), schema, renames, opts))
        } else {
            Err(path + ": "@ + fina_complaint(gbk_text(bytes), schema, renames, opts))
        },
    }
}

/// Parses the GBK bytes of the financial statement at a path, for a complaint
/// that names it.
pub fn parse_fina_file(
    raw: &[u8],
    path: &str,
    schema_spec: &SchemaSpec,
    renames: &[(String, String)],
    opts: &ParseOptions,
) -> (r: Result<Batch, String>)
    requires
        raw@.len() < usize::MAX / 8,
    ensures
        outcome(r) == fina_file_outcome(
            Ok(raw@),
            path@,
            schema_spec@,
            text_pairs(renames@),
            *opts,
        ),
        r matches Ok(b) ==> b@.fields.len() > 0,
{
    match parse_fina_csv_from_bytes(raw, schema_spec, renames, opts) {
        Ok(b) => Ok(b),
        Err(e) => {
            let mut s = joined(path, ": ");
            s.append(e.as_str());
            Err(s)
        },
    }
}

/// What files are parsed into.
pub open spec fn fina_file_outcomes(
    files: Seq<Result<Vec<u8>, String>>,
    paths: Seq<String>,
    schema: SchemaView,
    renames: Seq<(Seq<char>, Seq<char>)>,
    opts: ParseOptions,
) -> Seq<Result<BatchView, Seq<char>>> {
    Seq::new(
        files.len(),
        |i: int| fina_file_outcome(file_view(files[i]), paths[i]@, schema, renames, opts),
    )
}

/// Parses the files of financial statements that were read, chunk by chunk,
/// and aligns the batches of the chunks by name.
pub fn read_fina_csvs_to_batches(
    paths: &[String],
    files: &[Result<Vec<u8>, String>],
    schema_spec: &SchemaSpec,
    renames: &[(String, String)],
    opts: &ParseOptions,
) -> (r: Result<(Vec<Field>, Vec<Batch>), String>)
    requires
        paths@.len() == files@.len(),
        forall|i: int|
            0 <= i < files@.len() && (#[trigger] files@[i]) is Ok ==> files@[i]->Ok_0@.len()
                < usize::MAX / 8,
    ensures
        ({
            let all = fina_file_outcomes(
                files@,
                paths@,
                schema_spec@,
                text_pairs(renames@),
                *opts,
            );
            match read_outcome(all) {
                Err(e) => r matches Err(s) && s@ == e,
                Ok(batches) => r matches Ok((fields, out)) && field_views(fields@)
                    == read_fields(all) && batch_views(out@) == batches,
            }
        }),
{
    let parse = |bytes: &[u8], path: &str| -> (r: Result<Batch, String>)
        requires
            bytes@.len() < usize::MAX / 8,
        ensures
            outcome(r) == fina_file_outcome(
                Ok(bytes@),
                path@,
                schema_spec@,
                text_pairs(renames@),
                *opts,
            ),
            r matches Ok(b) ==> b@.fields.len() > 0,
        { parse_fina_file(bytes, path, schema_spec, renames, opts) };
    let ghost all = fina_file_outcomes(
        files@,
        paths@,
        schema_spec@,
        text_pairs(renames@),
        *opts,
    );
    let run = read_parse_chunked(paths, files, parse);
    proof {
        lemma_run_determined(parse, files@, paths@, all, run);
    }
    align_run(run)
}

} // verus!
