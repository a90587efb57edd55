//! What becomes of many files, told file by file: which are read together,
//! which complaint comes out, and which batches are left out.

use vstd::prelude::*;

use crate::loader::batch::{Batch, BatchView, FieldView};
use crate::loader::batch_util::{
    align_all_complaint, all_alignable, all_aligned, batch_views, merged_by_name, total_rows,
    union_fields,
};
use crate::loader::chunked_io::{
    chunk_at, chunk_outcome, file_parsed, files_parsed, law_run_in_parts,
    lemma_first_failure_unique, lemma_run_chunk, moderate, read_fields, read_outcome,
    rows_countable, run_outcome, run_returns, same_chunk, with_rows, RunView,
};
use crate::loader::fina_reader::{fina_complaint, fina_file_outcomes, fina_parsed, fina_parses};
use crate::loader::gbk::gbk_text;
use crate::loader::read_laws::{files_typed, lemma_chunk, typed_by};
use crate::loader::schema::{column_type, declared_type, ParseOptions, SchemaView};
use crate::loader::stock_reader::{file_outcomes, parse_complaint, parsed, parses};

verus! {

/// A chunk that starts at a file reaches over 512 files, or to the last one
/// where fewer are left; behind the last file there is none.
pub proof fn law_chunk_bounds(run: RunView, start: nat)
    ensures
        start + 512 <= run.total ==> chunk_at(run, start) == Some((start, start + 512)),
        start < run.total < start + 512 ==> chunk_at(run, start) == Some((start, run.total)),
        start >= run.total ==> chunk_at(run, start) is None,
        forall|a: (usize, usize), b: (nat, nat)| #[trigger]
            same_chunk(Some(a), Some(b)) <==> a.0 == b.0 && a.1 == b.1,
        forall|a: (usize, usize)| !#[trigger] same_chunk(Some(a), None),
        forall|b: (nat, nat)| !#[trigger] same_chunk(None, Some(b)),
{
}

/// Batches that have columns are never too large to be read and merged; only
/// rows without columns must be few enough to be counted, a 512th part of what
/// can be counted for each file.
pub proof fn law_columns_hold_rows(b: BatchView, batches: Seq<BatchView>)
    ensures
        b.fields.len() > 0 ==> moderate(b),
        b.rows <= usize::MAX / 512 ==> moderate(b),
        union_fields(batches).len() > 0 ==> rows_countable(batches),
        total_rows(batches) <= usize::MAX ==> rows_countable(batches),
{
}

/// Whether `at` is where, among files, those stand whose batch has rows.
pub open spec fn where_rows(files: Seq<Result<BatchView, Seq<char>>>, at: Seq<int>) -> bool {
    &&& forall|j: int, k: int| 0 <= j < k < at.len() ==> at[j] < at[k]
    &&& forall|j: int|
        0 <= j < at.len() ==> 0 <= #[trigger] at[j] < files.len() && files[at[j]] is Ok
            && files[at[j]]->Ok_0.rows > 0
    &&& forall|i: int|
        0 <= i < files.len() && (#[trigger] files[i]) is Ok && files[i]->Ok_0.rows > 0
            ==> at.contains(i)
}

/// The batches that are merged are those of the files that have rows, all of
/// them, in the order of the files.
pub proof fn law_batches_with_rows(files: Seq<Result<BatchView, Seq<char>>>, at: Seq<int>)
    requires
        where_rows(files, at),
    ensures
        with_rows(files).len() == at.len(),
        forall|j: int|
            0 <= j < at.len() ==> #[trigger] with_rows(files)[j] == files[at[j]]->Ok_0,
    decreases files.len(),
{
    if files.len() == 0 {
        if at.len() > 0 {
            assert(0 <= at[0] < files.len());
        }
    } else {
        let front = files.drop_last();
        let last = files.len() - 1;
        let keeps = files[last] is Ok && files[last]->Ok_0.rows > 0;
        let before = if keeps {
            at.drop_last()
        } else {
            at
        };
        if keeps {
            let j = choose|j: int| 0 <= j < at.len() && at[j] == last;
            if j < at.len() - 1 {
                assert(at[j] < at[at.len() - 1]);
                assert(at[at.len() - 1] < files.len());
            }
            assert(at.last() == last);
        }
        assert forall|j: int| 0 <= j < before.len() implies 0 <= #[trigger] before[j] < front.len()
            && front[before[j]] is Ok && front[before[j]]->Ok_0.rows > 0 by {
            assert(before[j] == at[j]);
            assert(files[at[j]] is Ok);
            if keeps {
                assert(at[j] < at[at.len() - 1]);
            } else if at[j] == last {
                assert(false);
            }
        }
        assert forall|i: int|
            0 <= i < front.len() && (#[trigger] front[i]) is Ok && front[i]->Ok_0.rows
                > 0 implies before.contains(i) by {
            assert(files[i] is Ok);
            let j = choose|j: int| 0 <= j < at.len() && at[j] == i;
            assert(before[j] == i);
        }
        law_batches_with_rows(front, before);
        assert forall|j: int| 0 <= j < at.len() implies #[trigger] with_rows(files)[j]
            == files[at[j]]->Ok_0 by {
            if j < before.len() {
                assert(with_rows(front)[j] == front[before[j]]->Ok_0);
            }
        }
    }
}

/// A chunk fails with the complaint of its first file that failed. Where none
/// failed, its batches with rows are merged, or there is nothing where no
/// batch has rows.
pub proof fn law_chunk_outcome(files: Seq<Result<BatchView, Seq<char>>>, k: int)
    ensures
        0 <= k < files.len() && files[k] is Err && (forall|i: int|
            0 <= i < k ==> (#[trigger] files[i]) is Ok) ==> chunk_outcome(files) == Err::<
            Option<BatchView>,
            Seq<char>,
        >(files[k]->Err_0),
        (forall|i: int| 0 <= i < files.len() ==> (#[trigger] files[i]) is Ok) ==> {
            let good = with_rows(files);
            &&& good.len() == 0 ==> chunk_outcome(files) == Ok::<Option<BatchView>, Seq<char>>(None)
            &&& good.len() > 0 && all_alignable(good) ==> chunk_outcome(files) == Ok::<
                Option<BatchView>,
                Seq<char>,
            >(Some(merged_by_name(good)))
            &&& good.len() > 0 && !all_alignable(good) ==> chunk_outcome(files) == Err::<
                Option<BatchView>,
                Seq<char>,
            >(align_all_complaint(good))
        },
{
    if 0 <= k < files.len() && files[k] is Err && (forall|i: int|
        0 <= i < k ==> (#[trigger] files[i]) is Ok) {
        lemma_first_failure_unique(files, k);
    }
    if forall|i: int| 0 <= i < files.len() ==> (#[trigger] files[i]) is Ok {
        lemma_first_failure_unique(files, files.len() as int);
    }
}

/// Files are taken 512 at a time: the batch of the first 512, where they have
/// one, comes before those of the rest, and a failure among them ends the run.
pub proof fn law_chunks_of_files(
    files: Seq<Result<BatchView, Seq<char>>>,
    more: Seq<Result<BatchView, Seq<char>>>,
)
    requires
        files.len() == 512,
    ensures
        run_outcome(files + more) == match (chunk_outcome(files), run_outcome(more)) {
            (Err(e), _) => Err(e),
            (Ok(_), Err(e)) => Err(e),
            (Ok(Some(b)), Ok(out)) => Ok(seq![b] + out),
            (Ok(None), Ok(out)) => Ok(out),
        },
{
    law_run_in_parts(files, more);
    lemma_run_chunk(files);
    match run_outcome(more) {
        Ok(out) => assert(Seq::<BatchView>::empty() + out == out),
        Err(_) => {},
    }
}

/// At most 512 files are one chunk, with one batch or none.
pub proof fn law_last_chunk(files: Seq<Result<BatchView, Seq<char>>>)
    requires
        0 < files.len() <= 512,
    ensures
        run_outcome(files) == match chunk_outcome(files) {
            Err(e) => Err(e),
            Ok(Some(b)) => Ok(seq![b]),
            Ok(None) => Ok(Seq::empty()),
        },
{
    lemma_run_chunk(files);
}

/// Reading no files is refused, and so is reading files none of which has
/// rows; files that can be read come out aligned to the union of the fields of
/// their chunks.
pub proof fn law_read_outcome(files: Seq<Result<BatchView, Seq<char>>>)
    ensures
        files.len() == 0 ==> read_outcome(files) == Err::<Seq<BatchView>, Seq<char>>(
            "路径列表为空"@,
        ),
        files.len() > 0 ==> match run_outcome(files) {
            Err(e) => read_outcome(files) == Err::<Seq<BatchView>, Seq<char>>(e),
            Ok(out) => {
                &&& out.len() == 0 ==> read_outcome(files) == Err::<Seq<BatchView>, Seq<char>>(
                    "无有效数据"@,
                )
                &&& out.len() > 0 && all_alignable(out) ==> read_fields(files) == union_fields(out)
                    && read_outcome(files) == Ok::<Seq<BatchView>, Seq<char>>(
                    all_aligned(out, union_fields(out)),
                )
                &&& out.len() > 0 && !all_alignable(out) ==> read_outcome(files) == Err::<
                    Seq<BatchView>,
                    Seq<char>,
                >(align_all_complaint(out))
            },
        },
{
}

/// The first file that failed decides: where the files before it were parsed
/// into batches of a schema, reading fails with its complaint, in whatever
/// chunk it is and whatever comes behind it.
pub proof fn law_first_failure_decides(
    files: Seq<Result<BatchView, Seq<char>>>,
    schema: SchemaView,
    k: int,
)
    requires
        0 <= k < files.len(),
        files[k] is Err,
        forall|i: int|
            0 <= i < k ==> (#[trigger] files[i]) is Ok && typed_by(files[i]->Ok_0, schema),
    ensures
        run_outcome(files) == Err::<Seq<BatchView>, Seq<char>>(files[k]->Err_0),
        read_outcome(files) == Err::<Seq<BatchView>, Seq<char>>(files[k]->Err_0),
    decreases files.len(),
{
    let n = if files.len() < 512 {
        files.len() as int
    } else {
        512
    };
    let chunk = files.take(n);
    let rest = files.skip(n);
    assert(chunk + rest == files);
    if k < n {
        assert forall|i: int| 0 <= i < k implies (#[trigger] chunk[i]) is Ok by {
            assert(files[i] is Ok);
        }
        law_chunk_outcome(chunk, k);
    } else {
        assert forall|i: int| 0 <= i < chunk.len() implies (#[trigger] chunk[i]) is Ok && typed_by(
            chunk[i]->Ok_0,
            schema,
        ) by {
            assert(files[i] is Ok);
        }
        assert(files_typed(chunk, schema));
        let name = Seq::<char>::empty();
        let f = FieldView {
            name,
            data_type: column_type(declared_type(schema, name).0),
            nullable: true,
        };
        let out = lemma_chunk(chunk, schema, f);
        assert forall|i: int| 0 <= i < k - n implies (#[trigger] rest[i]) is Ok && typed_by(
            rest[i]->Ok_0,
            schema,
        ) by {
            assert(files[i + n] is Ok);
        }
        assert(rest[k - n] == files[k]);
        law_first_failure_decides(rest, schema, k - n);
    }
}

/// A file that could not be read keeps its complaint. The bytes of one that
/// was read are decoded and parsed as its text is; where that is refused, the
/// complaint is headed by the file's path.
pub proof fn law_file_outcome(
    files: Seq<Result<Vec<u8>, String>>,
    paths: Seq<String>,
    columns: Option<Seq<Seq<char>>>,
    schema: SchemaView,
    opts: ParseOptions,
    i: int,
)
    requires
        0 <= i < files.len(),
    ensures
        file_outcomes(files, paths, columns, schema, opts).len() == files.len(),
        match files[i] {
            Err(e) => file_outcomes(files, paths, columns, schema, opts)[i] == Err::<
                BatchView,
                Seq<char>,
            >(e@),
            Ok(bytes) => {
                let text = gbk_text(bytes@);
                let out = file_outcomes(files, paths, columns, schema, opts)[i];
                if parses(text, columns, schema, opts) {
                    out == Ok::<BatchView, Seq<char>>(parsed(text, columns, schema, opts))
                } else {
                    out == Err::<BatchView, Seq<char>>(
                        paths[i]@ + (": "@ + parse_complaint(text, columns, schema, opts)),
                    )
                }
            },
        },
{
    match files[i] {
        Ok(bytes) => {
            let text = gbk_text(bytes@);
            let e = parse_complaint(text, columns, schema, opts);
            assert(paths[i]@ + ": "@ + e == paths[i]@ + (": "@ + e));
        },
        Err(_) => {},
    }
}

/// The same holds of the files of financial statements.
pub proof fn law_statement_outcome(
    files: Seq<Result<Vec<u8>, String>>,
    paths: Seq<String>,
    schema: SchemaView,
    renames: Seq<(Seq<char>, Seq<char>)>,
    opts: ParseOptions,
    i: int,
)
    requires
        0 <= i < files.len(),
    ensures
        fina_file_outcomes(files, paths, schema, renames, opts).len() == files.len(),
        match files[i] {
            Err(e) => fina_file_outcomes(files, paths, schema, renames, opts)[i] == Err::<
                BatchView,
                Seq<char>,
            >(e@),
            Ok(bytes) => {
                let text = gbk_text(bytes@);
                let out = fina_file_outcomes(files, paths, schema, renames, opts)[i];
                if fina_parses(text, schema, renames, opts) {
                    out == Ok::<BatchView, Seq<char>>(fina_parsed(text, schema, renames, opts))
                } else {
                    out == Err::<BatchView, Seq<char>>(
                        paths[i]@ + (": "@ + fina_complaint(text, schema, renames, opts)),
                    )
                }
            },
        },
{
    match files[i] {
        Ok(bytes) => {
            let text = gbk_text(bytes@);
            let e = fina_complaint(text, schema, renames, opts);
            assert(paths[i]@ + ": "@ + e == paths[i]@ + (": "@ + e));
        },
        Err(_) => {},
    }
}

/// Each file that was read is handed to the parser with its own bytes and its
/// own path, and one that could not be read keeps its complaint.
pub proof fn law_each_file_parsed<F: Fn(&[u8], &str) -> Result<Batch, String>>(
    parse: F,
    files: Seq<Result<Vec<u8>, String>>,
    paths: Seq<String>,
    results: Seq<Result<Batch, String>>,
    i: int,
)
    requires
        files_parsed(parse, files, paths, results),
        0 <= i < results.len(),
    ensures
        results.len() <= files.len(),
        match files[i] {
            Err(e) => results[i] matches Err(s) && s@ == e@,
            Ok(bytes) => exists|b: &[u8], p: &str|
                b@ == bytes@ && p@ == paths[i]@ && #[trigger] call_ensures(
                    parse,
                    (b, p),
                    results[i],
                ),
        },
{
    assert(file_parsed(parse, files[i], paths[i]@, results[i]));
}

/// A run over files returns the batches of their chunks where all of them were
/// parsed and some has rows. Where it returns none, a chunk failed with the
/// complaint that comes out, or there were no files or no rows.
pub proof fn law_run_returns(
    r: Result<Vec<Batch>, String>,
    results: Seq<Result<BatchView, Seq<char>>>,
    total: nat,
)
    requires
        run_returns(r, results, total),
        results.len() <= total,
    ensures
        r matches Ok(v) ==> {
            &&& results.len() == total
            &&& total > 0
            &&& v@.len() > 0
            &&& run_outcome(results) == Ok::<Seq<BatchView>, Seq<char>>(batch_views(v@))
        },
        r matches Err(s) ==> {
            ||| run_outcome(results) == Err::<Seq<BatchView>, Seq<char>>(s@)
            ||| total == 0 && s@ == "路径列表为空"@
            ||| results.len() == total && total > 0 && s@ == "无有效数据"@ && run_outcome(
                results,
            ) == Ok::<Seq<BatchView>, Seq<char>>(Seq::empty())
        },
{
    match r {
        Ok(v) => {
            assert(batch_views(v@).len() == v@.len());
        },
        Err(_) => {
            match run_outcome(results) {
                Ok(out) => {
                    if out.len() == 0 {
                        assert(out == Seq::<BatchView>::empty());
                    }
                },
                Err(_) => {},
            }
        },
    }
}

} // verus!
