//! What holds of reading many files as a whole: the rows of all the files, in
//! the order of the files, whatever chunks they were read in.

use vstd::prelude::*;

use crate::loader::batch::{
    field_index, has_null, lemma_field_index, lemma_field_index_unique, nulls, sound,
    well_formed, BatchView, Cell, ColumnView, FieldView,
};
use crate::loader::batch_util::{
    alignable, aligned, aligned_column, all_alignable, all_aligned, joined_cells,
    lemma_first_unalignable_unique, merged_by_name, total_rows, union_fields, with_fields,
};
use crate::loader::chunked_io::{
    chunk_len, chunk_outcome, if_any, lemma_first_failure_unique, read_fields, read_outcome,
    run_outcome, with_rows,
};
use crate::loader::fina_reader::fina_parsed;
use crate::loader::merge_laws::{
    distinct, has_field, law_nullable_alignable, law_union_covers, law_union_distinct,
    lemma_has_field, lemma_with_fields,
};
use crate::loader::schema::{column_type, declared_type, ParseOptions, SchemaView};
use crate::loader::stock_reader::parsed;

verus! {

/// Whether a field is what a schema makes of its name.
pub open spec fn field_typed(f: FieldView, schema: SchemaView) -> bool {
    f.nullable && f.data_type == column_type(declared_type(schema, f.name).0)
}

/// Whether the fields of a batch are what a schema makes of their names.
pub open spec fn typed_by(b: BatchView, schema: SchemaView) -> bool {
    well_formed(b) && forall|i: int|
        0 <= i < b.fields.len() ==> field_typed(#[trigger] b.fields[i], schema)
}

/// Whether that holds of all batches.
pub open spec fn all_typed(batches: Seq<BatchView>, schema: SchemaView) -> bool {
    forall|b: int| 0 <= b < batches.len() ==> typed_by(#[trigger] batches[b], schema)
}

/// Whether that holds of all fields.
pub open spec fn fields_typed(fields: Seq<FieldView>, schema: SchemaView) -> bool {
    forall|i: int| 0 <= i < fields.len() ==> field_typed(#[trigger] fields[i], schema)
}

/// Every batch that is parsed has the fields that its schema makes of their
/// names.
pub proof fn law_parsed_typed(
    text: Seq<char>,
    columns: Option<Seq<Seq<char>>>,
    schema: SchemaView,
    opts: ParseOptions,
)
    ensures
        typed_by(parsed(text, columns, schema, opts), schema),
{
}

/// Every batch that is parsed of a financial statement has the fields that its
/// schema makes of their names.
pub proof fn law_fina_parsed_typed(
    text: Seq<char>,
    schema: SchemaView,
    renames: Seq<(Seq<char>, Seq<char>)>,
    opts: ParseOptions,
)
    ensures
        typed_by(fina_parsed(text, schema, renames, opts), schema),
{
}

proof fn lemma_with_fields_typed(
    fields: Seq<FieldView>,
    more: Seq<FieldView>,
    schema: SchemaView,
)
    requires
        fields_typed(fields, schema),
        fields_typed(more, schema),
    ensures
        fields_typed(with_fields(fields, more), schema),
    decreases more.len(),
{
    if more.len() > 0 {
        let front = more.drop_last();
        assert(fields_typed(front, schema)) by {
            assert forall|i: int| 0 <= i < front.len() implies field_typed(
                #[trigger] front[i],
                schema,
            ) by {
                assert(field_typed(more[i], schema));
            }
        }
        lemma_with_fields_typed(fields, front, schema);
        assert(field_typed(more[more.len() - 1], schema));
    }
}

proof fn lemma_union_typed(batches: Seq<BatchView>, schema: SchemaView)
    requires
        all_typed(batches, schema),
    ensures
        fields_typed(union_fields(batches), schema),
    decreases batches.len(),
{
    if batches.len() > 0 {
        let front = batches.drop_last();
        lemma_front_typed(batches, schema);
        lemma_union_typed(front, schema);
        assert(typed_by(batches[batches.len() - 1], schema));
        lemma_with_fields_typed(union_fields(front), batches.last().fields, schema);
    }
}

proof fn lemma_front_typed(batches: Seq<BatchView>, schema: SchemaView)
    requires
        all_typed(batches, schema),
        batches.len() > 0,
    ensures
        all_typed(batches.drop_last(), schema),
{
    let front = batches.drop_last();
    assert forall|b: int| 0 <= b < front.len() implies typed_by(#[trigger] front[b], schema) by {
        assert(typed_by(batches[b], schema));
    }
}

/// Batches of one schema can always be aligned.
pub proof fn law_one_schema_alignable(batches: Seq<BatchView>, schema: SchemaView)
    requires
        batches.len() > 0,
        all_typed(batches, schema),
    ensures
        all_alignable(batches),
{
    let target = union_fields(batches);
    lemma_union_typed(batches, schema);
    assert forall|i: int| 0 <= i < target.len() implies (#[trigger] target[i]).nullable by {
        assert(field_typed(target[i], schema));
    }
    assert forall|b: int| 0 <= b < batches.len() implies alignable(
        #[trigger] batches[b],
        target,
    ) by {
        law_nullable_alignable(batches[b], target);
    }
    lemma_first_unalignable_unique(batches, target, batches.len() as int);
}

/// The cells under a field, of one batch after the other.
pub open spec fn named_cells(batches: Seq<BatchView>, f: FieldView) -> Seq<Option<Cell>>
    decreases batches.len(),
{
    if batches.len() == 0 {
        Seq::empty()
    } else {
        named_cells(batches.drop_last(), f) + aligned_column(batches.last(), f).cells
    }
}

proof fn lemma_named_cells_add(a: Seq<BatchView>, b: Seq<BatchView>, f: FieldView)
    ensures
        named_cells(a + b, f) == named_cells(a, f) + named_cells(b, f),
    decreases b.len(),
{
    let all = a + b;
    if b.len() == 0 {
        assert(all == a);
        assert(named_cells(a, f) + named_cells(b, f) == named_cells(a, f));
    } else {
        lemma_named_cells_add(a, b.drop_last(), f);
        assert(all.drop_last() == a + b.drop_last());
        assert(named_cells(all, f) == named_cells(a, f) + named_cells(b, f));
    }
}

/// Aligned to fields of distinct names, a batch has under each what goes there
/// by name.
proof fn lemma_aligned_column(b: BatchView, target: Seq<FieldView>, c: int)
    requires
        well_formed(b),
        distinct(target),
        0 <= c < target.len(),
    ensures
        aligned(b, target).columns[c].cells == aligned_column(b, target[c]).cells,
{
    if b.fields == target {
        lemma_field_index_unique(target, target[c].name, c);
    }
}

proof fn lemma_joined_by_name(
    batches: Seq<BatchView>,
    target: Seq<FieldView>,
    schema: SchemaView,
    c: int,
)
    requires
        all_typed(batches, schema),
        distinct(target),
        0 <= c < target.len(),
    ensures
        joined_cells(all_aligned(batches, target), c) == named_cells(batches, target[c]),
    decreases batches.len(),
{
    if batches.len() > 0 {
        let front = batches.drop_last();
        lemma_front_typed(batches, schema);
        lemma_joined_by_name(front, target, schema, c);
        assert(all_aligned(batches, target).drop_last() == all_aligned(front, target));
        assert(typed_by(batches[batches.len() - 1], schema));
        lemma_aligned_column(batches.last(), target, c);
    }
}

/// The cells under a field that no batch has are nulls.
proof fn lemma_named_nulls(batches: Seq<BatchView>, f: FieldView)
    requires
        forall|b: int|
            0 <= b < batches.len() ==> !has_field((#[trigger] batches[b]).fields, f.name),
    ensures
        named_cells(batches, f) == nulls(f.data_type, total_rows(batches)).cells,
    decreases batches.len(),
{
    if batches.len() > 0 {
        let front = batches.drop_last();
        assert forall|b: int| 0 <= b < front.len() implies !has_field(
            (#[trigger] front[b]).fields,
            f.name,
        ) by {
            assert(!has_field(batches[b].fields, f.name));
        }
        lemma_named_nulls(front, f);
        assert(!has_field(batches[batches.len() - 1].fields, f.name));
        lemma_has_field(batches.last().fields, f.name);
        lemma_field_index(batches.last().fields, f.name);
        assert(named_cells(batches, f) == nulls(f.data_type, total_rows(batches)).cells);
    } else {
        assert(named_cells(batches, f) == nulls(f.data_type, 0).cells);
    }
}

/// Cells under fields of one name and type are the same.
proof fn lemma_named_alike(batches: Seq<BatchView>, f: FieldView, g: FieldView)
    requires
        f.name == g.name,
        f.data_type == g.data_type,
    ensures
        named_cells(batches, f) == named_cells(batches, g),
    decreases batches.len(),
{
    if batches.len() > 0 {
        lemma_named_alike(batches.drop_last(), f, g);
    }
}

/// A merged batch has under a field what the batches have under it.
proof fn lemma_merged_column(batches: Seq<BatchView>, schema: SchemaView, f: FieldView)
    requires
        all_typed(batches, schema),
        field_typed(f, schema),
    ensures
        aligned_column(merged_by_name(batches), f).cells == named_cells(batches, f),
{
    let fields = union_fields(batches);
    let m = merged_by_name(batches);
    law_union_distinct(batches);
    lemma_union_typed(batches, schema);
    lemma_field_index(fields, f.name);
    lemma_has_field(fields, f.name);
    law_union_covers(batches, f.name);
    let k = field_index(fields, f.name);
    if k == fields.len() {
        lemma_named_nulls(batches, f);
        lemma_total_rows_kept(batches, fields);
    } else {
        assert(field_typed(fields[k], schema));
        lemma_joined_by_name(batches, fields, schema, k);
        lemma_named_alike(batches, f, fields[k]);
    }
}

proof fn lemma_total_rows_kept(batches: Seq<BatchView>, target: Seq<FieldView>)
    ensures
        total_rows(all_aligned(batches, target)) == total_rows(batches),
    decreases batches.len(),
{
    if batches.len() > 0 {
        lemma_total_rows_kept(batches.drop_last(), target);
        assert(all_aligned(batches, target).drop_last() == all_aligned(
            batches.drop_last(),
            target,
        ));
    }
}

proof fn lemma_named_len(batches: Seq<BatchView>, schema: SchemaView, f: FieldView)
    requires
        all_typed(batches, schema),
        field_typed(f, schema),
    ensures
        named_cells(batches, f).len() == total_rows(batches),
        sound(ColumnView { data_type: f.data_type, cells: named_cells(batches, f) }),
    decreases batches.len(),
{
    if batches.len() > 0 {
        lemma_front_typed(batches, schema);
        lemma_named_len(batches.drop_last(), schema, f);
        let last = batches.last();
        assert(typed_by(batches[batches.len() - 1], schema));
        lemma_field_index(last.fields, f.name);
        let k = field_index(last.fields, f.name);
        if k < last.fields.len() {
            assert(field_typed(last.fields[k], schema));
            assert(last.columns[k].data_type == f.data_type);
            assert(sound(last.columns[k]));
        }
    }
}

/// A merged batch of one schema is itself of that schema.
proof fn lemma_merged_typed(batches: Seq<BatchView>, schema: SchemaView)
    requires
        all_typed(batches, schema),
    ensures
        typed_by(merged_by_name(batches), schema),
        merged_by_name(batches).rows == total_rows(batches),
{
    let fields = union_fields(batches);
    let m = merged_by_name(batches);
    law_union_distinct(batches);
    lemma_union_typed(batches, schema);
    lemma_total_rows_kept(batches, fields);
    assert forall|i: int| 0 <= i < m.columns.len() implies {
        &&& (#[trigger] m.columns[i]).data_type == m.fields[i].data_type
        &&& m.columns[i].cells.len() == m.rows
        &&& has_null(m.columns[i]) ==> m.fields[i].nullable
        &&& sound(m.columns[i])
    } by {
        assert(field_typed(fields[i], schema));
        lemma_joined_by_name(batches, fields, schema, i);
        lemma_named_len(batches, schema, fields[i]);
    }
}

proof fn lemma_with_fields_assoc(
    a: Seq<FieldView>,
    b: Seq<FieldView>,
    more: Seq<FieldView>,
)
    ensures
        with_fields(a, with_fields(b, more)) == with_fields(with_fields(a, b), more),
    decreases more.len(),
{
    if more.len() > 0 {
        let front = more.drop_last();
        let x = more.last();
        lemma_with_fields_assoc(a, b, front);
        let s = with_fields(b, front);
        lemma_has_field(s, x.name);
        if has_field(s, x.name) {
            lemma_with_fields(a, s);
            lemma_has_field(with_fields(a, s), x.name);
        } else {
            assert(s.push(x).drop_last() == s);
        }
    }
}

proof fn lemma_union_add(a: Seq<BatchView>, b: Seq<BatchView>)
    ensures
        union_fields(a + b) == with_fields(union_fields(a), union_fields(b)),
    decreases b.len(),
{
    let all = a + b;
    if b.len() == 0 {
        assert(all == a);
    } else {
        let front = b.drop_last();
        lemma_union_add(a, front);
        assert(all.drop_last() == a + front);
        lemma_with_fields_assoc(union_fields(a), union_fields(front), b.last().fields);
    }
}

proof fn lemma_distinct_kept(fields: Seq<FieldView>)
    requires
        distinct(fields),
    ensures
        with_fields(Seq::empty(), fields) == fields,
    decreases fields.len(),
{
    if fields.len() > 0 {
        let front = fields.drop_last();
        let last = fields.len() - 1;
        assert(distinct(front)) by {
            assert forall|i: int, k: int| 0 <= i < k < front.len() implies (
            #[trigger] front[i]).name != (#[trigger] front[k]).name by {
                assert(fields[i].name != fields[k].name);
            }
        }
        lemma_distinct_kept(front);
        lemma_field_index(front, fields.last().name);
        let k = field_index(front, fields.last().name);
        if k < front.len() {
            assert(fields[k].name != fields[last].name);
            assert(front[k] == fields[k]);
        }
        assert(front.push(fields.last()) == fields);
    }
}

proof fn lemma_union_one(b: BatchView)
    requires
        distinct(b.fields),
    ensures
        union_fields(seq![b]) == b.fields,
{
    let one = seq![b];
    assert(one.drop_last() == Seq::<BatchView>::empty());
    assert(union_fields(one.drop_last()) == Seq::<FieldView>::empty());
    lemma_distinct_kept(b.fields);
}

proof fn lemma_with_rows_add(
    a: Seq<Result<BatchView, Seq<char>>>,
    b: Seq<Result<BatchView, Seq<char>>>,
)
    ensures
        with_rows(a + b) == with_rows(a) + with_rows(b),
    decreases b.len(),
{
    let all = a + b;
    if b.len() == 0 {
        assert(all == a);
        assert(with_rows(a) + with_rows(b) == with_rows(a));
    } else {
        lemma_with_rows_add(a, b.drop_last());
        assert(all.drop_last() == a + b.drop_last());
        assert(with_rows(all) == with_rows(a) + with_rows(b));
    }
}

/// Whether every file was parsed into a batch of a schema.
pub open spec fn files_typed(
    files: Seq<Result<BatchView, Seq<char>>>,
    schema: SchemaView,
) -> bool {
    forall|i: int|
        0 <= i < files.len() ==> (#[trigger] files[i]) is Ok && typed_by(files[i]->Ok_0, schema)
}

proof fn lemma_with_rows_typed(files: Seq<Result<BatchView, Seq<char>>>, schema: SchemaView)
    requires
        files_typed(files, schema),
    ensures
        all_typed(with_rows(files), schema),
    decreases files.len(),
{
    if files.len() > 0 {
        let front = files.drop_last();
        assert(files_typed(front, schema)) by {
            assert forall|i: int| 0 <= i < front.len() implies (#[trigger] front[i]) is Ok
                && typed_by(front[i]->Ok_0, schema) by {
                assert(files[i] is Ok);
            }
        }
        lemma_with_rows_typed(front, schema);
        assert(files[files.len() - 1] is Ok);
        assert forall|b: int| 0 <= b < with_rows(files).len() implies typed_by(
            #[trigger] with_rows(files)[b],
            schema,
        ) by {
            if b < with_rows(front).len() {
                assert(typed_by(with_rows(front)[b], schema));
            }
        }
    }
}

proof fn lemma_total_rows_add(a: Seq<BatchView>, b: Seq<BatchView>)
    ensures
        total_rows(a + b) == total_rows(a) + total_rows(b),
    decreases b.len(),
{
    let all = a + b;
    if b.len() == 0 {
        assert(all == a);
    } else {
        lemma_total_rows_add(a, b.drop_last());
        assert(all.drop_last() == a + b.drop_last());
    }
}

/// What the merged batch of a chunk has of the batches of its files.
pub proof fn lemma_chunk(
    files: Seq<Result<BatchView, Seq<char>>>,
    schema: SchemaView,
    f: FieldView,
) -> (out: Seq<BatchView>)
    requires
        files_typed(files, schema),
        field_typed(f, schema),
    ensures
        chunk_outcome(files) matches Ok(b) && out == if_any(b),
        all_typed(out, schema),
        named_cells(out, f) == named_cells(with_rows(files), f),
        union_fields(out) == union_fields(with_rows(files)),
        total_rows(out) == total_rows(with_rows(files)),
        out.len() == 0 <==> with_rows(files).len() == 0,
{
    let good = with_rows(files);
    assert forall|i: int| 0 <= i < files.len() implies (#[trigger] files[i]) is Ok by {}
    lemma_first_failure_unique(files, files.len() as int);
    lemma_with_rows_typed(files, schema);
    if good.len() == 0 {
        assert(good == Seq::<BatchView>::empty());
        Seq::empty()
    } else {
        let m = merged_by_name(good);
        law_one_schema_alignable(good, schema);
        lemma_merged_typed(good, schema);
        lemma_merged_column(good, schema, f);
        law_union_distinct(good);
        lemma_union_one(m);
        let out = seq![m];
        assert(out.drop_last() == Seq::<BatchView>::empty());
        assert(named_cells(out.drop_last(), f) == Seq::<Option<Cell>>::empty());
        assert(named_cells(out, f) == named_cells(good, f));
        assert(total_rows(out.drop_last()) == 0);
        out
    }
}

/// What a run has of the batches of its files.
proof fn lemma_run(
    files: Seq<Result<BatchView, Seq<char>>>,
    schema: SchemaView,
    f: FieldView,
) -> (out: Seq<BatchView>)
    requires
        files_typed(files, schema),
        field_typed(f, schema),
    ensures
        run_outcome(files) == Ok::<Seq<BatchView>, Seq<char>>(out),
        all_typed(out, schema),
        named_cells(out, f) == named_cells(with_rows(files), f),
        union_fields(out) == union_fields(with_rows(files)),
        total_rows(out) == total_rows(with_rows(files)),
        out.len() == 0 <==> with_rows(files).len() == 0,
    decreases files.len(),
{
    if files.len() == 0 {
        Seq::empty()
    } else {
        let n = chunk_len(files.len()) as int;
        let chunk = files.take(n);
        let rest = files.skip(n);
        assert(chunk + rest == files);
        assert forall|i: int| 0 <= i < chunk.len() implies (#[trigger] chunk[i]) is Ok && typed_by(
            chunk[i]->Ok_0,
            schema,
        ) by {
            assert(files[i] is Ok);
        }
        assert forall|i: int| 0 <= i < rest.len() implies (#[trigger] rest[i]) is Ok && typed_by(
            rest[i]->Ok_0,
            schema,
        ) by {
            assert(files[i + n] is Ok);
        }
        let head = lemma_chunk(chunk, schema, f);
        let tail = lemma_run(rest, schema, f);
        let out = head + tail;
        lemma_with_rows_add(chunk, rest);
        lemma_named_cells_add(head, tail, f);
        lemma_named_cells_add(with_rows(chunk), with_rows(rest), f);
        lemma_union_add(head, tail);
        lemma_union_add(with_rows(chunk), with_rows(rest));
        lemma_total_rows_add(head, tail);
        lemma_total_rows_add(with_rows(chunk), with_rows(rest));
        assert forall|b: int| 0 <= b < out.len() implies typed_by(#[trigger] out[b], schema) by {
            if b < head.len() {
                assert(typed_by(head[b], schema));
            } else {
                assert(typed_by(tail[b - head.len()], schema));
            }
        }
        out
    }
}

/// The number of rows of files together.
pub open spec fn rows_of(files: Seq<Result<BatchView, Seq<char>>>) -> nat
    decreases files.len(),
{
    if files.len() == 0 {
        0
    } else {
        rows_of(files.drop_last()) + match files.last() {
            Ok(b) => b.rows,
            Err(_) => 0,
        }
    }
}

/// Leaving out batches without rows leaves out no row.
pub proof fn law_no_row_left_out(files: Seq<Result<BatchView, Seq<char>>>)
    ensures
        total_rows(with_rows(files)) == rows_of(files),
    decreases files.len(),
{
    if files.len() > 0 {
        let front = files.drop_last();
        law_no_row_left_out(front);
        match files.last() {
            Ok(b) => {
                assert(with_rows(front).push(b).drop_last() == with_rows(front));
            },
            Err(_) => {},
        }
    }
}

/// Reading files of one schema loses no row and reorders none: under each
/// field of the union of their fields, the batches that come out hold the
/// cells of the files one after the other, in the order of the files, with
/// nulls for a file that lacks the field. Neither the chunks nor the files
/// without rows show.
pub proof fn law_reading_keeps_rows(
    files: Seq<Result<BatchView, Seq<char>>>,
    schema: SchemaView,
    c: int,
)
    requires
        files_typed(files, schema),
        rows_of(files) > 0,
        0 <= c < union_fields(with_rows(files)).len(),
    ensures
        ({
            let fields = union_fields(with_rows(files));
            &&& read_outcome(files) matches Ok(out)
            &&& read_fields(files) == fields
            &&& joined_cells(out, c) == joined_cells(all_aligned(with_rows(files), fields), c)
            &&& total_rows(out) == rows_of(files)
        }),
{
    let good = with_rows(files);
    let fields = union_fields(good);
    law_no_row_left_out(files);
    lemma_with_rows_typed(files, schema);
    lemma_union_typed(good, schema);
    law_union_distinct(good);
    assert(field_typed(fields[c], schema));
    let run = lemma_run(files, schema, fields[c]);
    law_one_schema_alignable(run, schema);
    lemma_joined_by_name(run, fields, schema, c);
    lemma_joined_by_name(good, fields, schema, c);
    lemma_total_rows_kept(run, fields);
}

} // verus!
