//! Aligning batches by column name, and merging them.
//!
//! Merging goes by column position, so batches whose columns differ in number
//! or order are aligned to one schema first: the union of their fields.

use vstd::prelude::*;

use crate::loader::batch::{
    column_views, copy_fields, field_index, field_views, find_field, first_unallowed, has_null,
    lemma_field_index, lemma_first_mistyped_unique, lemma_first_unallowed,
    lemma_first_unallowed_unique, null_complaint, nulls, same_fields, sound, well_formed, Batch,
    BatchView, Cell, Column, ColumnView, DataType, Field, FieldView,
};
use crate::loader::cast::{arrow_cast, cast_column};
use crate::text::{copied, joined};

verus! {

/// The batches of a slice.
pub open spec fn batch_views(v: Seq<Batch>) -> Seq<BatchView> {
    v.map_values(|b: Batch| b@)
}

/// `fields`, followed by `f` where its name is new.
pub open spec fn with_field(fields: Seq<FieldView>, f: FieldView) -> Seq<FieldView> {
    if field_index(fields, f.name) < fields.len() {
        fields
    } else {
        fields.push(f)
    }
}

/// `fields`, followed by those of `more` whose names are new.
pub open spec fn with_fields(fields: Seq<FieldView>, more: Seq<FieldView>) -> Seq<FieldView>
    decreases more.len(),
{
    if more.len() == 0 {
        fields
    } else {
        with_field(with_fields(fields, more.drop_last()), more.last())
    }
}

/// The union of the fields of batches: of each name its first field, in the
/// order of first appearance.
pub open spec fn union_fields(batches: Seq<BatchView>) -> Seq<FieldView>
    decreases batches.len(),
{
    if batches.len() == 0 {
        Seq::empty()
    } else {
        with_fields(union_fields(batches.drop_last()), batches.last().fields)
    }
}

/// The union of the fields of batches, in the order of first appearance.
pub fn union_schema(batches: &[Batch]) -> (r: Vec<Field>)
    ensures
        field_views(r@) == union_fields(batch_views(batches@)),
{
    let ghost views = batch_views(batches@);
    let mut fields: Vec<Field> = Vec::new();
    let mut i: usize = 0;
    assert(field_views(fields@) == Seq::<FieldView>::empty());
    assert(views.take(0) == Seq::<BatchView>::empty());
    while i < batches.len()
        invariant
            views == batch_views(batches@),
            i <= batches@.len(),
            field_views(fields@) == union_fields(views.take(i as int)),
        decreases batches@.len() - i,
    {
        let more = batches[i].fields();
        let ghost before = field_views(fields@);
        let ghost added = field_views(more@);
        let mut j: usize = 0;
        assert(added.take(0) == Seq::<FieldView>::empty());
        while j < more.len()
            invariant
                added == field_views(more@),
                j <= more@.len(),
                field_views(fields@) == with_fields(before, added.take(j as int)),
            decreases more@.len() - j,
        {
            proof {
                assert(added.take(j + 1).drop_last() == added.take(j as int));
                assert(added[j as int] == more@[j as int]@);
                lemma_field_index(field_views(fields@), added[j as int].name);
            }
            let ghost now = field_views(fields@);
            if find_field(fields.as_slice(), more[j].name.as_str()).is_none() {
                fields.push(more[j].copied());
                assert(field_views(fields@) == now.push(added[j as int]));
            }
            j = j + 1;
        }
        proof {
            assert(added.take(j as int) == added);
            assert(views.take(i + 1).drop_last() == views.take(i as int));
            assert(views[i as int] == batches@[i as int]@);
        }
        i = i + 1;
    }
    assert(views.take(i as int) == views);
    fields
}

/// The column of a batch that goes under a field: the first column of the
/// field's name, cast where it has another type; nulls where there is no such
/// column or no such cast.
pub open spec fn aligned_column(b: BatchView, f: FieldView) -> ColumnView {
    let k = field_index(b.fields, f.name);
    if k == b.fields.len() {
        nulls(f.data_type, b.rows)
    } else if b.columns[k].data_type == f.data_type {
        b.columns[k]
    } else {
        match arrow_cast(b.columns[k], f.data_type) {
            Some(cells) => ColumnView { data_type: f.data_type, cells },
            None => nulls(f.data_type, b.rows),
        }
    }
}

/// The columns of a batch that go under the fields of a schema.
pub open spec fn aligned_columns(b: BatchView, target: Seq<FieldView>) -> Seq<ColumnView> {
    target.map_values(|f: FieldView| aligned_column(b, f))
}

/// A batch aligned to a schema: itself where it has the schema already.
pub open spec fn aligned(b: BatchView, target: Seq<FieldView>) -> BatchView {
    if b.fields == target {
        b
    } else {
        BatchView { fields: target, columns: aligned_columns(b, target), rows: b.rows }
    }
}

/// Whether a batch can be aligned to a schema: no column of nulls, or with
/// nulls, comes under a field that allows none.
pub open spec fn alignable(b: BatchView, target: Seq<FieldView>) -> bool {
    b.fields == target || first_unallowed(target, aligned_columns(b, target)) == target.len()
}

/// The complaint about a batch that cannot be aligned to a schema.
pub open spec fn align_complaint(b: BatchView, target: Seq<FieldView>) -> Seq<char> {
    let k = first_unallowed(target, aligned_columns(b, target));
    "对齐 RecordBatch 失败: "@ + null_complaint(target[k].name)
}

/// A column as it goes under `f`.
fn align_column(batch: &Batch, f: &Field) -> (r: Column)
    ensures
        r@ == aligned_column(batch@, f@),
        r@.data_type == f@.data_type,
        r@.cells.len() == batch@.rows,
        sound(r@),
{
    proof {
        lemma_field_index(batch@.fields, f@.name);
    }
    let columns = batch.columns();
    match find_field(batch.fields(), f.name.as_str()) {
        Some(k) => {
            let column = &columns[k];
            assert(batch@.columns[k as int] == column@);
            if column.data_type() == f.data_type {
                column.copied()
            } else {
                match cast_column(column, f.data_type) {
                    Some(c) => c,
                    None => Column::null(f.data_type, batch.num_rows()),
                }
            }
        },
        None => Column::null(f.data_type, batch.num_rows()),
    }
}

/// Aligns a batch to a schema by column name: a column that the batch lacks is
/// null, and one of another type is cast.
pub fn align_batch_to_schema(batch: &Batch, target_schema: &[Field]) -> (r: Result<Batch, String>)
    ensures
        r is Ok <==> alignable(batch@, field_views(target_schema@)),
        r matches Ok(b) ==> b@ == aligned(batch@, field_views(target_schema@)) && well_formed(b@),
        r matches Err(e) ==> e@ == align_complaint(batch@, field_views(target_schema@)),
{
    let ghost target = field_views(target_schema@);
    if same_fields(batch.fields(), target_schema) {
        return Ok(batch.copied());
    }
    let mut columns: Vec<Column> = Vec::new();
    let mut i: usize = 0;
    while i < target_schema.len()
        invariant
            target == field_views(target_schema@),
            i <= target_schema@.len(),
            columns@.len() == i,
            forall|k: int|
                0 <= k < i ==> {
                    &&& (#[trigger] columns@[k])@ == aligned_column(batch@, target[k])
                    &&& columns@[k]@.data_type == target[k].data_type
                    &&& columns@[k]@.cells.len() == batch@.rows
                    &&& sound(columns@[k]@)
                },
        decreases target_schema@.len() - i,
    {
        assert(target[i as int] == target_schema@[i as int]@);
        columns.push(align_column(batch, &target_schema[i]));
        i = i + 1;
    }
    let ghost cs = column_views(columns@);
    proof {
        assert(cs == aligned_columns(batch@, target));
        lemma_first_unallowed(target, cs);
        assert forall|k: int| 0 <= k < cs.len() implies {
            &&& (#[trigger] cs[k]).data_type == target[k].data_type
            &&& cs[k].cells.len() == batch@.rows
            &&& sound(cs[k])
        } by {
            assert(cs[k] == columns@[k]@);
        }
        lemma_first_mistyped_unique(target, cs, cs.len() as int);
    }
    let rows: usize = batch.num_rows();
    match Batch::try_new_with_rows(copy_fields(target_schema), columns, rows) {
        Ok(b) => Ok(b),
        Err(e) => Err(joined("对齐 RecordBatch 失败: ", e.as_str())),
    }
}

/// The index of the first batch that cannot be aligned to a schema; the number
/// of batches where all can.
pub open spec fn first_unalignable(batches: Seq<BatchView>, target: Seq<FieldView>) -> int
    decreases batches.len(),
{
    if batches.len() == 0 || !alignable(batches[0], target) {
        0
    } else {
        1 + first_unalignable(batches.drop_first(), target)
    }
}

/// The least index of a batch that cannot be aligned is `first_unalignable`.
pub proof fn lemma_first_unalignable_unique(
    batches: Seq<BatchView>,
    target: Seq<FieldView>,
    k: int,
)
    requires
        0 <= k <= batches.len(),
        forall|i: int| 0 <= i < k ==> alignable(#[trigger] batches[i], target),
        k < batches.len() ==> !alignable(batches[k], target),
    ensures
        first_unalignable(batches, target) == k,
    decreases batches.len(),
{
    if k > 0 {
        assert(alignable(batches[0], target));
        assert forall|i: int| 0 <= i < k - 1 implies alignable(
            #[trigger] batches.drop_first()[i],
            target,
        ) by {
            assert(alignable(batches[i + 1], target));
        }
        lemma_first_unalignable_unique(batches.drop_first(), target, k - 1);
    }
}

/// Batches, each aligned to a schema.
pub open spec fn all_aligned(batches: Seq<BatchView>, target: Seq<FieldView>) -> Seq<BatchView> {
    batches.map_values(|b: BatchView| aligned(b, target))
}

/// Whether batches can be aligned to the union of their fields, and there are
/// any.
pub open spec fn all_alignable(batches: Seq<BatchView>) -> bool {
    batches.len() > 0 && first_unalignable(batches, union_fields(batches)) == batches.len()
}

/// The complaint about batches that cannot be aligned: there are none, or the
/// first that cannot is complained about.
pub open spec fn align_all_complaint(batches: Seq<BatchView>) -> Seq<char> {
    let target = union_fields(batches);
    if batches.len() == 0 {
        "无有效数据"@
    } else {
        align_complaint(batches[first_unalignable(batches, target)], target)
    }
}

/// Aligns batches to the union of their fields.
pub fn align_all(batches: &[Batch]) -> (r: Result<(Vec<Field>, Vec<Batch>), String>)
    ensures
        r is Ok <==> all_alignable(batch_views(batches@)),
        r matches Ok((fields, all)) ==> {
            let views = batch_views(batches@);
            &&& field_views(fields@) == union_fields(views)
            &&& batch_views(all@) == all_aligned(views, union_fields(views))
            &&& forall|k: int| 0 <= k < all@.len() ==> well_formed((#[trigger] all@[k])@)
        },
        r matches Err(e) ==> e@ == align_all_complaint(batch_views(batches@)),
{
    let ghost views = batch_views(batches@);
    if batches.len() == 0 {
        return Err(copied("无有效数据"));
    }
    let schema = union_schema(batches);
    let ghost target = union_fields(views);
    let mut all: Vec<Batch> = Vec::new();
    let mut i: usize = 0;
    while i < batches.len()
        invariant
            views == batch_views(batches@),
            target == union_fields(views),
            target == field_views(schema@),
            0 < batches@.len(),
            i <= batches@.len(),
            all@.len() == i,
            forall|k: int| 0 <= k < i ==> alignable(#[trigger] views[k], target),
            forall|k: int| 0 <= k < i ==> (#[trigger] all@[k])@ == aligned(views[k], target),
            forall|k: int| 0 <= k < i ==> well_formed((#[trigger] all@[k])@),
        decreases batches@.len() - i,
    {
        assert(views[i as int] == batches@[i as int]@);
        match align_batch_to_schema(&batches[i], schema.as_slice()) {
            Ok(b) => {
                all.push(b);
            },
            Err(e) => {
                proof {
                    lemma_first_unalignable_unique(views, target, i as int);
                }
                return Err(e);
            },
        }
        i = i + 1;
    }
    proof {
        lemma_first_unalignable_unique(views, target, i as int);
        assert(batch_views(all@) == all_aligned(views, target));
    }
    Ok((schema, all))
}

/// The cells of the columns at `i` of batches, one batch after the other.
pub open spec fn joined_cells(batches: Seq<BatchView>, i: int) -> Seq<Option<Cell>>
    decreases batches.len(),
{
    if batches.len() == 0 {
        Seq::empty()
    } else {
        joined_cells(batches.drop_last(), i) + batches.last().columns[i].cells
    }
}

/// The number of rows of batches together.
pub open spec fn total_rows(batches: Seq<BatchView>) -> nat
    decreases batches.len(),
{
    if batches.len() == 0 {
        0
    } else {
        total_rows(batches.drop_last()) + batches.last().rows
    }
}

/// Batches of one schema as one: the rows of one batch after those of the
/// other.
pub open spec fn merged(fields: Seq<FieldView>, batches: Seq<BatchView>) -> BatchView {
    BatchView {
        fields,
        columns: Seq::new(
            fields.len(),
            |i: int| ColumnView { data_type: fields[i].data_type, cells: joined_cells(batches, i) },
        ),
        rows: total_rows(batches),
    }
}

/// Batches aligned to the union of their fields and merged.
pub open spec fn merged_by_name(batches: Seq<BatchView>) -> BatchView {
    merged(union_fields(batches), all_aligned(batches, union_fields(batches)))
}

/// The batches of one schema.
pub open spec fn share_fields(fields: Seq<FieldView>, batches: Seq<BatchView>) -> bool {
    forall|k: int|
        0 <= k < batches.len() ==> well_formed(#[trigger] batches[k]) && batches[k].fields
            == fields
}

/// The joined cells of a column: one for each row, nulls only where some batch
/// has one, and no numeral that does not write a number.
proof fn lemma_joined_cells(fields: Seq<FieldView>, batches: Seq<BatchView>, i: int)
    requires
        share_fields(fields, batches),
        0 <= i < fields.len(),
    ensures
        joined_cells(batches, i).len() == total_rows(batches),
        !fields[i].nullable ==> forall|j: int|
            0 <= j < joined_cells(batches, i).len() ==> (#[trigger] joined_cells(
                batches,
                i,
            )[j]) is Some,
        sound(ColumnView { data_type: fields[i].data_type, cells: joined_cells(batches, i) }),
    decreases batches.len(),
{
    if batches.len() > 0 {
        let front = batches.drop_last();
        assert(share_fields(fields, front)) by {
            assert forall|k: int| 0 <= k < front.len() implies well_formed(#[trigger] front[k])
                && front[k].fields == fields by {
                assert(front[k] == batches[k]);
            }
        }
        lemma_joined_cells(fields, front, i);
        let last = batches.last();
        assert(last == batches[batches.len() - 1]);
        let column = last.columns[i];
        assert(column.cells.len() == last.rows);
        assert(sound(column));
        lemma_sound_joined(fields[i].data_type, joined_cells(front, i), column.cells);
        if !fields[i].nullable {
            assert(!has_null(column));
            let all = joined_cells(batches, i);
            let before = joined_cells(front, i);
            assert forall|j: int| 0 <= j < all.len() implies (#[trigger] all[j]) is Some by {
                if j < before.len() {
                    assert(all[j] == before[j]);
                } else {
                    assert(all[j] == column.cells[j - before.len()]);
                    assert(column.cells[j - before.len()] is Some);
                }
            }
        }
    }
}

proof fn lemma_sound_joined(
    data_type: DataType,
    a: Seq<Option<Cell>>,
    b: Seq<Option<Cell>>,
)
    requires
        sound(ColumnView { data_type, cells: a }),
        sound(ColumnView { data_type, cells: b }),
    ensures
        sound(ColumnView { data_type, cells: a + b }),
{
}

/// Alignment keeps the number of rows.
proof fn lemma_total_rows_aligned(batches: Seq<BatchView>, target: Seq<FieldView>)
    ensures
        total_rows(all_aligned(batches, target)) == total_rows(batches),
    decreases batches.len(),
{
    if batches.len() > 0 {
        lemma_total_rows_aligned(batches.drop_last(), target);
        assert(all_aligned(batches, target).drop_last() == all_aligned(
            batches.drop_last(),
            target,
        ));
    }
}

/// The cells of the columns at `i` of batches that all have one.
fn join_column(fields: &[Field], batches: &[Batch], i: usize) -> (r: Column)
    requires
        i < fields@.len(),
        share_fields(field_views(fields@), batch_views(batches@)),
    ensures
        r@.data_type == fields@[i as int].data_type,
        r@.cells == joined_cells(batch_views(batches@), i as int),
{
    let ghost views = batch_views(batches@);
    let ghost fs = field_views(fields@);
    let mut r = Column::empty(fields[i].data_type);
    let mut k: usize = 0;
    assert(views.take(0) == Seq::<BatchView>::empty());
    assert(r@.cells == Seq::<Option<Cell>>::empty());
    while k < batches.len()
        invariant
            views == batch_views(batches@),
            fs == field_views(fields@),
            i < fields@.len(),
            share_fields(fs, views),
            k <= batches@.len(),
            r@.data_type == fields@[i as int].data_type,
            r@.cells == joined_cells(views.take(k as int), i as int),
        decreases batches@.len() - k,
    {
        let columns = batches[k].columns();
        proof {
            assert(views[k as int] == batches@[k as int]@);
            assert(views[k as int].columns[i as int] == columns@[i as int]@);
            assert(fs[i as int] == fields@[i as int]@);
            assert(views.take(k + 1).drop_last() == views.take(k as int));
        }
        r.append(&columns[i]);
        k = k + 1;
    }
    assert(views.take(k as int) == views);
    r
}

/// The rows of batches together.
fn count_rows(batches: &[Batch]) -> (r: usize)
    requires
        total_rows(batch_views(batches@)) <= usize::MAX,
    ensures
        r == total_rows(batch_views(batches@)),
{
    let ghost views = batch_views(batches@);
    let mut r: usize = 0;
    let mut k: usize = 0;
    assert(views.take(0) == Seq::<BatchView>::empty());
    while k < batches.len()
        invariant
            views == batch_views(batches@),
            k <= batches@.len(),
            r == total_rows(views.take(k as int)),
            total_rows(views) <= usize::MAX,
        decreases batches@.len() - k,
    {
        proof {
            assert(views[k as int] == batches@[k as int]@);
            assert(views.take(k + 1).drop_last() == views.take(k as int));
            lemma_total_rows_prefix(views, k + 1);
        }
        r = r + batches[k].num_rows();
        k = k + 1;
    }
    assert(views.take(k as int) == views);
    r
}

proof fn lemma_total_rows_prefix(batches: Seq<BatchView>, k: int)
    requires
        0 <= k <= batches.len(),
    ensures
        total_rows(batches.take(k)) <= total_rows(batches),
    decreases batches.len(),
{
    if k == batches.len() {
        assert(batches.take(k) == batches);
    } else {
        lemma_total_rows_prefix(batches.drop_last(), k);
        assert(batches.drop_last().take(k) == batches.take(k));
    }
}

/// Batches of one schema as one.
fn merge(fields: Vec<Field>, batches: &[Batch]) -> (r: Result<Batch, String>)
    requires
        share_fields(field_views(fields@), batch_views(batches@)),
        fields@.len() > 0 || total_rows(batch_views(batches@)) <= usize::MAX,
    ensures
        r matches Ok(b) && b@ == merged(field_views(fields@), batch_views(batches@)),
{
    let ghost views = batch_views(batches@);
    let ghost fs = field_views(fields@);
    let mut columns: Vec<Column> = Vec::new();
    let mut i: usize = 0;
    while i < fields.len()
        invariant
            views == batch_views(batches@),
            fs == field_views(fields@),
            share_fields(fs, views),
            i <= fields@.len(),
            columns@.len() == i,
            forall|k: int|
                0 <= k < i ==> (#[trigger] columns@[k])@ == merged(fs, views).columns[k],
        decreases fields@.len() - i,
    {
        assert(fs[i as int] == fields@[i as int]@);
        columns.push(join_column(fields.as_slice(), batches, i));
        i = i + 1;
    }
    let ghost cs = column_views(columns@);
    proof {
        assert(cs == merged(fs, views).columns);
        assert forall|k: int| 0 <= k < cs.len() implies {
            &&& (#[trigger] cs[k]).cells.len() == total_rows(views)
            &&& !has_null(cs[k]) || fs[k].nullable
            &&& cs[k].data_type == fs[k].data_type
            &&& sound(cs[k])
        } by {
            lemma_joined_cells(fs, views, k);
        }
        lemma_first_unallowed_unique(fs, cs, cs.len() as int);
        lemma_first_mistyped_unique(fs, cs, cs.len() as int);
    }
    let rows: usize = if columns.len() > 0 {
        assert(cs[0] == columns@[0]@);
        columns[0].len()
    } else {
        count_rows(batches)
    };
    match Batch::try_new_with_rows(fields, columns, rows) {
        Ok(b) => Ok(b),
        Err(e) => Err(joined("合并 RecordBatch 失败: ", e.as_str())),
    }
}

/// Aligns batches to the union of their fields and merges them.
pub fn concat_aligned(batches: &[Batch]) -> (r: Result<Batch, String>)
    requires
        union_fields(batch_views(batches@)).len() > 0 || total_rows(batch_views(batches@))
            <= usize::MAX,
    ensures
        r is Ok <==> all_alignable(batch_views(batches@)),
        r matches Ok(b) ==> b@ == merged_by_name(batch_views(batches@)),
        r matches Err(e) ==> e@ == align_all_complaint(batch_views(batches@)),
{
    let ghost views = batch_views(batches@);
    match align_all(batches) {
        Ok((schema, all)) => {
            let ghost target = union_fields(views);
            proof {
                lemma_total_rows_aligned(views, target);
                let vs = batch_views(all@);
                assert forall|j: int| 0 <= j < vs.len() implies well_formed(#[trigger] vs[j])
                    && vs[j].fields == target by {
                    assert(vs[j] == all@[j]@);
                    assert(vs[j] == aligned(views[j], target));
                }
            }
            merge(schema, all.as_slice())
        },
        Err(e) => Err(e),
    }
}

} // verus!
