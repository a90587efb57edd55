//! What holds of aligning and merging as a whole.

use vstd::prelude::*;

use crate::loader::batch::{
    assembled, complaint, field_index, first_mistyped, first_unallowed, has_null,
    lemma_field_index, lemma_field_index_unique, lemma_first_mistyped_unique,
    lemma_first_unallowed, lemma_first_unallowed_unique, nulls, sound, well_formed, BatchView,
    Cell, ColumnView, DataType, FieldView,
};
use crate::loader::batch_util::{
    align_all_complaint, align_complaint, alignable, aligned, aligned_columns, all_alignable,
    all_aligned, first_unalignable, joined_cells, lemma_first_unalignable_unique, merged,
    merged_by_name, total_rows, union_fields, with_field, with_fields,
};
use crate::loader::cast::arrow_cast;
use crate::loader::cells::is_float;
use crate::text::decimal;

verus! {

/// Whether a field of a name stands in a schema.
pub open spec fn has_field(fields: Seq<FieldView>, name: Seq<char>) -> bool {
    exists|i: int| 0 <= i < fields.len() && (#[trigger] fields[i]).name == name
}

/// Whether no two fields have one name.
pub open spec fn distinct(fields: Seq<FieldView>) -> bool {
    forall|i: int, k: int|
        0 <= i < k < fields.len() ==> (#[trigger] fields[i]).name != (#[trigger] fields[k]).name
}

/// A field of a name stands in a schema where its index is one.
pub proof fn lemma_has_field(fields: Seq<FieldView>, name: Seq<char>)
    ensures
        has_field(fields, name) <==> field_index(fields, name) < fields.len(),
{
    lemma_field_index(fields, name);
}

proof fn lemma_with_field(fields: Seq<FieldView>, f: FieldView)
    ensures
        distinct(fields) ==> distinct(with_field(fields, f)),
        forall|name: Seq<char>|
            has_field(with_field(fields, f), name) <==> has_field(fields, name) || name == f.name,
        fields.is_prefix_of(with_field(fields, f)),
{
    lemma_has_field(fields, f.name);
    lemma_field_index(fields, f.name);
    let all = with_field(fields, f);
    assert forall|name: Seq<char>|
        has_field(all, name) <==> has_field(fields, name) || name == f.name by {
        if has_field(fields, name) {
            let i = choose|i: int| 0 <= i < fields.len() && (#[trigger] fields[i]).name == name;
            assert(all[i] == fields[i]);
        }
        if name == f.name && all.len() > fields.len() {
            assert(all[fields.len() as int].name == name);
        }
        if has_field(all, name) {
            let i = choose|i: int| 0 <= i < all.len() && (#[trigger] all[i]).name == name;
            if i < fields.len() {
                assert(fields[i] == all[i]);
            }
        }
    }
    if distinct(fields) && all.len() > fields.len() {
        assert forall|i: int, k: int| 0 <= i < k < all.len() implies (#[trigger] all[i]).name != (
        #[trigger] all[k]).name by {
            assert(all[i] == fields[i]);
            if k < fields.len() {
                assert(all[k] == fields[k]);
            }
        }
    }
}

/// Adding fields keeps the names apart and the order, and adds the names.
pub proof fn lemma_with_fields(fields: Seq<FieldView>, more: Seq<FieldView>)
    ensures
        distinct(fields) ==> distinct(with_fields(fields, more)),
        forall|name: Seq<char>|
            has_field(with_fields(fields, more), name) <==> has_field(fields, name) || has_field(
                more,
                name,
            ),
        fields.is_prefix_of(with_fields(fields, more)),
    decreases more.len(),
{
    if more.len() > 0 {
        let front = more.drop_last();
        lemma_with_fields(fields, front);
        lemma_with_field(with_fields(fields, front), more.last());
        assert forall|name: Seq<char>|
            has_field(more, name) <==> has_field(front, name) || name == more.last().name by {
            if has_field(front, name) {
                let i = choose|i: int| 0 <= i < front.len() && (#[trigger] front[i]).name == name;
                assert(more[i] == front[i]);
            }
            if name == more.last().name {
                assert(more[more.len() - 1].name == name);
            }
            if has_field(more, name) {
                let i = choose|i: int| 0 <= i < more.len() && (#[trigger] more[i]).name == name;
                if i < front.len() {
                    assert(front[i] == more[i]);
                }
            }
        }
    }
}

/// The union of fields names each column once.
pub proof fn law_union_distinct(batches: Seq<BatchView>)
    ensures
        distinct(union_fields(batches)),
    decreases batches.len(),
{
    if batches.len() > 0 {
        law_union_distinct(batches.drop_last());
        lemma_with_fields(union_fields(batches.drop_last()), batches.last().fields);
    }
}

/// The union of fields has the names of all the batches, and no others.
pub proof fn law_union_covers(batches: Seq<BatchView>, name: Seq<char>)
    ensures
        has_field(union_fields(batches), name) <==> exists|b: int|
            0 <= b < batches.len() && has_field((#[trigger] batches[b]).fields, name),
    decreases batches.len(),
{
    if batches.len() > 0 {
        let front = batches.drop_last();
        law_union_covers(front, name);
        lemma_with_fields(union_fields(front), batches.last().fields);
        if exists|b: int| 0 <= b < front.len() && has_field((#[trigger] front[b]).fields, name) {
            let b = choose|b: int|
                0 <= b < front.len() && has_field((#[trigger] front[b]).fields, name);
            assert(has_field(batches[b].fields, name));
        }
        if has_field(batches.last().fields, name) {
            assert(has_field(batches[batches.len() - 1].fields, name));
        }
        if exists|b: int|
            0 <= b < batches.len() && has_field((#[trigger] batches[b]).fields, name) {
            let b = choose|b: int|
                0 <= b < batches.len() && has_field((#[trigger] batches[b]).fields, name);
            if b < front.len() {
                assert(has_field(front[b].fields, name));
            }
        }
    }
}

/// The fields of the batches before come first in the union, in their order:
/// a batch only adds behind them.
pub proof fn law_union_in_order(batches: Seq<BatchView>, more: Seq<BatchView>)
    ensures
        union_fields(batches).is_prefix_of(union_fields(batches + more)),
    decreases more.len(),
{
    let all = batches + more;
    if more.len() == 0 {
        assert(all == batches);
    } else {
        law_union_in_order(batches, more.drop_last());
        assert(all.drop_last() == batches + more.drop_last());
        lemma_with_fields(union_fields(all.drop_last()), all.last().fields);
    }
}

/// Batches can be aligned to any schema whose fields all allow nulls.
pub proof fn law_nullable_alignable(b: BatchView, target: Seq<FieldView>)
    requires
        forall|i: int| 0 <= i < target.len() ==> (#[trigger] target[i]).nullable,
    ensures
        alignable(b, target),
{
    lemma_first_unallowed_unique(target, aligned_columns(b, target), target.len() as int);
}

/// The row at which a batch starts when batches are merged.
pub open spec fn row_offset(batches: Seq<BatchView>, b: int) -> nat {
    total_rows(batches.take(b))
}

proof fn lemma_joined_len(batches: Seq<BatchView>, i: int)
    requires
        forall|b: int|
            0 <= b < batches.len() ==> (#[trigger] batches[b]).columns[i].cells.len()
                == batches[b].rows,
    ensures
        joined_cells(batches, i).len() == total_rows(batches),
    decreases batches.len(),
{
    if batches.len() > 0 {
        let front = batches.drop_last();
        assert forall|b: int| 0 <= b < front.len() implies (
        #[trigger] front[b]).columns[i].cells.len() == front[b].rows by {
            assert(batches[b].columns[i].cells.len() == batches[b].rows);
        }
        lemma_joined_len(front, i);
        assert(batches[batches.len() - 1] == batches.last());
    }
}

/// Merging keeps every cell: those of a batch stand, in their order, behind
/// those of the batches before it.
pub proof fn law_merge_keeps_cells(batches: Seq<BatchView>, b: int, i: int, row: int)
    requires
        0 <= b < batches.len(),
        forall|k: int|
            0 <= k < batches.len() ==> (#[trigger] batches[k]).columns[i].cells.len()
                == batches[k].rows,
        0 <= row < batches[b].rows,
    ensures
        row_offset(batches, b) + row < joined_cells(batches, i).len(),
        joined_cells(batches, i)[row_offset(batches, b) + row] == batches[b].columns[i].cells[row],
    decreases batches.len(),
{
    let front = batches.drop_last();
    assert forall|k: int| 0 <= k < front.len() implies (
    #[trigger] front[k]).columns[i].cells.len() == front[k].rows by {
        assert(batches[k].columns[i].cells.len() == batches[k].rows);
    }
    lemma_joined_len(front, i);
    lemma_joined_len(batches, i);
    if b < front.len() {
        law_merge_keeps_cells(front, b, i, row);
        assert(front.take(b) == batches.take(b));
        assert(front[b] == batches[b]);
    } else {
        assert(batches.take(b) == front);
    }
}

/// A batch that is aligned stays as it is when it is aligned again, and
/// alignment keeps its rows.
pub proof fn law_align_once(b: BatchView, target: Seq<FieldView>)
    ensures
        aligned(aligned(b, target), target) == aligned(b, target),
        aligned(b, target).fields == target,
        aligned(b, target).rows == b.rows,
{
}

/// Alignment goes by name: under a field whose name and type a batch has, it
/// puts the batch's own column, wherever that stands; under a field whose name
/// it lacks, nulls.
pub proof fn law_align_by_name(b: BatchView, target: Seq<FieldView>, c: int, k: int)
    requires
        well_formed(b),
        distinct(b.fields),
        distinct(target),
        0 <= c < target.len(),
    ensures
        0 <= k < b.fields.len() && b.fields[k].name == target[c].name && b.fields[k].data_type
            == target[c].data_type ==> aligned(b, target).columns[c] == b.columns[k],
        !has_field(b.fields, target[c].name) ==> aligned(b, target).columns[c] == nulls(
            target[c].data_type,
            b.rows,
        ),
{
    let name = target[c].name;
    if 0 <= k < b.fields.len() && b.fields[k].name == name {
        assert forall|i: int| 0 <= i < k implies (#[trigger] b.fields[i]).name != name by {
            assert(b.fields[i].name != b.fields[k].name);
        }
        lemma_field_index_unique(b.fields, name, k);
        if b.fields == target && k != c {
            assert(target[k].name == target[c].name);
            if k < c {
                assert(target[k].name != target[c].name);
            } else {
                assert(target[c].name != target[k].name);
            }
        }
    }
    if !has_field(b.fields, name) {
        lemma_has_field(b.fields, name);
        lemma_field_index(b.fields, name);
        if b.fields == target {
            assert(b.fields[c].name == name);
        }
    }
}

/// The fields of batches, those of one batch behind those of the other.
pub open spec fn all_fields(batches: Seq<BatchView>) -> Seq<FieldView>
    decreases batches.len(),
{
    if batches.len() == 0 {
        Seq::empty()
    } else {
        all_fields(batches.drop_last()) + batches.last().fields
    }
}

/// Whether `fields` are those of `all` that are the first of their name, in
/// their order: they stand in it at `at`.
pub open spec fn first_seen(fields: Seq<FieldView>, all: Seq<FieldView>, at: Seq<int>) -> bool {
    &&& at.len() == fields.len()
    &&& forall|j: int, k: int| 0 <= j < k < at.len() ==> at[j] < at[k]
    &&& forall|j: int|
        0 <= j < at.len() ==> 0 <= #[trigger] at[j] < all.len() && fields[j] == all[at[j]]
    &&& forall|j: int, i: int|
        0 <= j < at.len() && 0 <= i < at[j] ==> (#[trigger] all[i]).name != (
        #[trigger] fields[j]).name
    &&& forall|i: int| 0 <= i < all.len() ==> has_field(fields, (#[trigger] all[i]).name)
}

proof fn lemma_first_seen(
    fields: Seq<FieldView>,
    all: Seq<FieldView>,
    at: Seq<int>,
    more: Seq<FieldView>,
) -> (r: Seq<int>)
    requires
        first_seen(fields, all, at),
    ensures
        first_seen(with_fields(fields, more), all + more, r),
    decreases more.len(),
{
    if more.len() == 0 {
        assert(all + more == all);
        at
    } else {
        let front = more.drop_last();
        let f = more.last();
        let before = lemma_first_seen(fields, all, at, front);
        let some = with_fields(fields, front);
        let seen = all + front;
        let next = all + more;
        assert(next == seen.push(f));
        let out = with_fields(fields, more);
        lemma_has_field(some, f.name);
        lemma_with_field(some, f);
        if has_field(some, f.name) {
            assert(out == some);
            assert forall|i: int| 0 <= i < next.len() implies has_field(
                out,
                (#[trigger] next[i]).name,
            ) by {
                if i < seen.len() {
                    assert(has_field(some, seen[i].name));
                }
            }
            assert forall|j: int, i: int| 0 <= j < before.len() && 0 <= i < before[j] implies (
            #[trigger] next[i]).name != (#[trigger] out[j]).name by {
                assert(seen[i].name != some[j].name);
            }
            before
        } else {
            let r = before.push(seen.len() as int);
            assert(out == some.push(f));
            assert forall|j: int| 0 <= j < r.len() implies 0 <= #[trigger] r[j] < next.len()
                && out[j] == next[r[j]] by {
                if j < before.len() {
                    assert(some[j] == seen[before[j]]);
                }
            }
            assert forall|j: int, i: int| 0 <= j < r.len() && 0 <= i < r[j] implies (
            #[trigger] next[i]).name != (#[trigger] out[j]).name by {
                assert(next[i] == seen[i]);
                if j < before.len() {
                    assert(seen[i].name != some[j].name);
                } else {
                    assert(has_field(some, seen[i].name));
                }
            }
            assert forall|i: int| 0 <= i < next.len() implies has_field(
                out,
                (#[trigger] next[i]).name,
            ) by {
                if i < seen.len() {
                    assert(has_field(some, seen[i].name));
                }
            }
            r
        }
    }
}

/// The union of the fields of batches has of each name the first field, with
/// its type, in the order in which they are seen first.
pub proof fn law_union_is_first_seen(batches: Seq<BatchView>) -> (at: Seq<int>)
    ensures
        first_seen(union_fields(batches), all_fields(batches), at),
    decreases batches.len(),
{
    if batches.len() == 0 {
        Seq::empty()
    } else {
        let front = batches.drop_last();
        let before = law_union_is_first_seen(front);
        lemma_first_seen(union_fields(front), all_fields(front), before, batches.last().fields)
    }
}

/// A batch of another schema gets, under each field, the first of its columns
/// of that name: as it is where it has the field's type, else what arrow casts
/// it to, or nulls where arrow casts it to nothing. Under a field whose name it
/// lacks it gets nulls. A batch that has the schema stays as it is.
pub proof fn law_align_column(b: BatchView, target: Seq<FieldView>, c: int, k: int)
    requires
        0 <= c < target.len(),
    ensures
        b.fields == target ==> aligned(b, target) == b,
        b.fields != target ==> {
            let f = target[c];
            let out = aligned(b, target);
            let first = 0 <= k < b.fields.len() && b.fields[k].name == f.name && forall|i: int|
                0 <= i < k ==> (#[trigger] b.fields[i]).name != f.name;
            &&& out.fields == target
            &&& out.rows == b.rows
            &&& out.columns.len() == target.len()
            &&& first && b.columns[k].data_type == f.data_type ==> out.columns[c] == b.columns[k]
            &&& first && b.columns[k].data_type != f.data_type ==> match arrow_cast(
                b.columns[k],
                f.data_type,
            ) {
                Some(cells) => out.columns[c].data_type == f.data_type && out.columns[c].cells
                    == cells,
                None => all_null(out.columns[c], f.data_type, b.rows),
            }
            &&& !has_field(b.fields, f.name) ==> all_null(out.columns[c], f.data_type, b.rows)
        },
{
    let f = target[c];
    if 0 <= k < b.fields.len() && b.fields[k].name == f.name && forall|i: int|
        0 <= i < k ==> (#[trigger] b.fields[i]).name != f.name {
        lemma_field_index_unique(b.fields, f.name, k);
    }
    lemma_has_field(b.fields, f.name);
    lemma_field_index(b.fields, f.name);
}

/// Whether a column of a type is `rows` nulls.
pub open spec fn all_null(column: ColumnView, t: DataType, rows: nat) -> bool {
    &&& column.data_type == t
    &&& column.cells.len() == rows
    &&& forall|i: int| 0 <= i < rows ==> (#[trigger] column.cells[i]) is None
}

/// A batch is refused exactly where a null would come under a field that
/// allows none, and the complaint names the first such field.
pub proof fn law_align_refused(b: BatchView, target: Seq<FieldView>, c: int)
    ensures
        b.fields == target ==> alignable(b, target),
        b.fields != target ==> (alignable(b, target) <==> forall|i: int, row: int|
            0 <= i < target.len() && 0 <= row < aligned(b, target).columns[i].cells.len()
                && !target[i].nullable ==> (#[trigger] aligned(
                b,
                target,
            ).columns[i].cells[row]) is Some),
        b.fields != target && 0 <= c < target.len() && !target[c].nullable && (exists|row: int|
            0 <= row < aligned(b, target).columns[c].cells.len() && (#[trigger] aligned(
                b,
                target,
            ).columns[c].cells[row]) is None) && (forall|i: int, row: int|
            0 <= i < c && 0 <= row < aligned(b, target).columns[i].cells.len()
                && !target[i].nullable ==> (#[trigger] aligned(
                b,
                target,
            ).columns[i].cells[row]) is Some) ==> align_complaint(b, target)
            == "对齐 RecordBatch 失败: "@ + ("Invalid argument error: Column '"@ + target[c].name
            + "' is declared as non-nullable but contains null values"@),
{
    if b.fields != target {
        lemma_align_refused(b, target, c);
    }
}

proof fn lemma_align_refused(b: BatchView, target: Seq<FieldView>, c: int)
    requires
        b.fields != target,
    ensures
        alignable(b, target) <==> forall|i: int, row: int|
            0 <= i < target.len() && 0 <= row < aligned(b, target).columns[i].cells.len()
                && !target[i].nullable ==> (#[trigger] aligned(
                b,
                target,
            ).columns[i].cells[row]) is Some,
        0 <= c < target.len() && !target[c].nullable && (exists|row: int|
            0 <= row < aligned(b, target).columns[c].cells.len() && (#[trigger] aligned(
                b,
                target,
            ).columns[c].cells[row]) is None) && (forall|i: int, row: int|
            0 <= i < c && 0 <= row < aligned(b, target).columns[i].cells.len()
                && !target[i].nullable ==> (#[trigger] aligned(
                b,
                target,
            ).columns[i].cells[row]) is Some) ==> align_complaint(b, target)
            == "对齐 RecordBatch 失败: "@ + ("Invalid argument error: Column '"@ + target[c].name
            + "' is declared as non-nullable but contains null values"@),
{
    let cs = aligned_columns(b, target);
    let out = aligned(b, target);
    assert(out.columns == cs);
    lemma_first_unallowed(target, cs);
    let k = first_unallowed(target, cs);
    if k < cs.len() {
        let row = choose|row: int|
            0 <= row < cs[k].cells.len() && (#[trigger] cs[k].cells[row]) is None;
        assert(out.columns[k].cells[row] is None);
    } else {
        assert forall|i: int, row: int|
            0 <= i < target.len() && 0 <= row < out.columns[i].cells.len()
                && !target[i].nullable implies (#[trigger] out.columns[i].cells[row]) is Some by {
            assert(!has_null(cs[i]));
        }
    }
    if 0 <= c < target.len() && !target[c].nullable && (exists|row: int|
        0 <= row < out.columns[c].cells.len() && (
        #[trigger] out.columns[c].cells[row]) is None) && (forall|i: int, row: int|
        0 <= i < c && 0 <= row < out.columns[i].cells.len() && !target[i].nullable ==> (
        #[trigger] out.columns[i].cells[row]) is Some) {
        let row = choose|row: int|
            0 <= row < out.columns[c].cells.len() && (#[trigger] out.columns[c].cells[row]) is None;
        assert(cs[c].cells[row] is None);
        assert(has_null(cs[c]));
        assert forall|i: int|
            0 <= i < c implies !has_null(#[trigger] cs[i]) || target[i].nullable by {
            if has_null(cs[i]) && !target[i].nullable {
                let r = choose|r: int|
                    0 <= r < cs[i].cells.len() && (#[trigger] cs[i].cells[r]) is None;
                assert(out.columns[i].cells[r] is Some);
            }
        }
        lemma_first_unallowed_unique(target, cs, c);
    }
}

/// Batches of one schema are merged into one with its fields and all their
/// rows; each column holds the cells of one batch behind those of the other.
/// Rows are counted batch by batch.
pub proof fn law_merged(fields: Seq<FieldView>, batches: Seq<BatchView>, b: BatchView, i: int)
    requires
        0 <= i < fields.len(),
    ensures
        merged(fields, batches).fields == fields,
        merged(fields, batches).columns.len() == fields.len(),
        merged(fields, batches).columns[i].data_type == fields[i].data_type,
        merged(fields, batches).columns[i].cells == joined_cells(batches, i),
        merged(fields, batches).rows == total_rows(batches),
        total_rows(Seq::empty()) == 0,
        total_rows(batches.push(b)) == total_rows(batches) + b.rows,
        joined_cells(Seq::empty(), i) == Seq::<Option<Cell>>::empty(),
        joined_cells(batches.push(b), i) == joined_cells(batches, i) + b.columns[i].cells,
        merged_by_name(batches) == merged(
            union_fields(batches),
            all_aligned(batches, union_fields(batches)),
        ),
        all_aligned(batches, fields).len() == batches.len(),
        forall|k: int|
            0 <= k < batches.len() ==> #[trigger] all_aligned(batches, fields)[k] == aligned(
                batches[k],
                fields,
            ),
{
    assert(batches.push(b).drop_last() == batches);
}

/// Batches can be aligned exactly where there are some and each of them can be
/// aligned to the union of their fields. The complaint is about the first that
/// cannot, or that there is no data.
pub proof fn law_all_alignable(batches: Seq<BatchView>, k: int)
    ensures
        all_alignable(batches) <==> batches.len() > 0 && forall|i: int|
            0 <= i < batches.len() ==> alignable(#[trigger] batches[i], union_fields(batches)),
        batches.len() == 0 ==> align_all_complaint(batches) == "无有效数据"@,
        0 <= k < batches.len() && !alignable(batches[k], union_fields(batches)) && (forall|i: int|
            0 <= i < k ==> alignable(#[trigger] batches[i], union_fields(batches)))
            ==> align_all_complaint(batches) == align_complaint(batches[k], union_fields(batches)),
{
    let target = union_fields(batches);
    lemma_first_unalignable(batches, target);
    if 0 <= k < batches.len() && !alignable(batches[k], target) && (forall|i: int|
        0 <= i < k ==> alignable(#[trigger] batches[i], target)) {
        lemma_first_unalignable_unique(batches, target, k);
    }
}

proof fn lemma_first_unalignable(batches: Seq<BatchView>, target: Seq<FieldView>)
    ensures
        ({
            let k = first_unalignable(batches, target);
            &&& 0 <= k <= batches.len()
            &&& forall|i: int| 0 <= i < k ==> alignable(#[trigger] batches[i], target)
            &&& k < batches.len() ==> !alignable(batches[k], target)
        }),
    decreases batches.len(),
{
    if batches.len() > 0 && alignable(batches[0], target) {
        let more = batches.drop_first();
        lemma_first_unalignable(more, target);
        let k = first_unalignable(batches, target);
        assert forall|i: int| 0 <= i < k implies alignable(#[trigger] batches[i], target) by {
            if i > 0 {
                assert(batches[i] == more[i - 1]);
            }
        }
        if k < batches.len() {
            assert(batches[k] == more[k - 1]);
        }
    }
}

/// Fields and columns make a batch exactly where there is a column for each
/// field, of its type and with as many cells as the others or as rows are
/// asked for, and no null stands under a field that allows none. The batch
/// holds them as they are.
pub proof fn law_batch_is_made(
    fields: Seq<FieldView>,
    columns: Seq<ColumnView>,
    rows: Option<nat>,
)
    ensures
        complaint(fields, columns, rows) is None <==> {
            &&& columns.len() == fields.len()
            &&& rows is Some || columns.len() > 0
            &&& forall|i: int|
                0 <= i < columns.len() ==> {
                    &&& (#[trigger] columns[i]).data_type == fields[i].data_type
                    &&& columns[i].cells.len() == match rows {
                        Some(n) => n,
                        None => columns[0].cells.len(),
                    }
                    &&& fields[i].nullable || forall|row: int|
                        0 <= row < columns[i].cells.len() ==> (
                        #[trigger] columns[i].cells[row]) is Some
                }
        },
        assembled(fields, columns, rows).fields == fields,
        assembled(fields, columns, rows).columns == columns,
        rows matches Some(n) ==> assembled(fields, columns, rows).rows == n,
        rows is None ==> assembled(fields, columns, rows).rows == columns[0].cells.len(),
{
    if columns.len() == fields.len() {
        lemma_first_unallowed(fields, columns);
        lemma_first_mistyped(fields, columns);
        let k = first_unallowed(fields, columns);
        let m = first_mistyped(fields, columns);
        if k < columns.len() {
            assert(has_null(columns[k]));
        }
        if k == columns.len() {
            assert forall|i: int| 0 <= i < columns.len() implies fields[i].nullable || forall|
                row: int,
            |
                0 <= row < columns[i].cells.len() ==> (
                #[trigger] columns[i].cells[row]) is Some by {
                assert(!has_null(columns[i]) || fields[i].nullable);
            }
        }
    }
}

/// What holds of every batch: a column for each field, of its type and with a
/// cell for each row; no null under a field that allows none; and no numeral
/// that writes no number.
pub proof fn law_batches_are_sound(b: BatchView)
    ensures
        well_formed(b) <==> {
            &&& b.columns.len() == b.fields.len()
            &&& forall|i: int|
                0 <= i < b.columns.len() ==> {
                    &&& (#[trigger] b.columns[i]).data_type == b.fields[i].data_type
                    &&& b.columns[i].cells.len() == b.rows
                    &&& b.fields[i].nullable || forall|row: int|
                        0 <= row < b.rows ==> (#[trigger] b.columns[i].cells[row]) is Some
                }
            &&& forall|i: int, row: int|
                0 <= i < b.columns.len() && 0 <= row < b.columns[i].cells.len() ==> (
                #[trigger] b.columns[i].cells[row] matches Some(Cell::Numeral(s)) ==> is_float(s))
        },
{
    if well_formed(b) {
        assert forall|i: int| 0 <= i < b.columns.len() implies {
            &&& (#[trigger] b.columns[i]).data_type == b.fields[i].data_type
            &&& b.columns[i].cells.len() == b.rows
            &&& b.fields[i].nullable || forall|row: int|
                0 <= row < b.rows ==> (#[trigger] b.columns[i].cells[row]) is Some
        } by {
            assert(has_null(b.columns[i]) ==> b.fields[i].nullable);
        }
        assert forall|i: int, row: int|
            0 <= i < b.columns.len() && 0 <= row < b.columns[i].cells.len() implies (
        #[trigger] b.columns[i].cells[row] matches Some(Cell::Numeral(s)) ==> is_float(s)) by {
            assert(sound(b.columns[i]));
        }
    }
    if b.columns.len() == b.fields.len() && forall|i: int, row: int|
        0 <= i < b.columns.len() && 0 <= row < b.columns[i].cells.len() ==> (
        #[trigger] b.columns[i].cells[row] matches Some(Cell::Numeral(s)) ==> is_float(s)) {
        assert forall|i: int| 0 <= i < b.columns.len() implies sound(#[trigger] b.columns[i]) by {}
    }
}

/// Where fields and columns make no batch, the complaint tells the first
/// reason, in this order: their numbers differ, there is neither a column nor
/// a number of rows, a column holds a null that its field does not allow, a
/// column is too long or too short, a column is not of its field's type.
pub proof fn law_batch_complaints(
    fields: Seq<FieldView>,
    columns: Seq<ColumnView>,
    rows: Option<nat>,
    k: int,
)
    ensures
        columns.len() != fields.len() ==> complaint(fields, columns, rows) == Some(
            "Invalid argument error: number of columns("@ + decimal(columns.len())
                + ") must match number of fields("@ + decimal(fields.len()) + ") in schema"@,
        ),
        columns.len() == 0 && fields.len() == 0 && rows is None ==> complaint(fields, columns, rows)
            == Some(
            "Invalid argument error: must either specify a row count or at least one column"@,
        ),
        columns.len() == fields.len() && 0 <= k < columns.len() && !fields[k].nullable && (exists|
            row: int,
        |
            0 <= row < columns[k].cells.len() && (#[trigger] columns[k].cells[row]) is None) && (
        forall|i: int, row: int|
            0 <= i < k && 0 <= row < columns[i].cells.len() && !fields[i].nullable ==> (
            #[trigger] columns[i].cells[row]) is Some) ==> complaint(fields, columns, rows) == Some(
            "Invalid argument error: Column '"@ + fields[k].name
                + "' is declared as non-nullable but contains null values"@,
        ),
        columns.len() == fields.len() && 0 <= k < columns.len() && columns[k].cells.len() != (
        match rows {
            Some(n) => n,
            None => columns[0].cells.len(),
        }) && (forall|i: int, row: int|
            0 <= i < columns.len() && 0 <= row < columns[i].cells.len() && !fields[i].nullable ==> (
            #[trigger] columns[i].cells[row]) is Some) ==> complaint(fields, columns, rows) == Some(
            if rows is Some {
                "Invalid argument error: all columns in a record batch must have the specified row count"@
            } else {
                "Invalid argument error: all columns in a record batch must have the same length"@
            },
        ),
        columns.len() == fields.len() && 0 <= k < columns.len() && columns[k].data_type
            != fields[k].data_type && (forall|i: int|
            0 <= i < k ==> (#[trigger] columns[i]).data_type == fields[i].data_type) && (forall|
            i: int,
        |
            0 <= i < columns.len() ==> (#[trigger] columns[i]).cells.len() == (match rows {
                Some(n) => n,
                None => columns[0].cells.len(),
            })) && (forall|i: int, row: int|
            0 <= i < columns.len() && 0 <= row < columns[i].cells.len() && !fields[i].nullable ==> (
            #[trigger] columns[i].cells[row]) is Some) ==> complaint(fields, columns, rows) == Some(
            "Invalid argument error: column types must match schema types, expected "@
                + type_shown(fields[k].data_type) + " but found "@ + type_shown(
                columns[k].data_type,
            ) + " at column index "@ + decimal(k as nat),
        ),
{
    if columns.len() == fields.len() {
        lemma_first_unallowed(fields, columns);
        let u = first_unallowed(fields, columns);
        if forall|i: int, row: int|
            0 <= i < columns.len() && 0 <= row < columns[i].cells.len() && !fields[i].nullable ==> (
            #[trigger] columns[i].cells[row]) is Some {
            if u < columns.len() {
                let row = choose|row: int|
                    0 <= row < columns[u].cells.len() && (
                    #[trigger] columns[u].cells[row]) is None;
                assert(columns[u].cells[row] is Some);
            }
        }
        if 0 <= k < columns.len() && !fields[k].nullable && (exists|row: int|
            0 <= row < columns[k].cells.len() && (#[trigger] columns[k].cells[row]) is None) && (
        forall|i: int, row: int|
            0 <= i < k && 0 <= row < columns[i].cells.len() && !fields[i].nullable ==> (
            #[trigger] columns[i].cells[row]) is Some) {
            assert(has_null(columns[k]));
            assert forall|i: int| 0 <= i < k implies !has_null(#[trigger] columns[i])
                || fields[i].nullable by {
                if has_null(columns[i]) && !fields[i].nullable {
                    let r = choose|r: int|
                        0 <= r < columns[i].cells.len() && (
                        #[trigger] columns[i].cells[r]) is None;
                    assert(columns[i].cells[r] is Some);
                }
            }
            lemma_first_unallowed_unique(fields, columns, k);
        }
        if 0 <= k < columns.len() && columns[k].data_type != fields[k].data_type && (forall|i: int|
            0 <= i < k ==> (#[trigger] columns[i]).data_type == fields[i].data_type) {
            lemma_first_mistyped_unique(fields, columns, k);
        }
    }
}

/// The name of a type in a complaint.
pub open spec fn type_shown(t: DataType) -> Seq<char> {
    match t {
        DataType::Utf8 => "Utf8"@,
        DataType::Float64 => "Float64"@,
        DataType::Int64 => "Int64"@,
        DataType::Date32 => "Date32"@,
    }
}

proof fn lemma_first_mistyped(fields: Seq<FieldView>, columns: Seq<ColumnView>)
    requires
        fields.len() == columns.len(),
    ensures
        ({
            let k = first_mistyped(fields, columns);
            &&& 0 <= k <= columns.len()
            &&& forall|i: int|
                0 <= i < k ==> (#[trigger] columns[i]).data_type == fields[i].data_type
            &&& k < columns.len() ==> columns[k].data_type != fields[k].data_type
        }),
    decreases columns.len(),
{
    if columns.len() > 0 && columns[0].data_type == fields[0].data_type {
        lemma_first_mistyped(fields.drop_first(), columns.drop_first());
        let k = first_mistyped(fields, columns);
        assert forall|i: int| 0 <= i < k implies (#[trigger] columns[i]).data_type
            == fields[i].data_type by {
            if i > 0 {
                assert(columns[i] == columns.drop_first()[i - 1]);
                assert(fields[i] == fields.drop_first()[i - 1]);
            }
        }
    }
}

} // verus!
