//! What values show of what they hold: nothing is added, dropped or changed
//! between a column and its cells, a list and its texts.

use vstd::prelude::*;

use crate::loader::batch::{
    column_views, field_views, nulls, nulls_among, Batch, Cell, Column, DataType, Field,
};
use crate::loader::batch_util::batch_views;
use crate::loader::cast::keeps_nulls;
use crate::loader::cells::{ascii_text, DateFormat, DateFormatView};
use crate::loader::chunked_io::{file_view, outcome, outcomes};
use crate::loader::gbk::all_ascii;
use crate::loader::schema::{text_pairs, ColType, ColTypeView, SchemaSpec};
use crate::loader::stock_reader::requested;
use crate::loader::table::{countable, source_views};
use crate::text::texts;

verus! {

/// A column shows each text as it is held, and a null for each gap.
pub proof fn law_text_column(v: Vec<Option<String>>, i: int)
    requires
        0 <= i < v@.len(),
    ensures
        Column::Utf8(v)@.data_type == DataType::Utf8,
        Column::Utf8(v)@.cells.len() == v@.len(),
        v@[i] matches Some(s) ==> Column::Utf8(v)@.cells[i] == Some(Cell::Text(s@)),
        v@[i] is None ==> Column::Utf8(v)@.cells[i] is None,
        Column::Float64(v)@.data_type == DataType::Float64,
        Column::Float64(v)@.cells.len() == v@.len(),
        v@[i] matches Some(s) ==> Column::Float64(v)@.cells[i] == Some(Cell::Numeral(s@)),
        v@[i] is None ==> Column::Float64(v)@.cells[i] is None,
{
}

/// A column shows each integer as it is held, and a null for each gap.
pub proof fn law_integer_column(v: Vec<Option<i64>>, i: int)
    requires
        0 <= i < v@.len(),
    ensures
        Column::Int64(v)@.data_type == DataType::Int64,
        Column::Int64(v)@.cells.len() == v@.len(),
        v@[i] matches Some(n) ==> Column::Int64(v)@.cells[i] == Some(Cell::Integer(n)),
        v@[i] is None ==> Column::Int64(v)@.cells[i] is None,
{
}

/// A column shows each day as it is held, and a null for each gap.
pub proof fn law_day_column(v: Vec<Option<i32>>, i: int)
    requires
        0 <= i < v@.len(),
    ensures
        Column::Date32(v)@.data_type == DataType::Date32,
        Column::Date32(v)@.cells.len() == v@.len(),
        v@[i] matches Some(d) ==> Column::Date32(v)@.cells[i] == Some(Cell::Day(d)),
        v@[i] is None ==> Column::Date32(v)@.cells[i] is None,
{
}

/// A column of nulls has a null in every row and the type it was made for.
pub proof fn law_null_column(t: DataType, rows: nat)
    ensures
        nulls(t, rows).data_type == t,
        nulls(t, rows).cells.len() == rows,
        forall|i: int| 0 <= i < rows ==> (#[trigger] nulls(t, rows).cells[i]) is None,
{
}

/// The number of nulls among cells is the number of places where one stands.
pub proof fn law_nulls_counted(cells: Seq<Option<Cell>>, at: Seq<int>)
    requires
        forall|j: int, k: int| 0 <= j < k < at.len() ==> at[j] < at[k],
        forall|j: int|
            0 <= j < at.len() ==> 0 <= #[trigger] at[j] < cells.len() && cells[at[j]] is None,
        forall|i: int| 0 <= i < cells.len() && (#[trigger] cells[i]) is None ==> at.contains(i),
    ensures
        nulls_among(cells) == at.len(),
    decreases cells.len(),
{
    if cells.len() == 0 {
        if at.len() > 0 {
            assert(0 <= at[0] < cells.len());
        }
    } else {
        let front = cells.drop_last();
        let last = cells.len() - 1;
        let before = if cells[last] is None {
            at.drop_last()
        } else {
            at
        };
        if cells[last] is None {
            let j = choose|j: int| 0 <= j < at.len() && at[j] == last;
            if j < at.len() - 1 {
                assert(at[j] < at[at.len() - 1]);
                assert(at[at.len() - 1] < cells.len());
            }
            assert(at.last() == last);
        }
        assert forall|j: int| 0 <= j < before.len() implies 0 <= #[trigger] before[j] < front.len()
            && front[before[j]] is None by {
            assert(before[j] == at[j]);
            assert(cells[at[j]] is None);
            if cells[last] is None {
                assert(at[j] < at[at.len() - 1]);
            } else if at[j] == last {
                assert(false);
            }
        }
        assert forall|i: int| 0 <= i < front.len() && (
        #[trigger] front[i]) is None implies before.contains(i) by {
            assert(cells[i] is None);
            let j = choose|j: int| 0 <= j < at.len() && at[j] == i;
            assert(before[j] == i);
        }
        law_nulls_counted(front, before);
    }
}

/// A field shows its name, its type and whether it allows nulls; fields,
/// columns and batches show each of theirs in its place.
pub proof fn law_lists_show_items(fields: Seq<Field>, columns: Seq<Column>, batches: Seq<Batch>)
    ensures
        field_views(fields).len() == fields.len(),
        forall|i: int|
            0 <= i < fields.len() ==> {
                &&& (#[trigger] field_views(fields)[i]).name == fields[i].name@
                &&& field_views(fields)[i].data_type == fields[i].data_type
                &&& field_views(fields)[i].nullable == fields[i].nullable
            },
        column_views(columns).len() == columns.len(),
        forall|i: int|
            0 <= i < columns.len() ==> #[trigger] column_views(columns)[i] == columns[i]@,
        batch_views(batches).len() == batches.len(),
        forall|i: int| 0 <= i < batches.len() ==> #[trigger] batch_views(batches)[i] == batches[i]@,
{
}

/// Lists of texts, of pairs and of field numbers show each item as it is, in
/// its place.
pub proof fn law_lists_show_texts(
    v: Seq<String>,
    pairs: Seq<(String, String)>,
    sources: Seq<Option<usize>>,
    columns: Option<&[String]>,
)
    ensures
        texts(v).len() == v.len(),
        forall|i: int| 0 <= i < v.len() ==> #[trigger] texts(v)[i] == v[i]@,
        text_pairs(pairs).len() == pairs.len(),
        forall|i: int|
            0 <= i < pairs.len() ==> #[trigger] text_pairs(pairs)[i] == (
                pairs[i].0@,
                pairs[i].1@,
            ),
        source_views(sources).len() == sources.len(),
        forall|i: int|
            0 <= i < sources.len() ==> match #[trigger] sources[i] {
                Some(k) => source_views(sources)[i] == Some(k as nat),
                None => source_views(sources)[i] is None,
            },
        match columns {
            Some(names) => requested(columns) is Some && requested(columns)->0.len()
                == names@.len() && forall|i: int|
                0 <= i < names@.len() ==> #[trigger] requested(columns)->0[i] == names@[i]@,
            None => requested(columns) is None,
        },
{
}

/// A schema shows what it declares, list by list, and its default type.
pub proof fn law_schema_shows_declarations(schema: SchemaSpec, name: Seq<char>, format: Seq<char>)
    ensures
        schema@.strings.contains(name) <==> exists|i: int|
            0 <= i < schema.string_cols@.len() && (#[trigger] schema.string_cols@[i])@ == name,
        schema@.ints.contains(name) <==> exists|i: int|
            0 <= i < schema.int_cols@.len() && (#[trigger] schema.int_cols@[i])@ == name,
        schema@.floats.contains(name) <==> exists|i: int|
            0 <= i < schema.float_cols@.len() && (#[trigger] schema.float_cols@[i])@ == name,
        schema@.dates.contains((name, format)) <==> exists|i: int|
            0 <= i < schema.date_cols@.len() && (#[trigger] schema.date_cols@[i]).0@ == name
                && schema.date_cols@[i].1@ == format,
        schema@.default_type == schema.default_type@,
{
    lemma_texts_contain(schema.string_cols@, name);
    lemma_texts_contain(schema.int_cols@, name);
    lemma_texts_contain(schema.float_cols@, name);
    let dates = schema@.dates;
    if dates.contains((name, format)) {
        let i = choose|i: int| 0 <= i < dates.len() && dates[i] == (name, format);
        assert(schema.date_cols@[i].0@ == name);
    }
    if exists|i: int|
        0 <= i < schema.date_cols@.len() && (#[trigger] schema.date_cols@[i]).0@ == name
            && schema.date_cols@[i].1@ == format {
        let i = choose|i: int|
            0 <= i < schema.date_cols@.len() && (#[trigger] schema.date_cols@[i]).0@ == name
                && schema.date_cols@[i].1@ == format;
        assert(dates[i] == (name, format));
    }
}

proof fn lemma_texts_contain(v: Seq<String>, name: Seq<char>)
    ensures
        texts(v).contains(name) <==> exists|i: int| 0 <= i < v.len() && (#[trigger] v[i])@ == name,
{
    let all = texts(v);
    if all.contains(name) {
        let i = choose|i: int| 0 <= i < all.len() && all[i] == name;
        assert(v[i]@ == name);
    }
    if exists|i: int| 0 <= i < v.len() && (#[trigger] v[i])@ == name {
        let i = choose|i: int| 0 <= i < v.len() && (#[trigger] v[i])@ == name;
        assert(all[i] == name);
    }
}

/// Column types and date formats show what they are.
pub proof fn law_types_show_themselves(format: String)
    ensures
        ColType::Str@ == ColTypeView::Str,
        ColType::Float64@ == ColTypeView::Float64,
        ColType::Int64@ == ColTypeView::Int64,
        (ColType::Date { format })@ == ColTypeView::Date(format@),
        DateFormat::Ymd@ == DateFormatView::Ymd,
        DateFormat::Ymd8@ == DateFormatView::Ymd8,
        DateFormat::Other(format)@ == DateFormatView::Other(format@),
{
}

/// A cast that keeps nulls gives a cell for each cell, and a null for each
/// null. The fields up to a source can be counted where there is a number
/// behind it.
pub proof fn law_nulls_are_kept(
    a: Seq<Option<Cell>>,
    b: Seq<Option<Cell>>,
    sources: Seq<Option<usize>>,
)
    ensures
        keeps_nulls(a, b) <==> a.len() == b.len() && forall|i: int|
            0 <= i < a.len() && a[i] is None ==> (#[trigger] b[i]) is None,
        countable(sources) <==> forall|i: int|
            0 <= i < sources.len() ==> #[trigger] sources[i] != Some(usize::MAX),
{
    if countable(sources) {
        assert forall|i: int| 0 <= i < sources.len() implies #[trigger] sources[i] != Some(
            usize::MAX,
        ) by {
            if sources[i] is Some {
                assert(sources[i]->0 < usize::MAX);
            }
        }
    }
}

/// ASCII bytes stand for the characters of their numbers, one for each.
pub proof fn law_ascii_shows_bytes(bytes: Seq<u8>, i: int)
    requires
        0 <= i < bytes.len(),
    ensures
        ascii_text(bytes).len() == bytes.len(),
        ascii_text(bytes)[i] as int == bytes[i] as int,
        all_ascii(bytes) <==> forall|k: int| 0 <= k < bytes.len() ==> #[trigger] bytes[k] < 128,
{
}

/// What became of a file shows its batch or its complaint, and a file that was
/// read shows its bytes.
pub proof fn law_outcomes_show_results(
    r: Result<Batch, String>,
    all: Seq<Result<Batch, String>>,
    file: Result<Vec<u8>, String>,
)
    ensures
        match r {
            Ok(b) => outcome(r) matches Ok(view) && view == b@,
            Err(e) => outcome(r) matches Err(s) && s == e@,
        },
        outcomes(all).len() == all.len(),
        forall|i: int| 0 <= i < all.len() ==> #[trigger] outcomes(all)[i] == outcome(all[i]),
        match file {
            Ok(bytes) => file_view(file) matches Ok(view) && view == bytes@,
            Err(e) => file_view(file) matches Err(s) && s == e@,
        },
{
}

} // verus!
