//! Casting a column to another type, by `arrow`.
//!
//! A text cell goes into a `LargeStringArray` and comes out of one: its
//! offsets have 64 bits, so that a column of any size fits. Text is parsed and
//! written by the same code of `arrow` as in the small array. A numeral goes
//! in as the number it stands for and comes out in the shortest form that
//! stands for the same number.

use std::sync::Arc;

use arrow::array::{
    ArrayRef, AsArray, Date32Array, Float64Array, Int64Array, LargeStringArray,
};
use arrow::compute::cast;
use arrow::datatypes::{Date32Type, Float64Type, Int64Type};
use vstd::prelude::*;

use crate::loader::batch::{
    day_cells, integer_cells, numeral_cells, sound, text_cells, Cell, Column, ColumnView, DataType,
};

verus! {

/// The cells that `arrow::compute::cast` makes of a column for a type; `None`
/// where it has no such cast or the cast fails as a whole.
pub uninterp spec fn arrow_cast(column: ColumnView, to: DataType) -> Option<Seq<Option<Cell>>>;

/// Whether `b` has a cell for each cell of `a`, and a null for each null.
pub open spec fn keeps_nulls(a: Seq<Option<Cell>>, b: Seq<Option<Cell>>) -> bool {
    &&& a.len() == b.len()
    &&& forall|i: int| 0 <= i < a.len() && a[i] is None ==> (#[trigger] b[i]) is None
}

/// `arrow::compute::cast` to text: the result is named, it has a cell for each
/// cell of the column, and a null stays a null. What text a value becomes is
/// not stated.
#[verifier::external_body]
fn cast_to_texts(column: &Column) -> (r: Option<Vec<Option<String>>>)
    ensures
        r is Some <==> arrow_cast(column@, DataType::Utf8) is Some,
        r matches Some(v) ==> arrow_cast(column@, DataType::Utf8) == Some(text_cells(v@))
            && keeps_nulls(column@.cells, text_cells(v@)),
{
    let array: ArrayRef = match column {
        Column::Utf8(v) => Arc::new(LargeStringArray::from(v.clone())),
        Column::Float64(v) => Arc::new(
            v.iter().map(|c| c.as_ref()?.parse().ok()).collect::<Float64Array>(),
        ),
        Column::Int64(v) => Arc::new(Int64Array::from(v.clone())),
        Column::Date32(v) => Arc::new(Date32Array::from(v.clone())),
    };
    let out = cast(&array, &arrow::datatypes::DataType::LargeUtf8).ok()?;
    Some(out.as_string::<i64>().iter().map(|c| c.map(String::from)).collect())
}

/// `arrow::compute::cast` to floating-point numbers: the result is named, it
/// has a cell for each cell of the column, and a null stays a null. Each
/// number comes out as the numeral that `ToString` writes for it: its decimal
/// digits, `inf` or `NaN`, with a sign where it has one. What number a value
/// becomes is not stated.
#[verifier::external_body]
fn cast_to_numerals(column: &Column) -> (r: Option<Vec<Option<String>>>)
    ensures
        r is Some <==> arrow_cast(column@, DataType::Float64) is Some,
        r matches Some(v) ==> arrow_cast(column@, DataType::Float64) == Some(numeral_cells(v@))
            && keeps_nulls(column@.cells, numeral_cells(v@)) && sound(
            ColumnView { data_type: DataType::Float64, cells: numeral_cells(v@) },
        ),
{
    let array: ArrayRef = match column {
        Column::Utf8(v) => Arc::new(LargeStringArray::from(v.clone())),
        Column::Float64(v) => Arc::new(
            v.iter().map(|c| c.as_ref()?.parse().ok()).collect::<Float64Array>(),
        ),
        Column::Int64(v) => Arc::new(Int64Array::from(v.clone())),
        Column::Date32(v) => Arc::new(Date32Array::from(v.clone())),
    };
    let out = cast(&array, &arrow::datatypes::DataType::Float64).ok()?;
    Some(out.as_primitive::<Float64Type>().iter().map(|c| c.map(|x| x.to_string())).collect())
}

/// `arrow::compute::cast` to integers: the result is named, it has a cell for
/// each cell of the column, and a null stays a null. What integer a value
/// becomes is not stated.
#[verifier::external_body]
fn cast_to_integers(column: &Column) -> (r: Option<Vec<Option<i64>>>)
    ensures
        r is Some <==> arrow_cast(column@, DataType::Int64) is Some,
        r matches Some(v) ==> arrow_cast(column@, DataType::Int64) == Some(integer_cells(v@))
            && keeps_nulls(column@.cells, integer_cells(v@)),
{
    let array: ArrayRef = match column {
        Column::Utf8(v) => Arc::new(LargeStringArray::from(v.clone())),
        Column::Float64(v) => Arc::new(
            v.iter().map(|c| c.as_ref()?.parse().ok()).collect::<Float64Array>(),
        ),
        Column::Int64(v) => Arc::new(Int64Array::from(v.clone())),
        Column::Date32(v) => Arc::new(Date32Array::from(v.clone())),
    };
    let out = cast(&array, &arrow::datatypes::DataType::Int64).ok()?;
    Some(out.as_primitive::<Int64Type>().iter().collect())
}

/// `arrow::compute::cast` to dates: the result is named, it has a cell for
/// each cell of the column, and a null stays a null. What date a value
/// becomes is not stated.
#[verifier::external_body]
fn cast_to_days(column: &Column) -> (r: Option<Vec<Option<i32>>>)
    ensures
        r is Some <==> arrow_cast(column@, DataType::Date32) is Some,
        r matches Some(v) ==> arrow_cast(column@, DataType::Date32) == Some(day_cells(v@))
            && keeps_nulls(column@.cells, day_cells(v@)),
{
    let array: ArrayRef = match column {
        Column::Utf8(v) => Arc::new(LargeStringArray::from(v.clone())),
        Column::Float64(v) => Arc::new(
            v.iter().map(|c| c.as_ref()?.parse().ok()).collect::<Float64Array>(),
        ),
        Column::Int64(v) => Arc::new(Int64Array::from(v.clone())),
        Column::Date32(v) => Arc::new(Date32Array::from(v.clone())),
    };
    let out = cast(&array, &arrow::datatypes::DataType::Date32).ok()?;
    Some(out.as_primitive::<Date32Type>().iter().collect())
}

/// The column that `arrow` makes of a column for a type; `None` where it makes
/// none.
pub fn cast_column(column: &Column, to: DataType) -> (r: Option<Column>)
    ensures
        r is Some <==> arrow_cast(column@, to) is Some,
        r matches Some(c) ==> c@.data_type == to && Some(c@.cells) == arrow_cast(column@, to)
            && keeps_nulls(column@.cells, c@.cells) && sound(c@),
{
    match to {
        DataType::Utf8 => match cast_to_texts(column) {
            Some(v) => Some(Column::Utf8(v)),
            None => None,
        },
        DataType::Float64 => match cast_to_numerals(column) {
            Some(v) => Some(Column::Float64(v)),
            None => None,
        },
        DataType::Int64 => match cast_to_integers(column) {
            Some(v) => Some(Column::Int64(v)),
            None => None,
        },
        DataType::Date32 => match cast_to_days(column) {
            Some(v) => Some(Column::Date32(v)),
            None => None,
        },
    }
}

} // verus!
