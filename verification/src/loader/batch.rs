//! Typed columns of equal length under named fields.
//!
//! A batch is the unit that files are parsed into and that the merging code
//! works on. A `Float64` cell is held as its numeral, as it is written: which
//! texts are numerals is decided here, and their binary value is left to the
//! consumer.

use vstd::prelude::*;

use crate::loader::cells::is_float;
use crate::text::{copied, decimal, decimal_text, joined, same_text};

verus! {

/// The type of a column.
#[derive(Clone, Copy, Debug, PartialEq, Eq, Structural)]
pub enum DataType {
    Utf8,
    Float64,
    Int64,
    Date32,
}

/// A value of a column.
#[verifier::ext_equal]
pub enum Cell {
    Text(Seq<char>),
    Numeral(Seq<char>),
    Integer(i64),
    /// Days since 1970-01-01.
    Day(i32),
}

/// A column: its type and its cells, `None` where a cell is null.
#[verifier::ext_equal]
pub struct ColumnView {
    pub data_type: DataType,
    pub cells: Seq<Option<Cell>>,
}

/// The cells of a text column.
pub open spec fn text_cells(v: Seq<Option<String>>) -> Seq<Option<Cell>> {
    v.map_values(
        |c: Option<String>|
            match c {
                Some(s) => Some(Cell::Text(s@)),
                None => None,
            },
    )
}

/// The cells of a column of numerals.
pub open spec fn numeral_cells(v: Seq<Option<String>>) -> Seq<Option<Cell>> {
    v.map_values(
        |c: Option<String>|
            match c {
                Some(s) => Some(Cell::Numeral(s@)),
                None => None,
            },
    )
}

/// The cells of a column of integers.
pub open spec fn integer_cells(v: Seq<Option<i64>>) -> Seq<Option<Cell>> {
    v.map_values(
        |c: Option<i64>|
            match c {
                Some(n) => Some(Cell::Integer(n)),
                None => None,
            },
    )
}

/// The cells of a column of dates.
pub open spec fn day_cells(v: Seq<Option<i32>>) -> Seq<Option<Cell>> {
    v.map_values(
        |c: Option<i32>|
            match c {
                Some(d) => Some(Cell::Day(d)),
                None => None,
            },
    )
}

/// A column of nulls.
pub open spec fn nulls(data_type: DataType, rows: nat) -> ColumnView {
    ColumnView { data_type, cells: Seq::new(rows, |i: int| None) }
}

/// Whether a column holds a null.
pub open spec fn has_null(column: ColumnView) -> bool {
    exists|i: int| 0 <= i < column.cells.len() && (#[trigger] column.cells[i]) is None
}

/// Whether every numeral of a column writes a number.
pub open spec fn sound(column: ColumnView) -> bool {
    forall|i: int|
        0 <= i < column.cells.len() ==> ((#[trigger] column.cells[i]) matches Some(
            Cell::Numeral(s),
        ) ==> is_float(s))
}

/// Whether every numeral of columns writes a number.
pub open spec fn all_sound(columns: Seq<ColumnView>) -> bool {
    forall|i: int| 0 <= i < columns.len() ==> sound(#[trigger] columns[i])
}

/// The number of nulls among `cells`.
pub open spec fn nulls_among(cells: Seq<Option<Cell>>) -> nat
    decreases cells.len(),
{
    if cells.len() == 0 {
        0
    } else {
        nulls_among(cells.drop_last()) + if cells.last() is None {
            1nat
        } else {
            0nat
        }
    }
}

/// A column of one type.
#[derive(Clone, Debug)]
pub enum Column {
    Utf8(Vec<Option<String>>),
    /// Numerals, as they are written.
    Float64(Vec<Option<String>>),
    Int64(Vec<Option<i64>>),
    /// Days since 1970-01-01.
    Date32(Vec<Option<i32>>),
}

impl View for Column {
    type V = ColumnView;

    open spec fn view(&self) -> ColumnView {
        match self {
            Column::Utf8(v) => ColumnView { data_type: DataType::Utf8, cells: text_cells(v@) },
            Column::Float64(v) => ColumnView {
                data_type: DataType::Float64,
                cells: numeral_cells(v@),
            },
            Column::Int64(v) => ColumnView {
                data_type: DataType::Int64,
                cells: integer_cells(v@),
            },
            Column::Date32(v) => ColumnView { data_type: DataType::Date32, cells: day_cells(v@) },
        }
    }
}

/// A copy of an optional text.
fn copy_cell(c: &Option<String>) -> (r: Option<String>)
    ensures
        r is Some <==> c is Some,
        r is Some ==> r->0@ == c->0@,
{
    match c {
        Some(s) => Some(copied(s.as_str())),
        None => None,
    }
}

/// Appends copies of `more` to `v`.
fn extend_texts(v: &mut Vec<Option<String>>, more: &Vec<Option<String>>)
    ensures
        text_cells(final(v)@) == text_cells(old(v)@) + text_cells(more@),
        numeral_cells(final(v)@) == numeral_cells(old(v)@) + numeral_cells(more@),
{
    let ghost start = v@;
    let mut i: usize = 0;
    while i < more.len()
        invariant
            i <= more@.len(),
            v@.len() == start.len() + i,
            forall|k: int| 0 <= k < start.len() ==> v@[k] == start[k],
            forall|k: int|
                0 <= k < i ==> {
                    &&& (#[trigger] v@[start.len() + k]) is Some <==> more@[k] is Some
                    &&& more@[k] is Some ==> v@[start.len() + k]->0@ == more@[k]->0@
                },
        decreases more@.len() - i,
    {
        let c = copy_cell(&more[i]);
        v.push(c);
        i = i + 1;
    }
    proof {
        assert forall|k: int| 0 <= k < v@.len() implies {
            &&& text_cells(v@)[k] == (text_cells(start) + text_cells(more@))[k]
            &&& numeral_cells(v@)[k] == (numeral_cells(start) + numeral_cells(more@))[k]
        } by {
            if k >= start.len() {
                assert(v@[k] == v@[start.len() + (k - start.len())]);
            }
        }
        assert(text_cells(v@) == text_cells(start) + text_cells(more@));
        assert(numeral_cells(v@) == numeral_cells(start) + numeral_cells(more@));
    }
}

impl Column {
    /// An empty column.
    pub fn empty(data_type: DataType) -> (r: Column)
        ensures
            r@ == nulls(data_type, 0),
    {
        let r = match data_type {
            DataType::Utf8 => Column::Utf8(Vec::new()),
            DataType::Float64 => Column::Float64(Vec::new()),
            DataType::Int64 => Column::Int64(Vec::new()),
            DataType::Date32 => Column::Date32(Vec::new()),
        };
        assert(r@.cells == nulls(data_type, 0).cells);
        r
    }

    /// A column of `rows` nulls.
    pub fn null(data_type: DataType, rows: usize) -> (r: Column)
        ensures
            r@ == nulls(data_type, rows as nat),
    {
        let mut r = Column::empty(data_type);
        let mut i: usize = 0;
        while i < rows
            invariant
                i <= rows,
                r@ == nulls(data_type, i as nat),
            decreases rows - i,
        {
            r.push_null();
            i = i + 1;
            assert(r@.cells == nulls(data_type, i as nat).cells);
        }
        r
    }

    /// Appends a null.
    pub fn push_null(&mut self)
        ensures
            final(self)@.data_type == old(self)@.data_type,
            final(self)@.cells == old(self)@.cells.push(None),
    {
        match self {
            Column::Utf8(v) => v.push(None),
            Column::Float64(v) => v.push(None),
            Column::Int64(v) => v.push(None),
            Column::Date32(v) => v.push(None),
        }
        assert(self@.cells == old(self)@.cells.push(None));
    }

    /// The type of the column.
    pub fn data_type(&self) -> (r: DataType)
        ensures
            r == self@.data_type,
    {
        match self {
            Column::Utf8(_) => DataType::Utf8,
            Column::Float64(_) => DataType::Float64,
            Column::Int64(_) => DataType::Int64,
            Column::Date32(_) => DataType::Date32,
        }
    }

    /// The number of cells.
    pub fn len(&self) -> (r: usize)
        ensures
            r == self@.cells.len(),
    {
        match self {
            Column::Utf8(v) => v.len(),
            Column::Float64(v) => v.len(),
            Column::Int64(v) => v.len(),
            Column::Date32(v) => v.len(),
        }
    }

    /// Whether the cell at `i` is null.
    pub fn is_null(&self, i: usize) -> (r: bool)
        requires
            i < self@.cells.len(),
        ensures
            r == (self@.cells[i as int] is None),
    {
        match self {
            Column::Utf8(v) => v[i].is_none(),
            Column::Float64(v) => v[i].is_none(),
            Column::Int64(v) => v[i].is_none(),
            Column::Date32(v) => v[i].is_none(),
        }
    }

    /// The number of nulls.
    pub fn null_count(&self) -> (r: usize)
        ensures
            r == nulls_among(self@.cells),
            r > 0 <==> has_null(self@),
    {
        let n: usize = self.len();
        let mut count: usize = 0;
        let mut i: usize = 0;
        while i < n
            invariant
                n == self@.cells.len(),
                count <= i <= n,
                count == nulls_among(self@.cells.take(i as int)),
                count > 0 <==> exists|k: int| 0 <= k < i && (#[trigger] self@.cells[k]) is None,
            decreases n - i,
        {
            assert(self@.cells.take(i + 1).drop_last() == self@.cells.take(i as int));
            if self.is_null(i) {
                count = count + 1;
                assert(self@.cells[i as int] is None);
            }
            i = i + 1;
        }
        assert(self@.cells.take(n as int) == self@.cells);
        count
    }

    /// Appends the cells of another column of the same type.
    pub fn append(&mut self, more: &Column)
        requires
            old(self)@.data_type == more@.data_type,
        ensures
            final(self)@.data_type == old(self)@.data_type,
            final(self)@.cells == old(self)@.cells + more@.cells,
    {
        match self {
            Column::Utf8(v) => {
                if let Column::Utf8(w) = more {
                    extend_texts(v, w);
                }
            },
            Column::Float64(v) => {
                if let Column::Float64(w) = more {
                    extend_texts(v, w);
                }
            },
            Column::Int64(v) => {
                if let Column::Int64(w) = more {
                    v.extend_from_slice(w.as_slice());
                }
            },
            Column::Date32(v) => {
                if let Column::Date32(w) = more {
                    v.extend_from_slice(w.as_slice());
                }
            },
        }
        assert(self@.cells == old(self)@.cells + more@.cells);
    }

    /// A copy of the column.
    pub fn copied(&self) -> (r: Column)
        ensures
            r@ == self@,
    {
        let mut r = Column::empty(self.data_type());
        r.append(self);
        assert(r@.cells == self@.cells);
        r
    }
}

/// A field: the name and type of a column, and whether it may hold nulls.
#[derive(Clone, Debug)]
pub struct Field {
    pub name: String,
    pub data_type: DataType,
    pub nullable: bool,
}

/// A field with the characters of its name.
#[verifier::ext_equal]
pub struct FieldView {
    pub name: Seq<char>,
    pub data_type: DataType,
    pub nullable: bool,
}

impl View for Field {
    type V = FieldView;

    open spec fn view(&self) -> FieldView {
        FieldView { name: self.name@, data_type: self.data_type, nullable: self.nullable }
    }
}

/// The fields of a schema.
pub open spec fn field_views(v: Seq<Field>) -> Seq<FieldView> {
    v.map_values(|f: Field| f@)
}

/// The columns of a batch.
pub open spec fn column_views(v: Seq<Column>) -> Seq<ColumnView> {
    v.map_values(|c: Column| c@)
}

impl Field {
    /// A field.
    pub fn new(name: &str, data_type: DataType, nullable: bool) -> (r: Field)
        ensures
            r@ == (FieldView { name: name@, data_type, nullable }),
    {
        Field { name: copied(name), data_type, nullable }
    }

    /// A copy of the field.
    pub fn copied(&self) -> (r: Field)
        ensures
            r@ == self@,
    {
        Field::new(self.name.as_str(), self.data_type, self.nullable)
    }

    /// Whether two fields are the same.
    pub fn same(&self, other: &Field) -> (r: bool)
        ensures
            r == (self@ == other@),
    {
        same_text(self.name.as_str(), other.name.as_str()) && self.data_type == other.data_type
            && self.nullable == other.nullable
    }
}

/// Whether two schemas are the same.
pub fn same_fields(a: &[Field], b: &[Field]) -> (r: bool)
    ensures
        r == (field_views(a@) == field_views(b@)),
{
    if a.len() != b.len() {
        assert(field_views(a@).len() != field_views(b@).len());
        return false;
    }
    let mut i: usize = 0;
    while i < a.len()
        invariant
            i <= a@.len() == b@.len(),
            forall|k: int| 0 <= k < i ==> (#[trigger] a@[k])@ == b@[k]@,
        decreases a@.len() - i,
    {
        if !a[i].same(&b[i]) {
            assert(field_views(a@)[i as int] != field_views(b@)[i as int]);
            return false;
        }
        i = i + 1;
    }
    assert(field_views(a@) == field_views(b@));
    true
}

/// A copy of a schema.
pub fn copy_fields(fields: &[Field]) -> (r: Vec<Field>)
    ensures
        field_views(r@) == field_views(fields@),
{
    let mut r: Vec<Field> = Vec::new();
    let mut i: usize = 0;
    while i < fields.len()
        invariant
            i <= fields@.len(),
            r@.len() == i,
            forall|k: int| 0 <= k < i ==> (#[trigger] r@[k])@ == fields@[k]@,
        decreases fields@.len() - i,
    {
        r.push(fields[i].copied());
        i = i + 1;
    }
    assert(field_views(r@) == field_views(fields@));
    r
}

/// A batch: its fields, one column for each, and its number of rows.
#[verifier::ext_equal]
pub struct BatchView {
    pub fields: Seq<FieldView>,
    pub columns: Seq<ColumnView>,
    pub rows: nat,
}

/// What holds of every batch: a column for each field, of the field's type,
/// with a cell for each row, with nulls only where the field allows them, and
/// with no numeral that does not write a number.
pub open spec fn well_formed(b: BatchView) -> bool {
    &&& b.columns.len() == b.fields.len()
    &&& forall|i: int|
        0 <= i < b.columns.len() ==> {
            &&& (#[trigger] b.columns[i]).data_type == b.fields[i].data_type
            &&& b.columns[i].cells.len() == b.rows
            &&& has_null(b.columns[i]) ==> b.fields[i].nullable
        }
    &&& all_sound(b.columns)
}

/// Columns of equal length under named fields.
#[derive(Debug)]
pub struct Batch {
    fields: Vec<Field>,
    columns: Vec<Column>,
    num_rows: usize,
}

impl View for Batch {
    type V = BatchView;

    closed spec fn view(&self) -> BatchView {
        BatchView {
            fields: field_views(self.fields@),
            columns: column_views(self.columns@),
            rows: self.num_rows as nat,
        }
    }
}

impl Clone for Batch {
    fn clone(&self) -> (r: Self)
        ensures
            r@ == self@,
    {
        self.copied()
    }
}

/// The index of the first field of a name; the number of fields where no
/// field has it.
pub open spec fn field_index(fields: Seq<FieldView>, name: Seq<char>) -> int
    decreases fields.len(),
{
    if fields.len() == 0 || fields[0].name == name {
        0
    } else {
        1 + field_index(fields.drop_first(), name)
    }
}

/// `field_index` is the least index at which a field of the name stands.
pub proof fn lemma_field_index(fields: Seq<FieldView>, name: Seq<char>)
    ensures
        0 <= field_index(fields, name) <= fields.len(),
        forall|i: int| 0 <= i < field_index(fields, name) ==> (#[trigger] fields[i]).name != name,
        field_index(fields, name) < fields.len() ==> fields[field_index(fields, name)].name
            == name,
    decreases fields.len(),
{
    if fields.len() != 0 && fields[0].name != name {
        lemma_field_index(fields.drop_first(), name);
        assert forall|i: int| 0 <= i < field_index(fields, name) implies (
        #[trigger] fields[i]).name != name by {
            if i > 0 {
                assert(fields[i] == fields.drop_first()[i - 1]);
            }
        }
    }
}

/// The least index at which a field of the name stands is `field_index`.
pub proof fn lemma_field_index_unique(fields: Seq<FieldView>, name: Seq<char>, k: int)
    requires
        0 <= k <= fields.len(),
        forall|i: int| 0 <= i < k ==> (#[trigger] fields[i]).name != name,
        k < fields.len() ==> fields[k].name == name,
    ensures
        field_index(fields, name) == k,
{
    lemma_field_index(fields, name);
    let m = field_index(fields, name);
    if m < k {
        assert(fields[m].name != name);
    }
}

/// The index of the first field of a name in a schema.
pub fn find_field(fields: &[Field], name: &str) -> (r: Option<usize>)
    ensures
        r is Some <==> field_index(field_views(fields@), name@) < fields@.len(),
        r matches Some(i) ==> i == field_index(field_views(fields@), name@),
{
    let ghost views = field_views(fields@);
    let mut i: usize = 0;
    while i < fields.len()
        invariant
            views == field_views(fields@),
            i <= fields@.len(),
            forall|k: int| 0 <= k < i ==> (#[trigger] views[k]).name != name@,
        decreases fields@.len() - i,
    {
        assert(views[i as int] == fields@[i as int]@);
        if same_text(fields[i].name.as_str(), name) {
            proof {
                lemma_field_index_unique(views, name@, i as int);
            }
            return Some(i);
        }
        i = i + 1;
    }
    proof {
        lemma_field_index_unique(views, name@, i as int);
    }
    None
}

/// The name of a type.
pub open spec fn shown_name(t: DataType) -> Seq<char> {
    match t {
        DataType::Utf8 => "Utf8"@,
        DataType::Float64 => "Float64"@,
        DataType::Int64 => "Int64"@,
        DataType::Date32 => "Date32"@,
    }
}

impl DataType {
    /// The name of the type.
    pub fn name(&self) -> (r: &'static str)
        ensures
            r@ == shown_name(*self),
    {
        match self {
            DataType::Utf8 => "Utf8",
            DataType::Float64 => "Float64",
            DataType::Int64 => "Int64",
            DataType::Date32 => "Date32",
        }
    }
}

/// The index of the first column that holds nulls its field does not allow;
/// the number of columns where there is none.
pub open spec fn first_unallowed(fields: Seq<FieldView>, columns: Seq<ColumnView>) -> int
    decreases columns.len(),
{
    if columns.len() == 0 || (has_null(columns[0]) && !fields[0].nullable) {
        0
    } else {
        1 + first_unallowed(fields.drop_first(), columns.drop_first())
    }
}

/// `first_unallowed` is the least such index.
pub proof fn lemma_first_unallowed(fields: Seq<FieldView>, columns: Seq<ColumnView>)
    requires
        fields.len() == columns.len(),
    ensures
        0 <= first_unallowed(fields, columns) <= columns.len(),
        forall|i: int|
            0 <= i < first_unallowed(fields, columns) ==> !has_null(#[trigger] columns[i])
                || fields[i].nullable,
        first_unallowed(fields, columns) < columns.len() ==> {
            let k = first_unallowed(fields, columns);
            has_null(columns[k]) && !fields[k].nullable
        },
    decreases columns.len(),
{
    if columns.len() != 0 && !(has_null(columns[0]) && !fields[0].nullable) {
        lemma_first_unallowed(fields.drop_first(), columns.drop_first());
        assert forall|i: int| 0 <= i < first_unallowed(fields, columns) implies !has_null(
            #[trigger] columns[i],
        ) || fields[i].nullable by {
            if i > 0 {
                assert(columns[i] == columns.drop_first()[i - 1]);
                assert(fields[i] == fields.drop_first()[i - 1]);
            }
        }
    }
}

/// The least such index is `first_unallowed`.
pub proof fn lemma_first_unallowed_unique(
    fields: Seq<FieldView>,
    columns: Seq<ColumnView>,
    k: int,
)
    requires
        fields.len() == columns.len(),
        0 <= k <= columns.len(),
        forall|i: int|
            0 <= i < k ==> !has_null(#[trigger] columns[i]) || fields[i].nullable,
        k < columns.len() ==> has_null(columns[k]) && !fields[k].nullable,
    ensures
        first_unallowed(fields, columns) == k,
{
    lemma_first_unallowed(fields, columns);
    let m = first_unallowed(fields, columns);
    if m < k {
        assert(!has_null(columns[m]) || fields[m].nullable);
    }
}

/// The index of the first column that is not of its field's type; the number
/// of columns where there is none.
pub open spec fn first_mistyped(fields: Seq<FieldView>, columns: Seq<ColumnView>) -> int
    decreases columns.len(),
{
    if columns.len() == 0 || columns[0].data_type != fields[0].data_type {
        0
    } else {
        1 + first_mistyped(fields.drop_first(), columns.drop_first())
    }
}

/// The least such index is `first_mistyped`.
pub proof fn lemma_first_mistyped_unique(fields: Seq<FieldView>, columns: Seq<ColumnView>, k: int)
    requires
        fields.len() == columns.len(),
        0 <= k <= columns.len(),
        forall|i: int|
            0 <= i < k ==> (#[trigger] columns[i]).data_type == fields[i].data_type,
        k < columns.len() ==> columns[k].data_type != fields[k].data_type,
    ensures
        first_mistyped(fields, columns) == k,
    decreases columns.len(),
{
    if k > 0 {
        assert(columns[0].data_type == fields[0].data_type);
        assert forall|i: int| 0 <= i < k - 1 implies (
        #[trigger] columns.drop_first()[i]).data_type == fields.drop_first()[i].data_type by {
            assert(columns[i + 1].data_type == fields[i + 1].data_type);
        }
        lemma_first_mistyped_unique(fields.drop_first(), columns.drop_first(), k - 1);
    }
}

/// Whether some column has not `rows` cells.
pub open spec fn misses_rows(columns: Seq<ColumnView>, rows: nat) -> bool {
    exists|i: int| 0 <= i < columns.len() && (#[trigger] columns[i]).cells.len() != rows
}

/// The complaint about a column that holds nulls its field does not allow.
pub open spec fn null_complaint(name: Seq<char>) -> Seq<char> {
    "Invalid argument error: Column '"@ + name
        + "' is declared as non-nullable but contains null values"@
}

/// The complaint about a batch with neither a column nor a number of rows.
pub open spec fn empty_complaint() -> Seq<char> {
    "Invalid argument error: must either specify a row count or at least one column"@
}

/// Why fields, columns and, where it is given, a number of rows make no
/// batch; `None` where they make one. Of several reasons the first counts, in
/// the order in which they stand here.
pub open spec fn complaint(
    fields: Seq<FieldView>,
    columns: Seq<ColumnView>,
    rows: Option<nat>,
) -> Option<Seq<char>> {
    if columns.len() != fields.len() {
        Some(
            "Invalid argument error: number of columns("@ + decimal(columns.len())
                + ") must match number of fields("@ + decimal(fields.len()) + ") in schema"@,
        )
    } else if rows is None && columns.len() == 0 {
        Some(empty_complaint())
    } else if first_unallowed(fields, columns) < columns.len() {
        Some(null_complaint(fields[first_unallowed(fields, columns)].name))
    } else if rows is Some && misses_rows(columns, rows->0) {
        Some(
            "Invalid argument error: all columns in a record batch must have the specified row count"@,
        )
    } else if rows is None && misses_rows(columns, columns[0].cells.len()) {
        Some("Invalid argument error: all columns in a record batch must have the same length"@)
    } else if first_mistyped(fields, columns) < columns.len() {
        let k = first_mistyped(fields, columns);
        Some(
            "Invalid argument error: column types must match schema types, expected "@
                + shown_name(fields[k].data_type) + " but found "@ + shown_name(
                columns[k].data_type,
            ) + " at column index "@ + decimal(k as nat),
        )
    } else {
        None
    }
}

/// The batch of fields, columns and, where it is given, a number of rows.
pub open spec fn assembled(
    fields: Seq<FieldView>,
    columns: Seq<ColumnView>,
    rows: Option<nat>,
) -> BatchView {
    BatchView {
        fields,
        columns,
        rows: match rows {
            Some(n) => n,
            None => columns[0].cells.len(),
        },
    }
}

impl Batch {
    #[verifier::type_invariant]
    closed spec fn inv(self) -> bool {
        well_formed(self@)
    }

    /// A batch with as many rows as its columns have cells.
    pub fn try_new(fields: Vec<Field>, columns: Vec<Column>) -> (r: Result<Batch, String>)
        requires
            all_sound(column_views(columns@)),
        ensures
            match complaint(field_views(fields@), column_views(columns@), None) {
                Some(e) => r matches Err(s) && s@ == e,
                None => r matches Ok(b) && b@ == assembled(
                    field_views(fields@),
                    column_views(columns@),
                    None,
                ) && well_formed(b@),
            },
    {
        Batch::assemble(fields, columns, None)
    }

    /// A batch with a given number of rows.
    pub fn try_new_with_rows(fields: Vec<Field>, columns: Vec<Column>, rows: usize) -> (r: Result<
        Batch,
        String,
    >)
        requires
            all_sound(column_views(columns@)),
        ensures
            match complaint(field_views(fields@), column_views(columns@), Some(rows as nat)) {
                Some(e) => r matches Err(s) && s@ == e,
                None => r matches Ok(b) && b@ == assembled(
                    field_views(fields@),
                    column_views(columns@),
                    Some(rows as nat),
                ) && well_formed(b@),
            },
    {
        Batch::assemble(fields, columns, Some(rows))
    }

    fn assemble(fields: Vec<Field>, columns: Vec<Column>, rows: Option<usize>) -> (r: Result<
        Batch,
        String,
    >)
        requires
            all_sound(column_views(columns@)),
        ensures
            ({
                let given = match rows {
                    Some(n) => Some(n as nat),
                    None => None,
                };
                match complaint(field_views(fields@), column_views(columns@), given) {
                    Some(e) => r matches Err(s) && s@ == e,
                    None => r matches Ok(b) && b@ == assembled(
                        field_views(fields@),
                        column_views(columns@),
                        given,
                    ) && well_formed(b@),
                }
            }),
    {
        let ghost fs = field_views(fields@);
        let ghost cs = column_views(columns@);
        if columns.len() != fields.len() {
            let mut e = joined(
                "Invalid argument error: number of columns(",
                decimal_text(columns.len()).as_str(),
            );
            e.append(") must match number of fields(");
            e.append(decimal_text(fields.len()).as_str());
            e.append(") in schema");
            return Err(e);
        }
        let num_rows: usize = match rows {
            Some(n) => n,
            None => {
                if columns.len() == 0 {
                    return Err(
                        copied(
                            "Invalid argument error: must either specify a row count or at least one column",
                        ),
                    );
                }
                assert(cs[0] == columns@[0]@);
                columns[0].len()
            },
        };
        let mut i: usize = 0;
        while i < columns.len()
            invariant
                fs == field_views(fields@),
                cs == column_views(columns@),
                i <= columns@.len() == fields@.len(),
                rows is None ==> columns@.len() > 0,
                forall|k: int|
                    0 <= k < i ==> !has_null(#[trigger] cs[k]) || fs[k].nullable,
            decreases columns@.len() - i,
        {
            assert(cs[i as int] == columns@[i as int]@ && fs[i as int] == fields@[i as int]@);
            if !fields[i].nullable && columns[i].null_count() > 0 {
                proof {
                    lemma_first_unallowed_unique(fs, cs, i as int);
                }
                let mut e = joined("Invalid argument error: Column '", fields[i].name.as_str());
                e.append("' is declared as non-nullable but contains null values");
                return Err(e);
            }
            i = i + 1;
        }
        proof {
            lemma_first_unallowed_unique(fs, cs, i as int);
        }
        i = 0;
        while i < columns.len()
            invariant
                fs == field_views(fields@),
                cs == column_views(columns@),
                i <= columns@.len() == fields@.len(),
                first_unallowed(fs, cs) == cs.len(),
                rows matches Some(n) ==> n == num_rows,
                rows is None ==> columns@.len() > 0 && num_rows == cs[0].cells.len(),
                forall|k: int| 0 <= k < i ==> (#[trigger] cs[k]).cells.len() == num_rows,
            decreases columns@.len() - i,
        {
            assert(cs[i as int] == columns@[i as int]@);
            if columns[i].len() != num_rows {
                assert(misses_rows(cs, num_rows as nat));
                return Err(
                    if rows.is_some() {
                        copied(
                            "Invalid argument error: all columns in a record batch must have the specified row count",
                        )
                    } else {
                        copied(
                            "Invalid argument error: all columns in a record batch must have the same length",
                        )
                    },
                );
            }
            i = i + 1;
        }
        i = 0;
        while i < columns.len()
            invariant
                fs == field_views(fields@),
                cs == column_views(columns@),
                i <= columns@.len() == fields@.len(),
                first_unallowed(fs, cs) == cs.len(),
                rows matches Some(n) ==> n == num_rows,
                rows is None ==> columns@.len() > 0 && num_rows == cs[0].cells.len(),
                forall|k: int|
                    0 <= k < columns@.len() ==> (#[trigger] cs[k]).cells.len() == num_rows,
                forall|k: int| 0 <= k < i ==> (#[trigger] cs[k]).data_type == fs[k].data_type,
            decreases columns@.len() - i,
        {
            assert(cs[i as int] == columns@[i as int]@ && fs[i as int] == fields@[i as int]@);
            let found = columns[i].data_type();
            let expected = fields[i].data_type;
            if found != expected {
                proof {
                    lemma_first_mistyped_unique(fs, cs, i as int);
                }
                let mut e = joined(
                    "Invalid argument error: column types must match schema types, expected ",
                    expected.name(),
                );
                e.append(" but found ");
                e.append(found.name());
                e.append(" at column index ");
                e.append(decimal_text(i).as_str());
                return Err(e);
            }
            i = i + 1;
        }
        proof {
            lemma_first_mistyped_unique(fs, cs, i as int);
            lemma_first_unallowed(fs, cs);
        }
        Ok(Batch { fields, columns, num_rows })
    }

    /// The fields.
    pub fn fields(&self) -> (r: &[Field])
        ensures
            field_views(r@) == self@.fields,
            well_formed(self@),
    {
        proof {
            use_type_invariant(self);
        }
        self.fields.as_slice()
    }

    /// The columns.
    pub fn columns(&self) -> (r: &[Column])
        ensures
            column_views(r@) == self@.columns,
            well_formed(self@),
    {
        proof {
            use_type_invariant(self);
        }
        self.columns.as_slice()
    }

    /// The number of rows.
    pub fn num_rows(&self) -> (r: usize)
        ensures
            r == self@.rows,
            well_formed(self@),
    {
        proof {
            use_type_invariant(self);
        }
        self.num_rows
    }

    /// A copy of the batch.
    pub fn copied(&self) -> (r: Batch)
        ensures
            r@ == self@,
            well_formed(r@),
    {
        proof {
            use_type_invariant(self);
        }
        let fields = copy_fields(self.fields.as_slice());
        let mut columns: Vec<Column> = Vec::new();
        let mut i: usize = 0;
        while i < self.columns.len()
            invariant
                i <= self.columns@.len(),
                columns@.len() == i,
                forall|k: int| 0 <= k < i ==> (#[trigger] columns@[k])@ == self.columns@[k]@,
            decreases self.columns@.len() - i,
        {
            columns.push(self.columns[i].copied());
            i = i + 1;
        }
        assert(column_views(columns@) == column_views(self.columns@));
        Batch { fields, columns, num_rows: self.num_rows }
    }
}

} // verus!
