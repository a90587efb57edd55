//! Building a column out of the texts of its fields.

use vstd::prelude::*;

use crate::loader::batch::{
    day_cells, integer_cells, numeral_cells, text_cells, Cell, Column, ColumnView, DataType,
    Field, FieldView,
};
use crate::loader::cells::{
    date_days, date_format, fast_parse_date, int64_value, is_float, is_float_text, parse_int64,
    DateFormat,
};
use crate::loader::schema::{column_type, ColType, ColTypeView};
use crate::text::{copied, decimal, decimal_text, joined, trim, trimmed};

verus! {

/// What a field of a column holds. An empty text is null; numbers and dates
/// are read without the white space around them, and what is none is null.
pub open spec fn cell_of(t: ColTypeView, value: Seq<char>) -> Option<Cell> {
    let inner = trimmed(value);
    match t {
        ColTypeView::Str => if value.len() == 0 {
            None
        } else {
            Some(Cell::Text(value))
        },
        ColTypeView::Float64 => if is_float(inner) {
            Some(Cell::Numeral(inner))
        } else {
            None
        },
        ColTypeView::Int64 => match int64_value(inner) {
            Some(n) => Some(Cell::Integer(n)),
            None => None,
        },
        ColTypeView::Date(format) => if inner.len() == 0 {
            None
        } else {
            match date_days(inner, date_format(format)) {
                Some(days) => Some(Cell::Day(days as i32)),
                None => None,
            }
        },
    }
}

/// The cells that the fields of a column hold.
pub open spec fn cells_of(t: ColTypeView, values: Seq<Seq<char>>) -> Seq<Option<Cell>> {
    values.map_values(|v: Seq<char>| cell_of(t, v))
}

/// Whether a field holds more than white space.
pub open spec fn filled(value: Seq<char>) -> bool {
    trimmed(value).len() > 0
}

/// Whether a field holds something that its column cannot.
pub open spec fn failed(t: ColTypeView, value: Seq<char>) -> bool {
    filled(value) && cell_of(t, value) is None
}

/// The number of filled fields.
pub open spec fn filled_count(values: Seq<Seq<char>>) -> nat
    decreases values.len(),
{
    if values.len() == 0 {
        0
    } else {
        filled_count(values.drop_last()) + if filled(values.last()) {
            1nat
        } else {
            0nat
        }
    }
}

/// The number of failed fields.
pub open spec fn failed_count(t: ColTypeView, values: Seq<Seq<char>>) -> nat
    decreases values.len(),
{
    if values.len() == 0 {
        0
    } else {
        failed_count(t, values.drop_last()) + if failed(t, values.last()) {
            1nat
        } else {
            0nat
        }
    }
}

/// The first failed field, without the white space around it.
pub open spec fn first_failed(t: ColTypeView, values: Seq<Seq<char>>) -> Option<Seq<char>>
    decreases values.len(),
{
    if values.len() == 0 {
        None
    } else {
        match first_failed(t, values.drop_last()) {
            Some(v) => Some(v),
            None => if failed(t, values.last()) {
                Some(trimmed(values.last()))
            } else {
                None
            },
        }
    }
}

/// Whether fields are read as numbers.
pub open spec fn numeric(t: ColTypeView) -> bool {
    t == ColTypeView::Float64 || t == ColTypeView::Int64
}

/// A column under construction: how its fields are read, whether failures
/// are tracked, and the fields so far.
#[verifier::ext_equal]
pub struct BuilderView {
    pub col_type: ColTypeView,
    pub tracked_failures: bool,
    pub values: Seq<Seq<char>>,
}

/// The empty column of a type. Failures are tracked where a number is asked
/// for that nobody declared.
pub open spec fn new_builder(t: ColTypeView, declared: bool) -> BuilderView {
    BuilderView {
        col_type: t,
        tracked_failures: !declared && numeric(t),
        values: Seq::empty(),
    }
}

/// Whether failures are tracked and every filled field failed, and there is
/// one.
pub open spec fn all_failed(b: BuilderView) -> bool {
    &&& b.tracked_failures
    &&& exists|i: int| 0 <= i < b.values.len() && filled(#[trigger] b.values[i])
    &&& forall|i: int|
        0 <= i < b.values.len() && filled(#[trigger] b.values[i]) ==> failed(
            b.col_type,
            b.values[i],
        )
}

/// The complaint about a column whose fields all failed.
pub open spec fn failure_complaint(b: BuilderView, name: Seq<char>) -> Seq<char> {
    "列 '"@ + name + "' 未在 schema 中声明，按 "@ + (if b.col_type == ColTypeView::Int64 {
        "int64"@
    } else {
        "float64"@
    }) + " 解析，但 "@ + decimal(filled_count(b.values)) + " 个非空值全部解析失败（示例值: '"@
        + first_failed(b.col_type, b.values)->0
        + "'）。请在 schema 里把它声明为 \"str\"，或调用时传 default_type=\"str\""@
}

/// No more fields fail than are filled, and as many only where all do.
proof fn lemma_failed_count(t: ColTypeView, values: Seq<Seq<char>>)
    ensures
        failed_count(t, values) <= filled_count(values) <= values.len(),
        filled_count(values) > 0 <==> exists|i: int|
            0 <= i < values.len() && filled(#[trigger] values[i]),
        failed_count(t, values) == filled_count(values) <==> forall|i: int|
            0 <= i < values.len() && filled(#[trigger] values[i]) ==> failed(t, values[i]),
        failed_count(t, values) > 0 <==> first_failed(t, values) is Some,
    decreases values.len(),
{
    if values.len() > 0 {
        let front = values.drop_last();
        let n = front.len() as int;
        lemma_failed_count(t, front);
        assert(values[n] == values.last());
        assert forall|i: int| 0 <= i < n implies values[i] == #[trigger] front[i] by {}
        if filled_count(front) > 0 {
            let i = choose|i: int| 0 <= i < n && filled(#[trigger] front[i]);
            assert(filled(values[i]));
        }
        if exists|i: int| 0 <= i < values.len() && filled(#[trigger] values[i]) {
            let i = choose|i: int| 0 <= i < values.len() && filled(#[trigger] values[i]);
            if i < n {
                assert(filled(front[i]));
            }
        }
        if failed_count(t, values) == filled_count(values) {
            assert forall|i: int| 0 <= i < values.len() && filled(
                #[trigger] values[i],
            ) implies failed(t, values[i]) by {
                if i < n {
                    assert(filled(front[i]));
                }
            }
        }
        if forall|i: int|
            0 <= i < values.len() && filled(#[trigger] values[i]) ==> failed(t, values[i]) {
            assert forall|i: int| 0 <= i < n && filled(#[trigger] front[i]) implies failed(
                t,
                front[i],
            ) by {
                assert(filled(values[i]));
            }
        }
    }
}

enum BuilderKind {
    Str(Vec<Option<String>>),
    Float(Vec<Option<String>>),
    Int(Vec<Option<i64>>),
    Date(Vec<Option<i32>>, DateFormat),
}

impl BuilderKind {
    spec fn holds(&self, t: ColTypeView, cells: Seq<Option<Cell>>) -> bool {
        match self {
            BuilderKind::Str(v) => t == ColTypeView::Str && text_cells(v@) =~= cells,
            BuilderKind::Float(v) => t == ColTypeView::Float64 && numeral_cells(v@) =~= cells,
            BuilderKind::Int(v) => t == ColTypeView::Int64 && integer_cells(v@) =~= cells,
            BuilderKind::Date(v, format) => match t {
                ColTypeView::Date(f) => format@ == date_format(f) && day_cells(v@) =~= cells,
                _ => false,
            },
        }
    }
}

/// A column under construction.
pub struct ColumnBuilder {
    kind: BuilderKind,
    /// Failures are counted only where nobody declared the column a number.
    track_failures: bool,
    n_values: usize,
    n_failed: usize,
    first_bad: Option<String>,
    seen: Ghost<BuilderView>,
}

impl View for ColumnBuilder {
    type V = BuilderView;

    closed spec fn view(&self) -> BuilderView {
        self.seen@
    }
}

impl ColumnBuilder {
    /// Whether what the builder holds is what its fields say.
    pub closed spec fn wf(&self) -> bool {
        let b = self.seen@;
        &&& self.kind.holds(b.col_type, cells_of(b.col_type, b.values))
        &&& self.track_failures == b.tracked_failures
        &&& b.values.len() <= usize::MAX
        &&& b.tracked_failures ==> {
            &&& numeric(b.col_type)
            &&& self.n_values == filled_count(b.values)
            &&& self.n_failed == failed_count(b.col_type, b.values)
            &&& match self.first_bad {
                Some(s) => first_failed(b.col_type, b.values) == Some(s@),
                None => first_failed(b.col_type, b.values) is None,
            }
        }
    }

    /// An empty column.
    pub fn new(col_type: &ColType, declared: bool) -> (r: Self)
        ensures
            r.wf(),
            r@ == new_builder(col_type@, declared),
    {
        let kind = match col_type {
            ColType::Str => BuilderKind::Str(Vec::new()),
            ColType::Float64 => BuilderKind::Float(Vec::new()),
            ColType::Int64 => BuilderKind::Int(Vec::new()),
            ColType::Date { format } => BuilderKind::Date(
                Vec::new(),
                DateFormat::from_str(format.as_str()),
            ),
        };
        let is_numeric = match col_type {
            ColType::Float64 => true,
            ColType::Int64 => true,
            _ => false,
        };
        let ghost seen = new_builder(col_type@, declared);
        assert(kind.holds(seen.col_type, cells_of(seen.col_type, seen.values)));
        ColumnBuilder {
            kind,
            track_failures: !declared && is_numeric,
            n_values: 0,
            n_failed: 0,
            first_bad: None,
            seen: Ghost(seen),
        }
    }

    /// Counts a filled field, and keeps it where it is the first that failed.
    fn track(&mut self, value: &str, bad: bool)
        requires
            old(self).track_failures,
            old(self).n_values < usize::MAX,
            old(self).n_failed < usize::MAX,
        ensures
            final(self).kind == old(self).kind,
            final(self).track_failures,
            final(self).seen == old(self).seen,
            final(self).n_values == old(self).n_values + 1,
            final(self).n_failed == old(self).n_failed + (if bad {
                1int
            } else {
                0int
            }),
            match old(self).first_bad {
                Some(s) => final(self).first_bad == Some(s),
                None => if bad {
                    final(self).first_bad matches Some(s) && s@ == value@
                } else {
                    final(self).first_bad is None
                },
            },
    {
        self.n_values = self.n_values + 1;
        if bad {
            self.n_failed = self.n_failed + 1;
            if self.first_bad.is_none() {
                self.first_bad = Some(copied(value));
            }
        }
    }

    /// Appends a field.
    pub fn append(&mut self, val: &str)
        requires
            old(self).wf(),
            old(self)@.values.len() < usize::MAX,
        ensures
            final(self).wf(),
            final(self)@ == (BuilderView {
                values: old(self)@.values.push(val@),
                ..old(self)@
            }),
    {
        let ghost b = self.seen@;
        let ghost t = b.col_type;
        let ghost values = b.values.push(val@);
        proof {
            assert(values.drop_last() == b.values);
            assert(cells_of(t, values) == cells_of(t, b.values).push(cell_of(t, val@)));
            lemma_failed_count(t, b.values);
        }
        let inner = trim(val);
        let mut counted = false;
        let mut bad = false;
        match &mut self.kind {
            BuilderKind::Str(v) => {
                if val.is_empty() {
                    v.push(None);
                } else {
                    v.push(Some(copied(val)));
                }
            },
            BuilderKind::Float(v) => {
                if inner.is_empty() {
                    v.push(None);
                } else {
                    counted = true;
                    if is_float_text(inner) {
                        v.push(Some(copied(inner)));
                    } else {
                        bad = true;
                        v.push(None);
                    }
                }
            },
            BuilderKind::Int(v) => {
                if inner.is_empty() {
                    v.push(None);
                } else {
                    counted = true;
                    let n = parse_int64(inner);
                    bad = n.is_none();
                    v.push(n);
                }
            },
            BuilderKind::Date(v, format) => {
                if inner.is_empty() {
                    v.push(None);
                } else {
                    v.push(fast_parse_date(inner, format));
                }
            },
        }
        if counted && self.track_failures {
            self.track(inner, bad);
        }
        self.seen = Ghost(BuilderView { values, ..b });
    }

    /// Refuses a column of numbers that nobody declared and none of whose
    /// filled fields is one: most likely it is text, and the declaration was
    /// forgotten.
    pub fn check_all_failed(&self, name: &str) -> (r: Result<(), String>)
        requires
            self.wf(),
        ensures
            r is Err <==> all_failed(self@),
            r matches Err(e) ==> e@ == failure_complaint(self@, name@),
    {
        let ghost b = self.seen@;
        proof {
            lemma_failed_count(b.col_type, b.values);
        }
        if self.track_failures && self.n_values > 0 && self.n_failed == self.n_values {
            let type_text = match self.kind {
                BuilderKind::Int(_) => "int64",
                _ => "float64",
            };
            let sample = match &self.first_bad {
                Some(s) => s.as_str(),
                None => "",
            };
            let mut e = joined("列 '", name);
            e.append("' 未在 schema 中声明，按 ");
            e.append(type_text);
            e.append(" 解析，但 ");
            e.append(decimal_text(self.n_values).as_str());
            e.append(" 个非空值全部解析失败（示例值: '");
            e.append(sample);
            e.append("'）。请在 schema 里把它声明为 \"str\"，或调用时传 default_type=\"str\"");
            return Err(e);
        }
        Ok(())
    }

    /// The field and the column of what was appended.
    pub fn finish(self, name: &str) -> (r: (Field, Column))
        requires
            self.wf(),
        ensures
            r.0@ == (FieldView {
                name: name@,
                data_type: column_type(self@.col_type),
                nullable: true,
            }),
            r.1@ == (ColumnView {
                data_type: column_type(self@.col_type),
                cells: cells_of(self@.col_type, self@.values),
            }),
    {
        match self.kind {
            BuilderKind::Str(v) => (Field::new(name, DataType::Utf8, true), Column::Utf8(v)),
            BuilderKind::Float(v) => (
                Field::new(name, DataType::Float64, true),
                Column::Float64(v),
            ),
            BuilderKind::Int(v) => (Field::new(name, DataType::Int64, true), Column::Int64(v)),
            BuilderKind::Date(v, _) => (
                Field::new(name, DataType::Date32, true),
                Column::Date32(v),
            ),
        }
    }
}

} // verus!
