//! What type each column is read as.

use vstd::prelude::*;

use crate::loader::batch::DataType;
use crate::text::{copied, same_text, texts};

verus! {

/// How the fields of a column are read.
#[derive(Clone, Debug)]
pub enum ColType {
    Str,
    Float64,
    Int64,
    Date { format: String },
}

/// A column type with the characters of its format.
#[verifier::ext_equal]
pub enum ColTypeView {
    Str,
    Float64,
    Int64,
    Date(Seq<char>),
}

impl View for ColType {
    type V = ColTypeView;

    open spec fn view(&self) -> ColTypeView {
        match self {
            ColType::Str => ColTypeView::Str,
            ColType::Float64 => ColTypeView::Float64,
            ColType::Int64 => ColTypeView::Int64,
            ColType::Date { format } => ColTypeView::Date(format@),
        }
    }
}

impl ColType {
    /// A copy of the column type.
    pub fn copied(&self) -> (r: ColType)
        ensures
            r@ == self@,
    {
        match self {
            ColType::Str => ColType::Str,
            ColType::Float64 => ColType::Float64,
            ColType::Int64 => ColType::Int64,
            ColType::Date { format } => ColType::Date { format: copied(format.as_str()) },
        }
    }
}

/// The type of the column that fields read as `t` make.
pub open spec fn column_type(t: ColTypeView) -> DataType {
    match t {
        ColTypeView::Str => DataType::Utf8,
        ColTypeView::Float64 => DataType::Float64,
        ColTypeView::Int64 => DataType::Int64,
        ColTypeView::Date(_) => DataType::Date32,
    }
}

/// The types that a caller declares for columns, by name. A name counts once,
/// however often it is listed; of several date formats for one name the last
/// counts.
pub struct SchemaSpec {
    pub string_cols: Vec<String>,
    /// Pairs of a name and a date format.
    pub date_cols: Vec<(String, String)>,
    pub int_cols: Vec<String>,
    pub float_cols: Vec<String>,
    /// The type of a column that is declared nowhere above.
    pub default_type: ColType,
}

/// A schema with the characters of its names.
#[verifier::ext_equal]
pub struct SchemaView {
    pub strings: Seq<Seq<char>>,
    pub dates: Seq<(Seq<char>, Seq<char>)>,
    pub ints: Seq<Seq<char>>,
    pub floats: Seq<Seq<char>>,
    pub default_type: ColTypeView,
}

/// Pairs of texts.
pub open spec fn text_pairs(v: Seq<(String, String)>) -> Seq<(Seq<char>, Seq<char>)> {
    v.map_values(|p: (String, String)| (p.0@, p.1@))
}

impl View for SchemaSpec {
    type V = SchemaView;

    open spec fn view(&self) -> SchemaView {
        SchemaView {
            strings: texts(self.string_cols@),
            dates: text_pairs(self.date_cols@),
            ints: texts(self.int_cols@),
            floats: texts(self.float_cols@),
            default_type: self.default_type@,
        }
    }
}

/// What the last pair of a name holds beside it.
pub open spec fn paired_with(pairs: Seq<(Seq<char>, Seq<char>)>, name: Seq<char>) -> Option<
    Seq<char>,
>
    decreases pairs.len(),
{
    if pairs.len() == 0 {
        None
    } else if pairs.last().0 == name {
        Some(pairs.last().1)
    } else {
        paired_with(pairs.drop_last(), name)
    }
}

/// What the last pair of a name holds beside it.
pub fn find_paired<'a>(pairs: &'a [(String, String)], name: &str) -> (r: Option<&'a str>)
    ensures
        r is Some <==> paired_with(text_pairs(pairs@), name@) is Some,
        r matches Some(t) ==> paired_with(text_pairs(pairs@), name@) == Some(t@),
{
    let ghost views = text_pairs(pairs@);
    let mut i: usize = pairs.len();
    assert(views.take(i as int) == views);
    while i > 0
        invariant
            views == text_pairs(pairs@),
            i <= pairs@.len(),
            paired_with(views, name@) == paired_with(views.take(i as int), name@),
        decreases i,
    {
        proof {
            assert(views[i - 1] == (pairs@[i - 1].0@, pairs@[i - 1].1@));
            assert(views.take(i as int).drop_last() == views.take(i - 1));
        }
        i = i - 1;
        if same_text(pairs[i].0.as_str(), name) {
            return Some(pairs[i].1.as_str());
        }
    }
    None
}

/// Whether `names` lists a name.
pub fn lists(names: &[String], name: &str) -> (r: bool)
    ensures
        r == texts(names@).contains(name@),
{
    let ghost views = texts(names@);
    let mut i: usize = 0;
    while i < names.len()
        invariant
            views == texts(names@),
            i <= names@.len(),
            forall|k: int| 0 <= k < i ==> (#[trigger] views[k]) != name@,
        decreases names@.len() - i,
    {
        assert(views[i as int] == names@[i as int]@);
        if same_text(names[i].as_str(), name) {
            return true;
        }
        i = i + 1;
    }
    false
}

/// The type of a column, and whether it is declared: as text, integer, float
/// or date, in this order; else it has the default type.
pub open spec fn declared_type(schema: SchemaView, name: Seq<char>) -> (ColTypeView, bool) {
    if schema.strings.contains(name) {
        (ColTypeView::Str, true)
    } else if schema.ints.contains(name) {
        (ColTypeView::Int64, true)
    } else if schema.floats.contains(name) {
        (ColTypeView::Float64, true)
    } else {
        match paired_with(schema.dates, name) {
            Some(format) => (ColTypeView::Date(format), true),
            None => (schema.default_type, false),
        }
    }
}

impl SchemaSpec {
    /// The type of a column, and whether it is declared.
    pub fn col_type(&self, name: &str) -> (r: (ColType, bool))
        ensures
            (r.0@, r.1) == declared_type(self@, name@),
    {
        if lists(self.string_cols.as_slice(), name) {
            (ColType::Str, true)
        } else if lists(self.int_cols.as_slice(), name) {
            (ColType::Int64, true)
        } else if lists(self.float_cols.as_slice(), name) {
            (ColType::Float64, true)
        } else {
            match find_paired(self.date_cols.as_slice(), name) {
                Some(format) => (ColType::Date { format: copied(format) }, true),
                None => (self.default_type.copied(), false),
            }
        }
    }
}

/// How a file is read.
#[derive(Clone, Copy, Debug, PartialEq, Eq, Structural)]
pub struct ParseOptions {
    /// The number of lines to pass over at the start of the file.
    pub skip_rows: usize,
    /// Whether double quotes are read.
    pub quoting: bool,
    /// Whether white space around a text field is dropped. Around a number or
    /// a date it always is.
    pub trim: bool,
}

impl Default for ParseOptions {
    fn default() -> (r: Self)
        ensures
            r.skip_rows == 1,
            r.quoting,
            r.trim,
    {
        ParseOptions { skip_rows: 1, quoting: true, trim: true }
    }
}

} // verus!
