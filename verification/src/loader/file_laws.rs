//! What a file is read into, told by what was written into it: the lines to
//! pass over, the header, and the rows.

use vstd::prelude::*;

use crate::loader::batch::{BatchView, DataType};
use crate::loader::column_builder::{
    all_failed, cell_of, failed, failure_complaint, filled, filled_count, first_failed, BuilderView,
};
use crate::loader::csv_scan::{behind_next, next_fields, FieldScan, ScannerView};
use crate::loader::fina_reader::{
    excluded, fina_complaint, fina_parsed, fina_parses, kept_plan, renamed,
};
use crate::loader::line_laws::{
    contents, law_next_record_is_read_back, law_records_are_read_back, law_skips_lines,
    law_white_text_is_empty, lines_text, one_line, rows_text, rows_valid, Row,
};
use crate::loader::schema::{declared_type, paired_with, ColTypeView, ParseOptions, SchemaView};
use crate::loader::stock_reader::{
    behind_header, column_plan, file_start, has_header, header_names, last_index, parse_complaint,
    parsed, parses,
};
use crate::loader::table::{
    column_values, filled_builder, filled_builders, first_all_failed,
    lemma_first_all_failed_unique, readable, records, table, table_complaint, value_at, Plan,
};
use crate::text::{all_white, decimal, lemma_trimmed_empty, trimmed};

verus! {

/// A file as it is written: lines before the header, the header, the rows, and
/// white space at the end.
pub struct File {
    pub preamble: Seq<Seq<char>>,
    pub header: Row,
    pub rows: Seq<Row>,
    pub tail: Seq<char>,
}

impl File {
    /// The file as it is written.
    pub open spec fn text(self) -> Seq<char> {
        lines_text(self.preamble) + (self.header.text() + (rows_text(self.rows) + self.tail))
    }

    /// Whether the file can be written so, to be read with `opts`: these tell
    /// how many lines stand before the header, and whether quotes are read.
    pub open spec fn valid(self, opts: ParseOptions) -> bool {
        &&& opts.skip_rows == self.preamble.len()
        &&& forall|i: int| 0 <= i < self.preamble.len() ==> one_line(#[trigger] self.preamble[i])
        &&& self.header.valid(rows_text(self.rows) + self.tail, opts.quoting)
        &&& rows_valid(self.rows, self.tail, opts.quoting)
    }

    /// The names in the header, without the white space around them.
    pub open spec fn names(self) -> Seq<Seq<char>> {
        Seq::new(
            self.header.fields.len(),
            |k: int| trimmed(self.header.fields[k].content),
        )
    }

    /// What a row holds in its field `k`, nothing where it is short of it or
    /// there is no such field.
    pub open spec fn value(self, row: int, k: Option<int>, trim: bool) -> Seq<char> {
        match k {
            Some(k) => if k < self.rows[row].fields.len() {
                if trim {
                    trimmed(self.rows[row].fields[k].content)
                } else {
                    self.rows[row].fields[k].content
                }
            } else {
                Seq::empty()
            },
            None => Seq::empty(),
        }
    }
}

/// Whether column `c` of those asked for comes from field `k` of the header:
/// the last field of its name, or none where no field has it. Where nothing is
/// asked for, every field comes, in its place.
pub open spec fn comes_from(
    names: Seq<Seq<char>>,
    columns: Option<Seq<Seq<char>>>,
    c: int,
    k: Option<int>,
) -> bool {
    match (columns, k) {
        (None, Some(k)) => k == c && 0 <= c < names.len(),
        (None, None) => false,
        (Some(asked), Some(k)) => 0 <= k < names.len() && names[k] == asked[c] && forall|i: int|
            k < i < names.len() ==> #[trigger] names[i] != asked[c],
        (Some(asked), None) => forall|i: int|
            0 <= i < names.len() ==> #[trigger] names[i] != asked[c],
    }
}

/// The names of the columns that come out.
pub open spec fn names_out(
    names: Seq<Seq<char>>,
    columns: Option<Seq<Seq<char>>>,
) -> Seq<Seq<char>> {
    match columns {
        Some(asked) => asked,
        None => names,
    }
}

/// Whether a column cannot be meant as numbers: nobody declared it, it is read
/// as numbers, some field of it holds more than white space, and none that
/// does is a number.
pub open spec fn no_numbers(schema: SchemaView, name: Seq<char>, values: Seq<Seq<char>>) -> bool {
    let (t, declared) = declared_type(schema, name);
    &&& !declared
    &&& t == ColTypeView::Float64 || t == ColTypeView::Int64
    &&& exists|i: int| 0 <= i < values.len() && !all_white(#[trigger] values[i])
    &&& forall|i: int|
        0 <= i < values.len() && !all_white(#[trigger] values[i]) ==> cell_of(t, values[i]) is None
}

/// The fields of a column of a file.
pub open spec fn values_of(file: File, k: Option<int>, trim: bool) -> Seq<Seq<char>> {
    Seq::new(file.rows.len(), |row: int| file.value(row, k, trim))
}

/// Whether a batch holds under column `c` what a file holds in its field `k`,
/// read as what the schema makes of the column's name.
pub open spec fn holds_column(
    b: BatchView,
    file: File,
    schema: SchemaView,
    trim: bool,
    c: int,
    name: Seq<char>,
    k: Option<int>,
) -> bool {
    let t = declared_type(schema, name).0;
    let data_type = match t {
        ColTypeView::Str => DataType::Utf8,
        ColTypeView::Float64 => DataType::Float64,
        ColTypeView::Int64 => DataType::Int64,
        ColTypeView::Date(_) => DataType::Date32,
    };
    &&& b.fields[c].name == name
    &&& b.fields[c].data_type == data_type
    &&& b.fields[c].nullable
    &&& b.columns[c].data_type == data_type
    &&& b.columns[c].cells.len() == file.rows.len()
    &&& forall|row: int|
        0 <= row < file.rows.len() ==> #[trigger] b.columns[c].cells[row] == cell_of(
            t,
            file.value(row, k, trim),
        )
}

/// The header and the rows of a file are found.
proof fn lemma_file(file: File, opts: ParseOptions)
    requires
        file.valid(opts),
    ensures
        ({
            let start = file_start(file.text(), opts);
            let body = ScannerView {
                rest: rows_text(file.rows) + file.tail,
                quoting: opts.quoting,
                trim: opts.trim,
            };
            let found = records(body);
            &&& has_header(start)
            &&& header_names(start) == file.names()
            &&& behind_header(start) == body
            &&& found.len() == file.rows.len()
            &&& forall|i: int|
                0 <= i < file.rows.len() ==> (#[trigger] found[i]).map_values(
                    |f: FieldScan| f.value,
                ) == contents(file.rows[i].fields)
        }),
{
    let rest = rows_text(file.rows) + file.tail;
    let start = file_start(file.text(), opts);
    law_skips_lines(file.preamble, file.header.text() + rest, opts);
    law_next_record_is_read_back(file.header, rest, opts.quoting, opts.trim);
    law_records_are_read_back(file.rows, file.tail, opts.quoting, opts.trim);
    let fields = next_fields(start);
    let values = fields.map_values(|f: FieldScan| f.value);
    assert(values.len() == fields.len());
    assert(contents(file.header.fields).len() == file.header.fields.len());
    let names = header_names(start);
    assert forall|k: int| 0 <= k < names.len() implies names[k] == file.names()[k] by {
        assert(values[k] == contents(file.header.fields)[k]);
    }
    assert(names == file.names());
    assert(behind_header(start) == behind_next(start));
}

/// Whether the source of a column in a plan is field `k`.
spec fn same_source(source: Option<nat>, k: Option<int>) -> bool {
    match (source, k) {
        (Some(a), Some(b)) => a == b,
        (None, None) => true,
        _ => false,
    }
}

proof fn lemma_column(file: File, opts: ParseOptions, plan: Plan, i: int, k: Option<int>)
    requires
        file.valid(opts),
        same_source(plan.sources[i], k),
    ensures
        column_values(behind_header(file_start(file.text(), opts)), plan, i) == values_of(
            file,
            k,
            opts.trim,
        ),
{
    lemma_file(file, opts);
    let body = behind_header(file_start(file.text(), opts));
    let found = records(body);
    let a = column_values(body, plan, i);
    let b = values_of(file, k, opts.trim);
    assert forall|row: int| 0 <= row < a.len() implies a[row] == b[row] by {
        let values = found[row].map_values(|f: FieldScan| f.value);
        assert(values == contents(file.rows[row].fields));
        assert(values.len() == found[row].len());
        assert(contents(file.rows[row].fields).len() == file.rows[row].fields.len());
        match k {
            Some(n) => {
                if n < found[row].len() {
                    assert(values[n] == contents(file.rows[row].fields)[n]);
                }
            },
            None => {},
        }
        assert(a[row] == value_at(found[row], plan.sources[i], opts.trim));
    }
    assert(a == b);
}

proof fn lemma_no_numbers(
    file: File,
    opts: ParseOptions,
    plan: Plan,
    schema: SchemaView,
    i: int,
    k: Option<int>,
)
    requires
        file.valid(opts),
        same_source(plan.sources[i], k),
    ensures
        all_failed(
            filled_builder(behind_header(file_start(file.text(), opts)), plan, schema, i),
        ) <==> no_numbers(schema, plan.names[i], values_of(file, k, opts.trim)),
{
    lemma_column(file, opts, plan, i, k);
    let b = filled_builder(behind_header(file_start(file.text(), opts)), plan, schema, i);
    let values = values_of(file, k, opts.trim);
    assert(b.values == values);
    assert forall|r: int| 0 <= r < values.len() implies filled(#[trigger] values[r])
        == !all_white(values[r]) by {
        lemma_trimmed_empty(values[r]);
    }
    if all_failed(b) {
        let r = choose|r: int| 0 <= r < b.values.len() && filled(#[trigger] b.values[r]);
        assert(!all_white(values[r]));
        assert forall|r: int|
            0 <= r < values.len() && !all_white(#[trigger] values[r]) implies cell_of(
            b.col_type,
            values[r],
        ) is None by {
            assert(filled(b.values[r]));
        }
    }
    if no_numbers(schema, plan.names[i], values) {
        let r = choose|r: int| 0 <= r < values.len() && !all_white(#[trigger] values[r]);
        assert(filled(b.values[r]));
    }
}

/// What a table of a file holds, and when it can be read.
proof fn lemma_table(
    file: File,
    opts: ParseOptions,
    plan: Plan,
    schema: SchemaView,
    sources: Seq<Option<int>>,
)
    requires
        file.valid(opts),
        plan.names.len() == plan.sources.len() == sources.len(),
        forall|i: int|
            0 <= i < sources.len() ==> same_source(plan.sources[i], #[trigger] sources[i]),
    ensures
        ({
            let body = behind_header(file_start(file.text(), opts));
            let b = table(body, plan, schema);
            &&& b.rows == file.rows.len()
            &&& b.fields.len() == plan.names.len()
            &&& b.columns.len() == plan.names.len()
            &&& forall|i: int|
                0 <= i < sources.len() ==> holds_column(
                    b,
                    file,
                    schema,
                    opts.trim,
                    i,
                    plan.names[i],
                    #[trigger] sources[i],
                )
            &&& readable(body, plan, schema) <==> sources.len() > 0 && forall|i: int|
                0 <= i < sources.len() ==> !no_numbers(
                    schema,
                    plan.names[i],
                    values_of(file, #[trigger] sources[i], opts.trim),
                )
        }),
{
    lemma_file(file, opts);
    let body = behind_header(file_start(file.text(), opts));
    let b = table(body, plan, schema);
    let builders = filled_builders(body, plan, schema);
    assert forall|i: int| 0 <= i < sources.len() implies holds_column(
        b,
        file,
        schema,
        opts.trim,
        i,
        plan.names[i],
        #[trigger] sources[i],
    ) by {
        lemma_column(file, opts, plan, i, sources[i]);
        let values = values_of(file, sources[i], opts.trim);
        assert(builders[i].values == values);
        assert forall|row: int|
            0 <= row < file.rows.len() implies #[trigger] b.columns[i].cells[row] == cell_of(
            declared_type(schema, plan.names[i]).0,
            file.value(row, sources[i], opts.trim),
        ) by {
            assert(values[row] == file.value(row, sources[i], opts.trim));
        }
    }
    assert forall|i: int| 0 <= i < sources.len() implies all_failed(builders[i]) == no_numbers(
        schema,
        plan.names[i],
        values_of(file, #[trigger] sources[i], opts.trim),
    ) by {
        lemma_no_numbers(file, opts, plan, schema, i, sources[i]);
    }
    lemma_first_all_failed(builders);
    let k = first_all_failed(builders);
    if k == builders.len() {
        assert forall|i: int| 0 <= i < sources.len() implies !no_numbers(
            schema,
            plan.names[i],
            values_of(file, #[trigger] sources[i], opts.trim),
        ) by {
            assert(!all_failed(builders[i]));
        }
    } else {
        assert(all_failed(builders[k]));
        assert(no_numbers(schema, plan.names[k], values_of(file, sources[k], opts.trim)));
    }
}

proof fn lemma_first_all_failed(builders: Seq<BuilderView>)
    ensures
        ({
            let k = first_all_failed(builders);
            &&& 0 <= k <= builders.len()
            &&& forall|i: int| 0 <= i < k ==> !all_failed(#[trigger] builders[i])
            &&& k < builders.len() ==> all_failed(builders[k])
        }),
    decreases builders.len(),
{
    if builders.len() > 0 && !all_failed(builders[0]) {
        let more = builders.drop_first();
        lemma_first_all_failed(more);
        let k = first_all_failed(builders);
        assert forall|i: int| 0 <= i < k implies !all_failed(#[trigger] builders[i]) by {
            if i > 0 {
                assert(builders[i] == more[i - 1]);
            }
        }
        if k < builders.len() {
            assert(builders[k] == more[k - 1]);
        }
    }
}

proof fn lemma_last_index_of(names: Seq<Seq<char>>, name: Seq<char>, k: Option<int>)
    requires
        match k {
            Some(k) => 0 <= k < names.len() && names[k] == name && forall|i: int|
                k < i < names.len() ==> #[trigger] names[i] != name,
            None => forall|i: int| 0 <= i < names.len() ==> #[trigger] names[i] != name,
        },
    ensures
        same_source(last_index(names, name), k),
    decreases names.len(),
{
    if names.len() > 0 {
        let last = names.len() - 1;
        if names[last] != name {
            let front = names.drop_last();
            match k {
                Some(k) => {
                    assert(front[k] == name);
                    assert forall|i: int|
                        k < i < front.len() implies #[trigger] front[i] != name by {
                        assert(names[i] != name);
                    }
                },
                None => {
                    assert forall|i: int|
                        0 <= i < front.len() implies #[trigger] front[i] != name by {
                        assert(names[i] != name);
                    }
                },
            }
            lemma_last_index_of(front, name, k);
        }
    }
}

/// Whether each column comes from the field beside it.
pub open spec fn all_come_from(
    names: Seq<Seq<char>>,
    columns: Option<Seq<Seq<char>>>,
    sources: Seq<Option<int>>,
) -> bool {
    &&& sources.len() == names_out(names, columns).len()
    &&& forall|c: int|
        0 <= c < sources.len() ==> comes_from(names, columns, c, #[trigger] sources[c])
}

proof fn lemma_plan(
    names: Seq<Seq<char>>,
    columns: Option<Seq<Seq<char>>>,
    sources: Seq<Option<int>>,
)
    requires
        all_come_from(names, columns, sources),
    ensures
        ({
            let plan = column_plan(names, columns);
            &&& plan.names == names_out(names, columns)
            &&& plan.sources.len() == sources.len()
            &&& forall|c: int|
                0 <= c < sources.len() ==> same_source(plan.sources[c], #[trigger] sources[c])
        }),
{
    let plan = column_plan(names, columns);
    assert forall|c: int| 0 <= c < sources.len() implies same_source(
        plan.sources[c],
        #[trigger] sources[c],
    ) by {
        assert(comes_from(names, columns, c, sources[c]));
        match columns {
            Some(asked) => {
                lemma_last_index_of(names, asked[c], sources[c]);
            },
            None => {},
        }
    }
}

/// A file is read into a row for each row that was written and a column for
/// each that was asked for, in the order in which they were asked for. Under
/// each stands, row by row, what was written into the field of its name, read
/// as the type that the schema makes of the name; where the file has no such
/// field, or a row is short of it, an empty field.
pub proof fn law_file_is_read_back(
    file: File,
    columns: Option<Seq<Seq<char>>>,
    schema: SchemaView,
    opts: ParseOptions,
    sources: Seq<Option<int>>,
)
    requires
        file.valid(opts),
        all_come_from(file.names(), columns, sources),
    ensures
        ({
            let b = parsed(file.text(), columns, schema, opts);
            let names = names_out(file.names(), columns);
            &&& b.rows == file.rows.len()
            &&& b.fields.len() == names.len()
            &&& b.columns.len() == names.len()
            &&& forall|c: int|
                0 <= c < names.len() ==> holds_column(
                    b,
                    file,
                    schema,
                    opts.trim,
                    c,
                    names[c],
                    #[trigger] sources[c],
                )
        }),
{
    lemma_file(file, opts);
    lemma_plan(file.names(), columns, sources);
    lemma_table(file, opts, column_plan(file.names(), columns), schema, sources);
}

/// A file with a header is refused exactly where no column is asked for, or
/// where one that nobody declared is read as numbers and holds none.
pub proof fn law_file_is_refused(
    file: File,
    columns: Option<Seq<Seq<char>>>,
    schema: SchemaView,
    opts: ParseOptions,
    sources: Seq<Option<int>>,
)
    requires
        file.valid(opts),
        all_come_from(file.names(), columns, sources),
    ensures
        parses(file.text(), columns, schema, opts) <==> sources.len() > 0 && forall|c: int|
            0 <= c < sources.len() ==> !no_numbers(
                schema,
                names_out(file.names(), columns)[c],
                values_of(file, #[trigger] sources[c], opts.trim),
            ),
        sources.len() == 0 ==> parse_complaint(file.text(), columns, schema, opts)
            == "构建 RecordBatch 失败: "@
            + "Invalid argument error: must either specify a row count or at least one column"@,
{
    lemma_file(file, opts);
    lemma_plan(file.names(), columns, sources);
    lemma_table(file, opts, column_plan(file.names(), columns), schema, sources);
}

/// A file in which nothing but white space comes behind the lines to pass over
/// has no header, and is refused for it.
pub proof fn law_file_without_header(
    preamble: Seq<Seq<char>>,
    tail: Seq<char>,
    columns: Option<Seq<Seq<char>>>,
    schema: SchemaView,
    renames: Seq<(Seq<char>, Seq<char>)>,
    opts: ParseOptions,
)
    requires
        opts.skip_rows == preamble.len(),
        forall|i: int| 0 <= i < preamble.len() ==> one_line(#[trigger] preamble[i]),
        all_white(tail),
    ensures
        !parses(lines_text(preamble) + tail, columns, schema, opts),
        !fina_parses(lines_text(preamble) + tail, schema, renames, opts),
        parse_complaint(lines_text(preamble) + tail, columns, schema, opts) == "文件无表头"@,
        fina_complaint(lines_text(preamble) + tail, schema, renames, opts) == "文件无表头"@,
{
    law_skips_lines(preamble, tail, opts);
    law_white_text_is_empty(tail);
}

/// Whether `at` is where, among `values`, those stand that hold more than
/// white space.
pub open spec fn where_filled(values: Seq<Seq<char>>, at: Seq<int>) -> bool {
    &&& forall|j: int, k: int| 0 <= j < k < at.len() ==> at[j] < at[k]
    &&& forall|j: int|
        0 <= j < at.len() ==> 0 <= #[trigger] at[j] < values.len() && !all_white(values[at[j]])
    &&& forall|i: int|
        0 <= i < values.len() && !all_white(#[trigger] values[i]) ==> at.contains(i)
}

proof fn lemma_where_filled(t: ColTypeView, values: Seq<Seq<char>>, at: Seq<int>)
    requires
        where_filled(values, at),
        forall|i: int|
            0 <= i < values.len() && !all_white(#[trigger] values[i]) ==> cell_of(
                t,
                values[i],
            ) is None,
    ensures
        filled_count(values) == at.len(),
        first_failed(t, values) == (if at.len() == 0 {
            None
        } else {
            Some(trimmed(values[at[0]]))
        }),
    decreases values.len(),
{
    if values.len() == 0 {
        if at.len() > 0 {
            assert(0 <= at[0] < values.len());
        }
    } else {
        let front = values.drop_last();
        let last = values.len() - 1;
        lemma_trimmed_empty(values[last]);
        let filled_last = !all_white(values[last]);
        let before = if filled_last {
            at.drop_last()
        } else {
            at
        };
        if filled_last {
            let j = choose|j: int| 0 <= j < at.len() && at[j] == last;
            if j < at.len() - 1 {
                assert(at[j] < at[at.len() - 1]);
                assert(at[at.len() - 1] < values.len());
            }
            assert(at.last() == last);
        }
        assert forall|j: int| 0 <= j < before.len() implies 0 <= #[trigger] before[j] < front.len()
            && !all_white(front[before[j]]) by {
            assert(before[j] == at[j]);
            assert(!all_white(values[at[j]]));
            if filled_last {
                assert(at[j] < at[at.len() - 1]);
            } else if at[j] == last {
                assert(false);
            }
        }
        assert forall|i: int| 0 <= i < front.len() && !all_white(
            #[trigger] front[i],
        ) implies before.contains(i) by {
            assert(!all_white(values[i]));
            let j = choose|j: int| 0 <= j < at.len() && at[j] == i;
            assert(before[j] == i);
        }
        assert forall|i: int| 0 <= i < front.len() && !all_white(
            #[trigger] front[i],
        ) implies cell_of(t, front[i]) is None by {
            assert(!all_white(values[i]));
        }
        lemma_where_filled(t, front, before);
        assert(failed(t, values[last]) == filled_last);
    }
}

/// The complaint about a column that was read as numbers and holds none.
pub open spec fn numbers_complaint(
    schema: SchemaView,
    name: Seq<char>,
    count: nat,
    sample: Seq<char>,
) -> Seq<char> {
    "列 '"@ + name + "' 未在 schema 中声明，按 "@ + (if declared_type(schema, name).0
        == ColTypeView::Int64 {
        "int64"@
    } else {
        "float64"@
    }) + " 解析，但 "@ + decimal(count) + " 个非空值全部解析失败（示例值: '"@ + sample
        + "'）。请在 schema 里把它声明为 \"str\"，或调用时传 default_type=\"str\""@
}

proof fn lemma_table_complaint(
    file: File,
    opts: ParseOptions,
    plan: Plan,
    schema: SchemaView,
    sources: Seq<Option<int>>,
    c: int,
    at: Seq<int>,
)
    requires
        file.valid(opts),
        plan.names.len() == plan.sources.len() == sources.len(),
        forall|i: int|
            0 <= i < sources.len() ==> same_source(plan.sources[i], #[trigger] sources[i]),
        0 <= c < sources.len(),
        forall|i: int|
            0 <= i < c ==> !no_numbers(
                schema,
                plan.names[i],
                values_of(file, #[trigger] sources[i], opts.trim),
            ),
        no_numbers(schema, plan.names[c], values_of(file, sources[c], opts.trim)),
        where_filled(values_of(file, sources[c], opts.trim), at),
    ensures
        at.len() > 0,
        table_complaint(behind_header(file_start(file.text(), opts)), plan, schema)
            == numbers_complaint(
            schema,
            plan.names[c],
            at.len(),
            trimmed(values_of(file, sources[c], opts.trim)[at[0]]),
        ),
{
    lemma_file(file, opts);
    let body = behind_header(file_start(file.text(), opts));
    let builders = filled_builders(body, plan, schema);
    assert forall|i: int| 0 <= i <= c implies all_failed(#[trigger] builders[i]) == no_numbers(
        schema,
        plan.names[i],
        values_of(file, sources[i], opts.trim),
    ) by {
        lemma_no_numbers(file, opts, plan, schema, i, sources[i]);
    }
    assert forall|i: int| 0 <= i < c implies !all_failed(#[trigger] builders[i]) by {
        assert(!no_numbers(
            schema,
            plan.names[i],
            values_of(file, sources[i], opts.trim),
        ));
    }
    lemma_first_all_failed_unique(builders, c);
    lemma_column(file, opts, plan, c, sources[c]);
    let values = values_of(file, sources[c], opts.trim);
    let t = declared_type(schema, plan.names[c]).0;
    lemma_where_filled(t, values, at);
    let r = choose|r: int| 0 <= r < values.len() && !all_white(#[trigger] values[r]);
    assert(at.contains(r));
    assert(builders[c].values == values);
    assert(failure_complaint(builders[c], plan.names[c]) == numbers_complaint(
        schema,
        plan.names[c],
        at.len(),
        trimmed(values[at[0]]),
    ));
}

/// The complaint about a file names the first column that was meant as numbers
/// and holds none, what it was read as, how many fields of it hold more than
/// white space, and the first of these.
pub proof fn law_file_complaint(
    file: File,
    columns: Option<Seq<Seq<char>>>,
    schema: SchemaView,
    opts: ParseOptions,
    sources: Seq<Option<int>>,
    c: int,
    at: Seq<int>,
)
    requires
        file.valid(opts),
        all_come_from(file.names(), columns, sources),
        0 <= c < sources.len(),
        forall|i: int|
            0 <= i < c ==> !no_numbers(
                schema,
                names_out(file.names(), columns)[i],
                values_of(file, #[trigger] sources[i], opts.trim),
            ),
        no_numbers(
            schema,
            names_out(file.names(), columns)[c],
            values_of(file, sources[c], opts.trim),
        ),
        where_filled(values_of(file, sources[c], opts.trim), at),
    ensures
        ({
            let name = names_out(file.names(), columns)[c];
            let values = values_of(file, sources[c], opts.trim);
            &&& at.len() > 0
            &&& parse_complaint(file.text(), columns, schema, opts) == numbers_complaint(
                schema,
                name,
                at.len(),
                trimmed(values[at[0]]),
            )
        }),
{
    lemma_file(file, opts);
    lemma_plan(file.names(), columns, sources);
    lemma_table_complaint(
        file,
        opts,
        column_plan(file.names(), columns),
        schema,
        sources,
        c,
        at,
    );
}

/// Whether a column of a financial statement is kept: it has a name, and one
/// that starts neither with `Unnamed` nor with the words for the time of
/// download.
pub open spec fn holds_statement(name: Seq<char>) -> bool {
    &&& name.len() > 0
    &&& !"Unnamed"@.is_prefix_of(name)
    &&& !"抓取时间"@.is_prefix_of(name)
}

/// Whether `kept` lists the fields that are kept, in their order.
pub open spec fn lists_kept(names: Seq<Seq<char>>, kept: Seq<int>) -> bool {
    &&& forall|i: int, j: int| 0 <= i < j < kept.len() ==> kept[i] < kept[j]
    &&& forall|j: int|
        0 <= j < kept.len() ==> 0 <= #[trigger] kept[j] < names.len() && holds_statement(
            names[kept[j]],
        )
    &&& forall|k: int|
        0 <= k < names.len() && holds_statement(#[trigger] names[k]) ==> kept.contains(k)
}

/// Whether a column of one name comes out under another: the new name of the
/// last renaming of it, or its own where there is none.
pub open spec fn comes_out_as(
    renames: Seq<(Seq<char>, Seq<char>)>,
    name: Seq<char>,
    out: Seq<char>,
) -> bool {
    ||| exists|i: int|
        0 <= i < renames.len() && (#[trigger] renames[i]).0 == name && renames[i].1 == out
            && forall|k: int| i < k < renames.len() ==> (#[trigger] renames[k]).0 != name
    ||| out == name && forall|i: int|
        0 <= i < renames.len() ==> (#[trigger] renames[i]).0 != name
}

/// What stands beside a name in the last pair of it.
pub proof fn law_last_pair_counts(pairs: Seq<(Seq<char>, Seq<char>)>, name: Seq<char>, i: int)
    ensures
        0 <= i < pairs.len() && pairs[i].0 == name && (forall|k: int|
            i < k < pairs.len() ==> (#[trigger] pairs[k]).0 != name) ==> paired_with(pairs, name)
            == Some(pairs[i].1),
        (forall|k: int| 0 <= k < pairs.len() ==> (#[trigger] pairs[k]).0 != name)
            ==> paired_with(pairs, name) is None,
    decreases pairs.len(),
{
    if pairs.len() > 0 {
        let last = pairs.len() - 1;
        let front = pairs.drop_last();
        if pairs[last].0 != name {
            law_last_pair_counts(front, name, i);
            if 0 <= i < pairs.len() && pairs[i].0 == name && (forall|k: int|
                i < k < pairs.len() ==> (#[trigger] pairs[k]).0 != name) {
                assert(front[i] == pairs[i]);
                assert forall|k: int| i < k < front.len() implies (
                #[trigger] front[k]).0 != name by {
                    assert(pairs[k].0 != name);
                }
            }
            if forall|k: int| 0 <= k < pairs.len() ==> (#[trigger] pairs[k]).0 != name {
                assert forall|k: int| 0 <= k < front.len() implies (
                #[trigger] front[k]).0 != name by {
                    assert(pairs[k].0 != name);
                }
            }
        }
    }
}

proof fn lemma_comes_out_as(
    renames: Seq<(Seq<char>, Seq<char>)>,
    name: Seq<char>,
    out: Seq<char>,
)
    requires
        comes_out_as(renames, name, out),
    ensures
        renamed(renames, name) == out,
{
    if exists|i: int|
        0 <= i < renames.len() && (#[trigger] renames[i]).0 == name && renames[i].1 == out
            && forall|k: int| i < k < renames.len() ==> (#[trigger] renames[k]).0 != name {
        let i = choose|i: int|
            0 <= i < renames.len() && (#[trigger] renames[i]).0 == name && renames[i].1 == out
                && forall|k: int| i < k < renames.len() ==> (#[trigger] renames[k]).0 != name;
        law_last_pair_counts(renames, name, i);
    } else {
        law_last_pair_counts(renames, name, 0);
    }
}

/// The kept columns of a header are its plan.
proof fn lemma_kept_plan(
    names: Seq<Seq<char>>,
    renames: Seq<(Seq<char>, Seq<char>)>,
    kept: Seq<int>,
    out: Seq<Seq<char>>,
)
    requires
        lists_kept(names, kept),
        out.len() == kept.len(),
        forall|j: int|
            0 <= j < kept.len() ==> comes_out_as(renames, names[kept[j]], #[trigger] out[j]),
    ensures
        kept_plan(names, renames).names == out,
        kept_plan(names, renames).sources == kept.map_values(|k: int| Some(k as nat)),
    decreases names.len(),
{
    let plan = kept_plan(names, renames);
    let sources = kept.map_values(|k: int| Some(k as nat));
    if names.len() == 0 {
        if kept.len() > 0 {
            assert(0 <= kept[0] < names.len());
        }
        assert(plan.names == out);
        assert(plan.sources == sources);
    } else {
        let front = names.drop_last();
        let last = names.len() - 1;
        let keeps = holds_statement(names[last]);
        assert(keeps == !excluded(names[last]));
        let before = if keeps {
            kept.drop_last()
        } else {
            kept
        };
        let shown = if keeps {
            out.drop_last()
        } else {
            out
        };
        if keeps {
            let j = choose|j: int| 0 <= j < kept.len() && kept[j] == last;
            if j < kept.len() - 1 {
                assert(kept[j] < kept[kept.len() - 1]);
                assert(kept[kept.len() - 1] < names.len());
            }
            assert(kept.last() == last);
        }
        assert forall|j: int| 0 <= j < before.len() implies 0 <= #[trigger] before[j] < front.len()
            && holds_statement(front[before[j]]) by {
            assert(before[j] == kept[j]);
            assert(holds_statement(names[kept[j]]));
            if keeps {
                assert(kept[j] < kept[kept.len() - 1]);
            } else if kept[j] == last {
                assert(false);
            }
        }
        assert forall|k: int| 0 <= k < front.len() && holds_statement(
            #[trigger] front[k],
        ) implies before.contains(k) by {
            assert(holds_statement(names[k]));
            let j = choose|j: int| 0 <= j < kept.len() && kept[j] == k;
            assert(before[j] == k);
        }
        assert forall|j: int| 0 <= j < before.len() implies comes_out_as(
            renames,
            front[before[j]],
            #[trigger] shown[j],
        ) by {
            assert(before[j] == kept[j]);
            assert(front[before[j]] == names[kept[j]]);
            assert(shown[j] == out[j]);
        }
        lemma_kept_plan(front, renames, before, shown);
        if keeps {
            assert(out[out.len() - 1] == out.last());
            assert(comes_out_as(renames, names[kept[kept.len() - 1]], out[out.len() - 1]));
            lemma_comes_out_as(renames, names[last], out.last());
            assert(out == shown.push(out.last()));
            assert(sources == before.map_values(|k: int| Some(k as nat)).push(Some(last as nat)));
        }
    }
}

/// A financial statement is read into a row for each row that was written and
/// a column for each field of the header that has a name, but for those whose
/// name starts with `Unnamed` or with the words for the time of download. They
/// come in the order of the header, under their new names where they are
/// renamed, and hold what was written into them.
pub proof fn law_statement_is_read_back(
    file: File,
    schema: SchemaView,
    renames: Seq<(Seq<char>, Seq<char>)>,
    opts: ParseOptions,
    kept: Seq<int>,
    out: Seq<Seq<char>>,
)
    requires
        file.valid(opts),
        lists_kept(file.names(), kept),
        out.len() == kept.len(),
        forall|j: int|
            0 <= j < kept.len() ==> comes_out_as(renames, file.names()[kept[j]], #[trigger] out[j]),
    ensures
        ({
            let b = fina_parsed(file.text(), schema, renames, opts);
            &&& b.rows == file.rows.len()
            &&& b.fields.len() == kept.len()
            &&& b.columns.len() == kept.len()
            &&& forall|j: int|
                0 <= j < kept.len() ==> holds_column(
                    b,
                    file,
                    schema,
                    opts.trim,
                    j,
                    out[j],
                    Some(#[trigger] kept[j]),
                )
            &&& fina_parses(file.text(), schema, renames, opts) <==> kept.len() > 0 && forall|
                j: int,
            |
                0 <= j < kept.len() ==> !no_numbers(
                    schema,
                    out[j],
                    values_of(file, Some(#[trigger] kept[j]), opts.trim),
                )
        }),
{
    lemma_file(file, opts);
    lemma_kept_plan(file.names(), renames, kept, out);
    let plan = kept_plan(file.names(), renames);
    let sources = kept.map_values(|k: int| Some(k));
    assert forall|i: int| 0 <= i < sources.len() implies same_source(
        plan.sources[i],
        #[trigger] sources[i],
    ) by {
        assert(0 <= kept[i] < file.names().len());
    }
    lemma_table(file, opts, plan, schema, sources);
    let b = fina_parsed(file.text(), schema, renames, opts);
    assert forall|j: int| 0 <= j < kept.len() implies holds_column(
        b,
        file,
        schema,
        opts.trim,
        j,
        out[j],
        Some(#[trigger] kept[j]),
    ) by {
        assert(sources[j] == Some(kept[j]));
    }
    if fina_parses(file.text(), schema, renames, opts) {
        assert forall|j: int| 0 <= j < kept.len() implies !no_numbers(
            schema,
            out[j],
            values_of(file, Some(#[trigger] kept[j]), opts.trim),
        ) by {
            assert(sources[j] == Some(kept[j]));
        }
    }
    if kept.len() > 0 && forall|j: int|
        0 <= j < kept.len() ==> !no_numbers(
            schema,
            out[j],
            values_of(file, Some(#[trigger] kept[j]), opts.trim),
        ) {
        assert forall|i: int| 0 <= i < sources.len() implies !no_numbers(
            schema,
            plan.names[i],
            values_of(file, #[trigger] sources[i], opts.trim),
        ) by {
            assert(sources[i] == Some(kept[i]));
        }
    }
}

/// The complaint about a financial statement is that about the first of its
/// kept columns that was meant as numbers and holds none; where no column is
/// kept, that there is none.
pub proof fn law_statement_complaint(
    file: File,
    schema: SchemaView,
    renames: Seq<(Seq<char>, Seq<char>)>,
    opts: ParseOptions,
    kept: Seq<int>,
    out: Seq<Seq<char>>,
    c: int,
    at: Seq<int>,
)
    requires
        file.valid(opts),
        lists_kept(file.names(), kept),
        out.len() == kept.len(),
        forall|j: int|
            0 <= j < kept.len() ==> comes_out_as(renames, file.names()[kept[j]], #[trigger] out[j]),
    ensures
        kept.len() == 0 ==> fina_complaint(file.text(), schema, renames, opts)
            == "构建 RecordBatch 失败: "@
            + "Invalid argument error: must either specify a row count or at least one column"@,
        0 <= c < kept.len() && (forall|j: int|
            0 <= j < c ==> !no_numbers(
                schema,
                out[j],
                values_of(file, Some(#[trigger] kept[j]), opts.trim),
            )) && no_numbers(schema, out[c], values_of(file, Some(kept[c]), opts.trim))
            && where_filled(values_of(file, Some(kept[c]), opts.trim), at) ==> {
            &&& at.len() > 0
            &&& fina_complaint(file.text(), schema, renames, opts) == numbers_complaint(
                schema,
                out[c],
                at.len(),
                trimmed(values_of(file, Some(kept[c]), opts.trim)[at[0]]),
            )
        },
{
    lemma_file(file, opts);
    lemma_kept_plan(file.names(), renames, kept, out);
    let plan = kept_plan(file.names(), renames);
    let sources = kept.map_values(|k: int| Some(k));
    assert forall|i: int| 0 <= i < sources.len() implies same_source(
        plan.sources[i],
        #[trigger] sources[i],
    ) by {
        assert(0 <= kept[i] < file.names().len());
    }
    if 0 <= c < kept.len() && (forall|j: int|
        0 <= j < c ==> !no_numbers(
            schema,
            out[j],
            values_of(file, Some(#[trigger] kept[j]), opts.trim),
        )) && no_numbers(schema, out[c], values_of(file, Some(kept[c]), opts.trim))
        && where_filled(values_of(file, Some(kept[c]), opts.trim), at) {
        assert forall|i: int| 0 <= i < c implies !no_numbers(
            schema,
            plan.names[i],
            values_of(file, #[trigger] sources[i], opts.trim),
        ) by {
            assert(sources[i] == Some(kept[i]));
        }
        assert(sources[c] == Some(kept[c]));
        lemma_table_complaint(file, opts, plan, schema, sources, c, at);
    }
}

} // verus!
