//! Reading the records of a file into typed columns.

use vstd::prelude::*;

use crate::loader::batch::{
    column_views, empty_complaint, field_views, lemma_first_mistyped_unique,
    lemma_first_unallowed_unique, Batch, BatchView, Column, ColumnView, Field, FieldView,
};
use crate::loader::column_builder::{
    all_failed, cells_of, failure_complaint, new_builder, BuilderView, ColumnBuilder,
};
use crate::loader::csv_scan::{
    behind_blank_lines, behind_next, field_text, lemma_behind_next, next_fields, FieldScan,
    FieldValue, Scanner, ScannerView,
};
use crate::loader::schema::{column_type, declared_type, SchemaSpec, SchemaView};
use crate::text::{joined, texts};

verus! {

/// The number of fields of a record that a reader looks at who wants the
/// first `need`.
pub open spec fn looked_at(fields: Seq<FieldScan>, need: nat) -> nat {
    if need <= fields.len() {
        need
    } else {
        fields.len()
    }
}

/// The records that a scanner finds.
pub open spec fn records(scanner: ScannerView) -> Seq<Seq<FieldScan>>
    decreases scanner.rest.len(),
    via records_terminates
{
    if behind_blank_lines(scanner.rest).len() == 0 {
        Seq::empty()
    } else {
        seq![next_fields(scanner)] + records(behind_next(scanner))
    }
}

#[via_fn]
proof fn records_terminates(scanner: ScannerView) {
    if behind_blank_lines(scanner.rest).len() > 0 {
        lemma_behind_next(scanner);
    }
}

/// The text of a record's field; nothing where the column is in no field or
/// the record is short of it.
pub open spec fn value_at(fields: Seq<FieldScan>, source: Option<nat>, trim: bool) -> Seq<char> {
    match source {
        Some(k) => if k < fields.len() {
            field_text(fields[k as int].value, trim)
        } else {
            Seq::empty()
        },
        None => Seq::empty(),
    }
}

/// The number of leading fields that hold all the sources; at least the first
/// field is looked at.
pub open spec fn needed(sources: Seq<Option<nat>>) -> nat
    decreases sources.len(),
{
    if sources.len() == 0 {
        1
    } else {
        let n = needed(sources.drop_last());
        match sources.last() {
            Some(k) => if k < n {
                n
            } else {
                k + 1
            },
            None => n,
        }
    }
}

/// Where each column of a table comes from: its name, and the number of the
/// field that holds it.
#[verifier::ext_equal]
pub struct Plan {
    pub names: Seq<Seq<char>>,
    pub sources: Seq<Option<nat>>,
}

/// The fields of the column at `i`, one for each record.
pub open spec fn column_values(scanner: ScannerView, plan: Plan, i: int) -> Seq<Seq<char>> {
    records(scanner).map_values(
        |fields: Seq<FieldScan>| value_at(fields, plan.sources[i], scanner.trim),
    )
}

/// The column at `i`, all its fields read.
pub open spec fn filled_builder(
    scanner: ScannerView,
    plan: Plan,
    schema: SchemaView,
    i: int,
) -> BuilderView {
    let (t, declared) = declared_type(schema, plan.names[i]);
    BuilderView { values: column_values(scanner, plan, i), ..new_builder(t, declared) }
}

/// The columns of a table, all their fields read.
pub open spec fn filled_builders(scanner: ScannerView, plan: Plan, schema: SchemaView) -> Seq<
    BuilderView,
> {
    Seq::new(plan.names.len(), |i: int| filled_builder(scanner, plan, schema, i))
}

/// The index of the first column whose fields all failed; the number of
/// columns where there is none.
pub open spec fn first_all_failed(builders: Seq<BuilderView>) -> int
    decreases builders.len(),
{
    if builders.len() == 0 || all_failed(builders[0]) {
        0
    } else {
        1 + first_all_failed(builders.drop_first())
    }
}

/// The least index of a column whose fields all failed is `first_all_failed`.
pub proof fn lemma_first_all_failed_unique(builders: Seq<BuilderView>, k: int)
    requires
        0 <= k <= builders.len(),
        forall|i: int| 0 <= i < k ==> !all_failed(#[trigger] builders[i]),
        k < builders.len() ==> all_failed(builders[k]),
    ensures
        first_all_failed(builders) == k,
    decreases builders.len(),
{
    if k > 0 {
        assert(!all_failed(builders[0]));
        assert forall|i: int| 0 <= i < k - 1 implies !all_failed(
            #[trigger] builders.drop_first()[i],
        ) by {
            assert(!all_failed(builders[i + 1]));
        }
        lemma_first_all_failed_unique(builders.drop_first(), k - 1);
    }
}

/// Whether a table can be read: it has a column, and none whose fields all
/// failed.
pub open spec fn readable(scanner: ScannerView, plan: Plan, schema: SchemaView) -> bool {
    plan.names.len() > 0 && first_all_failed(filled_builders(scanner, plan, schema))
        == plan.names.len()
}

/// The complaint about a table that cannot be read.
pub open spec fn table_complaint(
    scanner: ScannerView,
    plan: Plan,
    schema: SchemaView,
) -> Seq<char> {
    let builders = filled_builders(scanner, plan, schema);
    let k = first_all_failed(builders);
    if k < builders.len() {
        failure_complaint(builders[k], plan.names[k])
    } else {
        "构建 RecordBatch 失败: "@ + empty_complaint()
    }
}

/// A table: a column for each name, a row for each record.
pub open spec fn table(scanner: ScannerView, plan: Plan, schema: SchemaView) -> BatchView {
    let builders = filled_builders(scanner, plan, schema);
    BatchView {
        fields: Seq::new(
            plan.names.len(),
            |i: int|
                FieldView {
                    name: plan.names[i],
                    data_type: column_type(builders[i].col_type),
                    nullable: true,
                },
        ),
        columns: Seq::new(
            plan.names.len(),
            |i: int|
                ColumnView {
                    data_type: column_type(builders[i].col_type),
                    cells: cells_of(builders[i].col_type, builders[i].values),
                },
        ),
        rows: records(scanner).len(),
    }
}

/// The numbers of the fields that hold the columns.
pub open spec fn source_views(v: Seq<Option<usize>>) -> Seq<Option<nat>> {
    v.map_values(
        |k: Option<usize>|
            match k {
                Some(n) => Some(n as nat),
                None => None,
            },
    )
}

/// Whether the fields up to each source can be counted.
pub open spec fn countable(v: Seq<Option<usize>>) -> bool {
    forall|i: int| 0 <= i < v.len() && (#[trigger] v[i]) is Some ==> v[i]->0 < usize::MAX
}

/// The number of leading fields that hold all the sources.
fn count_needed(sources: &[Option<usize>]) -> (r: usize)
    requires
        countable(sources@),
    ensures
        r == needed(source_views(sources@)),
        r > 0,
{
    let ghost views = source_views(sources@);
    let mut r: usize = 1;
    let mut i: usize = 0;
    assert(views.take(0) == Seq::<Option<nat>>::empty());
    while i < sources.len()
        invariant
            views == source_views(sources@),
            countable(sources@),
            i <= sources@.len(),
            r == needed(views.take(i as int)),
            r > 0,
        decreases sources@.len() - i,
    {
        proof {
            assert(views.take(i + 1).drop_last() == views.take(i as int));
        }
        if let Some(k) = sources[i] {
            if k >= r {
                r = k + 1;
            }
        }
        i = i + 1;
    }
    assert(views.take(i as int) == views);
    r
}

/// Every source is among the needed fields, and at least one field is.
pub proof fn lemma_needed(sources: Seq<Option<nat>>)
    ensures
        forall|i: int|
            0 <= i < sources.len() && (#[trigger] sources[i]) is Some ==> sources[i]->0 < needed(
                sources,
            ),
        needed(sources) > 0,
    decreases sources.len(),
{
    if sources.len() > 0 {
        let front = sources.drop_last();
        lemma_needed(front);
        assert forall|i: int| 0 <= i < front.len() implies sources[i] == #[trigger] front[i] by {}
        assert forall|i: int|
            0 <= i < sources.len() && (#[trigger] sources[i]) is Some implies sources[i]->0
            < needed(sources) by {
            if i < front.len() {
                assert(front[i] is Some);
            }
        }
    }
}

/// The empty columns of a table.
fn new_builders(names: &[String], schema: &SchemaSpec) -> (r: Vec<ColumnBuilder>)
    ensures
        r@.len() == names@.len(),
        forall|i: int|
            0 <= i < r@.len() ==> (#[trigger] r@[i]).wf() && r@[i]@ == empty_builder(
                schema@,
                names@[i]@,
            ),
{
    let mut r: Vec<ColumnBuilder> = Vec::new();
    let mut i: usize = 0;
    while i < names.len()
        invariant
            i <= names@.len(),
            r@.len() == i,
            forall|k: int|
                0 <= k < i ==> (#[trigger] r@[k]).wf() && r@[k]@ == empty_builder(
                    schema@,
                    names@[k]@,
                ),
        decreases names@.len() - i,
    {
        let (col_type, declared) = schema.col_type(names[i].as_str());
        r.push(ColumnBuilder::new(&col_type, declared));
        i = i + 1;
    }
    r
}

/// The empty column of a name.
pub open spec fn empty_builder(schema: SchemaView, name: Seq<char>) -> BuilderView {
    let (t, declared) = declared_type(schema, name);
    new_builder(t, declared)
}

/// Appends a record to the columns.
fn append_record(
    builders: &mut Vec<ColumnBuilder>,
    row: &Vec<FieldValue<'_>>,
    sources: &[Option<usize>],
    Ghost(fields): Ghost<Seq<FieldScan>>,
    Ghost(trim): Ghost<bool>,
)
    requires
        old(builders)@.len() == sources@.len(),
        forall|i: int|
            0 <= i < sources@.len() ==> (#[trigger] old(builders)@[i]).wf() && old(
                builders,
            )@[i]@.values.len() < usize::MAX,
        row@.len() == looked_at(fields, needed(source_views(sources@))),
        forall|i: int|
            0 <= i < row@.len() ==> (#[trigger] row@[i]).text() == field_text(
                fields[i].value,
                trim,
            ),
    ensures
        final(builders)@.len() == sources@.len(),
        forall|i: int|
            0 <= i < sources@.len() ==> {
                &&& (#[trigger] final(builders)@[i]).wf()
                &&& final(builders)@[i]@ == (BuilderView {
                    values: old(builders)@[i]@.values.push(
                        value_at(fields, source_views(sources@)[i], trim),
                    ),
                    ..old(builders)@[i]@
                })
            },
{
    let ghost views = source_views(sources@);
    let mut j: usize = 0;
    while j < sources.len()
        invariant
            views == source_views(sources@),
            j <= sources@.len(),
            builders@.len() == sources@.len(),
            row@.len() == looked_at(fields, needed(views)),
            forall|i: int|
                0 <= i < row@.len() ==> (#[trigger] row@[i]).text() == field_text(
                    fields[i].value,
                    trim,
                ),
            forall|i: int|
                j <= i < sources@.len() ==> (#[trigger] builders@[i]).wf()
                    && builders@[i]@.values.len() < usize::MAX,
            forall|i: int| j <= i < sources@.len() ==> #[trigger] builders@[i] == old(builders)@[i],
            forall|i: int|
                0 <= i < j ==> {
                    &&& (#[trigger] builders@[i]).wf()
                    &&& builders@[i]@ == (BuilderView {
                        values: old(builders)@[i]@.values.push(value_at(fields, views[i], trim)),
                        ..old(builders)@[i]@
                    })
                },
        decreases sources@.len() - j,
    {
        proof {
            lemma_needed(views);
        }
        let text = match sources[j] {
            Some(k) => if k < row.len() {
                row[k].as_str()
            } else {
                ""
            },
            None => "",
        };
        proof {
            reveal_strlit("");
            assert(text@ == value_at(fields, views[j as int], trim));
        }
        builders[j].append(text);
        j = j + 1;
    }
}

/// The records that a scanner finds, appended to empty columns.
fn read_records(
    scanner: &mut Scanner<'_>,
    names: &[String],
    sources: &[Option<usize>],
    schema: &SchemaSpec,
) -> (r: Vec<ColumnBuilder>)
    requires
        names@.len() == sources@.len(),
        countable(sources@),
    ensures
        ({
            let plan = Plan { names: texts(names@), sources: source_views(sources@) };
            &&& r@.len() == names@.len()
            &&& forall|i: int|
                0 <= i < r@.len() ==> (#[trigger] r@[i]).wf() && r@[i]@ == filled_builder(
                    old(scanner)@,
                    plan,
                    schema@,
                    i,
                )
        }),
{
    let ghost start = scanner@;
    let ghost views = source_views(sources@);
    let ghost plan = Plan { names: texts(names@), sources: views };
    let need: usize = count_needed(sources);
    let mut builders = new_builders(names, schema);
    let size: usize = scanner.byte_len();
    let ghost mut done: Seq<Seq<FieldScan>> = Seq::empty();
    assert(done + records(scanner@) == records(start));
    loop
        invariant
            names@.len() == sources@.len(),
            views == source_views(sources@),
            plan == (Plan { names: texts(names@), sources: views }),
            need == needed(views),
            need > 0,
            scanner@.quoting == start.quoting,
            scanner@.trim == start.trim,
            done + records(scanner@) == records(start),
            done.len() + scanner@.rest.len() <= size,
            builders@.len() == names@.len(),
            forall|i: int|
                0 <= i < builders@.len() ==> {
                    &&& (#[trigger] builders@[i]).wf()
                    &&& builders@[i]@ == (BuilderView {
                        values: done.map_values(
                            |fields: Seq<FieldScan>| value_at(fields, views[i], start.trim),
                        ),
                        ..empty_builder(schema@, names@[i]@)
                    })
                },
        ensures
            done == records(start),
            builders@.len() == names@.len(),
            forall|i: int|
                0 <= i < builders@.len() ==> {
                    &&& (#[trigger] builders@[i]).wf()
                    &&& builders@[i]@ == (BuilderView {
                        values: done.map_values(
                            |fields: Seq<FieldScan>| value_at(fields, views[i], start.trim),
                        ),
                        ..empty_builder(schema@, names@[i]@)
                    })
                },
        decreases scanner@.rest.len(),
    {
        let ghost here = scanner@;
        match scanner.read_leading(need) {
            None => {
                assert(done + records(here) == done);
                break;
            },
            Some(row) => {
                let ghost fields = next_fields(here);
                proof {
                    lemma_behind_next(here);
                    assert(done + (seq![fields] + records(scanner@)) == done.push(
                        fields,
                    ) + records(scanner@));
                }
                append_record(&mut builders, &row, sources, Ghost(fields), Ghost(start.trim));
                proof {
                    assert forall|i: int| 0 <= i < builders@.len() implies done.push(
                        fields,
                    ).map_values(
                        |fields: Seq<FieldScan>| value_at(fields, views[i], start.trim),
                    ) == done.map_values(
                        |fields: Seq<FieldScan>| value_at(fields, views[i], start.trim),
                    ).push(value_at(fields, #[trigger] views[i], start.trim)) by {}
                    done = done.push(fields);
                }
            },
        }
    }
    builders
}

/// The fields and columns of builders.
fn finish_all(names: &[String], builders: Vec<ColumnBuilder>) -> (r: (Vec<Field>, Vec<Column>))
    requires
        builders@.len() == names@.len(),
        forall|i: int| 0 <= i < builders@.len() ==> (#[trigger] builders@[i]).wf(),
    ensures
        r.0@.len() == names@.len(),
        r.1@.len() == names@.len(),
        forall|i: int|
            0 <= i < names@.len() ==> (#[trigger] r.0@[i])@ == (FieldView {
                name: names@[i]@,
                data_type: column_type(builders@[i]@.col_type),
                nullable: true,
            }),
        forall|i: int|
            0 <= i < names@.len() ==> (#[trigger] r.1@[i])@ == (ColumnView {
                data_type: column_type(builders@[i]@.col_type),
                cells: cells_of(builders@[i]@.col_type, builders@[i]@.values),
            }),
{
    let ghost all = builders@;
    let mut fields: Vec<Field> = Vec::new();
    let mut columns: Vec<Column> = Vec::new();
    for builder in it: builders
        invariant
            it.seq() == all,
            all.len() == names@.len(),
            forall|i: int| 0 <= i < all.len() ==> (#[trigger] all[i]).wf(),
            fields@.len() == it.index(),
            columns@.len() == it.index(),
            forall|i: int|
                0 <= i < it.index() ==> (#[trigger] fields@[i])@ == (FieldView {
                    name: names@[i]@,
                    data_type: column_type(all[i]@.col_type),
                    nullable: true,
                }),
            forall|i: int|
                0 <= i < it.index() ==> (#[trigger] columns@[i])@ == (ColumnView {
                    data_type: column_type(all[i]@.col_type),
                    cells: cells_of(all[i]@.col_type, all[i]@.values),
                }),
    {
        let n: usize = fields.len();
        let (field, column) = builder.finish(names[n].as_str());
        fields.push(field);
        columns.push(column);
    }
    (fields, columns)
}

/// Reads the records of a file into a table.
pub fn read_table(
    scanner: Scanner<'_>,
    names: &[String],
    sources: &[Option<usize>],
    schema: &SchemaSpec,
) -> (r: Result<Batch, String>)
    requires
        names@.len() == sources@.len(),
        countable(sources@),
    ensures
        ({
            let plan = Plan { names: texts(names@), sources: source_views(sources@) };
            &&& r is Ok <==> readable(scanner@, plan, schema@)
            &&& r matches Ok(b) ==> b@ == table(scanner@, plan, schema@)
            &&& r matches Err(e) ==> e@ == table_complaint(scanner@, plan, schema@)
        }),
{
    let ghost plan = Plan { names: texts(names@), sources: source_views(sources@) };
    let ghost all = filled_builders(scanner@, plan, schema@);
    let ghost start = scanner@;
    let mut rest = scanner;
    let builders = read_records(&mut rest, names, sources, schema);
    let mut i: usize = 0;
    while i < builders.len()
        invariant
            plan == (Plan { names: texts(names@), sources: source_views(sources@) }),
            start == scanner@,
            all == filled_builders(start, plan, schema@),
            i <= builders@.len() == names@.len(),
            forall|k: int|
                0 <= k < builders@.len() ==> (#[trigger] builders@[k]).wf() && builders@[k]@
                    == all[k],
            forall|k: int| 0 <= k < i ==> !all_failed(#[trigger] all[k]),
        decreases builders@.len() - i,
    {
        match builders[i].check_all_failed(names[i].as_str()) {
            Ok(_) => {},
            Err(e) => {
                proof {
                    lemma_first_all_failed_unique(all, i as int);
                    assert(plan.names[i as int] == names@[i as int]@);
                }
                return Err(e);
            },
        }
        i = i + 1;
    }
    proof {
        lemma_first_all_failed_unique(all, i as int);
    }
    let (fields, columns) = finish_all(names, builders);
    proof {
        let fs = field_views(fields@);
        let cs = column_views(columns@);
        let want = table(start, plan, schema@);
        assert(fs == want.fields);
        assert(cs == want.columns);
        lemma_first_unallowed_unique(fs, cs, cs.len() as int);
        lemma_first_mistyped_unique(fs, cs, cs.len() as int);
        assert forall|k: int| 0 <= k < cs.len() implies (#[trigger] cs[k]).cells.len()
            == want.rows by {}
    }
    match Batch::try_new(fields, columns) {
        Ok(b) => Ok(b),
        Err(e) => Err(joined("构建 RecordBatch 失败: ", e.as_str())),
    }
}

} // verus!
