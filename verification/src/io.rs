//! Reading a caller's schema: column types by their names.

use vstd::prelude::*;

use crate::loader::schema::{
    declared_type, text_pairs, ColType, ColTypeView, SchemaSpec, SchemaView,
};
use crate::text::{behind_prefix, copied, joined, same_text};

verus! {

/// The text that the debug form of a text shows, between quotes and with
/// escapes.
pub uninterp spec fn debug_form(s: Seq<char>) -> Seq<char>;

/// The debug form of a text, by `format!` with `{:?}`. It depends on the text
/// alone; which characters are escaped and how is left unsaid.
#[verifier::external_body]
fn debug_text(s: &str) -> (r: String)
    ensures
        r@ == debug_form(s@),
{
    format!("{s:?}")
}

/// The column type that a text names: `str`, `int64`, `float64`, or `date:`
/// and a format.
pub open spec fn named_type(typ: Seq<char>) -> Option<ColTypeView> {
    if typ == "str"@ {
        Some(ColTypeView::Str)
    } else if typ == "int64"@ {
        Some(ColTypeView::Int64)
    } else if typ == "float64"@ {
        Some(ColTypeView::Float64)
    } else if "date:"@.is_prefix_of(typ) {
        Some(ColTypeView::Date(typ.skip("date:"@.len() as int)))
    } else {
        None
    }
}

/// The complaint about a text that names no column type, given its debug form.
pub open spec fn type_complaint(shown: Seq<char>) -> Seq<char> {
    "unknown column type "@ + shown
        + "; use \"str\" / \"int64\" / \"float64\" / \"date:%Y-%m-%d\""@
}

/// The complaint about a text that names no column type, given its debug form.
pub fn unknown_type(shown: &str) -> (r: String)
    ensures
        r@ == type_complaint(shown@),
{
    let mut e = joined("unknown column type ", shown);
    e.append("; use \"str\" / \"int64\" / \"float64\" / \"date:%Y-%m-%d\"");
    e
}

/// The column type that a text names.
pub fn parse_col_type(typ: &str) -> (r: Result<ColType, String>)
    ensures
        r is Ok <==> named_type(typ@) is Some,
        r matches Ok(t) ==> named_type(typ@) == Some(t@),
        r matches Err(e) ==> e@ == type_complaint(debug_form(typ@)),
{
    if same_text(typ, "str") {
        Ok(ColType::Str)
    } else if same_text(typ, "int64") {
        Ok(ColType::Int64)
    } else if same_text(typ, "float64") {
        Ok(ColType::Float64)
    } else {
        match behind_prefix(typ, "date:") {
            Some(format) => Ok(ColType::Date { format: copied(format) }),
            None => Err(unknown_type(debug_text(typ).as_str())),
        }
    }
}

/// The index of the first pair whose second text names no column type; the
/// number of pairs where there is none.
pub open spec fn first_untyped(pairs: Seq<(Seq<char>, Seq<char>)>) -> int
    decreases pairs.len(),
{
    if pairs.len() == 0 || named_type(pairs[0].1) is None {
        0
    } else {
        1 + first_untyped(pairs.drop_first())
    }
}

/// The least index of such a pair is `first_untyped`.
pub proof fn lemma_first_untyped_unique(pairs: Seq<(Seq<char>, Seq<char>)>, k: int)
    requires
        0 <= k <= pairs.len(),
        forall|i: int| 0 <= i < k ==> named_type((#[trigger] pairs[i]).1) is Some,
        k < pairs.len() ==> named_type(pairs[k].1) is None,
    ensures
        first_untyped(pairs) == k,
    decreases pairs.len(),
{
    if k > 0 {
        assert(named_type(pairs[0].1) is Some);
        assert forall|i: int| 0 <= i < k - 1 implies named_type(
            (#[trigger] pairs.drop_first()[i]).1,
        ) is Some by {
            assert(named_type(pairs[i + 1].1) is Some);
        }
        lemma_first_untyped_unique(pairs.drop_first(), k - 1);
    }
}

/// A schema with one more declaration.
pub open spec fn with_declared(schema: SchemaView, name: Seq<char>, t: ColTypeView) -> SchemaView {
    match t {
        ColTypeView::Str => SchemaView { strings: schema.strings.push(name), ..schema },
        ColTypeView::Int64 => SchemaView { ints: schema.ints.push(name), ..schema },
        ColTypeView::Float64 => SchemaView { floats: schema.floats.push(name), ..schema },
        ColTypeView::Date(format) => SchemaView {
            dates: schema.dates.push((name, format)),
            ..schema
        },
    }
}

/// The schema that declares each name as the type beside it.
pub open spec fn declared_schema(
    pairs: Seq<(Seq<char>, Seq<char>)>,
    default_type: ColTypeView,
) -> SchemaView
    decreases pairs.len(),
{
    if pairs.len() == 0 {
        SchemaView {
            strings: Seq::empty(),
            dates: Seq::empty(),
            ints: Seq::empty(),
            floats: Seq::empty(),
            default_type,
        }
    } else {
        with_declared(
            declared_schema(pairs.drop_last(), default_type),
            pairs.last().0,
            named_type(pairs.last().1)->0,
        )
    }
}

/// Adds a declaration.
fn declare(schema: &mut SchemaSpec, name: &str, t: ColType)
    ensures
        final(schema)@ == with_declared(old(schema)@, name@, t@),
{
    let ghost before = *schema;
    match t {
        ColType::Str => {
            schema.string_cols.push(copied(name));
        },
        ColType::Int64 => {
            schema.int_cols.push(copied(name));
        },
        ColType::Float64 => {
            schema.float_cols.push(copied(name));
        },
        ColType::Date { format } => {
            schema.date_cols.push((copied(name), format));
        },
    }
    assert(schema@ =~= with_declared(before@, name@, t@));
}

/// The schema of pairs of a column's name and its type's, and of the name of
/// the default type.
pub fn parse_schema(overrides: &[(String, String)], default_type: &str) -> (r: Result<
    SchemaSpec,
    String,
>)
    ensures
        ({
            let pairs = text_pairs(overrides@);
            let k = first_untyped(pairs);
            if k < pairs.len() {
                r matches Err(e) && e@ == type_complaint(debug_form(pairs[k].1))
            } else {
                match named_type(default_type@) {
                    None => r matches Err(e) && e@ == type_complaint(debug_form(default_type@)),
                    Some(t) => r matches Ok(schema) && schema@ == declared_schema(pairs, t),
                }
            }
        }),
{
    let ghost pairs = text_pairs(overrides@);
    let mut schema = SchemaSpec {
        string_cols: Vec::new(),
        date_cols: Vec::new(),
        int_cols: Vec::new(),
        float_cols: Vec::new(),
        default_type: ColType::Float64,
    };
    let mut i: usize = 0;
    proof {
        assert(pairs.take(0) == Seq::<(Seq<char>, Seq<char>)>::empty());
        assert(schema@ =~= declared_schema(pairs.take(0), ColTypeView::Float64));
    }
    while i < overrides.len()
        invariant
            pairs == text_pairs(overrides@),
            i <= overrides@.len(),
            forall|k: int| 0 <= k < i ==> named_type((#[trigger] pairs[k]).1) is Some,
            schema@ == declared_schema(pairs.take(i as int), ColTypeView::Float64),
        decreases overrides@.len() - i,
    {
        proof {
            assert(pairs[i as int] == (overrides@[i as int].0@, overrides@[i as int].1@));
            assert(pairs.take(i + 1).drop_last() == pairs.take(i as int));
        }
        match parse_col_type(overrides[i].1.as_str()) {
            Ok(t) => {
                declare(&mut schema, overrides[i].0.as_str(), t);
            },
            Err(e) => {
                proof {
                    lemma_first_untyped_unique(pairs, i as int);
                }
                return Err(e);
            },
        }
        i = i + 1;
    }
    proof {
        lemma_first_untyped_unique(pairs, i as int);
        assert(pairs.take(i as int) == pairs);
    }
    match parse_col_type(default_type) {
        Ok(t) => {
            proof {
                lemma_default_apart(pairs, ColTypeView::Float64, t@);
            }
            schema.default_type = t;
            Ok(schema)
        },
        Err(e) => Err(e),
    }
}

/// The default type stands apart from the declarations.
proof fn lemma_default_apart(
    pairs: Seq<(Seq<char>, Seq<char>)>,
    t: ColTypeView,
    u: ColTypeView,
)
    ensures
        declared_schema(pairs, u) == (SchemaView { default_type: u, ..declared_schema(pairs, t) }),
    decreases pairs.len(),
{
    if pairs.len() > 0 {
        lemma_default_apart(pairs.drop_last(), t, u);
    }
}

/// Whether no two pairs are on one name.
pub open spec fn names_once(pairs: Seq<(Seq<char>, Seq<char>)>) -> bool {
    forall|i: int, k: int|
        0 <= i < k < pairs.len() ==> (#[trigger] pairs[i]).0 != (#[trigger] pairs[k]).0
}

/// What a schema tells of a name, when another declaration is added.
proof fn lemma_declared(schema: SchemaView, added: Seq<char>, t: ColTypeView, name: Seq<char>)
    ensures
        name != added ==> declared_type(with_declared(schema, added, t), name) == declared_type(
            schema,
            name,
        ),
        name == added && !declared_type(schema, name).1 ==> declared_type(
            with_declared(schema, added, t),
            name,
        ) == (t, true),
{
    let after = with_declared(schema, added, t);
    lemma_contains_push(schema.strings, added, name);
    lemma_contains_push(schema.ints, added, name);
    lemma_contains_push(schema.floats, added, name);
    match t {
        ColTypeView::Date(format) => {
            assert(after.dates.drop_last() == schema.dates);
            assert(after.dates.last() == (added, format));
        },
        _ => {},
    }
}

proof fn lemma_contains_push(names: Seq<Seq<char>>, added: Seq<char>, name: Seq<char>)
    ensures
        names.push(added).contains(name) <==> names.contains(name) || name == added,
{
    let all = names.push(added);
    if names.contains(name) {
        let i = choose|i: int| 0 <= i < names.len() && names[i] == name;
        assert(all[i] == name);
    }
    if name == added {
        assert(all[names.len() as int] == name);
    }
    if all.contains(name) {
        let i = choose|i: int| 0 <= i < all.len() && all[i] == name;
        if i < names.len() {
            assert(names[i] == name);
        }
    }
}

/// A schema tells of each name what was declared of it, and of any other name
/// the default type.
pub proof fn law_schema_tells_declarations(
    pairs: Seq<(Seq<char>, Seq<char>)>,
    default_type: ColTypeView,
    name: Seq<char>,
)
    requires
        names_once(pairs),
        forall|i: int| 0 <= i < pairs.len() ==> named_type((#[trigger] pairs[i]).1) is Some,
    ensures
        forall|i: int|
            0 <= i < pairs.len() && (#[trigger] pairs[i]).0 == name ==> declared_type(
                declared_schema(pairs, default_type),
                name,
            ) == (named_type(pairs[i].1)->0, true),
        (forall|i: int| 0 <= i < pairs.len() ==> (#[trigger] pairs[i]).0 != name)
            ==> declared_type(declared_schema(pairs, default_type), name) == (
            default_type,
            false,
        ),
    decreases pairs.len(),
{
    if pairs.len() > 0 {
        let front = pairs.drop_last();
        let last = pairs.len() - 1;
        assert forall|i: int, k: int| 0 <= i < k < front.len() implies (#[trigger] front[i]).0 != (
        #[trigger] front[k]).0 by {
            assert(pairs[i].0 != pairs[k].0);
        }
        assert forall|i: int| 0 <= i < front.len() implies named_type(
            (#[trigger] front[i]).1,
        ) is Some by {
            assert(named_type(pairs[i].1) is Some);
        }
        law_schema_tells_declarations(front, default_type, name);
        assert(named_type(pairs[last].1) is Some);
        lemma_declared(
            declared_schema(front, default_type),
            pairs.last().0,
            named_type(pairs.last().1)->0,
            name,
        );
        if pairs.last().0 == name {
            assert forall|i: int| 0 <= i < front.len() implies (#[trigger] front[i]).0 != name by {
                assert(pairs[i].0 != pairs[last].0);
            }
        } else {
            assert forall|i: int| 0 <= i < pairs.len() && (#[trigger] pairs[i]).0 == name implies i
                < front.len() && front[i].0 == name by {}
            if forall|i: int| 0 <= i < pairs.len() ==> (#[trigger] pairs[i]).0 != name {
                assert forall|i: int| 0 <= i < front.len() implies (
                #[trigger] front[i]).0 != name by {
                    assert(pairs[i].0 != name);
                }
            }
        }
    } else {
        let empty = declared_schema(pairs, default_type);
        assert(!empty.strings.contains(name) && !empty.ints.contains(name)
            && !empty.floats.contains(name));
    }
}

} // verus!
