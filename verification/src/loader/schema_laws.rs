//! What type a column is read as, told by the texts that declare it.

use vstd::prelude::*;

use crate::io::{
    declared_schema, first_untyped, law_schema_tells_declarations, lemma_first_untyped_unique,
    named_type, names_once, type_complaint,
};
use crate::loader::file_laws::law_last_pair_counts;
use crate::loader::schema::{declared_type, ColTypeView, SchemaView};

verus! {

/// The texts that name column types are `str`, `int64`, `float64`, and `date:`
/// with a format behind it, which may be anything.
pub proof fn law_type_names(format: Seq<char>)
    ensures
        named_type("str"@) == Some(ColTypeView::Str),
        named_type("int64"@) == Some(ColTypeView::Int64),
        named_type("float64"@) == Some(ColTypeView::Float64),
        named_type("date:"@ + format) == Some(ColTypeView::Date(format)),
{
    reveal_strlit("str");
    reveal_strlit("int64");
    reveal_strlit("float64");
    reveal_strlit("date:");
    assert("str"@[0] == 's' && "int64"@[0] == 'i' && "float64"@[0] == 'f');
    let typ = "date:"@ + format;
    assert(typ[0] == 'd');
    assert("date:"@.is_prefix_of(typ));
    assert(typ.skip("date:"@.len() as int) == format);
}

/// No other text names one, and the complaint about it says which do.
pub proof fn law_type_names_only(typ: Seq<char>, shown: Seq<char>)
    requires
        typ != "str"@,
        typ != "int64"@,
        typ != "float64"@,
        forall|format: Seq<char>| typ != #[trigger] ("date:"@ + format),
    ensures
        named_type(typ) is None,
        type_complaint(shown) == "unknown column type "@ + (shown
            + "; use \"str\" / \"int64\" / \"float64\" / \"date:%Y-%m-%d\""@),
{
    if "date:"@.is_prefix_of(typ) {
        let format = typ.skip("date:"@.len() as int);
        assert(typ =~= "date:"@ + format);
    }
    assert(type_complaint(shown) =~= "unknown column type "@ + (shown
        + "; use \"str\" / \"int64\" / \"float64\" / \"date:%Y-%m-%d\""@));
}

/// Declarations are taken up to the first whose type has no name, and all of
/// them where there is none.
pub proof fn law_first_untyped(pairs: Seq<(Seq<char>, Seq<char>)>, k: int)
    ensures
        0 <= k < pairs.len() && named_type(pairs[k].1) is None && (forall|i: int|
            0 <= i < k ==> named_type((#[trigger] pairs[i]).1) is Some) ==> first_untyped(pairs)
            == k,
        (forall|i: int| 0 <= i < pairs.len() ==> named_type((#[trigger] pairs[i]).1) is Some)
            ==> first_untyped(pairs) == pairs.len(),
{
    if 0 <= k < pairs.len() && named_type(pairs[k].1) is None && (forall|i: int|
        0 <= i < k ==> named_type((#[trigger] pairs[i]).1) is Some) {
        lemma_first_untyped_unique(pairs, k);
    }
    if forall|i: int| 0 <= i < pairs.len() ==> named_type((#[trigger] pairs[i]).1) is Some {
        lemma_first_untyped_unique(pairs, pairs.len() as int);
    }
}

/// Each declaration by name is heeded: of a column that one declaration is on,
/// a schema tells the type that its text names, and of any other column the
/// default type.
pub proof fn law_schema_of_texts(
    pairs: Seq<(Seq<char>, Seq<char>)>,
    default_type: ColTypeView,
    i: int,
    format: Seq<char>,
    name: Seq<char>,
)
    requires
        names_once(pairs),
        forall|k: int| 0 <= k < pairs.len() ==> named_type((#[trigger] pairs[k]).1) is Some,
    ensures
        ({
            let schema = declared_schema(pairs, default_type);
            &&& 0 <= i < pairs.len() && pairs[i].1 == "str"@ ==> declared_type(schema, pairs[i].0)
                == (ColTypeView::Str, true)
            &&& 0 <= i < pairs.len() && pairs[i].1 == "int64"@ ==> declared_type(schema, pairs[i].0)
                == (ColTypeView::Int64, true)
            &&& 0 <= i < pairs.len() && pairs[i].1 == "float64"@ ==> declared_type(
                schema,
                pairs[i].0,
            ) == (ColTypeView::Float64, true)
            &&& 0 <= i < pairs.len() && pairs[i].1 == "date:"@ + format ==> declared_type(
                schema,
                pairs[i].0,
            ) == (ColTypeView::Date(format), true)
            &&& (forall|k: int| 0 <= k < pairs.len() ==> (#[trigger] pairs[k]).0 != name)
                ==> declared_type(schema, name) == (default_type, false)
        }),
{
    law_type_names(format);
    if 0 <= i < pairs.len() {
        law_schema_tells_declarations(pairs, default_type, pairs[i].0);
    }
    law_schema_tells_declarations(pairs, default_type, name);
}

/// A column that is declared as text is read as text, whatever else it is
/// declared as; one that is declared as an integer but not as text, as an
/// integer; one that is declared as a float and neither, as a float; one that
/// only a date format is declared for, as dates of that format, the last one
/// where there are several. A column that is declared as nothing has the
/// default type.
pub proof fn law_declared_types(schema: SchemaView, name: Seq<char>, i: int)
    ensures
        schema.strings.contains(name) ==> declared_type(schema, name) == (ColTypeView::Str, true),
        !schema.strings.contains(name) && schema.ints.contains(name) ==> declared_type(schema, name)
            == (ColTypeView::Int64, true),
        !schema.strings.contains(name) && !schema.ints.contains(name) && schema.floats.contains(
            name,
        ) ==> declared_type(schema, name) == (ColTypeView::Float64, true),
        !schema.strings.contains(name) && !schema.ints.contains(name) && !schema.floats.contains(
            name,
        ) ==> {
            &&& 0 <= i < schema.dates.len() && schema.dates[i].0 == name && (forall|k: int|
                i < k < schema.dates.len() ==> (#[trigger] schema.dates[k]).0 != name)
                ==> declared_type(schema, name) == (ColTypeView::Date(schema.dates[i].1), true)
            &&& (forall|k: int|
                0 <= k < schema.dates.len() ==> (#[trigger] schema.dates[k]).0 != name)
                ==> declared_type(schema, name) == (schema.default_type, false)
        },
{
    law_last_pair_counts(schema.dates, name, i);
}

} // verus!
