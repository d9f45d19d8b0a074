//! The walk over a whole definition: every field of every shape is handed
//! to the metadata rewrite once, and a shape that is not known is left alone.

use crate::filter::{field_stripped, strip_field};
use crate::model::{
    cases_view, fields_view, Case, CaseView, DefinitionView, Field, FieldSet, FieldSetView,
    FieldView, TypeDefinition,
};
use vstd::prelude::*;

verus! {

/// `after` is the run of fields `before` after the rewrite: as many fields,
/// in the same order, each one stripped.
pub open spec fn fields_stripped(before: Seq<FieldView>, after: Seq<FieldView>) -> bool {
    &&& after.len() == before.len()
    &&& forall|i: int| 0 <= i < before.len() ==> field_stripped(before[i], #[trigger] after[i])
}

/// `after` is the field set `before` after the rewrite: of the same form, its
/// fields stripped.
pub open spec fn fields_processed(before: FieldSetView, after: FieldSetView) -> bool {
    match before {
        FieldSetView::Named(list) => after matches FieldSetView::Named(left) && fields_stripped(
            list,
            left,
        ),
        FieldSetView::Positional(list) => after matches FieldSetView::Positional(left)
            && fields_stripped(list, left),
        FieldSetView::Empty => after is Empty,
    }
}

/// `after` is the case `before` after the rewrite: its name kept, its fields
/// processed.
pub open spec fn case_erased(before: CaseView, after: CaseView) -> bool {
    after.name == before.name && fields_processed(before.fields, after.fields)
}

/// `after` is the run of cases `before` after the rewrite: as many cases, in
/// the same order.
pub open spec fn cases_erased(before: Seq<CaseView>, after: Seq<CaseView>) -> bool {
    &&& after.len() == before.len()
    &&& forall|c: int| 0 <= c < before.len() ==> case_erased(before[c], #[trigger] after[c])
}

/// `after` is the definition `before` after the rewrite: of the same shape,
/// the fields of a record or of every case of a tagged union processed, and
/// any other construct as it was.
pub open spec fn definition_erased(before: DefinitionView, after: DefinitionView) -> bool {
    match before {
        DefinitionView::Record(fields) => after matches DefinitionView::Record(left)
            && fields_processed(fields, left),
        DefinitionView::TaggedUnion(cases) => after matches DefinitionView::TaggedUnion(left)
            && cases_erased(cases, left),
        DefinitionView::Opaque(_) => after == before,
    }
}

fn strip_all(list: &mut Vec<Field>)
    ensures
        fields_stripped(fields_view(old(list)@), fields_view(final(list)@)),
{
    let mut i: usize = 0;
    while i < list.len()
        invariant
            i <= list@.len(),
            list@.len() == old(list)@.len(),
            forall|j: int| 0 <= j < i ==> field_stripped(old(list)@[j]@, (#[trigger] list@[j])@),
            forall|j: int| i <= j < list@.len() ==> #[trigger] list@[j] == old(list)@[j],
        decreases list@.len() - i,
    {
        strip_field(&mut list[i]);
        i += 1;
    }
}

/// Rewrites the metadata of every field of a field set, whatever its form.
pub fn process_fields(fields: &mut FieldSet)
    ensures
        fields_processed(old(fields)@, final(fields)@),
{
    match fields {
        FieldSet::Named(list) => strip_all(list),
        FieldSet::Positional(list) => strip_all(list),
        FieldSet::Empty => {},
    }
}

fn process_cases(cases: &mut Vec<Case>)
    ensures
        cases_erased(cases_view(old(cases)@), cases_view(final(cases)@)),
{
    let mut i: usize = 0;
    while i < cases.len()
        invariant
            i <= cases@.len(),
            cases@.len() == old(cases)@.len(),
            forall|j: int| 0 <= j < i ==> case_erased(old(cases)@[j]@, (#[trigger] cases@[j])@),
            forall|j: int| i <= j < cases@.len() ==> #[trigger] cases@[j] == old(cases)@[j],
        decreases cases@.len() - i,
    {
        process_fields(&mut cases[i].fields);
        i += 1;
    }
}

/// Removes every `skip_serializing_if` entry from the `serde` metadata of
/// every field of a record or of a tagged union. The marker's own arguments
/// are not read.
pub fn erase_skip_serializing_if(_attr: &str, item: TypeDefinition) -> (output: TypeDefinition)
    ensures
        definition_erased(item@, output@),
{
    let mut input = item;
    match &mut input {
        TypeDefinition::Record(fields) => process_fields(fields),
        TypeDefinition::TaggedUnion(cases) => process_cases(cases),
        TypeDefinition::Opaque(_) => {},
    }
    input
}

} // verus!
