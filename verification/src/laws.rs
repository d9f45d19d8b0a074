//! What holds of the rewrite for every definition and for every outcome of
//! the parser, stated over the views and relations that the contracts of the
//! rewrite use.

use crate::dispatch::{
    case_erased, cases_erased, definition_erased, fields_processed, fields_stripped,
};
use crate::filter::{
    block_outcome, block_outcomes, block_rewritten_with, blocks_stripped_with, field_stripped, is_parsed, is_recognized, is_target, kept_entries, lemma_kept_entries_step,
    rendered_entries,
};
use crate::model::{BlockView, DefinitionView, EntryView, FieldSetView, FieldView};
use vstd::prelude::*;

verus! {

/// The fields of a field set, in order; none for the empty form.
pub open spec fn fields_of(fields: FieldSetView) -> Seq<FieldView> {
    match fields {
        FieldSetView::Named(list) => list,
        FieldSetView::Positional(list) => list,
        FieldSetView::Empty => Seq::empty(),
    }
}

/// No block in the sequence carries the recognized namespace.
pub open spec fn free_of_recognized(blocks: Seq<BlockView>) -> bool {
    forall|i: int| 0 <= i < blocks.len() ==> !is_recognized(#[trigger] blocks[i])
}

/// No field of the field set has a block of the recognized namespace.
pub open spec fn fields_free_of_recognized(fields: FieldSetView) -> bool {
    forall|i: int|
        0 <= i < fields_of(fields).len() ==> free_of_recognized(
            (#[trigger] fields_of(fields)[i]).blocks,
        )
}

/// No field anywhere in the definition has a block of the recognized
/// namespace.
pub open spec fn definition_free_of_recognized(definition: DefinitionView) -> bool {
    match definition {
        DefinitionView::Record(fields) => fields_free_of_recognized(fields),
        DefinitionView::TaggedUnion(cases) => forall|c: int|
            0 <= c < cases.len() ==> fields_free_of_recognized((#[trigger] cases[c]).fields),
        DefinitionView::Opaque(_) => true,
    }
}

/// The positions of the blocks that are left, given what the parser returned
/// for each block.
pub open spec fn left_positions(
    blocks: Seq<BlockView>,
    parses: Seq<Option<Seq<EntryView>>>,
) -> Seq<int>
    decreases blocks.len(),
{
    if blocks.len() == 0 {
        Seq::empty()
    } else if block_outcome(blocks.last(), parses[blocks.len() - 1]) is Some {
        left_positions(blocks.drop_last(), parses).push(blocks.len() - 1)
    } else {
        left_positions(blocks.drop_last(), parses)
    }
}

/// How the stripped blocks of a list relate to those of the list without its
/// last block, for one and the same sequence of parser outcomes.
proof fn lemma_stripped_with_unfolds(blocks: Seq<BlockView>, parses: Seq<Option<Seq<EntryView>>>)
    requires
        blocks.len() > 0,
    ensures
        blocks_stripped_with(blocks, parses) == match block_outcome(
            blocks.last(),
            parses[blocks.len() - 1],
        ) {
            Some(left) => blocks_stripped_with(blocks.drop_last(), parses).push(left),
            None => blocks_stripped_with(blocks.drop_last(), parses),
        },
{
    let outcomes = block_outcomes(blocks, parses);
    assert(outcomes.drop_last() =~= block_outcomes(blocks.drop_last(), parses));
    let front = blocks_stripped_with(blocks.drop_last(), parses);
    match block_outcome(blocks.last(), parses[blocks.len() - 1]) {
        Some(left) => {
            assert(front + seq![left] =~= front.push(left));
        },
        None => {},
    }
}

/// Order: whatever the parser returned, every block that is left is the
/// outcome of one block of the field, and the blocks that are left stand at
/// rising positions: none is moved, doubled or made up.
pub proof fn lemma_blocks_left_stand_at_rising_positions(
    blocks: Seq<BlockView>,
    parses: Seq<Option<Seq<EntryView>>>,
)
    ensures
        left_positions(blocks, parses).len() == blocks_stripped_with(blocks, parses).len(),
        forall|j: int|
            0 <= j < left_positions(blocks, parses).len() ==> {
                let at = #[trigger] left_positions(blocks, parses)[j];
                &&& 0 <= at < blocks.len()
                &&& block_outcome(blocks[at], parses[at]) == Some(
                    blocks_stripped_with(blocks, parses)[j],
                )
            },
        forall|j: int, k: int|
            0 <= j < k < left_positions(blocks, parses).len() ==> #[trigger] left_positions(
                blocks,
                parses,
            )[j] < #[trigger] left_positions(blocks, parses)[k],
        forall|i: int|
            0 <= i < blocks.len() && block_outcome(#[trigger] blocks[i], parses[i]) is Some
                ==> left_positions(blocks, parses).contains(i),
    decreases blocks.len(),
{
    if blocks.len() > 0 {
        let front = blocks.drop_last();
        lemma_stripped_with_unfolds(blocks, parses);
        lemma_blocks_left_stand_at_rising_positions(front, parses);
        let positions = left_positions(blocks, parses);
        assert forall|i: int|
            0 <= i < blocks.len() && block_outcome(
                #[trigger] blocks[i],
                parses[i],
            ) is Some implies positions.contains(i) by {
            if i < blocks.len() - 1 {
                assert(front[i] == blocks[i]);
                assert(left_positions(front, parses).contains(i));
                let j = choose|j: int|
                    0 <= j < left_positions(front, parses).len() && left_positions(
                        front,
                        parses,
                    )[j] == i;
                assert(positions[j] == i);
            } else {
                assert(positions[positions.len() - 1] == i);
            }
        }
        assert forall|j: int| 0 <= j < positions.len() implies {
            let at = #[trigger] positions[j];
            &&& 0 <= at < blocks.len()
            &&& block_outcome(blocks[at], parses[at]) == Some(
                blocks_stripped_with(blocks, parses)[j],
            )
        } by {
            if j < left_positions(front, parses).len() {
                let at = left_positions(front, parses)[j];
                assert(front[at] == blocks[at]);
            }
        }
    } else {
        assert(blocks_stripped_with(blocks, parses) =~= Seq::<BlockView>::empty());
    }
}

/// Blocks among which none is recognized come out of the rewrite unchanged,
/// whatever the parser would return.
pub proof fn lemma_unrecognized_blocks_stay(
    blocks: Seq<BlockView>,
    parses: Seq<Option<Seq<EntryView>>>,
)
    requires
        free_of_recognized(blocks),
    ensures
        blocks_stripped_with(blocks, parses) == blocks,
    decreases blocks.len(),
{
    if blocks.len() > 0 {
        lemma_stripped_with_unfolds(blocks, parses);
        assert(!is_recognized(blocks[blocks.len() - 1]));
        assert forall|i: int| 0 <= i < blocks.drop_last().len() implies !is_recognized(
            #[trigger] blocks.drop_last()[i],
        ) by {
            assert(blocks.drop_last()[i] == blocks[i]);
        }
        lemma_unrecognized_blocks_stay(blocks.drop_last(), parses);
        assert(blocks.drop_last().push(blocks.last()) =~= blocks);
    } else {
        assert(blocks_stripped_with(blocks, parses) =~= blocks);
    }
}

/// A field set without recognized blocks comes out of the rewrite unchanged.
pub proof fn lemma_fields_without_recognized_blocks_stay(
    before: FieldSetView,
    after: FieldSetView,
)
    requires
        fields_free_of_recognized(before),
        fields_processed(before, after),
    ensures
        after == before,
{
    let list = fields_of(before);
    let left = fields_of(after);
    assert forall|i: int| 0 <= i < list.len() implies left[i] == list[i] by {
        assert(field_stripped(list[i], left[i]));
        let parses = choose|parses: Seq<Option<Seq<EntryView>>>|
            parses.len() == list[i].blocks.len() && left[i].blocks
                == #[trigger] blocks_stripped_with(list[i].blocks, parses);
        lemma_unrecognized_blocks_stay(list[i].blocks, parses);
    }
    assert(left =~= list);
}

/// Absence: a definition in which no field has a block of the recognized
/// namespace is returned as it was.
pub proof fn lemma_nothing_recognized_nothing_changed(
    before: DefinitionView,
    after: DefinitionView,
)
    requires
        definition_free_of_recognized(before),
        definition_erased(before, after),
    ensures
        after == before,
{
    match before {
        DefinitionView::Record(fields) => {
            lemma_fields_without_recognized_blocks_stay(fields, after->Record_0);
        },
        DefinitionView::TaggedUnion(cases) => {
            let left = after->TaggedUnion_0;
            assert forall|c: int| 0 <= c < cases.len() implies left[c] == cases[c] by {
                assert(case_erased(cases[c], left[c]));
                lemma_fields_without_recognized_blocks_stay(cases[c].fields, left[c].fields);
            }
            assert(left =~= cases);
        },
        DefinitionView::Opaque(_) => {},
    }
}

/// The positions, in the list as it was read, of the entries that are kept.
pub open spec fn kept_positions(entries: Seq<EntryView>) -> Seq<int>
    decreases entries.len(),
{
    if entries.len() == 0 {
        Seq::empty()
    } else if is_target(entries.last()) {
        kept_positions(entries.drop_last())
    } else {
        kept_positions(entries.drop_last()).push(entries.len() - 1)
    }
}

/// Removal: no kept entry is a target, and the kept entries are exactly the
/// entries that are no target, each once, in the order in which they stood.
pub proof fn lemma_kept_entries_are_the_others_in_order(entries: Seq<EntryView>)
    ensures
        forall|j: int| 0 <= j < kept_entries(entries).len() ==> !is_target(
            #[trigger] kept_entries(entries)[j],
        ),
        kept_positions(entries).len() == kept_entries(entries).len(),
        forall|j: int|
            0 <= j < kept_positions(entries).len() ==> 0 <= #[trigger] kept_positions(entries)[j]
                < entries.len() && kept_entries(entries)[j] == entries[kept_positions(
                entries,
            )[j]],
        forall|j: int, k: int|
            0 <= j < k < kept_positions(entries).len() ==> #[trigger] kept_positions(entries)[j]
                < #[trigger] kept_positions(entries)[k],
        forall|i: int|
            0 <= i < entries.len() && !is_target(#[trigger] entries[i]) ==> kept_positions(
                entries,
            ).contains(i),
    decreases entries.len(),
{
    lemma_kept_entries_step(entries);
    if entries.len() > 0 {
        let front = entries.drop_last();
        lemma_kept_entries_are_the_others_in_order(front);
        let positions = kept_positions(entries);
        assert forall|i: int| 0 <= i < entries.len() && !is_target(
            #[trigger] entries[i],
        ) implies positions.contains(i) by {
            if i < entries.len() - 1 {
                assert(front[i] == entries[i]);
                assert(kept_positions(front).contains(i));
                let j = choose|j: int|
                    0 <= j < kept_positions(front).len() && kept_positions(front)[j] == i;
                assert(positions[j] == i);
            } else {
                assert(positions[positions.len() - 1] == i);
            }
        }
    }
}

/// Removal, of a block: where the content parsed to entries of which some
/// are no target, the block keeps its namespace and the rest of it, and its
/// content becomes the kept entries, written in order.
pub proof fn lemma_targets_leave_the_block(block: BlockView, entries: Seq<EntryView>)
    requires
        exists|i: int| 0 <= i < entries.len() && !is_target(#[trigger] entries[i]),
    ensures
        block_rewritten_with(block, Some(entries)) == Some(
            BlockView {
                namespace: block.namespace,
                content: Some(rendered_entries(kept_entries(entries))),
                rest: block.rest,
            },
        ),
        is_parsed(block) ==> block_outcome(block, Some(entries)) == block_rewritten_with(
            block,
            Some(entries),
        ),
{
    lemma_kept_entries_are_the_others_in_order(entries);
    let i = choose|i: int| 0 <= i < entries.len() && !is_target(#[trigger] entries[i]);
    assert(kept_positions(entries).contains(i));
}

/// The entries are the target directive and nothing else.
pub open spec fn only_targets(entries: Seq<EntryView>) -> bool {
    forall|i: int| 0 <= i < entries.len() ==> is_target(#[trigger] entries[i])
}

/// Where every entry is a target, none is kept.
pub proof fn lemma_only_targets_keep_nothing(entries: Seq<EntryView>)
    requires
        only_targets(entries),
    ensures
        kept_entries(entries).len() == 0,
    decreases entries.len(),
{
    lemma_kept_entries_step(entries);
    if entries.len() > 0 {
        assert(is_target(entries[entries.len() - 1]));
        assert forall|i: int| 0 <= i < entries.drop_last().len() implies is_target(
            #[trigger] entries.drop_last()[i],
        ) by {
            assert(entries.drop_last()[i] == entries[i]);
        }
        lemma_only_targets_keep_nothing(entries.drop_last());
    }
}

/// Deletion: a block whose content parsed to the target directive and nothing
/// else, once or several times, is deleted.
pub proof fn lemma_block_of_targets_is_deleted(block: BlockView, entries: Seq<EntryView>)
    requires
        only_targets(entries),
    ensures
        block_rewritten_with(block, Some(entries)) is None,
        is_parsed(block) ==> block_outcome(block, Some(entries)) is None,
{
    lemma_only_targets_keep_nothing(entries);
}

/// Deletion, of a field: where every recognized block of a field has a list
/// that parsed to the target directive and nothing else, the field is left
/// without any block of the recognized namespace.
pub proof fn lemma_field_of_targets_loses_its_recognized_blocks(
    blocks: Seq<BlockView>,
    parses: Seq<Option<Seq<EntryView>>>,
)
    requires
        forall|i: int|
            0 <= i < blocks.len() && is_recognized(#[trigger] blocks[i]) ==> {
                &&& blocks[i].content is Some
                &&& parses[i] matches Some(entries)
                &&& only_targets(entries)
            },
    ensures
        free_of_recognized(blocks_stripped_with(blocks, parses)),
    decreases blocks.len(),
{
    if blocks.len() > 0 {
        lemma_stripped_with_unfolds(blocks, parses);
        let front = blocks.drop_last();
        assert forall|i: int| 0 <= i < front.len() && is_recognized(#[trigger] front[i]) implies {
            &&& front[i].content is Some
            &&& parses[i] matches Some(entries)
            &&& only_targets(entries)
        } by {
            assert(front[i] == blocks[i]);
        }
        lemma_field_of_targets_loses_its_recognized_blocks(front, parses);
        let last = blocks[blocks.len() - 1];
        if is_recognized(last) {
            lemma_only_targets_keep_nothing(parses[blocks.len() - 1]->0);
        }
    } else {
        assert(blocks_stripped_with(blocks, parses) =~= Seq::<BlockView>::empty());
    }
}

/// Other namespaces: a block whose namespace is not the recognized one comes
/// out as it went in, whatever the parser would return for it.
pub proof fn lemma_other_namespace_is_preserved(block: BlockView, parsed: Option<Seq<EntryView>>)
    requires
        !is_recognized(block),
    ensures
        block_outcome(block, parsed) == Some(block),
{
}

/// The blocks of other namespaces, in order.
pub open spec fn unrecognized_blocks(blocks: Seq<BlockView>) -> Seq<BlockView>
    decreases blocks.len(),
{
    if blocks.len() == 0 {
        Seq::empty()
    } else if is_recognized(blocks.last()) {
        unrecognized_blocks(blocks.drop_last())
    } else {
        unrecognized_blocks(blocks.drop_last()).push(blocks.last())
    }
}

/// Other namespaces, of a field: whatever happens to the recognized blocks
/// between them, the blocks of other namespaces are all still there after
/// the rewrite, unchanged and in the order in which they stood.
pub proof fn lemma_other_namespaces_survive_in_order(
    blocks: Seq<BlockView>,
    parses: Seq<Option<Seq<EntryView>>>,
)
    ensures
        unrecognized_blocks(blocks_stripped_with(blocks, parses)) == unrecognized_blocks(blocks),
    decreases blocks.len(),
{
    if blocks.len() > 0 {
        lemma_stripped_with_unfolds(blocks, parses);
        lemma_other_namespaces_survive_in_order(blocks.drop_last(), parses);
        let front = blocks_stripped_with(blocks.drop_last(), parses);
        match block_outcome(blocks.last(), parses[blocks.len() - 1]) {
            Some(left) => {
                assert(front.push(left).drop_last() =~= front);
                assert(left.namespace == blocks.last().namespace);
            },
            None => {},
        }
    } else {
        assert(blocks_stripped_with(blocks, parses) =~= Seq::<BlockView>::empty());
    }
}

/// Other namespaces, whatever the parser returned: a field after the rewrite
/// has the rest it had and no more blocks than it had, and its blocks of
/// other namespaces are those it had, unchanged and in order.
pub proof fn lemma_stripped_field_keeps_what_is_not_recognized(
    before: FieldView,
    after: FieldView,
)
    requires
        field_stripped(before, after),
    ensures
        after.rest == before.rest,
        after.blocks.len() <= before.blocks.len(),
        unrecognized_blocks(after.blocks) == unrecognized_blocks(before.blocks),
{
    let parses = choose|parses: Seq<Option<Seq<EntryView>>>|
        parses.len() == before.blocks.len() && after.blocks == #[trigger] blocks_stripped_with(
            before.blocks,
            parses,
        );
    lemma_other_namespaces_survive_in_order(before.blocks, parses);
    lemma_blocks_left_stand_at_rising_positions(before.blocks, parses);
    let positions = left_positions(before.blocks, parses);
    lemma_rising_positions_are_few(positions, before.blocks.len() as int);
}

/// Positions that rise strictly below a bound are no more than the bound.
proof fn lemma_rising_positions_are_few(positions: Seq<int>, bound: int)
    requires
        forall|j: int| 0 <= j < positions.len() ==> 0 <= #[trigger] positions[j] < bound,
        forall|j: int, k: int|
            0 <= j < k < positions.len() ==> #[trigger] positions[j] < #[trigger] positions[k],
    ensures
        positions.len() <= bound || positions.len() == 0,
    decreases positions.len(),
{
    if positions.len() > 0 {
        let front = positions.drop_last();
        let last = positions[positions.len() - 1];
        assert forall|j: int| 0 <= j < front.len() implies 0 <= #[trigger] front[j] < last by {
            assert(front[j] == positions[j]);
        }
        assert forall|j: int, k: int| 0 <= j < k < front.len() implies #[trigger] front[j]
            < #[trigger] front[k] by {
            assert(front[j] == positions[j]);
            assert(front[k] == positions[k]);
        }
        lemma_rising_positions_are_few(front, last);
    }
}

/// Malformed content: a recognized block whose content did not parse, or
/// which has no delimited list at all, comes out as it went in.
pub proof fn lemma_malformed_block_is_preserved(block: BlockView, parsed: Option<Seq<EntryView>>)
    requires
        is_recognized(block),
        block.content is Some ==> parsed is None,
    ensures
        block_outcome(block, parsed) == Some(block),
{
}

/// Shapes: whatever the form of a field set, the rewrite keeps the form, the
/// number of fields and their order, and hands every field to the metadata
/// rewrite.
pub proof fn lemma_every_field_is_rewritten(before: FieldSetView, after: FieldSetView)
    requires
        fields_processed(before, after),
    ensures
        before is Named <==> after is Named,
        before is Positional <==> after is Positional,
        before is Empty <==> after is Empty,
        fields_of(after).len() == fields_of(before).len(),
        forall|i: int|
            0 <= i < fields_of(before).len() ==> field_stripped(
                fields_of(before)[i],
                #[trigger] fields_of(after)[i],
            ),
        forall|i: int|
            0 <= i < fields_of(before).len() ==> (#[trigger] fields_of(after)[i]).rest
                == fields_of(before)[i].rest,
{
    assert(fields_stripped(fields_of(before), fields_of(after)));
}

/// Shapes, of a definition: a record stays a record and a tagged union a
/// tagged union with the same cases in the same order under the same names,
/// and the fields of the record and of every case, in whatever form, are
/// processed.
pub proof fn lemma_every_shape_is_covered(before: DefinitionView, after: DefinitionView)
    requires
        definition_erased(before, after),
    ensures
        before is Record <==> after is Record,
        before is TaggedUnion <==> after is TaggedUnion,
        before is Opaque <==> after is Opaque,
        before matches DefinitionView::Record(fields) ==> fields_processed(
            fields,
            after->Record_0,
        ),
        before matches DefinitionView::TaggedUnion(cases) ==> {
            &&& after->TaggedUnion_0.len() == cases.len()
            &&& forall|c: int|
                0 <= c < cases.len() ==> (#[trigger] after->TaggedUnion_0[c]).name == cases[c].name
                    && fields_processed(cases[c].fields, after->TaggedUnion_0[c].fields)
        },
{
    match before {
        DefinitionView::TaggedUnion(cases) => {
            assert(cases_erased(cases, after->TaggedUnion_0));
        },
        _ => {},
    }
}

/// Unknown shapes: a construct that is neither a record nor a tagged union
/// is returned unchanged.
pub proof fn lemma_opaque_is_passed_through(before: DefinitionView, after: DefinitionView)
    requires
        before is Opaque,
        definition_erased(before, after),
    ensures
        after == before,
{
}

} // verus!
