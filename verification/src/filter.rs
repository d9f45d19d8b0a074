//! The rewrite of one field's metadata: which entries go, what a block
//! becomes, and what is left of a field's blocks.

use crate::model::{
    blocks_view, entries_view, BlockView, EntryView, Field, FieldView, MetadataBlock,
    MetadataEntry,
};
use crate::parse::parse_entries;
use vstd::prelude::*;

verus! {

/// The namespace of the blocks that are rewritten; all others pass through.
pub const RECOGNIZED_NAMESPACE: &'static str = "serde";

/// The key of the entries that are removed.
pub const TARGET_DIRECTIVE: &'static str = "skip_serializing_if";

/// An entry is a target when it is a pair whose key is the target directive.
pub open spec fn is_target(entry: EntryView) -> bool {
    match entry {
        EntryView::Flag(_) => false,
        EntryView::KeyValue(key, _) => key == TARGET_DIRECTIVE@,
    }
}

/// The entries that are no target, in the order in which they stood.
pub open spec fn kept_entries(entries: Seq<EntryView>) -> Seq<EntryView> {
    entries.filter(|entry: EntryView| !is_target(entry))
}

/// How the kept entries grow with the list: the last entry is added to what
/// is kept of those before it, unless it is a target.
pub proof fn lemma_kept_entries_step(entries: Seq<EntryView>)
    ensures
        entries.len() == 0 ==> kept_entries(entries) == Seq::<EntryView>::empty(),
        entries.len() > 0 && is_target(entries.last()) ==> kept_entries(entries) == kept_entries(
            entries.drop_last(),
        ),
        entries.len() > 0 && !is_target(entries.last()) ==> kept_entries(entries) == kept_entries(
            entries.drop_last(),
        ).push(entries.last()),
{
    reveal(Seq::filter);
}

/// The text of one entry: a flag as it is, a pair as `key = value`.
pub open spec fn rendered_entry(entry: EntryView) -> Seq<char> {
    match entry {
        EntryView::Flag(text) => text,
        EntryView::KeyValue(key, value) => key + " = "@ + value,
    }
}

/// The text of an entry list: the entries in order, `, ` between them.
pub open spec fn rendered_entries(entries: Seq<EntryView>) -> Seq<char>
    decreases entries.len(),
{
    if entries.len() == 0 {
        Seq::empty()
    } else if entries.len() == 1 {
        rendered_entry(entries[0])
    } else {
        rendered_entries(entries.drop_last()) + ", "@ + rendered_entry(entries.last())
    }
}

impl MetadataEntry {
    /// Whether this entry is a pair keyed by the target directive.
    pub fn is_target(&self) -> (target: bool)
        ensures
            target == is_target(self@),
    {
        match self {
            MetadataEntry::Flag(_) => false,
            MetadataEntry::KeyValue(key, _) => *key == TARGET_DIRECTIVE.to_owned(),
        }
    }

    /// An equal entry of its own.
    pub fn copy(&self) -> (entry: MetadataEntry)
        ensures
            entry == *self,
    {
        match self {
            MetadataEntry::Flag(text) => MetadataEntry::Flag(text.clone()),
            MetadataEntry::KeyValue(key, value) => MetadataEntry::KeyValue(
                key.clone(),
                value.clone(),
            ),
        }
    }

    /// The text of this entry in the host syntax.
    pub fn render(&self) -> (text: String)
        ensures
            text@ == rendered_entry(self@),
    {
        match self {
            MetadataEntry::Flag(text) => text.clone(),
            MetadataEntry::KeyValue(key, value) => {
                let mut text = key.clone();
                text.append(" = ");
                text.append(value.as_str());
                text
            },
        }
    }
}

/// Drops every target entry and keeps the others in order.
pub fn filter_entries(entries: &Vec<MetadataEntry>) -> (kept: Vec<MetadataEntry>)
    ensures
        entries_view(kept@) == kept_entries(entries_view(entries@)),
{
    let ghost all = entries_view(entries@);
    let mut kept: Vec<MetadataEntry> = Vec::new();
    let mut i: usize = 0;
    proof {
        lemma_kept_entries_step(all.take(0));
    }
    while i < entries.len()
        invariant
            i <= entries@.len(),
            all == entries_view(entries@),
            entries_view(kept@) == kept_entries(all.take(i as int)),
        decreases entries@.len() - i,
    {
        proof {
            assert(all.take(i + 1).drop_last() =~= all.take(i as int));
            assert(all.take(i + 1).last() == entries@[i as int]@);
            lemma_kept_entries_step(all.take(i + 1));
        }
        if !entries[i].is_target() {
            let entry = entries[i].copy();
            proof {
                assert(entries_view(kept@.push(entry)) =~= entries_view(kept@).push(entry@));
            }
            kept.push(entry);
        }
        i += 1;
    }
    proof {
        assert(all.take(i as int) =~= all);
    }
    kept
}

/// Writes an entry list in the host syntax.
pub fn render_entries(entries: &Vec<MetadataEntry>) -> (text: String)
    ensures
        text@ == rendered_entries(entries_view(entries@)),
{
    let ghost all = entries_view(entries@);
    let mut text = String::new();
    let mut i: usize = 0;
    while i < entries.len()
        invariant
            i <= entries@.len(),
            all == entries_view(entries@),
            text@ == rendered_entries(all.take(i as int)),
        decreases entries@.len() - i,
    {
        proof {
            assert(all.take(i + 1).drop_last() =~= all.take(i as int));
            assert(all.take(i + 1).last() == entries@[i as int]@);
            assert(all.take(i + 1)[0] == all.take(i + 1).last() || i > 0);
        }
        if i > 0 {
            text.append(", ");
        }
        let entry = entries[i].render();
        text.append(entry.as_str());
        proof {
            assert(Seq::<char>::empty() + entry@ =~= entry@);
        }
        i += 1;
    }
    proof {
        assert(all.take(i as int) =~= all);
    }
    text
}

/// Whether the block carries the recognized namespace.
pub open spec fn is_recognized(block: BlockView) -> bool {
    block.namespace == RECOGNIZED_NAMESPACE@
}

/// Whether the content of the block is handed to the parser: the block
/// carries the recognized namespace and is written with a delimited list.
pub open spec fn is_parsed(block: BlockView) -> bool {
    is_recognized(block) && block.content is Some
}

/// What a block whose content was handed to the parser becomes, given what
/// the parser returned: itself where the content did not parse, nothing where
/// no entry is kept, else the block with the kept entries as its content.
pub open spec fn block_rewritten_with(
    block: BlockView,
    parsed: Option<Seq<EntryView>>,
) -> Option<BlockView> {
    match parsed {
        None => Some(block),
        Some(entries) => {
            let kept = kept_entries(entries);
            if kept.len() == 0 {
                None
            } else {
                Some(
                    BlockView {
                        namespace: block.namespace,
                        content: Some(rendered_entries(kept)),
                        rest: block.rest,
                    },
                )
            }
        },
    }
}

/// What any block becomes, `None` where it is deleted: a block of another
/// namespace, or one without a delimited list, stays as it is, whatever
/// `parsed` holds; any other block is rewritten with `parsed`.
pub open spec fn block_outcome(block: BlockView, parsed: Option<Seq<EntryView>>) -> Option<
    BlockView,
> {
    if is_parsed(block) {
        block_rewritten_with(block, parsed)
    } else {
        Some(block)
    }
}

/// The outcome of every block, position by position, where `parses[i]` is
/// what the parser returned for the block at `i`.
pub open spec fn block_outcomes(
    blocks: Seq<BlockView>,
    parses: Seq<Option<Seq<EntryView>>>,
) -> Seq<Option<BlockView>> {
    Seq::new(blocks.len(), |i: int| block_outcome(blocks[i], parses[i]))
}

/// The blocks of a field after the rewrite, given what the parser returned
/// for each: the outcomes in order, without the deleted ones.
pub open spec fn blocks_stripped_with(
    blocks: Seq<BlockView>,
    parses: Seq<Option<Seq<EntryView>>>,
) -> Seq<BlockView> {
    block_outcomes(blocks, parses).filter_map(|outcome: Option<BlockView>| outcome)
}

/// `after` is what the rewrite makes of `before` for some outcome of the
/// parser on each block.
pub open spec fn blocks_stripped(before: Seq<BlockView>, after: Seq<BlockView>) -> bool {
    exists|parses: Seq<Option<Seq<EntryView>>>|
        parses.len() == before.len() && after == #[trigger] blocks_stripped_with(before, parses)
}

/// `after` is the field `before` after the rewrite: its blocks stripped, the
/// rest of it untouched.
pub open spec fn field_stripped(before: FieldView, after: FieldView) -> bool {
    after.rest == before.rest && blocks_stripped(before.blocks, after.blocks)
}

/// How the stripped blocks grow with the list: the outcome of one more block
/// is added to what is left of those before it, unless the block is deleted.
pub proof fn lemma_blocks_stripped_with_step(
    blocks: Seq<BlockView>,
    parses: Seq<Option<Seq<EntryView>>>,
    block: BlockView,
    parsed: Option<Seq<EntryView>>,
)
    requires
        parses.len() == blocks.len(),
    ensures
        blocks_stripped_with(blocks.push(block), parses.push(parsed)) == match block_outcome(
            block,
            parsed,
        ) {
            Some(left) => blocks_stripped_with(blocks, parses).push(left),
            None => blocks_stripped_with(blocks, parses),
        },
{
    let longer = block_outcomes(blocks.push(block), parses.push(parsed));
    assert(longer.drop_last() =~= block_outcomes(blocks, parses));
    assert(longer.last() == block_outcome(block, parsed));
    let front = blocks_stripped_with(blocks, parses);
    match block_outcome(block, parsed) {
        Some(left) => {
            assert(front + seq![left] =~= front.push(left));
        },
        None => {},
    }
}

impl MetadataBlock {
    /// An equal block of its own.
    pub fn copy(&self) -> (block: MetadataBlock)
        ensures
            block == *self,
    {
        MetadataBlock {
            namespace: self.namespace.clone(),
            content: match &self.content {
                Some(text) => Some(text.clone()),
                None => None,
            },
            rest: self.rest.clone(),
        }
    }

    /// Whether this block carries the recognized namespace.
    pub fn is_recognized(&self) -> (recognized: bool)
        ensures
            recognized == is_recognized(self@),
    {
        self.namespace == RECOGNIZED_NAMESPACE.to_owned()
    }
}

/// Rewrites a block whose content was handed to the parser, given what the
/// parser returned: `None` for a content that did not parse.
pub fn rewrite_block(block: &MetadataBlock, parsed: Option<Vec<MetadataEntry>>) -> (rewritten:
    Option<MetadataBlock>)
    ensures
        block_view(rewritten) == block_rewritten_with(block@, parse_view(parsed)),
{
    match parsed {
        None => Some(block.copy()),
        Some(entries) => {
            let kept = filter_entries(&entries);
            if kept.len() == 0 {
                None
            } else {
                Some(
                    MetadataBlock {
                        namespace: block.namespace.clone(),
                        content: Some(render_entries(&kept)),
                        rest: block.rest.clone(),
                    },
                )
            }
        },
    }
}

/// The views of an optional entry list.
pub open spec fn parse_view(parsed: Option<Vec<MetadataEntry>>) -> Option<Seq<EntryView>> {
    match parsed {
        Some(entries) => Some(entries_view(entries@)),
        None => None,
    }
}

/// The view of an optional block.
pub open spec fn block_view(block: Option<MetadataBlock>) -> Option<BlockView> {
    match block {
        Some(block) => Some(block@),
        None => None,
    }
}

/// Rewrites one block: hands the content of a recognized block to the
/// parser, removes the target entries and writes the others back; `None`
/// where none is left. What the parser makes of a content is not fixed here:
/// the block comes back rewritten with whatever the parser returned.
pub fn strip_block(block: &MetadataBlock) -> (rewritten: Option<MetadataBlock>)
    ensures
        !is_parsed(block@) ==> block_view(rewritten) == Some(block@),
        is_parsed(block@) ==> exists|parsed: Option<Seq<EntryView>>|
            block_view(rewritten) == #[trigger] block_rewritten_with(block@, parsed),
{
    if !block.is_recognized() {
        return Some(block.copy());
    }
    match &block.content {
        None => Some(block.copy()),
        Some(text) => {
            let parsed = parse_entries(text.as_str());
            let ghost witness = parse_view(parsed);
            let rewritten = rewrite_block(block, parsed);
            assert(block_view(rewritten) == block_rewritten_with(block@, witness));
            rewritten
        },
    }
}

/// Rewrites the metadata of one field in place: every block, in order, is
/// kept, rewritten or deleted as `strip_block` has it.
pub fn strip_field(field: &mut Field)
    ensures
        field_stripped(old(field)@, final(field)@),
{
    let ghost all = blocks_view(field.blocks@);
    let ghost mut parses: Seq<Option<Seq<EntryView>>> = Seq::empty();
    let mut blocks: Vec<MetadataBlock> = Vec::new();
    let mut i: usize = 0;
    proof {
        assert(all.take(0) =~= Seq::<BlockView>::empty());
        assert(blocks_stripped_with(all.take(0), parses) =~= Seq::<BlockView>::empty());
    }
    while i < field.blocks.len()
        invariant
            i <= field.blocks@.len(),
            *field == *old(field),
            all == blocks_view(field.blocks@),
            parses.len() == i,
            blocks_view(blocks@) == blocks_stripped_with(all.take(i as int), parses),
        decreases field.blocks@.len() - i,
    {
        let rewritten = strip_block(&field.blocks[i]);
        proof {
            let block = field.blocks@[i as int]@;
            let parsed = if is_parsed(block) {
                choose|parsed: Option<Seq<EntryView>>|
                    block_view(rewritten) == #[trigger] block_rewritten_with(block, parsed)
            } else {
                None
            };
            assert(block_view(rewritten) == block_outcome(block, parsed));
            assert(all.take(i + 1) =~= all.take(i as int).push(block));
            lemma_blocks_stripped_with_step(all.take(i as int), parses, block, parsed);
            parses = parses.push(parsed);
        }
        match rewritten {
            Some(block) => {
                proof {
                    assert(blocks_view(blocks@.push(block)) =~= blocks_view(blocks@).push(block@));
                }
                blocks.push(block);
            },
            None => {},
        }
        i += 1;
    }
    proof {
        assert(all.take(i as int) =~= all);
    }
    field.blocks = blocks;
}

} // verus!
