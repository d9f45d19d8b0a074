//! The tree of a type definition, as far as the rewrite reads it, and the
//! mathematical view of each of its parts.

use vstd::prelude::*;

verus! {

/// One directive inside a metadata block.
#[derive(Clone, Debug, PartialEq, Eq)]
pub enum MetadataEntry {
    /// An entry that is no pair: a bare flag such as `default`, or a name with
    /// a nested list such as `bound(..)`, kept as its text.
    Flag(String),
    /// A pair `key = value`; the value is the text of its expression.
    KeyValue(String, String),
}

/// A namespaced block of directives attached to a field.
#[derive(Clone, Debug, PartialEq, Eq)]
pub struct MetadataBlock {
    /// The tag in front of the block, such as `serde` or `doc`.
    pub namespace: String,
    /// The raw text between the block's delimiters; `None` where the block
    /// is written without a delimited list.
    pub content: Option<String>,
    /// Whatever else the block is written with. Never read, never changed.
    pub rest: String,
}

/// A field: its metadata blocks in order, and the rest of it.
#[derive(Clone, Debug, PartialEq, Eq)]
pub struct Field {
    pub blocks: Vec<MetadataBlock>,
    /// Name, declared type, visibility and the like. Never read, never changed.
    pub rest: String,
}

/// The fields of a record or of one case of a tagged union.
#[derive(Clone, Debug, PartialEq, Eq)]
pub enum FieldSet {
    Named(Vec<Field>),
    Positional(Vec<Field>),
    Empty,
}

/// One alternative of a tagged union.
#[derive(Clone, Debug, PartialEq, Eq)]
pub struct Case {
    pub name: String,
    pub fields: FieldSet,
}

/// A type definition, by shape.
#[derive(Clone, Debug, PartialEq, Eq)]
pub enum TypeDefinition {
    Record(FieldSet),
    TaggedUnion(Vec<Case>),
    /// Any other construct, held as its text.
    Opaque(String),
}

pub enum EntryView {
    Flag(Seq<char>),
    KeyValue(Seq<char>, Seq<char>),
}

pub struct BlockView {
    pub namespace: Seq<char>,
    pub content: Option<Seq<char>>,
    pub rest: Seq<char>,
}

pub struct FieldView {
    pub blocks: Seq<BlockView>,
    pub rest: Seq<char>,
}

pub enum FieldSetView {
    Named(Seq<FieldView>),
    Positional(Seq<FieldView>),
    Empty,
}

pub struct CaseView {
    pub name: Seq<char>,
    pub fields: FieldSetView,
}

pub enum DefinitionView {
    Record(FieldSetView),
    TaggedUnion(Seq<CaseView>),
    Opaque(Seq<char>),
}

impl View for MetadataEntry {
    type V = EntryView;

    open spec fn view(&self) -> EntryView {
        match *self {
            MetadataEntry::Flag(text) => EntryView::Flag(text@),
            MetadataEntry::KeyValue(key, value) => EntryView::KeyValue(key@, value@),
        }
    }
}

impl View for MetadataBlock {
    type V = BlockView;

    open spec fn view(&self) -> BlockView {
        BlockView {
            namespace: self.namespace@,
            content: match self.content {
                Some(text) => Some(text@),
                None => None,
            },
            rest: self.rest@,
        }
    }
}

impl View for Field {
    type V = FieldView;

    open spec fn view(&self) -> FieldView {
        FieldView { blocks: blocks_view(self.blocks@), rest: self.rest@ }
    }
}

impl View for FieldSet {
    type V = FieldSetView;

    open spec fn view(&self) -> FieldSetView {
        match *self {
            FieldSet::Named(fields) => FieldSetView::Named(fields_view(fields@)),
            FieldSet::Positional(fields) => FieldSetView::Positional(fields_view(fields@)),
            FieldSet::Empty => FieldSetView::Empty,
        }
    }
}

impl View for Case {
    type V = CaseView;

    open spec fn view(&self) -> CaseView {
        CaseView { name: self.name@, fields: self.fields@ }
    }
}

impl View for TypeDefinition {
    type V = DefinitionView;

    open spec fn view(&self) -> DefinitionView {
        match *self {
            TypeDefinition::Record(fields) => DefinitionView::Record(fields@),
            TypeDefinition::TaggedUnion(cases) => DefinitionView::TaggedUnion(cases_view(cases@)),
            TypeDefinition::Opaque(text) => DefinitionView::Opaque(text@),
        }
    }
}

/// The views of a sequence of entries, in order.
pub open spec fn entries_view(entries: Seq<MetadataEntry>) -> Seq<EntryView> {
    entries.map_values(|entry: MetadataEntry| entry@)
}

/// The views of a sequence of blocks, in order.
pub open spec fn blocks_view(blocks: Seq<MetadataBlock>) -> Seq<BlockView> {
    blocks.map_values(|block: MetadataBlock| block@)
}

/// The views of a sequence of fields, in order.
pub open spec fn fields_view(fields: Seq<Field>) -> Seq<FieldView> {
    fields.map_values(|field: Field| field@)
}

/// The views of a sequence of cases, in order.
pub open spec fn cases_view(cases: Seq<Case>) -> Seq<CaseView> {
    cases.map_values(|case: Case| case@)
}

} // verus!
