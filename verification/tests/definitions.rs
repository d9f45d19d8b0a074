use erase_serde_skip::dispatch::process_fields;
use erase_serde_skip::erase_skip_serializing_if;
use erase_serde_skip::model::{Case, Field, FieldSet, MetadataBlock, TypeDefinition};

fn block(namespace: &str, content: Option<&str>) -> MetadataBlock {
    MetadataBlock {
        namespace: namespace.to_string(),
        content: content.map(|text| text.to_string()),
        rest: String::new(),
    }
}

fn serde(content: &str) -> MetadataBlock {
    block("serde", Some(content))
}

fn field(rest: &str, blocks: Vec<MetadataBlock>) -> Field {
    Field { blocks, rest: rest.to_string() }
}

fn case(name: &str, fields: FieldSet) -> Case {
    Case { name: name.to_string(), fields }
}

const SKIP: &str = "skip_serializing_if = \"Option::is_none\"";

#[test]
fn without_recognized_blocks_nothing_changes() {
    let definition = TypeDefinition::TaggedUnion(vec![
        case(
            "Point",
            FieldSet::Named(vec![
                field("x: i32", vec![block("doc", None)]),
                field("y: i32", vec![block("cfg", Some("feature = \"y\"")), block("doc", None)]),
            ]),
        ),
        case("Pair", FieldSet::Positional(vec![field("u8", vec![]), field("u8", vec![])])),
        case("Nothing", FieldSet::Empty),
    ]);
    assert_eq!(erase_skip_serializing_if("", definition.clone()), definition);

    let record = TypeDefinition::Record(FieldSet::Named(vec![field(
        "id: u64",
        vec![block("serde_as", Some(SKIP))],
    )]));
    assert_eq!(erase_skip_serializing_if("", record.clone()), record);
}

#[test]
fn the_flag_beside_the_target_survives() {
    let input = TypeDefinition::Record(FieldSet::Named(vec![field(
        "id: Option<u64>",
        vec![serde("skip_serializing_if = \"Option::is_none\", default")],
    )]));
    let output = TypeDefinition::Record(FieldSet::Named(vec![field(
        "id: Option<u64>",
        vec![serde("default")],
    )]));
    assert_eq!(erase_skip_serializing_if("", input), output);
}

#[test]
fn a_block_of_two_targets_is_removed_entirely() {
    let input = TypeDefinition::Record(FieldSet::Named(vec![field(
        "id: Option<u64>",
        vec![serde("skip_serializing_if = \"A\", skip_serializing_if = \"B\"")],
    )]));
    let output =
        TypeDefinition::Record(FieldSet::Named(vec![field("id: Option<u64>", vec![])]));
    assert_eq!(erase_skip_serializing_if("", input), output);
}

#[test]
fn a_block_without_the_target_key_is_unchanged() {
    let input = TypeDefinition::Record(FieldSet::Named(vec![field(
        "id: Option<u64>",
        vec![serde("rename = \"id\"")],
    )]));
    assert_eq!(erase_skip_serializing_if("", input.clone()), input);
}

#[test]
fn every_shape_is_reached() {
    let named = || {
        FieldSet::Named(vec![
            field("a: u8", vec![]),
            field("b: Option<u8>", vec![block("doc", None), serde(SKIP)]),
        ])
    };
    let named_after = || {
        FieldSet::Named(vec![
            field("a: u8", vec![]),
            field("b: Option<u8>", vec![block("doc", None)]),
        ])
    };
    let positional = || {
        FieldSet::Positional(vec![
            field("Option<u8>", vec![serde("skip_serializing_if = \"Option::is_none\", default")]),
            field("u8", vec![]),
        ])
    };
    let positional_after = || {
        FieldSet::Positional(vec![field("Option<u8>", vec![serde("default")]), field("u8", vec![])])
    };

    assert_eq!(
        erase_skip_serializing_if("", TypeDefinition::Record(named())),
        TypeDefinition::Record(named_after())
    );
    assert_eq!(
        erase_skip_serializing_if("", TypeDefinition::Record(positional())),
        TypeDefinition::Record(positional_after())
    );
    assert_eq!(
        erase_skip_serializing_if("", TypeDefinition::Record(FieldSet::Empty)),
        TypeDefinition::Record(FieldSet::Empty)
    );
    assert_eq!(
        erase_skip_serializing_if(
            "",
            TypeDefinition::TaggedUnion(vec![
                case("Unit", FieldSet::Empty),
                case("Struct", named()),
                case("Tuple", positional()),
                case("Again", named()),
            ])
        ),
        TypeDefinition::TaggedUnion(vec![
            case("Unit", FieldSet::Empty),
            case("Struct", named_after()),
            case("Tuple", positional_after()),
            case("Again", named_after()),
        ])
    );
}

#[test]
fn a_union_without_cases_stays_so() {
    assert_eq!(
        erase_skip_serializing_if("", TypeDefinition::TaggedUnion(vec![])),
        TypeDefinition::TaggedUnion(vec![])
    );
}

#[test]
fn an_unknown_shape_is_handed_back() {
    let text = "union Bits { #[serde(skip_serializing_if = \"f\")] a: u32, b: f32 }";
    assert_eq!(
        erase_skip_serializing_if("", TypeDefinition::Opaque(text.to_string())),
        TypeDefinition::Opaque(text.to_string())
    );
}

#[test]
fn the_arguments_of_the_marker_are_not_read() {
    let input = || TypeDefinition::Record(FieldSet::Positional(vec![field("u8", vec![serde(SKIP)])]));
    assert_eq!(
        erase_skip_serializing_if("keep = \"everything\"", input()),
        erase_skip_serializing_if("", input())
    );
}

#[test]
fn fields_keep_their_number_and_order() {
    let mut fields = FieldSet::Named(vec![
        field("first: u8", vec![serde(SKIP)]),
        field("second: u8", vec![]),
        field("third: u8", vec![serde(SKIP), serde(SKIP)]),
    ]);
    process_fields(&mut fields);
    assert_eq!(
        fields,
        FieldSet::Named(vec![
            field("first: u8", vec![]),
            field("second: u8", vec![]),
            field("third: u8", vec![]),
        ])
    );

    let mut none = FieldSet::Empty;
    process_fields(&mut none);
    assert_eq!(none, FieldSet::Empty);
}
