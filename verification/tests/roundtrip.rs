use erase_serde_skip::erase_skip_serializing_if;
use erase_serde_skip::model::{Case, Field, FieldSet, MetadataBlock, TypeDefinition};

fn serde(content: &str) -> MetadataBlock {
    MetadataBlock {
        namespace: "serde".to_string(),
        content: Some(content.to_string()),
        rest: String::new(),
    }
}

fn field(rest: &str, blocks: Vec<MetadataBlock>) -> Field {
    Field { blocks, rest: rest.to_string() }
}

/// `struct Foo { a: u8, #[serde(skip_serializing_if = "Option::is_none")] b: Option<u32>, c: u16 }`
fn foo() -> TypeDefinition {
    TypeDefinition::Record(FieldSet::Named(vec![
        field("a: u8", vec![]),
        field("b: Option<u32>", vec![serde("skip_serializing_if = \"Option::is_none\"")]),
        field("c: u16", vec![]),
    ]))
}

/// `struct Foo { a: u8, b: Option<u32>, c: u16 }`: every field is always written.
fn foo_erased() -> TypeDefinition {
    TypeDefinition::Record(FieldSet::Named(vec![
        field("a: u8", vec![]),
        field("b: Option<u32>", vec![]),
        field("c: u16", vec![]),
    ]))
}

#[test]
fn roundtrip_none() {
    let foo = erase_skip_serializing_if("", foo());
    assert_eq!(foo, foo_erased());
}

#[test]
fn roundtrip_some() {
    let foo = erase_skip_serializing_if("", foo());
    let decoded = erase_skip_serializing_if("", foo.clone());
    assert_eq!(foo, decoded);
}

/// `struct HasOption { #[serde(skip_serializing_if = "Option::is_none", rename = "id")] b: Option<u8> }`
#[test]
fn option_none_is_serialized() {
    let v = TypeDefinition::Record(FieldSet::Named(vec![field(
        "b: Option<u8>",
        vec![serde("skip_serializing_if = \"Option::is_none\", rename = \"id\"")],
    )]));
    let erased = erase_skip_serializing_if("", v);
    let expected = TypeDefinition::Record(FieldSet::Named(vec![field(
        "b: Option<u8>",
        vec![serde("rename = \"id\"")],
    )]));
    assert!(
        erased == expected,
        "skip_serializing_if should have been removed, got {erased:?}"
    );
    // and it reads back the same
    let round = erase_skip_serializing_if("", erased.clone());
    assert_eq!(erased, round);
}

/// Two `skip_serializing_if` in one list are both dropped, while `default`
/// survives.
#[test]
fn multiple_skips_are_removed() {
    let v = TypeDefinition::Record(FieldSet::Named(vec![field(
        "data: Vec<u8>",
        vec![serde(
            "skip_serializing_if = \"Option::is_none\",
             skip_serializing_if = \"Vec::<u8>::is_empty\",
             default",
        )],
    )]));
    let erased = erase_skip_serializing_if("", v);
    let expected = TypeDefinition::Record(FieldSet::Named(vec![field(
        "data: Vec<u8>",
        vec![serde("default")],
    )]));
    assert!(
        erased == expected,
        "all skip_serializing_if clauses should have been erased, got {erased:?}"
    );
    let round = erase_skip_serializing_if("", erased.clone());
    assert_eq!(erased, round);
}

/// `struct TupleSkip(#[serde(skip_serializing_if = "Option::is_none")] Option<i32>);`
/// The form and the one field of a tuple struct are untouched; the directive
/// goes as it does everywhere.
#[test]
fn tuple_struct_is_untouched() {
    let v = TypeDefinition::Record(FieldSet::Positional(vec![field(
        "Option<i32>",
        vec![serde("skip_serializing_if = \"Option::is_none\"")],
    )]));

    let erased = erase_skip_serializing_if("", v);
    assert_eq!(
        erased,
        TypeDefinition::Record(FieldSet::Positional(vec![field("Option<i32>", vec![])]))
    );

    let round = erase_skip_serializing_if("", erased.clone());
    assert_eq!(erased, round);
}

/// `enum TestEnum { V { x: u8, #[serde(..)] y: Option<u32> }, T(#[serde(..)] Option<u16>, u8) }`
fn test_enum() -> TypeDefinition {
    TypeDefinition::TaggedUnion(vec![
        Case {
            name: "V".to_string(),
            fields: FieldSet::Named(vec![
                field("x: u8", vec![]),
                field("y: Option<u32>", vec![serde("skip_serializing_if = \"Option::is_none\"")]),
            ]),
        },
        Case {
            name: "T".to_string(),
            fields: FieldSet::Positional(vec![
                field("Option<u16>", vec![serde("skip_serializing_if = \"Option::is_none\"")]),
                field("u8", vec![]),
            ]),
        },
    ])
}

#[test]
fn enum_struct_variant_skip_is_removed() {
    let TypeDefinition::TaggedUnion(cases) = erase_skip_serializing_if("", test_enum()) else {
        panic!("a tagged union stays a tagged union");
    };
    assert_eq!(
        cases[0],
        Case {
            name: "V".to_string(),
            fields: FieldSet::Named(vec![field("x: u8", vec![]), field("y: Option<u32>", vec![])]),
        }
    );
}

#[test]
fn enum_tuple_variant_skip_is_removed() {
    let TypeDefinition::TaggedUnion(cases) = erase_skip_serializing_if("", test_enum()) else {
        panic!("a tagged union stays a tagged union");
    };
    assert_eq!(
        cases[1],
        Case {
            name: "T".to_string(),
            fields: FieldSet::Positional(vec![field("Option<u16>", vec![]), field("u8", vec![])]),
        }
    );
}
