use internal_checks::rules::error_variants::model::ErrorEnum;
use internal_checks::syntax::{EnumItem, ItemNode, parse_source};

fn enum_item(source: &str) -> EnumItem {
    let mut items = parse_source(source).expect("the source parses");
    match items.remove(0).node {
        ItemNode::Enum(item) => item,
        _ => panic!("the first item is an enum"),
    }
}

fn enum_with_derive(derive: &str) -> EnumItem {
    enum_item(&format!("#[derive({derive})] enum Example {{}}"))
}

#[test]
fn recognizes_unqualified_and_qualified_error_derives() {
    assert!(ErrorEnum::from_ast(&enum_with_derive("Error")).is_some());
    assert!(ErrorEnum::from_ast(&enum_with_derive("Debug, thiserror::Error")).is_some());
}

#[test]
fn rejects_other_derives() {
    assert!(ErrorEnum::from_ast(&enum_with_derive("Debug, Clone")).is_none());
    let malformed = enum_item(
        r#"#[allow(dead_code)]
            #[derive(Debug = "invalid")]
            enum Example {}"#,
    );
    assert!(ErrorEnum::from_ast(&malformed).is_none());
}
