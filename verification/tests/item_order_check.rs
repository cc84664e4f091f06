use internal_checks::config::{ItemClass, ItemKind, Visibility};
use internal_checks::diagnostic::{Violation as Diagnostic, ViolationKind as DiagnosticKind};
use internal_checks::rules::item_order::check::{check, Violation};
use internal_checks::rules::item_order::model::ItemGroup;
use internal_checks::source::Source;
use internal_checks::syntax::parse_source;

fn check_source(path: &str, source: &str) -> Vec<Diagnostic> {
    let items = parse_source(source).expect("the source parses");
    let text = Source::new(source);
    let mut violations = Vec::new();
    check(&path.to_string(), &text, &items, &mut violations);
    violations
}

#[test]
fn accepts_ordered_run() {
    let violations = check_source(
        "lib.rs",
        r#"
            use crate::a::A;

            pub(crate) use crate::b::B;

            pub use crate::c::C;

            mod d;
            mod d2;

            pub(crate) mod e;

            pub mod f;
            "#,
    );

    assert!(violations.is_empty());
}

#[test]
fn reports_out_of_order_item() {
    let violations = check_source(
        "lib.rs",
        r#"
            pub use crate::a::A;

            pub(crate) use crate::b::B;
            "#,
    );

    assert_eq!(violations.len(), 1);
    assert_eq!(
        violations[0].kind(),
        &DiagnosticKind::ItemOrder(Violation::ItemOrder {
            found: ItemClass::new(ItemKind::Use, Visibility::Crate),
            must_precede: ItemClass::new(ItemKind::Use, Visibility::Public),
        })
    );
}

#[test]
fn reports_local_import_before_external_import() {
    let violations = check_source(
        "lib.rs",
        r#"
            use anyhow::{Context, Result};
            use proc_macro2::{LineColumn, Span};
            use syn::{Item, ItemMod};

            use crate::diagnostic::{Violation, ViolationKind};

            use tracing::info;
            "#,
    );

    assert_eq!(violations.len(), 1);
}

#[test]
fn accepts_grouped_imports_without_alphabetizing_within_groups() {
    let violations = check_source(
        "lib.rs",
        r#"
            use std::path::Path;

            use tracing::info;
            use anyhow::Result as AnyhowResult;

            use crate::diagnostic::Violation;
            use self::local::Local;
            use super::parent::Parent;
            "#,
    );

    assert!(violations.is_empty());
}

#[test]
fn accepts_adjacent_imports_in_the_same_group() {
    let violations = check_source(
        "lib.rs",
        r#"
            use crate::encoding::Decode;
            use crate::schemes::NgfheScheme;
            "#,
    );

    assert!(violations.is_empty());
}

#[test]
fn rejects_blank_line_between_imports_in_the_same_group() {
    let violations = check_source(
        "lib.rs",
        r#"
            use crate::encoding::Decode;

            use crate::schemes::NgfheScheme;
            "#,
    );

    assert_eq!(violations.len(), 1);
    assert_eq!(
        violations[0].kind(),
        &DiagnosticKind::ItemOrder(Violation::UnexpectedBlankLine {
            group: ItemGroup::Local,
        })
    );
}

#[test]
fn requires_blank_line_between_external_and_local_imports() {
    let violations = check_source(
        "lib.rs",
        r#"
            use anyhow::Context;
            use super::*;
            use crate::diagnostic::{Violation, ViolationKind};
            "#,
    );

    assert_eq!(violations.len(), 1);
    assert!(matches!(
        violations[0].kind(),
        DiagnosticKind::ItemOrder(Violation::MissingBlankLine { .. })
    ));
}

#[test]
fn unrelated_item_ends_a_run() {
    let violations = check_source(
        "lib.rs",
        r#"
            pub use crate::a::A;

            const VALUE: usize = 3;

            use crate::b::B;
            "#,
    );

    assert!(violations.is_empty());
}

#[test]
fn reports_comment_instead_of_blocked_run_violations() {
    let violations = check_source(
        "lib.rs",
        r#"
            use crate::a::A;

            use crate::b::B;
            // Module declarations.
            mod c;
            "#,
    );

    assert_eq!(violations.len(), 1);
    assert_eq!(
        violations[0].kind(),
        &DiagnosticKind::ItemOrder(Violation::OrdinaryComment {
            previous: ItemClass::new(ItemKind::Use, Visibility::Private),
            current: ItemClass::new(ItemKind::Mod, Visibility::Private),
        })
    );
}

#[test]
fn accepts_rustdoc_on_an_ordered_item() {
    let violations = check_source(
        "lib.rs",
        r#"
            use crate::a::A;

            /// The C module.
            mod c;
            "#,
    );

    assert!(violations.is_empty());
}

#[test]
fn checks_inline_modules_recursively() {
    let violations = check_source(
        "lib.rs",
        r#"
            mod outer {
                mod inner {
                    pub mod public;

                    use crate::a::A;
                }
            }
            "#,
    );

    assert_eq!(violations.len(), 1);
    assert_eq!(violations[0].modules(), &vec!["outer".to_string(), "inner".to_string()]);
}

#[test]
fn every_supported_item_class_participates_in_the_run() {
    let violations = check_source(
        "lib.rs",
        r#"
            pub use crate::a::A;

            mod boundary;

            use crate::b::B;
            "#,
    );

    assert_eq!(violations.len(), 1);
    assert_eq!(
        violations[0].kind(),
        &DiagnosticKind::ItemOrder(Violation::ItemOrder {
            found: ItemClass::new(ItemKind::Use, Visibility::Private),
            must_precede: ItemClass::new(ItemKind::Mod, Visibility::Private),
        })
    );
}

#[test]
fn accepts_conventional_test_module_after_ordinary_modules() {
    let violations = check_source(
        "lib.rs",
        r#"
            #[cfg(test)]
            mod test_support {}

            pub mod code_module {}

            #[cfg(test)]
            mod tests {}
            "#,
    );

    assert!(violations.is_empty());
}

#[test]
fn requires_conventional_test_module_after_ordinary_modules() {
    let violations = check_source(
        "lib.rs",
        r#"
            #[cfg(test)]
            mod tests {}

            pub mod code_module {}
            "#,
    );

    assert_eq!(violations.len(), 1);
    assert_eq!(
        violations[0].kind(),
        &DiagnosticKind::ItemOrder(Violation::ItemOrder {
            found: ItemClass::new(ItemKind::Mod, Visibility::Public),
            must_precede: ItemClass::new(ItemKind::TestModule, Visibility::Private),
        })
    );
}

#[test]
fn requires_conventional_test_module_to_be_private() {
    let violations = check_source(
        "lib.rs",
        r#"
            #[cfg(test)]
            pub mod tests {}
            "#,
    );

    assert_eq!(violations.len(), 1);
    assert_eq!(
        violations[0].kind(),
        &DiagnosticKind::ItemOrder(Violation::TestModuleVisibility)
    );
}

#[test]
fn unsupported_restricted_visibility_is_a_run_boundary() {
    let violations = check_source(
        "lib.rs",
        r#"
            pub use crate::a::A;
            pub(super) use crate::b::B;
            use crate::c::C;
            "#,
    );

    assert!(violations.is_empty());
}

#[test]
fn treats_bare_imports_of_declared_modules_as_local() {
    let violations = check_source(
        "lib.rs",
        r#"
            pub use core::*;

            mod core;
            "#,
    );

    assert!(violations.is_empty());
}

#[test]
fn treats_core_as_standard_library_without_a_local_module() {
    let violations = check_source(
        "lib.rs",
        r#"
            use tracing::info;

            use core::fmt;
            "#,
    );

    assert_eq!(violations.len(), 1);
    assert_eq!(
        violations[0].kind(),
        &DiagnosticKind::ItemOrder(Violation::ImportOrder {
            found: "core::fmt".to_owned(),
            must_precede: "tracing::info".to_owned(),
        })
    );
}

#[test]
fn attributed_imports_participate_in_group_ordering() {
    let violations = check_source(
        "lib.rs",
        r#"
            use crate::local::Local;

            #[cfg(feature = "optional")]
            use anyhow::Result;
            "#,
    );

    assert_eq!(violations.len(), 1);
    assert_eq!(
        violations[0].kind(),
        &DiagnosticKind::ItemOrder(Violation::ImportOrder {
            found: "anyhow::Result".to_owned(),
            must_precede: "crate::local::Local".to_owned(),
        })
    );
}

#[test]
fn reports_violation_position_and_message() {
    let violations = check_source(
        "src/lib.rs",
        "mod errors;\n\nuse std::path::Path;\n",
    );

    assert_eq!(violations.len(), 1);
    assert_eq!(violations[0].path().as_str(), "src/lib.rs");
    assert_eq!(violations[0].line(), 3);
    assert_eq!(violations[0].column(), 1);
    assert_eq!(violations[0].to_string(), "`use` must appear before `mod`");
    assert!(violations[0].modules().is_empty());
}

#[test]
fn reports_missing_blank_line_message() {
    let violations = check_source("lib.rs", "use std::fmt;\nuse anyhow::Result;\n");

    assert_eq!(violations.len(), 1);
    assert_eq!(
        violations[0].to_string(),
        "items from `standard-library` and `external` groups with different class or origin must be separated by a blank line"
    );
}

#[test]
fn renders_report_lines_with_the_module_path() {
    let violations = check_source(
        "lib.rs",
        "mod outer {\n    mod inner {\n        pub mod public;\n\n        use crate::a::A;\n    }\n}\n",
    );

    assert_eq!(violations.len(), 1);
    assert_eq!(
        violations[0].report_lines("src/lib.rs"),
        vec![
            "src/lib.rs:5:9: error: `use` must appear before `pub mod`".to_string(),
            "  module: outer::inner".to_string(),
        ]
    );
}

#[test]
fn renders_one_report_line_outside_inline_modules() {
    let violations = check_source("lib.rs", "pub mod b;\n\nmod a;\n");

    assert_eq!(violations.len(), 1);
    assert_eq!(
        violations[0].report_lines("lib.rs"),
        vec!["lib.rs:3:1: error: `mod` must appear before `pub mod`".to_string()]
    );
}

#[test]
fn renders_multi_digit_positions() {
    let source = format!("{}pub mod b;\n\n{}mod a;\n", "\n".repeat(9), " ".repeat(10));
    let violations = check_source("lib.rs", &source);

    assert_eq!(violations.len(), 1);
    assert_eq!(
        violations[0].report_lines("lib.rs"),
        vec!["lib.rs:12:11: error: `mod` must appear before `pub mod`".to_string()]
    );
}
