use internal_checks::fix::fix_source;

fn fixed(source: &str) -> String {
    fix_source(source).expect("the source is fixed")
}

#[test]
fn orders_variants_and_preserves_attributes_and_bodies() {
    let source = r#"#[derive(Debug, thiserror::Error)]
enum Error {
    #[error("third")]
    Third { source: String },
    /// The first error.
    #[error("first")]
    First,


    #[error("second")]
    Second(String),
}
"#;

    let expected = r#"#[derive(Debug, thiserror::Error)]
enum Error {
    /// The first error.
    #[error("first")]
    First,

    #[error("second")]
    Second(String),

    #[error("third")]
    Third { source: String },
}
"#;

    assert_eq!(fixed(source), expected);
}

#[test]
fn normalizes_spacing_without_reordering() {
    let source = r#"#[derive(Error)]
enum Error {
    First,
    Second,


    Third,
}
"#;

    let expected = r#"#[derive(Error)]
enum Error {
    First,

    Second,

    Third,
}
"#;

    assert_eq!(fixed(source), expected);
}

#[test]
fn orders_variants_by_their_unraw_names() {
    let source = "#[derive(Error)]\nenum Error {\n    r#type,\n    r#match,\n}\n";
    let expected = "#[derive(Error)]\nenum Error {\n    r#match,\n\n    r#type,\n}\n";

    assert_eq!(fixed(source), expected);
}

#[test]
fn preserves_the_trailing_comma_policy() {
    let source = "#[derive(Error)]\nenum Error {\n    Second,\n    First\n}\n";
    let expected = "#[derive(Error)]\nenum Error {\n    First,\n\n    Second\n}\n";

    assert_eq!(fixed(source), expected);
}

#[test]
fn preserves_crlf() {
    let source = "#[derive(Error)]\r\nenum Error {\r\n    Second,\r\n    First,\r\n}\r\n";
    let expected = "#[derive(Error)]\r\nenum Error {\r\n    First,\r\n\r\n    Second,\r\n}\r\n";

    assert_eq!(fixed(source), expected);
}

#[test]
fn fixes_variants_inside_inline_modules() {
    let source = r#"mod outer {
    mod inner {
        #[derive(Error)]
        enum Error {
            Second,
            First,
        }
    }
}
"#;

    let expected = r#"mod outer {
    mod inner {
        #[derive(Error)]
        enum Error {
            First,

            Second,
        }
    }
}
"#;

    assert_eq!(fixed(source), expected);
}

#[test]
fn fix_ignores_enums_that_do_not_derive_error() {
    let source = "#[derive(Debug)]\nenum Example {\n    Second,\n    First,\n}\n";

    assert_eq!(fixed(source), source);
}

#[test]
fn leaves_inter_variant_comments_unchanged() {
    let source = r#"#[derive(Error)]
enum Error {
    Second,
    // The first error needs additional context.
    First,
}
"#;

    assert_eq!(fixed(source), source);
}

#[test]
fn leaves_boundary_comments_unchanged() {
    let before_first = r#"#[derive(Error)]
enum Error {
    // This comment belongs to Second.
    Second,
    First,
}
"#;
    let after_last = r#"#[derive(Error)]
enum Error {
    Second,
    First, // This comment belongs to First.
}
"#;

    assert_eq!(fixed(before_first), before_first);
    assert_eq!(fixed(after_last), after_last);
}

#[test]
fn fixing_a_fixed_enum_changes_nothing() {
    let source = "#[derive(Error)]\nenum Error {\n    Second,\n    First,\n}\n";
    let once = fixed(source);

    assert_eq!(fixed(&once), once);
}

#[test]
fn leaves_nonstandard_punctuation_unchanged() {
    let source = "#[derive(Error)]\nenum Error {\n    Second /* after */,\n    First,\n}\n";

    assert_eq!(fixed(source), source);
}

#[test]
fn fix_rejects_text_that_is_not_rust() {
    assert!(fix_source("fn invalid(").is_err());
}
