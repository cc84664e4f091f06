use internal_checks::diagnostic::Violation as Diagnostic;
use internal_checks::rules::error_variants::check::check;
use internal_checks::source::Source;
use internal_checks::syntax::parse_source;

fn violations(source: &str) -> Vec<Diagnostic> {
    let items = parse_source(source).expect("the source parses");
    let text = Source::new(source);
    let mut violations = Vec::new();
    check(&"lib.rs".to_string(), &text, &items, &mut violations);
    violations
}

fn messages(source: &str) -> Vec<String> {
    violations(source).iter().map(|violation| violation.to_string()).collect()
}

#[test]
fn accepts_ordered_variants_of_each_shape() {
    let source = r#"
#[derive(Debug, thiserror::Error)]
enum Error {
    Alpha,

    Beta(String),

    Gamma { source: String },

    Omega = 4,
}
"#;

    assert!(violations(source).is_empty());
}

#[test]
fn accepts_attributes_and_rustdoc_attached_to_the_following_variant() {
    let source = r#"
#[derive(Error)]
enum Error {
    #[error("first")]
    First,

    /// The second error.
    #[error("second")]
    Second { source: String },
}
"#;

    assert!(violations(source).is_empty());
}

#[test]
fn accepts_comment_markers_inside_variant_rustdoc() {
    let source = r#"
#[derive(Error)]
enum Error {
    First,

    /// This should accept // and /*
    Second,
}
"#;

    assert!(violations(source).is_empty());
}

#[test]
fn accepts_empty_and_single_variant_error_enums() {
    let source = r#"
#[derive(Error)]
enum Empty {}

#[derive(Error)]
enum Singleton {
    Only,
}
"#;

    assert!(violations(source).is_empty());
}

#[test]
fn check_ignores_enums_that_do_not_derive_error() {
    let source = r#"
#[derive(Debug)]
enum NotAnError {
    Second,
    First,
}

mod external;
"#;

    assert!(violations(source).is_empty());
}

#[test]
fn reports_every_variant_below_the_greatest_name_seen() {
    let source = r#"
#[derive(Error)]
enum Error {
    Third,

    First,

    Second,
}
"#;

    assert_eq!(
        messages(source),
        [
            "error variant `First` must appear before `Third`",
            "error variant `Second` must appear before `Third`",
        ]
    );
}

#[test]
fn orders_raw_identifiers_by_their_unraw_name() {
    let source = r#"
#[derive(Error)]
enum Error {
    r#type,

    r#match,
}
"#;

    assert_eq!(
        messages(source),
        ["error variant `match` must appear before `type`"]
    );
}

#[test]
fn reports_adjacent_variants_without_an_empty_line() {
    let source = r#"
#[derive(Error)]
enum Error {
    First,
    Second,
}
"#;

    assert_eq!(
        messages(source),
        ["error variants `First` and `Second` must be separated by exactly one empty line"]
    );
}

#[test]
fn reports_adjacent_variants_with_multiple_empty_lines() {
    let source = r#"
#[derive(Error)]
enum Error {
    First,


    Second,
}
"#;

    assert_eq!(
        messages(source),
        ["error variants `First` and `Second` must be separated by exactly one empty line"]
    );
}

#[test]
fn reports_an_actionable_error_for_a_line_comment_between_variants() {
    let source = r#"
#[derive(Error)]
enum Error {
    Second(String),

    // RLWE core errors
    First(String),
}
"#;

    assert_eq!(
        messages(source),
        [
            "ordinary comments between error variants `Second` and `First` are unsupported; use Rustdoc (`///`) on `First`"
        ]
    );
}

#[test]
fn reports_all_comments_before_other_violations_in_the_enum() {
    let source = r#"
#[derive(Error)]
enum Error {
    Third,
    // First section.
    Second,

    /* Second section. */
    First,
}
"#;

    assert_eq!(
        messages(source),
        [
            "ordinary comments between error variants `Third` and `Second` are unsupported; use Rustdoc (`///`) on `Second`",
            "ordinary comments between error variants `Second` and `First` are unsupported; use Rustdoc (`///`) on `First`",
        ]
    );
}

#[test]
fn reports_an_actionable_error_for_a_trailing_comment_between_variants() {
    let source = r#"
#[derive(Error)]
enum Error {
    First, // section comment

    Second,
}
"#;

    assert_eq!(
        messages(source),
        [
            "ordinary comments between error variants `First` and `Second` are unsupported; use Rustdoc (`///`) on `Second`"
        ]
    );
}

#[test]
fn reports_an_actionable_error_for_a_block_comment_between_variants() {
    let source = r#"
#[derive(Error)]
enum Error {
    First,

    /* section comment */
    Second,
}
"#;

    assert_eq!(
        messages(source),
        [
            "ordinary comments between error variants `First` and `Second` are unsupported; use Rustdoc (`///`) on `Second`"
        ]
    );
}

#[test]
fn reports_order_and_spacing_independently() {
    let source = r#"
#[derive(Error)]
enum Error {
    Second,
    First,
}
"#;

    assert_eq!(
        messages(source),
        [
            "error variant `First` must appear before `Second`",
            "error variants `Second` and `First` must be separated by exactly one empty line",
        ]
    );
}

#[test]
fn check_checks_inline_modules_recursively() {
    let source = r#"
mod outer {
    mod inner {
        #[derive(Error)]
        enum Error {
            Second,

            First,
        }
    }
}
"#;

    let violations = violations(source);
    assert_eq!(violations.len(), 1);
    assert_eq!(
        violations[0].to_string(),
        "error variant `First` must appear before `Second`"
    );
    assert_eq!(violations[0].modules(), &vec!["outer".to_string(), "inner".to_string()]);
}

#[test]
fn reports_variant_position() {
    let source = "#[derive(Error)]\nenum Error {\n    Second,\n\n    First,\n}\n";
    let violations = violations(source);

    assert_eq!(violations.len(), 1);
    assert_eq!(violations[0].line(), 5);
    assert_eq!(violations[0].column(), 5);
}

#[test]
fn ordered_names_draw_no_order_report() {
    let source = "#[derive(Error)]\nenum Error {\n    Alpha,\n\n    Beta,\n\n    Beta2,\n}\n";

    assert!(messages(source).is_empty());
}
