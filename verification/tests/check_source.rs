use internal_checks::check::check_source;
use internal_checks::syntax::SyntaxError;

#[test]
fn reports_both_rules_in_order() {
    let source = "mod errors {\n    #[derive(Error)]\n    enum Error {\n        Second,\n        First,\n    }\n}\nuse std::path::Path;\n";
    let violations = check_source(&"src/lib.rs".to_string(), source).expect("parses");
    let messages: Vec<String> = violations.iter().map(|violation| violation.to_string()).collect();

    assert_eq!(
        messages,
        [
            "items from `module` and `standard-library` groups with different class or origin must be separated by a blank line",
            "`use` must appear before `mod`",
            "error variant `First` must appear before `Second`",
            "error variants `Second` and `First` must be separated by exactly one empty line",
        ]
    );
    assert_eq!(violations[2].modules(), &vec!["errors".to_string()]);
}

#[test]
fn rejects_text_that_is_not_rust() {
    assert!(matches!(
        check_source(&"src/lib.rs".to_string(), "fn invalid("),
        Err(SyntaxError::Invalid { .. })
    ));
}

#[test]
fn accepts_a_conforming_file() {
    let violations = check_source(&"src/lib.rs".to_string(), "use std::path::Path;\n").expect("parses");

    assert!(violations.is_empty());
}
