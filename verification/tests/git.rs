use internal_checks::git::{GitOutputError, parse_diff_paths, parse_output_line, parse_status};

#[test]
fn parses_modified_untracked_and_renamed_paths() {
    let output = b" M src/modified.rs\0?? src/untracked file.rs\0R  src/new.rs\0src/old.rs\0 D src/deleted.rs\0";

    assert_eq!(
        parse_status(output).expect("the status parses"),
        [
            "src/modified.rs".to_string(),
            "src/untracked file.rs".to_string(),
            "src/new.rs".to_string(),
            "src/deleted.rs".to_string(),
        ]
    );
}

#[test]
fn rejects_malformed_status_output() {
    assert!(parse_status(b"M src/missing-column.rs\0").is_err());
    assert!(parse_status(b"R  src/new.rs\0").is_err());
}

#[test]
fn parses_nul_delimited_diff_paths() {
    assert_eq!(
        parse_diff_paths(b"src/first.rs\0src/with space.rs\0").expect("the paths parse"),
        [
            "src/first.rs".to_string(),
            "src/with space.rs".to_string()
        ]
    );
}

#[test]
fn rejects_empty_diff_paths() {
    assert!(parse_diff_paths(b"src/first.rs\0\0src/second.rs\0").is_err());
}

#[test]
fn reports_each_status_error() {
    assert_eq!(parse_status(b"M src/missing-column.rs\0"), Err(GitOutputError::MalformedStatus));
    assert_eq!(parse_status(b"R  src/new.rs\0"), Err(GitOutputError::EmptyOriginalPath));
    assert_eq!(parse_status(b"C  src/copy.rs"), Err(GitOutputError::MissingOriginalPath));
    assert_eq!(parse_status(b" M \xff\xfe.rs\0"), Err(GitOutputError::PathNotUtf8));
    assert_eq!(
        GitOutputError::MalformedStatus.message(),
        "Git returned malformed status output"
    );
}

#[test]
fn accepts_empty_outputs() {
    assert_eq!(parse_status(b""), Ok(Vec::new()));
    assert_eq!(parse_diff_paths(b""), Ok(Vec::new()));
}

#[test]
fn reports_each_diff_error() {
    assert_eq!(parse_diff_paths(b"a.rs\0\0"), Err(GitOutputError::EmptyPath));
    assert_eq!(parse_diff_paths(b"\xff\0"), Err(GitOutputError::PathNotUtf8));
}

#[test]
fn reads_one_line_values() {
    assert_eq!(parse_output_line(b"abc123\r\n\n", "commit"), Ok("abc123".to_string()));
    assert_eq!(
        parse_output_line(b"\n", "merge base"),
        Err(GitOutputError::InvalidValue { description: "merge base".to_string() })
    );
    assert_eq!(
        parse_output_line(b"a\nb\n", "commit").map_err(|error| error.message()),
        Err("Git returned an invalid commit".to_string())
    );
    assert_eq!(
        parse_output_line(b"\xff", "commit").map_err(|error| error.message()),
        Err("Git returned a commit that is not UTF-8".to_string())
    );
}
