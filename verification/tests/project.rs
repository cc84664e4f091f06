use internal_checks::project::{
    PackageRoot, PathSelection, SelectionError, TraversalRules, Workspace, is_rust_file, select_files,
    shown_path, sorted_unique_paths,
};

fn workspace() -> Workspace {
    Workspace {
        root: "workspace".to_string(),
        target_directory: "workspace/target".to_string(),
        packages: vec![
            PackageRoot {
                name: "alpha".to_owned(),
                root: "workspace/alpha".to_string(),
            },
            PackageRoot {
                name: "beta".to_owned(),
                root: "workspace/beta".to_string(),
            },
        ],
    }
}

#[test]
fn selects_packages_and_reports_invalid_names() {
    let workspace = workspace();

    assert_eq!(workspace.selected_packages(&vec![]).expect("selects").len(), 2);
    assert_eq!(
        workspace.selected_packages(&vec!["beta".to_owned()]).expect("selects")[0].name,
        "beta"
    );
    assert!(
        workspace
            .selected_packages(&vec!["missing".to_owned()])
            .is_err_and(|e| e.message().contains("not a workspace member"))
    );

    let duplicate = workspace.packages[0].clone_root();
    let ambiguous = Workspace {
        packages: vec![duplicate.clone_root(), duplicate],
        ..workspace
    };
    assert!(
        ambiguous
            .package_named("alpha")
            .is_err_and(|e| e.message().contains("ambiguous"))
    );
}

#[test]
fn selects_packages_in_the_requested_order() {
    let project = workspace()
        .select(&vec!["beta".to_owned(), "alpha".to_owned()])
        .expect("selects");

    assert_eq!(project.workspace_root().as_str(), "workspace");
    assert_eq!(project.sources.packages[0].name, "beta");
    assert_eq!(project.sources.packages[1].name, "alpha");
    assert_eq!(project.sources.target_directory, "workspace/target");
    assert_eq!(
        project.sources.workspace_package_roots,
        vec!["workspace/alpha".to_string(), "workspace/beta".to_string()]
    );
}

#[test]
fn reports_the_first_invalid_name() {
    let error = workspace()
        .selected_packages(&vec!["beta".to_owned(), "gamma".to_owned(), "delta".to_owned()])
        .err()
        .expect("rejected");

    assert_eq!(error.message(), "package `gamma` is not a workspace member");
}

fn parts(path: &str) -> Vec<String> {
    path.split('/').map(|part| if part.is_empty() { "/".to_string() } else { part.to_string() }).collect()
}

#[test]
fn skips_target_git_and_other_package_roots() {
    let target = parts("/w/target");
    let roots = vec![parts("/w"), parts("/w/child")];
    let rules = TraversalRules {
        target_directory: &target,
        workspace_package_roots: &roots,
    };
    let root = parts("/w");

    assert!(rules.should_visit_path(&parts("/w"), &root));
    assert!(rules.should_visit_path(&parts("/w/src/lib.rs"), &root));
    assert!(!rules.should_visit_path(&parts("/w/target/debug/a.rs"), &root));
    assert!(!rules.should_visit_path(&parts("/w/.git"), &root));
    assert!(!rules.should_visit_path(&parts("/w/child"), &root));
    assert!(rules.should_visit_path(&parts("/w/children"), &root));
}

#[test]
fn recognizes_rust_files_by_extension() {
    assert!(is_rust_file(&parts("src/lib.rs")));
    assert!(is_rust_file(&parts("src/a.b.rs")));
    assert!(!is_rust_file(&parts("README.md")));
    assert!(!is_rust_file(&parts("src/.rs")));
    assert!(!is_rust_file(&parts("src")));
}

#[test]
fn narrows_files_to_selected_paths_and_changes() {
    let files = vec![parts("/w/src/lib.rs"), parts("/w/src/nested/a.rs"), parts("/w/src/other.rs")];
    let selections = vec![
        PathSelection { path: "/w/src/nested".to_string(), parts: parts("/w/src/nested"), is_directory: true },
        PathSelection { path: "/w/src/lib.rs".to_string(), parts: parts("/w/src/lib.rs"), is_directory: false },
    ];

    assert_eq!(select_files(&files, &selections, &None), Ok(vec![0, 1]));
    assert_eq!(select_files(&files, &vec![], &Some(vec![parts("/w/src/other.rs")])), Ok(vec![2]));
    assert_eq!(select_files(&files, &selections, &Some(vec![])), Ok(vec![]));
}

#[test]
fn rejects_selections_without_rust_files() {
    let files = vec![parts("/w/src/lib.rs")];
    let not_rust = vec![PathSelection { path: "/w/README.md".to_string(), parts: parts("/w/README.md"), is_directory: false }];
    let empty = vec![PathSelection { path: "/w/docs".to_string(), parts: parts("/w/docs"), is_directory: true }];
    let partial = vec![PathSelection { path: "/w/sr".to_string(), parts: parts("/w/sr"), is_directory: true }];

    assert_eq!(
        select_files(&files, &not_rust, &None),
        Err(SelectionError::NotRustFile { path: "/w/README.md".to_string() })
    );
    let error = select_files(&files, &empty, &None).err().expect("rejected");
    assert_eq!(
        error.message(),
        "path `/w/docs` contains no Rust files from the selected packages"
    );
    assert!(select_files(&files, &partial, &None).is_err());
}

#[test]
fn shows_paths_relative_to_the_workspace_root() {
    let root = parts("/w");
    assert_eq!(shown_path(&parts("/w/src/lib.rs"), &root, false), Some(vec!["src".to_string(), "lib.rs".to_string()]));
    assert_eq!(shown_path(&parts("/w/src/lib.rs"), &root, true), None);
    assert_eq!(shown_path(&parts("/other/lib.rs"), &root, false), None);
    assert_eq!(shown_path(&parts("/wide/lib.rs"), &root, false), None);
    assert_eq!(shown_path(&parts("/w"), &root, false), Some(Vec::new()));
}

#[test]
fn sorts_found_files_and_keeps_each_once() {
    let files = vec![parts("/w/src/b.rs"), parts("/w/src/a.rs"), parts("/w/src/b.rs"), parts("/w/src/a/m.rs"), parts("/w/build.rs")];
    assert_eq!(
        sorted_unique_paths(&files),
        vec![parts("/w/build.rs"), parts("/w/src/a/m.rs"), parts("/w/src/a.rs"), parts("/w/src/b.rs")]
    );
}
