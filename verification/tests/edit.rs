use internal_checks::edit::Edit;

#[test]
fn applies_edits_without_invalidating_earlier_offsets() {
    let edits = vec![
        Edit::new(0, 1, "first".to_owned()),
        Edit::new(2, 3, "third".to_owned()),
    ];

    assert_eq!(Edit::apply_all("a b".to_owned(), edits), "first third");
}

#[test]
fn applies_edits_listed_in_any_order() {
    let edits = vec![
        Edit::new(4, 5, "E".to_owned()),
        Edit::new(0, 2, "".to_owned()),
        Edit::new(2, 2, "+".to_owned()),
    ];

    assert_eq!(Edit::apply_all("abcdef".to_owned(), edits), "+cdEf");
}

#[test]
fn applies_one_edit_as_a_splice() {
    let edits = vec![Edit::new(1, 3, "XYZ".to_owned())];

    assert_eq!(Edit::apply_all("abcd".to_owned(), edits), "aXYZd");
}

#[test]
fn applies_no_edits_as_the_identity() {
    assert_eq!(Edit::apply_all("unchanged".to_owned(), Vec::new()), "unchanged");
}
