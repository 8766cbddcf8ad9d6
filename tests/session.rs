use gold_ledger::{validate_path_safety, ExtractState, PathError};

#[test]
fn new_state_has_no_extraction() {
    let st = ExtractState::new();
    assert!(st.path.is_none());
}

#[test]
fn plain_paths_are_accepted() {
    assert_eq!(validate_path_safety("C:\\Saves\\out.lsv"), Ok(()));
    assert_eq!(validate_path_safety("/home/me/save.lsv"), Ok(()));
    assert_eq!(validate_path_safety("a.b.c"), Ok(()));
    assert_eq!(validate_path_safety(""), Ok(()));
}

#[test]
fn parent_steps_are_refused() {
    assert_eq!(validate_path_safety("../x.lsv"), Err(PathError::Traversal));
    assert_eq!(validate_path_safety("C:\\a\\..\\b"), Err(PathError::Traversal));
    assert_eq!(validate_path_safety("name..lsv"), Err(PathError::Traversal));
}
