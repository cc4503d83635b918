use dirsync::paths::{list_to_path, path_to_list, FileEntry};

#[test]
fn nested_path_splits_into_components() {
    let l = path_to_list("sub/x.txt");
    assert_eq!(l, vec!["sub".to_string(), "x.txt".to_string()]);
}

#[test]
fn single_component_path() {
    assert_eq!(path_to_list("hello.txt"), vec!["hello.txt".to_string()]);
}

#[test]
fn empty_path_has_no_components() {
    assert_eq!(path_to_list(""), Vec::<String>::new());
}

#[test]
fn repeated_and_trailing_separators_are_ignored() {
    assert_eq!(path_to_list("a//b/"), vec!["a".to_string(), "b".to_string()]);
    assert_eq!(path_to_list("/a"), vec!["a".to_string()]);
}

#[test]
fn components_join_with_one_separator() {
    let l = vec!["sub".to_string(), "x.txt".to_string()];
    assert_eq!(list_to_path(&l), "sub/x.txt".to_string());
}

#[test]
fn empty_list_joins_to_empty_path() {
    assert_eq!(list_to_path(&Vec::new()), String::new());
}

#[test]
fn join_then_split_gives_back_the_components() {
    let l = vec!["a".to_string(), "b c".to_string(), "d.txt".to_string()];
    assert_eq!(path_to_list(&list_to_path(&l)), l);
}

#[test]
fn file_entry_keeps_path_and_size() {
    let e = FileEntry { partial_path: vec!["sub".to_string(), "x.txt".to_string()], size: 3 };
    assert_eq!(e.partial_path.len(), 2);
    assert_eq!(e.size, 3);
}
