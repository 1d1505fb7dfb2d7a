use projector::parent;

#[test]
fn parent_walks_toward_the_root() {
    assert_eq!(parent("/a/b"), Some("/a".to_string()));
    assert_eq!(parent("/a"), Some("/".to_string()));
    assert_eq!(parent("/"), None);
}

#[test]
fn parent_of_relative_and_empty_paths() {
    assert_eq!(parent("a/b"), Some("a".to_string()));
    assert_eq!(parent("a"), Some("".to_string()));
    assert_eq!(parent(""), None);
}

#[test]
fn parent_is_a_plain_string_operation() {
    // No normalization: each separator is one step.
    assert_eq!(parent("/a/b/"), Some("/a/b".to_string()));
    assert_eq!(parent("//"), Some("/".to_string()));
}
