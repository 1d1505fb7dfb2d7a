use projector::store::Dir;

#[test]
fn directory_entries_are_an_exact_match_lookup() {
    let mut d = projector::default_data();
    d.upsert("/a".to_string(), "X".to_string(), "1".to_string());
    assert!(d.get_directory_entries("/a").is_some());
    assert!(d.get_directory_entries("/a/b").is_none());
    assert!(d.get_directory_entries("/a/").is_none());
}

#[test]
fn upsert_creates_then_overwrites() {
    let mut d = projector::default_data();
    d.upsert("/a".to_string(), "X".to_string(), "1".to_string());
    d.upsert("/a".to_string(), "X".to_string(), "2".to_string());
    d.upsert("/a".to_string(), "Y".to_string(), "3".to_string());
    let dir = d.get_directory_entries("/a").unwrap();
    assert_eq!(dir.get("X"), Some(&"2".to_string()));
    assert_eq!(dir.get("Y"), Some(&"3".to_string()));
    assert_eq!(dir.entries.len(), 2);
}

#[test]
fn remove_is_a_noop_for_absent_keys() {
    let mut d = projector::default_data();
    d.upsert("/a".to_string(), "X".to_string(), "1".to_string());
    d.remove("/a", "missing");
    d.remove("/nowhere", "X");
    let dir = d.get_directory_entries("/a").unwrap();
    assert_eq!(dir.get("X"), Some(&"1".to_string()));
    assert!(d.get_directory_entries("/nowhere").is_none());
}

#[test]
fn dir_keeps_present_and_empty_values_apart() {
    let mut dir = Dir::new();
    dir.upsert("K".to_string(), "".to_string());
    assert_eq!(dir.get("K"), Some(&"".to_string()));
    assert_eq!(dir.get("L"), None);
}
