use projector::projector::Projector;
use projector::store::{Data, Dir};

fn projector_with(data: Data, pwd: &str) -> Projector {
    Projector { config: "/tmp/projector.json".to_string(), pwd: pwd.to_string(), data }
}

fn store_b() -> Data {
    // add("/a", "X", "1"); add("/a/b", "Y", "2")
    let mut d = projector::default_data();
    d.upsert("/a".to_string(), "X".to_string(), "1".to_string());
    d.upsert("/a/b".to_string(), "Y".to_string(), "2".to_string());
    d
}

fn dir_get(d: &Dir, key: &str) -> Option<String> {
    d.get(key).cloned()
}

#[test]
fn scenario_a_empty_store_prints_nothing() {
    let p = projector_with(projector::default_data(), "/a/b");
    let all = p.get_value_all();
    assert_eq!(all.entries.len(), 0);
}

#[test]
fn scenario_b_merges_ancestors() {
    let p = projector_with(store_b(), "/a/b");
    let all = p.get_value_all();
    assert_eq!(dir_get(&all, "X"), Some("1".to_string()));
    assert_eq!(dir_get(&all, "Y"), Some("2".to_string()));
    assert_eq!(all.entries.len(), 2);
}

#[test]
fn scenario_c_single_key_from_sole_definer() {
    let p = projector_with(store_b(), "/a/b");
    assert_eq!(p.get_value("Y".to_string()), Some("2".to_string()));
}

#[test]
fn scenario_d_opposite_precedence() {
    // add("/a", "Z", "outer"); add("/a/b", "Z", "inner")
    let mut d = projector::default_data();
    d.upsert("/a".to_string(), "Z".to_string(), "outer".to_string());
    d.upsert("/a/b".to_string(), "Z".to_string(), "inner".to_string());
    let p = projector_with(d, "/a/b");

    // The merged view: the directory nearest the working directory wins.
    let all = p.get_value_all();
    assert_eq!(dir_get(&all, "Z"), Some("inner".to_string()));

    // The single-key walk: the most distant ancestor wins.
    assert_eq!(p.get_value("Z".to_string()), Some("outer".to_string()));
}

#[test]
fn scenario_e_remove_then_print() {
    let mut p = projector_with(store_b(), "/a/b");
    p.remove_value("Y");
    let all = p.get_value_all();
    assert_eq!(dir_get(&all, "X"), Some("1".to_string()));
    assert_eq!(all.entries.len(), 1);
}

#[test]
fn get_value_absent_key() {
    let p = projector_with(store_b(), "/a/b");
    assert_eq!(p.get_value("missing".to_string()), None);
}

#[test]
fn get_value_from_root_definition() {
    let mut d = projector::default_data();
    d.upsert("/".to_string(), "R".to_string(), "root".to_string());
    let p = projector_with(d, "/a/b");
    assert_eq!(p.get_value("R".to_string()), Some("root".to_string()));
    let all = p.get_value_all();
    assert_eq!(dir_get(&all, "R"), Some("root".to_string()));
}

#[test]
fn set_value_overwrites_in_place() {
    let mut p = projector_with(projector::default_data(), "/a");
    p.set_value("K".to_string(), "one".to_string());
    p.set_value("K".to_string(), "two".to_string());
    let all = p.get_value_all();
    assert_eq!(dir_get(&all, "K"), Some("two".to_string()));
    assert_eq!(all.entries.len(), 1);
}

#[test]
fn remove_value_twice_is_idempotent() {
    let mut p1 = projector_with(store_b(), "/a/b");
    p1.remove_value("Y");
    let once = p1.save_contents();

    let mut p2 = projector_with(store_b(), "/a/b");
    p2.remove_value("Y");
    p2.remove_value("Y");
    let twice = p2.save_contents();

    assert_eq!(once, twice);
}

#[test]
fn remove_value_of_unknown_directory_is_a_noop() {
    let mut p = projector_with(store_b(), "/elsewhere");
    let before = p.save_contents();
    p.remove_value("X");
    assert_eq!(p.save_contents(), before);
}

#[test]
fn only_pwd_entries_resolve_exactly() {
    let mut d = projector::default_data();
    d.upsert("/a/b".to_string(), "X".to_string(), "1".to_string());
    d.upsert("/a/b".to_string(), "Y".to_string(), "2".to_string());
    let p = projector_with(d, "/a/b");
    let all = p.get_value_all();
    assert_eq!(all.entries.len(), 2);
    assert_eq!(dir_get(&all, "X"), Some("1".to_string()));
    assert_eq!(dir_get(&all, "Y"), Some("2".to_string()));
}

#[test]
fn sibling_directories_do_not_leak() {
    let mut d = projector::default_data();
    d.upsert("/a/c".to_string(), "S".to_string(), "sibling".to_string());
    let p = projector_with(d, "/a/b");
    assert_eq!(p.get_value("S".to_string()), None);
    assert_eq!(p.get_value_all().entries.len(), 0);
}
