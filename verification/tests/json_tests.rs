use projector::json::{from_json, to_json};
use projector::projector::Projector;

fn sample() -> projector::store::Data {
    let mut d = projector::default_data();
    d.upsert("/home/user/proj".to_string(), "ENV".to_string(), "dev".to_string());
    d.upsert("/home/user".to_string(), "ENV".to_string(), "prod".to_string());
    d.upsert("/home/user".to_string(), "PORT".to_string(), "8080".to_string());
    d
}

#[test]
fn writes_the_documented_format() {
    let mut d = projector::default_data();
    d.upsert("/home/user/proj".to_string(), "ENV".to_string(), "dev".to_string());
    assert_eq!(to_json(&d), "{\"projector\":{\"/home/user/proj\":{\"ENV\":\"dev\"}}}");
}

#[test]
fn writes_the_empty_store() {
    let d = projector::default_data();
    assert_eq!(to_json(&d), "{\"projector\":{}}");
}

#[test]
fn round_trips_a_store() {
    let d = sample();
    let text = to_json(&d);
    let back = from_json(&text).expect("the writer's own document reads back");
    assert_eq!(to_json(&back), text);
    let p = Projector {
        config: String::new(),
        pwd: "/home/user/proj".to_string(),
        data: back,
    };
    assert_eq!(p.get_value("PORT".to_string()), Some("8080".to_string()));
    assert_eq!(p.get_value("ENV".to_string()), Some("prod".to_string()));
}

#[test]
fn round_trips_escaped_characters() {
    let mut d = projector::default_data();
    d.upsert(
        "/with \"quotes\"".to_string(),
        "back\\slash".to_string(),
        "line\nbreak\tand\u{1}control".to_string(),
    );
    let text = to_json(&d);
    let back = from_json(&text).expect("escapes read back");
    let p = Projector { config: String::new(), pwd: "/with \"quotes\"".to_string(), data: back };
    assert_eq!(
        p.get_value("back\\slash".to_string()),
        Some("line\nbreak\tand\u{1}control".to_string())
    );
}

#[test]
fn round_trips_the_empty_directory_row() {
    let mut p = Projector {
        config: String::new(),
        pwd: "/a".to_string(),
        data: projector::default_data(),
    };
    p.set_value("K".to_string(), "v".to_string());
    p.remove_value("K");
    let text = p.save_contents();
    assert_eq!(text, "{\"projector\":{\"/a\":{}}}");
    let back = from_json(&text).expect("an empty row reads back");
    assert_eq!(to_json(&back), text);
}

#[test]
fn rejects_malformed_documents() {
    assert!(from_json("").is_none());
    assert!(from_json("{}").is_none());
    assert!(from_json("{\"projector\":").is_none());
    assert!(from_json("not json at all").is_none());
    assert!(from_json("{\"projector\":{\"/a\":{\"k\":\"v\"}}} ").is_none());
    assert!(from_json("{\"other\":{}}").is_none());
}

#[test]
fn new_falls_back_to_empty_on_garbage() {
    let p = Projector::new(
        "/tmp/projector.json".to_string(),
        "/a".to_string(),
        Some("{\"projector\": oops".to_string()),
    );
    assert_eq!(p.save_contents(), "{\"projector\":{}}");
}

#[test]
fn new_reads_a_saved_store() {
    let d = sample();
    let text = to_json(&d);
    let p = Projector::new(
        "/tmp/projector.json".to_string(),
        "/home/user".to_string(),
        Some(text.clone()),
    );
    assert_eq!(p.save_contents(), text);
    assert_eq!(p.get_value("ENV".to_string()), Some("prod".to_string()));
}

#[test]
fn new_without_a_file_starts_empty() {
    let p = Projector::new("/tmp/projector.json".to_string(), "/a".to_string(), None);
    assert_eq!(p.save_contents(), "{\"projector\":{}}");
}

#[test]
fn document_is_valid_json_for_serde() {
    let d = sample();
    let text = to_json(&d);
    let v: serde_json::Value = serde_json::from_str(&text).expect("the writer emits JSON");
    assert_eq!(v["projector"]["/home/user"]["ENV"], serde_json::Value::String("prod".into()));
    assert_eq!(
        v["projector"]["/home/user/proj"]["ENV"],
        serde_json::Value::String("dev".into())
    );
}

#[test]
fn escaped_document_is_valid_json_for_serde() {
    let mut d = projector::default_data();
    d.upsert("/q\"uote".to_string(), "k\\ey".to_string(), "v\nal\u{2}ue".to_string());
    let text = to_json(&d);
    let v: serde_json::Value = serde_json::from_str(&text).expect("escapes are valid JSON");
    assert_eq!(
        v["projector"]["/q\"uote"]["k\\ey"],
        serde_json::Value::String("v\nal\u{2}ue".into())
    );
}

#[test]
fn reads_serdes_own_compact_document() {
    let mut inner = serde_json::Map::new();
    inner.insert("ENV".to_string(), serde_json::Value::String("dev".to_string()));
    let mut dirs = serde_json::Map::new();
    dirs.insert("/home/user/proj".to_string(), serde_json::Value::Object(inner));
    let mut top = serde_json::Map::new();
    top.insert("projector".to_string(), serde_json::Value::Object(dirs));
    let text = serde_json::to_string(&serde_json::Value::Object(top)).unwrap();

    let back = from_json(&text).expect("a compact serde document reads back");
    let p = Projector {
        config: String::new(),
        pwd: "/home/user/proj".to_string(),
        data: back,
    };
    assert_eq!(p.get_value("ENV".to_string()), Some("dev".to_string()));
}
