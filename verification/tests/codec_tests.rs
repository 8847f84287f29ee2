use projwarp::config::Config;

#[test]
fn to_json_empty_registry() {
    let cfg = Config::new();
    assert_eq!(cfg.to_json(), "{\n  \"projects\": {}\n}");
}

#[test]
fn to_json_two_entries() {
    let mut cfg = Config::new();
    cfg.insert("backend".to_string(), "/home/alice/work/backend".to_string());
    cfg.insert("infra".to_string(), "/home/alice/work/infra-tools".to_string());
    let expected = "{\n  \"projects\": {\n    \"backend\": \"/home/alice/work/backend\",\n    \"infra\": \"/home/alice/work/infra-tools\"\n  }\n}";
    assert_eq!(cfg.to_json(), expected);
}

#[test]
fn to_json_matches_serde_json_pretty() {
    // Aliases inserted in sorted order, since serde_json's map sorts keys.
    let mut cfg = Config::new();
    cfg.insert("alpha".to_string(), "/a\nb".to_string());
    cfg.insert("beta".to_string(), "quo\"te\\".to_string());
    let mut inner = serde_json::Map::new();
    inner.insert(
        "alpha".to_string(),
        serde_json::Value::String("/a\nb".to_string()),
    );
    inner.insert(
        "beta".to_string(),
        serde_json::Value::String("quo\"te\\".to_string()),
    );
    let mut outer = serde_json::Map::new();
    outer.insert("projects".to_string(), serde_json::Value::Object(inner));
    let doc = serde_json::Value::Object(outer);
    assert_eq!(cfg.to_json(), serde_json::to_string_pretty(&doc).unwrap());
}

#[test]
fn from_json_reads_entries() {
    let text = "{\n  \"projects\": {\n    \"backend\": \"/home/alice/work/backend\",\n    \"infra\": \"/tools\"\n  }\n}";
    let cfg = Config::from_json(text);
    assert_eq!(cfg.projects.len(), 2);
    assert_eq!(
        cfg.projects[0],
        ("backend".to_string(), "/home/alice/work/backend".to_string())
    );
    assert_eq!(cfg.projects[1], ("infra".to_string(), "/tools".to_string()));
}

#[test]
fn from_json_compact_whitespace() {
    let cfg = Config::from_json("{\"projects\":{\"a\":\"/x\"}}");
    assert_eq!(cfg.projects.len(), 1);
    assert_eq!(cfg.projects[0], ("a".to_string(), "/x".to_string()));
}

#[test]
fn from_json_invalid_syntax_yields_empty() {
    assert!(Config::from_json("not json at all").projects.is_empty());
    assert!(Config::from_json("{\"projects\": ").projects.is_empty());
    assert!(Config::from_json("{}").projects.is_empty());
    assert!(Config::from_json("").projects.is_empty());
    assert!(Config::from_json("{\"other\": {}}").projects.is_empty());
    assert!(Config::from_json("{\"projects\": {\"a\": 5}}").projects.is_empty());
}

#[test]
fn from_json_tolerates_trailing_comma() {
    // Lenient reader: a trailing comma before the close brace is accepted.
    let cfg = Config::from_json("{\"projects\": {\"a\": \"x\",}}");
    assert_eq!(cfg.projects, vec![("a".to_string(), "x".to_string())]);
}

#[test]
fn from_json_duplicate_alias_yields_empty() {
    let cfg = Config::from_json("{\"projects\": {\"a\": \"/x\", \"a\": \"/y\"}}");
    assert!(cfg.projects.is_empty());
}

#[test]
fn from_json_unicode_escape() {
    let cfg = Config::from_json("{\"projects\": {\"t\\u0041b\": \"/x\"}}");
    assert_eq!(cfg.projects.len(), 1);
    assert_eq!(cfg.projects[0].0, "tAb");
}

#[test]
fn round_trip_preserves_entries() {
    let mut cfg = Config::new();
    cfg.insert("we\"ird\\al\nias".to_string(), "/pa th/\t".to_string());
    cfg.insert("ctl\u{1}".to_string(), "/x\u{8}\u{c}\r".to_string());
    cfg.insert("plain".to_string(), "/ok".to_string());
    let text = cfg.to_json();
    let back = Config::from_json(&text);
    assert_eq!(back.projects, cfg.projects);
}

#[test]
fn insert_save_load_contains_binding() {
    let mut cfg = Config::new();
    cfg.insert("seed".to_string(), "/s".to_string());
    cfg.insert("fresh".to_string(), "/f".to_string());
    let back = Config::from_json(&cfg.to_json());
    assert!(back
        .projects
        .iter()
        .any(|(a, p)| a == "fresh" && p == "/f"));
}

#[test]
fn save_after_load_is_idempotent() {
    let mut cfg = Config::new();
    cfg.insert("a".to_string(), "/x".to_string());
    cfg.insert("b".to_string(), "/y\nz".to_string());
    let s1 = cfg.to_json();
    let s2 = Config::from_json(&s1).to_json();
    let s3 = Config::from_json(&s2).to_json();
    assert_eq!(s2, s1);
    assert_eq!(s3, s2);
}

#[test]
fn save_after_load_of_garbage_is_idempotent() {
    let s1 = Config::from_json("{{{ garbage").to_json();
    let s2 = Config::from_json(&s1).to_json();
    assert_eq!(s2, s1);
    assert_eq!(s1, "{\n  \"projects\": {}\n}");
}
