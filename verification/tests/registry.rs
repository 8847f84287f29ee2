use projwarp::config::{derive_alias, Config};

#[test]
fn insert_then_lookup() {
    let mut cfg = Config::new();
    cfg.insert("backend".to_string(), "/home/alice/work/backend".to_string());
    assert_eq!(cfg.projects.len(), 1);
    assert_eq!(cfg.projects[0].0, "backend");
    assert_eq!(cfg.projects[0].1, "/home/alice/work/backend");
}

#[test]
fn insert_replaces_in_place() {
    let mut cfg = Config::new();
    cfg.insert("a".to_string(), "/x".to_string());
    cfg.insert("b".to_string(), "/y".to_string());
    cfg.insert("a".to_string(), "/z".to_string());
    assert_eq!(cfg.projects.len(), 2);
    assert_eq!(cfg.projects[0], ("a".to_string(), "/z".to_string()));
    assert_eq!(cfg.projects[1], ("b".to_string(), "/y".to_string()));
}

#[test]
fn remove_present() {
    let mut cfg = Config::new();
    cfg.insert("a".to_string(), "/x".to_string());
    cfg.insert("b".to_string(), "/y".to_string());
    assert!(cfg.remove(&"a".to_string()));
    assert_eq!(cfg.projects.len(), 1);
    assert_eq!(cfg.projects[0].0, "b");
}

#[test]
fn remove_absent_leaves_registry_unchanged() {
    let mut cfg = Config::new();
    cfg.insert("a".to_string(), "/x".to_string());
    let before = cfg.projects.clone();
    assert!(!cfg.remove(&"missing".to_string()));
    assert_eq!(cfg.projects, before);
}

#[test]
fn rename_present_moves_path() {
    let mut cfg = Config::new();
    cfg.insert("old".to_string(), "/x".to_string());
    assert!(cfg.rename(&"old".to_string(), "new".to_string()));
    assert_eq!(cfg.projects.len(), 1);
    assert_eq!(cfg.projects[0], ("new".to_string(), "/x".to_string()));
}

#[test]
fn rename_absent_reports_not_found() {
    let mut cfg = Config::new();
    cfg.insert("a".to_string(), "/x".to_string());
    let before = cfg.projects.clone();
    assert!(!cfg.rename(&"missing".to_string(), "other".to_string()));
    assert_eq!(cfg.projects, before);
}

#[test]
fn rename_overwrites_existing_target() {
    let mut cfg = Config::new();
    cfg.insert("old".to_string(), "/from".to_string());
    cfg.insert("new".to_string(), "/pre".to_string());
    assert!(cfg.rename(&"old".to_string(), "new".to_string()));
    assert_eq!(cfg.projects.len(), 1);
    assert_eq!(cfg.projects[0], ("new".to_string(), "/from".to_string()));
}

#[test]
fn derive_alias_sanitizes_last_segment() {
    assert_eq!(derive_alias("/home/alice/My Project!"), "My_Project_");
}

#[test]
fn derive_alias_plain_segment() {
    assert_eq!(derive_alias("/home/alice/work/backend"), "backend");
}

#[test]
fn derive_alias_backslash_separators() {
    assert_eq!(derive_alias("C:\\Users\\dev\\proj-x"), "proj_x");
}

#[test]
fn derive_alias_empty_segment_falls_back() {
    assert_eq!(derive_alias(""), "unknown");
    assert_eq!(derive_alias("/a/b/"), "unknown");
}
