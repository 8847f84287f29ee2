use projwarp::cli::{Command, Outcome, step};
use projwarp::config::Config;

#[test]
fn step_add_derives_alias_from_cwd() {
    let mut cfg = Config::new();
    let r = step(
        &mut cfg,
        Command::Add { alias: None },
        "/home/alice/My Project!",
    );
    match r {
        Outcome::Added { alias } => assert_eq!(alias, "My_Project_"),
        _ => panic!("expected Added"),
    }
    assert_eq!(
        cfg.projects,
        vec![("My_Project_".to_string(), "/home/alice/My Project!".to_string())]
    );
}

#[test]
fn step_add_uses_explicit_alias() {
    let mut cfg = Config::new();
    let r = step(
        &mut cfg,
        Command::Add {
            alias: Some("api".to_string()),
        },
        "/srv/api",
    );
    assert!(matches!(r, Outcome::Added { .. }));
    assert_eq!(cfg.projects, vec![("api".to_string(), "/srv/api".to_string())]);
}

#[test]
fn step_go_resolves_path() {
    let mut cfg = Config::new();
    cfg.insert("backend".to_string(), "/a/backend".to_string());
    let r = step(
        &mut cfg,
        Command::Go {
            name: "backend".to_string(),
            code: true,
        },
        "/",
    );
    match r {
        Outcome::Resolved { path, code } => {
            assert_eq!(path, "/a/backend");
            assert!(code);
        },
        _ => panic!("expected Resolved"),
    }
}

#[test]
fn step_go_on_empty_registry_reports_no_match() {
    let mut cfg = Config::new();
    let r = step(
        &mut cfg,
        Command::Go {
            name: "anything".to_string(),
            code: false,
        },
        "/",
    );
    assert!(matches!(r, Outcome::NoMatch));
}

#[test]
fn step_remove_absent_reports_not_found() {
    let mut cfg = Config::new();
    cfg.insert("keep".to_string(), "/k".to_string());
    let before = cfg.projects.clone();
    let r = step(
        &mut cfg,
        Command::Remove {
            alias: "missing".to_string(),
        },
        "/",
    );
    assert!(matches!(r, Outcome::NotFound));
    assert_eq!(cfg.projects, before);
}

#[test]
fn step_remove_present() {
    let mut cfg = Config::new();
    cfg.insert("gone".to_string(), "/g".to_string());
    let r = step(
        &mut cfg,
        Command::Remove {
            alias: "gone".to_string(),
        },
        "/",
    );
    assert!(matches!(r, Outcome::Removed));
    assert!(cfg.projects.is_empty());
}

#[test]
fn step_rename_moves_alias() {
    let mut cfg = Config::new();
    cfg.insert("old".to_string(), "/p".to_string());
    let r = step(
        &mut cfg,
        Command::Rename {
            old: "old".to_string(),
            new: "new".to_string(),
        },
        "/",
    );
    assert!(matches!(r, Outcome::Renamed));
    assert_eq!(cfg.projects, vec![("new".to_string(), "/p".to_string())]);
}

#[test]
fn step_list_and_installers_do_not_touch_registry() {
    let mut cfg = Config::new();
    cfg.insert("a".to_string(), "/x".to_string());
    let before = cfg.projects.clone();
    assert!(matches!(step(&mut cfg, Command::List, "/"), Outcome::Listed));
    assert!(matches!(
        step(&mut cfg, Command::Install, "/"),
        Outcome::Delegated
    ));
    assert!(matches!(
        step(&mut cfg, Command::Uninstall, "/"),
        Outcome::Delegated
    ));
    assert_eq!(cfg.projects, before);
}
