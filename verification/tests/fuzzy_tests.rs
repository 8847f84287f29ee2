use projwarp::config::Config;
use projwarp::fuzzy::{find_match, fuzzy_score};

fn registry(pairs: &[(&str, &str)]) -> Config {
    let mut cfg = Config::new();
    for (a, p) in pairs {
        cfg.insert(a.to_string(), p.to_string());
    }
    cfg
}

#[test]
fn exact_query_resolves_to_its_path() {
    let cfg = registry(&[("alpha", "/a"), ("beta", "/b")]);
    assert_eq!(find_match(&cfg, "alpha"), Some("/a".to_string()));
    assert_eq!(find_match(&cfg, "beta"), Some("/b".to_string()));
}

#[test]
fn empty_registry_resolves_to_none() {
    let cfg = Config::new();
    assert_eq!(find_match(&cfg, "anything"), None);
    assert_eq!(find_match(&cfg, ""), None);
}

#[test]
fn subsequence_beats_non_subsequence() {
    // "bend" is a subsequence of "backend" but not of "be".
    let cfg = registry(&[("be", "/a/be"), ("backend", "/a/backend")]);
    assert_eq!(find_match(&cfg, "bend"), Some("/a/backend".to_string()));
}

#[test]
fn non_subsequence_is_disqualified() {
    assert_eq!(fuzzy_score("bend", "be"), None);
    assert!(fuzzy_score("bend", "backend").is_some());
    assert_eq!(fuzzy_score("xyz", "abc"), None);
}

#[test]
fn empty_query_scores_zero() {
    assert_eq!(fuzzy_score("", "anything"), Some(0));
}

#[test]
fn contiguous_match_beats_scattered() {
    let contiguous = fuzzy_score("ab", "xabx").unwrap();
    let scattered = fuzzy_score("ab", "xaxb").unwrap();
    assert!(contiguous > scattered);
}

#[test]
fn start_boundary_beats_middle() {
    let at_start = fuzzy_score("a", "ax").unwrap();
    let in_middle = fuzzy_score("a", "xa").unwrap();
    assert!(at_start > in_middle);
}

#[test]
fn separator_boundary_beats_plain() {
    let after_sep = fuzzy_score("b", "a_b").unwrap();
    let plain = fuzzy_score("b", "ab").unwrap();
    assert!(after_sep > plain);
}

#[test]
fn case_transition_counts_as_boundary() {
    let transition = fuzzy_score("B", "aB").unwrap();
    let plain = fuzzy_score("B", "AB").unwrap();
    assert!(transition > plain);
}

#[test]
fn hopeless_query_still_returns_best_candidate() {
    // A non-empty registry always yields a candidate, even when no alias
    // contains the query as a subsequence.
    let cfg = registry(&[("only", "/x")]);
    assert_eq!(find_match(&cfg, "zzz"), Some("/x".to_string()));
}

#[test]
fn tie_breaks_to_earliest_inserted() {
    let first = registry(&[("abx", "/1"), ("aby", "/2")]);
    assert_eq!(find_match(&first, "ab"), Some("/1".to_string()));
    let reversed = registry(&[("aby", "/2"), ("abx", "/1")]);
    assert_eq!(find_match(&reversed, "ab"), Some("/2".to_string()));
}
