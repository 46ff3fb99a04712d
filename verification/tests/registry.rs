use pf::config::{Config, RegistryError, RECENT_LIMIT};

fn names(v: &[(&str, &str)]) -> Config {
    let mut c = Config::new();
    for (n, p) in v {
        c.add_project(n, p);
    }
    c
}

#[test]
fn add_project_inserts_and_overwrites() {
    let mut c = Config::new();
    c.add_project("web", "/srv/web");
    c.add_project("api", "/srv/api");
    assert_eq!(c.get_path("web"), Some("/srv/web".to_string()));
    assert_eq!(c.get_path("api"), Some("/srv/api".to_string()));
    // the most recently added path wins, and the name stays unique
    c.add_project("web", "/new/web");
    assert_eq!(c.get_path("web"), Some("/new/web".to_string()));
    assert_eq!(c.projects.len(), 2);
}

#[test]
fn add_project_same_path_twice_is_allowed() {
    let mut c = Config::new();
    c.add_project("a", "/shared");
    c.add_project("b", "/shared");
    assert_eq!(c.get_path("a"), Some("/shared".to_string()));
    assert_eq!(c.get_path("b"), Some("/shared".to_string()));
}

#[test]
fn recent_deduplicates_and_fronts() {
    let mut c = Config::new();
    c.add_recent("a");
    c.add_recent("b");
    c.add_recent("a");
    assert_eq!(c.recent, vec!["a".to_string(), "b".to_string()]);
}

#[test]
fn recent_is_bounded() {
    let mut c = Config::new();
    for i in 0..15 {
        c.add_recent(&format!("p{}", i));
    }
    assert_eq!(c.recent.len(), RECENT_LIMIT);
    assert_eq!(c.recent[0], "p14");
    assert_eq!(c.recent[9], "p5");
}

#[test]
fn favorite_idempotent() {
    let mut c = names(&[("x", "/p")]);
    c.set_favorite("x", true);
    let once = c.favorites.clone();
    c.set_favorite("x", true);
    assert_eq!(c.favorites, once);
    assert!(c.is_favorite("x"));
}

#[test]
fn unset_favorite_of_non_favorite_is_noop() {
    let mut c = names(&[("x", "/p")]);
    c.set_favorite("x", false);
    assert!(c.favorites.is_empty());
}

#[test]
fn remove_cascades_to_favorites() {
    let mut c = names(&[("x", "/p")]);
    c.set_favorite("x", true);
    c.remove_project("x");
    assert!(!c.contains_project("x"));
    assert!(!c.is_favorite("x"));
}

#[test]
fn remove_keeps_recent_entries() {
    let mut c = names(&[("x", "/p")]);
    c.add_recent("x");
    c.remove_project("x");
    assert_eq!(c.recent, vec!["x".to_string()]);
}

#[test]
fn remove_of_missing_name_is_noop() {
    let mut c = names(&[("x", "/p")]);
    c.remove_project("y");
    assert!(c.contains_project("x"));
}

#[test]
fn rename_moves_path_and_drops_favorite() {
    let mut c = names(&[("x", "/p")]);
    c.set_favorite("x", true);
    assert_eq!(c.rename_project("x", "y"), Ok(()));
    assert_eq!(c.get_path("y"), Some("/p".to_string()));
    assert!(!c.contains_project("x"));
    assert!(!c.is_favorite("x"));
    assert!(!c.is_favorite("y"));
}

#[test]
fn rename_missing_name_fails() {
    let mut c = Config::new();
    assert_eq!(c.rename_project("x", "y"), Err(RegistryError::NotFound));
}

#[test]
fn resolve_goto_returns_path_and_records() {
    let mut c = names(&[("web", "/srv/web")]);
    let got = c.resolve_goto("web");
    assert_eq!(got, Ok("/srv/web".to_string()));
    assert_eq!(c.goto_path, Some("/srv/web".to_string()));
    assert_eq!(c.recent, vec!["web".to_string()]);
}

#[test]
fn resolve_goto_missing_fails_and_leaves_state() {
    let mut c = names(&[("web", "/srv/web")]);
    assert_eq!(c.resolve_goto("api"), Err(RegistryError::NotFound));
    assert_eq!(c.goto_path, None);
    assert!(c.recent.is_empty());
}

#[test]
fn open_project_records_without_goto() {
    let mut c = names(&[("web", "/srv/web")]);
    assert_eq!(c.open_project("web"), Ok("/srv/web".to_string()));
    assert_eq!(c.goto_path, None);
    assert_eq!(c.recent, vec!["web".to_string()]);
}

#[test]
fn set_favorite_checked_requires_project_only_to_set() {
    let mut c = Config::new();
    assert_eq!(c.set_favorite_checked("x", true), Err(RegistryError::NotFound));
    // unsetting is unconditional, even for a missing project
    assert_eq!(c.set_favorite_checked("x", false), Ok(()));
    c.add_project("x", "/p");
    assert_eq!(c.set_favorite_checked("x", true), Ok(()));
    assert!(c.is_favorite("x"));
}

#[test]
fn merge_incoming_wins_on_collision() {
    let mut target = names(&[("a", "/1")]);
    let incoming = names(&[("a", "/2")]);
    target.merge_from(&incoming);
    assert_eq!(target.get_path("a"), Some("/2".to_string()));
}

#[test]
fn merge_unions_projects_and_favorites() {
    let mut target = names(&[("a", "/1"), ("b", "/2")]);
    target.set_favorite("a", true);
    let mut incoming = names(&[("c", "/3")]);
    incoming.set_favorite("c", true);
    // a favorite with no project at all is still tolerated on import
    incoming.favorites.push("ghost".to_string());
    target.merge_from(&incoming);
    assert_eq!(target.get_path("b"), Some("/2".to_string()));
    assert_eq!(target.get_path("c"), Some("/3".to_string()));
    assert!(target.is_favorite("a"));
    assert!(target.is_favorite("c"));
    assert!(target.is_favorite("ghost"));
}

#[test]
fn merge_replays_recent_in_incoming_order() {
    let mut target = Config::new();
    target.add_recent("old");
    let mut incoming = Config::new();
    incoming.add_recent("b");
    incoming.add_recent("a"); // incoming.recent == ["a", "b"]
    target.merge_from(&incoming);
    // replayed front to back: "a" recorded, then "b" recorded last
    assert_eq!(
        target.recent,
        vec!["b".to_string(), "a".to_string(), "old".to_string()]
    );
}

#[test]
fn merge_never_touches_goto() {
    let mut target = Config::new();
    target.goto_path = Some("/kept".to_string());
    let mut incoming = Config::new();
    incoming.goto_path = Some("/other".to_string());
    target.merge_from(&incoming);
    assert_eq!(target.goto_path, Some("/kept".to_string()));
}

#[test]
fn recent_resolved_skips_removed_projects() {
    let mut c = names(&[("a", "/1"), ("b", "/2")]);
    c.add_recent("a");
    c.add_recent("b");
    c.remove_project("a");
    let rows = c.recent_resolved();
    assert_eq!(rows, vec![("b".to_string(), "/2".to_string())]);
}

#[test]
fn recent_moves_middle_entry_to_front() {
    let mut c = Config::new();
    c.add_recent("c");
    c.add_recent("b");
    c.add_recent("a"); // ["a", "b", "c"]
    c.add_recent("b");
    assert_eq!(
        c.recent,
        vec!["b".to_string(), "a".to_string(), "c".to_string()]
    );
}

#[test]
fn rename_onto_existing_name_overwrites_it() {
    let mut c = names(&[("x", "/px"), ("y", "/py")]);
    c.set_favorite("y", true);
    assert_eq!(c.rename_project("x", "y"), Ok(()));
    assert_eq!(c.get_path("y"), Some("/px".to_string()));
    assert!(!c.contains_project("x"));
    // only the old name's favorite mark is dropped
    assert!(c.is_favorite("y"));
    assert_eq!(c.projects.len(), 1);
}

#[test]
fn rename_to_same_name_keeps_path_drops_favorite() {
    let mut c = names(&[("x", "/p")]);
    c.set_favorite("x", true);
    assert_eq!(c.rename_project("x", "x"), Ok(()));
    assert_eq!(c.get_path("x"), Some("/p".to_string()));
    assert!(!c.is_favorite("x"));
}

#[test]
fn merge_from_empty_changes_nothing() {
    let mut target = names(&[("a", "/1")]);
    target.set_favorite("a", true);
    target.add_recent("a");
    let before = (target.projects.clone(), target.favorites.clone(), target.recent.clone());
    target.merge_from(&Config::new());
    assert_eq!(target.projects, before.0);
    assert_eq!(target.favorites, before.1);
    assert_eq!(target.recent, before.2);
}
