use pf::config::Config;
use pf::doc::ConfigDoc;

#[test]
fn round_trip_preserves_registry() {
    let mut c = Config::new();
    c.add_project("web", "/srv/web");
    c.add_project("api", "/srv/api");
    c.set_favorite("api", true);
    c.add_recent("web");
    c.add_recent("api");
    c.goto_path = Some("/srv/api".to_string());
    let doc = c.to_doc();
    let back = Config::from_doc(doc);
    assert_eq!(back.projects, c.projects);
    assert_eq!(back.favorites, c.favorites);
    assert_eq!(back.recent, c.recent);
    assert_eq!(back.goto_path, c.goto_path);
}

#[test]
fn missing_optional_fields_default_to_empty() {
    let doc = ConfigDoc {
        goto_path: None,
        projects: Vec::new(),
        favorites: None,
        recent: None,
    };
    let c = Config::from_doc(doc);
    assert!(c.projects.is_empty());
    assert!(c.favorites.is_empty());
    assert!(c.recent.is_empty());
    assert_eq!(c.goto_path, None);
}

#[test]
fn loading_sanitizes_a_malformed_document() {
    let doc = ConfigDoc {
        goto_path: Some("/g".to_string()),
        projects: vec![
            ("a".to_string(), "/1".to_string()),
            ("a".to_string(), "/2".to_string()),
        ],
        favorites: Some(vec!["f".to_string(), "f".to_string()]),
        recent: Some(
            (0..15).map(|i| format!("r{}", i)).chain(["r0".to_string()]).collect(),
        ),
    };
    let c = Config::from_doc(doc);
    // duplicate project names: the last path wins
    assert_eq!(c.projects.len(), 1);
    assert_eq!(c.get_path("a"), Some("/2".to_string()));
    // duplicate favorites collapse
    assert_eq!(c.favorites, vec!["f".to_string()]);
    // recent is deduplicated and cut to capacity, keeping the front
    assert_eq!(c.recent.len(), 10);
    assert_eq!(c.recent[0], "r0");
    assert_eq!(c.recent[9], "r9");
    assert_eq!(c.goto_path, Some("/g".to_string()));
}

#[test]
fn to_doc_always_writes_both_optional_fields() {
    let c = Config::new();
    let doc = c.to_doc();
    assert_eq!(doc.favorites, Some(Vec::new()));
    assert_eq!(doc.recent, Some(Vec::new()));
}
