use pf::cli::LsArgs;
use pf::config::Config;
use pf::listing::contains_sub;

fn cfg() -> Config {
    let mut c = Config::new();
    c.add_project("Web", "/a");
    c.add_project("api", "/b");
    c
}

fn args(sort: &str, filter: Option<&str>, favorites: bool, recent: bool) -> LsArgs {
    LsArgs {
        sort: sort.to_string(),
        filter: filter.map(|f| f.to_string()),
        favorites,
        recent,
    }
}

#[test]
fn filter_is_case_insensitive_substring_on_name_or_path() {
    let c = cfg();
    let rows = c.list_projects(&args("name", Some("we"), false, false));
    assert_eq!(rows.len(), 1);
    assert_eq!(rows[0].0, "Web");
    // matches against the path too
    let rows = c.list_projects(&args("name", Some("/b"), false, false));
    assert_eq!(rows.len(), 1);
    assert_eq!(rows[0].0, "api");
}

#[test]
fn filter_uppercase_matches_lowercase_name() {
    let mut c = Config::new();
    c.add_project("web", "/a");
    let rows = c.list_projects(&args("name", Some("WE"), false, false));
    assert_eq!(rows.len(), 1);
    assert_eq!(rows[0].0, "web");
}

#[test]
fn sorts_by_name_ascending() {
    let c = cfg();
    let rows = c.list_projects(&args("name", None, false, false));
    let names: Vec<&str> = rows.iter().map(|r| r.0.as_str()).collect();
    assert_eq!(names, vec!["Web", "api"]); // 'W' < 'a' by code point
}

#[test]
fn sorts_by_path_ascending() {
    let mut c = Config::new();
    c.add_project("one", "/z");
    c.add_project("two", "/a");
    let rows = c.list_projects(&args("path", None, false, false));
    let paths: Vec<&str> = rows.iter().map(|r| r.1.as_str()).collect();
    assert_eq!(paths, vec!["/a", "/z"]);
}

#[test]
fn unknown_sort_key_keeps_input_order() {
    let mut c = Config::new();
    c.add_project("zz", "/1");
    c.add_project("aa", "/2");
    let rows = c.list_projects(&args("size", None, false, false));
    let names: Vec<&str> = rows.iter().map(|r| r.0.as_str()).collect();
    assert_eq!(names, vec!["zz", "aa"]);
}

#[test]
fn favorites_and_recent_narrowing() {
    let mut c = cfg();
    c.set_favorite("api", true);
    c.add_recent("Web");
    let favs = c.list_projects(&args("name", None, true, false));
    assert_eq!(favs.len(), 1);
    assert_eq!(favs[0].0, "api");
    assert!(favs[0].2);
    let rec = c.list_projects(&args("name", None, false, true));
    assert_eq!(rec.len(), 1);
    assert_eq!(rec[0].0, "Web");
    assert!(!rec[0].2);
}

#[test]
fn substring_search_agrees_with_std() {
    assert!(contains_sub("hello world", "o w"));
    assert!(contains_sub("hello", ""));
    assert!(!contains_sub("", "a"));
    assert!(!contains_sub("abc", "abd"));
    assert!(contains_sub("abc", "abc"));
}
