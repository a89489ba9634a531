use stovoy_site::settings::{default_bind, default_static_dir};
use stovoy_site::snapshot::{is_ignored_component, is_indexed_path, normalize_source_path, SourceFileMap};
use stovoy_site::theme::{current_pref, set_pref};

fn sample_map() -> SourceFileMap {
    SourceFileMap::from_entries(vec![
        ("backend/src/lib.rs".to_string(), "pub fn x() {}\n".to_string()),
        ("Cargo.toml".to_string(), "[workspace]\n".to_string()),
        ("a/b.css".to_string(), "old".to_string()),
        ("a/b.css".to_string(), "new".to_string()),
    ])
}

#[test]
fn traversal_segments_are_dropped() {
    assert_eq!(normalize_source_path("a/../../etc/passwd"), "a/etc/passwd");
    assert_eq!(normalize_source_path("../../etc/passwd"), "etc/passwd");
    assert_eq!(normalize_source_path("//backend//src/./lib.rs/"), "backend/src/./lib.rs");
    assert_eq!(normalize_source_path(""), "");
    assert_eq!(normalize_source_path("../.."), "");
    assert_eq!(normalize_source_path("...x/..y"), "...x/..y");
}

#[test]
fn lookup_of_traversal_attempt_is_not_found() {
    let map = sample_map();
    assert_eq!(map.lookup("../../etc/passwd"), None);
    assert_eq!(map.lookup("a/../../etc/passwd"), None);
}

#[test]
fn lookup_returns_exact_content() {
    let map = sample_map();
    assert_eq!(map.lookup("backend/src/lib.rs"), Some("pub fn x() {}\n".to_string()));
    assert_eq!(map.lookup("/backend/../src/lib.rs"), Some("pub fn x() {}\n".to_string()));
    assert_eq!(map.lookup("../backend//src/lib.rs"), Some("pub fn x() {}\n".to_string()));
    assert_eq!(map.lookup("backend/src/lib"), None);
    assert_eq!(map.lookup("backend/src"), None);
}

#[test]
fn later_entry_replaces_earlier_and_paths_are_sorted() {
    let map = sample_map();
    assert_eq!(map.lookup("a/b.css"), Some("new".to_string()));
    assert_eq!(map.paths(), vec!["Cargo.toml", "a/b.css", "backend/src/lib.rs"]);
    assert!(SourceFileMap::new().paths().is_empty());
}

#[test]
fn ignored_components() {
    assert!(is_ignored_component(".git"));
    assert!(is_ignored_component("target"));
    assert!(is_ignored_component("dist"));
    assert!(is_ignored_component("node_modules"));
    assert!(is_ignored_component("git"));
    assert!(is_ignored_component("frontend_rust"));
    assert!(!is_ignored_component("src"));
    assert!(!is_ignored_component("targets"));
    assert!(!is_ignored_component(""));
}

#[test]
fn indexed_paths() {
    assert!(is_indexed_path("backend/src/lib.rs"));
    assert!(is_indexed_path("Cargo.toml"));
    assert!(is_indexed_path("frontend/static/site.css"));
    assert!(is_indexed_path("index.html"));
    assert!(!is_indexed_path("README.md"));
    assert!(!is_indexed_path("target/debug/build.rs"));
    assert!(!is_indexed_path("a/node_modules/x.css"));
    assert!(!is_indexed_path("frontend/.cache/x.rs"));
    assert!(!is_indexed_path(".rs"));
    assert!(is_indexed_path(".a.rs"));
    assert!(is_indexed_path(".rustfmt.toml"));
    assert!(is_indexed_path("src/.hidden.css"));
    assert!(is_indexed_path("src/target.rs"));
    assert!(!is_indexed_path(".git/config.toml"));
    assert!(!is_indexed_path("src/noext"));
    assert!(!is_indexed_path("src/x.rs/y"));
    assert!(!is_indexed_path("dist"));
}

#[test]
fn settings_defaults() {
    assert_eq!(default_bind(), "0.0.0.0:8080");
    assert_eq!(default_static_dir(), "dist");
}

#[test]
fn theme_preference() {
    let d = set_pref(true);
    assert_eq!(d.stored_value, "dark");
    assert!(d.dark_class);
    let l = set_pref(false);
    assert_eq!(l.stored_value, "light");
    assert!(!l.dark_class);
    assert!(current_pref(Some("dark"), false));
    assert!(!current_pref(Some("light"), true));
    assert!(current_pref(None, true));
    assert!(!current_pref(None, false));
}
