use firefox_sites::firefox::{
    manifest_mismatch, manifest_paths, resolve_root, Firefox, FirefoxError, PROFILE_PATTERN,
};
use firefox_sites::firefox::manifest_brackets_in_order;
use firefox_sites::scan::{
    database_pairs, filter_directories, first_file_named, get_file_path, get_profile_database_map,
    is_hidden, select_matching, WalkEntry,
};

fn names(list: &[&str]) -> Vec<String> {
    list.iter().map(|s| s.to_string()).collect()
}

#[test]
fn unknown_platforms_have_no_root() {
    for os in ["macos", "freebsd", "", "Linux", "WINDOWS"] {
        assert_eq!(resolve_root(os, "alice"), None);
    }
}

#[test]
fn known_platform_roots() {
    assert_eq!(resolve_root("linux", "alice"), Some("/home/alice/.mozilla/firefox/".to_string()));
    assert_eq!(
        resolve_root("windows", "bob"),
        Some("C:\\Users\\bob\\AppData\\Roaming\\Mozilla\\Firefox\\Profiles\\".to_string())
    );
}

#[test]
fn profile_pattern_keeps_default_and_safe() {
    let r = filter_directories(names(&["Default", "abc123.default-release", "foo"]), PROFILE_PATTERN);
    assert_eq!(r, Some(names(&["Default", "abc123.default-release"])));
    let r = filter_directories(names(&["x.SAFE", "other", "DEFAULTS"]), PROFILE_PATTERN);
    assert_eq!(r, Some(names(&["x.SAFE", "DEFAULTS"])));
}

#[test]
fn invalid_pattern_is_rejected() {
    assert_eq!(filter_directories(names(&["a"]), "(unclosed"), None);
}

#[test]
fn hidden_names() {
    assert!(is_hidden(".cache"));
    assert!(!is_hidden("data"));
    assert!(!is_hidden(""));
}

fn entry(depth: usize, name: &str) -> WalkEntry {
    WalkEntry { depth, name: Some(name.to_string()) }
}

#[test]
fn first_named_entry_wins() {
    let entries = vec![
        entry(0, "p"),
        entry(1, "a"),
        WalkEntry { depth: 2, name: None },
        entry(2, "places.sqlite"),
        entry(1, "b"),
        entry(2, "places.sqlite"),
    ];
    assert_eq!(first_file_named(&entries, "r/p", "places.sqlite"), Some("r/p/a/places.sqlite".to_string()));
    assert_eq!(first_file_named(&entries, "r/p", "other"), None);
}

#[test]
fn chain_closes_at_shallower_entry() {
    let entries = vec![entry(0, "p"), entry(1, "a"), entry(2, "x"), entry(1, "places.sqlite")];
    assert_eq!(first_file_named(&entries, "r/p", "places.sqlite"), Some("r/p/places.sqlite".to_string()));
}

#[test]
fn start_itself_is_not_a_match() {
    let entries = vec![entry(0, "places.sqlite")];
    assert_eq!(first_file_named(&entries, "x/places.sqlite", "places.sqlite"), None);
}

#[test]
fn entry_under_unnamed_directory_has_no_path() {
    let entries = vec![entry(0, "p"), WalkEntry { depth: 1, name: None }, entry(2, "places.sqlite"), entry(1, "d"), entry(2, "places.sqlite")];
    assert_eq!(first_file_named(&entries, "r", "places.sqlite"), Some("r/d/places.sqlite".to_string()));
}

#[test]
fn database_pairs_keep_found_profiles() {
    let r = database_pairs(
        &names(&["Default", "abc.default-release", "x.default"]),
        &vec![None, Some("r/abc.default-release/places.sqlite".to_string()), None],
    );
    assert_eq!(r, vec![("abc.default-release".to_string(), "r/abc.default-release/places.sqlite".to_string())]);
    assert!(database_pairs(&vec![], &vec![]).is_empty());
}

#[test]
fn database_map_of_missing_root_is_empty() {
    assert!(get_profile_database_map("/nonexistent/ffsites", &names(&["Default", "a.default"])).is_empty());
}

#[test]
fn select_by_flags() {
    let r = select_matching(names(&["Default", "foo", "abc.default-release"]), &vec![true, false, true]);
    assert_eq!(r, names(&["Default", "abc.default-release"]));
}

#[test]
fn manifest_bracket_order() {
    assert!(manifest_brackets_in_order("[Profile0]\nPath=Default\n"));
    assert!(manifest_brackets_in_order("a=1 ; ]["));
    assert!(manifest_brackets_in_order("[a]]["));
    assert!(!manifest_brackets_in_order("]["));
    assert!(!manifest_brackets_in_order("x\n  ] [ # c\n"));
}

#[test]
fn search_of_missing_tree_finds_nothing() {
    assert_eq!(get_file_path("/nonexistent/ffsites/tree", "places.sqlite"), None);
    assert_eq!(get_file_path("/nonexistent/ffsites/tree", ".cache"), None);
}

#[test]
fn manifest_path_values() {
    let entries = vec![
        ("profile0".to_string(), "name".to_string(), Some("default".to_string())),
        ("profile0".to_string(), "path".to_string(), Some("Default".to_string())),
        ("general".to_string(), "path".to_string(), None),
        ("profile1".to_string(), "path".to_string(), Some("x.default-release".to_string())),
    ];
    assert_eq!(manifest_paths(&entries), names(&["Default", "x.default-release"]));
}

#[test]
fn manifest_check_boundaries() {
    let profiles = names(&["Default", "foo.default"]);
    assert!(!manifest_mismatch(&profiles, &names(&["Default"])));
    assert!(manifest_mismatch(&profiles, &names(&["Missing"])));
    assert!(!manifest_mismatch(&profiles, &names(&["Missing", "Other"])));
    assert!(!manifest_mismatch(&profiles, &names(&[])));
}

fn discover(dirs: &[&str], ini: Option<&str>) -> Result<Firefox, FirefoxError> {
    Firefox::new(
        Some("/nonexistent/ffsites/root/".to_string()),
        true,
        names(dirs),
        ini.map(|s| s.to_string()),
    )
}

#[test]
fn discovery_errors() {
    assert!(matches!(Firefox::new(None, false, vec![], None), Err(FirefoxError::Unsupported)));
    match Firefox::new(Some("/r/".to_string()), false, vec![], None) {
        Err(FirefoxError::NotFound(p)) => assert_eq!(p, "/r/"),
        _ => panic!("expected NotFound"),
    }
    assert!(matches!(discover(&["foo", "bar"], Some("")), Err(FirefoxError::NoProfiles)));
    assert!(matches!(discover(&["Default"], None), Err(FirefoxError::ManifestUnreadable(_))));
    assert!(matches!(discover(&["Default"], Some("][\n")), Err(FirefoxError::ManifestUnreadable(_))));
    assert!(matches!(
        discover(&["Default", "foo.default"], Some("[Profile0]\nPath=Missing\n")),
        Err(FirefoxError::ManifestMismatch)
    ));
}

#[test]
fn discovery_accepts_present_entry() {
    let f = discover(&["Default", "foo.default", "other"], Some("[Profile0]\nName=default\nPath=Default\n"))
        .ok()
        .unwrap();
    assert_eq!(f.profiles, names(&["Default", "foo.default"]));
    assert_eq!(f.root_firefox_directories, names(&["Default", "foo.default", "other"]));
    assert!(f.database_map.is_empty());
}

#[test]
fn discovery_accepts_equal_counts() {
    let ini = "[Profile0]\nPath=A\n\n[Profile1]\nPath=B\n";
    assert!(discover(&["Default", "x.default"], Some(ini)).is_ok());
}
