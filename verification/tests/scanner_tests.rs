use docserver_core::config::{RootSettings, Settings};
use docserver_core::index::scanner::{is_excluded, resolve_under_root, wanted_file};
use docserver_core::os_path::PathStyle;
use docserver_core::index::watcher::{is_relevant, roots_to_rescan, EventFacts};
use std::path::Path;

#[test]
fn traversal_blocked() {
    let root = "/r";
    assert!(resolve_under_root(PathStyle::Unix, root, "../etc/passwd").is_none());
    assert!(resolve_under_root(PathStyle::Unix, root, "a/../../b").is_none());
    assert_eq!(Path::new(&resolve_under_root(PathStyle::Unix, root, "a/b.html").unwrap()), Path::new("/r/a/b.html"));
    assert_eq!(Path::new(&resolve_under_root(PathStyle::Unix, root, "/a//b.html").unwrap()), Path::new("/r/a/b.html"));
}

#[test]
fn dot_segments_are_skipped() {
    assert_eq!(resolve_under_root(PathStyle::Unix, "/r/", "./a/./b").unwrap(), "/r/a/b");
    assert_eq!(resolve_under_root(PathStyle::Unix, "/r", "").unwrap(), "/r");
    assert!(resolve_under_root(PathStyle::Unix, "/r", "a/..").is_none());
}

#[test]
fn colons_and_backslashes_are_plain_names_on_unix() {
    let u = PathStyle::Unix;
    assert_eq!(resolve_under_root(u, "/r", "x:y").unwrap(), "/r/x:y");
    assert_eq!(resolve_under_root(u, "/r", "C:/x").unwrap(), "/r/C:/x");
    assert_eq!(resolve_under_root(u, "/r", "..\\..\\secret").unwrap(), "/r/..\\..\\secret");
    assert_eq!(resolve_under_root(u, "/r", "\\x").unwrap(), "/r/\\x");
}

#[test]
fn windows_components_are_refused_on_windows() {
    let w = PathStyle::Windows;
    assert!(resolve_under_root(w, "/r", "..\\..\\secret").is_none());
    assert!(resolve_under_root(w, "/r", "a/b\\..").is_none());
    assert!(resolve_under_root(w, "/r", "C:\\x").is_none());
    assert!(resolve_under_root(w, "/r", "C:/x").is_none());
    assert!(resolve_under_root(w, "/r", "x:y").is_none());
    assert!(resolve_under_root(w, "/r", "\\x").is_none());
    assert!(resolve_under_root(w, "/r", ".\\x").is_none());
    assert!(resolve_under_root(w, "/r", "..").is_none());
    assert!(resolve_under_root(w, "/r", "ab:c").is_some());
    assert!(resolve_under_root(w, "/r", "a\\.\\b").is_some());
    assert!(resolve_under_root(w, "/r", "d/e.md").is_some());
}

fn strings(v: &[&str]) -> Vec<String> {
    v.iter().map(|s| s.to_string()).collect()
}

/// Which watched paths matter, given the facts the file system reports for
/// each: an existing directory, a wanted or unwanted file, an excluded
/// directory, and paths that are gone.
#[test]
fn relevance_rules() {
    let exclude = strings(&["node_modules"]);
    let exts = strings(&["html", "md"]);
    // an existing directory "d"
    assert!(!is_relevant(Some(&strings(&["d"])), &exclude, true, true, None, &exts), "既存ディレクトリは無視");
    // "d/a.html", an existing file
    assert!(is_relevant(Some(&strings(&["d", "a.html"])), &exclude, true, false, Some("html"), &exts));
    // "d/a.png"
    assert!(!is_relevant(Some(&strings(&["d", "a.png"])), &exclude, true, false, Some("png"), &exts));
    // "node_modules/x/b.html"
    assert!(
        !is_relevant(Some(&strings(&["node_modules", "x", "b.html"])), &exclude, true, false, Some("html"), &exts),
        "除外配下"
    );
    // "d/gone.html", no longer there
    assert!(is_relevant(Some(&strings(&["d", "gone.html"])), &exclude, false, false, Some("html"), &exts), "消失パス");
    // "gone_dir", no longer there
    assert!(is_relevant(Some(&strings(&["gone_dir"])), &exclude, false, false, None, &exts), "消失ディレクトリ");
}

#[test]
fn git_dir_is_ignored_and_case_is_ignored() {
    let exclude: Vec<String> = vec![];
    let exts = strings(&["html"]);
    assert!(!is_relevant(Some(&strings(&[".git", "HEAD"])), &exclude, false, false, None, &exts));
    assert!(is_relevant(Some(&strings(&["A.HTML"])), &exclude, true, false, Some("HTML"), &exts));
    assert!(is_relevant(None, &exclude, true, false, Some("html"), &exts));
}

#[test]
fn excluded_names_and_wanted_files() {
    let ex = strings(&["node_modules", "target"]);
    assert!(is_excluded(&ex, "target"));
    assert!(!is_excluded(&ex, "src"));
    let s = Settings::default();
    assert!(wanted_file(&s, true, Some("HTML")));
    assert!(!wanted_file(&s, true, Some("png")));
    assert!(!wanted_file(&s, false, Some("md")));
    assert!(!wanted_file(&s, true, None));
}

#[test]
fn roots_to_rescan_marks_each_root_once() {
    let roots = vec![
        RootSettings { name: "a".into(), path: "/a".into(), exclude: strings(&["node_modules"]) },
        RootSettings { name: "b".into(), path: "/b".into(), exclude: vec![] },
    ];
    let exts = strings(&["md"]);
    let ev = |under: Vec<Option<Vec<String>>>, present: bool, ext: Option<&str>| EventFacts {
        under_roots: under,
        present,
        is_dir: false,
        extension: ext.map(String::from),
    };
    let events = vec![
        ev(vec![None, Some(strings(&["x.md"]))], true, Some("md")),
        ev(vec![Some(strings(&["node_modules", "y.md"])), None], true, Some("md")),
        ev(vec![None, Some(strings(&["z.md"]))], true, Some("md")),
        ev(vec![Some(strings(&["gone"])), None], false, None),
        ev(vec![Some(strings(&["img.png"])), None], true, Some("png")),
    ];
    assert_eq!(roots_to_rescan(&roots, &events, &exts), vec!["b", "a"]);
    assert!(roots_to_rescan(&roots, &vec![], &exts).is_empty());
}
