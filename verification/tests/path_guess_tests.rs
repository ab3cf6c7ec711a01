use docserver_core::index::FileEntry;
use docserver_core::search::path_guess::{search, CONFIDENT_SCORE};
use docserver_core::search::query::{parse_query, SearchMode};
use std::path::PathBuf;

fn entry(root: &str, rel: &str) -> FileEntry {
    let comps: Vec<String> = rel.split('/').map(String::from).collect();
    let file_name = comps.last().unwrap().clone();
    let ext = file_name.rsplit_once('.').map(|(_, e)| e.to_string());
    FileEntry::from_parts(root, &comps, PathBuf::from(format!("/tmp/fixture/{root}/{rel}")), &file_name, ext.as_deref(), 1, 0)
}

fn fixture_entries() -> Vec<FileEntry> {
    let files: &[(&str, &str)] = &[
        ("sample-docs", "data/データ移行概要設計.html"),
        ("sample-docs", "data/データ移行概要設計_詳細.html"),
        ("sample-docs", "frontend/出走表_GraphQL設計.html"),
        ("sample-docs", "frontend/出走表_仕様書.html"),
        ("sample-docs", "README.md"),
        ("sample-docs", "index.html"),
        ("other", "README.md"),
        ("other", "docs/flow.mmd"),
    ];
    files.iter().map(|(r, p)| entry(r, p)).collect()
}

fn run(q: &str) -> Vec<(String, i64)> {
    let entries = fixture_entries();
    let pq = parse_query(q, SearchMode::Auto);
    assert_eq!(pq.mode, SearchMode::Path);
    let mut r = search(&entries, &pq);
    r.sort_by(|a, b| b.score.cmp(&a.score));
    r.into_iter().map(|r| (r.entry.full_key(), r.score)).collect()
}

#[test]
fn root_plus_path() {
    let r = run("file:sample-docs/data/データ移行概要設計.html");
    assert_eq!(r[0], ("sample-docs/data/データ移行概要設計.html".into(), 100));
}

#[test]
fn rel_path_only() {
    let r = run("data/データ移行概要設計.html");
    assert_eq!(r[0].0, "sample-docs/data/データ移行概要設計.html");
    assert_eq!(r[0].1, 90);
}

#[test]
fn extra_parent_dirs() {
    let r = run("/home/me/src/sample-docs/data/データ移行概要設計.html");
    assert_eq!(r[0].0, "sample-docs/data/データ移行概要設計.html");
    assert!(r[0].1 >= 78);
}

#[test]
fn different_root_name_falls_to_suffix() {
    let r = run("sample-docs-main/data/データ移行概要設計.html");
    assert_eq!(r[0].0, "sample-docs/data/データ移行概要設計.html");
    assert_eq!(r[0].1, 78);
}

#[test]
fn ext_mismatch() {
    let r = run("data/データ移行概要設計.md");
    assert_eq!(r[0].0, "sample-docs/data/データ移行概要設計.html");
    assert_eq!(r[0].1, 60);
}

#[test]
fn same_filename_in_two_roots() {
    let r = run("README.md");
    assert_eq!(r.len(), 2);
    assert!(r.iter().all(|(_, s)| *s == 90));
}

#[test]
fn nothing_matches_falls_to_fuzzy() {
    let r = run("x/y/データ移行.html");
    assert!(!r.is_empty());
    assert!(r[0].1 <= 40);
}

#[test]
fn extra_parent_dirs_with_root_name_scores_79() {
    let r = run("/home/me/src/sample-docs/data/データ移行概要設計.html");
    assert_eq!(r[0].1, 79);
}

#[test]
fn suffix_and_root_suffix_scores() {
    let r = run("frontend/出走表_仕様書.html");
    assert_eq!(r[0], ("sample-docs/frontend/出走表_仕様書.html".into(), 90));
    let r = run("docs/flow.mmd");
    assert_eq!(r[0], ("other/docs/flow.mmd".into(), 90));
    let r = run("flow.mmd");
    assert_eq!(r[0], ("other/docs/flow.mmd".into(), 80));
    let r = run("other/flow.mmd");
    assert_eq!(r[0], ("other/docs/flow.mmd".into(), 85));
}

#[test]
fn filename_and_stem_rules() {
    // a trailing file name is already a partial suffix
    let r = run("zzz/flow.mmd");
    assert_eq!(r[0], ("other/docs/flow.mmd".into(), 78));
    let r = run("zzz/flow.html");
    assert_eq!(r[0], ("other/docs/flow.mmd".into(), 45));
}

#[test]
fn fallback_reason_is_prefixed() {
    let entries = fixture_entries();
    let q = parse_query("x/y/データ移行.html", SearchMode::Auto);
    let r = search(&entries, &q);
    assert!(r.iter().all(|x| x.reason.starts_with("fuzzy:") && x.score <= 40));
}

#[test]
fn highlight_when_stem_matches() {
    let entries = fixture_entries();
    let q = parse_query("data/データ移行概要設計.html", SearchMode::Auto);
    let r = search(&entries, &q);
    let top = r.iter().find(|x| x.score == 90).unwrap();
    assert_eq!(top.reason, "exact:path");
    assert_eq!(top.highlights, vec![(0, 9)]);
    assert_eq!(CONFIDENT_SCORE, 80);
}
