use docserver_core::index::FileEntry;
use docserver_core::search::query::SearchMode;
use docserver_core::search::{search, strip_ext};
use std::path::PathBuf;

fn entry(root: &str, rel: &str, modified: u64) -> FileEntry {
    let comps: Vec<String> = rel.split('/').map(String::from).collect();
    let file_name = comps.last().unwrap().clone();
    let ext = file_name.rsplit_once('.').map(|(_, e)| e.to_string());
    FileEntry::from_parts(root, &comps, PathBuf::from(format!("/abs/{root}/{rel}")), &file_name, ext.as_deref(), 1, modified)
}

fn fixture() -> Vec<FileEntry> {
    vec![
        entry("sample-docs", "data/データ移行概要設計.html", 10),
        entry("sample-docs", "data/データ移行概要設計_詳細.html", 20),
        entry("sample-docs", "README.md", 30),
        entry("other", "README.md", 40),
        entry("other", "docs/flow.mmd", 50),
    ]
}

#[test]
fn confident_path_hit_is_best() {
    let r = search(&fixture(), "file:sample-docs/data/データ移行概要設計.html", SearchMode::Auto, 50);
    assert_eq!(r.mode, SearchMode::Path);
    assert_eq!(r.results[0].score, 100);
    assert_eq!(r.best.as_deref(), Some("sample-docs/data/データ移行概要設計.html"));
    assert_eq!(r.query, "file:sample-docs/data/データ移行概要設計.html");
}

#[test]
fn tie_gives_no_best_and_newer_first() {
    let r = search(&fixture(), "README.md", SearchMode::Auto, 50);
    assert_eq!(r.total, 2);
    assert!(r.best.is_none());
    assert_eq!(r.results[0].entry.root, "other");
    assert_eq!(r.results[1].entry.root, "sample-docs");
}

#[test]
fn name_mode_has_no_best() {
    let r = search(&fixture(), "データ移行概要設計", SearchMode::Auto, 50);
    assert_eq!(r.mode, SearchMode::Name);
    assert!(r.best.is_none());
    assert_eq!(r.results[0].score, 100);
    assert_eq!(r.results[1].score, 90);
}

#[test]
fn empty_path_search_falls_back_to_name_mode() {
    let r = search(&fixture(), "nothing/here.html", SearchMode::Auto, 50);
    assert_eq!(r.mode, SearchMode::Name);
    assert_eq!(r.total, r.results.len());
}

#[test]
fn limit_cuts_results_but_not_total() {
    let r = search(&fixture(), "readme", SearchMode::Name, 1);
    assert_eq!(r.total, 2);
    assert_eq!(r.results.len(), 1);
    let r = search(&fixture(), "readme", SearchMode::Name, 0);
    assert_eq!(r.results.len(), 0);
}

#[test]
fn results_are_in_rank_order() {
    let r = search(&fixture(), "データ", SearchMode::Name, 50);
    for w in r.results.windows(2) {
        assert!(w[0].score >= w[1].score);
        if w[0].score == w[1].score {
            assert!(w[0].entry.modified >= w[1].entry.modified);
        }
    }
}

#[test]
fn strip_ext_rules() {
    assert_eq!(strip_ext("a.html"), "a");
    assert_eq!(strip_ext(".bashrc"), ".bashrc");
    assert_eq!(strip_ext("noext"), "noext");
    assert_eq!(strip_ext("a.b.c"), "a.b");
    assert_eq!(strip_ext("x.verylongext"), "x.verylongext");
    assert_eq!(strip_ext("x.123456789"), "x");
    // the extension is measured in bytes: three 3-byte characters plus the dot
    assert_eq!(strip_ext("x.あいう"), "x");
    assert_eq!(strip_ext("x.あいうえ"), "x.あいうえ");
}

#[test]
fn smaller_limit_gives_a_prefix() {
    let all = search(&fixture(), "readme", SearchMode::Name, usize::MAX);
    let one = search(&fixture(), "readme", SearchMode::Name, 1);
    assert_eq!(all.results.len(), all.total);
    assert_eq!(one.results.len(), 1);
    assert_eq!(one.results[0].entry.full_key(), all.results[0].entry.full_key());
    assert_eq!(one.results[0].score, all.results[0].score);
}

#[test]
fn equal_score_and_time_order_by_path() {
    let es = vec![entry("r", "b/same.md", 5), entry("r", "a/same.md", 5)];
    let r = search(&es, "same.md", SearchMode::Path, 50);
    assert_eq!(r.results.len(), 2);
    assert_eq!(r.results[0].entry.rel_path, "a/same.md");
    assert_eq!(r.results[1].entry.rel_path, "b/same.md");
}

#[test]
fn empty_path_query_finds_nothing() {
    let r = search(&fixture(), "", SearchMode::Path, 50);
    assert_eq!(r.total, 0);
    assert!(r.results.is_empty());
}
