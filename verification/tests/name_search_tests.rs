use docserver_core::index::FileEntry;
use docserver_core::search::name_search::search;
use docserver_core::search::query::{parse_query, SearchMode};
use std::path::PathBuf;

fn entry(root: &str, rel: &str) -> FileEntry {
    let comps: Vec<String> = rel.split('/').map(String::from).collect();
    let file_name = comps.last().unwrap().clone();
    let ext = file_name.rsplit_once('.').map(|(_, e)| e.to_string());
    FileEntry::from_parts(root, &comps, PathBuf::from(format!("/tmp/fixture/{root}/{rel}")), &file_name, ext.as_deref(), 1, 0)
}

fn fixture_entries() -> Vec<FileEntry> {
    let files: &[(&str, &str)] = &[
        ("sample-docs", "data/データ移行概要設計.html"),
        ("sample-docs", "data/データ移行概要設計_詳細.html"),
        ("sample-docs", "frontend/出走表_GraphQL設計.html"),
        ("sample-docs", "frontend/出走表_仕様書.html"),
        ("sample-docs", "README.md"),
        ("sample-docs", "index.html"),
        ("other", "README.md"),
        ("other", "docs/flow.mmd"),
    ];
    files.iter().map(|(r, p)| entry(r, p)).collect()
}

fn run(q: &str) -> Vec<(String, i64, String)> {
    let entries = fixture_entries();
    let pq = parse_query(q, SearchMode::Auto);
    assert_eq!(pq.mode, SearchMode::Name);
    let mut r = search(&entries, &pq);
    r.sort_by(|a, b| b.score.cmp(&a.score).then_with(|| a.entry.rel_path.cmp(&b.entry.rel_path)));
    r.into_iter().map(|r| (r.entry.stem.clone(), r.score, r.reason)).collect()
}

#[test]
fn exact_then_prefix() {
    let r = run("データ移行概要設計");
    assert_eq!(r[0].0, "データ移行概要設計");
    assert_eq!(r[0].1, 100);
    assert!(r.iter().any(|x| x.0 == "データ移行概要設計_詳細" && x.1 == 90));
}

#[test]
fn contains() {
    let r = run("概要設計");
    assert!(r.iter().any(|x| x.0 == "データ移行概要設計" && x.2 == "contains"));
}

#[test]
fn and_tokens() {
    let r = run("出走表 GraphQL");
    assert_eq!(r[0].0, "出走表_GraphQL設計");
    assert_eq!(r[0].2, "and:stem");
}

#[test]
fn nfkc_halfwidth_kana() {
    let r = run("ﾃﾞｰﾀ移行");
    assert_eq!(r[0].0, "データ移行概要設計");
}

#[test]
fn fuzzy_latin() {
    let r = run("grphql");
    assert!(r.iter().any(|x| x.2 == "fuzzy" && x.0.contains("GraphQL")));
}

#[test]
fn contains_score_and_highlight() {
    let entries = fixture_entries();
    let q = parse_query("概要設計", SearchMode::Name);
    let r = search(&entries, &q);
    let hit = r.iter().find(|x| x.entry.stem == "データ移行概要設計").unwrap();
    // starts at char 5, so 80 - 5
    assert_eq!(hit.score, 75);
    assert_eq!(hit.highlights, vec![(5, 9)]);
}

#[test]
fn exact_highlight_spans_stem() {
    let entries = fixture_entries();
    let q = parse_query("readme", SearchMode::Name);
    let r = search(&entries, &q);
    assert_eq!(r.len(), 2);
    assert!(r.iter().all(|x| x.score == 100 && x.reason == "exact" && x.highlights == vec![(0, 6)]));
}

#[test]
fn and_stem_score_and_highlights() {
    let entries = fixture_entries();
    let q = parse_query("出走表 GraphQL", SearchMode::Name);
    let r = search(&entries, &q);
    let hit = r.iter().find(|x| x.reason == "and:stem").unwrap();
    // stem has 13 chars, tokens 10: extra 3 -> 70 - 1
    assert_eq!(hit.score, 69);
    assert_eq!(hit.highlights, vec![(0, 3), (4, 11)]);
}

#[test]
fn path_tokens_and_path_substring() {
    let entries = fixture_entries();
    let q = parse_query("frontend 仕様書", SearchMode::Name);
    let r = search(&entries, &q);
    assert!(r.iter().any(|x| x.reason == "and:path" && x.score == 60 && x.entry.stem == "出走表_仕様書"));
    let q = parse_query("docs", SearchMode::Name);
    let r = search(&entries, &q);
    assert!(r.iter().any(|x| x.reason == "contains:path" && x.score == 50 && x.entry.stem == "flow"));
}

#[test]
fn empty_query_finds_nothing() {
    let entries = fixture_entries();
    let q = parse_query("   ", SearchMode::Name);
    assert!(search(&entries, &q).is_empty());
}

#[test]
fn single_char_does_not_go_fuzzy() {
    let entries = fixture_entries();
    let q = parse_query("z", SearchMode::Name);
    assert!(search(&entries, &q).is_empty());
}

#[test]
fn fuzzy_scores_are_scaled() {
    let entries = fixture_entries();
    let q = parse_query("grphql", SearchMode::Name);
    let r = search(&entries, &q);
    for x in r.iter().filter(|x| x.reason == "fuzzy") {
        assert!(1 <= x.score && x.score <= 40);
        assert!(!x.highlights.is_empty());
    }
}
