use docserver_core::search::query::{parse_query, SearchMode};

#[test]
fn file_prefix_forces_path() {
    let q = parse_query("file:sample-docs/data/データ移行概要設計.html", SearchMode::Auto);
    assert_eq!(q.mode, SearchMode::Path);
    assert_eq!(q.segments, vec!["sample-docs", "data", "データ移行概要設計.html"]);
}

#[test]
fn plain_name_is_name_mode() {
    let q = parse_query("データ移行概要設計", SearchMode::Auto);
    assert_eq!(q.mode, SearchMode::Name);
    assert_eq!(q.tokens, vec!["データ移行概要設計"]);
}

#[test]
fn ext_only_is_path_mode() {
    let q = parse_query("データ移行概要設計.html", SearchMode::Auto);
    assert_eq!(q.mode, SearchMode::Path);
}

#[test]
fn windows_and_url_forms() {
    let q = parse_query(r#""sample-docs\data\a.html""#, SearchMode::Auto);
    assert_eq!(q.segments, vec!["sample-docs", "data", "a.html"]);
    let q = parse_query("http://127.0.0.1:8765/r/sample-docs/data/%E3%81%82.html", SearchMode::Auto);
    assert_eq!(q.segments, vec!["sample-docs", "data", "あ.html"]);
}

#[test]
fn nfkc_normalizes() {
    let q = parse_query("ﾃﾞｰﾀ　ＡＢＣ", SearchMode::Auto);
    assert_eq!(q.tokens, vec!["データ", "abc"]);
}

#[test]
fn explicit_mode_is_kept() {
    let q = parse_query("a/b.html", SearchMode::Name);
    assert_eq!(q.mode, SearchMode::Name);
    let q = parse_query("plain", SearchMode::Path);
    assert_eq!(q.mode, SearchMode::Path);
    assert_eq!(q.segments, vec!["plain"]);
}

#[test]
fn prefix_is_case_insensitive_and_path_prefix_works() {
    let q = parse_query("  FILE:  a/b  ", SearchMode::Auto);
    assert_eq!(q.mode, SearchMode::Path);
    assert_eq!(q.segments, vec!["a", "b"]);
    let q = parse_query("path:readme", SearchMode::Auto);
    assert_eq!(q.mode, SearchMode::Path);
    assert_eq!(q.segments, vec!["readme"]);
    assert_eq!(q.text, "readme");
}

#[test]
fn dot_and_empty_segments_are_dropped() {
    let q = parse_query("./a//./b/", SearchMode::Auto);
    assert_eq!(q.segments, vec!["a", "b"]);
    assert_eq!(q.text, "a//./b");
}

#[test]
fn server_url_without_r_keeps_path_after_host() {
    let q = parse_query("https://example.com/docs/x.md", SearchMode::Auto);
    assert_eq!(q.segments, vec!["docs", "x.md"]);
    let q = parse_query("http://hostonly", SearchMode::Auto);
    assert_eq!(q.text, "http://hostonly");
}

#[test]
fn invalid_percent_encoding_keeps_text() {
    let q = parse_query("a%ffb", SearchMode::Auto);
    assert_eq!(q.text, "a%ffb");
    let q = parse_query("a%2fb", SearchMode::Auto);
    assert_eq!(q.segments, vec!["a", "b"]);
}

#[test]
fn tokens_split_on_white_space_and_slash() {
    let q = parse_query("Foo  Bar", SearchMode::Auto);
    assert_eq!(q.mode, SearchMode::Name);
    assert_eq!(q.tokens, vec!["foo", "bar"]);
    assert_eq!(q.raw, "Foo  Bar");
}

#[test]
fn quotes_and_angle_brackets_are_trimmed() {
    let q = parse_query("<`'x.mmd'`>", SearchMode::Auto);
    assert_eq!(q.mode, SearchMode::Path);
    assert_eq!(q.segments, vec!["x.mmd"]);
}
