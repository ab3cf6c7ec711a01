use docserver_core::index::{extension_of_name, normalize, FileEntry, FileIndex, FileKind};
use docserver_core::os_path::PathStyle;
use std::path::PathBuf;

fn entry(root: &str, rel: &str) -> FileEntry {
    let comps: Vec<String> = rel.split('/').map(String::from).collect();
    let file_name = comps.last().unwrap().clone();
    let ext = file_name.rsplit_once('.').map(|(_, e)| e.to_string());
    FileEntry::from_parts(root, &comps, PathBuf::from(format!("/abs/{root}/{rel}")), &file_name, ext.as_deref(), 3, 7)
}

#[test]
fn entry_fields() {
    let e = entry("t", "data/データ移行概要設計.HTML");
    assert_eq!(e.rel_path, "data/データ移行概要設計.HTML");
    assert_eq!(e.stem, "データ移行概要設計");
    assert_eq!(e.ext, "html");
    assert_eq!(e.kind, FileKind::Html);
    assert_eq!(e.norm_segments, vec!["data", "データ移行概要設計.html"]);
    assert_eq!(e.norm_stem, "データ移行概要設計");
    assert_eq!(e.size, 3);
    assert_eq!(e.modified, 7);
    assert_eq!(e.full_key(), "t/data/データ移行概要設計.HTML");
}

#[test]
fn entry_names_are_nfc() {
    // "ド" written as "ト" + combining dakuten (NFD)
    let comps = vec!["ト\u{3099}キュメント.md".to_string()];
    let e = FileEntry::from_parts("r", &comps, PathBuf::from("/x"), "ト\u{3099}キュメント.md", Some("md"), 0, 0);
    assert_eq!(e.rel_path, "ドキュメント.md");
    assert_eq!(e.file_name, "ドキュメント.md");
    assert_eq!(e.kind, FileKind::Markdown);
}

#[test]
fn entry_without_extension() {
    let comps = vec!["Makefile".to_string()];
    let e = FileEntry::from_parts("r", &comps, PathBuf::from("/x/Makefile"), "Makefile", None, 0, 0);
    assert_eq!(e.stem, "Makefile");
    assert_eq!(e.ext, "");
    assert_eq!(e.kind, FileKind::Other);
    assert_eq!(e.norm_stem, "makefile");
}

#[test]
fn kinds() {
    assert_eq!(FileKind::from_ext("htm"), FileKind::Html);
    assert_eq!(FileKind::from_ext("MarkDown"), FileKind::Markdown);
    assert_eq!(FileKind::from_ext("MMD"), FileKind::Mermaid);
    assert_eq!(FileKind::from_ext("mermaid"), FileKind::Mermaid);
    assert_eq!(FileKind::from_ext("txt"), FileKind::Other);
}

#[test]
fn normalize_folds_width_and_case() {
    assert_eq!(normalize("ＡＢＣ"), "abc");
    assert_eq!(normalize("ﾃﾞｰﾀ"), "データ");
    assert_eq!(normalize("GraphQL"), "graphql");
    assert_eq!(normalize(""), "");
}

#[test]
fn index_replace_sorts_and_counts_generations() {
    let mut idx = FileIndex::new();
    assert!(idx.is_empty());
    assert_eq!(idx.generation(), 0);
    idx.replace(vec![entry("b", "z.md"), entry("a", "y.md"), entry("a", "x.md")]);
    assert_eq!(idx.len(), 3);
    assert_eq!(idx.generation(), 1);
    let keys: Vec<String> = idx.snapshot().iter().map(|e| e.full_key()).collect();
    assert_eq!(keys, vec!["a/x.md", "a/y.md", "b/z.md"]);
}

#[test]
fn index_replace_root_keeps_other_roots() {
    let mut idx = FileIndex::new();
    idx.replace(vec![entry("a", "1.md"), entry("b", "2.md"), entry("a", "3.md")]);
    idx.replace_root("a", vec![entry("a", "4.md")]);
    let keys: Vec<String> = idx.snapshot().iter().map(|e| e.full_key()).collect();
    assert_eq!(keys, vec!["a/4.md", "b/2.md"]);
    assert_eq!(idx.generation(), 2);
    assert_eq!(idx.files(Some("b")).len(), 1);
    assert_eq!(idx.files(None).len(), 2);
    assert_eq!(idx.find("a", "4.md").map(|e| e.abs_path.clone()), Some(PathBuf::from("/abs/a/4.md")));
    assert!(idx.find("a", "1.md").is_none());
}

#[test]
fn entry_from_a_walked_path() {
    let u = PathStyle::Unix;
    let e = FileEntry::new(u, "t", "/root", &PathBuf::from("/root/data/A.MD"), 5, 9).unwrap();
    assert_eq!(e.rel_path, "data/A.MD");
    assert_eq!(e.file_name, "A.MD");
    assert_eq!(e.ext, "md");
    assert_eq!(e.stem, "A");
    assert_eq!(e.kind, FileKind::Markdown);
    assert_eq!(e.abs_path, PathBuf::from("/root/data/A.MD"));
    assert_eq!(e.size, 5);
    assert_eq!(e.modified, 9);
    assert!(FileEntry::new(u, "t", "/root", &PathBuf::from("/other/a.md"), 0, 0).is_none());
    assert!(FileEntry::new(u, "t", "/root", &PathBuf::from("/root/.."), 0, 0).is_none());
    assert!(FileEntry::new(u, "t", "/root", &PathBuf::from("/rootx/a.md"), 0, 0).is_none());
}

#[test]
fn walked_paths_follow_unix_component_rules() {
    let u = PathStyle::Unix;
    let e = FileEntry::new(u, "t", "/root/", &PathBuf::from("//root/./d//x.tar.gz"), 0, 0).unwrap();
    assert_eq!(e.rel_path, "d/x.tar.gz");
    assert_eq!(e.ext, "gz");
    assert_eq!(e.stem, "x.tar");
    let e = FileEntry::new(u, "t", "/root", &PathBuf::from("/root/.bashrc"), 0, 0).unwrap();
    assert_eq!(e.ext, "");
    assert_eq!(e.stem, ".bashrc");
    let e = FileEntry::new(u, "t", "/root", &PathBuf::from("/root/a:b\\c.md"), 0, 0).unwrap();
    assert_eq!(e.rel_path, "a:b\\c.md");
    assert!(FileEntry::new(u, "t", "/root", &PathBuf::from("/root"), 0, 0).is_some());
    assert!(FileEntry::new(u, "t", "/root", &PathBuf::from("/"), 0, 0).is_none());
    assert!(FileEntry::new(PathStyle::Windows, "t", "/root", &PathBuf::from("/other/a.md"), 0, 0).is_none());
}

#[test]
fn walk_needs_a_relative_path_and_a_name() {
    let comps = vec!["a.md".to_string()];
    assert!(FileEntry::from_walk("t", None, PathBuf::from("/x/a.md"), Some("a.md".into()), 0, 0).is_none());
    assert!(FileEntry::from_walk("t", Some(comps.clone()), PathBuf::from("/x"), None, 0, 0).is_none());
    let e = FileEntry::from_walk("t", Some(comps), PathBuf::from("/x/a.md"), Some("a.md".into()), 1, 2).unwrap();
    assert_eq!(e.full_key(), "t/a.md");
    assert_eq!(e.ext, "md");
    assert_eq!(e.norm_stem, "a");
}

#[test]
fn extensions_of_names() {
    assert_eq!(extension_of_name("a.b.c"), Some("c".to_string()));
    assert_eq!(extension_of_name("a."), Some("".to_string()));
    assert_eq!(extension_of_name(".x"), None);
    assert_eq!(extension_of_name(".."), None);
    assert_eq!(extension_of_name("noext"), None);
}
