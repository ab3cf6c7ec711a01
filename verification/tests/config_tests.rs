use docserver_core::config::{config_candidates, ConfigError, RootSettings, Settings};
use docserver_core::os_path::PathStyle;
use std::path::{Path, PathBuf};

fn str_list(v: &serde_yaml::Value) -> Vec<String> {
    v.as_sequence()
        .map(|s| s.iter().filter_map(|x| x.as_str().map(String::from)).collect())
        .unwrap_or_default()
}

/// Reads settings from YAML the way the settings file is read: absent
/// fields keep their defaults.
fn settings_from_yaml(text: &str) -> Settings {
    let v: serde_yaml::Value = serde_yaml::from_str(text).unwrap();
    let mut s = Settings::default();
    if let Some(server) = v.get("server") {
        if let Some(h) = server.get("host") {
            s.server.host = match h {
                serde_yaml::Value::String(x) => x.clone(),
                other => serde_yaml::to_string(other).unwrap().trim().to_string(),
            };
        }
        if let Some(p) = server.get("port").and_then(|p| p.as_u64()) {
            s.server.port = p as u16;
        }
        if let Some(b) = server.get("open_browser").and_then(|b| b.as_bool()) {
            s.server.open_browser = b;
        }
    }
    if let Some(roots) = v.get("roots").and_then(|r| r.as_sequence()) {
        for r in roots {
            s.roots.push(RootSettings {
                name: r.get("name").and_then(|x| x.as_str()).unwrap().to_string(),
                path: r.get("path").and_then(|x| x.as_str()).unwrap().to_string(),
                exclude: r.get("exclude").map(str_list).unwrap_or_default(),
            });
        }
    }
    if let Some(e) = v.get("include_extensions") {
        s.include_extensions = str_list(e);
    }
    if let Some(b) = v.get("respect_gitignore").and_then(|b| b.as_bool()) {
        s.respect_gitignore = b;
    }
    if let Some(b) = v.get("watch").and_then(|b| b.as_bool()) {
        s.watch = b;
    }
    if let Some(d) = v.get("max_depth").and_then(|d| d.as_u64()) {
        s.max_depth = d as usize;
    }
    s
}

#[test]
fn parse_sample() {
    let y = r#"
server: { host: 127.0.0.1, port: 0 }
roots:
  - name: a
    path: ./x
  - name: b
    path: /abs
    exclude: [node_modules]
"#;
    let s = settings_from_yaml(y);
    assert_eq!(s.roots.len(), 2);
    assert_eq!(s.server.port, 0);
    assert!(s.respect_gitignore);
    assert!(s.ext_allowed("HTML"));
    assert!(!s.ext_allowed("png"));
}

#[test]
fn duplicate_names_rejected() {
    let y = "roots: [{name: a, path: x}, {name: a, path: y}]";
    let s = settings_from_yaml(y);
    assert!(s.validate().is_err());
}

fn root(name: &str, path: &str) -> RootSettings {
    RootSettings { name: name.to_string(), path: path.to_string(), exclude: vec![] }
}

#[test]
fn defaults() {
    let s = Settings::default();
    assert_eq!(s.server.host, "127.0.0.1");
    assert_eq!(s.server.port, 8765);
    assert!(!s.server.open_browser);
    assert_eq!(s.include_extensions, vec!["html", "htm", "md", "markdown", "mmd", "mermaid"]);
    assert!(s.watch && s.respect_gitignore);
    assert_eq!(s.max_depth, 20);
    assert!(s.config_path.is_none());
    assert!(s.validate().is_ok());
}

#[test]
fn validate_errors() {
    let mut s = Settings::default();
    s.roots.push(root("", "/x"));
    assert!(matches!(s.validate(), Err(ConfigError::EmptyName)));
    let mut s = Settings::default();
    s.roots.push(root("a/b", "/x"));
    assert!(matches!(s.validate(), Err(ConfigError::InvalidName(n)) if n == "a/b"));
    let mut s = Settings::default();
    s.roots.push(root("a\\b", "/x"));
    assert!(matches!(s.validate(), Err(ConfigError::InvalidName(_))));
    let mut s = Settings::default();
    s.roots.push(root("a", "/x"));
    s.roots.push(root("b", "/y"));
    s.roots.push(root("a", "/z"));
    match s.validate() {
        Err(e) => {
            assert!(matches!(&e, ConfigError::DuplicateName(n) if n == "a"));
            assert!(e.message().contains("a"));
        }
        Ok(()) => panic!("duplicate accepted"),
    }
    let mut s = Settings::default();
    s.roots.push(root("a", "/x"));
    s.roots.push(root("b", "/y"));
    assert!(s.validate().is_ok());
}

#[test]
fn ext_allowed_ignores_case() {
    let s = Settings::default();
    assert!(s.ext_allowed("Md"));
    assert!(s.ext_allowed("MERMAID"));
    assert!(!s.ext_allowed("txt"));
    assert!(!s.ext_allowed(""));
}

#[test]
fn resolve_paths_joins_relative_ones() {
    let mut s = Settings::default();
    s.roots.push(root("a", "./x"));
    s.roots.push(root("b", "/abs"));
    s.roots.push(root("c", "docs"));
    s.resolve_paths("/etc/conf", PathStyle::Unix);
    assert_eq!(s.roots[0].path, "/etc/conf/./x");
    assert_eq!(s.roots[1].path, "/abs");
    assert_eq!(s.roots[2].path, "/etc/conf/docs");
    let mut s = Settings::default();
    s.roots.push(root("a", "x"));
    s.resolve_paths("/", PathStyle::Unix);
    assert_eq!(s.roots[0].path, "/x");
}

#[test]
fn resolve_paths_joins_windows_forms_on_unix() {
    let mut s = Settings::default();
    s.roots.push(root("a", "C:/x"));
    s.roots.push(root("b", "\\\\server\\share"));
    s.roots.push(root("c", "/abs"));
    s.resolve_paths("/b", PathStyle::Unix);
    assert_eq!(s.roots[0].path, "/b/C:/x");
    assert_eq!(s.roots[1].path, "/b/\\\\server\\share");
    assert_eq!(s.roots[2].path, "/abs");
}

#[test]
fn resolve_paths_keeps_names_in_any_style() {
    let mut s = Settings::default();
    s.roots.push(root("a", "docs"));
    s.resolve_paths("/b", PathStyle::Windows);
    assert_eq!(s.roots.len(), 1);
    assert_eq!(s.roots[0].name, "a");
}

#[test]
fn finish_load_records_path_and_validates() {
    let mut s = Settings::default();
    s.roots.push(root("a", "x"));
    assert!(s.finish_load(PathBuf::from("/c/setting.yaml"), "/c", PathStyle::Unix).is_ok());
    assert_eq!(s.config_path.as_deref(), Some(Path::new("/c/setting.yaml")));
    assert_eq!(s.roots[0].path, "/c/x");
    let mut s = Settings::default();
    s.roots.push(root("", "x"));
    assert!(s.finish_load(PathBuf::from("/c/setting.yaml"), "/c", PathStyle::Unix).is_err());
}

#[test]
fn root_named_finds_first() {
    let mut s = Settings::default();
    s.roots.push(root("a", "/x"));
    s.roots.push(root("b", "/y"));
    assert_eq!(s.root_named("b").map(|r| r.path.as_str()), Some("/y"));
    assert!(s.root_named("c").is_none());
}

#[test]
fn config_candidates_in_order() {
    let c = config_candidates(PathStyle::Unix, Some("/my/conf.yaml"), Some("/w"), Some("/bin/"), Some("/home/u/.config"));
    assert_eq!(
        c,
        vec![
            "/my/conf.yaml",
            "/w/config/setting.yaml",
            "/w/setting.yaml",
            "/bin/config/setting.yaml",
            "/bin/setting.yaml",
            "/home/u/.config/local_docserver/setting.yaml",
        ]
    );
    assert!(config_candidates(PathStyle::Unix, None, None, None, None).is_empty());
}

#[test]
fn watching_needs_watch_and_a_root() {
    let mut s = Settings::default();
    s.watch = true;
    assert!(!s.watching());
    s.roots.push(root("a", "/x"));
    assert!(s.watching());
    s.watch = false;
    assert!(!s.watching());
}

#[test]
fn candidates_for_an_empty_directory_are_the_bare_names() {
    let u = PathStyle::Unix;
    assert_eq!(config_candidates(u, None, Some(""), None, None), vec!["config/setting.yaml", "setting.yaml"]);
    assert_eq!(config_candidates(u, None, None, None, Some("")), vec!["local_docserver/setting.yaml"]);
}
