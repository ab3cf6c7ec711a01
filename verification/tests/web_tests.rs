use docserver_core::web::{content_type_for, falls_back_to_index, frontend_asset_path, with_charset};

#[test]
fn asset_paths() {
    assert_eq!(frontend_asset_path("/"), "index.html");
    assert_eq!(frontend_asset_path(""), "index.html");
    assert_eq!(frontend_asset_path("//assets/app.js"), "assets/app.js");
    assert_eq!(frontend_asset_path("/view/x"), "view/x");
}

#[test]
fn spa_fallback_except_assets() {
    assert!(falls_back_to_index("view/sample-docs/a.html"));
    assert!(!falls_back_to_index("assets/missing.js"));
}

#[test]
fn charset_added_to_text_only() {
    assert_eq!(with_charset("text/html", true), "text/html; charset=utf-8");
    assert_eq!(with_charset("text/plain; charset=latin1", true), "text/plain; charset=latin1");
    assert_eq!(with_charset("image/png", false), "image/png");
}

#[test]
fn content_types_by_extension() {
    assert_eq!(content_type_for(Some("html")), "text/html; charset=utf-8");
    assert_eq!(content_type_for(Some("HTML")), "text/html; charset=utf-8");
    assert_eq!(content_type_for(Some("png")), "image/png");
    assert_eq!(content_type_for(Some("")), "application/octet-stream");
    assert_eq!(content_type_for(None), "application/octet-stream");
    assert_eq!(content_type_for(Some("no-such-ext")), "application/octet-stream");
}
