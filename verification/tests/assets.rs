use dom2figma::assets::{build_scripter, escape_js, PLUGIN_CODE, PLUGIN_MANIFEST, PLUGIN_UI, SERIALIZE_JS};

#[test]
fn scripter_contains_lib_and_url() {
    let s = build_scripter("http://localhost:8787/core.json").unwrap();
    assert!(s.contains("const URL = 'http://localhost:8787/core.json'"));
    assert!(s.contains("async function importAll("));
    assert!(!s.contains("figma.showUI"), "UI-часть плагина не должна попадать в Scripter");
    assert!(!s.contains("figma.ui.onmessage"));
    assert!(s.contains("const n = await importAll(data, OPTS)"));
}

#[test]
fn scripter_escapes_quotes_in_url() {
    let s = build_scripter("http://x/a'b.json").unwrap();
    assert!(s.contains("http://x/a\\'b.json"));
}

#[test]
fn plugin_code_supports_groups_and_legacy_personas() {
    assert!(PLUGIN_CODE.contains("data.groups || data.personas"));
    assert!(PLUGIN_UI.contains("data.groups || data.personas"));
}

#[test]
fn serializer_is_idempotent_guarded() {
    assert!(SERIALIZE_JS.contains("if (window.__dom2figma) return;"));
    assert!(SERIALIZE_JS.contains("window.__dom2figma = {"));
}

#[test]
fn scripter_has_no_markers_and_no_placeholder() {
    let s = build_scripter("http://localhost:8787/screens.json").unwrap();
    assert!(!s.contains("__URL__"));
    assert!(!s.contains("// --- LIB START ---"));
    assert!(!s.contains("// --- LIB END ---"));
    assert!(s.starts_with("// dom2figma for Scripter"));
}

#[test]
fn escape_doubles_backslashes_and_quotes() {
    assert_eq!(escape_js("a\\b'c"), "a\\\\b\\'c");
    assert_eq!(escape_js("plain"), "plain");
    assert_eq!(escape_js(""), "");
}

#[test]
fn escape_roundtrips_through_js_reading() {
    // Reading the escaped text as a single-quoted JS string gives the text back.
    let original = "x'\\'y\\";
    let escaped = escape_js(original);
    let mut read = String::new();
    let mut chars = escaped.chars();
    while let Some(c) = chars.next() {
        if c == '\\' {
            read.push(chars.next().unwrap());
        } else {
            read.push(c);
        }
    }
    assert_eq!(read, original);
}

#[test]
fn manifest_points_at_code_and_ui() {
    let manifest: serde_json::Value = serde_json::from_str(PLUGIN_MANIFEST).unwrap();
    assert_eq!(manifest["main"], "code.js");
    assert_eq!(manifest["ui"], "ui.html");
}
