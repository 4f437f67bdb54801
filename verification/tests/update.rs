use densezip::update::{parse_tag_name, source_build_hint, update, version, Step};
use std::path::Path;

fn parts(path: &str) -> Vec<String> {
    Path::new(path)
        .components()
        .map(|c| c.as_os_str().to_string_lossy().into_owned())
        .collect()
}

#[test]
fn tag_name_parsing() {
    let json = r#"{"url":"...","tag_name":"v0.2.1","name":"v0.2.1"}"#;
    assert_eq!(parse_tag_name(json).as_deref(), Some("v0.2.1"));
    assert_eq!(parse_tag_name("{}"), None);
}

#[test]
fn source_build_detection() {
    assert!(source_build_hint(&parts("/src/densezip/target/release/dnz")).is_some());
    assert!(source_build_hint(&parts("/home/u/.cargo/bin/dnz")).is_some());
    assert!(source_build_hint(&parts("/home/u/.local/bin/dnz")).is_none());
}

#[test]
fn tag_name_edges() {
    // the first pair of quotes behind the name counts, whatever is between
    assert_eq!(parse_tag_name("\"tag_name\" : \"\u{e9}\u{4f60}\" ").as_deref(), Some("\u{e9}\u{4f60}"));
    assert_eq!(parse_tag_name("\u{e9}\"tag_name\"\"\"").as_deref(), Some(""));
    assert_eq!(parse_tag_name("\"tag_name\":\"v1"), None);
    assert_eq!(parse_tag_name("\"tag_name\":"), None);
    assert_eq!(parse_tag_name(""), None);
}

#[test]
fn hints_by_part() {
    assert_eq!(
        source_build_hint(&parts("/a/target/debug/dnz")),
        Some("Update it by rebuilding: git pull && cargo build --release")
    );
    assert_eq!(
        source_build_hint(&parts("/a/target/.cargo/dnz")),
        Some("Update it with: cargo install --git https://github.com/dannyblaker/densezip")
    );
    assert_eq!(source_build_hint(&parts("/a/target/dnz")), None);
    assert_eq!(source_build_hint(&parts("/a/my-target/release/dnz")), None);
}

#[test]
fn versions_of_tags() {
    assert_eq!(version("v0.2.1"), "0.2.1");
    assert_eq!(version("vv1"), "1");
    assert_eq!(version("0.2.1v"), "0.2.1v");
    assert_eq!(version("v"), "");
}

#[test]
fn update_decisions() {
    let local = parts("/home/u/.local/bin/dnz");
    assert_eq!(update(&local, Some("0.1.4".to_string()), "0.1.4", false), Step::Latest);
    assert_eq!(
        update(&local, Some("0.1.4".to_string()), "0.1.4", true),
        Step::Install("0.1.4".to_string())
    );
    assert_eq!(
        update(&local, Some("0.2.0".to_string()), "0.1.4", false),
        Step::Install("0.2.0".to_string())
    );
    assert_eq!(update(&local, None, "0.1.4", false), Step::InstallUnknown);
    assert!(matches!(
        update(&parts("/home/u/.cargo/bin/dnz"), None, "0.1.4", true),
        Step::Refuse(_)
    ));
}
