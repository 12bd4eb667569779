use depsy_lsp::parsers::pubspec_lock::{parse_pubspec_lock, DartResolver};

#[test]
fn test_parse_simple_pubspec_lock() {
    let content = r#"packages:
  http:
    dependency: direct main
    description:
      name: http
      sha256: "abc123"
      url: "https://pub.dev"
    source: hosted
    version: "1.1.0"
  path:
    dependency: direct main
    description:
      name: path
      sha256: "def456"
      url: "https://pub.dev"
    source: hosted
    version: "1.9.0"
sdks:
  dart: ">=3.0.0 <4.0.0"
"#;
    let map = parse_pubspec_lock(content);
    assert_eq!(map.get("http").map(|s| s.as_str()), Some("1.1.0"));
    assert_eq!(map.get("path").map(|s| s.as_str()), Some("1.9.0"));
    assert!(!map.contains_key("dart"));
}

#[test]
fn test_parse_sdk_source() {
    let content = r#"packages:
  flutter:
    dependency: direct main
    description: flutter
    source: sdk
    version: "0.0.0"
"#;
    let map = parse_pubspec_lock(content);
    assert_eq!(map.get("flutter").map(|s| s.as_str()), Some("0.0.0"));
}

#[test]
fn test_parse_git_source() {
    let content = r#"packages:
  my_package:
    dependency: direct main
    description:
      path: "."
      ref: main
      resolved-ref: "abc123def456"
      url: "https://github.com/example/my_package.git"
    source: git
    version: "2.0.0"
"#;
    let map = parse_pubspec_lock(content);
    assert_eq!(map.get("my_package").map(|s| s.as_str()), Some("2.0.0"));
}

#[test]
fn test_parse_path_source() {
    let content = r#"packages:
  local_lib:
    dependency: direct main
    description:
      path: "../local_lib"
      relative: true
    source: path
    version: "0.1.0"
"#;
    let map = parse_pubspec_lock(content);
    assert_eq!(map.get("local_lib").map(|s| s.as_str()), Some("0.1.0"));
}

#[test]
fn pubspec_lock_test_parse_empty_content() {
    let map = parse_pubspec_lock("");
    assert!(map.is_empty());
}

#[test]
fn test_parse_malformed_content() {
    let map = parse_pubspec_lock("}{not valid content at all}}{{");
    assert!(map.is_empty());
}

#[test]
fn test_version_at_wrong_indent_ignored() {
    let content = r#"packages:
  http:
    dependency: direct main
    source: hosted
     version: "1.0.0"
"#;
    // version at 5-space indent (wrong) should be ignored
    let map = parse_pubspec_lock(content);
    assert!(map.is_empty());
}

#[test]
fn test_package_without_version_omitted() {
    let content = r#"packages:
  incomplete_pkg:
    dependency: direct main
    source: hosted
  complete_pkg:
    dependency: direct main
    source: hosted
    version: "1.0.0"
"#;
    let map = parse_pubspec_lock(content);
    assert!(!map.contains_key("incomplete_pkg"));
    assert_eq!(map.get("complete_pkg").map(|s| s.as_str()), Some("1.0.0"));
}

#[test]
fn pubspec_lock_test_duplicate_package_keeps_first() {
    let content = r#"packages:
  http:
    dependency: direct main
    source: hosted
    version: "1.0.0"
  http:
    dependency: transitive
    source: hosted
    version: "2.0.0"
"#;
    let map = parse_pubspec_lock(content);
    assert_eq!(map.get("http").map(|s| s.as_str()), Some("1.0.0"));
}

#[test]
fn pubspec_lock_test_various_version_formats() {
    let content = r#"packages:
  stable_pkg:
    dependency: direct main
    source: hosted
    version: "1.2.3"
  prerelease_pkg:
    dependency: direct main
    source: hosted
    version: "2.0.0-beta.1"
  dev_pkg:
    dependency: direct dev
    source: hosted
    version: "0.0.1+hotfix.1"
"#;
    let map = parse_pubspec_lock(content);
    assert_eq!(map.get("stable_pkg").map(|s| s.as_str()), Some("1.2.3"));
    assert_eq!(
        map.get("prerelease_pkg").map(|s| s.as_str()),
        Some("2.0.0-beta.1")
    );
    assert_eq!(
        map.get("dev_pkg").map(|s| s.as_str()),
        Some("0.0.1+hotfix.1")
    );
}

#[test]
fn dart_resolver_flat_graph_of_pubspec_lock() {
    let content = r#"packages:
  http:
    dependency: "direct main"
    description:
      name: http
      url: "https://pub.dev"
    source: hosted
    version: "1.2.0"
  path:
    source: hosted
    version: "1.9.0"
"#;
    let graph = DartResolver.parse_graph(content);
    let mut got: Vec<(String, String)> = graph
        .packages
        .iter()
        .map(|p| (p.name.clone(), p.version.clone()))
        .collect();
    got.sort();
    assert_eq!(
        got,
        vec![
            ("http".to_string(), "1.2.0".to_string()),
            ("path".to_string(), "1.9.0".to_string()),
        ]
    );
    assert!(graph.packages.iter().all(|p| !p.is_root && p.dependencies.is_empty()));
}

#[test]
fn pubspec_lock_other_top_level_section_ends_packages() {
    let content = "packages:\n  a:\n    version: \"1.0.0\"\nsdks:\n  b:\n    version: \"2.0.0\"\n";
    let map = parse_pubspec_lock(content);
    assert_eq!(map.get("a").map(|s| s.as_str()), Some("1.0.0"));
    assert!(!map.contains_key("b"));
    assert_eq!(map.len(), 1);
}

#[test]
fn pubspec_lock_blank_line_resets_current_package() {
    let content = "packages:\n  a:\n\n    version: \"1.0.0\"\n";
    let map = parse_pubspec_lock(content);
    assert!(map.is_empty());
}
