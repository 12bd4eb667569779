use depsy_lsp::parsers::composer_lock::{
    normalize_composer_name, parse_composer_lock, parse_composer_lock_graph, PhpResolver,
};



#[test]
fn test_parse_simple_composer_lock() {
    let content = r#"{
            "packages": [
                {"name": "vendor/package-a", "version": "1.2.3"},
                {"name": "vendor/package-b", "version": "4.5.6"}
            ],
            "packages-dev": []
        }"#;
    let map = parse_composer_lock(content);
    assert_eq!(
        map.get("vendor/package-a").map(|s| s.as_str()),
        Some("1.2.3")
    );
    assert_eq!(
        map.get("vendor/package-b").map(|s| s.as_str()),
        Some("4.5.6")
    );
}

#[test]
fn test_parse_packages_dev() {
    let content = r#"{
            "packages": [
                {"name": "vendor/package-a", "version": "1.0.0"}
            ],
            "packages-dev": [
                {"name": "vendor/dev-tool", "version": "2.0.0"}
            ]
        }"#;
    let map = parse_composer_lock(content);
    assert_eq!(
        map.get("vendor/package-a").map(|s| s.as_str()),
        Some("1.0.0")
    );
    assert_eq!(
        map.get("vendor/dev-tool").map(|s| s.as_str()),
        Some("2.0.0")
    );
}

#[test]
fn composer_lock_test_parse_empty_content() {
    let map = parse_composer_lock("");
    assert!(map.is_empty());
}

#[test]
fn test_parse_empty_arrays() {
    let content = r#"{"packages":[],"packages-dev":[]}"#;
    let map = parse_composer_lock(content);
    assert!(map.is_empty());
}

#[test]
fn composer_lock_test_parse_invalid_json() {
    let map = parse_composer_lock("not valid json {[");
    assert!(map.is_empty());
}

#[test]
fn composer_lock_test_duplicate_package_keeps_first() {
    let content = r#"{
            "packages": [
                {"name": "vendor/package", "version": "1.0.0"},
                {"name": "vendor/package", "version": "2.0.0"}
            ],
            "packages-dev": []
        }"#;
    let map = parse_composer_lock(content);
    assert_eq!(map.get("vendor/package").map(|s| s.as_str()), Some("1.0.0"));
}

#[test]
fn composer_lock_test_case_insensitive_names() {
    let content = r#"{
            "packages": [
                {"name": "Vendor/Package", "version": "1.0.0"}
            ],
            "packages-dev": []
        }"#;
    let map = parse_composer_lock(content);
    assert!(map.contains_key("vendor/package"));
    assert!(!map.contains_key("Vendor/Package"));
}

#[test]
fn composer_lock_test_various_version_formats() {
    let content = r#"{
            "packages": [
                {"name": "vendor/stable", "version": "1.2.3"},
                {"name": "vendor/prefixed", "version": "v3.2.0"},
                {"name": "vendor/dev", "version": "dev-master"}
            ],
            "packages-dev": []
        }"#;
    let map = parse_composer_lock(content);
    assert_eq!(map.get("vendor/stable").map(|s| s.as_str()), Some("1.2.3"));
    assert_eq!(
        map.get("vendor/prefixed").map(|s| s.as_str()),
        Some("v3.2.0")
    );
    assert_eq!(
        map.get("vendor/dev").map(|s| s.as_str()),
        Some("dev-master")
    );
}

#[test]
fn test_parse_composer_lock_graph() {
    let content = r#"{
  "packages": [
    {
      "name": "symfony/console",
      "version": "v6.0.0",
      "require": { "symfony/polyfill-php80": "^1.16", "php": ">=8.0" }
    },
    { "name": "symfony/polyfill-php80", "version": "v1.27.0", "require": { "ext-mbstring": "*" } }
  ],
  "packages-dev": []
}"#;
    let graph = parse_composer_lock_graph(content);
    assert_eq!(graph.packages.len(), 2);
    let console = graph
        .packages
        .iter()
        .find(|p| p.name == "symfony/console")
        .unwrap();
    assert!(
        console
            .dependencies
            .contains(&"symfony/polyfill-php80".to_string())
    );
    assert!(!console.dependencies.iter().any(|d| d == "php"));
    let polyfill = graph
        .packages
        .iter()
        .find(|p| p.name == "symfony/polyfill-php80")
        .unwrap();
    assert!(!polyfill.dependencies.iter().any(|d| d.starts_with("ext-")));
}

#[test]
fn test_parse_composer_lock_graph_normalizes_names() {
    let content = r#"{
  "packages": [
    {
      "name": "Vendor/Package",
      "version": "1.0.0",
      "require": { "Dep/Other": "^1.0" }
    },
    { "name": "Dep/Other", "version": "1.2.3" }
  ],
  "packages-dev": []
}"#;
    let graph = parse_composer_lock_graph(content);
    let names: Vec<&str> = graph.packages.iter().map(|p| p.name.as_str()).collect();
    assert!(
        names.contains(&"vendor/package"),
        "main name should be lowercased, got {names:?}"
    );
    assert!(names.contains(&"dep/other"));
    let vp = graph
        .packages
        .iter()
        .find(|p| p.name == "vendor/package")
        .unwrap();
    assert!(
        vp.dependencies.contains(&"dep/other".to_string()),
        "require names must also be normalized, got {:?}",
        vp.dependencies
    );
}

#[test]
fn php_resolver_graph_and_normalized_names() {
    let doc =
        r#"{"packages":[{"name":"Vendor/Package","version":"1.0.0","require":{"php":">=8","ext-json":"*","Other/Lib":"^2"}}]}"#;
    let graph = PhpResolver.parse_graph(doc);
    assert_eq!(graph.packages.len(), 1);
    assert_eq!(graph.packages[0].name, "vendor/package");
    assert_eq!(graph.packages[0].dependencies, vec!["other/lib".to_string()]);
    assert_eq!(PhpResolver.normalize_name("Vendor/Package"), "vendor/package");
    assert_eq!(normalize_composer_name("symfony/console"), "symfony/console");
}

#[test]
fn composer_lock_non_string_fields_are_skipped() {
    let map = parse_composer_lock(
        r#"{"packages":[{"name":"a/b","version":1},{"name":["x"],"version":"1.0"},{"name":"c/d","version":"2.0"}]}"#,
    );
    assert_eq!(map.len(), 1);
    assert_eq!(map.get("c/d").map(|s| s.as_str()), Some("2.0"));
}
