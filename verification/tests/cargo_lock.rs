use depsy_lsp::parsers::cargo_lock::{parse_cargo_lock, parse_cargo_lock_graph, CargoResolver};
use depsy_lsp::parsers::{Dependency, Span};







#[test]
fn test_parse_simple_cargo_lock() {
    let content = r#"
version = 3

[[package]]
name = "serde"
version = "1.0.195"
source = "registry+https://github.com/rust-lang/crates.io-index"

[[package]]
name = "tokio"
version = "1.36.0"
source = "registry+https://github.com/rust-lang/crates.io-index"
"#;
    let map = parse_cargo_lock(content, None);
    assert_eq!(map.get("serde").map(|s| s.as_str()), Some("1.0.195"));
    assert_eq!(map.get("tokio").map(|s| s.as_str()), Some("1.36.0"));
}

#[test]
fn test_parse_empty_file() {
    let map = parse_cargo_lock("", None);
    assert!(map.is_empty());
}

#[test]
fn test_parse_no_packages() {
    let content = "version = 3\n";
    let map = parse_cargo_lock(content, None);
    assert!(map.is_empty());
}

#[test]
fn test_parse_invalid_toml() {
    let map = parse_cargo_lock("not valid toml ][", None);
    assert!(map.is_empty());
}

#[test]
fn cargo_lock_test_duplicate_package_keeps_first() {
    let content = r#"
[[package]]
name = "serde"
version = "1.0.100"

[[package]]
name = "serde"
version = "1.0.195"
"#;
    let map = parse_cargo_lock(content, None);
    assert_eq!(map.get("serde").map(|s| s.as_str()), Some("1.0.100"));
}

#[test]
fn test_multi_version_resolves_root_dependency() {
    let content = r#"
[[package]]
name = "hashbrown"
version = "0.15.5"
source = "registry+https://github.com/rust-lang/crates.io-index"

[[package]]
name = "hashbrown"
version = "0.16.1"
source = "registry+https://github.com/rust-lang/crates.io-index"

[[package]]
name = "testing"
version = "0.1.0"
dependencies = [
    "hashbrown 0.16.1",
    "wasip3",
]

[[package]]
name = "wasip3"
version = "0.4.0"
source = "registry+https://github.com/rust-lang/crates.io-index"
dependencies = [
    "hashbrown 0.15.5",
]
"#;
    let map = parse_cargo_lock(content, Some("testing"));
    assert_eq!(map.get("hashbrown").map(|s| s.as_str()), Some("0.16.1"));
    assert_eq!(map.get("wasip3").map(|s| s.as_str()), Some("0.4.0"));
}

#[test]
fn test_multi_version_without_root_package_keeps_first() {
    let content = r#"
[[package]]
name = "hashbrown"
version = "0.15.5"

[[package]]
name = "hashbrown"
version = "0.16.1"
"#;
    let map = parse_cargo_lock(content, None);
    assert_eq!(map.get("hashbrown").map(|s| s.as_str()), Some("0.15.5"));
}

#[test]
fn test_root_package_not_found_keeps_first() {
    let content = r#"
[[package]]
name = "hashbrown"
version = "0.15.5"

[[package]]
name = "hashbrown"
version = "0.16.1"
"#;
    let map = parse_cargo_lock(content, Some("nonexistent"));
    assert_eq!(map.get("hashbrown").map(|s| s.as_str()), Some("0.15.5"));
}

#[test]
fn test_unambiguous_dep_not_overridden() {
    let content = r#"
[[package]]
name = "my-crate"
version = "1.0.0"
dependencies = [
    "serde",
]

[[package]]
name = "serde"
version = "1.0.195"
"#;
    let map = parse_cargo_lock(content, Some("my-crate"));
    assert_eq!(map.get("serde").map(|s| s.as_str()), Some("1.0.195"));
}

#[test]
fn test_v1_source_suffix_stripped() {
    let content = r#"
[[package]]
name = "my-crate"
version = "1.0.0"
dependencies = [
    "serde 1.0.195 (registry+https://github.com/rust-lang/crates.io-index)",
]

[[package]]
name = "serde"
version = "1.0.195"
"#;
    let map = parse_cargo_lock(content, Some("my-crate"));
    assert_eq!(map.get("serde").map(|s| s.as_str()), Some("1.0.195"));
}

#[test]
fn test_parse_graph_captures_dependencies() {
    let content = r#"
[[package]]
name = "root"
version = "0.1.0"
dependencies = ["serde", "tokio 1.36.0"]

[[package]]
name = "serde"
version = "1.0.195"

[[package]]
name = "tokio"
version = "1.36.0"
dependencies = ["mio"]

[[package]]
name = "mio"
version = "0.8.10"
"#;
    let graph = parse_cargo_lock_graph(content);
    assert_eq!(graph.packages.len(), 4);
    let root = graph.packages.iter().find(|p| p.name == "root").unwrap();
    // Dependencies are stored as-is; "serde" has no version, "tokio 1.36.0" keeps it.
    assert!(root.dependencies.contains(&"serde".to_string()));
    assert!(root.dependencies.contains(&"tokio 1.36.0".to_string()));
    let tokio = graph.packages.iter().find(|p| p.name == "tokio").unwrap();
    assert_eq!(tokio.dependencies, vec!["mio".to_string()]);
}

#[test]
fn test_parse_cargo_lock_graph_preserves_dep_version_tokens() {
    let content = r#"
[[package]]
name = "root"
version = "0.1.0"
dependencies = ["hashbrown 0.15.5", "hashbrown 0.16.1"]

[[package]]
name = "hashbrown"
version = "0.15.5"

[[package]]
name = "hashbrown"
version = "0.16.1"
"#;
    let graph = parse_cargo_lock_graph(content);
    let root = graph.packages.iter().find(|p| p.name == "root").unwrap();
    assert!(root.dependencies.iter().any(|d| d == "hashbrown 0.15.5"));
    assert!(root.dependencies.iter().any(|d| d == "hashbrown 0.16.1"));
}

#[test]
fn test_parse_graph_empty() {
    let graph = parse_cargo_lock_graph("");
    assert!(graph.packages.is_empty());
}

#[test]
fn test_parse_graph_invalid_toml() {
    let graph = parse_cargo_lock_graph("not valid ][ toml");
    assert!(graph.packages.is_empty());
}

#[test]
fn cargo_resolver_disambiguates_multi_version_via_root_package() {

    // Cargo.lock with two versions of `multi`; root depends on the older one.
    let content = r#"
version = 3

[[package]]
name = "demo"
version = "0.1.0"
dependencies = [
 "multi 1.0.0",
]

[[package]]
name = "multi"
version = "2.0.0"

[[package]]
name = "multi"
version = "1.0.0"
"#;
    let resolver = CargoResolver {
        root_package: Some("demo".to_string()),
    };
    let graph = resolver.parse_graph(content);
    let dep = Dependency {
        name: "multi".to_string(),
        version: "*".to_string(),
        name_span: Span {
            line: 0,
            line_start: 0,
            line_end: 0,
        },
        version_span: Span {
            line: 0,
            line_start: 0,
            line_end: 0,
        },
        dev: false,
        optional: false,
        registry: None,
        resolved_version: None,
        has_additional_version_constraints: false,
    };
    // Root package's dependency string `"multi 1.0.0"` should override
    // the first-wins `"2.0.0"` from the graph order.
    assert_eq!(
        resolver.resolve_version(&dep, &graph),
        Some("1.0.0".to_string())
    );
}

#[test]
fn cargo_resolver_falls_back_to_first_wins_without_root_disambiguation() {

    // No root_package set — fallback should pick first-found version.
    let content = r#"
version = 3

[[package]]
name = "lonely"
version = "5.5.5"
"#;
    let resolver = CargoResolver { root_package: None };
    let graph = resolver.parse_graph(content);
    let dep = Dependency {
        name: "lonely".to_string(),
        version: "*".to_string(),
        name_span: Span {
            line: 0,
            line_start: 0,
            line_end: 0,
        },
        version_span: Span {
            line: 0,
            line_start: 0,
            line_end: 0,
        },
        dev: false,
        optional: false,
        registry: None,
        resolved_version: None,
        has_additional_version_constraints: false,
    };
    assert_eq!(
        resolver.resolve_version(&dep, &graph),
        Some("5.5.5".to_string())
    );
}




#[test]
fn cargo_resolver_root_pin_wins_and_unknown_crate_is_unresolved() {
    let content = r#"
[[package]]
name = "app"
version = "0.1.0"
dependencies = ["dup 1.0.0 (registry+https://github.com/rust-lang/crates.io-index)", "solo"]

[[package]]
name = "dup"
version = "2.0.0"

[[package]]
name = "dup"
version = "1.0.0"

[[package]]
name = "solo"
version = "0.3.0"
"#;
    let resolver = CargoResolver { root_package: Some("app".to_string()) };
    let graph = resolver.parse_graph(content);
    let span = Span { line: 0, line_start: 0, line_end: 0 };
    let mk = |name: &str| Dependency {
        name: name.to_string(),
        version: "*".to_string(),
        name_span: span,
        version_span: span,
        dev: false,
        optional: false,
        registry: None,
        resolved_version: None,
        has_additional_version_constraints: false,
    };
    assert_eq!(resolver.resolve_version(&mk("dup"), &graph), Some("1.0.0".to_string()));
    assert_eq!(resolver.resolve_version(&mk("solo"), &graph), Some("0.3.0".to_string()));
    assert_eq!(resolver.resolve_version(&mk("missing"), &graph), None);
    let map = parse_cargo_lock(content, Some("app"));
    assert_eq!(map.get("dup").map(|s| s.as_str()), Some("1.0.0"));
}














