use depsy_lsp::parsers::cargo::{cargo_root_package_name, CargoParser};
use depsy_lsp::parsers::{Parser};

#[test]
fn test_simple_dependency() {
    let parser = CargoParser::new();
    let content = r#"
[dependencies]
serde = "1.0.0"
"#;
    let deps = parser.parse(content);
    assert_eq!(deps.len(), 1);
    assert_eq!(deps[0].name, "serde");
    assert_eq!(deps[0].version, "1.0.0");
    assert!(!deps[0].dev);
}

#[test]
fn test_inline_table_dependency() {
    let parser = CargoParser::new();
    let content = r#"
[dependencies]
serde = { version = "1.0.0", features = ["derive"] }
"#;
    let deps = parser.parse(content);
    assert_eq!(deps.len(), 1);
    assert_eq!(deps[0].name, "serde");
    assert_eq!(deps[0].name_span.line_start, 0);
    assert_eq!(deps[0].version, "1.0.0");
}

#[test]
fn test_inline_table_alias_dependency() {
    let parser = CargoParser::new();
    let content = r#"
[dependencies]
serde1 = { package = "serde", version = "1.0.0", features = ["derive"] }
"#;
    let deps = parser.parse(content);
    assert_eq!(deps.len(), 1);
    assert_eq!(deps[0].name, "serde");
    assert_eq!(deps[0].name_span.line_start, 22);
    assert_eq!(deps[0].name_span.line_end, 27);
    assert_eq!(deps[0].version, "1.0.0");
}

#[test]
fn cargo_test_dev_dependencies() {
    let parser = CargoParser::new();
    let content = r#"
[dev-dependencies]
tokio-test = "0.4"
"#;
    let deps = parser.parse(content);
    assert_eq!(deps.len(), 1);
    assert_eq!(deps[0].name, "tokio-test");
    assert!(deps[0].dev);
}

#[test]
fn cargo_test_multiple_sections() {
    let parser = CargoParser::new();
    let content = r#"
[package]
name = "test"

[dependencies]
serde = "1.0"
tokio = { version = "1.0", features = ["full"] }

[dev-dependencies]
criterion = "0.5"
"#;
    let deps = parser.parse(content);
    assert_eq!(deps.len(), 3, "{deps:#?}");

    let serde = deps.iter().find(|d| d.name == "serde").unwrap();
    assert_eq!(serde.version, "1.0");
    assert!(!serde.dev);

    let tokio = deps.iter().find(|d| d.name == "tokio").unwrap();
    assert_eq!(tokio.version, "1.0");
    assert!(!tokio.dev);

    let criterion = deps.iter().find(|d| d.name == "criterion").unwrap();
    assert_eq!(criterion.version, "0.5");
    assert!(criterion.dev);
}

#[test]
fn test_table_dependency() {
    let parser = CargoParser::new();
    let content = r#"
[dependencies.reqwest]
version = "0.12"
features = ["json"]
"#;
    let deps = parser.parse(content);
    assert_eq!(deps.len(), 1);
    assert_eq!(deps[0].name, "reqwest");
    assert_eq!(deps[0].name_span.line, 1);
    assert_eq!(deps[0].version, "0.12");
}

#[test]
fn test_table_alias_dependency() {
    let parser = CargoParser::new();
    let content = r#"
[dependencies.reqwest1]
package = "reqwest"
version = "0.12"
features = ["json"]
"#;
    let deps = parser.parse(content);
    assert_eq!(deps.len(), 1);
    assert_eq!(deps[0].name, "reqwest");
    assert_eq!(deps[0].name_span.line, 2);
    assert_eq!(deps[0].name_span.line_start, 11);
    assert_eq!(deps[0].name_span.line_end, 18);
    assert_eq!(deps[0].version, "0.12");
}

#[test]
fn test_optional_dependency() {
    let parser = CargoParser::new();
    let content = r#"
[dependencies]
optional-dep = { version = "1.0", optional = true }
"#;
    let deps = parser.parse(content);
    assert_eq!(deps.len(), 1);
    assert!(deps[0].optional);
}

#[test]
fn test_workspace_dependencies_simple() {
    let parser = CargoParser::new();
    let content = r#"
[workspace]
members = ["crate-a"]

[workspace.dependencies]
serde = "1.0.0"
"#;
    let deps = parser.parse(content);
    assert_eq!(deps.len(), 1);
    assert_eq!(deps[0].name, "serde");
    assert_eq!(deps[0].version, "1.0.0");
}

#[test]
fn test_workspace_dependencies_inline_table() {
    let parser = CargoParser::new();
    let content = r#"
[workspace]
members = ["crate-a"]

[workspace.dependencies]
tokio = { version = "1.0", features = ["full"] }
"#;
    let deps = parser.parse(content);
    assert_eq!(deps.len(), 1);
    assert_eq!(deps[0].name, "tokio");
    assert_eq!(deps[0].version, "1.0");
}

#[test]
fn test_workspace_and_regular_dependencies() {
    let parser = CargoParser::new();
    let content = r#"
[package]
name = "test"
version = "0.1.0"

[workspace]
members = ["crate-a"]

[workspace.dependencies]
serde = "1.0"

[dependencies]
anyhow = "1.0"
"#;
    let deps = parser.parse(content);
    assert_eq!(deps.len(), 2);
    assert!(deps.iter().any(|d| d.name == "serde"));
    assert!(deps.iter().any(|d| d.name == "anyhow"));
}

#[test]
fn test_dependency_with_registry() {
    let parser = CargoParser::new();
    let content = r#"
[dependencies]
my-crate = { version = "0.1.0", registry = "kellnr" }
"#;
    let deps = parser.parse(content);
    assert_eq!(deps.len(), 1);
    assert_eq!(deps[0].name, "my-crate");
    assert_eq!(deps[0].version, "0.1.0");
    assert_eq!(deps[0].registry.as_deref(), Some("kellnr"));
}

#[test]
fn test_dependency_without_registry() {
    let parser = CargoParser::new();
    let content = r#"
[dependencies]
serde = { version = "1.0.0", features = ["derive"] }
"#;
    let deps = parser.parse(content);
    assert_eq!(deps.len(), 1);
    assert_eq!(deps[0].name, "serde");
    assert!(deps[0].registry.is_none());
}

#[test]
fn test_cargo_root_package_name_returns_package_name() {
    let manifest = r#"
[package]
name = "my-crate"
version = "0.1.0"

[dependencies]
serde = "1.0"
"#;
    assert_eq!(
        cargo_root_package_name(manifest),
        Some("my-crate".to_string())
    );
}

#[test]
fn test_cargo_root_package_name_returns_none_for_workspace_only() {
    let manifest = r#"
[workspace]
members = ["crate-a"]
"#;
    assert_eq!(cargo_root_package_name(manifest), None);
}

#[test]
fn test_cargo_root_package_name_returns_none_for_invalid_toml() {
    assert_eq!(cargo_root_package_name("not [valid toml ="), None);
}

#[test]
fn test_target_specific_dependencies() {
    let parser = CargoParser::new();
    let content = r#"
[dependencies]
serde = "1.0"

[target.'cfg(unix)'.dependencies]
nix = "0.29.0"

[target.'cfg(windows)'.dependencies]
windows-sys = { version = "0.59.0", features = ["Win32_Foundation"] }

[target.x86_64-unknown-linux-gnu.dev-dependencies]
criterion = "0.5"

[target.'cfg(target_os = "macos")'.build-dependencies]
cc = "1.0"
"#;
    let deps = parser.parse(content);
    assert_eq!(deps.len(), 5, "{deps:#?}");

    let nix = deps.iter().find(|d| d.name == "nix").unwrap();
    assert_eq!(nix.version, "0.29.0");
    assert!(!nix.dev);
    assert_eq!(nix.name_span.line, 5);

    let win = deps.iter().find(|d| d.name == "windows-sys").unwrap();
    assert_eq!(win.version, "0.59.0");

    let criterion = deps.iter().find(|d| d.name == "criterion").unwrap();
    assert!(criterion.dev);

    assert!(deps.iter().any(|d| d.name == "cc"));
}
