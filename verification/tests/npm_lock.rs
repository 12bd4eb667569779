use depsy_lsp::parsers::lockfile_graph::LockfilePackage;
use depsy_lsp::parsers::npm_lock::{
    clean_jsonc, extract_name_from_node_modules_path, npm_lockfile_json_text, parse_bun_lock,
    parse_npm_lockfile, parse_package_lock, parse_package_lock_graph, parse_pnpm_lock,
    parse_pnpm_lock_graph, parse_yarn_lock, parse_yarn_lock_graph, split_name_version,
    NpmLockfileType, NpmResolver,
};






#[test]
fn test_split_name_version_simple() {
    assert_eq!(
        split_name_version("express@4.18.2"),
        Some(("express", "4.18.2"))
    );
}

#[test]
fn test_split_name_version_scoped() {
    assert_eq!(
        split_name_version("@types/node@20.11.5"),
        Some(("@types/node", "20.11.5"))
    );
}

#[test]
fn test_split_name_version_with_protocol() {
    assert_eq!(
        split_name_version("express@npm:^4.18.0"),
        Some(("express", "npm:^4.18.0"))
    );
}

#[test]
fn test_split_name_version_invalid() {
    assert_eq!(split_name_version("express"), None);
    assert_eq!(split_name_version("@scope/name"), None);
    assert_eq!(split_name_version(""), None);
}

#[test]
fn test_parse_yarn_lock_v1() {
    let content = r#"# yarn lockfile v1

express@^4.18.0:
  version "4.18.2"
  resolved "https://registry.yarnpkg.com/express/-/express-4.18.2.tgz"
  integrity sha512-abc

lodash@^4.17.0:
  version "4.17.21"
  resolved "https://registry.yarnpkg.com/lodash/-/lodash-4.17.21.tgz"
"#;
    let map = parse_yarn_lock(content);
    assert_eq!(map.get("express").map(|s| s.as_str()), Some("4.18.2"));
    assert_eq!(map.get("lodash").map(|s| s.as_str()), Some("4.17.21"));
}

#[test]
fn test_parse_yarn_lock_berry() {
    let content = r#"__metadata:
  version: 8
  cacheKey: 10c0

"express@npm:^4.18.0":
  version: 4.18.2
  resolution: "express@npm:4.18.2"

"@types/node@npm:^20.0.0":
  version: 20.11.5
  resolution: "@types/node@npm:20.11.5"
"#;
    let map = parse_yarn_lock(content);
    assert_eq!(map.get("express").map(|s| s.as_str()), Some("4.18.2"));
    assert_eq!(map.get("@types/node").map(|s| s.as_str()), Some("20.11.5"));
}

#[test]
fn test_parse_yarn_lock_scoped() {
    let content = r#"# yarn lockfile v1

"@babel/core@^7.22.0":
  version "7.23.7"
  resolved "https://registry.yarnpkg.com/@babel/core/-/core-7.23.7.tgz"

"@types/node@^20.0.0":
  version "20.11.5"
"#;
    let map = parse_yarn_lock(content);
    assert_eq!(map.get("@babel/core").map(|s| s.as_str()), Some("7.23.7"));
    assert_eq!(map.get("@types/node").map(|s| s.as_str()), Some("20.11.5"));
}

#[test]
fn test_parse_yarn_lock_multi_range() {
    let content = r#"# yarn lockfile v1

express@^4.17.0, express@^4.18.0:
  version "4.18.2"
  resolved "https://registry.yarnpkg.com/express/-/express-4.18.2.tgz"
"#;
    let map = parse_yarn_lock(content);
    assert_eq!(map.get("express").map(|s| s.as_str()), Some("4.18.2"));
    assert_eq!(map.len(), 1); // Deduplicated
}

#[test]
fn test_parse_yarn_lock_empty() {
    assert!(parse_yarn_lock("").is_empty());
    assert!(parse_yarn_lock("# yarn lockfile v1\n").is_empty());
}

#[test]
fn test_parse_pnpm_lock_v9() {
    let content = r#"lockfileVersion: '9.0'

settings:
  autoInstallPeers: true

packages:

  express@4.18.2:
    resolution: {integrity: sha512-abc}

  '@types/node@20.11.5':
    resolution: {integrity: sha512-def}

snapshots:
  express@4.18.2: {}
"#;
    let map = parse_pnpm_lock(content);
    assert_eq!(map.get("express").map(|s| s.as_str()), Some("4.18.2"));
    assert_eq!(map.get("@types/node").map(|s| s.as_str()), Some("20.11.5"));
    // Should not include entries from snapshots section
    assert_eq!(map.len(), 2);
}

#[test]
fn test_parse_pnpm_lock_v6() {
    let content = r#"lockfileVersion: '6.0'

packages:

  /express@4.18.2:
    resolution: {integrity: sha512-abc}
    dependencies:
      accepts: 1.3.8

  /@types/node@20.11.5:
    resolution: {integrity: sha512-def}
"#;
    let map = parse_pnpm_lock(content);
    assert_eq!(map.get("express").map(|s| s.as_str()), Some("4.18.2"));
    assert_eq!(map.get("@types/node").map(|s| s.as_str()), Some("20.11.5"));
}

#[test]
fn test_parse_pnpm_lock_with_peer_deps() {
    let content = r#"lockfileVersion: '9.0'

packages:

  react-dom@18.2.0(react@18.2.0):
    resolution: {integrity: sha512-abc}

  react@18.2.0:
    resolution: {integrity: sha512-def}
"#;
    let map = parse_pnpm_lock(content);
    assert_eq!(map.get("react-dom").map(|s| s.as_str()), Some("18.2.0"));
    assert_eq!(map.get("react").map(|s| s.as_str()), Some("18.2.0"));
}

#[test]
fn test_parse_pnpm_lock_empty() {
    assert!(parse_pnpm_lock("").is_empty());
    assert!(parse_pnpm_lock("lockfileVersion: '9.0'\n").is_empty());
}

#[test]
fn test_clean_jsonc_strips_comments() {
    let input = r#"{
  // comment
  "key": "value" // inline
}"#;
    let cleaned = clean_jsonc(input);
    assert!(!cleaned.contains("comment"));
    assert!(!cleaned.contains("inline"));
    assert!(cleaned.contains("\"key\": \"value\""));
}

#[test]
fn test_clean_jsonc_preserves_slashes_in_strings() {
    let input = r#"{"url": "https://example.com"}"#;
    let cleaned = clean_jsonc(input);
    assert_eq!(cleaned, input);
}

#[test]
fn test_extract_name_simple() {
    assert_eq!(
        extract_name_from_node_modules_path("node_modules/express"),
        Some("express")
    );
}

#[test]
fn test_extract_name_scoped() {
    assert_eq!(
        extract_name_from_node_modules_path("node_modules/@types/node"),
        Some("@types/node")
    );
}

#[test]
fn test_extract_name_nested_ignored() {
    assert_eq!(
        extract_name_from_node_modules_path("node_modules/a/node_modules/b"),
        None
    );
}

#[test]
fn test_extract_name_root_ignored() {
    assert_eq!(extract_name_from_node_modules_path(""), None);
}

#[test]
fn test_parse_pnpm_lock_graph() {
    let content = r#"
lockfileVersion: '9.0'

importers:
  .:
    dependencies:
      react:
        specifier: ^18.0.0
        version: 18.2.0

packages:
  /react@18.2.0:
    resolution: {integrity: sha512-xxx}
    dependencies:
      scheduler: 0.23.0
  /scheduler@0.23.0:
    resolution: {integrity: sha512-yyy}
"#;
    let graph = parse_pnpm_lock_graph(content);
    let names: Vec<&str> = graph.packages.iter().map(|p| p.name.as_str()).collect();
    assert!(names.contains(&"react"));
    assert!(names.contains(&"scheduler"));
    let react = graph.packages.iter().find(|p| p.name == "react").unwrap();
    assert_eq!(react.version, "18.2.0");
    assert_eq!(react.dependencies, vec!["scheduler".to_string()]);
}

#[test]
fn test_parse_pnpm_lock_graph_v9() {
    let content = r#"
lockfileVersion: '9.0'

importers:
  .:
    dependencies:
      react: 18.2.0

packages:
  react@18.2.0:
    resolution: {integrity: sha512-xxx}
    dependencies:
      scheduler: 0.23.0
  scheduler@0.23.0:
    resolution: {integrity: sha512-yyy}
"#;
    let graph = parse_pnpm_lock_graph(content);
    let names: Vec<&str> = graph.packages.iter().map(|p| p.name.as_str()).collect();
    assert!(names.contains(&"react"));
    assert!(names.contains(&"scheduler"));
    let react = graph.packages.iter().find(|p| p.name == "react").unwrap();
    assert_eq!(react.version, "18.2.0");
    assert_eq!(react.dependencies, vec!["scheduler".to_string()]);
}

#[test]
fn test_parse_pnpm_lock_graph_exits_packages_section_on_snapshots() {
    let content = r#"
lockfileVersion: '9.0'

packages:

  react@18.2.0:
    resolution: {integrity: sha512-xxx}

snapshots:

  react-dom@18.2.0(react@18.2.0):
    dependencies:
      react: 18.2.0
"#;
    let graph = parse_pnpm_lock_graph(content);
    let names: Vec<&str> = graph.packages.iter().map(|p| p.name.as_str()).collect();
    // Should include react but NOT react-dom (which lives under snapshots:)
    assert!(names.contains(&"react"));
    assert!(
        !names.iter().any(|n| n.contains('(')),
        "no entry name should contain a peer-suffix paren, got {names:?}"
    );
}

#[test]
fn test_split_pnpm_key_handles_peer_suffix() {
    // Only run if split_pnpm_key is accessible; otherwise test through parse_pnpm_lock_graph
    let content = r#"
lockfileVersion: '9.0'
packages:
  react-dom@18.2.0(react@18.2.0):
    resolution: {integrity: sha512-xxx}
"#;
    let graph = parse_pnpm_lock_graph(content);
    assert!(
        graph
            .packages
            .iter()
            .any(|p| p.name == "react-dom" && p.version == "18.2.0")
    );
}

#[test]
fn test_parse_pnpm_lock_graph_strips_quoted_keys() {
    let content = r#"
lockfileVersion: '9.0'

packages:

  '@types/node@20.11.5':
    resolution: {integrity: sha512-xxx}
"#;
    let graph = parse_pnpm_lock_graph(content);
    let names: Vec<&str> = graph.packages.iter().map(|p| p.name.as_str()).collect();
    assert!(
        names.contains(&"@types/node"),
        "quoted key should yield unquoted name, got {names:?}"
    );
    let ty = graph
        .packages
        .iter()
        .find(|p| p.name == "@types/node")
        .unwrap();
    assert_eq!(ty.version, "20.11.5");
}

#[test]
fn test_parse_pnpm_lock_graph_unquotes_scoped_dep_names() {
    let content = r#"
lockfileVersion: '9.0'

packages:

  react@18.2.0:
    resolution: {integrity: sha512-xxx}
    dependencies:
      '@emotion/cache': 11.11.0
      react-dom: 18.2.0

  '@emotion/cache@11.11.0':
    resolution: {integrity: sha512-yyy}
"#;
    let graph = parse_pnpm_lock_graph(content);
    let react = graph.packages.iter().find(|p| p.name == "react").unwrap();
    assert!(
        react.dependencies.contains(&"@emotion/cache".to_string()),
        "scoped dep name should be unquoted, got {:?}",
        react.dependencies
    );
    assert!(react.dependencies.contains(&"react-dom".to_string()));
}

#[test]
fn test_parse_yarn_lock_graph_v1() {
    let content = r#"
# THIS IS AN AUTOGENERATED FILE

"react@^18.0.0":
  version "18.2.0"
  dependencies:
    scheduler "^0.23.0"

"scheduler@^0.23.0":
  version "0.23.0"
"#;
    let graph = parse_yarn_lock_graph(content);
    assert!(
        graph
            .packages
            .iter()
            .any(|p| p.name == "react" && p.version == "18.2.0")
    );
    let react = graph.packages.iter().find(|p| p.name == "react").unwrap();
    assert!(react.dependencies.contains(&"scheduler".to_string()));
}


#[test]
fn test_parse_package_lock_v3() {
    let content = r#"{
  "name": "my-app",
  "version": "1.0.0",
  "lockfileVersion": 3,
  "packages": {
    "": {
      "name": "my-app",
      "version": "1.0.0",
      "dependencies": {
        "express": "^4.18.0"
      }
    },
    "node_modules/express": {
      "version": "4.18.2"
    },
    "node_modules/@types/node": {
      "version": "20.11.5"
    }
  }
}"#;
    let map = parse_package_lock(content);
    assert_eq!(map.get("express").map(|s| s.as_str()), Some("4.18.2"));
    assert_eq!(map.get("@types/node").map(|s| s.as_str()), Some("20.11.5"));
    assert_eq!(map.len(), 2);
}

#[test]
fn test_parse_package_lock_v1() {
    let content = r#"{
  "name": "my-app",
  "lockfileVersion": 1,
  "dependencies": {
    "express": {
      "version": "4.18.2",
      "resolved": "https://registry.npmjs.org/express/-/express-4.18.2.tgz"
    },
    "lodash": {
      "version": "4.17.21"
    }
  }
}"#;
    let map = parse_package_lock(content);
    assert_eq!(map.get("express").map(|s| s.as_str()), Some("4.18.2"));
    assert_eq!(map.get("lodash").map(|s| s.as_str()), Some("4.17.21"));
}

#[test]
fn test_parse_package_lock_nested_deps_ignored() {
    let content = r#"{
  "lockfileVersion": 3,
  "packages": {
    "node_modules/express": {
      "version": "4.18.2"
    },
    "node_modules/express/node_modules/qs": {
      "version": "6.11.0"
    }
  }
}"#;
    let map = parse_package_lock(content);
    assert_eq!(map.get("express").map(|s| s.as_str()), Some("4.18.2"));
    // Nested dep should not appear as top-level
    assert!(!map.contains_key("qs"));
}

#[test]
fn test_parse_package_lock_empty() {
    assert!(parse_package_lock("{}").is_empty());
    assert!(parse_package_lock("").is_empty());
    assert!(parse_package_lock("invalid json").is_empty());
}

#[test]
fn test_parse_bun_lock() {
    let content = r#"{
  "lockfileVersion": 0,
  "packages": {
    "express": ["express@4.21.2", ""],
    "@types/node": ["@types/node@22.10.5", ""]
  }
}"#;
    let map = parse_bun_lock(content);
    assert_eq!(map.get("express").map(|s| s.as_str()), Some("4.21.2"));
    assert_eq!(map.get("@types/node").map(|s| s.as_str()), Some("22.10.5"));
}

#[test]
fn test_parse_bun_lock_with_comments_and_trailing_commas() {
    let content = r#"{
  // This is a bun lockfile
  "lockfileVersion": 0,
  "packages": {
    "express": ["express@4.21.2", ""], // trailing
    "@types/node": ["@types/node@22.10.5", ""],
  },
}"#;
    let map = parse_bun_lock(content);
    assert_eq!(map.get("express").map(|s| s.as_str()), Some("4.21.2"));
    assert_eq!(map.get("@types/node").map(|s| s.as_str()), Some("22.10.5"));
}

#[test]
fn test_parse_bun_lock_empty() {
    assert!(parse_bun_lock("{}").is_empty());
    assert!(parse_bun_lock("").is_empty());
    assert!(parse_bun_lock("invalid").is_empty());
}

#[test]
fn test_dispatch_package_lock() {
    let content =
        r#"{"lockfileVersion": 3, "packages": {"node_modules/a": {"version": "1.0.0"}}}"#;
    let map = parse_npm_lockfile(content, NpmLockfileType::PackageLock);
    assert_eq!(map.get("a").map(|s| s.as_str()), Some("1.0.0"));
}

#[test]
fn test_dispatch_yarn_lock() {
    let content = "a@^1.0.0:\n  version \"1.2.3\"\n";
    let map = parse_npm_lockfile(content, NpmLockfileType::YarnLock);
    assert_eq!(map.get("a").map(|s| s.as_str()), Some("1.2.3"));
}

#[test]
fn test_dispatch_pnpm_lock() {
    let content = "packages:\n\n  a@1.2.3:\n    resolution: {}\n";
    let map = parse_npm_lockfile(content, NpmLockfileType::PnpmLock);
    assert_eq!(map.get("a").map(|s| s.as_str()), Some("1.2.3"));
}

#[test]
fn test_dispatch_bun_lock() {
    let content = r#"{"packages": {"a": ["a@1.2.3"]}}"#;
    let map = parse_npm_lockfile(content, NpmLockfileType::BunLock);
    assert_eq!(map.get("a").map(|s| s.as_str()), Some("1.2.3"));
}

#[test]
fn test_parse_package_lock_graph_v3() {
    let content = r#"{
  "name": "demo",
  "lockfileVersion": 3,
  "packages": {
    "": { "name": "demo", "version": "1.0.0", "dependencies": { "react": "^18.0.0" } },
    "node_modules/react": { "version": "18.2.0", "dependencies": { "scheduler": "^0.23.0" } },
    "node_modules/scheduler": { "version": "0.23.0" }
  }
}"#;
    let graph = parse_package_lock_graph(content);
    let names: Vec<&str> = graph.packages.iter().map(|p| p.name.as_str()).collect();
    assert!(names.contains(&"react"));
    assert!(names.contains(&"scheduler"));
    let react = graph.packages.iter().find(|p| p.name == "react").unwrap();
    assert_eq!(react.version, "18.2.0");
    assert_eq!(react.dependencies, vec!["scheduler".to_string()]);
}

#[test]
fn test_parse_package_lock_graph_skips_nested_node_modules() {
    let content = r#"{
  "name": "demo",
  "lockfileVersion": 3,
  "packages": {
    "": { "name": "demo", "version": "1.0.0" },
    "node_modules/foo": { "version": "2.0.0" },
    "node_modules/bar": { "version": "1.0.0", "dependencies": { "foo": "^1.0.0" } },
    "node_modules/bar/node_modules/foo": { "version": "1.0.0" }
  }
}"#;
    let graph = parse_package_lock_graph(content);
    let foo_entries: Vec<&LockfilePackage> =
        graph.packages.iter().filter(|p| p.name == "foo").collect();
    assert_eq!(
        foo_entries.len(),
        1,
        "nested node_modules/foo must not be added a second time"
    );
    assert_eq!(
        foo_entries[0].version, "2.0.0",
        "top-level foo (2.0.0) wins over nested copy (1.0.0)"
    );
}

#[test]
fn npm_resolver_graph_by_kind() {
    let content = r#"{"lockfileVersion":3,"packages":{"":{"name":"demo"},"node_modules/react":{"version":"18.2.0","dependencies":{"loose-envify":"^1.1.0"}},"node_modules/loose-envify":{"version":"1.4.0"}}}"#;
    let resolver = NpmResolver {
        lock_path: std::path::PathBuf::from("package-lock.json"),
        sub: NpmLockfileType::PackageLock,
    };
    let graph = resolver.parse_graph(content);
    assert_eq!(graph.packages.len(), 2);
    let react = graph.packages.iter().find(|p| p.name == "react").unwrap();
    assert_eq!(react.version, "18.2.0");
    assert_eq!(react.dependencies, vec!["loose-envify".to_string()]);

    let bun = r#"{"packages": {"a": ["a@1.2.3"], "b": ["@s/b@2.0.0", {}]}}"#;
    let resolver = NpmResolver {
        lock_path: std::path::PathBuf::from("bun.lock"),
        sub: NpmLockfileType::BunLock,
    };
    let graph = resolver.parse_graph(bun);
    let mut got: Vec<(String, String)> =
        graph.packages.iter().map(|p| (p.name.clone(), p.version.clone())).collect();
    got.sort();
    assert_eq!(
        got,
        vec![
            ("@s/b".to_string(), "2.0.0".to_string()),
            ("a".to_string(), "1.2.3".to_string())
        ]
    );
}

#[test]
fn npm_lockfile_json_text_by_kind() {
    assert_eq!(npm_lockfile_json_text("{}", NpmLockfileType::PackageLock), Some("{}".to_string()));
    assert_eq!(
        npm_lockfile_json_text("{\"a\": 1,}", NpmLockfileType::BunLock),
        Some(clean_jsonc("{\"a\": 1,}"))
    );
    assert_eq!(npm_lockfile_json_text("x", NpmLockfileType::YarnLock), None);
    assert_eq!(npm_lockfile_json_text("x", NpmLockfileType::PnpmLock), None);
}

#[test]
fn test_clean_jsonc_strips_trailing_commas() {
    let input = r#"{"a": [1, 2, 3,], "b": {"x": 1,},}"#;
    let cleaned = clean_jsonc(input);
    let parsed: serde_json::Value = serde_json::from_str(&cleaned).unwrap();
    assert_eq!(parsed["a"][2], 3);
    assert_eq!(parsed["b"]["x"], 1);
}

#[test]
fn test_clean_jsonc_preserves_non_ascii() {
    let input = r#"{"description": "Bibliothèque géniale", "author": "日本語"}"#;
    let cleaned = clean_jsonc(input);
    let parsed: serde_json::Value = serde_json::from_str(&cleaned).unwrap();
    assert_eq!(parsed["description"], "Bibliothèque géniale");
    assert_eq!(parsed["author"], "日本語");
}

#[test]
fn jsonc_trailing_comma_before_comment_then_bracket() {
    assert_eq!(depsy_lsp::parsers::npm_lock::clean_jsonc("[1, // c\n]"), "[1 \n]");
    assert_eq!(depsy_lsp::parsers::npm_lock::clean_jsonc("[1, // c\n2]"), "[1, \n2]");
}

#[test]
fn pnpm_graph_names_are_clean_and_need_a_packages_section() {
    let content = "lockfileVersion: '9.0'\n\npackages:\n\n  react-dom@18.2.0(react@18.2.0):\n    dependencies:\n      react: 18.2.0\n\n  '@babel/core@7.0.0':\n    resolution: {integrity: x}\n\nsnapshots:\n\n  other@1.0.0:\n";
    let graph = parse_pnpm_lock_graph(content);
    let got: Vec<(&str, &str, bool)> =
        graph.packages.iter().map(|p| (p.name.as_str(), p.version.as_str(), p.is_root)).collect();
    assert_eq!(got, vec![("react-dom", "18.2.0", false), ("@babel/core", "7.0.0", false)]);
    assert!(parse_pnpm_lock_graph("lockfileVersion: '9.0'\n  react@18.2.0:\n").packages.is_empty());
}
