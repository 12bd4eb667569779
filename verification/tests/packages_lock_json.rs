use depsy_lsp::parsers::packages_lock_json::{
    normalize_nuget_name, parse_packages_lock, CsharpResolver,
};



#[test]
fn test_parse_simple_packages_lock() {
    let content = r#"{
            "version": 1,
            "dependencies": {
                "net8.0": {
                    "Newtonsoft.Json": {
                        "type": "Direct",
                        "requested": "[13.0.1, )",
                        "resolved": "13.0.1",
                        "contentHash": "abc123",
                        "dependencies": {}
                    },
                    "Microsoft.Extensions.Logging": {
                        "type": "Transitive",
                        "resolved": "8.0.0",
                        "dependencies": {}
                    }
                }
            }
        }"#;
    let map = parse_packages_lock(content);
    assert_eq!(
        map.get("newtonsoft.json").map(|s| s.as_str()),
        Some("13.0.1")
    );
    assert_eq!(
        map.get("microsoft.extensions.logging").map(|s| s.as_str()),
        Some("8.0.0")
    );
}

#[test]
fn test_parse_multiple_target_frameworks() {
    let content = r#"{
            "version": 1,
            "dependencies": {
                "net6.0": {
                    "PackageA": {
                        "type": "Direct",
                        "resolved": "1.0.0",
                        "dependencies": {}
                    }
                },
                "net8.0": {
                    "PackageB": {
                        "type": "Direct",
                        "resolved": "2.0.0",
                        "dependencies": {}
                    }
                }
            }
        }"#;
    let map = parse_packages_lock(content);
    assert_eq!(map.get("packagea").map(|s| s.as_str()), Some("1.0.0"));
    assert_eq!(map.get("packageb").map(|s| s.as_str()), Some("2.0.0"));
}

#[test]
fn test_parse_transitive_and_direct() {
    let content = r#"{
            "version": 1,
            "dependencies": {
                "net8.0": {
                    "DirectPkg": {
                        "type": "Direct",
                        "resolved": "3.0.0",
                        "dependencies": {}
                    },
                    "TransitivePkg": {
                        "type": "Transitive",
                        "resolved": "1.5.0",
                        "dependencies": {}
                    }
                }
            }
        }"#;
    let map = parse_packages_lock(content);
    assert_eq!(map.get("directpkg").map(|s| s.as_str()), Some("3.0.0"));
    assert_eq!(map.get("transitivepkg").map(|s| s.as_str()), Some("1.5.0"));
}

#[test]
fn packages_lock_json_test_parse_empty_content() {
    let map = parse_packages_lock("");
    assert!(map.is_empty());
}

#[test]
fn packages_lock_json_test_parse_invalid_json() {
    let map = parse_packages_lock("not valid json {[");
    assert!(map.is_empty());
}

#[test]
fn packages_lock_json_test_duplicate_package_keeps_first() {
    let content = r#"{
            "version": 1,
            "dependencies": {
                "net6.0": {
                    "SharedPkg": {
                        "type": "Direct",
                        "resolved": "1.0.0",
                        "dependencies": {}
                    }
                },
                "net8.0": {
                    "SharedPkg": {
                        "type": "Direct",
                        "resolved": "2.0.0",
                        "dependencies": {}
                    }
                }
            }
        }"#;
    let map = parse_packages_lock(content);
    // First TFM entry wins; serde_json preserves insertion order for objects
    assert!(map.contains_key("sharedpkg"));
    let version = map.get("sharedpkg").unwrap();
    assert!(version == "1.0.0" || version == "2.0.0");
}

#[test]
fn packages_lock_json_test_case_insensitive_names() {
    let content = r#"{
            "version": 1,
            "dependencies": {
                "net8.0": {
                    "Newtonsoft.Json": {
                        "type": "Direct",
                        "resolved": "13.0.1",
                        "dependencies": {}
                    }
                }
            }
        }"#;
    let map = parse_packages_lock(content);
    assert!(map.contains_key("newtonsoft.json"));
    assert!(!map.contains_key("Newtonsoft.Json"));
}

#[test]
fn packages_lock_json_test_various_version_formats() {
    let content = r#"{
            "version": 1,
            "dependencies": {
                "net8.0": {
                    "StablePkg": {
                        "type": "Direct",
                        "resolved": "13.0.1",
                        "dependencies": {}
                    },
                    "PreviewPkg": {
                        "type": "Direct",
                        "resolved": "8.0.0-preview.1",
                        "dependencies": {}
                    },
                    "FourPartPkg": {
                        "type": "Direct",
                        "resolved": "4.3.0.0",
                        "dependencies": {}
                    }
                }
            }
        }"#;
    let map = parse_packages_lock(content);
    assert_eq!(map.get("stablepkg").map(|s| s.as_str()), Some("13.0.1"));
    assert_eq!(
        map.get("previewpkg").map(|s| s.as_str()),
        Some("8.0.0-preview.1")
    );
    assert_eq!(map.get("fourpartpkg").map(|s| s.as_str()), Some("4.3.0.0"));
}

#[test]
fn csharp_resolver_flat_graph_normalized() {
    let doc =
        r#"{"version":1,"dependencies":{"net8.0":{"Newtonsoft.Json":{"type":"Direct","resolved":"13.0.1"},"Serilog":{"type":"Transitive","resolved":"3.1.1"}}}}"#;
    let graph = CsharpResolver.parse_graph(doc);
    let mut got: Vec<(String, String)> =
        graph.packages.iter().map(|p| (p.name.clone(), p.version.clone())).collect();
    got.sort();
    assert_eq!(
        got,
        vec![
            ("newtonsoft.json".to_string(), "13.0.1".to_string()),
            ("serilog".to_string(), "3.1.1".to_string())
        ]
    );
    assert_eq!(CsharpResolver.normalize_name("Newtonsoft.Json"), "newtonsoft.json");
    assert_eq!(normalize_nuget_name("Serilog"), "serilog");
}

#[test]
fn packages_lock_entries_without_resolved_are_skipped() {
    let map = parse_packages_lock(
        r#"{"dependencies":{"net8.0":{"A":{"type":"Project"},"B":{"resolved":"1.0.0"}},"net6.0":"x"}}"#,
    );
    assert_eq!(map.len(), 1);
    assert_eq!(map.get("b").map(|s| s.as_str()), Some("1.0.0"));
}
