use depsy_lsp::parsers::lockfile_graph::{LockfileGraph, LockfilePackage};

fn pkg(name: &str, deps: &[&str], is_root: bool) -> LockfilePackage {
    LockfilePackage {
        name: name.to_string(),
        version: "1.0.0".to_string(),
        dependencies: deps.iter().map(|s| s.to_string()).collect(),
        is_root,
    }
}


#[test]
fn test_transitive_deps_of_single_level() {
    let graph = LockfileGraph {
        packages: vec![
            pkg("react", &["react-dom"], true),
            pkg("react-dom", &[], false),
        ],
    };
    let names: Vec<&str> = graph
        .transitive_deps_of("react")
        .iter()
        .map(|p| p.name.as_str())
        .collect();
    assert_eq!(names, vec!["react-dom"]);
}

#[test]
fn test_transitive_deps_of_multi_level() {
    let graph = LockfileGraph {
        packages: vec![
            pkg("react", &["react-dom"], true),
            pkg("react-dom", &["scheduler"], false),
            pkg("scheduler", &[], false),
        ],
    };
    let names: Vec<String> = graph
        .transitive_deps_of("react")
        .iter()
        .map(|p| p.name.clone())
        .collect();
    assert!(names.contains(&"react-dom".to_string()));
    assert!(names.contains(&"scheduler".to_string()));
    assert_eq!(names.len(), 2);
}

#[test]
fn test_transitive_deps_of_cyclic() {
    let graph = LockfileGraph {
        packages: vec![pkg("a", &["b"], true), pkg("b", &["a"], false)],
    };
    let names: Vec<&str> = graph
        .transitive_deps_of("a")
        .iter()
        .map(|p| p.name.as_str())
        .collect();
    assert_eq!(names, vec!["b"]);
}

#[test]
fn test_transitive_deps_of_unknown_root() {
    let graph = LockfileGraph { packages: vec![] };
    assert!(graph.transitive_deps_of("nope").is_empty());
}

#[test]
fn test_transitive_deps_of_multi_version_visits_all() {
    // Cargo commonly pins multiple versions of the same crate. Ensure DFS
    // visits ALL same-named packages (keyed by (name, version)) rather than
    // stopping at the first match.
    let graph = LockfileGraph {
        packages: vec![
            LockfilePackage {
                name: "root".into(),
                version: "0.1.0".into(),
                dependencies: vec!["hashbrown".into()],
                is_root: true,
            },
            LockfilePackage {
                name: "hashbrown".into(),
                version: "0.15.5".into(),
                dependencies: vec!["foundationdb".into()],
                is_root: false,
            },
            LockfilePackage {
                name: "hashbrown".into(),
                version: "0.16.1".into(),
                dependencies: vec!["allocator-api2".into()],
                is_root: false,
            },
            LockfilePackage {
                name: "foundationdb".into(),
                version: "1.0.0".into(),
                dependencies: vec![],
                is_root: false,
            },
            LockfilePackage {
                name: "allocator-api2".into(),
                version: "0.2.0".into(),
                dependencies: vec![],
                is_root: false,
            },
        ],
    };

    let transitives = graph.transitive_deps_of("root");
    let names: Vec<String> = transitives
        .iter()
        .map(|p| format!("{}@{}", p.name, p.version))
        .collect();

    // BOTH hashbrown versions must be visited
    assert!(names.iter().any(|s| s == "hashbrown@0.15.5"));
    assert!(names.iter().any(|s| s == "hashbrown@0.16.1"));

    // AND their respective children (attribution across both)
    assert!(names.iter().any(|s| s == "foundationdb@1.0.0"));
    assert!(names.iter().any(|s| s == "allocator-api2@0.2.0"));
}

#[test]
fn test_find_all_returns_all_matches() {
    let graph = LockfileGraph {
        packages: vec![
            LockfilePackage {
                name: "a".into(),
                version: "1.0".into(),
                dependencies: vec![],
                is_root: false,
            },
            LockfilePackage {
                name: "a".into(),
                version: "2.0".into(),
                dependencies: vec![],
                is_root: false,
            },
            LockfilePackage {
                name: "b".into(),
                version: "1.0".into(),
                dependencies: vec![],
                is_root: false,
            },
        ],
    };
    assert_eq!(graph.find_all("a").len(), 2);
    assert_eq!(graph.find_all("b").len(), 1);
    assert_eq!(graph.find_all("c").len(), 0);
}

#[test]
fn transitive_walk_follows_cargo_name_version_entries() {
    let graph = LockfileGraph {
        packages: vec![
            pkg("app", &["serde 1.0.0"], true),
            pkg("serde", &["serde_derive"], false),
            pkg("serde_derive", &[], false),
        ],
    };
    let names: Vec<&str> = graph
        .transitive_deps_of("app")
        .iter()
        .map(|p| p.name.as_str())
        .collect();
    assert_eq!(names, vec!["serde", "serde_derive"]);
}

#[test]
fn transitive_walk_reports_each_identity_once() {
    let graph = LockfileGraph {
        packages: vec![
            pkg("a", &["b", "c"], true),
            pkg("b", &["d"], false),
            pkg("c", &["d"], false),
            pkg("d", &["a"], false),
        ],
    };
    let mut names: Vec<&str> = graph
        .transitive_deps_of("a")
        .iter()
        .map(|p| p.name.as_str())
        .collect();
    names.sort();
    assert_eq!(names, vec!["b", "c", "d"]);
}

#[test]
fn test_reverse_index_attributes_transitive_to_direct() {
    let graph = LockfileGraph {
        packages: vec![
            pkg("react", &["scheduler"], true),
            pkg("vue", &["scheduler"], true),
            pkg("scheduler", &[], false),
        ],
    };
    let idx = graph.reverse_index(&["react".to_string(), "vue".to_string()]);
    let parents = idx.get("scheduler").unwrap();
    assert!(parents.contains(&"react".to_string()));
    assert!(parents.contains(&"vue".to_string()));
}

#[test]
fn test_transitives_only_excludes_manifest_deps() {
    let graph = LockfileGraph {
        packages: vec![
            pkg("react", &["react-dom"], true),
            pkg("react-dom", &[], false),
            // "scheduler" is NOT reachable from "react" in this graph, so it
            // should no longer be returned now that transitives_only uses
            // reachability rather than a simple name exclusion.
            pkg("scheduler", &[], false),
        ],
    };
    let manifest: Vec<String> = vec!["react".to_string()];
    let names: Vec<String> = graph
        .transitives_only(&manifest)
        .iter()
        .map(|p| p.name.clone())
        .collect();
    assert!(!names.contains(&"react".to_string()));
    assert!(names.contains(&"react-dom".to_string()));
    assert!(
        !names.contains(&"scheduler".to_string()),
        "unreachable package must be excluded"
    );
}

#[test]
fn test_transitives_only_excludes_unreachable_packages() {
    let graph = LockfileGraph {
        packages: vec![
            LockfilePackage {
                name: "react".into(),
                version: "18.2.0".into(),
                dependencies: vec!["scheduler".into()],
                is_root: true,
            },
            LockfilePackage {
                name: "scheduler".into(),
                version: "0.23.0".into(),
                dependencies: vec![],
                is_root: false,
            },
            LockfilePackage {
                // Not reachable from "react" — workspace noise
                name: "unrelated".into(),
                version: "1.0.0".into(),
                dependencies: vec![],
                is_root: false,
            },
        ],
    };
    let manifest: Vec<String> = vec!["react".to_string()];
    let names: Vec<&str> = graph
        .transitives_only(&manifest)
        .iter()
        .map(|p| p.name.as_str())
        .collect();
    assert!(
        names.contains(&"scheduler"),
        "reachable transitive should be included"
    );
    assert!(
        !names.contains(&"unrelated"),
        "unreachable package should NOT be returned"
    );
    assert!(!names.contains(&"react"), "direct dep should be excluded");
}

#[test]
fn reverse_index_parents_sorted_and_unique() {
    let graph = LockfileGraph {
        packages: vec![
            pkg("zeta", &["mid"], true),
            pkg("alpha", &["mid"], true),
            pkg("mid", &["leaf"], false),
            pkg("leaf", &[], false),
            pkg("island", &[], false),
        ],
    };
    let manifest = vec!["zeta".to_string(), "alpha".to_string(), "zeta".to_string()];
    let idx = graph.reverse_index(&manifest);
    assert_eq!(idx.get("mid").unwrap(), &["alpha", "zeta"]);
    assert_eq!(idx.get("leaf").unwrap(), &["alpha", "zeta"]);
    assert!(idx.get("island").is_none());
    assert!(idx.get("zeta").is_none());
    assert_eq!(idx.len(), 2);
}

#[test]
fn transitives_only_each_identity_once_in_discovery_order() {
    let graph = LockfileGraph {
        packages: vec![
            pkg("a", &["c", "b"], true),
            pkg("b", &["c"], true),
            pkg("c", &["d"], false),
            pkg("d", &[], false),
        ],
    };
    let manifest = vec!["a".to_string(), "b".to_string()];
    let names: Vec<&str> = graph
        .transitives_only(&manifest)
        .iter()
        .map(|p| p.name.as_str())
        .collect();
    assert_eq!(names, vec!["c", "d"]);
}

#[test]
fn transitive_walk_discovery_order_is_depth_first_last_pushed_first() {
    let graph = LockfileGraph {
        packages: vec![
            pkg("a", &["b", "c"], true),
            pkg("b", &["d"], false),
            pkg("c", &[], false),
            pkg("d", &[], false),
        ],
    };
    let names: Vec<&str> = graph.transitive_deps_of("a").iter().map(|p| p.name.as_str()).collect();
    assert_eq!(names, vec!["c", "b", "d"]);
    let direct = vec!["a".to_string()];
    let only: Vec<&str> = graph.transitives_only(&direct).iter().map(|p| p.name.as_str()).collect();
    assert_eq!(only, vec!["c", "b", "d"]);
}
