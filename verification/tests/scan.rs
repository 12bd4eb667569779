use depsy_lsp::config::VulnerabilitySeverity;
use depsy_lsp::parsers::lock_map::{LockMap, NameLists};
use depsy_lsp::parsers::lockfile_graph::{LockfileGraph, LockfilePackage};
use depsy_lsp::parsers::lockfile_search::{
    npm_lockfile_name, npm_lockfile_order, python_lockfile_name, python_lockfile_order,
    LockfileSearch, SearchAction, MAX_SEARCH_DEPTH,
};
use depsy_lsp::parsers::npm_lock::NpmLockfileType;
use depsy_lsp::parsers::python_lock::PythonLockfileType;
use depsy_lsp::parsers::{Dependency, Span};
use depsy_lsp::scan::{
    apply_resolved_versions, canonical_name, direct_canonical_names, mark_direct_roots,
    profile_manifest_kind, raw_names_by_canonical, scan_manifest_kind, via_direct, ManifestKind,
    SeverityCounts,
};

fn dep(name: &str, version: &str) -> Dependency {
    let span = Span { line: 0, line_start: 0, line_end: 0 };
    Dependency {
        name: name.to_string(),
        version: version.to_string(),
        name_span: span,
        version_span: span,
        dev: false,
        optional: false,
        registry: None,
        resolved_version: None,
        has_additional_version_constraints: false,
    }
}

fn pkg(name: &str, version: &str, deps: &[&str]) -> LockfilePackage {
    LockfilePackage {
        name: name.to_string(),
        version: version.to_string(),
        dependencies: deps.iter().map(|d| d.to_string()).collect(),
        is_root: false,
    }
}

#[test]
fn scan_kind_by_exact_name() {
    assert_eq!(scan_manifest_kind("Cargo.toml"), Some(ManifestKind::Cargo));
    assert_eq!(scan_manifest_kind("package.json"), Some(ManifestKind::Npm));
    assert_eq!(scan_manifest_kind("requirements.txt"), Some(ManifestKind::Python));
    assert_eq!(scan_manifest_kind("pyproject.toml"), Some(ManifestKind::Python));
    assert_eq!(scan_manifest_kind("go.mod"), Some(ManifestKind::Go));
    assert_eq!(scan_manifest_kind("composer.json"), Some(ManifestKind::Composer));
    assert_eq!(scan_manifest_kind("pubspec.yaml"), Some(ManifestKind::Pubspec));
    assert_eq!(scan_manifest_kind("App.csproj"), Some(ManifestKind::Csharp));
    assert_eq!(scan_manifest_kind("Gemfile"), Some(ManifestKind::Gemfile));
    assert_eq!(scan_manifest_kind("pom.xml"), Some(ManifestKind::Maven));
    assert_eq!(scan_manifest_kind("my-Cargo.toml"), None);
    assert_eq!(scan_manifest_kind("README.md"), None);
}

#[test]
fn profile_kind_accepts_variants() {
    assert_eq!(profile_manifest_kind("my-Cargo.toml"), Some(ManifestKind::Cargo));
    assert_eq!(profile_manifest_kind("cargo-big.toml"), Some(ManifestKind::Cargo));
    assert_eq!(profile_manifest_kind("package-big.json"), Some(ManifestKind::Npm));
    assert_eq!(profile_manifest_kind("other.toml"), None);
    assert_eq!(profile_manifest_kind("x-pom.xml"), None);
    assert_eq!(profile_manifest_kind("pom.xml"), Some(ManifestKind::Maven));
}

#[test]
fn canonical_names_per_ecosystem() {
    assert_eq!(canonical_name(ManifestKind::Python, "Django_REST.framework"), "django-rest-framework");
    assert_eq!(canonical_name(ManifestKind::Composer, "Monolog/Monolog"), "monolog/monolog");
    assert_eq!(canonical_name(ManifestKind::Gemfile, "Rails"), "rails");
    assert_eq!(canonical_name(ManifestKind::Cargo, "Serde_Json"), "Serde_Json");
    let deps = vec![dep("Requests", "2"), dep("flask", "3")];
    assert_eq!(direct_canonical_names(&deps, ManifestKind::Python), vec!["requests", "flask"]);
}

#[test]
fn resolved_versions_come_from_the_lockfile() {
    let mut deps = vec![dep("Requests", ">=2"), dep("missing", "1")];
    let mut versions = LockMap::new();
    versions.insert("requests".to_string(), "2.31.0".to_string());
    apply_resolved_versions(&mut deps, ManifestKind::Python, &versions);
    assert_eq!(deps[0].resolved_version.as_deref(), Some("2.31.0"));
    assert_eq!(deps[0].version, ">=2");
    assert_eq!(deps[1].resolved_version, None);
}

#[test]
fn direct_packages_are_marked_roots() {
    let mut graph = LockfileGraph { packages: vec![pkg("a", "1", &["b"]), pkg("b", "2", &[])] };
    mark_direct_roots(&mut graph, &["a".to_string()]);
    assert!(graph.packages[0].is_root);
    assert!(!graph.packages[1].is_root);
}

#[test]
fn transitive_is_reported_under_first_parent() {
    let deps = vec![dep("Flask", "3"), dep("flask", "3.1")];
    let raw = raw_names_by_canonical(&deps, ManifestKind::Python);
    assert_eq!(raw.get("flask").map(|s| s.as_str()), Some("flask"));
    let mut inverse = NameLists::new();
    inverse.push("werkzeug", "flask".to_string());
    assert_eq!(via_direct(&inverse, &raw, "werkzeug"), "flask");
    assert_eq!(via_direct(&inverse, &raw, "jinja2"), "(unknown)");
    let mut orphan = NameLists::new();
    orphan.push("x", "nobody".to_string());
    assert_eq!(via_direct(&orphan, &raw, "x"), "(unknown)");
}

#[test]
fn severity_counts_and_exit() {
    let mut counts = SeverityCounts::default();
    assert!(!counts.fails(true));
    counts.record(VulnerabilitySeverity::High);
    counts.record(VulnerabilitySeverity::Low);
    counts.record(VulnerabilitySeverity::High);
    assert_eq!(counts, SeverityCounts { total: 3, critical: 0, high: 2, medium: 0, low: 1 });
    assert!(counts.fails(true));
    assert!(!counts.fails(false));
}

#[test]
fn lockfile_search_walks_up_to_the_limit() {
    let mut search = LockfileSearch::new(2, Some(MAX_SEARCH_DEPTH));
    let mut checks = 0;
    let mut levels = 1;
    loop {
        match search.action() {
            SearchAction::Check(i) => {
                assert!(i < 2);
                checks += 1;
                search.missed();
            }
            SearchAction::Ascend => {
                levels += 1;
                search.ascended();
            }
            SearchAction::GiveUp => break,
        }
    }
    assert_eq!(levels, MAX_SEARCH_DEPTH);
    assert_eq!(checks, 2 * MAX_SEARCH_DEPTH);
}

#[test]
fn lockfile_orders() {
    assert_eq!(
        python_lockfile_order(Some(PythonLockfileType::PdmLock)),
        vec![
            PythonLockfileType::PdmLock,
            PythonLockfileType::PoetryLock,
            PythonLockfileType::UvLock,
            PythonLockfileType::PipfileLock
        ]
    );
    assert_eq!(python_lockfile_order(None)[0], PythonLockfileType::PoetryLock);
    assert_eq!(python_lockfile_name(PythonLockfileType::PipfileLock), "Pipfile.lock");
    assert_eq!(npm_lockfile_order()[2], NpmLockfileType::PnpmLock);
    assert_eq!(npm_lockfile_name(NpmLockfileType::BunLock), "bun.lock");
}
