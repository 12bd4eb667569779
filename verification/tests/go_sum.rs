use depsy_lsp::parsers::go_sum::{parse_go_sum, GoResolver};
use depsy_lsp::parsers::lockfile_graph::{LockfileGraph, LockfilePackage};
use depsy_lsp::parsers::{Dependency, Span};

fn go_dep(name: &str, version: &str) -> Dependency {
    let span = Span { line: 0, line_start: 0, line_end: 0 };
    Dependency {
        name: name.to_string(),
        version: version.to_string(),
        name_span: span,
        version_span: span,
        dev: false,
        optional: false,
        registry: None,
        resolved_version: None,
        has_additional_version_constraints: false,
    }
}

#[test]
fn test_parse_simple_go_sum() {
    let content = "\
github.com/pkg/errors v0.9.1 h1:FEBLx1zS214owpjy7qsBeixbURkuhQAwrK5UwLGTwt4=
github.com/pkg/errors v0.9.1/go.mod h1:bwawxfHBFNV+L2hUp1rHADufV3IMtnDRdf1r5NINEl0=
golang.org/x/text v0.14.0 h1:ScX5w1eTa3QqT8oi6+ziP7dTV1S2+ALU0bI+0zXKWiQ=
golang.org/x/text v0.14.0/go.mod h1:18ZOQIKpY8NJVqYksKHtTdi31H5itFRjB5/qKTNYzSU=
";
    let map = parse_go_sum(content);
    assert_eq!(map.get("github.com/pkg/errors").unwrap(), &["v0.9.1"]);
    assert_eq!(map.get("golang.org/x/text").unwrap(), &["v0.14.0"]);
    assert_eq!(map.len(), 2);
}

#[test]
fn test_parse_skips_go_mod_entries() {
    let content = "\
github.com/foo/bar v1.2.3/go.mod h1:abc=
";
    let map = parse_go_sum(content);
    assert!(map.is_empty());
}

#[test]
fn go_sum_test_parse_empty_content() {
    let map = parse_go_sum("");
    assert!(map.is_empty());
}

#[test]
fn test_parse_blank_lines() {
    let content =
        "\ngithub.com/pkg/errors v0.9.1 h1:abc=\n\ngolang.org/x/text v0.14.0 h1:def=\n\n";
    let map = parse_go_sum(content);
    assert_eq!(map.len(), 2);
    assert_eq!(map.get("github.com/pkg/errors").unwrap(), &["v0.9.1"]);
    assert_eq!(map.get("golang.org/x/text").unwrap(), &["v0.14.0"]);
}

#[test]
fn go_sum_test_parse_malformed_lines() {
    let content = "\
onlymodule
github.com/valid/module v1.0.0 h1:abc=
";
    let map = parse_go_sum(content);
    assert_eq!(map.len(), 1);
    assert_eq!(map.get("github.com/valid/module").unwrap(), &["v1.0.0"]);
}

#[test]
fn test_parse_single_module() {
    let content = "github.com/stretchr/testify v1.8.4 h1:xyz=\n";
    let map = parse_go_sum(content);
    assert_eq!(map.get("github.com/stretchr/testify").unwrap(), &["v1.8.4"]);
    assert_eq!(map.len(), 1);
}

#[test]
fn test_duplicate_module_collects_all_versions() {
    let content = "\
github.com/foo/bar v1.0.0 h1:abc=
github.com/foo/bar v1.1.0 h1:def=
";
    let map = parse_go_sum(content);
    assert_eq!(
        map.get("github.com/foo/bar").unwrap(),
        &["v1.0.0", "v1.1.0"]
    );
    assert_eq!(map.len(), 1);
}

#[test]
fn test_parse_gopkg_in_module() {
    let content = "\
gopkg.in/yaml.v3 v3.0.1 h1:abc=
gopkg.in/yaml.v3 v3.0.1/go.mod h1:def=
";
    let map = parse_go_sum(content);
    assert_eq!(map.get("gopkg.in/yaml.v3").unwrap(), &["v3.0.1"]);
    assert_eq!(map.len(), 1);
}

#[test]
fn test_parse_go_uber_org() {
    let content = "\
go.uber.org/zap v1.27.0 h1:abc=
go.uber.org/zap v1.27.0/go.mod h1:def=
";
    let map = parse_go_sum(content);
    assert_eq!(map.get("go.uber.org/zap").unwrap(), &["v1.27.0"]);
    assert_eq!(map.len(), 1);
}

#[test]
fn go_sum_test_parse_prerelease_version() {
    let content = "\
golang.org/x/sys v0.0.0-20230101000000-abcdef012345 h1:abc=
golang.org/x/sys v0.0.0-20230101000000-abcdef012345/go.mod h1:def=
";
    let map = parse_go_sum(content);
    assert_eq!(
        map.get("golang.org/x/sys").unwrap(),
        &["v0.0.0-20230101000000-abcdef012345"]
    );
    assert_eq!(map.len(), 1);
}

#[test]
fn test_parse_module_only_go_mod_line() {
    // Module with ONLY /go.mod entry should NOT appear in the map
    let content = "\
github.com/only/gomod v1.0.0/go.mod h1:abc=
";
    let map = parse_go_sum(content);
    assert!(map.is_empty());
}

#[test]
fn test_parse_no_hash() {
    // go.sum requires 3 fields (module version hash), but the parser is lenient:
    // lines with only module and version are accepted rather than rejected,
    // since the hash is not used for version resolution.
    let content = "\
github.com/foo/bar v1.0.0
";
    let map = parse_go_sum(content);
    assert_eq!(map.get("github.com/foo/bar").unwrap(), &["v1.0.0"]);
}

#[test]
fn go_resolver_prefers_dep_version_when_present_in_candidates() {
    let content = "github.com/foo/bar v1.0.0 h1:hash1=\n\
                   github.com/foo/bar v1.1.0 h1:hash2=\n\
                   github.com/baz/qux v0.5.0 h1:hash3=\n";
    let resolver = GoResolver;
    let graph = resolver.parse_graph(content);

    // dep.version matches one of the candidates: prefer it
    let dep_with_match = go_dep("github.com/foo/bar", "v1.1.0");
    assert_eq!(
        resolver.resolve_version(&dep_with_match, &graph),
        Some("v1.1.0".to_string())
    );

    // single candidate, dep.version differs: the sole candidate
    let dep_single = go_dep("github.com/baz/qux", "v0.4.0");
    assert_eq!(
        resolver.resolve_version(&dep_single, &graph),
        Some("v0.5.0".to_string())
    );

    // ambiguous candidates without an exact match: none
    let dep_ambiguous = go_dep("github.com/foo/bar", "v0.0.1");
    assert_eq!(resolver.resolve_version(&dep_ambiguous, &graph), None);
}

#[test]
fn go_resolver_dedupes_identical_candidates_before_ambiguity_check() {
    let graph = LockfileGraph {
        packages: vec![
            LockfilePackage {
                name: "github.com/foo/bar".to_string(),
                version: "v1.0.0".to_string(),
                dependencies: Vec::new(),
                is_root: false,
            },
            LockfilePackage {
                name: "github.com/foo/bar".to_string(),
                version: "v1.0.0".to_string(),
                dependencies: Vec::new(),
                is_root: false,
            },
        ],
    };
    let dep = go_dep("github.com/foo/bar", "v0.9.0");
    assert_eq!(
        GoResolver.resolve_version(&dep, &graph),
        Some("v1.0.0".to_string())
    );
}

#[test]
fn go_resolver_unknown_module_is_unresolved() {
    let graph = GoResolver.parse_graph("github.com/foo/bar v1.0.0 h1:a=\n");
    assert_eq!(GoResolver.resolve_version(&go_dep("github.com/x/y", "v1.0.0"), &graph), None);
}

#[test]
fn go_parse_graph_one_package_per_version() {
    let content = "a.io/m v1.0.0 h1:x=\na.io/m v1.0.0/go.mod h1:y=\na.io/m v1.2.0 h1:z=\nb.io/n v0.1.0 h1:w=\n";
    let graph = GoResolver.parse_graph(content);
    assert_eq!(graph.packages.len(), 3);
    let mut m: Vec<(String, String)> = graph
        .packages
        .iter()
        .map(|p| (p.name.clone(), p.version.clone()))
        .collect();
    m.sort();
    assert_eq!(
        m,
        vec![
            ("a.io/m".to_string(), "v1.0.0".to_string()),
            ("a.io/m".to_string(), "v1.2.0".to_string()),
            ("b.io/n".to_string(), "v0.1.0".to_string()),
        ]
    );
    assert!(graph.packages.iter().all(|p| !p.is_root && p.dependencies.is_empty()));
}

#[test]
fn go_sum_crlf_and_double_space() {
    let map = parse_go_sum("x.io/a  h1:abc=\r\nx.io/b v2.0.0 h1:def=\r\n");
    assert_eq!(map.get("x.io/a").unwrap(), &[""]);
    assert_eq!(map.get("x.io/b").unwrap(), &["v2.0.0"]);
}
