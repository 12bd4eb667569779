use depsy_lsp::parsers::pnpm_workspace::{resolve_catalog_references, PnpmWorkspaceParser};
use depsy_lsp::parsers::{Dependency, Parser, Span};

fn dep(name: &str, version: &str) -> Dependency {
    let span = Span { line: 0, line_start: 0, line_end: 0 };
    Dependency {
        name: name.to_string(),
        version: version.to_string(),
        name_span: span,
        version_span: span,
        dev: false,
        optional: false,
        registry: None,
        resolved_version: None,
        has_additional_version_constraints: false,
    }
}

#[test]
fn default_catalog_block_entries_with_positions() {
    let content = "packages:\n  - 'apps/*'\ncatalog:\n  react: ^18.2.0\n  \"lodash\": '4.17.21' # pinned\n";
    let deps = PnpmWorkspaceParser::new().parse(content);
    assert_eq!(deps.len(), 2);
    assert_eq!(deps[0].name, "react");
    assert_eq!(deps[0].version, "^18.2.0");
    assert_eq!(deps[0].name_span.line, 3);
    assert_eq!(deps[0].name_span.line_start, 2);
    assert_eq!(deps[0].name_span.line_end, 7);
    assert_eq!(deps[0].version_span.line_start, 9);
    assert_eq!(deps[0].version_span.line_end, 16);
    assert_eq!(deps[1].name, "lodash");
    assert_eq!(deps[1].version, "4.17.21");
    assert_eq!(deps[1].name_span.line_start, 3);
    assert_eq!(deps[1].version_span.line_start, 13);
}

#[test]
fn flow_catalogs_and_named_block_catalogs() {
    let content = "catalog: { react: ^18.2.0, vue: '3.4.0' }\ncatalogs:\n  legacy:\n    react: ^17.0.2\n  next: { react: ^19.0.0 }\n";
    let deps = PnpmWorkspaceParser::new().parse(content);
    let names: Vec<(&str, &str)> = deps.iter().map(|d| (d.name.as_str(), d.version.as_str())).collect();
    assert_eq!(
        names,
        vec![("react", "^18.2.0"), ("vue", "3.4.0"), ("react", "^17.0.2"), ("react", "^19.0.0")]
    );
    assert_eq!(deps[0].version_span.line_start, 18);
    assert_eq!(deps[1].version_span.line_start, 33);
}

#[test]
fn catalog_references_resolve_against_default_and_named_catalogs() {
    let workspace = "catalog:\n  react: ^18.2.0\ncatalogs:\n  legacy:\n    react: ^17.0.2\n";
    let deps = vec![
        dep("react", "catalog:"),
        dep("react", "catalog:legacy"),
        dep("vue", "catalog:"),
        dep("react", "^16.0.0"),
    ];
    let resolved = resolve_catalog_references(deps, Some(workspace));
    assert_eq!(resolved.len(), 4);
    assert_eq!(resolved[0].resolved_version.as_deref(), Some("^18.2.0"));
    assert_eq!(resolved[1].resolved_version.as_deref(), Some("^17.0.2"));
    assert_eq!(resolved[2].resolved_version, None);
    assert_eq!(resolved[3].resolved_version, None);
    assert_eq!(resolved[1].version, "catalog:legacy");
}

#[test]
fn catalog_references_unchanged_without_workspace() {
    let resolved = resolve_catalog_references(vec![dep("react", "catalog:")], None);
    assert_eq!(resolved.len(), 1);
    assert_eq!(resolved[0].resolved_version, None);
}

#[test]
fn hash_inside_quotes_is_not_a_comment() {
    let content = "catalog:\n  pkg: \"1.0.0#beta\" # note\n";
    let deps = PnpmWorkspaceParser::new().parse(content);
    assert_eq!(deps.len(), 1);
    assert_eq!(deps[0].version, "1.0.0#beta");
}

#[test]
fn catalog_reference_takes_the_first_entry_of_its_name() {
    let workspace = "catalog:\n  react: ^18.2.0\n  react: ^18.3.0\ncatalogs:\n  legacy:\n    react: ^17.0.2\n    react: ^17.0.0\n";
    let resolved = resolve_catalog_references(
        vec![dep("react", "catalog:"), dep("react", "catalog:legacy")],
        Some(workspace),
    );
    assert_eq!(resolved[0].resolved_version.as_deref(), Some("^18.2.0"));
    assert_eq!(resolved[1].resolved_version.as_deref(), Some("^17.0.2"));
}
