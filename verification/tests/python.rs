use depsy_lsp::parsers::Parser;
use depsy_lsp::parsers::python::{
    compute_line_ranges, is_hatch_toml, is_pyproject_toml, parse_pep508_dependency,
    parse_requirements_txt, PythonParser,
};
use depsy_lsp::parsers::toml_tree::{range_to_span, TextRange};
use depsy_lsp::parsers::Span;




/// The text a single-line span covers.
fn span_text<'a>(content: &'a str, span: &Span) -> &'a str {
    let line = content.lines().nth(span.line as usize).expect("line");
    &line[span.line_start as usize..span.line_end as usize]
}


#[test]
fn test_is_pyproject_toml_detection() {
    // Valid pyproject.toml patterns - [project] and subsections
    assert!(is_pyproject_toml("[project]\nname = \"test\""));
    assert!(is_pyproject_toml("  [project]  \nname = \"test\""));
    assert!(is_pyproject_toml(
        "[project.dependencies]\nflask = \">=2.0\""
    ));
    assert!(is_pyproject_toml(
        "[project.optional-dependencies]\ndev = []"
    ));

    // Valid patterns with inline comments
    assert!(is_pyproject_toml(
        "[project] # main section\nname = \"test\""
    ));
    assert!(is_pyproject_toml(
        "[project.dependencies]  # deps\nflask = \"1.0\""
    ));

    // Valid [tool.poetry] patterns
    assert!(is_pyproject_toml("[tool.poetry]\nname = \"test\""));
    assert!(is_pyproject_toml(
        "[tool.poetry.dependencies]\npython = \"^3.9\""
    ));
    assert!(is_pyproject_toml(
        "[tool.poetry] # comment\nname = \"test\""
    ));

    // Valid [dependency-groups] patterns (PEP 735)
    assert!(is_pyproject_toml(
        "[dependency-groups]\ntest = [\"pytest\"]"
    ));
    assert!(is_pyproject_toml(
        "[dependency-groups] # comment\ntest = []"
    ));
    assert!(is_pyproject_toml("  [dependency-groups]  \ntest = []"));
    // Valid [tool.hatch] patterns
    assert!(is_pyproject_toml(
        "[tool.hatch.envs.test]\ndependencies = []"
    ));
    assert!(is_pyproject_toml(
        "[tool.hatch.envs.default]\ndependencies = []"
    ));
    assert!(is_pyproject_toml("[tool.hatch] # comment\nversion = {}"));
    assert!(is_pyproject_toml(
        "[tool.hatch.envs.test.scripts]\ntest = \"pytest\""
    ));

    // Invalid patterns (should not trigger TOML parsing)
    assert!(!is_pyproject_toml("mypkg[project]==1.2"));
    assert!(!is_pyproject_toml("pkg[tool.poetry]>=1.0"));
    assert!(!is_pyproject_toml("pkg[tool.hatch]>=1.0"));
    assert!(!is_pyproject_toml("[projects]\nname = \"test\"")); // not [project]
    assert!(!is_pyproject_toml("[projectx]\nname = \"test\"")); // not [project] or [project.*]
    assert!(!is_pyproject_toml("[tool.poetryextra]\nname = \"test\"")); // not [tool.poetry...]
    assert!(!is_pyproject_toml("[tool.hatchextra]\nname = \"test\"")); // not [tool.hatch...]
    assert!(!is_pyproject_toml("flask>=2.0.0\nrequests>=2.25.0"));
    assert!(!is_pyproject_toml("[dependency-groupsx]\ntest = []")); // not [dependency-groups]
}

#[test]
fn test_is_hatch_toml_detection() {
    // Valid: top-level [envs.<name>] section
    assert!(is_hatch_toml("[envs.test]\ndependencies = []"));
    assert!(is_hatch_toml("[envs.default]\ndependencies = []"));
    // Sub-tables of an env are also valid triggers
    assert!(is_hatch_toml("[envs.test.scripts]\ntest = \"pytest\""));
    // Inline comment after closing bracket
    assert!(is_hatch_toml(
        "[envs.test] # my test env\ndependencies = []"
    ));
    // Leading whitespace on header line
    assert!(is_hatch_toml("  [envs.test]  \ndependencies = []"));

    // Invalid: bare [envs] without a name
    assert!(!is_hatch_toml("[envs]\ndependencies = []"));
    // Invalid: different top-level key
    assert!(!is_hatch_toml("[envsx.test]\ndependencies = []"));
    // Invalid: content that would be pyproject.toml
    assert!(!is_hatch_toml("[project]\nname = \"test\""));
    // Invalid: requirements.txt style
    assert!(!is_hatch_toml("flask>=2.0.0\nrequests>=2.25.0"));
    // Invalid: env name is part of a value, not a section header
    assert!(!is_hatch_toml("template = \"[envs.default]\""));
}

fn slice_span<'a>(content: &'a str, line: usize, start: u32, end: u32) -> &'a str {
    let text = content.lines().nth(line).unwrap();
    &text[start as usize..end as usize]
}

#[test]
fn requirements_keep_operator_spacing_and_flag_extra_constraints() {
    let content = "single>= 1.0\ncompound>= 1.0, < 2.0\n";
    let deps = parse_requirements_txt(content);
    assert_eq!(deps.len(), 2);
    assert_eq!(deps[0].name, "single");
    assert_eq!(deps[0].version, ">= 1.0");
    assert_eq!(
        slice_span(content, 0, deps[0].version_span.line_start, deps[0].version_span.line_end),
        ">= 1.0"
    );
    assert!(!deps[0].has_additional_version_constraints);
    assert_eq!(deps[1].name, "compound");
    assert_eq!(deps[1].version, ">= 1.0");
    assert!(deps[1].has_additional_version_constraints);
}

#[test]
fn requirements_skip_comments_options_and_urls() {
    let content = "# comment\n-r base.txt\n--index-url https://x\npkg @ https://example.com/pkg.whl\nflask==2.0.0  # pinned\n";
    let deps = parse_requirements_txt(content);
    assert_eq!(deps.len(), 1);
    assert_eq!(deps[0].name, "flask");
    assert_eq!(deps[0].version, "==2.0.0");
    assert_eq!(deps[0].name_span.line, 4);
    assert_eq!(deps[0].name_span.line_start, 0);
    assert_eq!(deps[0].name_span.line_end, 5);
}

#[test]
fn pep508_extras_markers_and_operator_priority() {
    let parsed = parse_pep508_dependency("  requests[security] === 2.31.0 ; python_version < '3.8'").unwrap();
    assert_eq!(parsed.name, "requests");
    assert_eq!(parsed.version, "=== 2.31.0");
    assert_eq!(parsed.name_byte_range, (2, 10));
    assert_eq!(parsed.version_byte_range, (21, 31));
    assert!(!parsed.has_additional_version_constraints);
}

#[test]
fn pep508_without_operator_or_version_is_rejected() {
    assert!(parse_pep508_dependency("requests").is_none());
    assert!(parse_pep508_dependency("requests>=").is_none());
    assert!(parse_pep508_dependency(">=1.0").is_none());
}

#[test]
fn test_requirements_simple() {
    let parser = PythonParser::new();
    let content = r#"
flask==2.0.0
requests>=2.25.0
django~=4.0
"#;
    let deps = parser.parse(content);
    assert_eq!(deps.len(), 3);

    let flask = deps.iter().find(|d| d.name == "flask").unwrap();
    assert_eq!(flask.version, "==2.0.0");

    let requests = deps.iter().find(|d| d.name == "requests").unwrap();
    assert_eq!(requests.version, ">=2.25.0");

    let django = deps.iter().find(|d| d.name == "django").unwrap();
    assert_eq!(django.version, "~=4.0");
}

#[test]
fn test_requirements_with_extras() {
    let parser = PythonParser::new();
    let content = "uvicorn[standard]>=0.20.0";
    let deps = parser.parse(content);
    assert_eq!(deps.len(), 1);
    assert_eq!(deps[0].name, "uvicorn");
    assert_eq!(deps[0].version, ">=0.20.0");
}

#[test]
fn test_requirements_with_comments() {
    let parser = PythonParser::new();
    let content = r#"
# This is a comment
flask==2.0.0  # inline comment
# Another comment
requests>=2.25.0
"#;
    let deps = parser.parse(content);
    assert_eq!(deps.len(), 2);
}

#[test]
fn test_requirements_skip_special() {
    let parser = PythonParser::new();
    let content = r#"
-r other.txt
-e git+https://github.com/user/repo.git
--index-url https://pypi.org/simple
flask==2.0.0
"#;
    let deps = parser.parse(content);
    assert_eq!(deps.len(), 1);
    assert_eq!(deps[0].name, "flask");
}

#[test]
fn test_pyproject_pep621() {
    let parser = PythonParser::new();
    let content = r#"
[project]
name = "myproject"
dependencies = [
    "flask>=2.0.0",
    "requests~=2.25.0",
]

[project.optional-dependencies]
dev = [
    "pytest>=7.0.0",
]
"#;
    let deps = parser.parse(content);
    assert_eq!(deps.len(), 3);

    let flask = deps.iter().find(|d| d.name == "flask").unwrap();
    assert_eq!(flask.version, ">=2.0.0");
    assert!(!flask.dev);

    let pytest = deps.iter().find(|d| d.name == "pytest").unwrap();
    assert_eq!(pytest.version, ">=7.0.0");
    assert!(pytest.dev);
}

#[test]
fn test_pyproject_poetry() {
    let parser = PythonParser::new();
    let content = r#"
[tool.poetry]
name = "myproject"

[tool.poetry.dependencies]
python = "^3.9"
flask = "^2.0.0"
requests = { version = "^2.25.0", optional = true }

[tool.poetry.dev-dependencies]
pytest = "^7.0.0"
"#;
    let deps = parser.parse(content);
    // Should have flask, requests, pytest (python is skipped)
    assert_eq!(deps.len(), 3);

    let flask = deps.iter().find(|d| d.name == "flask").unwrap();
    assert_eq!(flask.version, "^2.0.0");
    assert!(!flask.dev);

    let pytest = deps.iter().find(|d| d.name == "pytest").unwrap();
    assert_eq!(pytest.version, "^7.0.0");
    assert!(pytest.dev);
}

#[test]
fn python_test_version_position() {
    let parser = PythonParser::new();
    let content = "flask==2.0.0";
    let deps = parser.parse(content);
    assert_eq!(deps.len(), 1);

    let dep = &deps[0];
    assert_eq!(dep.version, "==2.0.0");
    assert_eq!(dep.name_span.line, 0);
    assert_eq!(dep.name_span.line_start, 0);
    assert_eq!(dep.name_span.line_end, 5);
    // version_start now includes the operator "=="
    assert_eq!(dep.version_span.line, 0);
    assert_eq!(dep.version_span.line_start, 5);
    assert_eq!(dep.version_span.line_end, 12);
}

#[test]
fn test_requirements_with_project_extra_not_toml() {
    // Ensure packages with [project] as extras don't trigger TOML parsing
    let parser = PythonParser::new();
    let content = r#"
mypkg[project]==1.2.0
otherpkg[tool.poetry]>=2.0
flask>=2.0.0
"#;
    let deps = parser.parse(content);
    // Should be parsed as requirements.txt, not pyproject.toml
    assert_eq!(deps.len(), 3);
    assert!(deps.iter().any(|d| d.name == "mypkg"));
    assert!(deps.iter().any(|d| d.name == "otherpkg"));
    assert!(deps.iter().any(|d| d.name == "flask"));
}

#[test]
fn test_pyproject_dependency_groups() {
    // Covers:
    //   - file with ONLY [dependency-groups] (non-package project, no [project] block)
    //   - multiple groups, multiple versioned deps per group
    //   - {include-group = "..."} table items are silently skipped (all groups are
    //     iterated directly, so no package is ever missed via this skip)
    //   - unversioned items ("bare-package" without operator) produce no Dependency
    //   - dev = false for all groups (spec assigns no dev semantics to group names)
    let parser = PythonParser::new();
    let content = r#"
[dependency-groups]
test = ["pytest>=7.0.0", "coverage>=7.0.0"]
typing = ["mypy>=1.0.0", {include-group = "test"}, "types-requests>=2.0.0"]
typing-test = [{include-group = "typing"}, {include-group = "test"}, "useful-types>=1.0.0"]
unversioned = ["bare-package"]
"#;
    let deps = parser.parse(content);

    // test: 2, typing: 2 (include-group skipped), typing-test: 1 (both include-groups skipped)
    // unversioned: 0 (no version operator → parse_pep508_dependency returns None)
    assert_eq!(deps.len(), 5);

    let pytest = deps.iter().find(|d| d.name == "pytest").unwrap();
    assert_eq!(pytest.version, ">=7.0.0");
    assert!(!pytest.dev);

    let coverage = deps.iter().find(|d| d.name == "coverage").unwrap();
    assert_eq!(coverage.version, ">=7.0.0");
    assert!(!coverage.dev);

    let mypy = deps.iter().find(|d| d.name == "mypy").unwrap();
    assert_eq!(mypy.version, ">=1.0.0");
    assert!(!mypy.dev);

    let types_requests = deps.iter().find(|d| d.name == "types-requests").unwrap();
    assert_eq!(types_requests.version, ">=2.0.0");
    assert!(!types_requests.dev);

    let useful_types = deps.iter().find(|d| d.name == "useful-types").unwrap();
    assert_eq!(useful_types.version, ">=1.0.0");
    assert!(!useful_types.dev);

    // bare-package has no version operator → must not appear
    assert!(!deps.iter().any(|d| d.name == "bare-package"));
}

#[test]
fn test_pyproject_hatch_deps() {
    // Basic [tool.hatch.envs.*] with dependencies
    let parser = PythonParser::new();
    let content = r#"
[project]
name = "myproject"
version = "1.0.0"

[tool.hatch.envs.test]
dependencies = [
    "pytest>=7.0.0",
    "coverage>=6.0",
]
"#;
    let deps = parser.parse(content);
    assert_eq!(deps.len(), 2);

    let pytest = deps.iter().find(|d| d.name == "pytest").unwrap();
    assert_eq!(pytest.version, ">=7.0.0");
    assert!(pytest.dev);
    assert!(!pytest.optional);

    let coverage = deps.iter().find(|d| d.name == "coverage").unwrap();
    assert_eq!(coverage.version, ">=6.0");
    assert!(coverage.dev);
    assert!(!coverage.optional);
}

#[test]
fn test_pyproject_hatch_extra_deps() {
    // extra-dependencies in a hatch env
    let parser = PythonParser::new();
    let content = r#"
[project]
name = "myproject"

[tool.hatch.envs.default]
dependencies = [
    "foo>=1.0",
]

[tool.hatch.envs.experimental]
extra-dependencies = [
    "baz>=2.0",
]
"#;
    let deps = parser.parse(content);
    assert_eq!(deps.len(), 2);

    let foo = deps.iter().find(|d| d.name == "foo").unwrap();
    assert_eq!(foo.version, ">=1.0");
    assert!(foo.dev);
    assert!(!foo.optional);

    let baz = deps.iter().find(|d| d.name == "baz").unwrap();
    assert_eq!(baz.version, ">=2.0");
    assert!(baz.dev);
    assert!(!baz.optional);
}

#[test]
fn test_pyproject_hatch_multiple_envs() {
    // Several named envs each contributing deps; all dev=true, optional=false
    let parser = PythonParser::new();
    let content = r#"
[project]
name = "myproject"

[tool.hatch.envs.default]
dependencies = ["requests>=2.28.0"]

[tool.hatch.envs.test]
dependencies = [
    "pytest>=7.0.0",
    "coverage[toml]>=6.0",
]

[tool.hatch.envs.lint]
dependencies = [
    "ruff>=0.1.0",
    "mypy>=1.0.0",
]
extra-dependencies = [
    "types-requests>=2.28.0",
]
"#;
    let deps = parser.parse(content);
    assert_eq!(deps.len(), 6);
    assert!(deps.iter().all(|d| d.dev));
    assert!(deps.iter().all(|d| !d.optional));

    assert!(deps.iter().any(|d| d.name == "requests"));
    assert!(deps.iter().any(|d| d.name == "pytest"));
    assert!(deps.iter().any(|d| d.name == "coverage"));
    assert!(deps.iter().any(|d| d.name == "ruff"));
    assert!(deps.iter().any(|d| d.name == "mypy"));
    assert!(deps.iter().any(|d| d.name == "types-requests"));
}

#[test]
fn test_pyproject_hatch_no_version() {
    // Bare package name without a version operator is silently dropped
    let parser = PythonParser::new();
    let content = r#"
[tool.hatch.envs.test]
dependencies = [
    "bare-package",
    "pytest>=7.0.0",
]
"#;
    let deps = parser.parse(content);
    assert_eq!(deps.len(), 1);
    assert_eq!(deps[0].name, "pytest");
    assert!(!deps.iter().any(|d| d.name == "bare-package"));
}

#[test]
fn test_pyproject_hatch_context_formatted() {
    // Context-formatted strings (hatch-specific, no PEP 508 version operator) are
    // silently skipped.  A versioned dep on the same env is still collected.
    let parser = PythonParser::new();
    let content = r#"
[tool.hatch.envs.test]
dependencies = [
    "example-project @ {root:parent:parent:uri}/example-project",
    "pytest>=7.0.0",
]
"#;
    let deps = parser.parse(content);
    assert_eq!(deps.len(), 1);
    assert_eq!(deps[0].name, "pytest");
}

#[test]
fn test_pyproject_hatch_combined_pep621() {
    // pyproject.toml with [project.dependencies] (dev=false) and
    // [tool.hatch.envs.*] (dev=true, optional=false) in the same file.
    let parser = PythonParser::new();
    let content = r#"
[project]
name = "myproject"
dependencies = [
    "flask>=2.0.0",
    "requests~=2.25.0",
]

[project.optional-dependencies]
extras = [
    "redis>=4.0.0",
]

[tool.hatch.envs.test]
dependencies = [
    "pytest>=7.0.0",
    "coverage>=6.0",
]
"#;
    let deps = parser.parse(content);
    assert_eq!(deps.len(), 5);

    // Project deps: dev=false, optional=false
    let flask = deps.iter().find(|d| d.name == "flask").unwrap();
    assert!(!flask.dev);
    assert!(!flask.optional);

    let requests = deps.iter().find(|d| d.name == "requests").unwrap();
    assert!(!requests.dev);
    assert!(!requests.optional);

    // Optional dep: dev=true, optional=true
    let redis = deps.iter().find(|d| d.name == "redis").unwrap();
    assert!(redis.dev);
    assert!(redis.optional);

    // Hatch env deps: dev=true, optional=false
    let pytest = deps.iter().find(|d| d.name == "pytest").unwrap();
    assert!(pytest.dev);
    assert!(!pytest.optional);

    let coverage = deps.iter().find(|d| d.name == "coverage").unwrap();
    assert!(coverage.dev);
    assert!(!coverage.optional);
}

#[test]
fn test_hatch_toml_basic() {
    // Standalone hatch.toml — envs at top level under [envs.*]
    let parser = PythonParser::new();
    let content = r#"
[envs.default]
dependencies = [
    "mypy>=1.0.0",
]

[envs.test]
dependencies = [
    "pytest>=7.0.0",
    "coverage>=6.0",
]
"#;
    let deps = parser.parse(content);
    assert_eq!(deps.len(), 3);
    assert!(deps.iter().all(|d| d.dev));
    assert!(deps.iter().all(|d| !d.optional));

    assert!(deps.iter().any(|d| d.name == "mypy"));
    assert!(deps.iter().any(|d| d.name == "pytest"));
    assert!(deps.iter().any(|d| d.name == "coverage"));
}

#[test]
fn test_hatch_toml_extra_deps() {
    // extra-dependencies in standalone hatch.toml
    let parser = PythonParser::new();
    let content = r#"
[envs.default]
dependencies = [
    "foo>=1.0",
    "bar>=2.0",
]

[envs.experimental]
extra-dependencies = [
    "baz>=3.0",
]
"#;
    let deps = parser.parse(content);
    assert_eq!(deps.len(), 3);
    assert!(deps.iter().any(|d| d.name == "foo"));
    assert!(deps.iter().any(|d| d.name == "bar"));
    assert!(deps.iter().any(|d| d.name == "baz"));
    assert!(deps.iter().all(|d| d.dev));
    assert!(deps.iter().all(|d| !d.optional));
}

#[test]
fn test_pyproject_poetry_groups_dev() {
    let content = r#"
[tool.poetry]
name = "x"
version = "0.1.0"

[tool.poetry.group.dev.dependencies]
black = "^23.0.0"
ruff = "^0.1.0"
"#;
    let parser = PythonParser::new();
    let deps = parser.parse(content);
    assert_eq!(deps.len(), 2, "expected 2 deps, got {deps:?}");
    let black = deps
        .iter()
        .find(|d| d.name == "black")
        .expect("black missing");
    assert!(black.dev, "black in [group.dev] must be dev=true");
    assert!(!black.optional);
    let ruff = deps
        .iter()
        .find(|d| d.name == "ruff")
        .expect("ruff missing");
    assert!(ruff.dev);
    assert!(!ruff.optional);
}

#[test]
fn test_pyproject_poetry_groups_test() {
    let content = r#"
[tool.poetry]
name = "x"
version = "0.1.0"

[tool.poetry.group.test.dependencies]
pytest = "^7.0.0"
"#;
    let parser = PythonParser::new();
    let deps = parser.parse(content);
    let pytest = deps
        .iter()
        .find(|d| d.name == "pytest")
        .expect("pytest missing");
    assert!(pytest.dev, "pytest in [group.test] must be dev=true");
}

#[test]
fn test_pyproject_poetry_groups_custom() {
    let content = r#"
[tool.poetry]
name = "x"
version = "0.1.0"

[tool.poetry.group.docs.dependencies]
mkdocs = "^1.5.0"
"#;
    let parser = PythonParser::new();
    let deps = parser.parse(content);
    let mkdocs = deps
        .iter()
        .find(|d| d.name == "mkdocs")
        .expect("mkdocs missing");
    assert!(!mkdocs.dev, "mkdocs in [group.docs] must be dev=false");
    assert!(!mkdocs.optional);
}

#[test]
fn test_pyproject_poetry_table_format() {
    let content = r#"
[tool.poetry.dependencies]
python = "^3.9"
requests = { version = "^2.28.0", optional = true }
"#;
    let parser = PythonParser::new();
    let deps = parser.parse(content);
    let req = deps
        .iter()
        .find(|d| d.name == "requests")
        .expect("requests missing");
    assert_eq!(req.version, "^2.28.0");
    assert!(
        req.optional,
        "optional=true must be propagated from inline table"
    );
}

#[test]
fn test_pyproject_pep621_dynamic_safe() {
    let content = r#"
[project]
name = "x"
version = "0.1.0"
dynamic = ["dependencies"]
"#;
    let parser = PythonParser::new();
    let deps = parser.parse(content);
    assert_eq!(
        deps.len(),
        0,
        "dynamic deps should yield no Dependency items"
    );
}

#[test]
fn test_pyproject_environment_markers() {
    let content = r#"
[project]
name = "x"
version = "0.1.0"
dependencies = [
    "pytest>=7.0;python_version>='3.8'",
]
"#;
    let parser = PythonParser::new();
    let deps = parser.parse(content);
    let pytest = deps
        .iter()
        .find(|d| d.name == "pytest")
        .expect("pytest missing");
    assert_eq!(pytest.version, ">=7.0", "marker must be stripped");
}

#[test]
fn test_pyproject_mixed_all_sections() {
    let content = r#"
[project]
name = "x"
version = "0.1.0"
dependencies = ["requests>=2.28.0"]

[project.optional-dependencies]
docs = ["mkdocs>=1.5.0"]

[dependency-groups]
test = ["pytest>=7.0.0"]

[tool.hatch.envs.lint]
dependencies = ["ruff>=0.1.0"]
"#;
    let parser = PythonParser::new();
    let deps = parser.parse(content);
    assert!(deps.iter().any(|d| d.name == "requests"));
    assert!(deps.iter().any(|d| d.name == "mkdocs" && d.optional));
    assert!(deps.iter().any(|d| d.name == "pytest"));
    assert!(deps.iter().any(|d| d.name == "ruff" && d.dev));
    assert_eq!(deps.len(), 4, "expected 4 deps total, got {deps:?}");
}

#[test]
fn test_pyproject_pep621_position_accuracy() {
    let content = "[project]\nname = \"x\"\nversion = \"0.1.0\"\ndependencies = [\n    \"requests>=2.28.0\",\n]\n";
    let parser = PythonParser::new();
    let deps = parser.parse(content);
    assert_eq!(deps.len(), 1);
    let dep = &deps[0];
    assert_eq!(dep.name, "requests");
    assert_eq!(dep.version, ">=2.28.0");
    // Content layout (0-indexed): 0=[project], 1=name, 2=version, 3=dependencies = [, 4=    "requests>=2.28.0",, 5=]
    assert_eq!(
        dep.name_span.line, 4,
        "name should be on the line containing the array item"
    );
    assert_eq!(dep.version_span.line, 4);
    // column checks: end > start is enough; exact offsets depend on taplo quote resolution
    assert!(dep.name_span.line_end > dep.name_span.line_start);
    assert!(dep.version_span.line_end > dep.version_span.line_start);
}

#[test]
fn test_pyproject_poetry_position_accuracy() {
    let content = "[tool.poetry.dependencies]\npython = \"^3.9\"\nrequests = \"^2.28.0\"\n";
    let parser = PythonParser::new();
    let deps = parser.parse(content);
    assert_eq!(deps.len(), 1, "only requests, python is skipped");
    let dep = &deps[0];
    assert_eq!(dep.name, "requests");
    assert_eq!(dep.version, "^2.28.0");
    // Content layout (0-indexed): 0=[tool.poetry.dependencies], 1=python = "^3.9", 2=requests = "^2.28.0"
    assert_eq!(dep.name_span.line, 2);
    assert_eq!(dep.version_span.line, 2);
    // column checks: end > start is enough; exact offsets depend on taplo quote resolution
    assert!(dep.name_span.line_end > dep.name_span.line_start);
    assert!(dep.version_span.line_end > dep.version_span.line_start);
}

#[test]
fn test_compute_line_ranges_basic() {
    let content = "abc\nde\nfghi";
    let ranges = compute_line_ranges(content);
    assert_eq!(ranges.len(), 3);
    assert_eq!(ranges[0].start, 0);
    assert_eq!(ranges[0].end, 4); // "abc\n" = 4 bytes
    assert_eq!(ranges[1].start, 4);
    assert_eq!(ranges[1].end, 7); // "de\n" = 3 bytes
    assert_eq!(ranges[2].start, 7);
    assert_eq!(ranges[2].end, 11); // "fghi" = 4 bytes
}

#[test]
fn test_range_to_span_returns_none_for_multiline_range() {
    let content = "abc\ndef\nghi";
    let line_ranges = compute_line_ranges(content);
    // Build a range that straddles line 0 and line 1: bytes [2..6) covers
    // "c\nde" — crosses the newline at byte 3.
    let straddle = TextRange { start: 2, end: 6 };
    assert!(
        range_to_span(straddle, &line_ranges).is_none(),
        "multi-line range must yield None to prevent underflow"
    );
}

#[test]
fn test_pep621_version_span_covers_only_version_literal() {
    // Quick-fix replacement targets `version_span`, so the span MUST cover
    // only `>=2.28.0` — never the package name or the surrounding quotes.
    // Otherwise an "Update to 2.28.1" edit would clobber `requests` or
    // produce `2.28.1` (no quotes) and break the TOML.
    let content = "[project]\ndependencies = [\"requests>=2.28.0\"]\n";
    let parser = PythonParser::new();
    let deps = parser.parse(content);
    assert_eq!(deps.len(), 1);
    let dep = &deps[0];
    assert_eq!(dep.version, ">=2.28.0");
    assert_eq!(
        span_text(content, &dep.version_span),
        ">=2.28.0",
        "version_span must cover only the operator + version, not the whole quoted spec"
    );
    assert_eq!(
        span_text(content, &dep.name_span),
        "requests",
        "name_span must cover only the package name, not the whole quoted spec"
    );
}

#[test]
fn test_poetry_simple_string_version_span_excludes_quotes() {
    // For `flask = "^2.0.0"`, version_span must cover only `^2.0.0`
    // (no quotes). Replacing with `^2.0.1` must yield valid TOML.
    let content = "[tool.poetry.dependencies]\nflask = \"^2.0.0\"\n";
    let parser = PythonParser::new();
    let deps = parser.parse(content);
    assert_eq!(deps.len(), 1);
    let dep = &deps[0];
    assert_eq!(dep.version, "^2.0.0");
    assert_eq!(
        span_text(content, &dep.version_span),
        "^2.0.0",
        "Poetry simple-string version_span must exclude surrounding quotes"
    );
}

#[test]
fn test_poetry_inline_table_version_span_targets_inner_string() {
    // For `requests = { version = "^2.28.0", optional = true }`,
    // version_span must cover only `^2.28.0` so that quick-fix replacement
    // does not clobber the rest of the inline-table metadata.
    let content =
        "[tool.poetry.dependencies]\nrequests = { version = \"^2.28.0\", optional = true }\n";
    let parser = PythonParser::new();
    let deps = parser.parse(content);
    assert_eq!(deps.len(), 1);
    let dep = &deps[0];
    assert_eq!(dep.version, "^2.28.0");
    assert!(dep.optional);
    assert_eq!(
        span_text(content, &dep.version_span),
        "^2.28.0",
        "Poetry inline-table version_span must point at the nested version literal, \
             not the whole inline table"
    );
}

#[test]
fn test_pep735_version_span_covers_only_version_literal() {
    let content = "[dependency-groups]\ntest = [\"pytest>=7.0.0\"]\n";
    let parser = PythonParser::new();
    let deps = parser.parse(content);
    assert_eq!(deps.len(), 1);
    let dep = &deps[0];
    assert_eq!(dep.version, ">=7.0.0");
    assert_eq!(span_text(content, &dep.version_span), ">=7.0.0");
    assert_eq!(span_text(content, &dep.name_span), "pytest");
}

#[test]
fn test_hatch_envs_version_span_covers_only_version_literal() {
    let content = "[tool.hatch.envs.lint]\ndependencies = [\"ruff>=0.1.0\"]\n";
    let parser = PythonParser::new();
    let deps = parser.parse(content);
    assert_eq!(deps.len(), 1);
    let dep = &deps[0];
    assert_eq!(dep.version, ">=0.1.0");
    assert_eq!(span_text(content, &dep.version_span), ">=0.1.0");
    assert_eq!(span_text(content, &dep.name_span), "ruff");
}

#[test]
fn requirements_preserve_spacing_and_track_additional_constraints() {
    let content = "single>= 1.0\ncompound>= 1.0, < 2.0\n";
    let deps = PythonParser::new().parse(content);

    let single = deps.iter().find(|dep| dep.name == "single").unwrap();
    assert_eq!(single.version, ">= 1.0");
    assert_eq!(span_text(content, &single.version_span), ">= 1.0");
    assert!(!single.has_additional_version_constraints);

    let compound = deps.iter().find(|dep| dep.name == "compound").unwrap();
    assert_eq!(compound.version, ">= 1.0");
    assert_eq!(span_text(content, &compound.version_span), ">= 1.0");
    assert!(compound.has_additional_version_constraints);
}

#[test]
fn pep508_arrays_preserve_spacing_and_track_additional_constraints() {
    let content = "[project]\n\
                   dependencies = [\"single>= 1.0\", \"compound>= 1.0, < 2.0\"]\n";
    let deps = PythonParser::new().parse(content);

    let single = deps.iter().find(|dep| dep.name == "single").unwrap();
    assert_eq!(single.version, ">= 1.0");
    assert_eq!(span_text(content, &single.version_span), ">= 1.0");
    assert!(!single.has_additional_version_constraints);

    let compound = deps.iter().find(|dep| dep.name == "compound").unwrap();
    assert_eq!(compound.version, ">= 1.0");
    assert_eq!(span_text(content, &compound.version_span), ">= 1.0");
    assert!(compound.has_additional_version_constraints);
}

#[test]
fn requirements_spans_cover_name_and_version() {
    let content = "# deps\nrequests>=2.31.0\n  flask [async] == 3.0  # web\nDjango>=4,<5\n";
    let deps = parse_requirements_txt(content);
    assert_eq!(deps.len(), 3);
    for d in &deps {
        let line = content.lines().nth(d.name_span.line as usize).unwrap();
        assert_eq!(&line[d.name_span.line_start as usize..d.name_span.line_end as usize], d.name);
        assert_eq!(
            &line[d.version_span.line_start as usize..d.version_span.line_end as usize],
            d.version
        );
    }
}

#[test]
fn pep508_ranges_point_back_into_the_text() {
    let s = "  requests[security] >=2.0, <3 ; python_version > '3'";
    let p = depsy_lsp::parsers::python::parse_pep508_dependency(s).unwrap();
    assert_eq!(&s[p.name_byte_range.0..p.name_byte_range.1], p.name);
    assert_eq!(&s[p.version_byte_range.0..p.version_byte_range.1], p.version);
    assert_eq!(p.name, "requests");
    assert_eq!(p.version, ">=2.0");
    assert!(p.name_byte_range.1 <= p.version_byte_range.0);
    assert!(p.has_additional_version_constraints);
    assert!(depsy_lsp::parsers::python::parse_pep508_dependency("bare-package").is_none());
}
