use depsy_lsp::parsers::python_lock::{detect_python_tool, normalize_python_name, parse_pipfile_lock, parse_pipfile_lock_graph, parse_poetry_lock_graph, parse_python_lockfile, parse_toml_package_array, parse_uv_lock_graph, PythonLockfileType, PythonResolver};







#[test]
fn detect_poetry_project() {
    let content = r#"
[tool.poetry]
name = "my-app"
version = "0.1.0"

[tool.poetry.dependencies]
python = "^3.11"
requests = "^2.31"
"#;
    assert_eq!(
        detect_python_tool(content),
        Some(PythonLockfileType::PoetryLock)
    );
}

#[test]
fn detect_poetry_nested_section() {
    let content = "[tool.poetry.dependencies]\nrequests = \"^2.31\"\n";
    assert_eq!(
        detect_python_tool(content),
        Some(PythonLockfileType::PoetryLock)
    );
}

#[test]
fn detect_uv_project() {
    let content = r#"
[project]
name = "my-app"

[tool.uv]
dev-dependencies = ["pytest"]
"#;
    assert_eq!(
        detect_python_tool(content),
        Some(PythonLockfileType::UvLock)
    );
}

#[test]
fn detect_pdm_project() {
    let content = "[tool.pdm]\n";
    assert_eq!(
        detect_python_tool(content),
        Some(PythonLockfileType::PdmLock)
    );
}

#[test]
fn detect_no_tool_section() {
    let content = r#"
[project]
name = "my-app"
dependencies = ["requests>=2.31"]
"#;
    assert_eq!(detect_python_tool(content), None);
}

#[test]
fn detect_requirements_txt_returns_none() {
    let content = "requests>=2.31.0\nflask==3.0.2\n";
    assert_eq!(detect_python_tool(content), None);
}

#[test]
fn detect_rejects_similar_tool_names() {
    // [tool.poetryx] should NOT match poetry
    let content = "[tool.poetryx]\n";
    assert_eq!(detect_python_tool(content), None);
}

#[test]
fn normalize_simple() {
    assert_eq!(normalize_python_name("requests"), "requests");
}

#[test]
fn normalize_uppercase() {
    assert_eq!(normalize_python_name("Flask"), "flask");
}

#[test]
fn normalize_underscores() {
    assert_eq!(
        normalize_python_name("typing_extensions"),
        "typing-extensions"
    );
}

#[test]
fn normalize_dots() {
    assert_eq!(normalize_python_name("zope.interface"), "zope-interface");
}

#[test]
fn normalize_mixed_separators() {
    assert_eq!(normalize_python_name("Foo_Bar.Baz-qux"), "foo-bar-baz-qux");
}

#[test]
fn normalize_consecutive_separators() {
    assert_eq!(normalize_python_name("foo__bar"), "foo-bar");
}

#[test]
fn normalize_empty_string() {
    assert_eq!(normalize_python_name(""), "");
}

#[test]
fn normalize_leading_separator() {
    assert_eq!(normalize_python_name("-foo"), "foo");
}

#[test]
fn normalize_trailing_separator() {
    assert_eq!(normalize_python_name("foo-"), "foo");
}


#[test]
fn parse_poetry_lock_basic() {
    let content = r#"
[[package]]
name = "requests"
version = "2.31.0"
description = "Python HTTP for Humans."
python-versions = ">=3.7"

[[package]]
name = "Flask"
version = "3.0.2"
description = "A simple framework for building complex web applications."
"#;
    let map = parse_python_lockfile(content, PythonLockfileType::PoetryLock);
    assert_eq!(map.get("requests").map(String::as_str), Some("2.31.0"));
    assert_eq!(map.get("flask").map(String::as_str), Some("3.0.2"));
}

#[test]
fn parse_poetry_lock_with_dependencies() {
    let content = r#"
[[package]]
name = "certifi"
version = "2024.2.2"

[package.dependencies]
urllib3 = ">=1.21.1"

[[package]]
name = "urllib3"
version = "2.1.0"
"#;
    let map = parse_python_lockfile(content, PythonLockfileType::PoetryLock);
    assert_eq!(map.get("certifi").map(String::as_str), Some("2024.2.2"));
    assert_eq!(map.get("urllib3").map(String::as_str), Some("2.1.0"));
}

#[test]
fn parse_poetry_lock_empty() {
    let map = parse_python_lockfile("", PythonLockfileType::PoetryLock);
    assert!(map.is_empty());
}

#[test]
fn parse_poetry_lock_no_packages() {
    let content = r#"
[metadata]
lock-version = "2.0"
python-versions = "^3.11"
"#;
    let map = parse_python_lockfile(content, PythonLockfileType::PoetryLock);
    assert!(map.is_empty());
}

#[test]
fn parse_poetry_lock_duplicate_keeps_first() {
    let content = r#"
[[package]]
name = "requests"
version = "2.28.0"

[[package]]
name = "requests"
version = "2.31.0"
"#;
    let map = parse_python_lockfile(content, PythonLockfileType::PoetryLock);
    assert_eq!(map.get("requests").map(String::as_str), Some("2.28.0"));
}

#[test]
fn parse_uv_lock_basic() {
    let content = r#"
version = 1
requires-python = ">=3.12"

[[package]]
name = "requests"
version = "2.31.0"
source = { registry = "https://pypi.org/simple" }

[[package]]
name = "typing-extensions"
version = "4.9.0"
source = { registry = "https://pypi.org/simple" }
"#;
    let map = parse_python_lockfile(content, PythonLockfileType::UvLock);
    assert_eq!(map.get("requests").map(String::as_str), Some("2.31.0"));
    assert_eq!(
        map.get("typing-extensions").map(String::as_str),
        Some("4.9.0")
    );
}

#[test]
fn parse_uv_lock_with_sdist_and_wheels() {
    let content = r#"
version = 1

[[package]]
name = "click"
version = "8.1.7"
source = { registry = "https://pypi.org/simple" }
sdist = { url = "https://example.com/click-8.1.7.tar.gz", hash = "sha256:abcdef" }
wheels = [
    { url = "https://example.com/click-8.1.7-py3-none-any.whl", hash = "sha256:123456" },
]
"#;
    let map = parse_python_lockfile(content, PythonLockfileType::UvLock);
    assert_eq!(map.get("click").map(String::as_str), Some("8.1.7"));
}

#[test]
fn parse_uv_lock_skips_packages_without_version() {
    // Workspace members and the project itself may appear without a version field
    let content = r#"
version = 1

[[package]]
name = "my-project"
source = { virtual = "." }

[[package]]
name = "requests"
version = "2.31.0"
source = { registry = "https://pypi.org/simple" }
"#;
    let map = parse_python_lockfile(content, PythonLockfileType::UvLock);
    assert_eq!(map.get("requests").map(String::as_str), Some("2.31.0"));
    assert!(!map.contains_key("my-project"));
}

#[test]
fn parse_uv_lock_empty() {
    let map = parse_python_lockfile("", PythonLockfileType::UvLock);
    assert!(map.is_empty());
}

#[test]
fn parse_pdm_lock_basic() {
    let content = r#"
[metadata]
groups = ["default"]
strategy = ["cross_platform"]
lock_version = "4.5.0"

[[package]]
name = "requests"
version = "2.31.0"
requires_python = ">=3.7"
summary = "Python HTTP for Humans."

[[package]]
name = "certifi"
version = "2024.2.2"
"#;
    let map = parse_python_lockfile(content, PythonLockfileType::PdmLock);
    assert_eq!(map.get("requests").map(String::as_str), Some("2.31.0"));
    assert_eq!(map.get("certifi").map(String::as_str), Some("2024.2.2"));
}

#[test]
fn parse_pdm_lock_empty() {
    let map = parse_python_lockfile("", PythonLockfileType::PdmLock);
    assert!(map.is_empty());
}

#[test]
fn parse_pdm_lock_metadata_only() {
    let content = r#"
[metadata]
groups = ["default"]
lock_version = "4.5.0"
content_hash = "sha256:abc"
"#;
    let map = parse_python_lockfile(content, PythonLockfileType::PdmLock);
    assert!(map.is_empty());
}

#[test]
fn parse_pipfile_lock_basic() {
    let content = r#"
{
    "_meta": {
        "hash": {"sha256": "abc"},
        "pipfile-spec": 6,
        "requires": {"python_version": "3.11"}
    },
    "default": {
        "requests": {
            "version": "==2.31.0",
            "hashes": ["sha256:abc"]
        },
        "flask": {
            "version": "==3.0.2",
            "hashes": ["sha256:def"]
        }
    },
    "develop": {}
}
"#;
    let map = parse_pipfile_lock(content);
    assert_eq!(map.get("requests").map(String::as_str), Some("2.31.0"));
    assert_eq!(map.get("flask").map(String::as_str), Some("3.0.2"));
}

#[test]
fn parse_pipfile_lock_with_develop() {
    let content = r#"
{
    "_meta": {"hash": {"sha256": "abc"}, "pipfile-spec": 6},
    "default": {
        "requests": {"version": "==2.31.0"}
    },
    "develop": {
        "pytest": {"version": "==8.0.0"},
        "black": {"version": "==24.1.0"}
    }
}
"#;
    let map = parse_pipfile_lock(content);
    assert_eq!(map.get("requests").map(String::as_str), Some("2.31.0"));
    assert_eq!(map.get("pytest").map(String::as_str), Some("8.0.0"));
    assert_eq!(map.get("black").map(String::as_str), Some("24.1.0"));
}

#[test]
fn parse_pipfile_lock_strips_equals() {
    let content = r#"
{
    "default": {
        "click": {"version": "==8.1.7"}
    },
    "develop": {}
}
"#;
    let map = parse_pipfile_lock(content);
    assert_eq!(map.get("click").map(String::as_str), Some("8.1.7"));
}

#[test]
fn parse_pipfile_lock_without_equals() {
    let content = r#"
{
    "default": {
        "click": {"version": "8.1.7"}
    },
    "develop": {}
}
"#;
    let map = parse_pipfile_lock(content);
    assert_eq!(map.get("click").map(String::as_str), Some("8.1.7"));
}

#[test]
fn parse_pipfile_lock_normalizes_names() {
    let content = r#"
{
    "default": {
        "typing_extensions": {"version": "==4.9.0"},
        "Jinja2": {"version": "==3.1.3"}
    },
    "develop": {}
}
"#;
    let map = parse_pipfile_lock(content);
    assert_eq!(
        map.get("typing-extensions").map(String::as_str),
        Some("4.9.0")
    );
    assert_eq!(map.get("jinja2").map(String::as_str), Some("3.1.3"));
}

#[test]
fn parse_pipfile_lock_default_wins_over_develop() {
    // When the same package appears in both sections, the default version is kept
    let content = r#"
{
    "default": {
        "requests": {"version": "==2.31.0"}
    },
    "develop": {
        "requests": {"version": "==2.28.0"}
    }
}
"#;
    let map = parse_pipfile_lock(content);
    assert_eq!(map.get("requests").map(String::as_str), Some("2.31.0"));
}

#[test]
fn parse_pipfile_lock_empty() {
    let map = parse_pipfile_lock("{}");
    assert!(map.is_empty());
}

#[test]
fn parse_pipfile_lock_invalid_json() {
    let map = parse_pipfile_lock("not json");
    assert!(map.is_empty());
}

#[test]
fn dispatch_poetry_lock() {
    let content = r#"
[[package]]
name = "click"
version = "8.1.7"
"#;
    let map = parse_python_lockfile(content, PythonLockfileType::PoetryLock);
    assert_eq!(map.get("click").map(String::as_str), Some("8.1.7"));
}

#[test]
fn dispatch_uv_lock() {
    let content = r#"
version = 1
[[package]]
name = "click"
version = "8.1.7"
"#;
    let map = parse_python_lockfile(content, PythonLockfileType::UvLock);
    assert_eq!(map.get("click").map(String::as_str), Some("8.1.7"));
}

#[test]
fn dispatch_pdm_lock() {
    let content = r#"
[[package]]
name = "click"
version = "8.1.7"
"#;
    let map = parse_python_lockfile(content, PythonLockfileType::PdmLock);
    assert_eq!(map.get("click").map(String::as_str), Some("8.1.7"));
}

#[test]
fn dispatch_pipfile_lock() {
    let content = r#"{"default": {"click": {"version": "==8.1.7"}}, "develop": {}}"#;
    let map = parse_python_lockfile(content, PythonLockfileType::PipfileLock);
    assert_eq!(map.get("click").map(String::as_str), Some("8.1.7"));
}

#[test]
fn toml_lockfile_normalizes_names() {
    let content = r#"
[[package]]
name = "typing_extensions"
version = "4.9.0"

[[package]]
name = "Jinja2"
version = "3.1.3"

[[package]]
name = "zope.interface"
version = "6.1"
"#;
    let map = parse_toml_package_array(content);
    assert_eq!(
        map.get("typing-extensions").map(String::as_str),
        Some("4.9.0")
    );
    assert_eq!(map.get("jinja2").map(String::as_str), Some("3.1.3"));
    assert_eq!(map.get("zope-interface").map(String::as_str), Some("6.1"));
}

#[test]
fn parse_invalid_toml() {
    let map = parse_toml_package_array("not valid toml ][");
    assert!(map.is_empty());
}

#[test]
fn test_parse_poetry_lock_graph() {
    let content = r#"
[[package]]
name = "requests"
version = "2.31.0"

[package.dependencies]
urllib3 = ">=1.21.1,<3"
certifi = ">=2017.4.17"

[[package]]
name = "urllib3"
version = "2.0.7"

[[package]]
name = "certifi"
version = "2023.11.17"
"#;
    let graph = parse_poetry_lock_graph(content);
    let requests = graph
        .packages
        .iter()
        .find(|p| p.name == "requests")
        .unwrap();
    assert_eq!(requests.version, "2.31.0");
    assert!(requests.dependencies.contains(&"urllib3".to_string()));
    assert!(requests.dependencies.contains(&"certifi".to_string()));
}

#[test]
fn test_parse_pipfile_lock_graph() {
    let content = r#"{
  "default": {
    "requests": { "version": "==2.31.0", "dependencies": ["urllib3"] },
    "urllib3": { "version": "==2.0.7" }
  },
  "develop": {}
}"#;
    let graph = parse_pipfile_lock_graph(content);
    let requests = graph
        .packages
        .iter()
        .find(|p| p.name == "requests")
        .unwrap();
    assert_eq!(requests.version, "2.31.0");
    assert!(requests.dependencies.contains(&"urllib3".to_string()));
}

#[test]
fn test_parse_uv_lock_graph() {
    let content = r#"
version = 1

[[package]]
name = "requests"
version = "2.31.0"
dependencies = [
    { name = "urllib3" },
    { name = "certifi" },
]

[[package]]
name = "urllib3"
version = "2.0.7"
"#;
    let graph = parse_uv_lock_graph(content);
    let requests = graph
        .packages
        .iter()
        .find(|p| p.name == "requests")
        .unwrap();
    assert!(requests.dependencies.contains(&"urllib3".to_string()));
    assert!(requests.dependencies.contains(&"certifi".to_string()));
}

#[test]
fn python_resolver_graph_by_kind_and_normalization() {
    let poetry = "[[package]]\nname = \"Typing_Extensions\"\nversion = \"4.9.0\"\n\n[package.dependencies]\n\"Zope.Interface\" = \"*\"\n";
    let resolver = PythonResolver {
        lock_path: std::path::PathBuf::from("poetry.lock"),
        sub: PythonLockfileType::PoetryLock,
    };
    let graph = resolver.parse_graph(poetry);
    assert_eq!(graph.packages.len(), 1);
    assert_eq!(graph.packages[0].name, "typing-extensions");
    assert_eq!(graph.packages[0].dependencies, vec!["zope-interface".to_string()]);
    assert_eq!(resolver.normalize_name("Jinja2"), "jinja2");

    let pdm = "[[package]]\nname = \"A_B\"\nversion = \"1.0\"\n";
    let resolver = PythonResolver {
        lock_path: std::path::PathBuf::from("pdm.lock"),
        sub: PythonLockfileType::PdmLock,
    };
    let graph = resolver.parse_graph(pdm);
    assert_eq!(graph.packages.len(), 1);
    assert_eq!(graph.packages[0].name, "a-b");
    assert!(graph.packages[0].dependencies.is_empty());
}

#[test]
fn pipfile_map_strips_one_equals_graph_strips_all() {
    let content = r#"{"default":{"x":{"version":"====1.0"}},"develop":{}}"#;
    let map = parse_pipfile_lock(content);
    assert_eq!(map.get("x").map(|s| s.as_str()), Some("==1.0"));
    let graph = parse_pipfile_lock_graph(content);
    assert_eq!(graph.packages[0].version, "1.0");
}
