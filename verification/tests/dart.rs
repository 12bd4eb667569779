use depsy_lsp::parsers::dart::DartParser;
use depsy_lsp::parsers::Parser;


#[test]
fn test_parse_simple_dependencies() {
    let content = r#"
name: my_app
version: 1.0.0

dependencies:
  http: ^1.0.0
  provider: ^6.0.0

dev_dependencies:
  mockito: ^5.4.0
"#;
    let parser = DartParser::new();
    let deps = parser.parse(content);

    assert_eq!(deps.len(), 3);

    let http = deps.iter().find(|d| d.name == "http").unwrap();
    assert_eq!(http.version, "^1.0.0");
    assert!(!http.dev);

    let mockito = deps.iter().find(|d| d.name == "mockito").unwrap();
    assert!(mockito.dev);
}

#[test]
fn test_skip_flutter_sdk() {
    let content = r#"
dependencies:
  flutter:
    sdk: flutter
  http: ^1.0.0

dev_dependencies:
  flutter_test:
    sdk: flutter
  mockito: ^5.4.0
"#;
    let parser = DartParser::new();
    let deps = parser.parse(content);

    // Should only find http and mockito, not flutter or flutter_test
    assert_eq!(deps.len(), 2);
    assert!(deps.iter().any(|d| d.name == "http"));
    assert!(deps.iter().any(|d| d.name == "mockito"));
    assert!(!deps.iter().any(|d| d.name == "flutter"));
    assert!(!deps.iter().any(|d| d.name == "flutter_test"));
}

#[test]
fn test_skip_git_dependencies() {
    let content = r#"
dependencies:
  http: ^1.0.0
  custom_pkg:
    git:
      url: https://github.com/user/repo.git
      ref: main
  provider: ^6.0.0
"#;
    let parser = DartParser::new();
    let deps = parser.parse(content);

    // Should only find http and provider
    assert_eq!(deps.len(), 2);
    assert!(deps.iter().any(|d| d.name == "http"));
    assert!(deps.iter().any(|d| d.name == "provider"));
}

#[test]
fn dart_test_version_positions() {
    let content = r#"
dependencies:
  http: ^1.0.0
"#;
    let parser = DartParser::new();
    let deps = parser.parse(content);

    assert_eq!(deps.len(), 1);
    let http = &deps[0];
    assert_eq!(http.name, "http");
    assert!(http.version_span.line_start > http.name_span.line_end);
}

#[test]
fn test_quoted_versions() {
    let content = r#"
dependencies:
  http: "^1.0.0"
  provider: '^6.0.0'
"#;
    let parser = DartParser::new();
    let deps = parser.parse(content);

    assert_eq!(deps.len(), 2);
    assert_eq!(deps[0].version, "^1.0.0");
    assert_eq!(deps[1].version, "^6.0.0");
}

#[test]
fn test_inline_comments_stripped() {
    let content = r#"
dependencies:
  quiver: ^3.2.2 # From Google
  http: ^1.0.0 # important lib
  provider: ^6.0.0
"#;
    let parser = DartParser::new();
    let deps = parser.parse(content);

    assert_eq!(deps.len(), 3);

    let quiver = deps.iter().find(|d| d.name == "quiver").unwrap();
    assert_eq!(quiver.version, "^3.2.2");

    let http = deps.iter().find(|d| d.name == "http").unwrap();
    assert_eq!(http.version, "^1.0.0");
}

#[test]
fn test_quoted_version_with_inline_comment() {
    let content = r#"
dependencies:
  http: "^1.0.0" # pinned version
"#;
    let parser = DartParser::new();
    let deps = parser.parse(content);

    assert_eq!(deps.len(), 1);
    assert_eq!(deps[0].version, "^1.0.0");
}

#[test]
fn test_dependency_overrides() {
    let content = r#"
dependencies:
  http: ^1.0.0

dependency_overrides:
  http: ^1.1.0
"#;
    let parser = DartParser::new();
    let deps = parser.parse(content);

    // Should find both (override and regular)
    assert_eq!(deps.len(), 2);
}


#[test]
fn dart_spans_cover_name_and_version() {
    let content = "name: app\ndependencies:\n  http: ^1.1.0\n  collection: '1.18.0'\ndev_dependencies:\n  test: any\n";
    let deps = DartParser::new().parse(content);
    assert_eq!(deps.len(), 3);
    for d in &deps {
        let line = content.lines().nth(d.name_span.line as usize).unwrap();
        assert_eq!(&line[d.name_span.line_start as usize..d.name_span.line_end as usize], d.name);
        assert_eq!(
            &line[d.version_span.line_start as usize..d.version_span.line_end as usize],
            d.version
        );
    }
}

#[test]
fn dart_version_span_lies_after_colon() {
    let d = depsy_lsp::parsers::dart::parse_dart_dependency_line("  a1: 1", 0, false).unwrap();
    assert_eq!(d.name, "a1");
    assert_eq!(d.version, "1");
    assert_eq!((d.name_span.line_start, d.name_span.line_end), (2, 4));
    assert_eq!((d.version_span.line_start, d.version_span.line_end), (6, 7));
}

#[test]
fn dart_inline_comment_does_not_make_a_complex_form() {
    let content = "dependencies:\n  http: ^1.0.0 # mirrors git: repo\n  provider: ^6.0.0\n";
    let deps = DartParser::new().parse(content);
    let got: Vec<(&str, &str)> = deps.iter().map(|d| (d.name.as_str(), d.version.as_str())).collect();
    assert_eq!(got, vec![("http", "^1.0.0"), ("provider", "^6.0.0")]);
}
