use depsy_lsp::parsers::go::GoParser;
use depsy_lsp::parsers::Parser;


#[test]
fn test_simple_require() {
    let parser = GoParser::new();
    let content = r#"
module example.com/mymodule

go 1.21

require github.com/pkg/errors v0.9.1
"#;
    let deps = parser.parse(content);
    assert_eq!(deps.len(), 1);
    assert_eq!(deps[0].name, "github.com/pkg/errors");
    assert_eq!(deps[0].version, "v0.9.1");
    assert!(!deps[0].optional);
}

#[test]
fn test_require_block() {
    let parser = GoParser::new();
    let content = r#"
module example.com/mymodule

go 1.21

require (
    github.com/gin-gonic/gin v1.9.1
    golang.org/x/text v0.14.0
)
"#;
    let deps = parser.parse(content);
    assert_eq!(deps.len(), 2);

    let gin = deps.iter().find(|d| d.name.contains("gin")).unwrap();
    assert_eq!(gin.version, "v1.9.1");

    let text = deps.iter().find(|d| d.name.contains("text")).unwrap();
    assert_eq!(text.version, "v0.14.0");
}

#[test]
fn test_indirect_dependency() {
    let parser = GoParser::new();
    let content = r#"
require (
    github.com/direct/dep v1.0.0
    github.com/indirect/dep v2.0.0 // indirect
)
"#;
    let deps = parser.parse(content);
    assert_eq!(deps.len(), 2);

    let direct = deps.iter().find(|d| d.name.contains("direct")).unwrap();
    assert!(!direct.optional);

    let indirect = deps.iter().find(|d| d.name.contains("indirect")).unwrap();
    assert!(indirect.optional);
}

#[test]
fn test_multiple_require_blocks() {
    let parser = GoParser::new();
    let content = r#"
require (
    github.com/pkg/a v1.0.0
)

require (
    github.com/pkg/b v2.0.0
)

require github.com/pkg/c v3.0.0
"#;
    let deps = parser.parse(content);
    assert_eq!(deps.len(), 3);
}

#[test]
fn go_test_version_position() {
    let parser = GoParser::new();
    let content = "require github.com/pkg/errors v0.9.1";
    let deps = parser.parse(content);
    assert_eq!(deps.len(), 1);

    let dep = &deps[0];
    assert_eq!(dep.name_span.line, 0);
    assert_eq!(dep.name_span.line_start, 8);
    assert_eq!(dep.name_span.line_end, 29);
    assert_eq!(dep.version_span.line, 0);
    assert_eq!(dep.version_span.line_start, 30);
    assert_eq!(dep.version_span.line_end, 36);
}

#[test]
fn test_skip_replace_directives() {
    let parser = GoParser::new();
    let content = r#"
require github.com/old/pkg v1.0.0

replace github.com/old/pkg => github.com/new/pkg v2.0.0
"#;
    let deps = parser.parse(content);
    assert_eq!(deps.len(), 1);
    assert_eq!(deps[0].name, "github.com/old/pkg");
}

#[test]
fn go_test_empty_file() {
    let parser = GoParser::new();
    let content = "";
    let deps = parser.parse(content);
    assert_eq!(deps.len(), 0);
}

#[test]
fn test_require_block_with_comments() {
    let parser = GoParser::new();
    let content = r#"
require (
    // this is a comment
    github.com/pkg/errors v0.9.1
)
"#;
    let deps = parser.parse(content);
    assert_eq!(deps.len(), 1);
}


#[test]
fn go_spans_cover_module_and_version() {
    let content = "module x\n\nrequire (\n\tgithub.com/a/b v1.2.3 // indirect\n\tgolang.org/x/text v0.14.0\n)\nrequire example.com/c v2.0.0\n";
    let deps = GoParser::new().parse(content);
    assert_eq!(deps.len(), 3);
    for d in &deps {
        let line = content.lines().nth(d.name_span.line as usize).unwrap();
        assert_eq!(&line[d.name_span.line_start as usize..d.name_span.line_end as usize], d.name);
        assert_eq!(
            &line[d.version_span.line_start as usize..d.version_span.line_end as usize],
            d.version
        );
    }
}
