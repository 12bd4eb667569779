use depsy_lsp::parsers::Parser;
use depsy_lsp::parsers::lock_map::LockMap;
use depsy_lsp::parsers::maven::{
    extract_properties, extract_properties_from_events, line_offsets, offset_to_position, substitute, substitute_once, trimmed_span,
    MavenParser,
};
use depsy_lsp::parsers::xml_events::XmlEvent;


fn parse_pom(parser: &MavenParser, content: &str) -> Vec<depsy_lsp::parsers::Dependency> {
    parser.parse(content)
}


#[test]
fn test_parse_simple_dependency() {
    let parser = MavenParser::new();
    let pom = r#"<?xml version="1.0" encoding="UTF-8"?>
<project>
    <modelVersion>4.0.0</modelVersion>
    <groupId>com.example</groupId>
    <artifactId>app</artifactId>
    <version>1.0.0</version>
    <dependencies>
        <dependency>
            <groupId>org.slf4j</groupId>
            <artifactId>slf4j-api</artifactId>
            <version>1.7.30</version>
        </dependency>
    </dependencies>
</project>
"#;
    let deps = parse_pom(&parser, pom);
    assert_eq!(deps.len(), 1, "should parse one dependency");
    assert_eq!(deps[0].name, "org.slf4j:slf4j-api");
    assert_eq!(deps[0].version, "1.7.30");
    assert!(!deps[0].dev);
    assert!(!deps[0].optional);
}

#[test]
fn test_parse_with_properties() {
    let parser = MavenParser::new();
    let pom = r#"<?xml version="1.0" encoding="UTF-8"?>
<project>
    <modelVersion>4.0.0</modelVersion>
    <groupId>com.example</groupId>
    <artifactId>app</artifactId>
    <version>1.0.0</version>
    <properties>
        <spring.version>6.1.0</spring.version>
    </properties>
    <dependencies>
        <dependency>
            <groupId>org.springframework</groupId>
            <artifactId>spring-core</artifactId>
            <version>${spring.version}</version>
        </dependency>
    </dependencies>
</project>
"#;
    let deps = parse_pom(&parser, pom);
    assert_eq!(deps.len(), 1);
    // `version` keeps the source placeholder so the code-action layer can skip
    // the "update version" quick-fix; the resolved value is exposed via
    // `effective_version()` for hover and registry comparisons.
    assert_eq!(deps[0].version, "${spring.version}");
    assert_eq!(deps[0].resolved_version.as_deref(), Some("6.1.0"));
    assert_eq!(deps[0].effective_version(), "6.1.0");
}

#[test]
fn test_parse_nested_properties_resolved() {
    let parser = MavenParser::new();
    let pom = r#"<?xml version="1.0"?>
<project>
    <properties>
        <revision>${spring.version}</revision>
        <spring.version>6.1.0</spring.version>
    </properties>
    <dependencies>
        <dependency>
            <groupId>org.springframework</groupId>
            <artifactId>spring-core</artifactId>
            <version>${revision}</version>
        </dependency>
    </dependencies>
</project>
"#;
    let deps = parse_pom(&parser, pom);
    assert_eq!(deps.len(), 1);
    assert_eq!(deps[0].effective_version(), "6.1.0");
}

#[test]
fn test_parse_dependency_without_version_is_skipped() {
    // Dependencies omitting <version> typically inherit from a parent POM's
    // <dependencyManagement>; the MVP does not resolve parents, so emitting
    // them with empty positions would surface diagnostics on line 0.
    let parser = MavenParser::new();
    let pom = r#"<?xml version="1.0"?>
<project>
    <dependencies>
        <dependency>
            <groupId>org.slf4j</groupId>
            <artifactId>slf4j-api</artifactId>
        </dependency>
    </dependencies>
</project>
"#;
    let deps = parse_pom(&parser, pom);
    assert!(deps.is_empty());
}

#[test]
fn test_parse_unresolved_property_preserved() {
    let parser = MavenParser::new();
    let pom = r#"<?xml version="1.0"?>
<project>
    <dependencies>
        <dependency>
            <groupId>g</groupId>
            <artifactId>a</artifactId>
            <version>${not.defined}</version>
        </dependency>
    </dependencies>
</project>
"#;
    let deps = parse_pom(&parser, pom);
    assert_eq!(deps.len(), 1);
    assert_eq!(deps[0].version, "${not.defined}");
}

#[test]
fn test_parse_scope_test_marked_as_dev() {
    let parser = MavenParser::new();
    let pom = r#"<?xml version="1.0"?>
<project>
    <dependencies>
        <dependency>
            <groupId>junit</groupId>
            <artifactId>junit</artifactId>
            <version>4.13.2</version>
            <scope>test</scope>
        </dependency>
    </dependencies>
</project>
"#;
    let deps = parse_pom(&parser, pom);
    assert_eq!(deps.len(), 1);
    assert!(deps[0].dev);
}

#[test]
fn test_parse_scope_provided_marked_as_dev() {
    let parser = MavenParser::new();
    let pom = r#"<?xml version="1.0"?>
<project>
    <dependencies>
        <dependency>
            <groupId>javax.servlet</groupId>
            <artifactId>servlet-api</artifactId>
            <version>2.5</version>
            <scope>provided</scope>
        </dependency>
    </dependencies>
</project>
"#;
    let deps = parse_pom(&parser, pom);
    assert_eq!(deps.len(), 1);
    assert!(deps[0].dev);
}

#[test]
fn test_parse_optional() {
    let parser = MavenParser::new();
    let pom = r#"<?xml version="1.0"?>
<project>
    <dependencies>
        <dependency>
            <groupId>g</groupId>
            <artifactId>a</artifactId>
            <version>1.0</version>
            <optional>true</optional>
        </dependency>
    </dependencies>
</project>
"#;
    let deps = parse_pom(&parser, pom);
    assert_eq!(deps.len(), 1);
    assert!(deps[0].optional);
}

#[test]
fn test_parse_snapshot_version() {
    let parser = MavenParser::new();
    let pom = r#"<?xml version="1.0"?>
<project>
    <dependencies>
        <dependency>
            <groupId>g</groupId>
            <artifactId>a</artifactId>
            <version>2.0-SNAPSHOT</version>
        </dependency>
    </dependencies>
</project>
"#;
    let deps = parse_pom(&parser, pom);
    assert_eq!(deps.len(), 1);
    assert_eq!(deps[0].version, "2.0-SNAPSHOT");
}

#[test]
fn test_parse_dependency_management() {
    let parser = MavenParser::new();
    let pom = r#"<?xml version="1.0"?>
<project>
    <dependencyManagement>
        <dependencies>
            <dependency>
                <groupId>g</groupId>
                <artifactId>a</artifactId>
                <version>3.0</version>
            </dependency>
        </dependencies>
    </dependencyManagement>
</project>
"#;
    let deps = parse_pom(&parser, pom);
    assert_eq!(deps.len(), 1, "depMgmt deps with versions should be parsed");
    assert_eq!(deps[0].version, "3.0");
}

#[test]
fn test_parse_plugin_dependencies_ignored() {
    let parser = MavenParser::new();
    let pom = r#"<?xml version="1.0"?>
<project>
    <build>
        <plugins>
            <plugin>
                <groupId>org.apache.maven.plugins</groupId>
                <artifactId>maven-compiler-plugin</artifactId>
                <version>3.11.0</version>
                <dependencies>
                    <dependency>
                        <groupId>ignored</groupId>
                        <artifactId>ignored</artifactId>
                        <version>0.1</version>
                    </dependency>
                </dependencies>
            </plugin>
        </plugins>
    </build>
    <dependencies>
        <dependency>
            <groupId>g</groupId>
            <artifactId>a</artifactId>
            <version>1.0</version>
        </dependency>
    </dependencies>
</project>
"#;
    let deps = parse_pom(&parser, pom);
    // Only the top-level <dependencies>/<dependency> should be captured.
    assert_eq!(deps.len(), 1);
    assert_eq!(deps[0].name, "g:a");
}

#[test]
fn test_parse_invalid_xml_returns_empty() {
    let parser = MavenParser::new();
    let bad = "<project><dependencies><dependency>";
    let deps = parse_pom(&parser, bad);
    assert!(deps.is_empty());
}

#[test]
fn test_parse_position_tracking() {
    let parser = MavenParser::new();
    let pom = r#"<?xml version="1.0"?>
<project>
    <dependencies>
        <dependency>
            <groupId>g</groupId>
            <artifactId>a</artifactId>
            <version>1.2.3</version>
        </dependency>
    </dependencies>
</project>
"#;
    let deps = parse_pom(&parser, pom);
    assert_eq!(deps.len(), 1);
    // The version line should be zero-indexed; the exact line varies with the raw string,
    // so we just sanity-check it is non-zero and the span is reasonable.
    assert!(
        deps[0].version_span.line > 0,
        "line should be tracked (got {})",
        deps[0].version_span.line
    );
    assert!(
        deps[0].version_span.line_end > deps[0].version_span.line_start,
        "version span should be non-empty"
    );
}

#[test]
fn test_parse_default_namespace() {
    let parser = MavenParser::new();
    let pom = r#"<?xml version="1.0" encoding="UTF-8"?>
<project xmlns="http://maven.apache.org/POM/4.0.0"
         xmlns:xsi="http://www.w3.org/2001/XMLSchema-instance"
         xsi:schemaLocation="http://maven.apache.org/POM/4.0.0 http://maven.apache.org/xsd/maven-4.0.0.xsd">
    <modelVersion>4.0.0</modelVersion>
    <groupId>com.example</groupId>
    <artifactId>app</artifactId>
    <version>1.0.0</version>
    <dependencies>
        <dependency>
            <groupId>org.slf4j</groupId>
            <artifactId>slf4j-api</artifactId>
            <version>1.7.30</version>
        </dependency>
    </dependencies>
</project>
"#;
    let deps = parse_pom(&parser, pom);
    assert_eq!(deps.len(), 1, "default xmlns should parse one dependency");
    assert_eq!(deps[0].name, "org.slf4j:slf4j-api");
    assert_eq!(deps[0].version, "1.7.30");
}

#[test]
fn test_parse_prefixed_namespace() {
    let parser = MavenParser::new();
    let pom = r#"<?xml version="1.0" encoding="UTF-8"?>
<m:project xmlns:m="http://maven.apache.org/POM/4.0.0">
    <m:modelVersion>4.0.0</m:modelVersion>
    <m:groupId>com.example</m:groupId>
    <m:artifactId>app</m:artifactId>
    <m:version>1.0.0</m:version>
    <m:dependencies>
        <m:dependency>
            <m:groupId>org.slf4j</m:groupId>
            <m:artifactId>slf4j-api</m:artifactId>
            <m:version>1.7.30</m:version>
        </m:dependency>
    </m:dependencies>
</m:project>
"#;
    let deps = parse_pom(&parser, pom);
    assert_eq!(
        deps.len(),
        1,
        "prefixed namespace should parse one dependency"
    );
    assert_eq!(deps[0].name, "org.slf4j:slf4j-api");
    assert_eq!(deps[0].version, "1.7.30");
}

#[test]
fn test_parse_prefixed_namespace_with_property_substitution() {
    let parser = MavenParser::new();
    let pom = r#"<?xml version="1.0" encoding="UTF-8"?>
<m:project xmlns:m="http://maven.apache.org/POM/4.0.0">
    <m:modelVersion>4.0.0</m:modelVersion>
    <m:properties>
        <m:slf4j.version>1.7.30</m:slf4j.version>
    </m:properties>
    <m:dependencies>
        <m:dependency>
            <m:groupId>org.slf4j</m:groupId>
            <m:artifactId>slf4j-api</m:artifactId>
            <m:version>${slf4j.version}</m:version>
        </m:dependency>
    </m:dependencies>
</m:project>
"#;
    let deps = parse_pom(&parser, pom);
    assert_eq!(deps.len(), 1);
    assert_eq!(deps[0].version, "${slf4j.version}");
    assert_eq!(
        deps[0].resolved_version.as_deref(),
        Some("1.7.30"),
        "property substitution should work under prefixed namespace"
    );
}

fn props(pairs: &[(&str, &str)]) -> LockMap {
    let mut m = LockMap::new();
    for (k, v) in pairs {
        m.insert(k.to_string(), v.to_string());
    }
    m
}

#[test]
fn substitute_once_replaces_known_and_keeps_unknown() {
    let p = props(&[("a", "1"), ("b", "${a}")]);
    assert_eq!(substitute_once("x${a}y${zz}z", &p), "x1y${zz}z");
    assert_eq!(substitute_once("${b}", &p), "${a}");
    assert_eq!(substitute_once("pre${unterminated", &p), "pre${unterminated");
    assert_eq!(substitute_once("plain", &p), "plain");
}

#[test]
fn substitute_reaches_fixed_point_through_nesting() {
    let p = props(&[("a", "1"), ("b", "${a}"), ("c", "${b}.${b}")]);
    assert_eq!(substitute("${c}", &p), "1.1");
    assert_eq!(substitute("v${missing}", &p), "v${missing}");
}

#[test]
fn substitute_without_placeholder_or_properties_is_identity() {
    let empty = LockMap::new();
    assert_eq!(substitute("${a}", &empty), "${a}");
    let p = props(&[("a", "1")]);
    assert_eq!(substitute("1.0", &p), "1.0");
}

#[test]
fn substitute_circular_reference_stops() {
    let p = props(&[("a", "${b}"), ("b", "${a}")]);
    // Eight passes alternate between the two placeholders, ending on `${a}`.
    assert_eq!(substitute("${a}", &p), "${a}");
}

#[test]
fn line_offsets_and_positions() {
    let offs = line_offsets("ab\ncd\n\nx");
    assert_eq!(offs, vec![0, 3, 6, 7]);
    assert_eq!(offset_to_position(&offs, 0), (0, 0));
    assert_eq!(offset_to_position(&offs, 4), (1, 1));
    assert_eq!(offset_to_position(&offs, 6), (2, 0));
    assert_eq!(offset_to_position(&offs, 8), (3, 1));
}

#[test]
fn trimmed_span_drops_surrounding_whitespace() {
    let b = b"<v>  1.0 \n</v>";
    // The text `  1.0 \n` starts at 3 and ends at 10.
    assert_eq!(trimmed_span(b, 10, 7), (5, 8));
    assert_eq!(trimmed_span(b, 10, 20), (0, 8));
    assert_eq!(trimmed_span(b"   ", 3, 3), (3, 3));
}

#[test]
fn extract_properties_reads_properties_and_builtins() {
    let pom = "<project><groupId>g</groupId><version>2.0</version>\
<properties><x.y>7</x.y></properties>\
<dependencies><dependency><version>9</version></dependency></dependencies></project>";
    let p = extract_properties(pom);
    assert_eq!(p.get("x.y").map(|s| s.as_str()), Some("7"));
    assert_eq!(p.get("project.version").map(|s| s.as_str()), Some("2.0"));
    assert_eq!(p.get("project.groupId").map(|s| s.as_str()), Some("g"));
    assert_eq!(p.len(), 3);
}

#[test]
fn extract_properties_of_broken_xml_is_empty() {
    let events = vec![
        XmlEvent::Start { local_name: "project".to_string() },
        XmlEvent::Start { local_name: "properties".to_string() },
        XmlEvent::Start { local_name: "a".to_string() },
        XmlEvent::Text { text: "1".to_string(), end: 0 },
        XmlEvent::Error,
    ];
    assert!(extract_properties_from_events(&events).is_empty());
}

#[test]
fn maven_project_version_and_unresolved_placeholder() {
    let parser = MavenParser::new();
    let pom = "<project><version>3.1</version><dependencies>\
<dependency><groupId>g</groupId><artifactId>a</artifactId><version>${project.version}</version></dependency>\
<dependency><groupId>g</groupId><artifactId>b</artifactId><version>${nope}</version><scope>test</scope></dependency>\
</dependencies></project>";
    let deps = parse_pom(&parser, pom);
    assert_eq!(deps.len(), 2);
    assert_eq!(deps[0].version, "${project.version}");
    assert_eq!(deps[0].resolved_version.as_deref(), Some("3.1"));
    assert!(!deps[0].dev);
    assert_eq!(deps[1].name, "g:b");
    assert_eq!(deps[1].version, "${nope}");
    assert_eq!(deps[1].resolved_version, None);
    assert!(deps[1].dev);
}

#[test]
fn maven_spans_point_at_trimmed_text() {
    let parser = MavenParser::new();
    let pom = "<project><dependencies><dependency>\n<groupId>g</groupId>\n<artifactId> a </artifactId>\n<version>1.0</version>\n</dependency></dependencies></project>";
    let deps = parse_pom(&parser, pom);
    assert_eq!(deps.len(), 1);
    assert_eq!(deps[0].name, "g:a");
    assert_eq!(deps[0].name_span.line, 2);
    assert_eq!(deps[0].name_span.line_start, 13);
    assert_eq!(deps[0].name_span.line_end, 14);
    assert_eq!(deps[0].version_span.line, 3);
    assert_eq!(deps[0].version_span.line_start, 9);
    assert_eq!(deps[0].version_span.line_end, 12);
}

#[test]
fn maven_empty_group_is_skipped() {
    let parser = MavenParser::new();
    let pom = "<project><dependencies><dependency><groupId></groupId><artifactId>a</artifactId>\
<version>1</version></dependency></dependencies></project>";
    assert!(parse_pom(&parser, pom).is_empty());
}

