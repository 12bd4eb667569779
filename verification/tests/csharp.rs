use depsy_lsp::parsers::Parser;
use depsy_lsp::parsers::csharp::CsharpParser;
use depsy_lsp::parsers::{Dependency, Span};



fn parse_manifest(parser: &CsharpParser, content: &str) -> Vec<Dependency> {
    parser.parse(content)
}

fn span_text(content: &str, span: Span) -> &str {
    let line = content.lines().nth(span.line as usize).unwrap();
    &line[span.line_start as usize..span.line_end as usize]
}

fn assert_dependency(
    content: &str,
    dependency: &Dependency,
    name: &str,
    version: &str,
    dev: bool,
) {
    assert_eq!(dependency.name, name);
    assert_eq!(dependency.version, version);
    assert_eq!(span_text(content, dependency.name_span), name);
    assert_eq!(span_text(content, dependency.version_span), version);
    assert_eq!(dependency.dev, dev);
    assert!(!dependency.optional);
    assert_eq!(dependency.registry, None);
    assert_eq!(dependency.resolved_version, None);
    assert!(!dependency.has_additional_version_constraints);
}

#[test]
fn test_parse_attribute_forms() {
    let cases = [
        (
            r#"<Project><PackageReference Include="Package" Version="1.2.3" /></Project>"#,
            false,
        ),
        (
            r#"<Project><PackageVersion Include="Package" Version="1.2.3" /></Project>"#,
            false,
        ),
        (
            r#"<Project><PackageVersion Update="Package" Version="1.2.3" /></Project>"#,
            false,
        ),
        (
            r#"<Project><PackageVersion Include="Package" Update="Other" Version="1.2.3" /></Project>"#,
            false,
        ),
        (
            r#"<Project><GlobalPackageReference Include="Package" Version="1.2.3" /></Project>"#,
            true,
        ),
        (
            r#"<Project><PackageVersion Include = 'Package' Version = '1.2.3' /></Project>"#,
            false,
        ),
        (
            r#"<Project><PackageVersion Version="1.2.3" Include="Package" /></Project>"#,
            false,
        ),
    ];

    let parser = CsharpParser::new();
    for (content, dev) in cases {
        let dependencies = parse_manifest(&parser, content);
        assert_eq!(dependencies.len(), 1, "failed to parse {content}");
        assert_dependency(content, &dependencies[0], "Package", "1.2.3", dev);
    }
}

#[test]
fn test_parse_multiline_start_tag() {
    let content = r#"<Project>
  <PackageVersion
    Include="Package"
    Version="1.2.3" />
</Project>"#;

    let dependencies = parse_manifest(&CsharpParser::new(), content);

    assert_eq!(dependencies.len(), 1);
    assert_dependency(content, &dependencies[0], "Package", "1.2.3", false);
}

#[test]
fn test_ignore_package_declaration_in_comment() {
    let content =
        r#"<Project><!-- <PackageReference Include="Package" Version="1.2.3" /> --></Project>"#;

    assert!(parse_manifest(&CsharpParser::new(), content).is_empty());
}

#[test]
fn test_skip_empty_or_multiline_attribute_values() {
    for content in [
        r#"<Project><PackageReference Include="" Version="1.2.3" /></Project>"#,
        r#"<Project><PackageReference Include="Package" Version="" /></Project>"#,
        "<Project><PackageReference Include=\"Package\" Version=\"1.2\n.3\" /></Project>",
    ] {
        assert!(
            parse_manifest(&CsharpParser::new(), content).is_empty(),
            "unexpected dependency from {content}"
        );
    }
}

#[test]
fn test_attribute_value_positions() {
    let content = r#"<PackageVersion Include="Package" Version="1.2.3" />"#;

    let dependencies = parse_manifest(&CsharpParser::new(), content);

    assert_eq!(dependencies.len(), 1);
    let dependency = &dependencies[0];
    assert_eq!(dependency.name_span.line, 0);
    assert_eq!(dependency.name_span.line_start, 25);
    assert_eq!(dependency.name_span.line_end, 32);
    assert_eq!(dependency.version_span.line, 0);
    assert_eq!(dependency.version_span.line_start, 43);
    assert_eq!(dependency.version_span.line_end, 48);
    assert_dependency(content, dependency, "Package", "1.2.3", false);
}

#[test]
fn test_parse_self_closing() {
    let content = r#"
<Project Sdk="Microsoft.NET.Sdk">
  <PropertyGroup>
    <TargetFramework>net8.0</TargetFramework>
  </PropertyGroup>
  <ItemGroup>
    <PackageReference Include="Newtonsoft.Json" Version="13.0.3" />
    <PackageReference Include="Serilog" Version="3.1.1" />
  </ItemGroup>
</Project>
"#;
    let parser = CsharpParser::new();
    let deps = parse_manifest(&parser, content);

    assert_eq!(deps.len(), 2);

    let newtonsoft = deps.iter().find(|d| d.name == "Newtonsoft.Json").unwrap();
    assert_eq!(newtonsoft.version, "13.0.3");

    let serilog = deps.iter().find(|d| d.name == "Serilog").unwrap();
    assert_eq!(serilog.version, "3.1.1");
}

#[test]
fn test_parse_expanded_format() {
    let content = r#"<Project>
  <PackageReference Include="Package">
    <Version>1.2.3</Version>
  </PackageReference>
  <PackageVersion Update="Central.Package">
    <Version>
      2.3.4
    </Version>
  </PackageVersion>
  <GlobalPackageReference Include="Global.Package">
    <Version>3.4.5</Version>
  </GlobalPackageReference>
  <PackageVersion Include="Attribute.Package" Version="4.5.6"></PackageVersion>
</Project>"#;

    let dependencies = parse_manifest(&CsharpParser::new(), content);

    assert_eq!(dependencies.len(), 4);
    assert_dependency(content, &dependencies[0], "Package", "1.2.3", false);
    assert_dependency(content, &dependencies[1], "Central.Package", "2.3.4", false);
    assert_dependency(content, &dependencies[2], "Global.Package", "3.4.5", true);
    assert_dependency(
        content,
        &dependencies[3],
        "Attribute.Package",
        "4.5.6",
        false,
    );
    assert_eq!(dependencies[1].version_span.line, 6);
    assert_eq!(dependencies[1].version_span.line_start, 6);
    assert_eq!(dependencies[1].version_span.line_end, 11);
}

#[test]
fn test_skip_unsafe_declarations() {
    for content in [
        r#"<Project><PackageReference Include="Package" /></Project>"#,
        r#"<Project><PackageVersion Include="Package" /></Project>"#,
        r#"<Project><PackageReference Version="1.2.3" /></Project>"#,
        r#"<Project><PackageVersion Version="1.2.3" /></Project>"#,
        r#"<Project><PackageVersion Include="" Version="1.2.3" /></Project>"#,
        r#"<Project><PackageVersion Update="" Version="1.2.3" /></Project>"#,
        r#"<Project><PackageVersion Include="Package" Version="" /></Project>"#,
        r#"<Project><PackageVersion Include="Package" Version="   " /></Project>"#,
        r#"<Project><PackageReference Update="Package" Version="1.2.3" /></Project>"#,
        r#"<Project><PackageReference Include="Package" Update="Other" Version="1.2.3" /></Project>"#,
        r#"<Project><GlobalPackageReference Include="Package" Update="Other" Version="1.2.3" /></Project>"#,
        r#"<Project><PackageReference Include="Package" Version="$(PackageVersion)" /></Project>"#,
        r#"<Project><PackageReference Include="Package" Version="@(PackageVersions)" /></Project>"#,
        r#"<Project><PackageReference Include="Package" Version="%(Version)" /></Project>"#,
        r#"<Project><PackageReference Include="Package"><Version>$(PackageVersion)</Version></PackageReference></Project>"#,
        r#"<Project><PackageReference Include="Package"><Metadata><Version>1.2.3</Version></Metadata></PackageReference></Project>"#,
        r#"<Project><PackageReference Include="Package"><Version>  </Version></PackageReference></Project>"#,
        r#"<Project><PackageReference Include="Package"><Version>1<!-- split -->.2.3</Version></PackageReference></Project>"#,
        r#"<Project><PackageReference Include="Package"><Version>1&#46;2.3</Version></PackageReference></Project>"#,
        r#"<Project><PackageReference Include="Package"><Version>1<Metadata/>.2.3</Version></PackageReference></Project>"#,
        r#"<Project><PackageReference Include="Package"><Version>1<![CDATA[.2]]>.3</Version></PackageReference></Project>"#,
        r#"<Project><PackageReference Include="Package"><Version>1<?split data?>.2.3</Version></PackageReference></Project>"#,
    ] {
        assert!(
            parse_manifest(&CsharpParser::new(), content).is_empty(),
            "unexpected dependency from {content}"
        );
    }
}

#[test]
fn test_skip_indirect_package_names() {
    for content in [
        r#"<Project><PackageReference Include="$(PackageName)" Version="1.2.3" /></Project>"#,
        r#"<Project><PackageReference Include="@(PackageNames)" Version="1.2.3" /></Project>"#,
        r#"<Project><PackageReference Include="%(Identity)" Version="1.2.3" /></Project>"#,
        r#"<Project><PackageVersion Update="$(PackageName)" Version="1.2.3" /></Project>"#,
    ] {
        assert!(
            parse_manifest(&CsharpParser::new(), content).is_empty(),
            "unexpected dependency from {content}"
        );
    }
}

#[test]
fn test_malformed_xml_returns_no_partial_dependencies() {
    let unclosed = r#"<Project>
  <PackageVersion Include="First" Version="1.0.0" />
  <PackageVersion Include="Second" Version="2.0.0">"#;
    let malformed_attribute = r#"<Project broken=unquoted>
  <PackageVersion Include="First" Version="1.0.0" />
</Project>"#;
    let malformed_package_attribute = r#"<Project>
  <PackageVersion Include="First" Version="1.0.0" broken=unquoted />
</Project>"#;
    let duplicate_package_attribute = r#"<Project>
  <PackageVersion Include="First" Include="Second" Version="1.0.0" />
</Project>"#;
    let multiple_roots = r#"<Project>
  <PackageVersion Include="First" Version="1.0.0" />
</Project><Extra />"#;
    let invalid_comment = r#"<Project>
  <!-- invalid -- comment -->
  <PackageVersion Include="First" Version="1.0.0" />
</Project>"#;
    let declaration_in_version = r#"<Project>
  <PackageVersion Include="First"><Version>1.0<?xml version="1.0"?>.0</Version></PackageVersion>
</Project>"#;
    let doctype_in_version = r#"<Project>
  <PackageVersion Include="First"><Version>1.0<!DOCTYPE Project>.0</Version></PackageVersion>
</Project>"#;
    let duplicate_doctype = r#"<!DOCTYPE Project><!DOCTYPE Project><Project>
  <PackageVersion Include="First" Version="1.0.0" />
</Project>"#;
    let declaration_after_whitespace = r#"
<?xml version="1.0"?><Project>
  <PackageVersion Include="First" Version="1.0.0" />
</Project>"#;
    let undefined_entity = r#"<Project>&undefined;
  <PackageVersion Include="First" Version="1.0.0" />
</Project>"#;
    let uppercase_hex_reference = r#"<Project><Description>&#X41;</Description>
  <PackageVersion Include="First" Version="1.0.0" />
</Project>"#;
    let signed_character_reference = r#"<Project><Description>&#+65;</Description>
  <PackageVersion Include="First" Version="1.0.0" />
</Project>"#;
    let illegal_xml_character = r#"<Project><Description>&#1;</Description>
  <PackageVersion Include="First" Version="1.0.0" />
</Project>"#;
    let incomplete_declaration = r#"<?xml?><Project>
  <PackageVersion Include="First" Version="1.0.0" />
</Project>"#;
    let invalid_declaration_value = r#"<?xml version="1.0" standalone="maybe"?><Project>
  <PackageVersion Include="First" Version="1.0.0" />
</Project>"#;
    let unsupported_doctype = r#"<!DOCTYPE Project><Project>
  <PackageVersion Include="First" Version="1.0.0" />
</Project>"#;

    for content in [
        unclosed,
        malformed_attribute,
        malformed_package_attribute,
        duplicate_package_attribute,
        multiple_roots,
        invalid_comment,
        declaration_in_version,
        doctype_in_version,
        duplicate_doctype,
        declaration_after_whitespace,
        undefined_entity,
        uppercase_hex_reference,
        signed_character_reference,
        illegal_xml_character,
        incomplete_declaration,
        invalid_declaration_value,
        unsupported_doctype,
    ] {
        assert!(
            parse_manifest(&CsharpParser::new(), content).is_empty(),
            "unexpected dependency from malformed XML: {content}"
        );
    }
}

#[test]
fn test_accept_valid_xml_prolog() {
    let content = r#"<?xml version="1.0" encoding="UTF-8" standalone="yes"?><Project>
  <Description>&amp;&#46;&#x2E;</Description>
  <PackageVersion Include="Package" Version="1.2.3" />
</Project>"#;

    let dependencies = parse_manifest(&CsharpParser::new(), content);

    assert_eq!(dependencies.len(), 1);
    assert_dependency(content, &dependencies[0], "Package", "1.2.3", false);
}

#[test]
fn test_preserve_conditional_declarations_in_source_order() {
    let content = r#"<Project>
  <ItemGroup Condition="'$(TargetFramework)' == 'net8.0'">
    <PackageVersion Include="Package" Version="1.0.0" />
  </ItemGroup>
  <ItemGroup Condition="'$(TargetFramework)' == 'net9.0'">
    <PackageVersion Include="Package" Version="2.0.0" />
  </ItemGroup>
</Project>"#;

    let dependencies = parse_manifest(&CsharpParser::new(), content);

    assert_eq!(dependencies.len(), 2);
    assert_dependency(content, &dependencies[0], "Package", "1.0.0", false);
    assert_dependency(content, &dependencies[1], "Package", "2.0.0", false);
}

#[test]
fn csharp_test_version_positions() {
    let content = r#"
<Project>
  <ItemGroup>
    <PackageReference Include="Serilog" Version="3.1.1" />
  </ItemGroup>
</Project>
"#;
    let parser = CsharpParser::new();
    let deps = parse_manifest(&parser, content);

    assert_eq!(deps.len(), 1);
    let dep = &deps[0];
    assert!(dep.version_span.line_start > dep.name_span.line_end);
}

#[test]
fn test_skip_no_version() {
    let content = r#"
<Project Sdk="Microsoft.NET.Sdk">
  <ItemGroup>
    <PackageReference Include="Newtonsoft.Json" />
    <PackageReference Include="Serilog" Version="3.1.1" />
  </ItemGroup>
</Project>
"#;
    let parser = CsharpParser::new();
    let deps = parse_manifest(&parser, content);

    // Should only find Serilog (Newtonsoft.Json has no version)
    assert_eq!(deps.len(), 1);
    assert_eq!(deps[0].name, "Serilog");
}

#[test]
fn test_multiple_item_groups() {
    let content = r#"
<Project Sdk="Microsoft.NET.Sdk">
  <ItemGroup>
    <PackageReference Include="Package1" Version="1.0.0" />
  </ItemGroup>
  <ItemGroup Condition="'$(Configuration)'=='Debug'">
    <PackageReference Include="Package2" Version="2.0.0" />
  </ItemGroup>
</Project>
"#;
    let parser = CsharpParser::new();
    let deps = parse_manifest(&parser, content);

    assert_eq!(deps.len(), 2);
}

#[test]
fn csharp_empty_or_rootless_documents_yield_nothing() {
    let parser = CsharpParser::new();
    assert!(parse_manifest(&parser, "").is_empty());
    assert!(parse_manifest(&parser, "   ").is_empty());
    assert!(parse_manifest(&parser, "x<Project/>").is_empty());
}

#[test]
fn csharp_predefined_entities_are_accepted() {
    let parser = CsharpParser::new();
    let content = "<Project><Description>&lt;&gt;&quot;&apos;&amp;</Description>\
<PackageReference Include=\"P\" Version=\"1.0\" /></Project>";
    let deps = parse_manifest(&parser, content);
    assert_eq!(deps.len(), 1);
    assert_eq!(deps[0].name, "P");
    assert_eq!(deps[0].name_span.line_start, 88);
}

#[test]
fn csharp_unclosed_version_child_is_rejected() {
    let parser = CsharpParser::new();
    let content = "<Project><PackageReference Include=\"P\"><Version>1.0</Other></PackageReference></Project>";
    assert!(parse_manifest(&parser, content).is_empty());
}
