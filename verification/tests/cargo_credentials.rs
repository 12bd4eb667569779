use depsy_lsp::auth::cargo_credentials::parse_credentials_content;




#[test]
fn test_parse_credentials() {
    let content = r#"
[registries.my-registry]
token = "secret_token_123"

[registries.another-registry]
token = "another_secret"
"#;

    let result = parse_credentials_content(content);

    assert_eq!(result.len(), 2);
    assert_eq!(
        result.get("my-registry"),
        Some(&"secret_token_123".to_string())
    );
    assert_eq!(
        result.get("another-registry"),
        Some(&"another_secret".to_string())
    );
}

#[test]
fn test_parse_empty_credentials() {
    let content = "";
    let result = parse_credentials_content(content);
    assert!(result.is_empty());
}

#[test]
fn test_parse_no_registries() {
    let content = r#"
[net]
git-fetch-with-cli = true
"#;
    let result = parse_credentials_content(content);
    assert!(result.is_empty());
}

#[test]
fn test_parse_registry_without_token() {
    let content = r#"
[registries.my-registry]
# token not set
"#;
    let result = parse_credentials_content(content);
    assert!(result.is_empty());
}

#[test]
fn test_parse_mixed_registries() {
    let content = r#"
[registries.with-token]
token = "has_token"

[registries.without-token]
# no token here
"#;
    let result = parse_credentials_content(content);
    assert_eq!(result.len(), 1);
    assert_eq!(result.get("with-token"), Some(&"has_token".to_string()));
}

#[test]
fn credentials_malformed_entry_gives_nothing() {
    let content = "[registries.a]\ntoken = \"t\"\n[registries.b]\ntoken = 5\n";
    assert!(parse_credentials_content(content).is_empty());
    assert!(parse_credentials_content("registries = 3").is_empty());
    assert!(parse_credentials_content("not toml [").is_empty());
}
