use depsy_lsp::auth::npmrc::{parse_registry_from_content, parse_token_from_content};


#[test]
fn test_parse_direct_token() {
    let content = "_authToken=npm_abc123";
    assert_eq!(
        parse_token_from_content(content, &[]),
        Some("npm_abc123".to_string())
    );
}

#[test]
fn test_parse_registry_scoped_token() {
    let content = "//npm.company.com/:_authToken=npm_xyz789";
    assert_eq!(
        parse_token_from_content(content, &[]),
        Some("npm_xyz789".to_string())
    );
}

#[test]
fn test_skip_comments() {
    let content = r#"
# This is a comment
; Another comment
_authToken=real_token
"#;
    assert_eq!(
        parse_token_from_content(content, &[]),
        Some("real_token".to_string())
    );
}

#[test]
fn test_parse_registry_url() {
    let content = "registry=https://npm.company.com";
    assert_eq!(
        parse_registry_from_content(content),
        Some("https://npm.company.com".to_string())
    );
}

#[test]
fn test_parse_registry_with_other_config() {
    let content = r#"
# npm config
registry=https://private.registry.com
_authToken=secret
save-exact=true
"#;
    assert_eq!(
        parse_registry_from_content(content),
        Some("https://private.registry.com".to_string())
    );
}

#[test]
fn test_missing_token_returns_none() {
    let content = "registry=https://example.com";
    assert_eq!(parse_token_from_content(content, &[]), None);
}

#[test]
fn test_missing_env_var_returns_none() {
    let content = "_authToken=${NONEXISTENT_VAR_12345}";
    assert_eq!(parse_token_from_content(content, &[]), None);
}

#[test]
fn env_reference_with_braces_resolves_from_given_environment() {
    let env = vec![("TEST_NPM_TOKEN".to_string(), "env_token_value".to_string())];
    let content = "_authToken=${TEST_NPM_TOKEN}";
    assert_eq!(
        parse_token_from_content(content, &env),
        Some("env_token_value".to_string())
    );
}

#[test]
fn env_reference_without_braces_resolves_from_given_environment() {
    let env = vec![("TEST_NPM_TOKEN2".to_string(), "env_value2".to_string())];
    let content = "_authToken=$TEST_NPM_TOKEN2";
    assert_eq!(
        parse_token_from_content(content, &env),
        Some("env_value2".to_string())
    );
}

#[test]
fn unterminated_brace_reference_is_kept_literally() {
    assert_eq!(
        parse_token_from_content("_authToken=${OPEN", &[]),
        Some("${OPEN".to_string())
    );
}

#[test]
fn empty_registry_value_is_skipped() {
    let content = "registry=\nregistry=https://second.example.com";
    assert_eq!(
        parse_registry_from_content(content),
        Some("https://second.example.com".to_string())
    );
}
