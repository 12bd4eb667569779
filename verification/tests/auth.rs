use depsy_lsp::auth::{fmt_redact_token, EnvTokenProvider, NoAuthProvider};

fn redact_token(token: &str) -> String {
    fmt_redact_token(token).to_string()
}


#[test]
fn test_redact_token() {
    assert_eq!(redact_token("abc"), "****");
    assert_eq!(redact_token("abcdefgh"), "abcd...");
    assert_eq!(redact_token("npm_1234567890"), "npm_...");
}

#[test]
fn test_redact_token_utf8_safe() {
    // Multi-byte UTF-8 characters should not panic
    assert_eq!(redact_token("日本語テスト"), "日本語テ...");
    assert_eq!(redact_token("🔑🔒🔓🔐secret"), "🔑🔒🔓🔐...");
    assert_eq!(redact_token("émojis"), "émoj...");
    // Short multi-byte tokens should be fully redacted
    assert_eq!(redact_token("日本"), "****");
    assert_eq!(redact_token("🔑🔒"), "****");
}

#[test]
fn redact_token_boundary_lengths() {
    assert_eq!(redact_token(""), "****");
    assert_eq!(redact_token("abcd"), "****");
    assert_eq!(redact_token("abcde"), "abcd...");
}

#[test]
fn providers_can_be_constructed() {
    let _provider = EnvTokenProvider::new("test_token".to_string());
    let _none = NoAuthProvider;
}

#[test]
fn manager_registers_https_prefixes() {
    let mut manager = depsy_lsp::auth::TokenProviderManager::new();
    manager.register("https://npm.company.com".to_string(), "token123");
    assert!(manager.has_provider("https://npm.company.com"));
    assert_eq!(manager.provider_count(), 1);
}

#[test]
fn manager_rejects_plain_http() {
    let mut manager = depsy_lsp::auth::TokenProviderManager::new();
    manager.register("http://insecure.com".to_string(), "token123");
    assert!(!manager.has_provider("http://insecure.com"));
    assert_eq!(manager.provider_count(), 0);
}

#[test]
fn manager_matches_prefix() {
    let mut manager = depsy_lsp::auth::TokenProviderManager::new();
    manager.register("https://npm.company.com".to_string(), "my_secret_token");
    assert_eq!(
        manager.provider_for("https://npm.company.com/@company/utils"),
        Some(&"my_secret_token")
    );
    assert_eq!(manager.provider_for("https://registry.npmjs.org/lodash"), None);
}

#[test]
fn manager_prefers_longest_prefix() {
    let mut manager = depsy_lsp::auth::TokenProviderManager::new();
    manager.register("https://npm.company.com/@internal".to_string(), "specific_token");
    manager.register("https://npm.company.com".to_string(), "general_token");
    assert_eq!(
        manager.provider_for("https://npm.company.com/@internal/pkg"),
        Some(&"specific_token")
    );
    assert_eq!(manager.provider_for("https://npm.company.com/@public/pkg"), Some(&"general_token"));
}

#[test]
fn manager_second_registration_replaces() {
    let mut manager = depsy_lsp::auth::TokenProviderManager::new();
    manager.register("https://a.example".to_string(), 1);
    manager.register("https://a.example".to_string(), 2);
    assert_eq!(manager.provider_count(), 1);
    assert_eq!(manager.provider_for("https://a.example/x"), Some(&2));
}

#[test]
fn test_env_token_provider_new() {
    let provider = EnvTokenProvider::new("test_token".to_string());
    let headers = provider.get_auth_headers("https://example.com");
    assert!(headers.is_some());
    let headers = headers.unwrap();
    assert_eq!(headers.len(), 1);
    assert_eq!(headers[0].0, "authorization");
    assert_eq!(headers[0].1, "Bearer test_token");
    assert_eq!(provider.authorization_value(), "Bearer test_token");
}

#[test]
fn test_no_auth_provider() {
    let provider = NoAuthProvider;
    assert!(provider.get_auth_headers("https://example.com").is_none());
}

#[test]
fn env_token_with_control_char_gives_no_header() {
    let provider = EnvTokenProvider::new("bad\ntoken".to_string());
    assert!(provider.get_auth_headers("https://example.com").is_none());
    assert_eq!(provider.authorization_value(), "Bearer bad\ntoken");
}
