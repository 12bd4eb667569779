use depsy_lsp::config::{
    is_package_ignored, AuthConfig, MavenRegistryConfig, AdvisoryCacheConfig, CacheConfig, DiagnosticsConfig, InlayHintsConfig,
    SecurityConfig, VulnerabilitySeverity, DEFAULT_CACHE_TTL_SECS, DEFAULT_DEBOUNCE_MS, DEFAULT_VULN_CACHE_TTL_SECS,
};


#[test]
fn test_security_config_defaults() {
    let config = SecurityConfig::default();
    assert!(config.enabled);
    assert!(config.show_in_hints);
    assert!(config.show_diagnostics);
    assert_eq!(config.min_severity, "low");
    assert_eq!(config.cache_ttl_secs, DEFAULT_VULN_CACHE_TTL_SECS);
}

#[test]
fn test_min_severity_level_parsing() {
    let config = SecurityConfig {
        min_severity: "low".to_string(),
        ..Default::default()
    };
    assert_eq!(config.min_severity_level(), VulnerabilitySeverity::Low);

    let config = SecurityConfig {
        min_severity: "medium".to_string(),
        ..Default::default()
    };
    assert_eq!(config.min_severity_level(), VulnerabilitySeverity::Medium);

    let config = SecurityConfig {
        min_severity: "high".to_string(),
        ..Default::default()
    };
    assert_eq!(config.min_severity_level(), VulnerabilitySeverity::High);

    let config = SecurityConfig {
        min_severity: "critical".to_string(),
        ..Default::default()
    };
    assert_eq!(config.min_severity_level(), VulnerabilitySeverity::Critical);
}

#[test]
fn test_cache_config_defaults() {
    let config = CacheConfig::default();
    assert_eq!(config.ttl_secs, DEFAULT_CACHE_TTL_SECS);
    assert_eq!(config.debounce_ms, DEFAULT_DEBOUNCE_MS);
}

#[test]
fn test_diagnostics_config_defaults() {
    let config = DiagnosticsConfig::default();
    assert!(config.enabled);
}

#[test]
fn test_inlay_hints_config_defaults() {
    let config = InlayHintsConfig::default();
    assert!(config.enabled);
    assert!(config.show_up_to_date);
}

#[test]
fn test_is_package_ignored_exact_match() {
    let patterns = vec!["lodash".to_string(), "react".to_string()];
    assert!(is_package_ignored("lodash", &patterns));
    assert!(is_package_ignored("react", &patterns));
    assert!(!is_package_ignored("vue", &patterns));
}

#[test]
fn test_is_package_ignored_prefix_wildcard() {
    let patterns = vec!["@company/*".to_string()];
    assert!(is_package_ignored("@company/utils", &patterns));
    assert!(is_package_ignored("@company/", &patterns));
    assert!(!is_package_ignored("@other/utils", &patterns));
}

#[test]
fn test_is_package_ignored_suffix_wildcard() {
    let patterns = vec!["*-test".to_string()];
    assert!(is_package_ignored("foo-test", &patterns));
    assert!(is_package_ignored("-test", &patterns));
    assert!(!is_package_ignored("foo-prod", &patterns));
}

#[test]
fn test_is_package_ignored_both_wildcards() {
    let patterns = vec!["internal-*-lib".to_string()];
    assert!(is_package_ignored("internal-foo-lib", &patterns));
    assert!(is_package_ignored("internal--lib", &patterns));
    assert!(!is_package_ignored("external-foo-lib", &patterns));
}

#[test]
fn test_is_package_ignored_empty_patterns() {
    let patterns: Vec<String> = vec![];
    assert!(!is_package_ignored("lodash", &patterns));
}

#[test]
fn test_is_package_ignored_multiple_wildcards_falls_back_to_prefix() {
    let patterns = vec!["a-*-b-*-c".to_string()];
    assert!(is_package_ignored("a-anything", &patterns));
    assert!(!is_package_ignored("b-anything", &patterns));
}

#[test]
fn test_is_package_ignored_bare_wildcard_matches_all() {
    // Documented sharp edge: bare "*" matches every name.
    let patterns = vec!["*".to_string()];
    assert!(is_package_ignored("anything", &patterns));
    assert!(is_package_ignored("", &patterns));
}

#[test]
fn test_is_package_ignored_prefix_suffix_overlap_with_empty_middle() {
    // Pattern "prefix*suffix" matches when prefix and suffix overlap to zero middle chars.
    let patterns = vec!["internal-*-lib".to_string()];
    assert!(is_package_ignored("internal--lib", &patterns));
}

#[test]
fn test_is_package_ignored_empty_pattern_string_matches_only_empty_name() {
    // An empty-string pattern is an exact-match for the empty name.
    let patterns = vec!["".to_string()];
    assert!(is_package_ignored("", &patterns));
    assert!(!is_package_ignored("anything", &patterns));
}

#[test]
fn defaults_match_design_spec() {
    let cfg = AdvisoryCacheConfig::default();
    assert!(cfg.enabled);
    assert_eq!(cfg.ttl_secs, 86_400);
    assert_eq!(cfg.negative_ttl_secs, 3_600);
    assert!(cfg.db_path.is_none());
}

#[test]
fn test_auth_config_defaults() {
    let config = AuthConfig::default();
    assert_eq!(config.auth_type, "");
    assert_eq!(config.variable, "");
    assert!(!config.is_configured());
    assert!(config.get_token(&[]).is_none());
}

#[test]
fn test_maven_registry_config_default() {
    let config = MavenRegistryConfig::default();
    assert_eq!(config.url, "https://repo1.maven.org/maven2");
}

#[test]
fn auth_config_token_from_environment() {
    let env = vec![
        ("OTHER".to_string(), "x".to_string()),
        ("TEST_AUTH_TOKEN".to_string(), "secret123".to_string()),
    ];
    let config = AuthConfig { auth_type: "env".to_string(), variable: "TEST_AUTH_TOKEN".to_string() };
    assert!(config.is_configured());
    assert_eq!(config.get_token(&env), Some("secret123".to_string()));
    let missing = AuthConfig { auth_type: "env".to_string(), variable: "NONEXISTENT_TOKEN_12345".to_string() };
    assert!(missing.is_configured());
    assert!(missing.get_token(&env).is_none());
    let unsupported = AuthConfig { auth_type: "file".to_string(), variable: "TEST_AUTH_TOKEN".to_string() };
    assert!(!unsupported.is_configured());
    assert!(unsupported.get_token(&env).is_none());
}
