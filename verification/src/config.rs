//! Configuration values for Depsy LSP and the rules that read them.
//!
//! The settings structs hold plain values; their defaults are stated in the
//! contracts of their `default` functions. Deserialisation from the LSP
//! `initialize` options happens outside this library.

use vstd::prelude::*;
use crate::auth::npmrc::{env_lookup, env_lookup_exec};
use crate::text::{bytes, eq_bytes, subslice, ends_with, ends_with_b, find_b, find_byte, lemma_find_b, ob, sb,
    starts_with, starts_with_b, str_eq, to_owned_string};

verus! {

/// Declares `std::path::PathBuf` to the verifier as an opaque type: paths
/// are only carried through, never inspected.
#[verifier::external_type_specification]
#[verifier::external_body]
pub struct ExPathBuf(std::path::PathBuf);

/// Default cache TTL (1 hour).
pub const DEFAULT_CACHE_TTL_SECS: u64 = 3600;

/// Default vulnerability cache TTL (6 hours).
pub const DEFAULT_VULN_CACHE_TTL_SECS: u64 = 21600;

/// Default debounce delay for did_change notifications (200ms).
pub const DEFAULT_DEBOUNCE_MS: u64 = 200;

/// Inlay hints configuration.
#[derive(Debug, Clone)]
pub struct InlayHintsConfig {
    /// Enable inlay hints.
    pub enabled: bool,
    /// Show hints for up-to-date packages.
    pub show_up_to_date: bool,
}

impl Default for InlayHintsConfig {
    fn default() -> (r: Self)
        ensures
            r.enabled,
            r.show_up_to_date,
    {
        InlayHintsConfig { enabled: true, show_up_to_date: true }
    }
}

/// Diagnostics configuration.
#[derive(Debug, Clone)]
pub struct DiagnosticsConfig {
    /// Enable diagnostics.
    pub enabled: bool,
}

impl Default for DiagnosticsConfig {
    fn default() -> (r: Self)
        ensures
            r.enabled,
    {
        DiagnosticsConfig { enabled: true }
    }
}

/// Cache configuration.
#[derive(Debug, Clone)]
pub struct CacheConfig {
    /// Cache TTL in seconds.
    pub ttl_secs: u64,
    /// Debounce delay for did_change notifications in milliseconds.
    pub debounce_ms: u64,
}

impl Default for CacheConfig {
    fn default() -> (r: Self)
        ensures
            r.ttl_secs == DEFAULT_CACHE_TTL_SECS,
            r.debounce_ms == DEFAULT_DEBOUNCE_MS,
    {
        CacheConfig { ttl_secs: DEFAULT_CACHE_TTL_SECS, debounce_ms: DEFAULT_DEBOUNCE_MS }
    }
}

/// Configuration for the advisory cache.
#[derive(Debug, Clone)]
pub struct AdvisoryCacheConfig {
    /// Enable the cache.
    pub enabled: bool,
    /// Positive cache TTL in seconds.
    pub ttl_secs: u64,
    /// Negative cache TTL in seconds (used for OSV 404 responses).
    pub negative_ttl_secs: u64,
    /// Optional override for the SQLite database path.
    pub db_path: Option<std::path::PathBuf>,
}

impl Default for AdvisoryCacheConfig {
    fn default() -> (r: Self)
        ensures
            r.enabled,
            r.ttl_secs == 86_400,
            r.negative_ttl_secs == 3_600,
            r.db_path is None,
    {
        AdvisoryCacheConfig { enabled: true, ttl_secs: 86_400, negative_ttl_secs: 3_600, db_path: None }
    }
}

/// Severity of a vulnerability, from least to most severe.
#[derive(Debug, Clone, Copy, PartialEq, Eq, Structural)]
pub enum VulnerabilitySeverity {
    Low,
    Medium,
    High,
    Critical,
}

/// `a` equals `b` when ASCII letters are compared without regard to case.
pub open spec fn eq_ignore_ascii_case(a: Seq<u8>, b: Seq<u8>) -> bool {
    a.len() == b.len() && forall|i: int| 0 <= i < a.len() ==> ascii_lower(#[trigger] a[i])
        == ascii_lower(b[i])
}

/// The ASCII lowercase of a byte.
pub open spec fn ascii_lower(x: u8) -> u8 {
    if 'A' as u8 <= x <= 'Z' as u8 {
        (x + 32) as u8
    } else {
        x
    }
}

/// The severity a setting names: `low`, `medium`, `high` or `critical`,
/// in any ASCII case; anything else reads as `Low`.
pub open spec fn severity_of(s: Seq<u8>) -> VulnerabilitySeverity {
    if eq_ignore_ascii_case(s, sb("medium")) {
        VulnerabilitySeverity::Medium
    } else if eq_ignore_ascii_case(s, sb("high")) {
        VulnerabilitySeverity::High
    } else if eq_ignore_ascii_case(s, sb("critical")) {
        VulnerabilitySeverity::Critical
    } else {
        VulnerabilitySeverity::Low
    }
}

fn eq_ignore_case(a: &[u8], b: &[u8]) -> (r: bool)
    ensures
        r == eq_ignore_ascii_case(a@, b@),
{
    if a.len() != b.len() {
        return false;
    }
    let mut i: usize = 0;
    while i < a.len()
        invariant
            a@.len() == b@.len(),
            i <= a@.len(),
            forall|j: int| 0 <= j < i ==> ascii_lower(#[trigger] a@[j]) == ascii_lower(b@[j]),
        decreases a@.len() - i,
    {
        let x = a[i];
        let y = b[i];
        let lx = if x >= 'A' as u8 && x <= 'Z' as u8 { x + 32 } else { x };
        let ly = if y >= 'A' as u8 && y <= 'Z' as u8 { y + 32 } else { y };
        if lx != ly {
            assert(ascii_lower(a@[i as int]) != ascii_lower(b@[i as int]));
            return false;
        }
        i = i + 1;
    }
    true
}

impl VulnerabilitySeverity {
    /// Reads a severity name leniently (see [`severity_of`]).
    pub fn from_str_loose(s: &str) -> (r: Self)
        ensures
            r == severity_of(sb(s)),
    {
        let b = bytes(s);
        if eq_ignore_case(b, "medium".as_bytes()) {
            VulnerabilitySeverity::Medium
        } else if eq_ignore_case(b, "high".as_bytes()) {
            VulnerabilitySeverity::High
        } else if eq_ignore_case(b, "critical".as_bytes()) {
            VulnerabilitySeverity::Critical
        } else {
            VulnerabilitySeverity::Low
        }
    }
}

/// Security/vulnerability scanning configuration.
#[derive(Debug, Clone)]
pub struct SecurityConfig {
    /// Enable vulnerability scanning.
    pub enabled: bool,
    /// Show vulnerabilities in inlay hints.
    pub show_in_hints: bool,
    /// Show vulnerabilities as diagnostics.
    pub show_diagnostics: bool,
    /// Minimum severity level to display ("low", "medium", "high", "critical").
    pub min_severity: String,
    /// Vulnerability cache TTL in seconds (default: 6 hours).
    pub cache_ttl_secs: u64,
}

impl Default for SecurityConfig {
    fn default() -> (r: Self)
        ensures
            r.enabled,
            r.show_in_hints,
            r.show_diagnostics,
            r.min_severity@ == "low"@,
            r.cache_ttl_secs == DEFAULT_VULN_CACHE_TTL_SECS,
    {
        SecurityConfig {
            enabled: true,
            show_in_hints: true,
            show_diagnostics: true,
            min_severity: to_owned_string("low"),
            cache_ttl_secs: DEFAULT_VULN_CACHE_TTL_SECS,
        }
    }
}

impl SecurityConfig {
    /// The minimum severity level to display.
    pub fn min_severity_level(&self) -> (r: VulnerabilitySeverity)
        ensures
            r == severity_of(ob(&self.min_severity)),
    {
        VulnerabilitySeverity::from_str_loose(self.min_severity.as_str())
    }
}

/// Authentication configuration for a registry.
///
/// Tokens are read from environment variables; they are never stored in
/// settings.
#[derive(Debug, Clone)]
pub struct AuthConfig {
    /// Authentication type: "env" for environment variable.
    pub auth_type: String,
    /// Environment variable name containing the token.
    pub variable: String,
}

impl Default for AuthConfig {
    fn default() -> (r: Self)
        ensures
            r.auth_type@.len() == 0,
            r.variable@.len() == 0,
    {
        AuthConfig { auth_type: String::new(), variable: String::new() }
    }
}

impl AuthConfig {
    /// Authentication is configured: the type is `env` and a variable is named.
    pub fn is_configured(&self) -> (r: bool)
        ensures
            r == (self.auth_type@ == "env"@ && self.variable@.len() > 0),
    {
        str_eq(self.auth_type.as_str(), "env") && !self.variable.as_str().is_empty()
    }

    /// The token from the configured source, given the process environment
    /// as `(name, value)` pairs: the value of the named variable for the
    /// `env` type; nothing for another type or an unset variable.
    pub fn get_token(&self, env: &[(String, String)]) -> (r: Option<String>)
        ensures
            match (if self.auth_type@ == "env"@ {
                env_lookup(env@, ob(&self.variable))
            } else {
                None
            }) {
                None => r is None,
                Some(v) => r matches Some(x) && ob(&x) == v,
            },
    {
        if str_eq(self.auth_type.as_str(), "env") {
            env_lookup_exec(env, self.variable.as_str())
        } else {
            None
        }
    }
}

/// Configuration for a scoped npm registry.
#[derive(Debug, Clone, Default)]
pub struct NpmScopedConfig {
    /// Registry URL for this scope.
    pub url: String,
    /// Authentication configuration.
    pub auth: Option<AuthConfig>,
}

/// Configuration for a custom Cargo registry.
#[derive(Debug, Clone, Default)]
pub struct CargoCustomRegistryConfig {
    /// Sparse index URL for this registry (without sparse+ prefix).
    pub index_url: String,
    /// Authentication configuration.
    pub auth: Option<AuthConfig>,
}

/// Maven registry configuration.
#[derive(Debug, Clone)]
pub struct MavenRegistryConfig {
    /// Base URL for the Maven repository (no trailing slash).
    pub url: String,
}

impl Default for MavenRegistryConfig {
    fn default() -> (r: Self)
        ensures
            r.url@ == "https://repo1.maven.org/maven2"@,
    {
        MavenRegistryConfig { url: to_owned_string("https://repo1.maven.org/maven2") }
    }
}

/// `name` matches the ignore pattern `pat`: an exact name without `*`; with
/// one `*`, a prefix and a suffix; with more `*`s, the prefix before the first.
pub open spec fn pattern_matches(name: Seq<u8>, pat: Seq<u8>) -> bool {
    match find_b(pat, 0, '*' as u8) {
        None => name == pat,
        Some(k) => {
            let prefix = pat.subrange(0, k);
            let rest = pat.subrange(k + 1, pat.len() as int);
            match find_b(rest, 0, '*' as u8) {
                None => starts_with_b(name, prefix) && ends_with_b(name, rest),
                Some(_) => starts_with_b(name, prefix),
            }
        },
    }
}

/// Returns true if `name` matches any pattern in `patterns` (see [`pattern_matches`]).
pub fn is_package_ignored(name: &str, patterns: &[String]) -> (r: bool)
    ensures
        r == exists|i: int| 0 <= i < patterns@.len() && pattern_matches(sb(name), ob(&#[trigger] patterns@[i])),
{
    let nb = bytes(name);
    let mut i: usize = 0;
    while i < patterns.len()
        invariant
            nb@ == sb(name),
            i <= patterns@.len(),
            forall|j: int| 0 <= j < i ==> !pattern_matches(sb(name), ob(&#[trigger] patterns@[j])),
        decreases patterns@.len() - i,
    {
        let pat = bytes(patterns[i].as_str());
        let pl = pat.len();
        let m = match find_byte(pat, 0, '*' as u8) {
            None => eq_bytes(nb, pat),
            Some(k) => {
                let prefix = subslice(pat, 0, k);
                let rest = subslice(pat, k + 1, pat.len());
                match find_byte(rest, 0, '*' as u8) {
                    None => starts_with(nb, prefix) && ends_with(nb, rest),
                    Some(_) => starts_with(nb, prefix),
                }
            },
        };
        if m {
            return true;
        }
        i = i + 1;
    }
    false
}

/// A pattern equal to the name matches it, whatever `*` the name holds: a
/// package listed by its exact name is always ignored.
pub proof fn law_exact_pattern_matches(name: Seq<u8>)
    ensures
        pattern_matches(name, name),
{
    lemma_find_b(name, 0, '*' as u8);
    if let Some(k) = find_b(name, 0, '*' as u8) {
        let rest = name.subrange(k + 1, name.len() as int);
        assert(name.subrange(0, k) =~= name.subrange(0, k));
        assert(name.subrange(name.len() - rest.len(), name.len() as int) =~= rest);
    }
}

/// A bare `*` pattern matches every name.
pub proof fn law_bare_wildcard_matches_all(name: Seq<u8>)
    ensures
        pattern_matches(name, seq!['*' as u8]),
{
    let pat = seq!['*' as u8];
    assert(find_b(pat, 0, '*' as u8) == Some(0int));
    let rest = pat.subrange(1, 1);
    assert(rest =~= Seq::<u8>::empty());
    assert(find_b(rest, 0, '*' as u8) is None);
    assert(name.subrange(0, 0) =~= pat.subrange(0, 0));
    assert(name.subrange(name.len() as int, name.len() as int) =~= rest);
}

} // verus!
