use depsy_lsp::parsers::gemfile_lock::{parse_gemfile_lock, parse_gemfile_lock_graph};


#[test]
fn test_parse_basic() {
    let content = "\
GEM
  remote: https://rubygems.org/
  specs:
    rails (7.0.3.1)
      actioncable (= 7.0.3.1)
    nokogiri (1.15.4)

PLATFORMS
  ruby

DEPENDENCIES
  rails (~> 7.0.3)

BUNDLED WITH
  2.3.14
";
    let map = parse_gemfile_lock(content);
    assert_eq!(map.get("rails").map(|s| s.as_str()), Some("7.0.3.1"));
    assert_eq!(map.get("nokogiri").map(|s| s.as_str()), Some("1.15.4"));
    assert_eq!(map.len(), 2);
}

#[test]
fn test_parse_empty() {
    let map = parse_gemfile_lock("");
    assert!(map.is_empty());
}

#[test]
fn test_parse_skips_sub_dependencies() {
    let content = "\
GEM
  remote: https://rubygems.org/
  specs:
    actioncable (7.0.3.1)
      actionpack (= 7.0.3.1)
      activesupport (= 7.0.3.1)
    rails (7.0.3.1)
      actioncable (= 7.0.3.1)
";
    let map = parse_gemfile_lock(content);
    // Only direct gems (4-space indent) should be included
    assert!(map.contains_key("actioncable"));
    assert!(map.contains_key("rails"));
    // Sub-dependencies like "actionpack" should NOT appear as top-level entries
    assert!(!map.contains_key("actionpack"));
    assert!(!map.contains_key("activesupport"));
    assert_eq!(map.len(), 2);
}

#[test]
fn test_parse_multiple_gem_remotes() {
    let content = "\
GEM
  remote: https://rubygems.org/
  specs:
    rails (7.0.3.1)

GEM
  remote: https://my.private.registry/
  specs:
    my_gem (1.0.0)

PLATFORMS
  ruby
";
    let map = parse_gemfile_lock(content);
    assert_eq!(map.get("rails").map(|s| s.as_str()), Some("7.0.3.1"));
    assert_eq!(map.get("my_gem").map(|s| s.as_str()), Some("1.0.0"));
    assert_eq!(map.len(), 2);
}

#[test]
fn test_parse_platform_gem() {
    let content = "\
GEM
  remote: https://rubygems.org/
  specs:
    nokogiri (1.15.4-x86_64-linux)
    grpc (1.59.0-x86_64-linux)
";
    let map = parse_gemfile_lock(content);
    assert_eq!(map.get("nokogiri").map(|s| s.as_str()), Some("1.15.4"));
    assert_eq!(map.get("grpc").map(|s| s.as_str()), Some("1.59.0"));
}

#[test]
fn test_parse_stops_at_platforms() {
    let content = "\
GEM
  remote: https://rubygems.org/
  specs:
    rails (7.0.3.1)

PLATFORMS
  x86_64-linux
  ruby

DEPENDENCIES
  rails (~> 7.0.3)
";
    let map = parse_gemfile_lock(content);
    // Should not accidentally parse PLATFORMS section content as gems
    assert!(map.contains_key("rails"));
    assert!(!map.contains_key("x86_64-linux"));
    assert!(!map.contains_key("ruby"));
}

#[test]
fn test_parse_case_insensitive_names() {
    let content = "\
GEM
  remote: https://rubygems.org/
  specs:
    ActiveRecord (7.0.3.1)
    JSON (2.6.3)
";
    let map = parse_gemfile_lock(content);
    // Names stored in lowercase
    assert!(map.contains_key("activerecord"));
    assert!(map.contains_key("json"));
    assert!(!map.contains_key("ActiveRecord"));
    assert!(!map.contains_key("JSON"));
}

#[test]
fn gemfile_lock_test_parse_prerelease_version() {
    let content = "\
GEM
  remote: https://rubygems.org/
  specs:
    my_gem (1.0.0.pre.1)
    another_gem (2.0.0.beta.2)
";
    let map = parse_gemfile_lock(content);
    // Pre-release versions use dots, not hyphens — kept as-is
    assert_eq!(map.get("my_gem").map(|s| s.as_str()), Some("1.0.0.pre.1"));
    assert_eq!(
        map.get("another_gem").map(|s| s.as_str()),
        Some("2.0.0.beta.2")
    );
}

#[test]
fn gemfile_lock_test_parse_malformed_lines() {
    let content = "\
GEM
  remote: https://rubygems.org/
  specs:
    valid_gem (1.0.0)
    no_version_gem
    bad_parens (
    also_bad )
";
    let map = parse_gemfile_lock(content);
    // Only properly formatted lines should be parsed
    assert_eq!(map.get("valid_gem").map(|s| s.as_str()), Some("1.0.0"));
    assert_eq!(map.len(), 1);
}

#[test]
fn test_strip_platform_suffix_arm64() {
    let content = "\
GEM
  remote: https://rubygems.org/
  specs:
    nokogiri (1.15.4-arm64-darwin)
";
    let map = parse_gemfile_lock(content);
    assert_eq!(map.get("nokogiri").map(|s| s.as_str()), Some("1.15.4"));
}

#[test]
fn test_parse_gemfile_lock_graph() {
    let content = r#"
GEM
  remote: https://rubygems.org/
  specs:
    rack (3.0.0)
    rails (7.0.4)
      rack (~> 3.0)
      actioncable (= 7.0.4)
    actioncable (7.0.4)
      actionpack (= 7.0.4)
    actionpack (7.0.4)
"#;
    let graph = parse_gemfile_lock_graph(content);
    let rails = graph.packages.iter().find(|p| p.name == "rails").unwrap();
    assert_eq!(rails.version, "7.0.4");
    assert!(rails.dependencies.contains(&"rack".to_string()));
    assert!(rails.dependencies.contains(&"actioncable".to_string()));
    let rack = graph.packages.iter().find(|p| p.name == "rack").unwrap();
    assert!(rack.dependencies.is_empty());
}

#[test]
fn test_parse_gemfile_lock_graph_ignores_path_and_git_sections() {
    let content = r#"
PATH
  remote: .
  specs:
    local_gem (0.1.0)
      rack (~> 3.0)

GIT
  remote: https://github.com/rails/rails.git
  specs:
    rails_fork (7.0.4)

GEM
  remote: https://rubygems.org/
  specs:
    rack (3.0.0)
    rails (7.0.4)
      rack (~> 3.0)
"#;
    let graph = parse_gemfile_lock_graph(content);
    let names: Vec<&str> = graph.packages.iter().map(|p| p.name.as_str()).collect();
    assert!(names.contains(&"rack"));
    assert!(names.contains(&"rails"));
    assert!(!names.contains(&"local_gem"), "PATH gems must be excluded");
    assert!(!names.contains(&"rails_fork"), "GIT gems must be excluded");
}

#[test]
fn test_parse_gemfile_lock_graph_normalizes_names() {
    let content = r#"
GEM
  specs:
    ActiveRecord (7.0.0)
      active_support (= 7.0.0)
    active_support (7.0.0)
"#;
    let graph = parse_gemfile_lock_graph(content);
    // normalize_gem_name lowercases names
    assert!(graph.packages.iter().any(|p| p.name == "activerecord"));
    assert!(graph.packages.iter().any(|p| p.name == "active_support"));
}

#[test]
fn test_parse_gemfile_lock_graph_strips_platform_suffix() {
    let content = r#"
GEM
  remote: https://rubygems.org/
  specs:
    nokogiri (1.15.4-x86_64-linux)
    rack (3.0.0)
"#;
    let graph = parse_gemfile_lock_graph(content);
    let nokogiri = graph
        .packages
        .iter()
        .find(|p| p.name == "nokogiri")
        .unwrap();
    assert_eq!(
        nokogiri.version, "1.15.4",
        "platform suffix must be stripped, got {:?}",
        nokogiri.version
    );
    let rack = graph.packages.iter().find(|p| p.name == "rack").unwrap();
    assert_eq!(rack.version, "3.0.0");
}

#[test]
fn test_duplicate_gem_keeps_first() {
    let content = "\
GEM
  remote: https://rubygems.org/
  specs:
    rails (7.0.3.1)
    rails (6.0.0)
";
    let map = parse_gemfile_lock(content);
    assert_eq!(map.get("rails").map(|s| s.as_str()), Some("7.0.3.1"));
    assert_eq!(map.len(), 1);
}

#[test]
fn test_parse_ignores_path_and_git_sections() {
    let content = "\
PATH
  remote: ../my_engine
  specs:
    my_engine (0.1.0)
      rails (>= 7.0)

GIT
  remote: https://github.com/user/repo.git
  revision: abc123
  specs:
    some_gem (2.0.0)

GEM
  remote: https://rubygems.org/
  specs:
    rails (7.0.3.1)

PLATFORMS
  ruby
";
    let map = parse_gemfile_lock(content);
    assert_eq!(map.get("rails").map(|s| s.as_str()), Some("7.0.3.1"));
    assert!(!map.contains_key("my_engine"));
    assert!(!map.contains_key("some_gem"));
    assert_eq!(map.len(), 1);
}

