use depsy_lsp::parsers::Parser;
use depsy_lsp::parsers::ruby::RubyParser;

#[test]
fn test_simple_gem() {
    let parser = RubyParser::new();
    let content = r#"
source 'https://rubygems.org'

gem 'rails', '~> 7.0'
gem 'pg', '~> 1.4'
"#;
    let deps = parser.parse(content);

    assert_eq!(deps.len(), 2);
    assert_eq!(deps[0].name, "rails");
    assert_eq!(deps[0].version, "~> 7.0");
    assert!(!deps[0].dev);
    assert_eq!(deps[1].name, "pg");
    assert_eq!(deps[1].version, "~> 1.4");
}

#[test]
fn test_gem_with_version_operators() {
    let parser = RubyParser::new();
    let content = r#"
gem 'devise', '>= 4.0'
gem 'rspec', '~> 3.0'
gem 'rails', '~> 7.0.0'
"#;
    let deps = parser.parse(content);

    assert_eq!(deps.len(), 3);
    assert_eq!(deps[0].name, "devise");
    assert_eq!(deps[0].version, ">= 4.0");
    assert_eq!(deps[1].name, "rspec");
    assert_eq!(deps[1].version, "~> 3.0");
    assert_eq!(deps[2].name, "rails");
    assert_eq!(deps[2].version, "~> 7.0.0");
}

#[test]
fn test_dev_dependencies_in_group() {
    let parser = RubyParser::new();
    let content = r#"
source 'https://rubygems.org'

gem 'rails', '~> 7.0'

group :development, :test do
  gem 'rspec-rails', '~> 6.0'
  gem 'factory_bot_rails', '~> 6.2'
end

gem 'pg', '~> 1.4'
"#;
    let deps = parser.parse(content);

    assert_eq!(deps.len(), 4);

    let rails = deps.iter().find(|d| d.name == "rails").unwrap();
    assert!(!rails.dev);

    let rspec = deps.iter().find(|d| d.name == "rspec-rails").unwrap();
    assert!(rspec.dev);

    let factory_bot = deps.iter().find(|d| d.name == "factory_bot_rails").unwrap();
    assert!(factory_bot.dev);

    let pg = deps.iter().find(|d| d.name == "pg").unwrap();
    assert!(!pg.dev);
}

#[test]
fn test_skip_git_and_path_gems() {
    let parser = RubyParser::new();
    let content = r#"
gem 'rails', '~> 7.0'
gem 'my_gem', git: 'https://github.com/user/my_gem.git'
gem 'local_gem', path: '../local_gem'
gem 'pg', '~> 1.4'
"#;
    let deps = parser.parse(content);

    assert_eq!(deps.len(), 2);
    assert_eq!(deps[0].name, "rails");
    assert_eq!(deps[1].name, "pg");
}

#[test]
fn test_skip_comments_and_empty_lines() {
    let parser = RubyParser::new();
    let content = r#"
# This is a comment
source 'https://rubygems.org'

# Another comment
gem 'rails', '~> 7.0'

# gem 'old_gem', '1.0'
"#;
    let deps = parser.parse(content);

    assert_eq!(deps.len(), 1);
    assert_eq!(deps[0].name, "rails");
}

#[test]
fn test_gem_with_require_option() {
    let parser = RubyParser::new();
    let content = r#"
gem 'rails', '~> 7.0'
gem 'bootsnap', '~> 1.16', require: false
gem 'pg', '~> 1.4'
"#;
    let deps = parser.parse(content);

    assert_eq!(deps.len(), 3);
    assert_eq!(deps[0].name, "rails");
    assert_eq!(deps[1].name, "bootsnap");
    assert_eq!(deps[1].version, "~> 1.16");
    assert_eq!(deps[2].name, "pg");
}

#[test]
fn test_double_quoted_gems() {
    let parser = RubyParser::new();
    let content = r#"
gem "rails", "~> 7.0"
gem "pg", "~> 1.4"
"#;
    let deps = parser.parse(content);

    assert_eq!(deps.len(), 2);
    assert_eq!(deps[0].name, "rails");
    assert_eq!(deps[0].version, "~> 7.0");
}

#[test]
fn ruby_test_version_positions() {
    let parser = RubyParser::new();
    let content = "gem 'rails', '~> 7.0'\n";
    let deps = parser.parse(content);

    assert_eq!(deps.len(), 1);
    let dep = &deps[0];

    // Verify positions are valid
    assert!(dep.name_span.line_start < dep.name_span.line_end);
    assert!(dep.version_span.line_start < dep.version_span.line_end);
    assert!(dep.name_span.line_end < dep.version_span.line_start);

    // Verify name position
    let name_slice =
        &content[dep.name_span.line_start as usize..dep.name_span.line_end as usize];
    assert_eq!(name_slice, "rails");

    // Verify version position
    let version_slice =
        &content[dep.version_span.line_start as usize..dep.version_span.line_end as usize];
    assert_eq!(version_slice, "~> 7.0");
}

#[test]
fn test_exact_version() {
    let parser = RubyParser::new();
    let content = "gem 'nokogiri', '1.15.4'\n";
    let deps = parser.parse(content);

    assert_eq!(deps.len(), 1);
    assert_eq!(deps[0].name, "nokogiri");
    assert_eq!(deps[0].version, "1.15.4");
}

#[test]
fn test_test_group() {
    let parser = RubyParser::new();
    let content = r#"
gem 'rails', '~> 7.0'

group :test do
  gem 'rspec', '~> 3.12'
end
"#;
    let deps = parser.parse(content);

    assert_eq!(deps.len(), 2);

    let rspec = deps.iter().find(|d| d.name == "rspec").unwrap();
    assert!(rspec.dev);
}

#[test]
fn ruby_test_empty_file() {
    let parser = RubyParser::new();
    let content = "";
    let deps = parser.parse(content);
    assert_eq!(deps.len(), 0);
}

#[test]
fn test_parenthesized_gem() {
    let parser = RubyParser::new();
    let content = "gem('rails', '~> 7.0')";
    let deps = parser.parse(content);
    assert_eq!(deps.len(), 1);
    assert_eq!(deps[0].name, "rails");
    assert_eq!(deps[0].version, "~> 7.0");
}

#[test]
fn tracks_additional_positional_constraints_but_not_options() {
    let content = "gem \"single\", \">= 1\", require: false\ngem \"hash-option\", \">= 1\", { require: false }\ngem \"legacy-option\", \">= 1\", :require => false\ngem \"compound\", \">= 1\", \"< 2\"\ngem \"variable-bound\", \">= 1\", UPPER_BOUND\ngem(\"multiline-bound\", \">= 1\",\n  \"< 2\")\n";
    let deps = RubyParser::new().parse(content);

    let single = deps.iter().find(|dep| dep.name == "single").unwrap();
    assert!(!single.has_additional_version_constraints);
    let hash_option = deps.iter().find(|dep| dep.name == "hash-option").unwrap();
    assert!(!hash_option.has_additional_version_constraints);
    let legacy_option = deps.iter().find(|dep| dep.name == "legacy-option").unwrap();
    assert!(!legacy_option.has_additional_version_constraints);

    let compound = deps.iter().find(|dep| dep.name == "compound").unwrap();
    assert_eq!(compound.version, ">= 1");
    assert!(compound.has_additional_version_constraints);
    let variable_bound = deps
        .iter()
        .find(|dep| dep.name == "variable-bound")
        .unwrap();
    assert!(variable_bound.has_additional_version_constraints);
    let multiline_bound = deps
        .iter()
        .find(|dep| dep.name == "multiline-bound")
        .unwrap();
    assert!(multiline_bound.has_additional_version_constraints);
}

#[test]
fn gemfile_spans_cover_name_and_version() {
    let content = "source 'https://rubygems.org'\ngem 'rails', '~> 7.0'\ngroup :test do\n  gem \"rspec\", \">= 3\"\nend\n";
    let deps = RubyParser::new().parse(content);
    assert_eq!(deps.len(), 2);
    for d in &deps {
        let line = content.lines().nth(d.name_span.line as usize).unwrap();
        assert_eq!(&line[d.name_span.line_start as usize..d.name_span.line_end as usize], d.name);
        assert_eq!(
            &line[d.version_span.line_start as usize..d.version_span.line_end as usize],
            d.version
        );
    }
}

#[test]
fn gemfile_nested_block_keeps_group_dev() {
    let content = "group :development do\n  platforms :mri do\n    gem 'byebug', '11.0'\n  end\n  gem 'rspec', '3.12'\nend\ngem 'rails', '7.0'\n";
    let deps = RubyParser::new().parse(content);
    let got: Vec<(&str, bool)> = deps.iter().map(|d| (d.name.as_str(), d.dev)).collect();
    assert_eq!(got, vec![("byebug", true), ("rspec", true), ("rails", false)]);
}

#[test]
fn gemfile_dev_group_nested_in_plain_block_ends_with_it() {
    let content = "source 'https://rubygems.org' do\n  group :test do\n    gem 'rspec', '3.12'\n  end\n  gem 'rails', '7.0'\nend\n";
    let deps = RubyParser::new().parse(content);
    let got: Vec<(&str, bool)> = deps.iter().map(|d| (d.name.as_str(), d.dev)).collect();
    assert_eq!(got, vec![("rspec", true), ("rails", false)]);
}
