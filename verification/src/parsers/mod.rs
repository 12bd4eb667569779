//! Shared types and the [`Parser`] trait used by all manifest parsers.
//!
//! Each ecosystem parser produces a `Vec<Dependency>` from the raw file
//! content. Span information (`name_span` / `version_span`) is anchored to the
//! inner text of each token, as byte offsets within its line.

use vstd::prelude::*;
use crate::text::ob;

pub mod cargo;
pub mod cargo_lock;
pub mod composer_lock;
pub mod csharp;
pub mod dart;
pub mod gemfile_lock;
pub mod go;
pub mod go_sum;
pub mod json_spans;
pub mod json_tree;
pub mod json_value;
pub mod lock_map;
pub mod lockfile_graph;
pub mod lockfile_search;
pub mod maven;
pub mod npm;
pub mod npm_lock;
pub mod packages_lock_json;
pub mod php;
pub mod pnpm_workspace;
pub mod python;
pub mod pubspec_lock;
pub mod python_lock;
pub mod requirements_spans;
pub mod ruby;
pub mod toml_tree;
pub mod toml_value;
pub mod xml_events;

verus! {

/// A half-open byte range within a single source line.
///
/// `line_start` and `line_end` are 0-indexed byte offsets measured from the
/// beginning of the line; `line[line_start..line_end]` is the covered text.
#[derive(Debug, Clone, Copy)]
pub struct Span {
    /// 0-indexed line number within the file.
    pub line: u32,
    /// 0-indexed byte offset of the first byte (inclusive).
    pub line_start: u32,
    /// 0-indexed byte offset one past the last byte (exclusive).
    pub line_end: u32,
}

/// A single dependency extracted from a manifest file.
#[derive(Debug, Clone)]
pub struct Dependency {
    /// Package name as declared in the manifest.
    pub name: String,
    /// Version specifier as declared (e.g. `"^1.0"`, `">=1,<2"`).
    pub version: String,
    /// Source span covering the package name token (inner text, no quotes).
    pub name_span: Span,
    /// Source span covering the version token (inner text, no quotes).
    pub version_span: Span,
    /// Whether this dependency belongs to a dev / test group.
    pub dev: bool,
    /// Whether this dependency is optional (peer, optional, or indirect).
    pub optional: bool,
    /// Custom registry name (Cargo only, e.g. `"kellnr"`).
    pub registry: Option<String>,
    /// Version resolved from a lock file, if available.
    pub resolved_version: Option<String>,
    /// Whether source syntax contains additional version constraints outside
    /// `version` and `version_span`.
    pub has_additional_version_constraints: bool,
}

/// The abstract value of a [`Dependency`]: its strings as UTF-8 bytes.
pub ghost struct DepModel {
    pub name: Seq<u8>,
    pub version: Seq<u8>,
    pub name_span: Span,
    pub version_span: Span,
    pub dev: bool,
    pub optional: bool,
    pub registry: Option<Seq<u8>>,
    pub resolved_version: Option<Seq<u8>>,
    pub has_additional_version_constraints: bool,
}

/// The UTF-8 bytes of an optional string.
pub open spec fn opt_bytes(s: Option<String>) -> Option<Seq<u8>> {
    match s {
        Some(v) => Some(ob(&v)),
        None => None,
    }
}

impl View for Dependency {
    type V = DepModel;

    open spec fn view(&self) -> DepModel {
        DepModel {
            name: ob(&self.name),
            version: ob(&self.version),
            name_span: self.name_span,
            version_span: self.version_span,
            dev: self.dev,
            optional: self.optional,
            registry: opt_bytes(self.registry),
            resolved_version: opt_bytes(self.resolved_version),
            has_additional_version_constraints: self.has_additional_version_constraints,
        }
    }
}

/// The abstract values of a list of dependencies.
pub open spec fn deps_view(v: Seq<Dependency>) -> Seq<DepModel> {
    v.map_values(|d: Dependency| d@)
}

/// Whether the span `sp` covers exactly the token `tok` within `line`.
pub open spec fn covers(line: Seq<u8>, sp: Span, tok: Seq<u8>) -> bool {
    &&& sp.line_start <= sp.line_end <= line.len()
    &&& line.subrange(sp.line_start as int, sp.line_end as int) == tok
}

/// A dependency model whose spans both lie on line `line` and that has no
/// registry and no resolved version, as every manifest parser produces.
pub open spec fn plain_dep(
    name: Seq<u8>,
    version: Seq<u8>,
    line: u32,
    name_start: int,
    version_start: int,
    dev: bool,
    optional: bool,
    additional: bool,
) -> DepModel {
    DepModel {
        name,
        version,
        name_span: Span {
            line,
            line_start: name_start as u32,
            line_end: (name_start + name.len()) as u32,
        },
        version_span: Span {
            line,
            line_start: version_start as u32,
            line_end: (version_start + version.len()) as u32,
        },
        dev,
        optional,
        registry: None,
        resolved_version: None,
        has_additional_version_constraints: additional,
    }
}

impl Dependency {
    /// Returns the resolved version (from a lock file) if available,
    /// otherwise the declared version from the manifest.
    pub fn effective_version(&self) -> (r: &str)
        ensures
            r@ == (match &self.resolved_version {
                Some(v) => v@,
                None => self.version@,
            }),
    {
        match &self.resolved_version {
            Some(v) => v.as_str(),
            None => self.version.as_str(),
        }
    }
}

/// Trait implemented by every ecosystem-specific manifest parser.
///
/// Malformed or unrecognised input is silently ignored: the result is then
/// an empty `Vec`.
pub trait Parser: Send + Sync {
    /// Parse `content` and return every dependency found.
    fn parse(&self, content: &str) -> Vec<Dependency>;
}

} // verus!
