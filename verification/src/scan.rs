//! The decisions of a dependency scan: which parser reads a manifest, how
//! names compare between a manifest and its lockfile, which locked versions
//! the direct dependencies resolve to, which lockfile packages are direct,
//! and under which direct dependency a transitive package is reported.

use vstd::prelude::*;
use vstd::utf8::encode_utf8;
use crate::config::VulnerabilitySeverity;
use crate::parsers::composer_lock::normalize_composer_name;
use crate::parsers::gemfile_lock::normalize_gem_name;
use crate::parsers::lock_map::{lock_map_entries, name_lists_entries, LockMap, NameLists};
use crate::parsers::lockfile_graph::{strings_view, LockfileGraph, LockfilePackage};
use crate::parsers::python_lock::{normalize_python_name, py_normalize};
use crate::parsers::{opt_bytes, Dependency};
use crate::text::{
    bytes, contains, contains_b, ends_with, ends_with_b, ob, sb, str_eq, str_to_lowercase,
    to_owned_string,
};

verus! {

/// The kinds of manifest that a scan reads, by the parser that reads them.
#[derive(Debug, Clone, Copy, PartialEq, Eq, Structural)]
pub enum ManifestKind {
    Cargo,
    Npm,
    Python,
    Go,
    Composer,
    Pubspec,
    Csharp,
    Gemfile,
    Maven,
}

/// The manifest kind of a file scanned by name: the exact manifest names,
/// and any `*.csproj`.
pub open spec fn scan_kind_of(f: Seq<u8>) -> Option<ManifestKind> {
    if f == sb("Cargo.toml") {
        Some(ManifestKind::Cargo)
    } else if f == sb("package.json") {
        Some(ManifestKind::Npm)
    } else if f == sb("requirements.txt") || f == sb("pyproject.toml") {
        Some(ManifestKind::Python)
    } else if f == sb("go.mod") {
        Some(ManifestKind::Go)
    } else if f == sb("composer.json") {
        Some(ManifestKind::Composer)
    } else if f == sb("pubspec.yaml") {
        Some(ManifestKind::Pubspec)
    } else if ends_with_b(f, sb(".csproj")) {
        Some(ManifestKind::Csharp)
    } else if f == sb("Gemfile") {
        Some(ManifestKind::Gemfile)
    } else if f == sb("pom.xml") {
        Some(ManifestKind::Maven)
    } else {
        None
    }
}

/// The manifest kind of a file named `file_name`, for a scan; `None` for an
/// unsupported file.
pub fn scan_manifest_kind(file_name: &str) -> (r: Option<ManifestKind>)
    ensures
        r == scan_kind_of(sb(file_name)),
{
    if str_eq(file_name, "Cargo.toml") {
        Some(ManifestKind::Cargo)
    } else if str_eq(file_name, "package.json") {
        Some(ManifestKind::Npm)
    } else if str_eq(file_name, "requirements.txt") || str_eq(file_name, "pyproject.toml") {
        Some(ManifestKind::Python)
    } else if str_eq(file_name, "go.mod") {
        Some(ManifestKind::Go)
    } else if str_eq(file_name, "composer.json") {
        Some(ManifestKind::Composer)
    } else if str_eq(file_name, "pubspec.yaml") {
        Some(ManifestKind::Pubspec)
    } else if ends_with(bytes(file_name), bytes(".csproj")) {
        Some(ManifestKind::Csharp)
    } else if str_eq(file_name, "Gemfile") {
        Some(ManifestKind::Gemfile)
    } else if str_eq(file_name, "pom.xml") {
        Some(ManifestKind::Maven)
    } else {
        None
    }
}

/// The manifest kind of a file profiled by name, which also accepts
/// variants: names ending in a manifest name, `*.toml` files naming
/// `cargo`, and `*.json` files naming `package`.
pub open spec fn profile_kind_of(f: Seq<u8>) -> Option<ManifestKind> {
    if ends_with_b(f, sb("Cargo.toml")) || (ends_with_b(f, sb(".toml")) && contains_b(f, sb("cargo"))) {
        Some(ManifestKind::Cargo)
    } else if ends_with_b(f, sb("package.json")) || (ends_with_b(f, sb(".json")) && contains_b(
        f,
        sb("package"),
    )) {
        Some(ManifestKind::Npm)
    } else if ends_with_b(f, sb("requirements.txt")) || ends_with_b(f, sb("pyproject.toml")) {
        Some(ManifestKind::Python)
    } else if ends_with_b(f, sb("go.mod")) {
        Some(ManifestKind::Go)
    } else if ends_with_b(f, sb("composer.json")) {
        Some(ManifestKind::Composer)
    } else if ends_with_b(f, sb("pubspec.yaml")) {
        Some(ManifestKind::Pubspec)
    } else if ends_with_b(f, sb(".csproj")) {
        Some(ManifestKind::Csharp)
    } else if ends_with_b(f, sb("Gemfile")) {
        Some(ManifestKind::Gemfile)
    } else if f == sb("pom.xml") {
        Some(ManifestKind::Maven)
    } else {
        None
    }
}

/// The manifest kind of a file named `file_name`, for profiling; `None`
/// for an unsupported file.
pub fn profile_manifest_kind(file_name: &str) -> (r: Option<ManifestKind>)
    ensures
        r == profile_kind_of(sb(file_name)),
{
    let f = bytes(file_name);
    if ends_with(f, bytes("Cargo.toml")) || (ends_with(f, bytes(".toml")) && contains(
        f,
        bytes("cargo"),
    )) {
        Some(ManifestKind::Cargo)
    } else if ends_with(f, bytes("package.json")) || (ends_with(f, bytes(".json")) && contains(
        f,
        bytes("package"),
    )) {
        Some(ManifestKind::Npm)
    } else if ends_with(f, bytes("requirements.txt")) || ends_with(f, bytes("pyproject.toml")) {
        Some(ManifestKind::Python)
    } else if ends_with(f, bytes("go.mod")) {
        Some(ManifestKind::Go)
    } else if ends_with(f, bytes("composer.json")) {
        Some(ManifestKind::Composer)
    } else if ends_with(f, bytes("pubspec.yaml")) {
        Some(ManifestKind::Pubspec)
    } else if ends_with(f, bytes(".csproj")) {
        Some(ManifestKind::Csharp)
    } else if ends_with(f, bytes("Gemfile")) {
        Some(ManifestKind::Gemfile)
    } else if str_eq(file_name, "pom.xml") {
        Some(ManifestKind::Maven)
    } else {
        None
    }
}

/// The name under which a package of this kind is compared between the
/// manifest and the lockfile: PEP 503 normalization for Python, lowercase
/// for Composer and RubyGems, the name itself otherwise.
pub open spec fn canonical_spec(kind: ManifestKind, name: Seq<char>) -> Seq<char> {
    match kind {
        ManifestKind::Python => py_normalize(name),
        ManifestKind::Composer => str_to_lowercase(name),
        ManifestKind::Gemfile => str_to_lowercase(name),
        _ => name,
    }
}

/// The canonical name of a package (see [`canonical_spec`]).
pub fn canonical_name(kind: ManifestKind, name: &str) -> (r: String)
    ensures
        r@ == canonical_spec(kind, name@),
{
    match kind {
        ManifestKind::Python => normalize_python_name(name),
        ManifestKind::Composer => normalize_composer_name(name),
        ManifestKind::Gemfile => normalize_gem_name(name),
        _ => to_owned_string(name),
    }
}

/// The canonical names of the direct dependencies, in order.
pub fn direct_canonical_names(deps: &[Dependency], kind: ManifestKind) -> (r: Vec<String>)
    ensures
        r@.len() == deps@.len(),
        forall|i: int| 0 <= i < deps@.len() ==> (#[trigger] r@[i])@ == canonical_spec(kind, deps@[i].name@),
{
    let mut out: Vec<String> = Vec::new();
    let mut i: usize = 0;
    while i < deps.len()
        invariant
            i <= deps@.len(),
            out@.len() == i,
            forall|j: int| 0 <= j < i ==> (#[trigger] out@[j])@ == canonical_spec(kind, deps@[j].name@),
        decreases deps@.len() - i,
    {
        out.push(canonical_name(kind, deps[i].name.as_str()));
        i = i + 1;
    }
    out
}

/// The locked version of a direct dependency: the version that the
/// lockfile records under its canonical name, if any.
pub open spec fn locked_version(versions: Map<Seq<u8>, Seq<u8>>, kind: ManifestKind, name: Seq<char>) -> Option<
    Seq<u8>,
> {
    let key = encode_utf8(canonical_spec(kind, name));
    if versions.dom().contains(key) {
        Some(versions[key])
    } else {
        None
    }
}

/// Record on each direct dependency the version locked for it; a
/// dependency the lockfile does not name keeps what it had.
pub fn apply_resolved_versions(deps: &mut Vec<Dependency>, kind: ManifestKind, versions: &LockMap)
    ensures
        final(deps)@.len() == old(deps)@.len(),
        forall|i: int| 0 <= i < old(deps)@.len() ==> {
            let d = #[trigger] final(deps)@[i];
            let o = old(deps)@[i];
            &&& d.name == o.name
            &&& d.version == o.version
            &&& d.name_span == o.name_span
            &&& d.version_span == o.version_span
            &&& d.dev == o.dev
            &&& d.optional == o.optional
            &&& d.registry == o.registry
            &&& d.has_additional_version_constraints == o.has_additional_version_constraints
            &&& opt_bytes(d.resolved_version) == match locked_version(
                lock_map_entries(*versions),
                kind,
                o.name@,
            ) {
                Some(v) => Some(v),
                None => opt_bytes(o.resolved_version),
            }
        },
{
    let ghost orig = deps@;
    let mut i: usize = 0;
    while i < deps.len()
        invariant
            i <= deps@.len(),
            deps@.len() == orig.len(),
            forall|j: int| i <= j < orig.len() ==> #[trigger] deps@[j] == orig[j],
            forall|j: int| 0 <= j < i ==> {
                let d = #[trigger] deps@[j];
                let o = orig[j];
                &&& d.name == o.name
                &&& d.version == o.version
                &&& d.name_span == o.name_span
                &&& d.version_span == o.version_span
                &&& d.dev == o.dev
                &&& d.optional == o.optional
                &&& d.registry == o.registry
                &&& d.has_additional_version_constraints == o.has_additional_version_constraints
                &&& opt_bytes(d.resolved_version) == match locked_version(
                    lock_map_entries(*versions),
                    kind,
                    o.name@,
                ) {
                    Some(v) => Some(v),
                    None => opt_bytes(o.resolved_version),
                }
            },
        decreases deps@.len() - i,
    {
        let key = canonical_name(kind, deps[i].name.as_str());
        match versions.get(key.as_str()) {
            Some(v) => {
                let v2 = to_owned_string(v.as_str());
                deps[i].resolved_version = Some(v2);
            },
            None => {},
        }
        i = i + 1;
    }
}

/// Flag as roots the lockfile packages that the manifest names directly.
pub fn mark_direct_roots(graph: &mut LockfileGraph, direct: &[String])
    ensures
        final(graph).packages@.len() == old(graph).packages@.len(),
        forall|i: int| 0 <= i < old(graph).packages@.len() ==> {
            let p = #[trigger] final(graph).packages@[i];
            let o = old(graph).packages@[i];
            &&& p.name == o.name
            &&& p.version == o.version
            &&& p.dependencies == o.dependencies
            &&& p.is_root == (o.is_root || strings_view(direct@).contains(ob(&o.name)))
        },
{
    let ghost orig = graph.packages@;
    let mut i: usize = 0;
    while i < graph.packages.len()
        invariant
            i <= graph.packages@.len(),
            graph.packages@.len() == orig.len(),
            forall|j: int| i <= j < orig.len() ==> #[trigger] graph.packages@[j] == orig[j],
            forall|j: int| 0 <= j < i ==> {
                let p = #[trigger] graph.packages@[j];
                let o = orig[j];
                &&& p.name == o.name
                &&& p.version == o.version
                &&& p.dependencies == o.dependencies
                &&& p.is_root == (o.is_root || strings_view(direct@).contains(ob(&o.name)))
            },
        decreases graph.packages@.len() - i,
    {
        let mut k: usize = 0;
        let mut found = false;
        while k < direct.len()
            invariant
                k <= direct@.len(),
                i < graph.packages@.len(),
                found == exists|j: int| 0 <= j < k && ob(&direct@[j]) == ob(&graph.packages@[i as int].name),
            decreases direct@.len() - k,
        {
            if str_eq(direct[k].as_str(), graph.packages[i].name.as_str()) {
                found = true;
            }
            k = k + 1;
        }
        proof {
            let n = ob(&orig[i as int].name);
            if found {
                let j = choose|j: int| 0 <= j < direct@.len() && ob(&direct@[j]) == n;
                assert(strings_view(direct@)[j] == n);
            } else {
                assert forall|j: int| 0 <= j < strings_view(direct@).len() implies strings_view(
                    direct@,
                )[j] != n by {
                    assert(strings_view(direct@)[j] == ob(&direct@[j]));
                }
            }
        }
        if found {
            graph.packages[i].is_root = true;
        }
        i = i + 1;
    }
}

/// The raw manifest name of each canonical name; where two dependencies
/// share a canonical name, the later one's.
pub fn raw_names_by_canonical(deps: &[Dependency], kind: ManifestKind) -> (r: LockMap)
    ensures
        forall|i: int| 0 <= i < deps@.len() ==> #[trigger] lock_map_entries(r).dom().contains(
            encode_utf8(canonical_spec(kind, deps@[i].name@)),
        ),
        forall|k: Seq<u8>| #[trigger] lock_map_entries(r).dom().contains(k) ==> exists|i: int|
            0 <= i < deps@.len() && k == encode_utf8(canonical_spec(kind, deps@[i].name@)),
        forall|i: int|
            0 <= i < deps@.len() && (forall|j: int|
                i < j < deps@.len() ==> canonical_spec(kind, #[trigger] deps@[j].name@)
                    != canonical_spec(kind, deps@[i].name@)) ==> lock_map_entries(r)[encode_utf8(
                canonical_spec(kind, #[trigger] deps@[i].name@),
            )] == ob(&deps@[i].name),
{
    let mut m = LockMap::new();
    let mut i: usize = 0;
    while i < deps.len()
        invariant
            i <= deps@.len(),
            forall|a: int| 0 <= a < i ==> #[trigger] lock_map_entries(m).dom().contains(
                encode_utf8(canonical_spec(kind, deps@[a].name@)),
            ),
            forall|k: Seq<u8>| #[trigger] lock_map_entries(m).dom().contains(k) ==> exists|a: int|
                0 <= a < i && k == encode_utf8(canonical_spec(kind, deps@[a].name@)),
            forall|a: int|
                0 <= a < i && (forall|j: int|
                    a < j < i ==> canonical_spec(kind, #[trigger] deps@[j].name@) != canonical_spec(
                        kind,
                        deps@[a].name@,
                    )) ==> lock_map_entries(m)[encode_utf8(
                    canonical_spec(kind, #[trigger] deps@[a].name@),
                )] == ob(&deps@[a].name),
        decreases deps@.len() - i,
    {
        let key = canonical_name(kind, deps[i].name.as_str());
        let raw = to_owned_string(deps[i].name.as_str());
        let ghost old_m = lock_map_entries(m);
        m.insert(key, raw);
        proof {
            let ki = encode_utf8(canonical_spec(kind, deps@[i as int].name@));
            assert forall|a: int|
                0 <= a < i + 1 && (forall|j: int|
                    a < j < i + 1 ==> canonical_spec(kind, #[trigger] deps@[j].name@) != canonical_spec(
                        kind,
                        deps@[a].name@,
                    )) implies lock_map_entries(m)[encode_utf8(
                canonical_spec(kind, #[trigger] deps@[a].name@),
            )] == ob(&deps@[a].name) by {
                if a < i {
                    assert(canonical_spec(kind, deps@[i as int].name@) != canonical_spec(
                        kind,
                        deps@[a].name@,
                    ));
                    vstd::utf8::encode_utf8_decode_utf8(canonical_spec(kind, deps@[i as int].name@));
                    vstd::utf8::encode_utf8_decode_utf8(canonical_spec(kind, deps@[a].name@));
                }
            }
            assert forall|k: Seq<u8>| #[trigger] lock_map_entries(m).dom().contains(k) implies exists|a: int|
                0 <= a < i + 1 && k == encode_utf8(canonical_spec(kind, deps@[a].name@)) by {
                if k != ki {
                    assert(old_m.dom().contains(k));
                }
            }
        }
        i = i + 1;
    }
    m
}

/// The direct dependency a transitive package is reported under: the raw
/// name of its first direct parent, or `(unknown)`.
pub open spec fn via_direct_spec(
    inverse: Map<Seq<u8>, Seq<Seq<u8>>>,
    raw: Map<Seq<u8>, Seq<u8>>,
    pkg: Seq<u8>,
) -> Seq<u8> {
    if inverse.dom().contains(pkg) && inverse[pkg].len() > 0 && raw.dom().contains(inverse[pkg][0]) {
        raw[inverse[pkg][0]]
    } else {
        sb("(unknown)")
    }
}

/// The direct dependency a transitive package is reported under (see
/// [`via_direct_spec`]).
pub fn via_direct(inverse: &NameLists, raw: &LockMap, pkg_name: &str) -> (r: String)
    ensures
        ob(&r) == via_direct_spec(name_lists_entries(*inverse), lock_map_entries(*raw), sb(pkg_name)),
{
    match inverse.get(pkg_name) {
        Some(parents) => {
            if parents.len() > 0 {
                proof {
                    assert(strings_view(parents@)[0] == ob(&parents@[0]));
                }
                match raw.get(parents[0].as_str()) {
                    Some(r) => to_owned_string(r.as_str()),
                    None => to_owned_string("(unknown)"),
                }
            } else {
                to_owned_string("(unknown)")
            }
        },
        None => to_owned_string("(unknown)"),
    }
}

/// Vulnerabilities counted by severity, as a scan reports them.
#[derive(Debug, Clone, Copy, PartialEq, Eq, Default)]
pub struct SeverityCounts {
    pub total: u32,
    pub critical: u32,
    pub high: u32,
    pub medium: u32,
    pub low: u32,
}

impl SeverityCounts {
    /// Count one more vulnerability of severity `sev`.
    pub fn record(&mut self, sev: VulnerabilitySeverity)
        requires
            old(self).total < u32::MAX,
            old(self).critical + old(self).high + old(self).medium + old(self).low == old(self).total,
        ensures
            final(self).total == old(self).total + 1,
            final(self).critical == old(self).critical + (if sev == VulnerabilitySeverity::Critical {
                1int
            } else {
                0
            }),
            final(self).high == old(self).high + (if sev == VulnerabilitySeverity::High {
                1int
            } else {
                0
            }),
            final(self).medium == old(self).medium + (if sev == VulnerabilitySeverity::Medium {
                1int
            } else {
                0
            }),
            final(self).low == old(self).low + (if sev == VulnerabilitySeverity::Low {
                1int
            } else {
                0
            }),
            final(self).critical + final(self).high + final(self).medium + final(self).low
                == final(self).total,
    {
        self.total = self.total + 1;
        match sev {
            VulnerabilitySeverity::Critical => self.critical = self.critical + 1,
            VulnerabilitySeverity::High => self.high = self.high + 1,
            VulnerabilitySeverity::Medium => self.medium = self.medium + 1,
            VulnerabilitySeverity::Low => self.low = self.low + 1,
        }
    }

    /// Whether the scan fails: failing on vulnerabilities was asked for and
    /// at least one was found.
    pub fn fails(&self, fail_on_vulns: bool) -> (r: bool)
        ensures
            r == (fail_on_vulns && self.total > 0),
    {
        fail_on_vulns && self.total > 0
    }
}

} // verus!
