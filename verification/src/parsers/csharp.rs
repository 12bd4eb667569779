//! NuGet items in .NET/MSBuild manifests (`*.csproj`, `Directory.Packages.props`).
//!
//! The items read are `PackageReference`, `PackageVersion` and
//! `GlobalPackageReference` with a literal package name and version:
//!
//! ```xml
//! <PackageReference Include="Serilog" Version="3.1.1" />
//! <PackageVersion Include="Serilog" Version="3.1.1" />
//! <PackageVersion Include="Serilog"><Version>3.1.1</Version></PackageVersion>
//! ```
//!
//! The manifest is read from the events of an XML pull reader. A document
//! that is not well-formed in any of the ways checked here (a second root,
//! text outside the root, an unclosed element, a bad declaration, a
//! document type, an unknown entity or an illegal character reference)
//! yields no dependencies at all, never a partial list.

use vstd::prelude::*;
use crate::parsers::json_spans::{is_line_of, law_line_of_unique, line_of, line_starts, offsets_wf};
use crate::parsers::maven::line_offsets;
use crate::parsers::npm_lock::is_ascii_ws;
use crate::parsers::xml_events::{
    xml_markup_events, xml_markup_events_of, XmlAttribute, XmlMarkupEvent, XmlReference, XmlTag,
};
use crate::parsers::{deps_view, DepModel, Dependency, Parser, Span};
use crate::text::{
    at_boundary, bytes, contains, contains_b, ob, sb, slice, str_eq, to_owned_string, trim,
    trim_b, trim_end, trim_end_b, trim_start, trim_start_b,
};

verus! {

/// The kinds of NuGet item read from a manifest.
#[derive(Debug, Clone, Copy, PartialEq, Eq, Structural)]
pub enum NugetItemKind {
    PackageReference,
    PackageVersion,
    GlobalPackageReference,
}

/// The item kind named by a tag's local name.
pub open spec fn kind_of(name: Seq<u8>) -> Option<NugetItemKind> {
    if name == sb("PackageReference") {
        Some(NugetItemKind::PackageReference)
    } else if name == sb("PackageVersion") {
        Some(NugetItemKind::PackageVersion)
    } else if name == sb("GlobalPackageReference") {
        Some(NugetItemKind::GlobalPackageReference)
    } else {
        None
    }
}

impl NugetItemKind {
    fn from_local_name(name: &str) -> (r: Option<Self>)
        ensures
            r == kind_of(sb(name)),
    {
        if str_eq(name, "PackageReference") {
            Some(NugetItemKind::PackageReference)
        } else if str_eq(name, "PackageVersion") {
            Some(NugetItemKind::PackageVersion)
        } else if str_eq(name, "GlobalPackageReference") {
            Some(NugetItemKind::GlobalPackageReference)
        } else {
            None
        }
    }

    fn is_development(self) -> (r: bool)
        ensures
            r == (self == NugetItemKind::GlobalPackageReference),
    {
        self == NugetItemKind::GlobalPackageReference
    }
}

// ---------------------------------------------------------------------------
// Located values and pending items
// ---------------------------------------------------------------------------

/// A value and the byte range `[start, end)` of its source text.
pub ghost struct LocModel {
    pub value: Seq<u8>,
    pub start: int,
    pub end: int,
}

struct LocatedValue {
    value: String,
    absolute_start: usize,
    absolute_end: usize,
}

impl View for LocatedValue {
    type V = LocModel;

    closed spec fn view(&self) -> LocModel {
        LocModel {
            value: ob(&self.value),
            start: self.absolute_start as int,
            end: self.absolute_end as int,
        }
    }
}

spec fn loc_opt(v: Option<LocatedValue>) -> Option<LocModel> {
    match v {
        Some(l) => Some(l@),
        None => None,
    }
}

/// The attribute keys that an item's name and version come from.
pub open spec fn tracked_key(k: Seq<u8>) -> bool {
    k == sb("Include") || k == sb("Update") || k == sb("Version")
}

/// An attribute's normalized value, located in the document: the tag's
/// content starts at `es` and is `tl` bytes long. `None` where the raw value
/// does not lie inside the tag, could not be normalized, or a position
/// overflows.
pub open spec fn attr_loc(a: XmlAttribute, es: int, tl: int) -> Option<LocModel> {
    match a.offset {
        None => None,
        Some(st) => {
            let en = st + ob(&a.value).len();
            if en > usize::MAX || en > tl {
                None
            } else {
                match a.normalized {
                    None => None,
                    Some(v) => if es + en > usize::MAX {
                        None
                    } else {
                        Some(LocModel { value: ob(&v), start: es + st, end: es + en })
                    },
                }
            }
        },
    }
}

/// The last `Include`, `Update` and `Version` attributes seen so far.
pub ghost struct AttrAcc {
    pub incl: Option<LocModel>,
    pub update: Option<LocModel>,
    pub version: Option<LocModel>,
}

/// The tracked attributes of `attrs`, read in order; `None` when one of
/// them cannot be located.
pub open spec fn attrs_acc(attrs: Seq<XmlAttribute>, es: int, tl: int) -> Option<AttrAcc>
    decreases attrs.len(),
{
    if attrs.len() == 0 {
        Some(AttrAcc { incl: None, update: None, version: None })
    } else {
        match attrs_acc(attrs.drop_last(), es, tl) {
            None => None,
            Some(acc) => {
                let a = attrs.last();
                let k = ob(&a.key);
                if !tracked_key(k) {
                    Some(acc)
                } else {
                    match attr_loc(a, es, tl) {
                        None => None,
                        Some(l) => if k == sb("Include") {
                            Some(AttrAcc { incl: Some(l), ..acc })
                        } else if k == sb("Update") {
                            Some(AttrAcc { update: Some(l), ..acc })
                        } else {
                            Some(AttrAcc { version: Some(l), ..acc })
                        },
                    }
                }
            },
        }
    }
}

proof fn lemma_acc_none_extends(attrs: Seq<XmlAttribute>, i: int, es: int, tl: int)
    requires
        0 <= i <= attrs.len(),
        attrs_acc(attrs.take(i), es, tl) is None,
    ensures
        attrs_acc(attrs, es, tl) is None,
    decreases attrs.len() - i,
{
    if i < attrs.len() {
        assert(attrs.take(i + 1).drop_last() =~= attrs.take(i));
        lemma_acc_none_extends(attrs, i + 1, es, tl);
    } else {
        assert(attrs.take(i) =~= attrs);
    }
}

/// An item read from its tag, before its end tag is seen.
pub ghost struct PendingModel {
    pub kind: NugetItemKind,
    pub name: Option<LocModel>,
    pub version: Option<LocModel>,
}

/// The item of a tag of kind `kind` whose content starts at `es`: a
/// `PackageVersion` is named by `Include`, else by `Update`; the other
/// kinds by `Include`, and not at all when they carry `Update`.
pub open spec fn pending_of(kind: NugetItemKind, tag: XmlTag, es: int) -> Option<PendingModel> {
    match attrs_acc(tag.attributes@, es, tag.content_len as int) {
        None => None,
        Some(acc) => if !tag.attributes_ok {
            None
        } else {
            Some(
                PendingModel {
                    kind,
                    name: match kind {
                        NugetItemKind::PackageVersion => if acc.incl is Some {
                            acc.incl
                        } else {
                            acc.update
                        },
                        _ => if acc.update is Some {
                            None
                        } else {
                            acc.incl
                        },
                    },
                    version: acc.version,
                },
            )
        },
    }
}

struct PendingItem {
    kind: NugetItemKind,
    name: Option<LocatedValue>,
    version: Option<LocatedValue>,
}

impl View for PendingItem {
    type V = PendingModel;

    closed spec fn view(&self) -> PendingModel {
        PendingModel { kind: self.kind, name: loc_opt(self.name), version: loc_opt(self.version) }
    }
}

fn attr_located(a: &XmlAttribute, es: usize, tl: usize) -> (r: Option<LocatedValue>)
    ensures
        loc_opt(r) == attr_loc(*a, es as int, tl as int),
{
    let st = match a.offset {
        None => return None,
        Some(s) => s,
    };
    let vlen = bytes(a.value.as_str()).len();
    let en = match st.checked_add(vlen) {
        None => return None,
        Some(e) => e,
    };
    if en > tl {
        return None;
    }
    let v = match &a.normalized {
        None => return None,
        Some(v) => to_owned_string(v.as_str()),
    };
    let abs_s = match es.checked_add(st) {
        None => return None,
        Some(x) => x,
    };
    let abs_e = match es.checked_add(en) {
        None => return None,
        Some(x) => x,
    };
    Some(LocatedValue { value: v, absolute_start: abs_s, absolute_end: abs_e })
}

fn pending_from_tag(kind: NugetItemKind, tag: &XmlTag, es: usize) -> (r: Option<PendingItem>)
    ensures
        match pending_of(kind, *tag, es as int) {
            None => r is None,
            Some(p) => r is Some && r->0@ == p,
        },
{
    let ghost attrs = tag.attributes@;
    let ghost tl = tag.content_len as int;
    let mut incl: Option<LocatedValue> = None;
    let mut update: Option<LocatedValue> = None;
    let mut version: Option<LocatedValue> = None;
    let n = tag.attributes.len();
    let mut i: usize = 0;
    while i < n
        invariant
            n == attrs.len(),
            attrs == tag.attributes@,
            tl == tag.content_len,
            i <= n,
            attrs_acc(attrs.take(i as int), es as int, tl) == Some(
                AttrAcc {
                    incl: loc_opt(incl),
                    update: loc_opt(update),
                    version: loc_opt(version),
                },
            ),
        decreases n - i,
    {
        proof {
            assert(attrs.take(i + 1).drop_last() =~= attrs.take(i as int));
        }
        let a = &tag.attributes[i];
        let k = a.key.as_str();
        let is_inc = str_eq(k, "Include");
        let is_upd = str_eq(k, "Update");
        let is_ver = str_eq(k, "Version");
        if is_inc || is_upd || is_ver {
            let loc = match attr_located(a, es, tag.content_len) {
                None => {
                    proof {
                        lemma_acc_none_extends(attrs, i + 1, es as int, tl);
                    }
                    return None;
                },
                Some(l) => l,
            };
            if is_inc {
                incl = Some(loc);
            } else if is_upd {
                update = Some(loc);
            } else {
                version = Some(loc);
            }
        }
        i = i + 1;
    }
    proof {
        assert(attrs.take(n as int) =~= attrs);
    }
    if !tag.attributes_ok {
        return None;
    }
    let name = match kind {
        NugetItemKind::PackageVersion => if incl.is_some() {
            incl
        } else {
            update
        },
        _ => if update.is_some() {
            None
        } else {
            incl
        },
    };
    Some(PendingItem { kind, name, version })
}

/// Where a tag's content starts, from the reader's position right after the
/// tag (`<` + content + `>` or `/>`).
pub open spec fn content_start(end: u64, tl: int, is_empty: bool) -> Option<int> {
    let d: int = if is_empty {
        2
    } else {
        1
    };
    if end > usize::MAX || end - tl - d < 0 {
        None
    } else {
        Some(end - tl - d)
    }
}

fn event_content_start(end: u64, tl: usize, is_empty: bool) -> (r: Option<usize>)
    ensures
        match content_start(end, tl as int, is_empty) {
            None => r is None,
            Some(x) => r == Some(x as usize),
        },
{
    if end > usize::MAX as u64 {
        return None;
    }
    let e = end as usize;
    let d: usize = if is_empty {
        2
    } else {
        1
    };
    match e.checked_sub(tl) {
        None => None,
        Some(x) => x.checked_sub(d),
    }
}

// ---------------------------------------------------------------------------
// Dependencies
// ---------------------------------------------------------------------------

/// Whether a value holds an MSBuild property, item or metadata expression.
pub open spec fn msbuild_expr(v: Seq<u8>) -> bool {
    contains_b(v, sb("$(")) || contains_b(v, sb("@(")) || contains_b(v, sb("%("))
}

fn contains_msbuild_expression(v: &str) -> (r: bool)
    ensures
        r == msbuild_expr(sb(v)),
{
    let b = bytes(v);
    contains(b, bytes("$(")) || contains(b, bytes("@(")) || contains(b, bytes("%("))
}

/// Whether a byte string holds no line feed or carriage return.
pub open spec fn single_line(v: Seq<u8>) -> bool {
    forall|i: int| 0 <= i < v.len() ==> v[i] != 10 && v[i] != 13
}

/// The span of the document's bytes `[s, e)`: none when the range is not a
/// non-empty run of characters on one line, or a position does not fit in
/// a `u32`.
pub open spec fn abs_span(c: Seq<u8>, o: Seq<usize>, s: int, e: int) -> Option<Span> {
    if !(0 <= s <= e <= c.len() && at_boundary(c, s) && at_boundary(c, e)) {
        None
    } else if s == e || !single_line(c.subrange(s, e)) {
        None
    } else {
        let l = line_of(o, s);
        if l > u32::MAX || s - o[l] > u32::MAX || e - o[l] > u32::MAX {
            None
        } else {
            Some(Span { line: l as u32, line_start: (s - o[l]) as u32, line_end: (e - o[l]) as u32 })
        }
    }
}

/// The dependency of a finished item: none without a name or a version,
/// when either is blank or holds an MSBuild expression, or when either
/// cannot be located on one line.
pub open spec fn build_dep(p: PendingModel, c: Seq<u8>, o: Seq<usize>) -> Option<DepModel> {
    match (p.name, p.version) {
        (Some(n), Some(v)) => if trim_b(n.value).len() == 0 || msbuild_expr(n.value) || trim_b(
            v.value,
        ).len() == 0 || msbuild_expr(v.value) {
            None
        } else {
            match (abs_span(c, o, n.start, n.end), abs_span(c, o, v.start, v.end)) {
                (Some(ns), Some(vs)) => Some(
                    DepModel {
                        name: n.value,
                        version: v.value,
                        name_span: ns,
                        version_span: vs,
                        dev: p.kind == NugetItemKind::GlobalPackageReference,
                        optional: false,
                        registry: None,
                        resolved_version: None,
                        has_additional_version_constraints: false,
                    },
                ),
                _ => None,
            }
        },
        _ => None,
    }
}

/// The dependencies after a finished item.
pub open spec fn push_dep(deps: Seq<DepModel>, p: PendingModel, c: Seq<u8>, o: Seq<usize>) -> Seq<
    DepModel,
> {
    match build_dep(p, c, o) {
        Some(d) => deps.push(d),
        None => deps,
    }
}

fn is_boundary(b: &[u8], i: usize) -> (r: bool)
    ensures
        r == at_boundary(b@, i as int),
{
    i <= b.len() && (i == 0 || i == b.len() || !(0x80 <= b[i] && b[i] <= 0xbf))
}

fn is_single_line(b: &[u8], s: usize, e: usize) -> (r: bool)
    requires
        s <= e <= b@.len(),
    ensures
        r == single_line(b@.subrange(s as int, e as int)),
{
    let mut i = s;
    while i < e
        invariant
            s <= i <= e <= b@.len(),
            forall|j: int| s <= j < i ==> b@[j] != 10 && b@[j] != 13,
        decreases e - i,
    {
        if b[i] == 10 || b[i] == 13 {
            proof {
                assert(b@.subrange(s as int, e as int)[i - s] == b@[i as int]);
            }
            return false;
        }
        i = i + 1;
    }
    proof {
        assert forall|j: int| 0 <= j < e - s implies b@.subrange(s as int, e as int)[j] != 10
            && b@.subrange(s as int, e as int)[j] != 13 by {
            assert(b@.subrange(s as int, e as int)[j] == b@[s + j]);
        }
    }
    true
}

/// The line of `off`: the last line start at or before it.
fn line_index(o: &[usize], off: usize) -> (l: usize)
    requires
        offsets_wf(o@),
    ensures
        l as int == line_of(o@, off as int),
        l < o@.len(),
        o@[l as int] <= off,
{
    let mut lo: usize = 1;
    let mut hi: usize = o.len();
    while lo < hi
        invariant
            offsets_wf(o@),
            1 <= lo <= hi <= o@.len(),
            o@[lo - 1] <= off,
            hi < o@.len() ==> off < o@[hi as int],
        decreases hi - lo,
    {
        let mid = lo + (hi - lo) / 2;
        if o[mid] <= off {
            lo = mid + 1;
        } else {
            hi = mid;
        }
    }
    let l = lo - 1;
    proof {
        assert(is_line_of(o@, off as int, l as int));
        law_line_of_unique(o@, off as int, l as int, line_of(o@, off as int));
    }
    l
}

fn span_from_absolute(content: &str, o: &[usize], s: usize, e: usize) -> (r: Option<Span>)
    requires
        offsets_wf(o@),
    ensures
        r == abs_span(sb(content), o@, s as int, e as int),
{
    let b = bytes(content);
    if !(s <= e && e <= b.len() && is_boundary(b, s) && is_boundary(b, e)) {
        return None;
    }
    if s == e || !is_single_line(b, s, e) {
        return None;
    }
    let l = line_index(o, s);
    let ls = o[l];
    if l > u32::MAX as usize || s - ls > u32::MAX as usize || e - ls > u32::MAX as usize {
        return None;
    }
    Some(Span { line: l as u32, line_start: (s - ls) as u32, line_end: (e - ls) as u32 })
}

fn build_dependency(p: PendingItem, content: &str, o: &[usize]) -> (r: Option<Dependency>)
    requires
        offsets_wf(o@),
    ensures
        match build_dep(p@, sb(content), o@) {
            None => r is None,
            Some(d) => r is Some && r->0@ == d,
        },
{
    let kind = p.kind;
    let name = match p.name {
        None => return None,
        Some(n) => n,
    };
    let version = match p.version {
        None => return None,
        Some(v) => v,
    };
    if bytes(trim(name.value.as_str())).len() == 0 || contains_msbuild_expression(
        name.value.as_str(),
    ) || bytes(trim(version.value.as_str())).len() == 0 || contains_msbuild_expression(
        version.value.as_str(),
    ) {
        return None;
    }
    let name_span = match span_from_absolute(content, o, name.absolute_start, name.absolute_end) {
        None => return None,
        Some(x) => x,
    };
    let version_span = match span_from_absolute(
        content,
        o,
        version.absolute_start,
        version.absolute_end,
    ) {
        None => return None,
        Some(x) => x,
    };
    Some(
        Dependency {
            name: name.value,
            version: version.value,
            name_span,
            version_span,
            dev: kind.is_development(),
            optional: false,
            registry: None,
            resolved_version: None,
            has_additional_version_constraints: false,
        },
    )
}

// ---------------------------------------------------------------------------
// The document walk
// ---------------------------------------------------------------------------

/// Where the walk is in the document: before anything, in the prolog, or at
/// or after the root element.
#[derive(Debug, Clone, Copy, PartialEq, Eq, Structural)]
pub enum DocumentPhase {
    Start,
    Prolog,
    Root,
}

/// The item whose end tag is awaited, the depth of its tag, the depth of an
/// open `<Version>` child, and whether that child's text was split or
/// repeated.
pub ghost struct ActiveModel {
    pub item: PendingModel,
    pub item_depth: int,
    pub version_depth: Option<int>,
    pub invalid: bool,
}

/// The state of the walk: dependencies found so far, the open item, the
/// element depth and the document phase.
pub ghost struct NugetState {
    pub deps: Seq<DepModel>,
    pub active: Option<ActiveModel>,
    pub depth: int,
    pub phase: DocumentPhase,
}

/// Markup inside an open `<Version>` child makes its value unusable.
pub open spec fn mark_fragmented(a: ActiveModel) -> ActiveModel {
    if a.version_depth is Some {
        ActiveModel { invalid: true, ..a }
    } else {
        a
    }
}

/// A start tag at depth `d` opens the item's `<Version>` child when it is a
/// direct child and the item has no version yet.
pub open spec fn begin_child_version(a: ActiveModel, name: Seq<u8>, d: int) -> ActiveModel {
    if name == sb("Version") && a.item.version is None && a.item_depth + 1 == d {
        ActiveModel { version_depth: Some(d), ..a }
    } else {
        a
    }
}

/// The text of the `<Version>` child becomes the item's version; a second
/// non-blank text makes it unusable.
pub open spec fn record_version(a: ActiveModel, v: Option<LocModel>) -> ActiveModel {
    if v is Some && a.item.version is Some {
        ActiveModel { invalid: true, ..a }
    } else if v is Some {
        ActiveModel { item: PendingModel { version: v, ..a.item }, ..a }
    } else {
        a
    }
}

/// Whether text at depth `d` is the content of the open `<Version>` child.
pub open spec fn at_version_text(a: ActiveModel, d: int) -> bool {
    match a.version_depth {
        Some(vd) => vd + 1 == d,
        None => false,
    }
}

/// An element at depth 0 is the root; a second one is an error.
pub open spec fn enter_root(s: NugetState) -> Option<NugetState> {
    if s.depth != 0 {
        Some(s)
    } else if s.phase == DocumentPhase::Root {
        None
    } else {
        Some(NugetState { phase: DocumentPhase::Root, ..s })
    }
}

/// The item that a tag opens (outside any open item), checking the tag's
/// attributes; `None` on a malformed tag.
pub open spec fn tag_item(s: NugetState, tag: XmlTag, end: u64, is_empty: bool) -> Option<
    Option<PendingModel>,
> {
    let kind = if s.active is None {
        kind_of(ob(&tag.local_name))
    } else {
        None
    };
    match kind {
        Some(k) => match content_start(end, tag.content_len as int, is_empty) {
            None => None,
            Some(es) => match pending_of(k, tag, es) {
                None => None,
                Some(p) => Some(Some(p)),
            },
        },
        None => if tag.attributes_ok {
            Some(None)
        } else {
            None
        },
    }
}

/// The walk after an empty-element tag.
pub open spec fn empty_step(s: NugetState, tag: XmlTag, end: u64, c: Seq<u8>, o: Seq<usize>) -> Option<
    NugetState,
> {
    match tag_item(s, tag, end, true) {
        None => None,
        Some(item) => match enter_root(s) {
            None => None,
            Some(s1) => match s1.active {
                Some(a) => Some(NugetState { active: Some(mark_fragmented(a)), ..s1 }),
                None => match item {
                    Some(p) => Some(NugetState { deps: push_dep(s1.deps, p, c, o), ..s1 }),
                    None => Some(s1),
                },
            },
        },
    }
}

/// The walk after a start tag.
pub open spec fn start_step(s: NugetState, tag: XmlTag, end: u64) -> Option<NugetState> {
    match tag_item(s, tag, end, false) {
        None => None,
        Some(item) => match enter_root(s) {
            None => None,
            Some(s1) => {
                let ed = s1.depth;
                let s2 = match s1.active {
                    Some(a) => NugetState {
                        active: Some(
                            begin_child_version(mark_fragmented(a), ob(&tag.local_name), ed),
                        ),
                        ..s1
                    },
                    None => match item {
                        Some(p) => NugetState {
                            active: Some(
                                ActiveModel {
                                    item: p,
                                    item_depth: ed,
                                    version_depth: None,
                                    invalid: false,
                                },
                            ),
                            ..s1
                        },
                        None => s1,
                    },
                };
                if s2.depth + 1 > usize::MAX {
                    None
                } else {
                    Some(NugetState { depth: s2.depth + 1, ..s2 })
                }
            },
        },
    }
}

/// Whether every byte is ASCII whitespace.
pub open spec fn all_ascii_ws(b: Seq<u8>) -> bool {
    forall|i: int| 0 <= i < b.len() ==> is_ascii_ws(#[trigger] b[i])
}

/// The trimmed value of a text ending at the reader position `end`, located
/// in the document; `None` inside when the text is blank, `None` outside
/// when the text cannot be found at that position.
pub open spec fn text_loc(text: Seq<u8>, end: u64, c: Seq<u8>) -> Option<Option<LocModel>> {
    let rs = end - text.len();
    if end > usize::MAX || rs < 0 || !(end <= c.len() && at_boundary(c, rs) && at_boundary(c, end as int)) {
        None
    } else {
        let raw = c.subrange(rs, end as int);
        let rwl = trim_start_b(raw);
        let tr = trim_end_b(rwl);
        if tr.len() == 0 {
            Some(None)
        } else {
            let st = rs + (raw.len() - rwl.len());
            Some(Some(LocModel { value: trim_b(text), start: st, end: st + tr.len() }))
        }
    }
}

/// The walk after text: only whitespace may stand outside the root, and the
/// text of an open `<Version>` child is recorded.
pub open spec fn text_step(s: NugetState, text: Seq<u8>, end: u64, c: Seq<u8>) -> Option<NugetState> {
    let s1 = if s.depth == 0 && s.phase == DocumentPhase::Start {
        NugetState { phase: DocumentPhase::Prolog, ..s }
    } else {
        s
    };
    if s1.depth == 0 && !all_ascii_ws(text) {
        None
    } else {
        match s1.active {
            None => Some(s1),
            Some(a) => if !at_version_text(a, s1.depth) {
                Some(s1)
            } else {
                match text_loc(text, end, c) {
                    None => None,
                    Some(v) => Some(NugetState { active: Some(record_version(a, v)), ..s1 }),
                }
            },
        }
    }
}

/// The walk after a comment, processing instruction, CDATA section or
/// reference; the last two may not stand outside the root.
pub open spec fn fragment_step(s: NugetState, invalid_outside_root: bool) -> Option<NugetState> {
    if invalid_outside_root && s.depth == 0 {
        None
    } else {
        let s1 = if s.depth == 0 && s.phase == DocumentPhase::Start {
            NugetState { phase: DocumentPhase::Prolog, ..s }
        } else {
            s
        };
        match s1.active {
            Some(a) => Some(NugetState { active: Some(mark_fragmented(a)), ..s1 }),
            None => Some(s1),
        }
    }
}

/// A character reference to a legal XML character, or a reference to one of
/// the five predefined entities.
pub open spec fn supported_ref(r: XmlReference) -> bool {
    match r {
        XmlReference::Char(c) => c == 0x9 || c == 0xA || c == 0xD || (0x20 <= c && c <= 0xD7FF) || (
        0xE000 <= c && c <= 0xFFFD) || (0x10000 <= c && c <= 0x10FFFF),
        XmlReference::InvalidChar => false,
        XmlReference::Entity(n) => {
            let e = ob(&n);
            e == sb("lt") || e == sb("gt") || e == sb("amp") || e == sb("apos") || e == sb("quot")
        },
    }
}

/// An encoding name: a letter, then letters, digits, `.`, `_` or `-`.
pub open spec fn valid_encoding(v: Seq<u8>) -> bool {
    &&& v.len() > 0
    &&& is_alpha(v[0])
    &&& forall|i: int| 1 <= i < v.len() ==> enc_byte(#[trigger] v[i])
}

pub open spec fn is_alpha(x: u8) -> bool {
    (0x41 <= x && x <= 0x5A) || (0x61 <= x && x <= 0x7A)
}

pub open spec fn enc_byte(x: u8) -> bool {
    is_alpha(x) || (0x30 <= x && x <= 0x39) || x == 0x2E || x == 0x5F || x == 0x2D
}

/// The declaration's attributes must come as `version`, then optionally
/// `encoding`, then optionally `standalone`: the position reached.
pub open spec fn decl_next(p: int, k: Seq<u8>, v: Seq<u8>) -> Option<int> {
    if p == 0 && k == sb("version") && (v == sb("1.0") || v == sb("1.1")) {
        Some(1)
    } else if p == 1 && k == sb("encoding") && valid_encoding(v) {
        Some(2)
    } else if (p == 1 || p == 2) && k == sb("standalone") && (v == sb("yes") || v == sb("no")) {
        Some(3)
    } else {
        None
    }
}

pub open spec fn decl_pos(attrs: Seq<(String, String)>) -> Option<int>
    decreases attrs.len(),
{
    if attrs.len() == 0 {
        Some(0)
    } else {
        match decl_pos(attrs.drop_last()) {
            None => None,
            Some(p) => decl_next(p, ob(&attrs.last().0), ob(&attrs.last().1)),
        }
    }
}

/// A well-formed XML declaration: whitespace after `xml`, and a version.
pub open spec fn decl_valid(content: Seq<u8>, attrs: Seq<(String, String)>, ok: bool) -> bool {
    &&& content.len() > 3
    &&& is_ascii_ws(content[3])
    &&& ok
    &&& decl_pos(attrs) matches Some(p) && p != 0
}

/// The walk after an XML declaration, which must come first.
pub open spec fn decl_step(s: NugetState, content: Seq<u8>, attrs: Seq<(String, String)>, ok: bool) -> Option<
    NugetState,
> {
    if s.depth != 0 || s.phase != DocumentPhase::Start || !decl_valid(content, attrs, ok) {
        None
    } else {
        Some(NugetState { phase: DocumentPhase::Prolog, ..s })
    }
}

/// The walk after an end tag: it closes the `<Version>` child or the item
/// at its depth, and a closed item yields its dependency unless its version
/// text was unusable.
pub open spec fn end_step(s: NugetState, name: Seq<u8>, c: Seq<u8>, o: Seq<usize>) -> Option<NugetState> {
    if s.depth == 0 {
        None
    } else {
        let ed = s.depth - 1;
        let s1 = NugetState { depth: ed, ..s };
        let s2opt = match s1.active {
            Some(a) => if a.version_depth == Some(ed) {
                if name != sb("Version") {
                    None
                } else {
                    Some(NugetState { active: Some(ActiveModel { version_depth: None, ..a }), ..s1 })
                }
            } else {
                Some(s1)
            },
            None => Some(s1),
        };
        match s2opt {
            None => None,
            Some(s2) => match s2.active {
                Some(a) => if a.item_depth == ed {
                    if kind_of(name) != Some(a.item.kind) {
                        None
                    } else {
                        Some(
                            NugetState {
                                active: None,
                                deps: if !a.invalid {
                                    push_dep(s2.deps, a.item, c, o)
                                } else {
                                    s2.deps
                                },
                                ..s2
                            },
                        )
                    }
                } else {
                    Some(s2)
                },
                None => Some(s2),
            },
        }
    }
}

/// The walk after one event other than the end of the document, a read
/// error or a document type (which end it).
pub open spec fn nuget_step(s: NugetState, ev: XmlMarkupEvent, c: Seq<u8>, o: Seq<usize>) -> Option<
    NugetState,
> {
    match ev {
        XmlMarkupEvent::Start { tag, end } => start_step(s, tag, end),
        XmlMarkupEvent::Empty { tag, end } => empty_step(s, tag, end, c, o),
        XmlMarkupEvent::End { local_name } => end_step(s, ob(&local_name), c, o),
        XmlMarkupEvent::Text { text, end } => text_step(s, ob(&text), end, c),
        XmlMarkupEvent::CData => fragment_step(s, true),
        XmlMarkupEvent::Comment => fragment_step(s, false),
        XmlMarkupEvent::PI => fragment_step(s, false),
        XmlMarkupEvent::Reference(r) => if supported_ref(r) {
            fragment_step(s, true)
        } else {
            None
        },
        XmlMarkupEvent::Decl { content, attributes, attributes_ok } => decl_step(
            s,
            ob(&content),
            attributes@,
            attributes_ok,
        ),
        _ => None,
    }
}

/// The dependencies at the end of the document: only of a document with one
/// closed root and no open item.
pub open spec fn nuget_finish(s: NugetState) -> Option<Seq<DepModel>> {
    if s.phase == DocumentPhase::Root && s.depth == 0 && s.active is None {
        Some(s.deps)
    } else {
        None
    }
}

/// The walk over the events from `i` on; the event list ends at `Eof` (or
/// where it runs out), and fails at a read error or a document type.
pub open spec fn nuget_from(s: NugetState, evs: Seq<XmlMarkupEvent>, i: int, c: Seq<u8>, o: Seq<usize>) -> Option<
    Seq<DepModel>,
>
    decreases evs.len() - i,
{
    if i < 0 || i >= evs.len() {
        nuget_finish(s)
    } else {
        match evs[i] {
            XmlMarkupEvent::Eof => nuget_finish(s),
            XmlMarkupEvent::Error => None,
            XmlMarkupEvent::DocType => None,
            _ => match nuget_step(s, evs[i], c, o) {
                None => None,
                Some(s2) => nuget_from(s2, evs, i + 1, c, o),
            },
        }
    }
}

pub open spec fn nuget_init() -> NugetState {
    NugetState { deps: Seq::empty(), active: None, depth: 0, phase: DocumentPhase::Start }
}

/// The NuGet dependencies of a manifest from its reader events; none at all
/// for a malformed document.
pub open spec fn nuget_deps(c: Seq<u8>, evs: Seq<XmlMarkupEvent>) -> Seq<DepModel> {
    match nuget_from(nuget_init(), evs, 0, c, line_starts(c)) {
        Some(d) => d,
        None => Seq::empty(),
    }
}

// ---------------------------------------------------------------------------
// The walk, executed
// ---------------------------------------------------------------------------

struct ActiveItem {
    item: PendingItem,
    item_depth: usize,
    version_depth: Option<usize>,
    invalid_child_version: bool,
}

spec fn opt_int(v: Option<usize>) -> Option<int> {
    match v {
        Some(d) => Some(d as int),
        None => None,
    }
}

impl View for ActiveItem {
    type V = ActiveModel;

    closed spec fn view(&self) -> ActiveModel {
        ActiveModel {
            item: self.item@,
            item_depth: self.item_depth as int,
            version_depth: opt_int(self.version_depth),
            invalid: self.invalid_child_version,
        }
    }
}

fn mark_fragmented_version(a: ActiveItem) -> (r: ActiveItem)
    ensures
        r@ == mark_fragmented(a@),
{
    if a.version_depth.is_some() {
        ActiveItem { invalid_child_version: true, ..a }
    } else {
        a
    }
}

fn begin_child(a: ActiveItem, name: &str, d: usize) -> (r: ActiveItem)
    ensures
        r@ == begin_child_version(a@, sb(name), d as int),
{
    if str_eq(name, "Version") && a.item.version.is_none() && a.item_depth.checked_add(1) == Some(
        d,
    ) {
        ActiveItem { version_depth: Some(d), ..a }
    } else {
        a
    }
}

fn record_version_text(a: ActiveItem, v: Option<LocatedValue>) -> (r: ActiveItem)
    ensures
        r@ == record_version(a@, loc_opt(v)),
{
    if v.is_some() && a.item.version.is_some() {
        ActiveItem { invalid_child_version: true, ..a }
    } else if v.is_some() {
        let item = PendingItem { kind: a.item.kind, name: a.item.name, version: v };
        ActiveItem { item, ..a }
    } else {
        a
    }
}

fn is_version_text_depth(a: &ActiveItem, d: usize) -> (r: bool)
    ensures
        r == at_version_text(a@, d as int),
{
    match a.version_depth {
        Some(vd) => vd.checked_add(1) == Some(d),
        None => false,
    }
}

fn is_xml_whitespace(b: &[u8]) -> (r: bool)
    ensures
        r == all_ascii_ws(b@),
{
    let mut i: usize = 0;
    while i < b.len()
        invariant
            i <= b@.len(),
            forall|j: int| 0 <= j < i ==> is_ascii_ws(#[trigger] b@[j]),
        decreases b@.len() - i,
    {
        let x = b[i];
        if !(x == 0x20 || x == 0x09 || x == 0x0A || x == 0x0C || x == 0x0D) {
            return false;
        }
        i = i + 1;
    }
    true
}

fn located_text(text: &str, end: u64, content: &str) -> (r: Option<Option<LocatedValue>>)
    ensures
        match text_loc(sb(text), end, sb(content)) {
            None => r is None,
            Some(v) => r is Some && loc_opt(r->0) == v,
        },
{
    if end > usize::MAX as u64 {
        return None;
    }
    let e = end as usize;
    let tlen = bytes(text).len();
    if e < tlen {
        return None;
    }
    let rs = e - tlen;
    let cb = bytes(content);
    if !(e <= cb.len() && is_boundary(cb, rs) && is_boundary(cb, e)) {
        return None;
    }
    let raw = slice(content, rs, e);
    let rwl = trim_start(raw);
    let tr = trim_end(rwl);
    let trl = bytes(tr).len();
    if trl == 0 {
        return Some(None);
    }
    proof {
        crate::text::lemma_skip_ws_bounds(sb(raw), 0);
        crate::text::lemma_skip_ws_back_bounds(sb(rwl), sb(rwl).len() as int);
    }
    let st = rs + (bytes(raw).len() - bytes(rwl).len());
    let value = to_owned_string(trim(text));
    Some(Some(LocatedValue { value, absolute_start: st, absolute_end: st + trl }))
}

fn is_supported_reference(r: &XmlReference) -> (b: bool)
    ensures
        b == supported_ref(*r),
{
    match r {
        XmlReference::Char(c) => {
            let c = *c;
            c == 0x9 || c == 0xA || c == 0xD || (0x20 <= c && c <= 0xD7FF) || (0xE000 <= c && c
                <= 0xFFFD) || (0x10000 <= c && c <= 0x10FFFF)
        },
        XmlReference::InvalidChar => false,
        XmlReference::Entity(n) => {
            let e = n.as_str();
            str_eq(e, "lt") || str_eq(e, "gt") || str_eq(e, "amp") || str_eq(e, "apos") || str_eq(
                e,
                "quot",
            )
        },
    }
}

fn is_valid_xml_encoding(v: &[u8]) -> (r: bool)
    ensures
        r == valid_encoding(v@),
{
    if v.len() == 0 {
        return false;
    }
    let f = v[0];
    if !((0x41 <= f && f <= 0x5A) || (0x61 <= f && f <= 0x7A)) {
        return false;
    }
    let mut i: usize = 1;
    while i < v.len()
        invariant
            1 <= i <= v@.len(),
            forall|j: int| 1 <= j < i ==> enc_byte(#[trigger] v@[j]),
        decreases v@.len() - i,
    {
        let x = v[i];
        if !((0x41 <= x && x <= 0x5A) || (0x61 <= x && x <= 0x7A) || (0x30 <= x && x <= 0x39) || x
            == 0x2E || x == 0x5F || x == 0x2D) {
            return false;
        }
        i = i + 1;
    }
    true
}

fn validate_xml_declaration(content: &str, attrs: &Vec<(String, String)>, ok: bool) -> (r: bool)
    ensures
        r == decl_valid(sb(content), attrs@, ok),
{
    let cb = bytes(content);
    if !(cb.len() > 3) {
        return false;
    }
    let x = cb[3];
    if !(x == 0x20 || x == 0x09 || x == 0x0A || x == 0x0C || x == 0x0D) {
        return false;
    }
    let ghost av = attrs@;
    let mut pos: usize = 0;
    let mut i: usize = 0;
    while i < attrs.len()
        invariant
            av == attrs@,
            i <= av.len(),
            decl_pos(av.take(i as int)) == Some(pos as int),
            pos <= 3,
        decreases av.len() - i,
    {
        proof {
            assert(av.take(i + 1).drop_last() =~= av.take(i as int));
        }
        let k = attrs[i].0.as_str();
        let v = attrs[i].1.as_str();
        let next: usize = if pos == 0 && str_eq(k, "version") && (str_eq(v, "1.0") || str_eq(
            v,
            "1.1",
        )) {
            1
        } else if pos == 1 && str_eq(k, "encoding") && is_valid_xml_encoding(bytes(v)) {
            2
        } else if (pos == 1 || pos == 2) && str_eq(k, "standalone") && (str_eq(v, "yes") || str_eq(
            v,
            "no",
        )) {
            3
        } else {
            proof {
                lemma_decl_none_extends(av, i + 1);
            }
            return false;
        };
        pos = next;
        i = i + 1;
    }
    proof {
        assert(av.take(av.len() as int) =~= av);
    }
    ok && pos != 0
}

proof fn lemma_decl_none_extends(attrs: Seq<(String, String)>, i: int)
    requires
        0 <= i <= attrs.len(),
        decl_pos(attrs.take(i)) is None,
    ensures
        decl_pos(attrs) is None,
    decreases attrs.len() - i,
{
    if i < attrs.len() {
        assert(attrs.take(i + 1).drop_last() =~= attrs.take(i));
        lemma_decl_none_extends(attrs, i + 1);
    } else {
        assert(attrs.take(i) =~= attrs);
    }
}

struct ParseState {
    newline_starts: Vec<usize>,
    dependencies: Vec<Dependency>,
    active: Option<ActiveItem>,
    depth: usize,
    document_phase: DocumentPhase,
}

spec fn active_opt(a: Option<ActiveItem>) -> Option<ActiveModel> {
    match a {
        Some(x) => Some(x@),
        None => None,
    }
}

impl View for ParseState {
    type V = NugetState;

    closed spec fn view(&self) -> NugetState {
        NugetState {
            deps: deps_view(self.dependencies@),
            active: active_opt(self.active),
            depth: self.depth as int,
            phase: self.document_phase,
        }
    }
}

impl ParseState {
    spec fn wf(&self, content: &str) -> bool {
        &&& self.newline_starts@ == line_starts(sb(content))
        &&& offsets_wf(self.newline_starts@)
    }

    fn new(content: &str) -> (r: Self)
        ensures
            r.wf(content),
            r@ == nuget_init(),
    {
        let r = ParseState {
            newline_starts: line_offsets(content),
            dependencies: Vec::new(),
            active: None,
            depth: 0,
            document_phase: DocumentPhase::Start,
        };
        proof {
            assert(deps_view(r.dependencies@) =~= Seq::<DepModel>::empty());
        }
        r
    }

    fn push_dependency(&mut self, content: &str, item: PendingItem)
        requires
            old(self).wf(content),
        ensures
            final(self).wf(content),
            final(self)@ == (NugetState {
                deps: push_dep(old(self)@.deps, item@, sb(content), old(self).newline_starts@),
                ..old(self)@
            }),
    {
        let ghost before = self.dependencies@;
        match build_dependency(item, content, self.newline_starts.as_slice()) {
            Some(d) => {
                self.dependencies.push(d);
                proof {
                    assert(deps_view(self.dependencies@) =~= deps_view(before).push(d@));
                }
            },
            None => {},
        }
    }

    fn register_root_element(&mut self) -> (r: bool)
        ensures
            match enter_root(old(self)@) {
                None => !r,
                Some(s2) => r && final(self)@ == s2,
            },
            final(self).newline_starts == old(self).newline_starts,
    {
        if self.depth != 0 {
            return true;
        }
        if self.document_phase == DocumentPhase::Root {
            return false;
        }
        self.document_phase = DocumentPhase::Root;
        true
    }

    /// The item a tag opens, or `Err` on a malformed tag.
    fn tag_item_of(&self, tag: &XmlTag, end: u64, is_empty: bool) -> (r: Result<Option<PendingItem>, ()>)
        ensures
            match tag_item(self@, *tag, end, is_empty) {
                None => r is Err,
                Some(None) => r == Ok::<Option<PendingItem>, ()>(None),
                Some(Some(p)) => r matches Ok(Some(q)) && q@ == p,
            },
    {
        let kind = if self.active.is_none() {
            NugetItemKind::from_local_name(tag.local_name.as_str())
        } else {
            None
        };
        match kind {
            Some(k) => {
                let es = match event_content_start(end, tag.content_len, is_empty) {
                    None => return Err(()),
                    Some(x) => x,
                };
                match pending_from_tag(k, tag, es) {
                    None => Err(()),
                    Some(p) => Ok(Some(p)),
                }
            },
            None => if tag.attributes_ok {
                Ok(None)
            } else {
                Err(())
            },
        }
    }

    fn handle_empty(&mut self, content: &str, tag: &XmlTag, end: u64) -> (r: bool)
        requires
            old(self).wf(content),
        ensures
            match empty_step(old(self)@, *tag, end, sb(content), old(self).newline_starts@) {
                None => !r,
                Some(s2) => r && final(self)@ == s2 && final(self).wf(content),
            },
    {
        let item = match self.tag_item_of(tag, end, true) {
            Err(_) => return false,
            Ok(i) => i,
        };
        if !self.register_root_element() {
            return false;
        }
        match self.active.take() {
            Some(a) => {
                self.active = Some(mark_fragmented_version(a));
                true
            },
            None => {
                match item {
                    Some(p) => self.push_dependency(content, p),
                    None => {},
                }
                true
            },
        }
    }

    fn handle_start(&mut self, content: &str, tag: &XmlTag, end: u64) -> (r: bool)
        requires
            old(self).wf(content),
        ensures
            match start_step(old(self)@, *tag, end) {
                None => !r,
                Some(s2) => r && final(self)@ == s2 && final(self).wf(content),
            },
    {
        let item = match self.tag_item_of(tag, end, false) {
            Err(_) => return false,
            Ok(i) => i,
        };
        if !self.register_root_element() {
            return false;
        }
        let event_depth = self.depth;
        match self.active.take() {
            Some(a) => {
                let a2 = begin_child(
                    mark_fragmented_version(a),
                    tag.local_name.as_str(),
                    event_depth,
                );
                self.active = Some(a2);
            },
            None => {
                match item {
                    Some(p) => {
                        self.active = Some(
                            ActiveItem {
                                item: p,
                                item_depth: event_depth,
                                version_depth: None,
                                invalid_child_version: false,
                            },
                        );
                    },
                    None => {},
                }
            },
        }
        match self.depth.checked_add(1) {
            None => false,
            Some(d) => {
                self.depth = d;
                true
            },
        }
    }

    fn handle_text(&mut self, content: &str, text: &str, end: u64) -> (r: bool)
        requires
            old(self).wf(content),
        ensures
            match text_step(old(self)@, sb(text), end, sb(content)) {
                None => !r,
                Some(s2) => r && final(self)@ == s2 && final(self).wf(content),
            },
    {
        if self.depth == 0 && self.document_phase == DocumentPhase::Start {
            self.document_phase = DocumentPhase::Prolog;
        }
        if self.depth == 0 && !is_xml_whitespace(bytes(text)) {
            return false;
        }
        let a = match self.active.take() {
            None => return true,
            Some(a) => a,
        };
        if !is_version_text_depth(&a, self.depth) {
            self.active = Some(a);
            return true;
        }
        match located_text(text, end, content) {
            None => false,
            Some(v) => {
                self.active = Some(record_version_text(a, v));
                true
            },
        }
    }

    fn handle_fragmented_content(&mut self, invalid_outside_root: bool) -> (r: bool)
        ensures
            match fragment_step(old(self)@, invalid_outside_root) {
                None => !r,
                Some(s2) => r && final(self)@ == s2,
            },
            final(self).newline_starts == old(self).newline_starts,
    {
        if invalid_outside_root && self.depth == 0 {
            return false;
        }
        if self.depth == 0 && self.document_phase == DocumentPhase::Start {
            self.document_phase = DocumentPhase::Prolog;
        }
        match self.active.take() {
            Some(a) => {
                self.active = Some(mark_fragmented_version(a));
            },
            None => {},
        }
        true
    }

    fn handle_declaration(&mut self, content: &str, attrs: &Vec<(String, String)>, ok: bool) -> (r:
        bool)
        ensures
            match decl_step(old(self)@, sb(content), attrs@, ok) {
                None => !r,
                Some(s2) => r && final(self)@ == s2,
            },
            final(self).newline_starts == old(self).newline_starts,
    {
        if self.depth != 0 || self.document_phase != DocumentPhase::Start {
            return false;
        }
        if !validate_xml_declaration(content, attrs, ok) {
            return false;
        }
        self.document_phase = DocumentPhase::Prolog;
        true
    }

    fn handle_end(&mut self, content: &str, local_name: &str) -> (r: bool)
        requires
            old(self).wf(content),
        ensures
            match end_step(old(self)@, sb(local_name), sb(content), old(self).newline_starts@) {
                None => !r,
                Some(s2) => r && final(self)@ == s2 && final(self).wf(content),
            },
    {
        let event_depth = match self.depth.checked_sub(1) {
            None => return false,
            Some(d) => d,
        };
        self.depth = event_depth;
        match self.active.take() {
            Some(a) => {
                if a.version_depth == Some(event_depth) {
                    if !str_eq(local_name, "Version") {
                        return false;
                    }
                    self.active = Some(ActiveItem { version_depth: None, ..a });
                } else {
                    self.active = Some(a);
                }
            },
            None => {},
        }
        match self.active.take() {
            Some(a) => {
                if a.item_depth == event_depth {
                    if NugetItemKind::from_local_name(local_name) != Some(a.item.kind) {
                        return false;
                    }
                    if !a.invalid_child_version {
                        self.push_dependency(content, a.item);
                    }
                } else {
                    self.active = Some(a);
                }
            },
            None => {},
        }
        true
    }

    fn finish(self) -> (r: Option<Vec<Dependency>>)
        ensures
            match nuget_finish(self@) {
                None => r is None,
                Some(d) => r matches Some(v) && deps_view(v@) == d,
            },
    {
        if self.document_phase == DocumentPhase::Root && self.depth == 0 && self.active.is_none() {
            Some(self.dependencies)
        } else {
            None
        }
    }
}

fn parse_xml(content: &str, events: &[XmlMarkupEvent]) -> (r: Option<Vec<Dependency>>)
    ensures
        match nuget_from(nuget_init(), events@, 0, sb(content), line_starts(sb(content))) {
            None => r is None,
            Some(d) => r matches Some(v) && deps_view(v@) == d,
        },
{
    let ghost c = sb(content);
    let ghost o = line_starts(sb(content));
    let mut state = ParseState::new(content);
    let n = events.len();
    let mut i: usize = 0;
    while i < n
        invariant
            n == events@.len(),
            i <= n,
            state.wf(content),
            c == sb(content),
            o == line_starts(sb(content)),
            nuget_from(state@, events@, i as int, c, o) == nuget_from(nuget_init(), events@, 0, c, o),
        decreases n - i,
    {
        let ok = match &events[i] {
            XmlMarkupEvent::Eof => return state.finish(),
            XmlMarkupEvent::Error => return None,
            XmlMarkupEvent::DocType => return None,
            XmlMarkupEvent::Start { tag, end } => state.handle_start(content, tag, *end),
            XmlMarkupEvent::Empty { tag, end } => state.handle_empty(content, tag, *end),
            XmlMarkupEvent::End { local_name } => state.handle_end(content, local_name.as_str()),
            XmlMarkupEvent::Text { text, end } => state.handle_text(content, text.as_str(), *end),
            XmlMarkupEvent::CData => state.handle_fragmented_content(true),
            XmlMarkupEvent::Comment => state.handle_fragmented_content(false),
            XmlMarkupEvent::PI => state.handle_fragmented_content(false),
            XmlMarkupEvent::Reference(r) => if is_supported_reference(r) {
                state.handle_fragmented_content(true)
            } else {
                false
            },
            XmlMarkupEvent::Decl { content: decl, attributes, attributes_ok } => state.handle_declaration(
                decl.as_str(),
                attributes,
                *attributes_ok,
            ),
        };
        if !ok {
            return None;
        }
        i = i + 1;
    }
    state.finish()
}

/// Parser for NuGet items in .NET/MSBuild manifests.
#[derive(Debug, Default)]
pub struct CsharpParser;

impl CsharpParser {
    /// Creates a new [`CsharpParser`] instance.
    pub fn new() -> Self {
        CsharpParser
    }

    /// The NuGet dependencies of a manifest, from the events that an XML
    /// reader (with comment checks on) produced over `content` (as
    /// [`xml_markup_events`] gives them); none at all when the document is
    /// malformed.
    pub fn parse_document(&self, content: &str, events: &[XmlMarkupEvent]) -> (deps: Vec<Dependency>)
        ensures
            deps_view(deps@) == nuget_deps(sb(content), events@),
    {
        match parse_xml(content, events) {
            Some(d) => d,
            None => {
                let v: Vec<Dependency> = Vec::new();
                proof {
                    assert(deps_view(v@) =~= Seq::<DepModel>::empty());
                }
                v
            },
        }
    }
}

impl Parser for CsharpParser {
    /// The NuGet dependencies of a manifest, read with `quick-xml`.
    fn parse(&self, content: &str) -> (deps: Vec<Dependency>)
        ensures
            deps_view(deps@) == nuget_deps(sb(content), xml_markup_events_of(sb(content))),
    {
        let events = xml_markup_events(content);
        self.parse_document(content, events.as_slice())
    }
}

proof fn lemma_error_ahead(s: NugetState, evs: Seq<XmlMarkupEvent>, i: int, k: int, c: Seq<u8>, o: Seq<usize>)
    requires
        0 <= i <= k < evs.len(),
        evs[k] is Error || evs[k] is DocType,
        forall|j: int| i <= j < k ==> !(#[trigger] evs[j] is Eof),
    ensures
        nuget_from(s, evs, i, c, o) is None,
    decreases k - i,
{
    if i < k {
        assert(!(evs[i] is Eof));
        match nuget_step(s, evs[i], c, o) {
            None => {},
            Some(s2) => {
                lemma_error_ahead(s2, evs, i + 1, k, c, o);
            },
        }
    }
}

/// A read error or a document type before the end of the document leaves no
/// dependencies at all: a malformed manifest never yields a partial list.
pub proof fn law_nuget_error_yields_nothing(c: Seq<u8>, evs: Seq<XmlMarkupEvent>, k: int)
    requires
        0 <= k < evs.len(),
        evs[k] is Error || evs[k] is DocType,
        forall|j: int| 0 <= j < k ==> !(#[trigger] evs[j] is Eof),
    ensures
        nuget_deps(c, evs) == Seq::<DepModel>::empty(),
{
    lemma_error_ahead(nuget_init(), evs, 0, k, c, line_starts(c));
}

/// A document whose events end without a root element yields nothing.
pub proof fn law_nuget_empty_document(c: Seq<u8>)
    ensures
        nuget_deps(c, seq![XmlMarkupEvent::Eof]) == Seq::<DepModel>::empty(),
{
}

} // verus!
