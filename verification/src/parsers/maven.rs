//! Maven (`pom.xml`) manifests for Java projects.
//!
//! Direct dependencies declared in `<dependencies>` and
//! `<dependencyManagement>` are read in two passes over the reader's events:
//! first the `<properties>` (and the built-in `project.version`,
//! `project.groupId`, `project.artifactId`), then the dependencies, with
//! `${...}` property references substituted. A dependency is named
//! `groupId:artifactId` (the convention of OSV.dev and mvnrepository.com).
//!
//! Parent POM inheritance, BOM imports and plugin dependencies are not read.

use vstd::prelude::*;
use vstd::utf8::valid_utf8;
use crate::parsers::json_spans::{is_line_of, law_line_of_unique, line_of, line_starts, offsets_wf};
use crate::parsers::lock_map::{insert_first, lock_map_entries, LockMap};
use crate::parsers::lockfile_graph::strings_view;
use crate::parsers::npm_lock::is_ascii_ws;
use crate::parsers::xml_events::{xml_events, xml_events_of, XmlEvent};
use crate::parsers::{deps_view, opt_bytes, DepModel, Dependency, Parser, Span};
use crate::text::{
    append_str, at_boundary, bytes, contains, contains_b, find_b, find_byte, find_s, find_seq,
    lemma_after_ascii, lemma_find_b, lemma_find_s, ob, sb, slice, str_eq, to_owned_string, trim,
    trim_b,
};

verus! {

broadcast use vstd::utf8::encode_utf8_valid_utf8, vstd::utf8::encode_utf8_decode_utf8;

proof fn lit_dollar_brace()
    ensures
        sb("${") == seq![36u8, 123],
{
    reveal_strlit("${");
    assert(vstd::string::is_ascii("${"));
    assert(sb("${") =~= seq![36u8, 123]);
}

proof fn lit_close_brace()
    ensures
        sb("}") == seq![125u8],
{
    reveal_strlit("}");
    assert(vstd::string::is_ascii("}"));
    assert(sb("}") =~= seq![125u8]);
}

// ---------------------------------------------------------------------------
// Property substitution
// ---------------------------------------------------------------------------

/// One pass of `${key}` substitution over `rest`: each placeholder whose key
/// has a value is replaced by it, others are kept verbatim, and an
/// unterminated `${` ends the pass with the rest kept as it is.
pub open spec fn subst_once(rest: Seq<u8>, props: Map<Seq<u8>, Seq<u8>>) -> Seq<u8>
    decreases rest.len(),
    via subst_once_decreases
{
    match find_s(rest, 0, sb("${")) {
        None => rest,
        Some(st) => {
            let after = rest.subrange(st + 2, rest.len() as int);
            match find_b(after, 0, 0x7D) {
                Some(e) => {
                    let key = after.subrange(0, e);
                    rest.subrange(0, st) + (if props.dom().contains(key) {
                        props[key]
                    } else {
                        sb("${") + key + sb("}")
                    }) + subst_once(after.subrange(e + 1, after.len() as int), props)
                },
                None => rest.subrange(0, st) + sb("${") + after,
            }
        },
    }
}

#[via_fn]
proof fn subst_once_decreases(rest: Seq<u8>, props: Map<Seq<u8>, Seq<u8>>) {
    lit_dollar_brace();
    lemma_find_s(rest, 0, sb("${"));
    if let Some(st) = find_s(rest, 0, sb("${")) {
        let after = rest.subrange(st + 2, rest.len() as int);
        lemma_find_b(after, 0, 0x7D);
    }
}

/// Substitution repeated until nothing changes, at most `k` passes.
pub open spec fn subst_fix(cur: Seq<u8>, props: Map<Seq<u8>, Seq<u8>>, k: nat) -> Seq<u8>
    decreases k,
{
    if k == 0 {
        cur
    } else {
        let next = subst_once(cur, props);
        if next == cur {
            cur
        } else {
            subst_fix(next, props, (k - 1) as nat)
        }
    }
}

/// `${property}` substitution: nothing to do without a `${` or without
/// properties; otherwise passes until a fixed point, at most eight (which
/// stops circular references such as `${a}` = `${b}`, `${b}` = `${a}`).
pub open spec fn substitute_spec(raw: Seq<u8>, props: Map<Seq<u8>, Seq<u8>>) -> Seq<u8> {
    if !contains_b(raw, sb("${")) || props.len() == 0 {
        raw
    } else {
        subst_fix(raw, props, 8)
    }
}

/// Without properties a pass keeps every placeholder, and so the whole
/// string, verbatim.
pub proof fn law_subst_once_without_properties(rest: Seq<u8>)
    ensures
        subst_once(rest, Map::empty()) == rest,
    decreases rest.len(),
{
    lit_dollar_brace();
    lemma_find_s(rest, 0, sb("${"));
    match find_s(rest, 0, sb("${")) {
        None => {},
        Some(st) => {
            let after = rest.subrange(st + 2, rest.len() as int);
            lemma_find_b(after, 0, 0x7D);
            match find_b(after, 0, 0x7D) {
                Some(e) => {
                    let key = after.subrange(0, e);
                    let tail = after.subrange(e + 1, after.len() as int);
                    law_subst_once_without_properties(tail);
                    lit_close_brace();
                    assert(rest.subrange(st, st + 2) == sb("${"));
                    assert(rest =~= rest.subrange(0, st) + sb("${") + key + sb("}") + tail);
                },
                None => {
                    assert(rest.subrange(st, st + 2) == sb("${"));
                    assert(rest =~= rest.subrange(0, st) + sb("${") + after);
                },
            }
        },
    }
}

/// A string that one pass leaves unchanged is what substitution returns:
/// substitution stops at the first fixed point.
pub proof fn law_substitute_fixed_point(raw: Seq<u8>, props: Map<Seq<u8>, Seq<u8>>)
    requires
        subst_once(raw, props) == raw,
    ensures
        substitute_spec(raw, props) == raw,
{
}

/// A single pass of placeholder resolution; the caller iterates to a fixed point.
pub fn substitute_once(raw: &str, properties: &LockMap) -> (r: String)
    ensures
        ob(&r) == subst_once(sb(raw), lock_map_entries(*properties)),
{
    let ghost props = lock_map_entries(*properties);
    let mut out = String::new();
    let mut rest = raw;
    proof {
        lit_dollar_brace();
        lit_close_brace();
        assert(ob(&out) =~= Seq::<u8>::empty());
        assert(ob(&out) + subst_once(sb(rest), props) =~= subst_once(sb(raw), props));
    }
    loop
        invariant
            props == lock_map_entries(*properties),
            sb("${") == seq![36u8, 123],
            sb("}") == seq![125u8],
            ob(&out) + subst_once(sb(rest), props) == subst_once(sb(raw), props),
        decreases sb(rest).len(),
    {
        let rb = bytes(rest);
        let n = rb.len();
        proof {
            lemma_find_s(rb@, 0, sb("${"));
        }
        match find_seq(rb, 0, bytes("${")) {
            None => {
                let ghost o0 = ob(&out);
                append_str(&mut out, rest);
                proof {
                    assert(ob(&out) =~= o0 + subst_once(sb(rest), props));
                    assert(ob(&out) =~= subst_once(sb(raw), props));
                }
                return out;
            },
            Some(st) => {
                proof {
                    assert(rb@[st as int] == 36);
                    assert(rb@[st + 1] == 123);
                    lemma_after_ascii(rb@, st as int);
                    lemma_after_ascii(rb@, st + 1);
                }
                let head = slice(rest, 0, st);
                let after = slice(rest, st + 2, n);
                let ab = bytes(after);
                let an = ab.len();
                let ghost o0 = ob(&out);
                append_str(&mut out, head);
                proof {
                    lemma_find_b(ab@, 0, 0x7D);
                }
                match find_byte(ab, 0, 0x7D) {
                    Some(e) => {
                        proof {
                            lemma_after_ascii(ab@, e as int);
                        }
                        let key = slice(after, 0, e);
                        let ghost o1 = ob(&out);
                        match properties.get(key) {
                            Some(v) => {
                                append_str(&mut out, v.as_str());
                            },
                            None => {
                                append_str(&mut out, "${");
                                append_str(&mut out, key);
                                append_str(&mut out, "}");
                                proof {
                                    assert(ob(&out) =~= o1 + (sb("${") + sb(key) + sb("}")));
                                }
                            },
                        }
                        let next = slice(after, e + 1, an);
                        proof {
                            assert(sb(next) =~= sb(after).subrange(e + 1, sb(after).len() as int));
                            assert(ob(&out) + subst_once(sb(next), props) =~= o0 + subst_once(
                                sb(rest),
                                props,
                            ));
                        }
                        rest = next;
                    },
                    None => {
                        append_str(&mut out, "${");
                        append_str(&mut out, after);
                        proof {
                            assert(ob(&out) =~= o0 + subst_once(sb(rest), props));
                            assert(ob(&out) =~= subst_once(sb(raw), props));
                        }
                        return out;
                    },
                }
            },
        }
    }
}

/// Substitute `${property}` placeholders in a version with values from
/// `properties`; unresolved placeholders are kept verbatim. Nested references
/// (`<revision>${project.version}</revision>`) are resolved by repeating the
/// pass until the result no longer changes, at most eight times.
pub fn substitute(raw: &str, properties: &LockMap) -> (r: String)
    ensures
        ob(&r) == substitute_spec(sb(raw), lock_map_entries(*properties)),
{
    let ghost props = lock_map_entries(*properties);
    proof {
        lit_dollar_brace();
    }
    if !contains(bytes(raw), bytes("${")) || properties.is_empty() {
        return to_owned_string(raw);
    }
    let mut current = to_owned_string(raw);
    let mut k: usize = 0;
    while k < 8
        invariant
            props == lock_map_entries(*properties),
            k <= 8,
            substitute_spec(sb(raw), props) == subst_fix(sb(raw), props, 8),
            subst_fix(sb(raw), props, 8) == subst_fix(ob(&current), props, (8 - k) as nat),
        decreases 8 - k,
    {
        let next = substitute_once(current.as_str(), properties);
        if str_eq(next.as_str(), current.as_str()) {
            proof {
                assert(ob(&next) == ob(&current));
                assert(subst_fix(ob(&current), props, (8 - k) as nat) == ob(&current));
            }
            return current;
        }
        current = next;
        k = k + 1;
    }
    current
}

// ---------------------------------------------------------------------------
// Pass 1: properties
// ---------------------------------------------------------------------------

/// Where the property pass stands: the open elements, the key whose text is
/// awaited, and the properties found so far.
pub ghost struct PropState {
    pub stack: Seq<Seq<u8>>,
    pub key: Option<Seq<u8>>,
    pub map: Map<Seq<u8>, Seq<u8>>,
}

/// A child of `<project>` that Maven exposes as a built-in property.
pub open spec fn builtin_field(n: Seq<u8>) -> bool {
    n == sb("version") || n == sb("groupId") || n == sb("artifactId")
}

/// The property pass after one event; `None` once the reader failed.
pub open spec fn prop_step(st: Option<PropState>, ev: XmlEvent) -> Option<PropState> {
    match st {
        None => None,
        Some(s) => match ev {
            XmlEvent::Error => None,
            XmlEvent::Start { local_name } => {
                let name = ob(&local_name);
                let k1 = if s.stack.len() >= 2 && s.stack.last() == sb("properties") && s.stack[s.stack.len()
                    - 2] == sb("project") {
                    Some(name)
                } else {
                    s.key
                };
                let k2 = if s.stack.len() >= 1 && s.stack.last() == sb("project") && builtin_field(name) {
                    Some(sb("project.") + name)
                } else {
                    k1
                };
                Some(PropState { stack: s.stack.push(name), key: k2, map: s.map })
            },
            XmlEvent::Text { text, end } => match s.key {
                Some(k) => Some(PropState { map: insert_first(s.map, k, ob(&text)), ..s }),
                None => Some(s),
            },
            XmlEvent::End { local_name } => Some(
                PropState {
                    stack: if s.stack.len() > 0 {
                        s.stack.drop_last()
                    } else {
                        s.stack
                    },
                    key: None,
                    map: s.map,
                },
            ),
            XmlEvent::Other => Some(s),
        },
    }
}

/// The property pass after the events `evs`.
pub open spec fn prop_run(evs: Seq<XmlEvent>) -> Option<PropState>
    decreases evs.len(),
{
    if evs.len() == 0 {
        Some(PropState { stack: Seq::empty(), key: None, map: Map::empty() })
    } else {
        prop_step(prop_run(evs.drop_last()), evs.last())
    }
}

/// The properties of a `pom.xml`: none when the reader failed.
pub open spec fn pom_properties(evs: Seq<XmlEvent>) -> Map<Seq<u8>, Seq<u8>> {
    match prop_run(evs) {
        Some(s) => s.map,
        None => Map::empty(),
    }
}

/// Pass 1: the `<properties>` of a `pom.xml` (name → value), from the events
/// of a reader that trims text, and the built-in `project.version`,
/// `project.groupId` and `project.artifactId` from the direct children of
/// `<project>`. The first value of a key wins (so a nested
/// `<dependency><version>` never overwrites `project.version`); a read error
/// gives no properties.
pub fn extract_properties_from_events(events: &[XmlEvent]) -> (r: LockMap)
    ensures
        lock_map_entries(r) == pom_properties(events@),
{
    let mut out = LockMap::new();
    let mut depth_stack: Vec<String> = Vec::new();
    let mut current_key: Option<String> = None;
    let mut i: usize = 0;
    proof {
        assert(lock_map_entries(out) =~= Map::<Seq<u8>, Seq<u8>>::empty());
        assert(strings_view(depth_stack@) =~= Seq::<Seq<u8>>::empty());
    }
    while i < events.len()
        invariant
            i <= events@.len(),
            prop_run(events@.take(i as int)) == Some(
                PropState {
                    stack: strings_view(depth_stack@),
                    key: opt_bytes(current_key),
                    map: lock_map_entries(out),
                },
            ),
        decreases events@.len() - i,
    {
        proof {
            assert(events@.take(i + 1).drop_last() =~= events@.take(i as int));
            assert(events@.take(i + 1).last() == events@[i as int]);
        }
        let ghost s0 = PropState {
            stack: strings_view(depth_stack@),
            key: opt_bytes(current_key),
            map: lock_map_entries(out),
        };
        match &events[i] {
            XmlEvent::Error => {
                proof {
                    assert(prop_run(events@.take(i + 1)) is None);
                    assert forall|j: int| i + 1 <= j <= events@.len() implies #[trigger] prop_run(events@.take(j)) is None by {
                        lemma_prop_absorb(events@, i + 1, j);
                    }
                    assert(events@.take(events@.len() as int) =~= events@);
                }
                let empty = LockMap::new();
                proof {
                    assert(lock_map_entries(empty) =~= Map::<Seq<u8>, Seq<u8>>::empty());
                }
                return empty;
            },
            XmlEvent::Start { local_name } => {
                let name = local_name.as_str();
                let len = depth_stack.len();
                if len >= 2 && str_eq(depth_stack[len - 1].as_str(), "properties") && str_eq(
                    depth_stack[len - 2].as_str(),
                    "project",
                ) {
                    current_key = Some(to_owned_string(name));
                }
                if len >= 1 && str_eq(depth_stack[len - 1].as_str(), "project") && (str_eq(
                    name,
                    "version",
                ) || str_eq(name, "groupId") || str_eq(name, "artifactId")) {
                    let mut k = to_owned_string("project.");
                    append_str(&mut k, name);
                    current_key = Some(k);
                }
                let ghost st0 = depth_stack@;
                depth_stack.push(to_owned_string(name));
                proof {
                    assert(strings_view(depth_stack@) =~= strings_view(st0).push(ob(local_name)));
                    if len >= 1 {
                        assert(s0.stack.last() == ob(&st0[len - 1]));
                    }
                    if len >= 2 {
                        assert(s0.stack[len - 2] == ob(&st0[len - 2]));
                    }
                }
            },
            XmlEvent::Text { text, end } => {
                match &current_key {
                    Some(k) => {
                        if !out.contains_key(k.as_str()) {
                            out.insert_first_ref(k.as_str(), to_owned_string(text.as_str()));
                        }
                    },
                    None => {},
                }
            },
            XmlEvent::End { local_name } => {
                let ghost st0 = depth_stack@;
                if depth_stack.len() > 0 {
                    depth_stack.pop();
                    proof {
                        assert(strings_view(depth_stack@) =~= strings_view(st0).drop_last());
                    }
                }
                current_key = None;
            },
            XmlEvent::Other => {},
        }
        proof {
            assert(prop_step(Some(s0), events@[i as int]) == Some(
                PropState {
                    stack: strings_view(depth_stack@),
                    key: opt_bytes(current_key),
                    map: lock_map_entries(out),
                },
            ));
        }
        i = i + 1;
    }
    proof {
        assert(events@.take(i as int) =~= events@);
    }
    out
}

/// Pass 1 over the text of a `pom.xml`, read by `quick-xml` with text
/// trimmed (see [`extract_properties_from_events`]).
pub fn extract_properties(content: &str) -> (r: LockMap)
    ensures
        lock_map_entries(r) == pom_properties(xml_events_of(sb(content), true)),
{
    let events = xml_events(content, true);
    extract_properties_from_events(events.as_slice())
}

proof fn lemma_prop_absorb(evs: Seq<XmlEvent>, i: int, j: int)
    requires
        0 <= i <= j <= evs.len(),
        prop_run(evs.take(i)) is None,
    ensures
        prop_run(evs.take(j)) is None,
    decreases j - i,
{
    if j > i {
        lemma_prop_absorb(evs, i, j - 1);
        assert(evs.take(j).drop_last() =~= evs.take(j - 1));
    }
}

// ---------------------------------------------------------------------------
// Positions
// ---------------------------------------------------------------------------

/// The byte offsets where each line begins; the first is always `0`.
pub fn line_offsets(content: &str) -> (r: Vec<usize>)
    ensures
        r@ == line_starts(sb(content)),
        offsets_wf(r@),
{
    let b = bytes(content);
    let n = b.len();
    let mut offsets: Vec<usize> = Vec::new();
    offsets.push(0);
    let mut i: usize = 0;
    while i < n
        invariant
            n == b@.len(),
            i <= n,
            offsets@ == line_starts(b@.take(i as int)),
            offsets_wf(offsets@),
            offsets@.last() <= i,
        decreases n - i,
    {
        proof {
            assert(b@.take(i + 1).drop_last() =~= b@.take(i as int));
        }
        if b[i] == 10 {
            offsets.push(i + 1);
        }
        i = i + 1;
    }
    proof {
        assert(b@.take(n as int) =~= b@);
    }
    offsets
}

/// The `(line, column)` of a byte offset, both 0-indexed: the line that
/// holds it, and its distance from that line's start.
pub open spec fn position_of(o: Seq<usize>, off: int) -> (u32, u32) {
    (line_of(o, off) as u32, (off - o[line_of(o, off)]) as u32)
}

/// Convert a byte offset to `(line, column)`, both 0-indexed, by binary
/// search over the line-start table that [`line_offsets`] builds.
pub fn offset_to_position(offsets: &[usize], byte_offset: usize) -> (r: (u32, u32))
    requires
        offsets_wf(offsets@),
    ensures
        r == position_of(offsets@, byte_offset as int),
{
    let mut lo: usize = 1;
    let mut hi: usize = offsets.len();
    while lo < hi
        invariant
            offsets_wf(offsets@),
            1 <= lo <= hi <= offsets@.len(),
            offsets@[lo - 1] <= byte_offset,
            hi < offsets@.len() ==> byte_offset < offsets@[hi as int],
        decreases hi - lo,
    {
        let mid = lo + (hi - lo) / 2;
        if offsets[mid] <= byte_offset {
            lo = mid + 1;
        } else {
            hi = mid;
        }
    }
    let line = lo - 1;
    let col = byte_offset - offsets[line];
    proof {
        assert(is_line_of(offsets@, byte_offset as int, line as int));
        law_line_of_unique(offsets@, byte_offset as int, line as int, line_of(offsets@, byte_offset as int));
    }
    (line as u32, col as u32)
}

/// First position of `[s, e)` that is not ASCII whitespace.
pub open spec fn skip_ws_fwd(b: Seq<u8>, s: int, e: int) -> int
    decreases e - s,
{
    if 0 <= s < e && e <= b.len() && is_ascii_ws(b[s]) {
        skip_ws_fwd(b, s + 1, e)
    } else {
        s
    }
}

/// End of `[s, e)` without its trailing ASCII whitespace.
pub open spec fn skip_ws_bwd(b: Seq<u8>, s: int, e: int) -> int
    decreases e - s,
{
    if 0 <= s < e && e <= b.len() && is_ascii_ws(b[e - 1]) {
        skip_ws_bwd(b, s, e - 1)
    } else {
        e
    }
}

/// The bytes of a text event without surrounding ASCII whitespace: the raw
/// text ends at the reader position `raw_end` and is `raw_len` bytes long.
pub open spec fn trimmed_span_of(b: Seq<u8>, raw_end: int, raw_len: int) -> (int, int) {
    let raw_start = if raw_end >= raw_len {
        raw_end - raw_len
    } else {
        0
    };
    let s0 = if raw_start < b.len() {
        raw_start
    } else {
        b.len() as int
    };
    let e0 = if raw_end < b.len() {
        raw_end
    } else {
        b.len() as int
    };
    let s = skip_ws_fwd(b, s0, e0);
    (s, skip_ws_bwd(b, s, e0))
}

/// Given the reader position right after a text event and the raw text's
/// length, the byte span of its content without leading and trailing
/// whitespace.
pub fn trimmed_span(bytes: &[u8], raw_end: usize, raw_len: usize) -> (r: (usize, usize))
    ensures
        (r.0 as int, r.1 as int) == trimmed_span_of(bytes@, raw_end as int, raw_len as int),
{
    let n = bytes.len();
    let raw_start = if raw_end >= raw_len {
        raw_end - raw_len
    } else {
        0
    };
    let mut start = if raw_start < n {
        raw_start
    } else {
        n
    };
    let mut end = if raw_end < n {
        raw_end
    } else {
        n
    };
    let ghost s0 = start as int;
    let ghost e0 = end as int;
    while start < end && (bytes[start] == 0x20 || bytes[start] == 0x09 || bytes[start] == 0x0A
        || bytes[start] == 0x0C || bytes[start] == 0x0D)
        invariant
            n == bytes@.len(),
            start <= end <= n,
            end == e0,
            skip_ws_fwd(bytes@, s0, e0) == skip_ws_fwd(bytes@, start as int, e0),
        decreases end - start,
    {
        start = start + 1;
    }
    let ghost s1 = start as int;
    while end > start && (bytes[end - 1] == 0x20 || bytes[end - 1] == 0x09 || bytes[end - 1] == 0x0A
        || bytes[end - 1] == 0x0C || bytes[end - 1] == 0x0D)
        invariant
            n == bytes@.len(),
            start <= end <= n,
            start == s1,
            skip_ws_bwd(bytes@, s1, e0) == skip_ws_bwd(bytes@, s1, end as int),
        decreases end,
    {
        end = end - 1;
    }
    (start, end)
}

// ---------------------------------------------------------------------------
// Pass 2: dependencies
// ---------------------------------------------------------------------------

/// Where the dependency pass stands.
pub ghost struct PomState {
    pub in_dependencies: bool,
    pub in_dep_mgmt: bool,
    pub in_plugins: bool,
    pub in_dependency: bool,
    pub current_tag: Option<Seq<u8>>,
    pub group: Option<Seq<u8>>,
    pub artifact: Option<Seq<u8>>,
    pub artifact_span: Option<(int, int)>,
    pub version: Option<Seq<u8>>,
    pub version_span: Option<(int, int)>,
    pub scope: Option<Seq<u8>>,
    pub optional: bool,
    pub out: Seq<DepModel>,
}

/// The span of the byte range `[s, e)`, on the line of `s`.
pub open spec fn pos_span(o: Seq<usize>, s: int, e: int) -> Span {
    Span {
        line: position_of(o, s).0,
        line_start: position_of(o, s).1,
        line_end: position_of(o, e).1,
    }
}

/// The dependencies after a `</dependency>`: one more when the block had a
/// non-empty `groupId` and `artifactId` and a `<version>`.
pub open spec fn pom_emit(s: PomState, o: Seq<usize>, props: Map<Seq<u8>, Seq<u8>>) -> Seq<DepModel> {
    match (s.group, s.artifact, s.version_span) {
        (Some(g), Some(a), Some(vsp)) => if g.len() > 0 && a.len() > 0 {
            let raw = match s.version {
                Some(v) => v,
                None => Seq::empty(),
            };
            let scope = match s.scope {
                Some(x) => x,
                None => Seq::empty(),
            };
            let resolved = substitute_spec(raw, props);
            let keep_raw = raw != resolved && !contains_b(resolved, sb("${"));
            s.out.push(
                DepModel {
                    name: g + sb(":") + a,
                    version: if keep_raw {
                        raw
                    } else {
                        resolved
                    },
                    name_span: match s.artifact_span {
                        Some(asp) => pos_span(o, asp.0, asp.1),
                        None => Span { line: 0, line_start: 0, line_end: 0 },
                    },
                    version_span: pos_span(o, vsp.0, vsp.1),
                    dev: scope == sb("test") || scope == sb("provided"),
                    optional: s.optional,
                    registry: None,
                    resolved_version: if keep_raw {
                        Some(resolved)
                    } else {
                        None
                    },
                    has_additional_version_constraints: false,
                },
            )
        } else {
            s.out
        },
        _ => s.out,
    }
}

/// The dependency pass after a start tag.
pub open spec fn pom_start(s: PomState, name: Seq<u8>) -> PomState {
    let s1 = if name == sb("dependencies") && !s.in_plugins {
        PomState { in_dependencies: true, ..s }
    } else if name == sb("dependencyManagement") {
        PomState { in_dep_mgmt: true, ..s }
    } else if name == sb("plugins") || name == sb("pluginManagement") {
        PomState { in_plugins: true, ..s }
    } else if name == sb("dependency") && (s.in_dependencies || s.in_dep_mgmt) && !s.in_plugins {
        PomState {
            in_dependency: true,
            group: None,
            artifact: None,
            artifact_span: None,
            version: None,
            version_span: None,
            scope: None,
            optional: false,
            ..s
        }
    } else {
        s
    };
    PomState { current_tag: Some(name), ..s1 }
}

/// The dependency pass after an end tag.
pub open spec fn pom_end(s: PomState, name: Seq<u8>, o: Seq<usize>, props: Map<Seq<u8>, Seq<u8>>) -> PomState {
    let s1 = if name == sb("dependencies") {
        PomState { in_dependencies: false, ..s }
    } else if name == sb("dependencyManagement") {
        PomState { in_dep_mgmt: false, ..s }
    } else if name == sb("plugins") || name == sb("pluginManagement") {
        PomState { in_plugins: false, ..s }
    } else if name == sb("dependency") && s.in_dependency {
        PomState {
            in_dependency: false,
            group: None,
            artifact: None,
            artifact_span: None,
            version: None,
            version_span: None,
            scope: None,
            out: pom_emit(s, o, props),
            ..s
        }
    } else {
        s
    };
    PomState { current_tag: None, ..s1 }
}

/// The dependency pass after a text event inside a `<dependency>`.
pub open spec fn pom_text(s: PomState, text: Seq<u8>, end: int, b: Seq<u8>) -> PomState {
    if !s.in_dependency {
        s
    } else {
        let t = trim_b(text);
        match s.current_tag {
            Some(tag) => if tag == sb("groupId") {
                PomState { group: Some(t), ..s }
            } else if tag == sb("artifactId") {
                PomState {
                    artifact_span: Some(trimmed_span_of(b, end, text.len() as int)),
                    artifact: Some(t),
                    ..s
                }
            } else if tag == sb("version") {
                PomState {
                    version_span: Some(trimmed_span_of(b, end, text.len() as int)),
                    version: Some(t),
                    ..s
                }
            } else if tag == sb("scope") {
                PomState { scope: Some(t), ..s }
            } else if tag == sb("optional") {
                PomState { optional: t == sb("true"), ..s }
            } else {
                s
            },
            None => s,
        }
    }
}

/// The dependency pass after one event; `None` once the reader failed.
pub open spec fn pom_step(
    st: Option<PomState>,
    ev: XmlEvent,
    b: Seq<u8>,
    o: Seq<usize>,
    props: Map<Seq<u8>, Seq<u8>>,
) -> Option<PomState> {
    match st {
        None => None,
        Some(s) => match ev {
            XmlEvent::Error => None,
            XmlEvent::Start { local_name } => Some(pom_start(s, ob(&local_name))),
            XmlEvent::End { local_name } => Some(pom_end(s, ob(&local_name), o, props)),
            XmlEvent::Text { text, end } => Some(pom_text(s, ob(&text), end as int, b)),
            XmlEvent::Other => Some(s),
        },
    }
}

/// The dependency pass before any event.
pub open spec fn pom_init() -> PomState {
    PomState {
        in_dependencies: false,
        in_dep_mgmt: false,
        in_plugins: false,
        in_dependency: false,
        current_tag: None,
        group: None,
        artifact: None,
        artifact_span: None,
        version: None,
        version_span: None,
        scope: None,
        optional: false,
        out: Seq::empty(),
    }
}

/// The dependency pass after the events `evs`.
pub open spec fn pom_run(
    evs: Seq<XmlEvent>,
    b: Seq<u8>,
    o: Seq<usize>,
    props: Map<Seq<u8>, Seq<u8>>,
) -> Option<PomState>
    decreases evs.len(),
{
    if evs.len() == 0 {
        Some(pom_init())
    } else {
        pom_step(pom_run(evs.drop_last(), b, o, props), evs.last(), b, o, props)
    }
}

/// The dependencies of a `pom.xml`, from the events of a reader that keeps
/// text untrimmed; none when the reader failed.
pub open spec fn pom_deps(
    content: Seq<u8>,
    evs: Seq<XmlEvent>,
    props: Map<Seq<u8>, Seq<u8>>,
) -> Seq<DepModel> {
    match pom_run(evs, content, line_starts(content), props) {
        Some(s) => s.out,
        None => Seq::empty(),
    }
}

/// The dependency pass's state, as plain values.
pub struct PomScan {
    in_dependencies: bool,
    in_dep_mgmt: bool,
    in_plugins: bool,
    in_dependency: bool,
    current_tag: Option<String>,
    cur_group: Option<String>,
    cur_artifact: Option<String>,
    cur_artifact_span: Option<(usize, usize)>,
    cur_version: Option<String>,
    cur_version_span: Option<(usize, usize)>,
    cur_scope: Option<String>,
    cur_optional: bool,
    out: Vec<Dependency>,
}

/// A byte range as integers.
pub open spec fn range_int(r: Option<(usize, usize)>) -> Option<(int, int)> {
    match r {
        Some(p) => Some((p.0 as int, p.1 as int)),
        None => None,
    }
}

impl View for PomScan {
    type V = PomState;

    closed spec fn view(&self) -> PomState {
        PomState {
            in_dependencies: self.in_dependencies,
            in_dep_mgmt: self.in_dep_mgmt,
            in_plugins: self.in_plugins,
            in_dependency: self.in_dependency,
            current_tag: opt_bytes(self.current_tag),
            group: opt_bytes(self.cur_group),
            artifact: opt_bytes(self.cur_artifact),
            artifact_span: range_int(self.cur_artifact_span),
            version: opt_bytes(self.cur_version),
            version_span: range_int(self.cur_version_span),
            scope: opt_bytes(self.cur_scope),
            optional: self.cur_optional,
            out: deps_view(self.out@),
        }
    }
}

/// `s` names the optional tag `t`.
fn tag_is(t: &Option<String>, s: &str) -> (r: bool)
    ensures
        r == (opt_bytes(*t) == Some(sb(s))),
{
    match t {
        Some(x) => str_eq(x.as_str(), s),
        None => false,
    }
}

impl PomScan {
    fn new() -> (r: Self)
        ensures
            r@ == pom_init(),
    {
        let r = PomScan {
            in_dependencies: false,
            in_dep_mgmt: false,
            in_plugins: false,
            in_dependency: false,
            current_tag: None,
            cur_group: None,
            cur_artifact: None,
            cur_artifact_span: None,
            cur_version: None,
            cur_version_span: None,
            cur_scope: None,
            cur_optional: false,
            out: Vec::new(),
        };
        proof {
            assert(deps_view(r.out@) =~= Seq::<DepModel>::empty());
        }
        r
    }

    fn start(&mut self, name: &str)
        ensures
            final(self)@ == pom_start(old(self)@, sb(name)),
    {
        if str_eq(name, "dependencies") && !self.in_plugins {
            self.in_dependencies = true;
        } else if str_eq(name, "dependencyManagement") {
            self.in_dep_mgmt = true;
        } else if str_eq(name, "plugins") || str_eq(name, "pluginManagement") {
            self.in_plugins = true;
        } else if str_eq(name, "dependency") && (self.in_dependencies || self.in_dep_mgmt)
            && !self.in_plugins {
            self.in_dependency = true;
            self.cur_group = None;
            self.cur_artifact = None;
            self.cur_artifact_span = None;
            self.cur_version = None;
            self.cur_version_span = None;
            self.cur_scope = None;
            self.cur_optional = false;
        }
        self.current_tag = Some(to_owned_string(name));
    }

    fn emit(&mut self, offsets: &Vec<usize>, properties: &LockMap)
        requires
            offsets_wf(offsets@),
        ensures
            final(self)@ == (PomState { out: pom_emit(old(self)@, offsets@, lock_map_entries(*properties)), ..old(self)@ }),
    {
        let ghost s0 = self@;
        proof {
            lit_dollar_brace();
        }
        match (&self.cur_group, &self.cur_artifact, self.cur_version_span) {
            (Some(g), Some(a), Some((vs, ve))) => {
                if bytes(g.as_str()).len() > 0 && bytes(a.as_str()).len() > 0 {
                    let raw_version = match &self.cur_version {
                        Some(v) => v.as_str(),
                        None => "",
                    };
                    let dev = tag_is(&self.cur_scope, "test") || tag_is(&self.cur_scope, "provided");
                    proof {
                        reveal_strlit("");
                        let scope = match s0.scope {
                            Some(x) => x,
                            None => Seq::<u8>::empty(),
                        };
                        if s0.scope is None {
                            reveal_strlit("test");
                            reveal_strlit("provided");
                            assert(sb("test").len() > 0);
                            assert(sb("provided").len() > 0);
                        }
                        assert(dev == (scope == sb("test") || scope == sb("provided")));
                    }
                    let resolved = substitute(raw_version, properties);
                    let keep_raw = !str_eq(raw_version, resolved.as_str()) && !contains(
                        bytes(resolved.as_str()),
                        bytes("${"),
                    );
                    let (version, resolved_version) = if keep_raw {
                        (to_owned_string(raw_version), Some(resolved))
                    } else {
                        (resolved, None)
                    };
                    let (line, line_start) = offset_to_position(offsets.as_slice(), vs);
                    let (_l2, line_end) = offset_to_position(offsets.as_slice(), ve);
                    let version_span = Span { line, line_start, line_end };
                    let name_span = match self.cur_artifact_span {
                        Some((s, e)) => {
                            let (nl, ns) = offset_to_position(offsets.as_slice(), s);
                            let (_l3, ne) = offset_to_position(offsets.as_slice(), e);
                            Span { line: nl, line_start: ns, line_end: ne }
                        },
                        None => Span { line: 0, line_start: 0, line_end: 0 },
                    };
                    let mut name = to_owned_string(g.as_str());
                    append_str(&mut name, ":");
                    append_str(&mut name, a.as_str());
                    let dep = Dependency {
                        name,
                        version,
                        name_span,
                        version_span,
                        dev,
                        optional: self.cur_optional,
                        registry: None,
                        resolved_version,
                        has_additional_version_constraints: false,
                    };
                    let ghost dv = dep@;
                    let ghost o0 = self.out@;
                    self.out.push(dep);
                    proof {
                        assert(deps_view(self.out@) =~= deps_view(o0).push(dv));
                    }
                }
            },
            _ => {},
        }
    }

    fn end(&mut self, name: &str, offsets: &Vec<usize>, properties: &LockMap)
        requires
            offsets_wf(offsets@),
        ensures
            final(self)@ == pom_end(old(self)@, sb(name), offsets@, lock_map_entries(*properties)),
    {
        if str_eq(name, "dependencies") {
            self.in_dependencies = false;
        } else if str_eq(name, "dependencyManagement") {
            self.in_dep_mgmt = false;
        } else if str_eq(name, "plugins") || str_eq(name, "pluginManagement") {
            self.in_plugins = false;
        } else if str_eq(name, "dependency") && self.in_dependency {
            self.emit(offsets, properties);
            self.in_dependency = false;
            self.cur_group = None;
            self.cur_artifact = None;
            self.cur_artifact_span = None;
            self.cur_version = None;
            self.cur_version_span = None;
            self.cur_scope = None;
        }
        self.current_tag = None;
    }

    fn text(&mut self, raw: &str, raw_end: usize, content: &[u8])
        ensures
            final(self)@ == pom_text(old(self)@, sb(raw), raw_end as int, content@),
    {
        if !self.in_dependency {
            return;
        }
        let t = trim(raw);
        let raw_len = bytes(raw).len();
        if tag_is(&self.current_tag, "groupId") {
            self.cur_group = Some(to_owned_string(t));
        } else if tag_is(&self.current_tag, "artifactId") {
            self.cur_artifact_span = Some(trimmed_span(content, raw_end, raw_len));
            self.cur_artifact = Some(to_owned_string(t));
        } else if tag_is(&self.current_tag, "version") {
            self.cur_version_span = Some(trimmed_span(content, raw_end, raw_len));
            self.cur_version = Some(to_owned_string(t));
        } else if tag_is(&self.current_tag, "scope") {
            self.cur_scope = Some(to_owned_string(t));
        } else if tag_is(&self.current_tag, "optional") {
            self.cur_optional = str_eq(t, "true");
        }
    }
}

/// Pass 2: the dependencies of `<dependencies>` and
/// `<dependencyManagement><dependencies>` (not those of `<plugins>` or
/// `<pluginManagement>`), from the events of a reader that keeps text
/// untrimmed so that its positions match the source.
///
/// A dependency needs a non-empty `groupId` and `artifactId` and a
/// `<version>` (versions inherited from a parent POM are not resolved, so
/// such blocks are skipped rather than reported on line 0). Scopes `test`
/// and `provided` make it dev. When substitution changes the version and
/// leaves no `${`, the version keeps its placeholder text and the
/// substituted value becomes the resolved version, so that an update
/// quick-fix never breaks a property shared with other artifacts. A read
/// error gives no dependencies.
pub fn extract_dependencies_from_events(content: &str, events: &[XmlEvent], properties: &LockMap) -> (r: Vec<Dependency>)
    ensures
        deps_view(r@) == pom_deps(sb(content), events@, lock_map_entries(*properties)),
{
    let offsets = line_offsets(content);
    let b = bytes(content);
    let ghost props = lock_map_entries(*properties);
    let mut scan = PomScan::new();
    let mut i: usize = 0;
    while i < events.len()
        invariant
            i <= events@.len(),
            offsets@ == line_starts(b@),
            offsets_wf(offsets@),
            b@ == sb(content),
            props == lock_map_entries(*properties),
            pom_run(events@.take(i as int), b@, offsets@, props) == Some(scan@),
        decreases events@.len() - i,
    {
        proof {
            assert(events@.take(i + 1).drop_last() =~= events@.take(i as int));
            assert(events@.take(i + 1).last() == events@[i as int]);
        }
        match &events[i] {
            XmlEvent::Error => {
                proof {
                    assert(pom_run(events@.take(i + 1), b@, offsets@, props) is None);
                    assert forall|j: int| i + 1 <= j <= events@.len() implies #[trigger] pom_run(
                        events@.take(j),
                        b@,
                        offsets@,
                        props,
                    ) is None by {
                        lemma_pom_absorb(events@, b@, offsets@, props, i + 1, j);
                    }
                    assert(events@.take(events@.len() as int) =~= events@);
                }
                let empty: Vec<Dependency> = Vec::new();
                proof {
                    assert(deps_view(empty@) =~= Seq::<DepModel>::empty());
                }
                return empty;
            },
            XmlEvent::Start { local_name } => {
                scan.start(local_name.as_str());
            },
            XmlEvent::End { local_name } => {
                scan.end(local_name.as_str(), &offsets, properties);
            },
            XmlEvent::Text { text, end } => {
                scan.text(text.as_str(), *end, b);
            },
            XmlEvent::Other => {},
        }
        i = i + 1;
    }
    proof {
        assert(events@.take(i as int) =~= events@);
    }
    scan.out
}

/// Pass 2 over the text of a `pom.xml`, read by `quick-xml` with text kept
/// untrimmed (see [`extract_dependencies_from_events`]).
pub fn extract_dependencies(content: &str, properties: &LockMap) -> (r: Vec<Dependency>)
    ensures
        deps_view(r@) == pom_deps(sb(content), xml_events_of(sb(content), false), lock_map_entries(*properties)),
{
    let events = xml_events(content, false);
    extract_dependencies_from_events(content, events.as_slice(), properties)
}

proof fn lemma_pom_absorb(
    evs: Seq<XmlEvent>,
    b: Seq<u8>,
    o: Seq<usize>,
    props: Map<Seq<u8>, Seq<u8>>,
    i: int,
    j: int,
)
    requires
        0 <= i <= j <= evs.len(),
        pom_run(evs.take(i), b, o, props) is None,
    ensures
        pom_run(evs.take(j), b, o, props) is None,
    decreases j - i,
{
    if j > i {
        lemma_pom_absorb(evs, b, o, props, i, j - 1);
        assert(evs.take(j).drop_last() =~= evs.take(j - 1));
    }
}

/// The dependencies of a `pom.xml`: its properties from the events of a
/// reader that trims text, then its dependencies from the events of a
/// reader that does not.
pub open spec fn maven_deps(content: Seq<u8>, trimmed: Seq<XmlEvent>, raw: Seq<XmlEvent>) -> Seq<DepModel> {
    pom_deps(content, raw, pom_properties(trimmed))
}

/// Parser for Maven `pom.xml` files, over two event streams of the file: one
/// from a reader that trims text (for the properties), one from a reader
/// that does not (for the dependencies and their positions).
#[derive(Debug, Default)]
pub struct MavenParser;

impl MavenParser {
    /// Creates a new [`MavenParser`] instance.
    pub fn new() -> Self {
        MavenParser
    }

    /// The dependencies of a `pom.xml`, from its two event streams (as
    /// [`xml_events`] gives them with text trimmed and untrimmed).
    pub fn parse_document(&self, content: &str, trimmed_events: &[XmlEvent], raw_events: &[XmlEvent])
        -> (deps: Vec<Dependency>)
        ensures
            deps_view(deps@) == maven_deps(sb(content), trimmed_events@, raw_events@),
    {
        let properties = extract_properties_from_events(trimmed_events);
        extract_dependencies_from_events(content, raw_events, &properties)
    }
}

impl Parser for MavenParser {
    /// The dependencies of a `pom.xml`, read twice with `quick-xml`.
    fn parse(&self, content: &str) -> (deps: Vec<Dependency>)
        ensures
            deps_view(deps@) == maven_deps(
                sb(content),
                xml_events_of(sb(content), true),
                xml_events_of(sb(content), false),
            ),
    {
        let properties = extract_properties(content);
        extract_dependencies(content, &properties)
    }
}

} // verus!
