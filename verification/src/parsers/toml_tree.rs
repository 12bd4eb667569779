//! TOML documents with source positions, for the manifest parsers.
//!
//! A [`TomlDocument`] holds what the `taplo` parser gives for a manifest: its
//! error messages and its DOM, as plain values. Strings and keys carry the
//! byte range of their token in the source (quotes included); the manifest
//! parsers turn those ranges into line-relative [`Span`]s with the helpers
//! below.

use vstd::prelude::*;
use crate::parsers::Span;
use taplo::dom::node::{DomNode, Key as TaploKey, Table as TaploTable};
use taplo::dom::Node as TaploNode;
use crate::text::{bytes, find_b, find_byte, lemma_find_b, lemma_nl_from, nl_from, ob, sb, skip_byte_back,
    lemma_skip_byte_back, str_eq};

verus! {

/// A byte range `[start, end)` of the source text.
#[derive(Debug, Clone, Copy, PartialEq, Eq, Structural)]
pub struct TextRange {
    pub start: u32,
    pub end: u32,
}

/// A node of a TOML DOM.
#[derive(Debug)]
pub enum TomlNode {
    Bool(bool),
    /// A string, with the range of its token (quotes included) when known.
    Str { value: String, range: Option<TextRange> },
    Array(Vec<TomlNode>),
    /// A table (a header table, an inline table, or a dotted-key table),
    /// its entries in source order; a key given twice (a conflict the DOM
    /// reports) appears twice, and lookups find its last value.
    Table(Vec<TomlNodeEntry>),
    /// Any other value: an integer, a float, a date-time, or an invalid node.
    Other,
}

/// An entry of a TOML table: its key, the key's token range, and its value.
#[derive(Debug)]
pub struct TomlNodeEntry {
    pub key: String,
    pub key_range: Option<TextRange>,
    pub value: TomlNode,
}

/// A parsed TOML document: the parser's error messages and its DOM.
#[derive(Debug)]
pub struct TomlDocument {
    pub errors: Vec<String>,
    pub root: TomlNode,
}

/// Index of the last entry of `es` before `i` whose key is `key`.
pub open spec fn node_entry_index(es: Seq<TomlNodeEntry>, key: Seq<u8>, i: int) -> Option<int>
    decreases i,
{
    if i <= 0 || i > es.len() {
        None
    } else if ob(&es[i - 1].key) == key {
        Some(i - 1)
    } else {
        node_entry_index(es, key, i - 1)
    }
}

/// The entry `key` of a table node (`taplo`'s `Node::get`, which looks keys
/// up in a map where a repeated key holds its last value).
pub open spec fn node_get(n: TomlNode, key: Seq<u8>) -> Option<TomlNode> {
    match n {
        TomlNode::Table(es) => match node_entry_index(es@, key, es@.len() as int) {
            Some(i) => Some(es@[i].value),
            None => None,
        },
        _ => None,
    }
}

/// The entry `key` of an optional node.
pub open spec fn opt_get(n: Option<TomlNode>, key: Seq<u8>) -> Option<TomlNode> {
    match n {
        Some(x) => node_get(x, key),
        None => None,
    }
}

/// The entries of a table node.
pub open spec fn node_table(n: Option<TomlNode>) -> Option<Seq<TomlNodeEntry>> {
    match n {
        Some(TomlNode::Table(es)) => Some(es@),
        _ => None,
    }
}

/// The items of an array node.
pub open spec fn node_array(n: Option<TomlNode>) -> Option<Seq<TomlNode>> {
    match n {
        Some(TomlNode::Array(a)) => Some(a@),
        _ => None,
    }
}

impl TomlNode {
    /// The entry `key` of a table node; `None` for a missing key or a node
    /// that is not a table.
    pub fn get(&self, key: &str) -> (r: Option<&TomlNode>)
        ensures
            match r {
                Some(x) => node_get(*self, sb(key)) == Some(*x),
                None => node_get(*self, sb(key)) is None,
            },
    {
        match self {
            TomlNode::Table(es) => {
                let mut i: usize = es.len();
                while i > 0
                    invariant
                        *self == TomlNode::Table(*es),
                        i <= es@.len(),
                        node_entry_index(es@, sb(key), es@.len() as int) == node_entry_index(
                            es@,
                            sb(key),
                            i as int,
                        ),
                    decreases i,
                {
                    if str_eq(es[i - 1].key.as_str(), key) {
                        return Some(&es[i - 1].value);
                    }
                    i = i - 1;
                }
                None
            },
            _ => None,
        }
    }
}

/// The entry `key` of an optional node.
pub fn get_opt<'a>(n: Option<&'a TomlNode>, key: &str) -> (r: Option<&'a TomlNode>)
    ensures
        match r {
            Some(x) => opt_get(
                match n {
                    Some(y) => Some(*y),
                    None => None,
                },
                sb(key),
            ) == Some(*x),
            None => opt_get(
                match n {
                    Some(y) => Some(*y),
                    None => None,
                },
                sb(key),
            ) is None,
        },
{
    match n {
        Some(x) => x.get(key),
        None => None,
    }
}

/// The entries of a table node.
pub fn table_entries(n: Option<&TomlNode>) -> (r: Option<&Vec<TomlNodeEntry>>)
    ensures
        match r {
            Some(es) => node_table(
                match n {
                    Some(y) => Some(*y),
                    None => None,
                },
            ) == Some(es@),
            None => node_table(
                match n {
                    Some(y) => Some(*y),
                    None => None,
                },
            ) is None,
        },
{
    match n {
        Some(TomlNode::Table(es)) => Some(es),
        _ => None,
    }
}

/// The items of an array node.
pub fn array_items(n: Option<&TomlNode>) -> (r: Option<&Vec<TomlNode>>)
    ensures
        match r {
            Some(a) => node_array(
                match n {
                    Some(y) => Some(*y),
                    None => None,
                },
            ) == Some(a@),
            None => node_array(
                match n {
                    Some(y) => Some(*y),
                    None => None,
                },
            ) is None,
        },
{
    match n {
        Some(TomlNode::Array(a)) => Some(a),
        _ => None,
    }
}

// ---------------------------------------------------------------------------
// Line ranges and spans
// ---------------------------------------------------------------------------

/// End of the line starting at `p`, its `\n` included (`split_inclusive('\n')`).
pub open spec fn incl_line_end(b: Seq<u8>, p: int) -> int {
    let n = nl_from(b, p);
    if n < b.len() {
        n + 1
    } else {
        b.len() as int
    }
}

/// The ranges of the lines of `b[p..]`, each with its `\n`.
pub open spec fn incl_ranges_from(b: Seq<u8>, p: int) -> Seq<(int, int)>
    decreases b.len() + 1 - p,
    via incl_ranges_decreases
{
    if p < 0 || p >= b.len() {
        Seq::empty()
    } else {
        seq![(p, incl_line_end(b, p))] + incl_ranges_from(b, incl_line_end(b, p))
    }
}

#[via_fn]
proof fn incl_ranges_decreases(b: Seq<u8>, p: int) {
    if 0 <= p < b.len() {
        lemma_nl_from(b, p);
    }
}

/// The ranges of the lines of `b[p..]` without their `\n` and trailing `\r`s.
pub open spec fn text_ranges_from(b: Seq<u8>, p: int) -> Seq<(int, int)>
    decreases b.len() + 1 - p,
    via text_ranges_decreases
{
    if p < 0 || p >= b.len() {
        Seq::empty()
    } else {
        seq![(p, skip_byte_back(b, p, nl_from(b, p), 0x0D))] + text_ranges_from(
            b,
            incl_line_end(b, p),
        )
    }
}

#[via_fn]
proof fn text_ranges_decreases(b: Seq<u8>, p: int) {
    if 0 <= p < b.len() {
        lemma_nl_from(b, p);
    }
}

/// Integer bounds as [`TextRange`]s, each bound cut to `u32` (as `as u32` does).
pub open spec fn to_ranges(s: Seq<(int, int)>) -> Seq<TextRange> {
    s.map_values(|p: (int, int)| TextRange { start: p.0 as u32, end: p.1 as u32 })
}

/// The range of every line of `content`, its `\n` included.
pub fn incl_line_ranges(content: &str) -> (r: Vec<TextRange>)
    ensures
        r@ == to_ranges(incl_ranges_from(sb(content), 0)),
{
    let b = bytes(content);
    let n = b.len();
    let mut out: Vec<TextRange> = Vec::new();
    let mut p: usize = 0;
    proof {
        assert(out@ + to_ranges(incl_ranges_from(b@, 0)) =~= to_ranges(incl_ranges_from(b@, 0)));
    }
    while p < n
        invariant
            n == b@.len(),
            p <= n,
            out@ + to_ranges(incl_ranges_from(b@, p as int)) == to_ranges(incl_ranges_from(b@, 0)),
        decreases n - p,
    {
        proof {
            lemma_nl_from(b@, p as int);
            lemma_find_b(b@, p as int, 10);
        }
        let e = match find_byte(b, p, 10) {
            Some(i) => i + 1,
            None => n,
        };
        proof {
            assert(e == incl_line_end(b@, p as int)) by {
                if find_b(b@, p as int, 10) is Some {
                    let i = find_b(b@, p as int, 10)->0;
                    if i < nl_from(b@, p as int) {
                        assert(b@[i] == 10);
                    }
                    if nl_from(b@, p as int) < i {
                        assert(b@[nl_from(b@, p as int)] == 10);
                    }
                } else if nl_from(b@, p as int) < n {
                    assert(b@[nl_from(b@, p as int)] == 10);
                }
            }
        }
        let ghost o0 = out@;
        out.push(TextRange { start: p as u32, end: e as u32 });
        proof {
            assert(to_ranges(incl_ranges_from(b@, p as int)) =~= seq![
                TextRange { start: p as u32, end: e as u32 },
            ] + to_ranges(incl_ranges_from(b@, e as int)));
            assert(out@ + to_ranges(incl_ranges_from(b@, e as int)) =~= o0 + to_ranges(
                incl_ranges_from(b@, p as int),
            ));
        }
        p = e;
    }
    proof {
        assert(out@ =~= to_ranges(incl_ranges_from(b@, 0)));
    }
    out
}

/// The range of the text of every line of `content`, without its `\n` and
/// trailing `\r`s.
pub fn text_line_ranges(content: &str) -> (r: Vec<TextRange>)
    ensures
        r@ == to_ranges(text_ranges_from(sb(content), 0)),
{
    let b = bytes(content);
    let n = b.len();
    let mut out: Vec<TextRange> = Vec::new();
    let mut p: usize = 0;
    proof {
        assert(out@ + to_ranges(text_ranges_from(b@, 0)) =~= to_ranges(text_ranges_from(b@, 0)));
    }
    while p < n
        invariant
            n == b@.len(),
            p <= n,
            out@ + to_ranges(text_ranges_from(b@, p as int)) == to_ranges(text_ranges_from(b@, 0)),
        decreases n - p,
    {
        proof {
            lemma_nl_from(b@, p as int);
            lemma_find_b(b@, p as int, 10);
        }
        let nl = match find_byte(b, p, 10) {
            Some(i) => i,
            None => n,
        };
        proof {
            assert(nl == nl_from(b@, p as int)) by {
                if nl < nl_from(b@, p as int) {
                    assert(b@[nl as int] == 10);
                }
                if nl_from(b@, p as int) < nl {
                    assert(b@[nl_from(b@, p as int)] == 10);
                }
            }
            lemma_skip_byte_back(b@, p as int, nl as int, 0x0D);
        }
        let mut e = nl;
        while e > p && b[e - 1] == 0x0D
            invariant
                n == b@.len(),
                p <= e <= nl <= n,
                skip_byte_back(b@, p as int, nl as int, 0x0D) == skip_byte_back(
                    b@,
                    p as int,
                    e as int,
                    0x0D,
                ),
            decreases e,
        {
            e = e - 1;
        }
        let next = if nl < n {
            nl + 1
        } else {
            n
        };
        let ghost o0 = out@;
        out.push(TextRange { start: p as u32, end: e as u32 });
        proof {
            assert(next == incl_line_end(b@, p as int));
            assert(to_ranges(text_ranges_from(b@, p as int)) =~= seq![
                TextRange { start: p as u32, end: e as u32 },
            ] + to_ranges(text_ranges_from(b@, next as int)));
            assert(out@ + to_ranges(text_ranges_from(b@, next as int)) =~= o0 + to_ranges(
                text_ranges_from(b@, p as int),
            ));
        }
        p = next;
    }
    proof {
        assert(out@ =~= to_ranges(text_ranges_from(b@, 0)));
    }
    out
}

/// The ranges `l` and `n` share a position, by `TextRange::ordering`: neither
/// ends at or before the other's start.
pub open spec fn overlaps(l: TextRange, n: TextRange) -> bool {
    !(l.end <= n.start) && !(n.end <= l.start)
}

/// Index of the first of `ls`, at or after `i`, that overlaps `n`.
pub open spec fn first_overlap(ls: Seq<TextRange>, n: TextRange, i: int) -> Option<int>
    decreases ls.len() - i,
{
    if i < 0 || i >= ls.len() {
        None
    } else if overlaps(ls[i], n) {
        Some(i)
    } else {
        first_overlap(ls, n, i + 1)
    }
}

/// The span of `n` within the line of `ls` it overlaps, when it lies
/// entirely within that line.
pub open spec fn range_span(ls: Seq<TextRange>, n: TextRange) -> Option<Span> {
    match first_overlap(ls, n, 0) {
        Some(k) => if n.start < ls[k].start || n.end > ls[k].end {
            None
        } else {
            Some(
                Span {
                    line: k as u32,
                    line_start: (n.start - ls[k].start) as u32,
                    line_end: (n.end - ls[k].start) as u32,
                },
            )
        },
        None => None,
    }
}

/// Convert a byte range to a line-relative [`Span`], using the line ranges
/// `lines`; `None` when the range does not lie within a single line.
pub fn range_to_span(range: TextRange, lines: &[TextRange]) -> (r: Option<Span>)
    ensures
        r == range_span(lines@, range),
{
    let mut k: usize = 0;
    while k < lines.len()
        invariant
            k <= lines@.len(),
            first_overlap(lines@, range, 0) == first_overlap(lines@, range, k as int),
        decreases lines@.len() - k,
    {
        let l = lines[k];
        if !(l.end <= range.start) && !(range.end <= l.start) {
            if range.start < l.start || range.end > l.end {
                return None;
            }
            return Some(
                Span {
                    line: k as u32,
                    line_start: range.start - l.start,
                    line_end: range.end - l.start,
                },
            );
        }
        k = k + 1;
    }
    None
}

/// `taplo::dom::Node`, a node of the DOM that `taplo` builds.
#[verifier::external_type_specification]
#[verifier::external_body]
pub struct ExTaploNode(TaploNode);

/// `taplo::dom::node::Key`, a key of a `taplo` table.
#[verifier::external_type_specification]
#[verifier::external_body]
pub struct ExTaploKey(TaploKey);

/// `taplo::dom::node::Table`, a table of the `taplo` DOM.
#[verifier::external_type_specification]
#[verifier::external_body]
pub struct ExTaploTable(TaploTable);

/// The syntax tree that `taplo` builds for the UTF-8 text `content` (its
/// error messages and its DOM), as a [`TomlDocument`].
pub uninterp spec fn taplo_tree_of(content: Seq<u8>) -> TomlDocument;

/// The byte range of a key's token, as `taplo` records it.
#[verifier::external_body]
fn taplo_key_range(k: &TaploKey) -> Option<TextRange> {
    k.syntax().map(|s| TextRange { start: u32::from(s.text_range().start()), end: u32::from(s.text_range().end()) })
}

/// The byte range of a node's token, as `taplo` records it.
#[verifier::external_body]
fn taplo_node_range(n: &TaploNode) -> Option<TextRange> {
    n.syntax().map(|s| TextRange { start: u32::from(s.text_range().start()), end: u32::from(s.text_range().end()) })
}

/// The entries of a `taplo` table, in the DOM's order, each key with its
/// token's range.
#[verifier::external_body]
fn from_taplo_table(t: &TaploTable) -> Vec<TomlNodeEntry> {
    t.entries().read().iter().map(|(k, v)| TomlNodeEntry {
        key: k.value().to_string(),
        key_range: taplo_key_range(k),
        value: from_taplo(v),
    }).collect()
}

/// The [`TomlNode`] of a `taplo` DOM node, variant for variant: booleans,
/// strings with their token's range, arrays, and tables; every other node
/// is [`TomlNode::Other`].
#[verifier::external_body]
fn from_taplo(n: &TaploNode) -> TomlNode {
    match n {
        TaploNode::Bool(b) => TomlNode::Bool(b.value()),
        TaploNode::Str(s) => TomlNode::Str { value: s.value().to_string(), range: taplo_node_range(n) },
        TaploNode::Array(a) => TomlNode::Array(a.items().read().iter().map(from_taplo).collect()),
        TaploNode::Table(t) => TomlNode::Table(from_taplo_table(t)),
        _ => TomlNode::Other,
    }
}

/// `taplo::parser::parse`, then `into_dom`, converted.
///
/// Trusted: the result is the tree `taplo` builds for `content`, a function
/// of the text alone, named [`taplo_tree_of`]; what that is, TOML's grammar
/// and taplo's error messages, is not stated here.
#[verifier::external_body]
pub fn toml_tree(content: &str) -> (r: TomlDocument)
    ensures
        r == taplo_tree_of(sb(content)),
{
    let parsed = taplo::parser::parse(content);
    let errors = parsed.errors.iter().map(|e| e.message.clone()).collect();
    TomlDocument { errors, root: from_taplo(&parsed.into_dom()) }
}

} // verus!
