//! Byte-level string helpers with exact contracts.
//!
//! All reasoning is done on the UTF-8 encoding of a `str` (`s.spec_bytes()`).
//! Slicing is only ever done at positions that are char boundaries, which is
//! established from the shape of the bytes around the position.

use vstd::prelude::*;

use vstd::utf8::*;
use vstd::string::StringSliceAdditionalSpecFns;
use vstd::string::StringExecFns;

verus! {

broadcast use vstd::utf8::encode_utf8_valid_utf8, vstd::utf8::encode_utf8_decode_utf8;

/// The UTF-8 bytes of a string slice.
pub open spec fn sb(s: &str) -> Seq<u8> {
    s.spec_bytes()
}

/// The UTF-8 bytes of an owned string.
pub open spec fn ob(s: &String) -> Seq<u8> {
    encode_utf8(s@)
}

/// A position at which a valid UTF-8 byte sequence may be cut.
pub open spec fn at_boundary(b: Seq<u8>, i: int) -> bool {
    &&& 0 <= i <= b.len()
    &&& (i == 0 || i == b.len() || !is_continuation_byte(b[i]))
}

pub proof fn lemma_char_boundary(b: Seq<u8>, i: int)
    requires
        valid_utf8(b),
        at_boundary(b, i),
    ensures
        is_char_boundary(b, i),
{
    is_char_boundary_start_end_of_seq(b);
    if 0 < i < b.len() {
        is_char_boundary_iff_not_is_continuation_byte(b, i);
    }
}

/// The byte after an ASCII byte of valid UTF-8 is never a continuation byte.
pub proof fn lemma_after_ascii(b: Seq<u8>, i: int)
    requires
        valid_utf8(b),
        0 <= i < b.len(),
        b[i] < 0x80,
    ensures
        at_boundary(b, i + 1),
{
    if i + 1 < b.len() {
        is_char_boundary_iff_not_is_continuation_byte(b, i);
        lemma_char_boundary(b, i);
        valid_utf8_split(b, i);
        let suffix = b.subrange(i, b.len() as int);
        assert(suffix[0] == b[i]);
        assert(pop_first_scalar(suffix) =~= b.subrange(i + 1, b.len() as int));
        let rest = pop_first_scalar(suffix);
        assert(valid_utf8(rest));
        assert(rest[0] == b[i + 1]);
    }
}

/// Width in bytes of the UTF-8 encoding that starts with the leading byte `x`.
pub open spec fn lead_width(x: u8) -> int {
    if x < 0x80 {
        1
    } else if x < 0xE0 {
        2
    } else if x < 0xF0 {
        3
    } else {
        4
    }
}

/// Stepping over one whole encoded char from a boundary lands on a boundary.
pub proof fn lemma_next_boundary(b: Seq<u8>, p: int)
    requires
        valid_utf8(b),
        at_boundary(b, p),
        p < b.len(),
    ensures
        p + lead_width(b[p]) <= b.len(),
        at_boundary(b, p + lead_width(b[p])),
{
    lemma_char_boundary(b, p);
    valid_utf8_split(b, p);
    let suf = b.subrange(p, b.len() as int);
    assert(valid_first_scalar(suf));
    assert(suf[0] == b[p]);
    let w = lead_width(b[p]);
    assert(length_of_first_scalar(suf) == w);
    let rest = pop_first_scalar(suf);
    assert(valid_utf8(rest));
    assert(rest =~= b.subrange(p + w, b.len() as int));
    if p + w < b.len() {
        assert(valid_first_scalar(rest));
        assert(rest[0] == b[p + w]);
    }
}

/// `s[a..e]` for byte positions at char boundaries.
pub fn slice(s: &str, a: usize, e: usize) -> (r: &str)
    requires
        a <= e <= sb(s).len(),
        at_boundary(sb(s), a as int),
        at_boundary(sb(s), e as int),
    ensures
        sb(r) == sb(s).subrange(a as int, e as int),
{
    proof {
        lemma_char_boundary(sb(s), e as int);
    }
    let (left, _right) = s.split_at(e);
    proof {
        let lb = sb(left);
        assert(lb =~= sb(s).subrange(0, e as int));
        if 0 < a < e {
            assert(lb[a as int] == sb(s)[a as int]);
        }
        assert(at_boundary(lb, a as int));
        lemma_char_boundary(lb, a as int);
    }
    let (_l, mid) = left.split_at(a);
    proof {
        assert(sb(mid) =~= sb(s).subrange(a as int, e as int));
    }
    mid
}

/// An owned copy of a string slice.
pub fn to_owned_string(s: &str) -> (r: String)
    ensures
        r@ == s@,
        ob(&r) == sb(s),
{
    s.to_owned()
}

/// The bytes of `s` as a slice.
pub fn bytes(s: &str) -> (r: &[u8])
    ensures
        r@ == sb(s),
{
    s.as_bytes()
}

// ---------------------------------------------------------------------------
// Unicode whitespace (the `White_Space` property) in UTF-8
// ---------------------------------------------------------------------------

/// One-byte whitespace: tab, line feed, vertical tab, form feed, carriage return, space.
pub open spec fn is_ws1(x: u8) -> bool {
    x == 0x20 || (0x09 <= x && x <= 0x0D)
}

/// Two-byte whitespace: U+0085 and U+00A0.
pub open spec fn is_ws2(x: u8, y: u8) -> bool {
    x == 0xC2 && (y == 0x85 || y == 0xA0)
}

/// Three-byte whitespace: U+1680, U+2000..U+200A, U+2028, U+2029, U+202F, U+205F, U+3000.
pub open spec fn is_ws3(x: u8, y: u8, z: u8) -> bool {
    ||| (x == 0xE1 && y == 0x9A && z == 0x80)
    ||| (x == 0xE2 && y == 0x80 && ((0x80 <= z && z <= 0x8A) || z == 0xA8 || z == 0xA9 || z
        == 0xAF))
    ||| (x == 0xE2 && y == 0x81 && z == 0x9F)
    ||| (x == 0xE3 && y == 0x80 && z == 0x80)
}

/// Length of the whitespace char encoded at `p`, or 0 when none starts there.
pub open spec fn ws_len(b: Seq<u8>, p: int) -> int {
    if !(0 <= p < b.len()) {
        0
    } else if is_ws1(b[p]) {
        1
    } else if p + 1 < b.len() && is_ws2(b[p], b[p + 1]) {
        2
    } else if p + 2 < b.len() && is_ws3(b[p], b[p + 1], b[p + 2]) {
        3
    } else {
        0
    }
}

/// Length of the whitespace char encoded just before `e`, or 0 when none ends there.
pub open spec fn ws_len_back(b: Seq<u8>, e: int) -> int {
    if !(0 < e <= b.len()) {
        0
    } else if is_ws1(b[e - 1]) {
        1
    } else if e >= 2 && is_ws2(b[e - 2], b[e - 1]) {
        2
    } else if e >= 3 && is_ws3(b[e - 3], b[e - 2], b[e - 1]) {
        3
    } else {
        0
    }
}

/// First position at or after `p` that does not start a whitespace char.
pub open spec fn skip_ws(b: Seq<u8>, p: int) -> int
    decreases b.len() - p,
{
    if 0 <= p < b.len() && ws_len(b, p) > 0 {
        skip_ws(b, p + ws_len(b, p))
    } else {
        p
    }
}

/// Last position at or before `e` that does not end a whitespace char.
pub open spec fn skip_ws_back(b: Seq<u8>, e: int) -> int
    decreases e,
{
    if 0 < e <= b.len() && ws_len_back(b, e) > 0 {
        skip_ws_back(b, e - ws_len_back(b, e))
    } else {
        e
    }
}

/// `str::trim_start` on bytes.
pub open spec fn trim_start_b(b: Seq<u8>) -> Seq<u8> {
    b.subrange(skip_ws(b, 0), b.len() as int)
}

/// `str::trim_end` on bytes.
pub open spec fn trim_end_b(b: Seq<u8>) -> Seq<u8> {
    b.subrange(0, skip_ws_back(b, b.len() as int))
}

/// `str::trim` on bytes.
pub open spec fn trim_b(b: Seq<u8>) -> Seq<u8> {
    trim_end_b(trim_start_b(b))
}

pub proof fn lemma_skip_ws_bounds(b: Seq<u8>, p: int)
    requires
        0 <= p <= b.len(),
    ensures
        p <= skip_ws(b, p) <= b.len(),
    decreases b.len() - p,
{
    if 0 <= p < b.len() && ws_len(b, p) > 0 {
        lemma_skip_ws_bounds(b, p + ws_len(b, p));
    }
}

pub proof fn lemma_skip_ws_back_bounds(b: Seq<u8>, e: int)
    requires
        0 <= e <= b.len(),
    ensures
        0 <= skip_ws_back(b, e) <= e,
    decreases e,
{
    if 0 < e <= b.len() && ws_len_back(b, e) > 0 {
        lemma_skip_ws_back_bounds(b, e - ws_len_back(b, e));
    }
}

/// Exec version of `ws_len`.
pub fn ws_len_at(b: &[u8], p: usize) -> (k: usize)
    ensures
        k == ws_len(b@, p as int),
        k == 0 || p as int + k <= b@.len(),
{
    let n = b.len();
    if p >= n {
        return 0;
    }
    let x = b[p];
    if x == 0x20 || (0x09 <= x && x <= 0x0D) {
        return 1;
    }
    if p + 1 < n {
        let y = b[p + 1];
        if x == 0xC2 && (y == 0x85 || y == 0xA0) {
            return 2;
        }
        if p + 2 < n {
            let z = b[p + 2];
            if (x == 0xE1 && y == 0x9A && z == 0x80) || (x == 0xE2 && y == 0x80 && ((0x80 <= z
                && z <= 0x8A) || z == 0xA8 || z == 0xA9 || z == 0xAF)) || (x == 0xE2 && y == 0x81
                && z == 0x9F) || (x == 0xE3 && y == 0x80 && z == 0x80) {
                return 3;
            }
        }
    }
    0
}

/// Exec version of `ws_len_back`.
pub fn ws_len_before(b: &[u8], e: usize) -> (k: usize)
    ensures
        k == ws_len_back(b@, e as int),
{
    let n = b.len();
    if e == 0 || e > n {
        return 0;
    }
    let z = b[e - 1];
    if z == 0x20 || (0x09 <= z && z <= 0x0D) {
        return 1;
    }
    if e >= 2 {
        let y = b[e - 2];
        if y == 0xC2 && (z == 0x85 || z == 0xA0) {
            return 2;
        }
        if e >= 3 {
            let x = b[e - 3];
            if (x == 0xE1 && y == 0x9A && z == 0x80) || (x == 0xE2 && y == 0x80 && ((0x80 <= z
                && z <= 0x8A) || z == 0xA8 || z == 0xA9 || z == 0xAF)) || (x == 0xE2 && y == 0x81
                && z == 0x9F) || (x == 0xE3 && y == 0x80 && z == 0x80) {
                return 3;
            }
        }
    }
    0
}

/// Position after the leading whitespace of `b[p..]`.
pub fn skip_ws_from(b: &[u8], p: usize) -> (r: usize)
    requires
        p <= b@.len(),
    ensures
        r as int == skip_ws(b@, p as int),
        p <= r <= b@.len(),
        valid_utf8(b@) && at_boundary(b@, p as int) ==> at_boundary(b@, r as int),
{
    let n = b.len();
    let mut q = p;
    loop
        invariant
            n == b@.len(),
            p <= q <= b@.len(),
            skip_ws(b@, p as int) == skip_ws(b@, q as int),
            valid_utf8(b@) && at_boundary(b@, p as int) ==> at_boundary(b@, q as int),
        decreases b@.len() - q,
    {
        let k = ws_len_at(b, q);
        if k == 0 {
            return q;
        }
        proof {
            if valid_utf8(b@) && at_boundary(b@, p as int) {
                lemma_next_boundary(b@, q as int);
            }
        }
        q = q + k;
    }
}

/// Position before the trailing whitespace of `b[..e]`.
pub fn skip_ws_back_from(b: &[u8], e: usize) -> (r: usize)
    requires
        e <= b@.len(),
    ensures
        r as int == skip_ws_back(b@, e as int),
        r <= e,
        at_boundary(b@, e as int) ==> at_boundary(b@, r as int),
{
    let mut q = e;
    loop
        invariant
            q <= e <= b@.len(),
            skip_ws_back(b@, e as int) == skip_ws_back(b@, q as int),
            at_boundary(b@, e as int) ==> at_boundary(b@, q as int),
        decreases q,
    {
        let k = ws_len_before(b, q);
        if k == 0 {
            return q;
        }
        q = q - k;
    }
}

/// `str::trim_start`.
pub fn trim_start(s: &str) -> (r: &str)
    ensures
        sb(r) == trim_start_b(sb(s)),
{
    let b = s.as_bytes();
    let p = skip_ws_from(b, 0);
    slice(s, p, b.len())
}

/// `str::trim_end`.
pub fn trim_end(s: &str) -> (r: &str)
    ensures
        sb(r) == trim_end_b(sb(s)),
{
    let b = s.as_bytes();
    let e = skip_ws_back_from(b, b.len());
    slice(s, 0, e)
}

/// `str::trim`.
pub fn trim(s: &str) -> (r: &str)
    ensures
        sb(r) == trim_b(sb(s)),
{
    trim_end(trim_start(s))
}

// ---------------------------------------------------------------------------
// Searching
// ---------------------------------------------------------------------------

/// First index at or after `lo` holding the byte `c`.
pub open spec fn find_b(h: Seq<u8>, lo: int, c: u8) -> Option<int>
    decreases h.len() - lo,
{
    if lo < 0 || lo >= h.len() {
        None
    } else if h[lo] == c {
        Some(lo)
    } else {
        find_b(h, lo + 1, c)
    }
}

/// `n` occurs in `h` starting at `i`.
pub open spec fn matches_at(h: Seq<u8>, i: int, n: Seq<u8>) -> bool {
    0 <= i && i + n.len() <= h.len() && h.subrange(i, i + n.len()) == n
}

/// First index at or after `lo` where `n` occurs (the `str::find` of a pattern string).
pub open spec fn find_s(h: Seq<u8>, lo: int, n: Seq<u8>) -> Option<int>
    decreases h.len() + 1 - lo,
{
    if lo < 0 || lo + n.len() > h.len() {
        None
    } else if matches_at(h, lo, n) {
        Some(lo)
    } else {
        find_s(h, lo + 1, n)
    }
}

/// `h` starts with `n`.
pub open spec fn starts_with_b(h: Seq<u8>, n: Seq<u8>) -> bool {
    matches_at(h, 0, n)
}

/// `h` ends with `n`.
pub open spec fn ends_with_b(h: Seq<u8>, n: Seq<u8>) -> bool {
    n.len() <= h.len() && matches_at(h, h.len() - n.len(), n)
}

/// `n` occurs somewhere in `h`.
pub open spec fn contains_b(h: Seq<u8>, n: Seq<u8>) -> bool {
    find_s(h, 0, n) is Some
}

pub proof fn lemma_find_b(h: Seq<u8>, lo: int, c: u8)
    requires
        0 <= lo,
    ensures
        find_b(h, lo, c) matches Some(i) ==> lo <= i < h.len() && h[i] == c && forall|j: int|
            lo <= j < i ==> h[j] != c,
        find_b(h, lo, c) is None ==> forall|j: int| lo <= j < h.len() ==> h[j] != c,
    decreases h.len() - lo,
{
    if lo < h.len() && h[lo] != c {
        lemma_find_b(h, lo + 1, c);
    }
}

pub proof fn lemma_find_s(h: Seq<u8>, lo: int, n: Seq<u8>)
    requires
        0 <= lo,
    ensures
        find_s(h, lo, n) matches Some(i) ==> lo <= i && matches_at(h, i, n) && forall|j: int|
            lo <= j < i ==> !matches_at(h, j, n),
        find_s(h, lo, n) is None ==> forall|j: int| lo <= j ==> !matches_at(h, j, n),
    decreases h.len() + 1 - lo,
{
    if lo + n.len() <= h.len() && !matches_at(h, lo, n) {
        lemma_find_s(h, lo + 1, n);
    }
}

/// First index in `h[lo..]` holding `c`.
pub fn find_byte(h: &[u8], lo: usize, c: u8) -> (r: Option<usize>)
    ensures
        r matches Some(i) ==> find_b(h@, lo as int, c) == Some(i as int) && lo <= i < h@.len(),
        r is None ==> find_b(h@, lo as int, c) is None,
{
    let n = h.len();
    let mut i = lo;
    while i < n
        invariant
            n == h@.len(),
            lo <= i,
            find_b(h@, lo as int, c) == find_b(h@, i as int, c),
        decreases n - i,
    {
        if h[i] == c {
            return Some(i);
        }
        i = i + 1;
    }
    None
}

/// Whether `n` occurs in `h` at `i`.
pub fn matches_at_exec(h: &[u8], i: usize, n: &[u8]) -> (r: bool)
    ensures
        r == matches_at(h@, i as int, n@),
{
    let hl = h.len();
    let nl = n.len();
    if i > hl || nl > hl - i {
        return false;
    }
    let mut k: usize = 0;
    while k < nl
        invariant
            hl == h@.len(),
            nl == n@.len(),
            i + nl <= hl,
            k <= nl,
            forall|j: int| 0 <= j < k ==> h@[i + j] == n@[j],
        decreases nl - k,
    {
        if h[i + k] != n[k] {
            proof {
                assert(h@.subrange(i as int, i + nl)[k as int] != n@[k as int]);
            }
            return false;
        }
        k = k + 1;
    }
    proof {
        assert(h@.subrange(i as int, i + nl) =~= n@);
    }
    true
}

/// First occurrence of `n` in `h` at or after `lo`.
pub fn find_seq(h: &[u8], lo: usize, n: &[u8]) -> (r: Option<usize>)
    ensures
        r matches Some(i) ==> find_s(h@, lo as int, n@) == Some(i as int) && lo <= i && i
            + n@.len() <= h@.len(),
        r is None ==> find_s(h@, lo as int, n@) is None,
{
    let hl = h.len();
    let nl = n.len();
    let mut i = lo;
    while i <= hl && nl <= hl - i
        invariant
            hl == h@.len(),
            nl == n@.len(),
            lo <= i,
            find_s(h@, lo as int, n@) == find_s(h@, i as int, n@),
        decreases hl + 1 - i,
    {
        if matches_at_exec(h, i, n) {
            return Some(i);
        }
        if i == hl {
            assert(find_s(h@, i + 1, n@) is None);
            return None;
        }
        i = i + 1;
    }
    None
}

/// `h` starts with `n`.
pub fn starts_with(h: &[u8], n: &[u8]) -> (r: bool)
    ensures
        r == starts_with_b(h@, n@),
{
    matches_at_exec(h, 0, n)
}

/// `h` ends with `n`.
pub fn ends_with(h: &[u8], n: &[u8]) -> (r: bool)
    ensures
        r == ends_with_b(h@, n@),
{
    if n.len() > h.len() {
        return false;
    }
    matches_at_exec(h, h.len() - n.len(), n)
}

/// `n` occurs in `h`.
pub fn contains(h: &[u8], n: &[u8]) -> (r: bool)
    ensures
        r == contains_b(h@, n@),
{
    find_seq(h, 0, n).is_some()
}

// ---------------------------------------------------------------------------
// Lines (`str::lines`)
// ---------------------------------------------------------------------------

/// Index of the first `\n` at or after `p`, or the length when there is none.
pub open spec fn nl_from(b: Seq<u8>, p: int) -> int
    decreases b.len() - p,
{
    if p < 0 || p >= b.len() {
        b.len() as int
    } else if b[p] == 10 {
        p
    } else {
        nl_from(b, p + 1)
    }
}

/// End of the text of the line starting at `p` (a `\r` before the `\n` is not part of it).
pub open spec fn line_end(b: Seq<u8>, p: int) -> int {
    let n = nl_from(b, p);
    if n < b.len() && n > p && b[n - 1] == 13 {
        n - 1
    } else {
        n
    }
}

pub proof fn lemma_nl_from(b: Seq<u8>, p: int)
    requires
        0 <= p <= b.len(),
    ensures
        p <= nl_from(b, p) <= b.len(),
        nl_from(b, p) < b.len() ==> b[nl_from(b, p)] == 10,
        forall|j: int| p <= j < nl_from(b, p) ==> b[j] != 10,
    decreases b.len() - p,
{
    if p < b.len() && b[p] != 10 {
        lemma_nl_from(b, p + 1);
    }
}

/// The lines of `b[p..]`, as yielded by `str::lines`.
pub open spec fn lines_from(b: Seq<u8>, p: int) -> Seq<Seq<u8>>
    decreases b.len() + 1 - p,
    via lines_from_decreases
{
    if p < 0 || p >= b.len() {
        Seq::empty()
    } else {
        seq![b.subrange(p, line_end(b, p))] + lines_from(b, nl_from(b, p) + 1)
    }
}

#[via_fn]
proof fn lines_from_decreases(b: Seq<u8>, p: int) {
    if 0 <= p < b.len() {
        lemma_nl_from(b, p);
    }
}

/// The lines of `b`, as yielded by `str::lines`.
pub open spec fn lines(b: Seq<u8>) -> Seq<Seq<u8>> {
    lines_from(b, 0)
}

/// Bounds of the line starting at `p`: the end of its text and the start of the next line.
pub fn next_line(b: &[u8], p: usize) -> (r: (usize, usize))
    requires
        p < b@.len(),
    ensures
        r.0 as int == line_end(b@, p as int),
        p <= r.0 <= b@.len(),
        p < r.1 <= b@.len(),
        lines_from(b@, p as int) == seq![b@.subrange(p as int, r.0 as int)] + lines_from(
            b@,
            r.1 as int,
        ),
        valid_utf8(b@) && at_boundary(b@, p as int) ==> at_boundary(b@, r.0 as int)
            && at_boundary(b@, r.1 as int),
{
    proof {
        lemma_nl_from(b@, p as int);
    }
    let n = b.len();
    let nl = match find_byte(b, p, 10) {
        Some(i) => i,
        None => n,
    };
    proof {
        lemma_find_b(b@, p as int, 10);
        assert(nl as int == nl_from(b@, p as int)) by {
            if nl_from(b@, p as int) < nl {
                assert(b@[nl_from(b@, p as int)] == 10);
            }
            if nl < nl_from(b@, p as int) {
                assert(b@[nl as int] == 10);
            }
        }
    }
    let ce = if nl < n && nl > p && b[nl - 1] == 13 {
        nl - 1
    } else {
        nl
    };
    let next = if nl < n {
        nl + 1
    } else {
        n
    };
    proof {
        if valid_utf8(b@) && nl < n {
            lemma_next_boundary(b@, nl as int);
        }
        if nl >= n {
            assert(lines_from(b@, next as int) == lines_from(b@, nl + 1));
        }
    }
    (ce, next)
}

// ---------------------------------------------------------------------------
// Blanks (space and tab) and small helpers
// ---------------------------------------------------------------------------

/// A space or a tab.
pub open spec fn is_blank(x: u8) -> bool {
    x == 0x20 || x == 0x09
}

/// First position at or after `i` that is not a space or tab.
pub open spec fn skip_blanks(b: Seq<u8>, i: int) -> int
    decreases b.len() - i,
{
    if 0 <= i < b.len() && is_blank(b[i]) {
        skip_blanks(b, i + 1)
    } else {
        i
    }
}

pub proof fn lemma_skip_blanks(b: Seq<u8>, i: int)
    requires
        0 <= i <= b.len(),
    ensures
        i <= skip_blanks(b, i) <= b.len(),
        forall|j: int| i <= j < skip_blanks(b, i) ==> is_blank(b[j]),
        valid_utf8(b) && at_boundary(b, i) ==> at_boundary(b, skip_blanks(b, i)),
    decreases b.len() - i,
{
    if i < b.len() && is_blank(b[i]) {
        if valid_utf8(b) && at_boundary(b, i) {
            lemma_next_boundary(b, i);
        }
        lemma_skip_blanks(b, i + 1);
    }
}

/// Exec version of `skip_blanks`.
pub fn skip_blanks_from(b: &[u8], i: usize) -> (r: usize)
    requires
        i <= b@.len(),
    ensures
        r as int == skip_blanks(b@, i as int),
        i <= r <= b@.len(),
{
    let n = b.len();
    let mut j = i;
    while j < n && (b[j] == 0x20 || b[j] == 0x09)
        invariant
            n == b@.len(),
            i <= j <= n,
            skip_blanks(b@, i as int) == skip_blanks(b@, j as int),
        decreases n - j,
    {
        j = j + 1;
    }
    j
}

/// Valid UTF-8 can be cut right after a prefix that ends with an ASCII byte.
pub proof fn lemma_ascii_prefix_boundary(b: Seq<u8>, p: Seq<u8>)
    requires
        valid_utf8(b),
        starts_with_b(b, p),
        p.len() > 0,
        p[p.len() - 1] < 0x80,
    ensures
        at_boundary(b, p.len() as int),
{
    assert(b[p.len() - 1] == b.subrange(0, p.len() as int)[p.len() - 1]);
    lemma_next_boundary(b, p.len() - 1);
}

/// An owned copy of `s[a..e]`.
pub fn sub_string(s: &str, a: usize, e: usize) -> (r: String)
    requires
        a <= e <= sb(s).len(),
        at_boundary(sb(s), a as int),
        at_boundary(sb(s), e as int),
    ensures
        ob(&r) == sb(s).subrange(a as int, e as int),
{
    to_owned_string(slice(s, a, e))
}

/// The bytes `q`, then `n`, then `q`.
pub fn quoted_bytes(q: u8, n: &[u8]) -> (r: Vec<u8>)
    ensures
        r@ == seq![q] + n@ + seq![q],
{
    let mut v: Vec<u8> = Vec::new();
    v.push(q);
    let mut k: usize = 0;
    while k < n.len()
        invariant
            k <= n@.len(),
            v@ == seq![q] + n@.subrange(0, k as int),
        decreases n@.len() - k,
    {
        v.push(n[k]);
        k = k + 1;
        proof {
            assert(n@.subrange(0, k as int) =~= n@.subrange(0, k - 1) + seq![n@[k - 1]]);
        }
    }
    v.push(q);
    proof {
        assert(n@.subrange(0, n@.len() as int) =~= n@);
    }
    v
}

/// `b[a..e]` of a byte slice.
pub fn subslice(b: &[u8], a: usize, e: usize) -> (r: &[u8])
    requires
        a <= e <= b@.len(),
    ensures
        r@ == b@.subrange(a as int, e as int),
{
    let (left, _) = b.split_at(e);
    let (_, mid) = left.split_at(a);
    proof {
        assert(mid@ =~= b@.subrange(a as int, e as int));
    }
    mid
}

/// Byte-wise equality of two slices.
pub fn eq_bytes(a: &[u8], b: &[u8]) -> (r: bool)
    ensures
        r == (a@ == b@),
{
    if a.len() != b.len() {
        return false;
    }
    let r = matches_at_exec(a, 0, b);
    proof {
        assert(a@.subrange(0, b@.len() as int) =~= a@);
    }
    r
}

/// Equality of two string slices (by their bytes, hence by their chars).
pub fn str_eq(a: &str, b: &str) -> (r: bool)
    ensures
        r == (sb(a) == sb(b)),
        r == (a@ == b@),
{
    let r = eq_bytes(bytes(a), bytes(b));
    proof {
        if sb(a) == sb(b) {
            assert(decode_utf8(sb(a)) == a@);
            assert(decode_utf8(sb(b)) == b@);
        }
    }
    r
}

// ---------------------------------------------------------------------------
// Stripping a repeated ASCII byte (`trim_*_matches` with a char pattern)
// ---------------------------------------------------------------------------

/// First position at or after `p` that does not hold `c`.
pub open spec fn skip_byte(b: Seq<u8>, p: int, c: u8) -> int
    decreases b.len() - p,
{
    if 0 <= p < b.len() && b[p] == c {
        skip_byte(b, p + 1, c)
    } else {
        p
    }
}

/// Last position at or before `e` not preceded by `c`.
pub open spec fn skip_byte_back(b: Seq<u8>, lo: int, e: int, c: u8) -> int
    decreases e - lo,
{
    if lo < e <= b.len() && b[e - 1] == c {
        skip_byte_back(b, lo, e - 1, c)
    } else {
        e
    }
}

/// `trim_start_matches(c)` on bytes.
pub open spec fn trim_start_byte_b(b: Seq<u8>, c: u8) -> Seq<u8> {
    b.subrange(skip_byte(b, 0, c), b.len() as int)
}

/// `trim_end_matches(c)` on bytes.
pub open spec fn trim_end_byte_b(b: Seq<u8>, c: u8) -> Seq<u8> {
    b.subrange(0, skip_byte_back(b, 0, b.len() as int, c))
}

/// `trim_matches(c)` on bytes.
pub open spec fn trim_byte_b(b: Seq<u8>, c: u8) -> Seq<u8> {
    trim_end_byte_b(trim_start_byte_b(b, c), c)
}

pub proof fn lemma_skip_byte(b: Seq<u8>, p: int, c: u8)
    requires
        0 <= p <= b.len(),
    ensures
        p <= skip_byte(b, p, c) <= b.len(),
        valid_utf8(b) && at_boundary(b, p) && c < 0x80 ==> at_boundary(b, skip_byte(b, p, c)),
    decreases b.len() - p,
{
    if p < b.len() && b[p] == c {
        if valid_utf8(b) && at_boundary(b, p) && c < 0x80 {
            lemma_next_boundary(b, p);
        }
        lemma_skip_byte(b, p + 1, c);
    }
}

pub proof fn lemma_skip_byte_back(b: Seq<u8>, lo: int, e: int, c: u8)
    requires
        0 <= lo <= e <= b.len(),
    ensures
        lo <= skip_byte_back(b, lo, e, c) <= e,
        at_boundary(b, e) && c < 0x80 ==> at_boundary(b, skip_byte_back(b, lo, e, c)),
    decreases e - lo,
{
    if lo < e && b[e - 1] == c {
        lemma_skip_byte_back(b, lo, e - 1, c);
    }
}

/// `s.trim_start_matches(c)` for an ASCII `c`.
pub fn trim_start_byte(s: &str, c: u8) -> (r: &str)
    requires
        c < 0x80,
    ensures
        sb(r) == trim_start_byte_b(sb(s), c),
{
    let b = bytes(s);
    let n = b.len();
    let mut p: usize = 0;
    while p < n && b[p] == c
        invariant
            n == b@.len(),
            p <= n,
            skip_byte(b@, 0, c) == skip_byte(b@, p as int, c),
        decreases n - p,
    {
        p = p + 1;
    }
    proof {
        lemma_skip_byte(b@, 0, c);
    }
    slice(s, p, n)
}

/// `s.trim_end_matches(c)` for an ASCII `c`.
pub fn trim_end_byte(s: &str, c: u8) -> (r: &str)
    requires
        c < 0x80,
    ensures
        sb(r) == trim_end_byte_b(sb(s), c),
{
    let b = bytes(s);
    let n = b.len();
    let mut e: usize = n;
    while e > 0 && b[e - 1] == c
        invariant
            n == b@.len(),
            e <= n,
            skip_byte_back(b@, 0, n as int, c) == skip_byte_back(b@, 0, e as int, c),
        decreases e,
    {
        e = e - 1;
    }
    proof {
        lemma_skip_byte_back(b@, 0, n as int, c);
    }
    slice(s, 0, e)
}

/// `s.trim_matches(c)` for an ASCII `c`.
pub fn trim_byte(s: &str, c: u8) -> (r: &str)
    requires
        c < 0x80,
    ensures
        sb(r) == trim_byte_b(sb(s), c),
{
    trim_end_byte(trim_start_byte(s, c), c)
}

// ---------------------------------------------------------------------------
// Splitting
// ---------------------------------------------------------------------------

/// End of the run of non-whitespace chars starting at `p`.
pub open spec fn token_end(b: Seq<u8>, p: int) -> int
    decreases b.len() + 4 - p,
{
    if p < 0 || p >= b.len() || ws_len(b, p) > 0 {
        p
    } else {
        token_end(b, p + lead_width(b[p]))
    }
}

/// The first whitespace-separated token of `b` (`split_whitespace().next()`), if any.
pub open spec fn first_token(b: Seq<u8>) -> Option<Seq<u8>> {
    let p = skip_ws(b, 0);
    if p >= b.len() {
        None
    } else {
        Some(b.subrange(p, token_end(b, p)))
    }
}

pub proof fn lemma_token_end(b: Seq<u8>, p: int)
    requires
        valid_utf8(b),
        at_boundary(b, p),
    ensures
        p <= token_end(b, p) <= b.len(),
        at_boundary(b, token_end(b, p)),
    decreases b.len() + 4 - p,
{
    if p < b.len() && ws_len(b, p) == 0 {
        lemma_next_boundary(b, p);
        lemma_token_end(b, p + lead_width(b[p]));
    }
}

/// The first whitespace-separated token of `s`, if any.
pub fn first_word(s: &str) -> (r: Option<&str>)
    ensures
        match first_token(sb(s)) {
            None => r is None,
            Some(t) => r matches Some(w) && sb(w) == t,
        },
{
    let b = bytes(s);
    let n = b.len();
    let p = skip_ws_from(b, 0);
    if p >= n {
        return None;
    }
    let mut e = p;
    while e < n && ws_len_at(b, e) == 0
        invariant
            n == b@.len(),
            valid_utf8(b@),
            p <= e <= n,
            at_boundary(b@, e as int),
            token_end(b@, p as int) == token_end(b@, e as int),
        decreases n - e,
    {
        let x = b[e];
        proof {
            lemma_next_boundary(b@, e as int);
        }
        let w: usize = if x < 0x80 {
            1
        } else if x < 0xE0 {
            2
        } else if x < 0xF0 {
            3
        } else {
            4
        };
        e = e + w;
    }
    proof {
        lemma_skip_ws_bounds(b@, 0);
    }
    let r = slice(s, p, e);
    assert(sb(r) == b@.subrange(p as int, token_end(b@, p as int)));
    Some(r)
}

proof fn lemma_encode_utf8_concat(a: Seq<char>, b: Seq<char>)
    ensures
        encode_utf8(a + b) == encode_utf8(a) + encode_utf8(b),
    decreases a.len(),
{
    if a.len() == 0 {
        assert(a + b =~= b);
    } else {
        lemma_encode_utf8_concat(a.drop_first(), b);
        assert((a + b).drop_first() =~= a.drop_first() + b);
        assert((a + b)[0] == a[0]);
    }
}

/// Appends a string slice to a string.
pub fn append_str(s: &mut String, t: &str)
    ensures
        final(s)@ == old(s)@ + t@,
        ob(&*final(s)) == ob(&*old(s)) + sb(t),
{
    proof {
        lemma_encode_utf8_concat(s@, t@);
    }
    s.append(t);
}

// ---------------------------------------------------------------------------
// Searching from the end, and splitting at a pattern
// ---------------------------------------------------------------------------

/// Last index before `e` holding the byte `c` (`str::rfind` of an ASCII char).
pub open spec fn rfind_b(h: Seq<u8>, e: int, c: u8) -> Option<int>
    decreases e,
{
    if e <= 0 || e > h.len() {
        None
    } else if h[e - 1] == c {
        Some(e - 1)
    } else {
        rfind_b(h, e - 1, c)
    }
}

pub proof fn lemma_rfind_b(h: Seq<u8>, e: int, c: u8)
    requires
        0 <= e <= h.len(),
    ensures
        rfind_b(h, e, c) matches Some(i) ==> 0 <= i < e && h[i] == c && forall|j: int|
            i < j < e ==> h[j] != c,
        rfind_b(h, e, c) is None ==> forall|j: int| 0 <= j < e ==> h[j] != c,
    decreases e,
{
    if e > 0 && h[e - 1] != c {
        lemma_rfind_b(h, e - 1, c);
    }
}

/// Last index in `h` holding `c`.
pub fn rfind_byte(h: &[u8], c: u8) -> (r: Option<usize>)
    ensures
        r matches Some(i) ==> rfind_b(h@, h@.len() as int, c) == Some(i as int) && i < h@.len(),
        r is None ==> rfind_b(h@, h@.len() as int, c) is None,
{
    let mut e = h.len();
    while e > 0
        invariant
            e <= h@.len(),
            rfind_b(h@, h@.len() as int, c) == rfind_b(h@, e as int, c),
        decreases e,
    {
        if h[e - 1] == c {
            return Some(e - 1);
        }
        e = e - 1;
    }
    None
}

/// The pieces of `b[p..]` between occurrences of the non-empty pattern `pat` (`str::split`).
pub open spec fn split_from(b: Seq<u8>, p: int, pat: Seq<u8>) -> Seq<Seq<u8>>
    decreases b.len() + 1 - p,
    via split_from_decreases
{
    if pat.len() == 0 || p < 0 || p > b.len() {
        Seq::empty()
    } else {
        match find_s(b, p, pat) {
            Some(i) => seq![b.subrange(p, i)] + split_from(b, i + pat.len(), pat),
            None => seq![b.subrange(p, b.len() as int)],
        }
    }
}

#[via_fn]
proof fn split_from_decreases(b: Seq<u8>, p: int, pat: Seq<u8>) {
    if pat.len() > 0 && 0 <= p <= b.len() {
        lemma_find_s(b, p, pat);
    }
}

/// The text of `b` before the first `c`, or all of `b` (`split(c).next()`).
pub open spec fn before_byte(b: Seq<u8>, c: u8) -> Seq<u8> {
    match find_b(b, 0, c) {
        Some(i) => b.subrange(0, i),
        None => b,
    }
}

/// `s.split(c).next().unwrap()` for an ASCII `c`.
pub fn until_byte(s: &str, c: u8) -> (r: &str)
    requires
        c < 0x80,
    ensures
        sb(r) == before_byte(sb(s), c),
{
    let b = bytes(s);
    match find_byte(b, 0, c) {
        Some(i) => {
            proof {
                lemma_find_b(b@, 0, c);
            }
            slice(s, 0, i)
        },
        None => {
            proof {
                assert(sb(s).subrange(0, b@.len() as int) =~= sb(s));
            }
            slice(s, 0, b.len())
        },
    }
}

// ---------------------------------------------------------------------------
// Unicode lowercase of a whole string
// ---------------------------------------------------------------------------

/// The string that `str::to_lowercase` returns for `s`.
pub uninterp spec fn str_to_lowercase(s: Seq<char>) -> Seq<char>;

/// `str::to_lowercase`.
///
/// Trusted: the result is whatever `str::to_lowercase` returns for `s`, a
/// function of the chars of `s` alone; the Unicode mapping is not stated.
#[verifier::external_body]
pub(crate) fn to_lowercase_string(s: &str) -> (r: String)
    ensures
        r@ == str_to_lowercase(s@),
{
    s.to_lowercase()
}

/// The UTF-8 bytes of the lowercase of the string whose bytes are `b`.
pub open spec fn lower_b(b: Seq<u8>) -> Seq<u8> {
    encode_utf8(str_to_lowercase(decode_utf8(b)))
}

// ---------------------------------------------------------------------------
// Byte-wise lexicographic order (the order of `str` and `String`)
// ---------------------------------------------------------------------------

/// `a` comes strictly before `b` in the byte-wise lexicographic order, which
/// is how `str` and `String` compare.
pub open spec fn lex_lt(a: Seq<u8>, b: Seq<u8>) -> bool
    decreases a.len(),
{
    if a.len() == 0 {
        b.len() > 0
    } else if b.len() == 0 {
        false
    } else if a[0] != b[0] {
        a[0] < b[0]
    } else {
        lex_lt(a.drop_first(), b.drop_first())
    }
}

pub proof fn lemma_lex_irreflexive(a: Seq<u8>)
    ensures
        !lex_lt(a, a),
    decreases a.len(),
{
    if a.len() > 0 {
        lemma_lex_irreflexive(a.drop_first());
    }
}

pub proof fn lemma_lex_trans(a: Seq<u8>, b: Seq<u8>, c: Seq<u8>)
    requires
        lex_lt(a, b),
        lex_lt(b, c),
    ensures
        lex_lt(a, c),
    decreases a.len(),
{
    if a.len() > 0 && a[0] == b[0] && b[0] == c[0] {
        lemma_lex_trans(a.drop_first(), b.drop_first(), c.drop_first());
    }
}

pub proof fn lemma_lex_total(a: Seq<u8>, b: Seq<u8>)
    requires
        a != b,
    ensures
        lex_lt(a, b) || lex_lt(b, a),
    decreases a.len(),
{
    if a.len() == 0 {
        assert(b.len() > 0) by {
            if b.len() == 0 {
                assert(a =~= b);
            }
        }
    } else if b.len() > 0 && a[0] == b[0] {
        assert(a.drop_first() != b.drop_first()) by {
            if a.drop_first() == b.drop_first() {
                assert(a =~= seq![a[0]] + a.drop_first());
                assert(b =~= seq![b[0]] + b.drop_first());
            }
        }
        lemma_lex_total(a.drop_first(), b.drop_first());
    }
}

/// Whether `a` comes strictly before `b` byte-wise.
pub fn bytes_lt(a: &[u8], b: &[u8]) -> (r: bool)
    ensures
        r == lex_lt(a@, b@),
{
    let mut i: usize = 0;
    proof {
        assert(a@.skip(0) =~= a@);
        assert(b@.skip(0) =~= b@);
    }
    while i < a.len() && i < b.len()
        invariant
            i <= a@.len(),
            i <= b@.len(),
            lex_lt(a@, b@) == lex_lt(a@.skip(i as int), b@.skip(i as int)),
        decreases a@.len() - i,
    {
        if a[i] != b[i] {
            return a[i] < b[i];
        }
        proof {
            assert(a@.skip(i as int).drop_first() =~= a@.skip(i + 1));
            assert(b@.skip(i as int).drop_first() =~= b@.skip(i + 1));
        }
        i = i + 1;
    }
    i == a.len() && i < b.len()
}

} // verus!
