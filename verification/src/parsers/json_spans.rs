//! Shared helpers for span-aware JSON parsing.
//!
//! `LineIndex` pre-computes line-start byte offsets so that `position()`
//! converts any byte offset to a `(line, column)` pair by binary search;
//! `span_to_span` / `string_inner_to_span` convert raw byte ranges into
//! [`Span`]s, returning `None` for multi-line ranges.

use vstd::prelude::*;
use crate::text::{bytes, sb};
use crate::parsers::Span;

verus! {

/// Byte offsets of the line starts of `b`: `0`, then one past every `\n`.
pub open spec fn line_starts(b: Seq<u8>) -> Seq<usize>
    decreases b.len(),
{
    if b.len() == 0 {
        seq![0usize]
    } else {
        let prev = line_starts(b.drop_last());
        if b.last() == 10 {
            prev.push(b.len() as usize)
        } else {
            prev
        }
    }
}

/// Offsets that start at 0 and strictly increase.
pub open spec fn offsets_wf(o: Seq<usize>) -> bool {
    &&& o.len() > 0
    &&& o[0] == 0
    &&& forall|i: int, j: int| 0 <= i < j < o.len() ==> o[i] < o[j]
}

/// The line (index into `o`) that contains byte offset `off`.
pub open spec fn is_line_of(o: Seq<usize>, off: int, l: int) -> bool {
    &&& 0 <= l < o.len()
    &&& o[l] <= off
    &&& (l + 1 < o.len() ==> off < o[l + 1])
}

/// Pre-computed byte offsets of each line start in a source string.
pub struct LineIndex {
    /// `offsets[i]` is the byte offset where line `i` starts.
    offsets: Vec<usize>,
}

impl LineIndex {
    #[verifier::type_invariant]
    spec fn wf(self) -> bool {
        offsets_wf(self.offsets@)
    }

    /// The line-start offsets.
    pub closed spec fn offsets(self) -> Seq<usize> {
        self.offsets@
    }

    /// Build a `LineIndex` from `content`. Always contains at least one entry (`0`).
    pub fn new(content: &str) -> (r: Self)
        ensures
            r.offsets() == line_starts(sb(content)),
            offsets_wf(r.offsets()),
    {
        let b = bytes(content);
        let n = b.len();
        let mut offsets: Vec<usize> = Vec::new();
        offsets.push(0);
        let mut i: usize = 0;
        while i < n
            invariant
                n == b@.len(),
                i <= n,
                offsets@ == line_starts(b@.take(i as int)),
                offsets_wf(offsets@),
                offsets@.last() <= i,
            decreases n - i,
        {
            proof {
                assert(b@.take(i + 1).drop_last() =~= b@.take(i as int));
            }
            if b[i] == 10 {
                offsets.push(i + 1);
            }
            i = i + 1;
        }
        proof {
            assert(b@.take(n as int) =~= b@);
        }
        LineIndex { offsets }
    }

    /// Convert a byte offset to a `(line, column)` pair, both 0-indexed.
    /// Columns are byte offsets within the line. Offsets past the end clamp
    /// to the last line.
    pub fn position(&self, byte_offset: usize) -> (r: (u32, u32))
        ensures
            exists|l: int|
                is_line_of(self.offsets(), byte_offset as int, l) && r == (
                    l as u32,
                    (byte_offset - self.offsets()[l]) as u32,
                ),
    {
        proof {
            use_type_invariant(self);
        }
        let o = &self.offsets;
        // Binary search for the number of starts that are <= byte_offset.
        let mut lo: usize = 1;
        let mut hi: usize = o.len();
        while lo < hi
            invariant
                offsets_wf(o@),
                1 <= lo <= hi <= o@.len(),
                o@[lo - 1] <= byte_offset,
                hi < o@.len() ==> byte_offset < o@[hi as int],
            decreases hi - lo,
        {
            let mid = lo + (hi - lo) / 2;
            if o[mid] <= byte_offset {
                lo = mid + 1;
            } else {
                hi = mid;
            }
        }
        let line = lo - 1;
        let col = byte_offset - o[line];
        let r = (line as u32, col as u32);
        proof {
            assert(is_line_of(self.offsets(), byte_offset as int, line as int) && r == (
                line as u32,
                (byte_offset - self.offsets()[line as int]) as u32,
            ));
        }
        r
    }
}

/// Convert a byte range `[start, end)` to a `Span` if it fits on a single line.
/// Returns `None` if the range straddles a line boundary.
pub fn span_to_span(line_index: &LineIndex, start: usize, end: usize) -> (r: Option<Span>)
    ensures
        exists|ls: int, le: int|
            is_line_of(line_index.offsets(), start as int, ls) && is_line_of(
                line_index.offsets(),
                end as int,
                le,
            ) && r == (if ls as u32 != le as u32 {
                None
            } else {
                Some(
                    Span {
                        line: ls as u32,
                        line_start: (start - line_index.offsets()[ls]) as u32,
                        line_end: (end - line_index.offsets()[le]) as u32,
                    },
                )
            }),
{
    let (line_start, col_start) = line_index.position(start);
    let (line_end, col_end) = line_index.position(end);
    if line_start != line_end {
        return None;
    }
    Some(Span { line: line_start, line_start: col_start, line_end: col_end })
}

/// Convert the outer (quote-inclusive) byte bounds of a JSON string to a
/// `Span` covering only its inner content. A range shorter than the two
/// quotes gives `None`, as does an inner range that straddles lines.
pub fn string_inner_to_span(line_index: &LineIndex, start: usize, end: usize) -> (r: Option<
    Span,
>)
    ensures
        end < start + 2 ==> r is None,
        end >= start + 2 ==> exists|ls: int, le: int|
            is_line_of(line_index.offsets(), start + 1, ls) && is_line_of(
                line_index.offsets(),
                end - 1,
                le,
            ) && r == (if ls as u32 != le as u32 {
                None
            } else {
                Some(
                    Span {
                        line: ls as u32,
                        line_start: (start + 1 - line_index.offsets()[ls]) as u32,
                        line_end: (end - 1 - line_index.offsets()[le]) as u32,
                    },
                )
            }),
{
    if end < start || end - start < 2 {
        return None;
    }
    span_to_span(line_index, start + 1, end - 1)
}

/// Each byte offset lies on exactly one line: two lines that both contain
/// `off` are the same line, so `position` is determined by its argument.
pub proof fn law_line_of_unique(o: Seq<usize>, off: int, l1: int, l2: int)
    requires
        offsets_wf(o),
        is_line_of(o, off, l1),
        is_line_of(o, off, l2),
    ensures
        l1 == l2,
{
    if l1 < l2 {
        assert(o[l1 + 1] <= o[l2]) by {
            if l1 + 1 < l2 {
                assert(o[l1 + 1] < o[l2]);
            }
        }
    }
    if l2 < l1 {
        assert(o[l2 + 1] <= o[l1]) by {
            if l2 + 1 < l1 {
                assert(o[l2 + 1] < o[l1]);
            }
        }
    }
}

/// The line of `o` that contains `off` (unique when `o` is well formed).
pub open spec fn line_of(o: Seq<usize>, off: int) -> int {
    choose|l: int| is_line_of(o, off, l)
}

proof fn lemma_line_below(o: Seq<usize>, off: int, l: int)
    requires
        offsets_wf(o),
        0 <= off,
        0 <= l < o.len(),
        forall|j: int| l < j < o.len() ==> off < #[trigger] o[j],
    ensures
        exists|k: int| is_line_of(o, off, k),
    decreases l,
{
    if o[l] <= off {
        assert(is_line_of(o, off, l));
    } else {
        lemma_line_below(o, off, l - 1);
    }
}

/// Every offset at or after the first line start lies on a line, and the
/// position of an offset leads back to it: the line's start plus the column
/// is the offset.
pub proof fn law_position_round_trip(o: Seq<usize>, off: int)
    requires
        offsets_wf(o),
        0 <= off,
    ensures
        is_line_of(o, off, line_of(o, off)),
        o[line_of(o, off)] + (off - o[line_of(o, off)]) == off,
        0 <= off - o[line_of(o, off)],
{
    lemma_line_below(o, off, o.len() - 1);
}

/// The span of the content of a JSON string whose quote-inclusive bounds
/// are `[start, end)`: none for fewer than two bytes or a content that
/// straddles lines.
pub open spec fn inner_span_of(o: Seq<usize>, start: int, end: int) -> Option<Span> {
    if end < start + 2 {
        None
    } else {
        let ls = line_of(o, start + 1);
        let le = line_of(o, end - 1);
        if ls as u32 != le as u32 {
            None
        } else {
            Some(
                Span {
                    line: ls as u32,
                    line_start: (start + 1 - o[ls]) as u32,
                    line_end: (end - 1 - o[le]) as u32,
                },
            )
        }
    }
}

/// [`string_inner_to_span`], stated as a function of the line index.
pub fn string_inner_span(line_index: &LineIndex, start: usize, end: usize) -> (r: Option<Span>)
    ensures
        r == inner_span_of(line_index.offsets(), start as int, end as int),
{
    proof {
        use_type_invariant(line_index);
    }
    let r = string_inner_to_span(line_index, start, end);
    proof {
        let o = line_index.offsets();
        if end >= start + 2 {
            let (ls, le) = choose|ls: int, le: int|
                is_line_of(o, start + 1, ls) && is_line_of(o, end - 1, le) && r == (if ls as u32
                    != le as u32 {
                    None
                } else {
                    Some(
                        Span {
                            line: ls as u32,
                            line_start: (start + 1 - o[ls]) as u32,
                            line_end: (end - 1 - o[le]) as u32,
                        },
                    )
                });
            law_line_of_unique(o, start + 1, ls, line_of(o, start + 1));
            law_line_of_unique(o, end - 1, le, line_of(o, end - 1));
        }
    }
    r
}

/// The span of a string's content lies on one line: it starts no later than
/// it ends, and it ends before the next line starts (for offsets and a line
/// count that fit in a `u32`). The npm and Composer manifest spans are made
/// this way.
pub proof fn law_inner_span_within_line(o: Seq<usize>, start: int, end: int)
    requires
        offsets_wf(o),
        0 <= start,
        end <= u32::MAX,
        o.len() <= u32::MAX,
    ensures
        inner_span_of(o, start, end) matches Some(s) ==> {
            &&& 0 <= s.line < o.len()
            &&& s.line_start <= s.line_end
            &&& o[s.line as int] + s.line_start == start + 1
            &&& o[s.line as int] + s.line_end == end - 1
            &&& (s.line + 1 < o.len() ==> o[s.line as int] + s.line_end < o[s.line + 1])
        },
{
    if end >= start + 2 {
        law_position_round_trip(o, start + 1);
        law_position_round_trip(o, end - 1);
        let ls = line_of(o, start + 1);
        let le = line_of(o, end - 1);
        if ls as u32 == le as u32 {
            assert(ls == le);
        }
    }
}

} // verus!
