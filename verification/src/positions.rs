//! Positions in the source: spans of one line each, tagged with what the
//! comparison found there.

use vstd::prelude::*;
use crate::changes::ChangeKind;
use crate::lexer::{lemma_line_end, line_end};
use crate::text::{NEWLINE, col_of, line_of, line_start_of};

verus! {

/// A stretch of one line: the zero-based line and the byte columns at
/// which the stretch begins and ends within it.
#[derive(Debug, Copy, Clone, PartialEq, Eq, Structural)]
pub struct SingleLineSpan {
    pub line: usize,
    pub start_col: usize,
    pub end_col: usize,
}

/// What the comparison found at a position. A matched position names the
/// identity of its peer on the other side.
#[derive(Debug, Copy, Clone, PartialEq, Eq, Structural)]
pub enum MatchKind {
    Novel,
    Unchanged { peer: usize },
    ReplacedComment { peer: usize },
}

/// A span of the source together with what was found there.
#[derive(Debug, Copy, Clone, PartialEq, Eq, Structural)]
pub struct MatchedPos {
    pub kind: MatchKind,
    pub pos: SingleLineSpan,
}

/// The tag of a position whose node has the given entry in the change map:
/// a node that nothing was assigned to counts as novel.
pub open spec fn kind_of_entry(entry: Option<ChangeKind>) -> MatchKind {
    match entry {
        Some(ChangeKind::Unchanged(peer)) => MatchKind::Unchanged { peer },
        Some(ChangeKind::ReplacedComment(peer)) => MatchKind::ReplacedComment { peer },
        _ => MatchKind::Novel,
    }
}

/// The tag of a position whose node has the given entry in the change
/// map.
pub fn match_kind(entry: Option<ChangeKind>) -> (res: MatchKind)
    ensures
        res == kind_of_entry(entry),
{
    match entry {
        Some(ChangeKind::Unchanged(peer)) => MatchKind::Unchanged { peer },
        Some(ChangeKind::ReplacedComment(peer)) => MatchKind::ReplacedComment { peer },
        _ => MatchKind::Novel,
    }
}

/// Span `p` ends before span `q` begins: on an earlier line, or on the
/// same line and further left.
pub open spec fn span_before(p: SingleLineSpan, q: SingleLineSpan) -> bool {
    p.line < q.line || (p.line == q.line && p.end_col <= q.start_col)
}

/// The positions stand in ascending order and do not overlap.
pub open spec fn ascending(s: Seq<MatchedPos>) -> bool {
    forall|a: int, b: int|
        0 <= a < b < s.len() ==> span_before((#[trigger] s[a]).pos, (#[trigger] s[b]).pos)
}

/// Every position begins no further right than it ends.
pub open spec fn well_formed(s: Seq<MatchedPos>) -> bool {
    forall|a: int| 0 <= a < s.len() ==> (#[trigger] s[a]).pos.start_col <= s[a].pos.end_col
}

/// In an ascending sequence of well-formed positions, line and start
/// column never decrease from one position to the next.
pub proof fn lemma_ascending_starts(s: Seq<MatchedPos>, a: int, b: int)
    requires
        ascending(s),
        well_formed(s),
        0 <= a <= b < s.len(),
    ensures
        s[a].pos.line < s[b].pos.line || (s[a].pos.line == s[b].pos.line && s[a].pos.start_col
            <= s[b].pos.start_col),
{
}

/// The spans that the bytes `s..e` of the source occupy, one for each
/// line on which they have at least one byte that is no line feed.
pub open spec fn range_spans(src: Seq<u8>, s: int, e: int) -> Seq<SingleLineSpan>
    decreases e - s,
{
    if s < 0 || s >= e || e > src.len() {
        Seq::empty()
    } else {
        let nl = line_end(src, s);
        let here = SingleLineSpan {
            line: line_of(src, s) as usize,
            start_col: col_of(src, s) as usize,
            end_col: (col_of(src, s) + ((if nl < e {
                nl
            } else {
                e
            }) - s)) as usize,
        };
        if nl >= e {
            seq![here]
        } else if nl > s {
            seq![here] + range_spans(src, nl + 1, e)
        } else {
            range_spans(src, s + 1, e)
        }
    }
}

/// The spans `spans`, each tagged with `kind`.
pub open spec fn tagged(spans: Seq<SingleLineSpan>, kind: MatchKind) -> Seq<MatchedPos> {
    Seq::new(spans.len(), |i: int| MatchedPos { kind, pos: spans[i] })
}

/// A place in the source together with its line and the offset at which
/// that line begins.
#[derive(Debug, Copy, Clone, PartialEq, Eq, Structural)]
pub struct LineCursor {
    pub pos: usize,
    pub line: usize,
    pub line_start: usize,
}

impl LineCursor {
    /// The cursor knows its line.
    pub open spec fn ok(self, src: Seq<u8>) -> bool {
        &&& self.pos <= src.len()
        &&& self.line == line_of(src, self.pos as int)
        &&& self.line_start == line_start_of(src, self.pos as int)
        &&& self.line_start <= self.pos
        &&& self.line <= self.pos
    }

    /// The cursor at the beginning of the source.
    pub fn new() -> (res: LineCursor)
        ensures
            res.pos == 0,
            forall|src: Seq<u8>| res.ok(src),
    {
        LineCursor { pos: 0, line: 0, line_start: 0 }
    }

    /// Move forward to offset `to`.
    pub fn advance(&mut self, src: &[u8], to: usize)
        requires
            old(self).ok(src@),
            old(self).pos <= to <= src@.len(),
        ensures
            final(self).ok(src@),
            final(self).pos == to,
            final(self).line >= old(self).line,
            final(self).line == old(self).line ==> final(self).line_start == old(self).line_start,
    {
        while self.pos < to
            invariant
                self.ok(src@),
                self.pos <= to <= src@.len(),
                self.line >= old(self).line,
                self.line == old(self).line ==> self.line_start == old(self).line_start,
            decreases to - self.pos,
        {
            if src[self.pos] == NEWLINE {
                self.line = self.line + 1;
                self.line_start = self.pos + 1;
            }
            self.pos = self.pos + 1;
        }
    }
}

/// Every position of `s` ends before the place `(line, col)`.
pub open spec fn all_before(s: Seq<MatchedPos>, line: int, col: int) -> bool {
    forall|a: int|
        0 <= a < s.len() ==> (#[trigger] s[a]).pos.line < line || (s[a].pos.line == line
            && s[a].pos.end_col <= col)
}

/// Append the spans of the bytes `cursor.pos..e`, tagged with `kind`.
pub fn emit_range(
    src: &[u8],
    cursor: &mut LineCursor,
    e: usize,
    kind: MatchKind,
    out: &mut Vec<MatchedPos>,
)
    requires
        old(cursor).ok(src@),
        old(cursor).pos <= e <= src@.len(),
        ascending(old(out)@),
        well_formed(old(out)@),
        all_before(old(out)@, old(cursor).line as int, old(cursor).pos - old(cursor).line_start),
    ensures
        final(cursor).ok(src@),
        final(cursor).pos == e,
        final(out)@ == old(out)@ + tagged(range_spans(src@, old(cursor).pos as int, e as int), kind),
        ascending(final(out)@),
        well_formed(final(out)@),
        all_before(final(out)@, final(cursor).line as int, final(cursor).pos - final(cursor).line_start),
{
    let ghost start = cursor.pos as int;
    let ghost before = out@;
    assert(before + tagged(Seq::empty(), kind) =~= before);
    // The span that is being collected begins at `from`, on the cursor's
    // line.
    let mut from = cursor.pos;
    while cursor.pos < e
        invariant
            cursor.ok(src@),
            start <= from <= cursor.pos <= e <= src@.len(),
            cursor.line_start <= from,
            line_end(src@, from as int) == line_end(src@, cursor.pos as int),
            line_of(src@, from as int) == cursor.line,
            line_start_of(src@, from as int) == cursor.line_start,
            ascending(out@),
            well_formed(out@),
            all_before(out@, cursor.line as int, from - cursor.line_start),
            before + tagged(range_spans(src@, start, e as int), kind) == out@ + tagged(
                range_spans(src@, from as int, e as int),
                kind,
            ),
        decreases e - cursor.pos,
    {
        if src[cursor.pos] == NEWLINE {
            let ghost old_out = out@;
            let ghost rest_before = range_spans(src@, from as int, e as int);
            if from < cursor.pos {
                let span = SingleLineSpan {
                    line: cursor.line,
                    start_col: from - cursor.line_start,
                    end_col: cursor.pos - cursor.line_start,
                };
                out.push(MatchedPos { kind, pos: span });
                proof {
                    let rest_after = range_spans(src@, cursor.pos + 1, e as int);
                    assert(rest_before == seq![span] + rest_after);
                    assert(old_out + tagged(rest_before, kind) =~= old_out.push(
                        MatchedPos { kind, pos: span },
                    ) + tagged(rest_after, kind));
                }
            } else {
                proof {
                    assert(rest_before == range_spans(src@, cursor.pos + 1, e as int));
                }
            }
            cursor.line = cursor.line + 1;
            cursor.line_start = cursor.pos + 1;
            cursor.pos = cursor.pos + 1;
            from = cursor.pos;
        } else {
            cursor.pos = cursor.pos + 1;
        }
    }
    proof {
        lemma_line_end(src@, e as int);
    }
    if from < e {
        let ghost old_out = out@;
        let span = SingleLineSpan {
            line: cursor.line,
            start_col: from - cursor.line_start,
            end_col: e - cursor.line_start,
        };
        out.push(MatchedPos { kind, pos: span });
        proof {
            assert(range_spans(src@, from as int, e as int) == seq![span]);
            assert(old_out + tagged(seq![span], kind) =~= old_out.push(
                MatchedPos { kind, pos: span },
            ));
        }
    } else {
        assert(range_spans(src@, from as int, e as int) =~= Seq::empty());
        assert(out@ + tagged(Seq::empty(), kind) =~= out@);
    }
}

} // verus!
