//! From the change map to positions: a walk over one side's tree in
//! document order that emits, for every node, the spans of its text and
//! of its closing delimiter, tagged with what the change map says of the
//! node.

use vstd::prelude::*;
use crate::changes::ChangeKind;
use crate::positions::{LineCursor, MatchedPos, all_before, ascending, emit_range, kind_of_entry,
    match_kind, range_spans, tagged, well_formed};
use crate::syntax::{Syntax, node_in_source, offsets_ok, ordered_pair, shape_ok, NodeView};

verus! {

/// The tagged spans of the text of node `i`: the literal text of an atom,
/// or the opening delimiter of a list.
pub open spec fn text_spans(
    nodes: Seq<NodeView>,
    src: Seq<u8>,
    entries: Seq<Option<ChangeKind>>,
    i: int,
) -> Seq<MatchedPos> {
    tagged(
        range_spans(src, nodes[i].start as int, nodes[i].start + nodes[i].text.len()),
        kind_of_entry(entries[i]),
    )
}

/// The tagged spans of the closing delimiter of node `i`.
pub open spec fn close_spans(
    nodes: Seq<NodeView>,
    src: Seq<u8>,
    entries: Seq<Option<ChangeKind>>,
    i: int,
) -> Seq<MatchedPos> {
    tagged(
        range_spans(src, nodes[i].close_start as int, nodes[i].close_start + nodes[i].close.len()),
        kind_of_entry(entries[i]),
    )
}

/// The positions of the siblings in the range `lo..hi` with all their
/// descendants, in document order: for each node its text, then its
/// children, then its closing delimiter.
pub open spec fn spans_of_range(
    nodes: Seq<NodeView>,
    src: Seq<u8>,
    entries: Seq<Option<ChangeKind>>,
    lo: int,
    hi: int,
) -> Seq<MatchedPos>
    decreases hi - lo,
{
    if 0 <= lo < hi && lo < nodes[lo].subtree_end <= hi {
        text_spans(nodes, src, entries, lo) + spans_of_range(
            nodes,
            src,
            entries,
            lo + 1,
            nodes[lo].subtree_end as int,
        ) + close_spans(nodes, src, entries, lo) + spans_of_range(
            nodes,
            src,
            entries,
            nodes[lo].subtree_end as int,
            hi,
        )
    } else {
        Seq::empty()
    }
}

/// The positions of a whole tree.
pub open spec fn positions_spec(nodes: Seq<NodeView>, src: Seq<u8>, entries: Seq<Option<ChangeKind>>)
    -> Seq<MatchedPos> {
    spans_of_range(nodes, src, entries, 0, nodes.len() as int)
}

/// What is still to be emitted when the walk stands before node `i` with
/// the nodes in `stack` entered and not yet left.
spec fn rest(
    nodes: Seq<NodeView>,
    src: Seq<u8>,
    entries: Seq<Option<ChangeKind>>,
    i: int,
    stack: Seq<usize>,
) -> Seq<MatchedPos>
    decreases stack.len(),
{
    if stack.len() == 0 {
        spans_of_range(nodes, src, entries, i, nodes.len() as int)
    } else {
        let top = stack.last() as int;
        spans_of_range(nodes, src, entries, i, nodes[top].subtree_end as int) + close_spans(
            nodes,
            src,
            entries,
            top,
        ) + rest(nodes, src, entries, nodes[top].subtree_end as int, stack.drop_last())
    }
}

/// The walk stands before node `i`, inside all the nodes of `stack`, the
/// innermost last, and has consumed the source as far as `pos`.
#[verifier::opaque]
spec fn walking(nodes: Seq<NodeView>, i: int, stack: Seq<usize>, pos: int) -> bool {
    &&& 0 <= i <= nodes.len()
    &&& forall|k: int|
        0 <= k < stack.len() ==> (#[trigger] stack[k]) < i <= nodes[stack[k] as int].subtree_end
            && pos <= nodes[stack[k] as int].close_start
    &&& forall|k: int, m: int|
        0 <= k < m < stack.len() ==> (#[trigger] stack[k]) < (#[trigger] stack[m])
            < nodes[stack[k] as int].subtree_end
    &&& forall|j: int| i <= j < nodes.len() ==> pos <= (#[trigger] nodes[j]).start
}

proof fn lemma_walking_start(nodes: Seq<NodeView>)
    ensures
        walking(nodes, 0, Seq::empty(), 0),
{
    reveal(walking);
}

/// What the walk knows of the innermost entered node and of the node it
/// stands before.
proof fn lemma_walking_facts(nodes: Seq<NodeView>, i: int, stack: Seq<usize>, pos: int)
    requires
        walking(nodes, i, stack, pos),
    ensures
        0 <= i <= nodes.len(),
        stack.len() > 0 ==> stack.last() < i && pos <= nodes[stack.last() as int].close_start
            && i <= nodes[stack.last() as int].subtree_end,
        i < nodes.len() ==> pos <= nodes[i].start,
{
    reveal(walking);
    if stack.len() > 0 {
        assert(stack[stack.len() - 1] == stack.last());
    }
}

proof fn lemma_enter(nodes: Seq<NodeView>, src: Seq<u8>, i: int, stack: Seq<usize>, pos: int)
    requires
        shape_ok(nodes),
        offsets_ok(nodes, src),
        walking(nodes, i, stack, pos),
        i < nodes.len(),
        stack.len() > 0 ==> i < nodes[stack.last() as int].subtree_end,
    ensures
        walking(nodes, i + 1, stack.push(i as usize), nodes[i].start + nodes[i].text.len()),
{
    reveal(walking);
    let s2 = stack.push(i as usize);
    let pos2 = nodes[i].start + nodes[i].text.len();
    assert(node_in_source(nodes[i], src));
    assert forall|k: int| 0 <= k < s2.len() implies (#[trigger] s2[k]) < i + 1
        <= nodes[s2[k] as int].subtree_end && pos2 <= nodes[s2[k] as int].close_start by {
        if k < stack.len() {
            assert(s2[k] == stack[k]);
            if k < stack.len() - 1 {
                assert(stack[k] < stack[stack.len() - 1]);
            }
            assert(i < nodes[stack[k] as int].subtree_end);
            assert(ordered_pair(nodes, stack[k] as int, i));
        }
    }
    assert forall|k: int, m: int| 0 <= k < m < s2.len() implies (#[trigger] s2[k]) < (
    #[trigger] s2[m]) < nodes[s2[k] as int].subtree_end by {
        assert(s2[k] == stack[k]);
        if m < stack.len() {
            assert(s2[m] == stack[m]);
        } else {
            if k < stack.len() - 1 {
                assert(stack[k] < stack[stack.len() - 1]);
            }
        }
    }
    assert forall|j: int| i + 1 <= j < nodes.len() implies pos2 <= (#[trigger] nodes[j]).start by {
        assert(ordered_pair(nodes, i, j));
    }
}

proof fn lemma_leave(nodes: Seq<NodeView>, src: Seq<u8>, i: int, stack: Seq<usize>, pos: int)
    requires
        shape_ok(nodes),
        offsets_ok(nodes, src),
        walking(nodes, i, stack, pos),
        stack.len() > 0,
        i >= nodes[stack.last() as int].subtree_end,
    ensures
        walking(nodes, i, stack.drop_last(), nodes[stack.last() as int].extent_end()),
{
    reveal(walking);
    let t = stack.last() as int;
    let s2 = stack.drop_last();
    let pos2 = nodes[t].extent_end();
    assert(stack[stack.len() - 1] == t);
    assert forall|k: int| 0 <= k < s2.len() implies (#[trigger] s2[k]) < i
        <= nodes[s2[k] as int].subtree_end && pos2 <= nodes[s2[k] as int].close_start by {
        assert(s2[k] == stack[k]);
        assert(stack[k] < stack[stack.len() - 1]);
        assert(ordered_pair(nodes, stack[k] as int, t));
    }
    assert forall|k: int, m: int| 0 <= k < m < s2.len() implies (#[trigger] s2[k]) < (
    #[trigger] s2[m]) < nodes[s2[k] as int].subtree_end by {
        assert(s2[k] == stack[k]);
        assert(s2[m] == stack[m]);
    }
    assert forall|j: int| i <= j < nodes.len() implies pos2 <= (#[trigger] nodes[j]).start by {
        assert(ordered_pair(nodes, t, j));
    }
}

proof fn lemma_rest_enter(
    nodes: Seq<NodeView>,
    src: Seq<u8>,
    entries: Seq<Option<ChangeKind>>,
    i: int,
    stack: Seq<usize>,
    pos: int,
)
    requires
        shape_ok(nodes),
        walking(nodes, i, stack, pos),
        i < nodes.len() <= usize::MAX,
        stack.len() > 0 ==> i < nodes[stack.last() as int].subtree_end,
    ensures
        rest(nodes, src, entries, i, stack) == text_spans(nodes, src, entries, i) + rest(
            nodes,
            src,
            entries,
            i + 1,
            stack.push(i as usize),
        ),
{
    reveal(walking);
    let s2 = stack.push(i as usize);
    assert(s2.drop_last() =~= stack);
    assert(s2.last() == i);
    let end = nodes[i].subtree_end as int;
    let text = text_spans(nodes, src, entries, i);
    let inner = spans_of_range(nodes, src, entries, i + 1, end);
    let close = close_spans(nodes, src, entries, i);
    assert(rest(nodes, src, entries, i + 1, s2) == inner + close + rest(
        nodes,
        src,
        entries,
        end,
        stack,
    ));
    if stack.len() == 0 {
        let after = spans_of_range(nodes, src, entries, end, nodes.len() as int);
        assert(rest(nodes, src, entries, i, stack) == text + inner + close + after);
        assert(text + inner + close + after =~= text + (inner + close + after));
    } else {
        let top = stack.last() as int;
        assert(stack[stack.len() - 1] == top);
        let hi = nodes[top].subtree_end as int;
        assert(end <= hi);
        let after = spans_of_range(nodes, src, entries, end, hi);
        let tail = close_spans(nodes, src, entries, top) + rest(
            nodes,
            src,
            entries,
            hi,
            stack.drop_last(),
        );
        assert(rest(nodes, src, entries, i, stack) == text + inner + close + after + close_spans(
            nodes,
            src,
            entries,
            top,
        ) + rest(nodes, src, entries, hi, stack.drop_last()));
        assert(rest(nodes, src, entries, end, stack) == after + close_spans(
            nodes,
            src,
            entries,
            top,
        ) + rest(nodes, src, entries, hi, stack.drop_last()));
        assert(text + inner + close + after + close_spans(nodes, src, entries, top) + rest(
            nodes,
            src,
            entries,
            hi,
            stack.drop_last(),
        ) =~= text + (inner + close + (after + close_spans(nodes, src, entries, top) + rest(
            nodes,
            src,
            entries,
            hi,
            stack.drop_last(),
        ))));
    }
}

proof fn lemma_rest_leave(
    nodes: Seq<NodeView>,
    src: Seq<u8>,
    entries: Seq<Option<ChangeKind>>,
    i: int,
    stack: Seq<usize>,
    pos: int,
)
    requires
        walking(nodes, i, stack, pos),
        stack.len() > 0,
        i >= nodes[stack.last() as int].subtree_end,
    ensures
        rest(nodes, src, entries, i, stack) == close_spans(
            nodes,
            src,
            entries,
            stack.last() as int,
        ) + rest(nodes, src, entries, i, stack.drop_last()),
{
    reveal(walking);
    let top = stack.last() as int;
    assert(stack[stack.len() - 1] == top);
    assert(spans_of_range(nodes, src, entries, i, nodes[top].subtree_end as int) =~= Seq::empty());
    assert(Seq::<MatchedPos>::empty() + close_spans(nodes, src, entries, top) =~= close_spans(
        nodes,
        src,
        entries,
        top,
    ));
}

/// The positions of one side: for each node, in document order, the
/// spans of its text and of its closing delimiter, tagged with the
/// identity of the node's peer where the change map has one and as novel
/// where it has none.
#[verifier::rlimit(50)]
pub fn change_positions(tree: &Syntax, src: &[u8], entries: &Vec<Option<ChangeKind>>) -> (res: Vec<
    MatchedPos,
>)
    requires
        tree.wf(),
        offsets_ok(tree@, src@),
        entries@.len() == tree@.len(),
    ensures
        res@ == positions_spec(tree@, src@, entries@),
        ascending(res@),
        well_formed(res@),
{
    let n = tree.nodes.len();
    let len = src.len();
    let mut out: Vec<MatchedPos> = Vec::new();
    let mut stack: Vec<usize> = Vec::new();
    let mut cursor = LineCursor::new();
    let mut i: usize = 0;
    proof {
        lemma_walking_start(tree@);
    }
    assert(out@ + rest(tree@, src@, entries@, 0, stack@) =~= positions_spec(
        tree@,
        src@,
        entries@,
    ));
    loop
        invariant
            n == tree@.len(),
            len == src@.len(),
            tree.wf(),
            offsets_ok(tree@, src@),
            entries@.len() == n,
            cursor.ok(src@),
            walking(tree@, i as int, stack@, cursor.pos as int),
            ascending(out@),
            well_formed(out@),
            all_before(out@, cursor.line as int, cursor.pos - cursor.line_start),
            positions_spec(tree@, src@, entries@) == out@ + rest(
                tree@,
                src@,
                entries@,
                i as int,
                stack@,
            ),
        ensures
            out@ == positions_spec(tree@, src@, entries@),
            ascending(out@),
            well_formed(out@),
        decreases 2 * (n - i) + stack@.len(),
    {
        let ghost before = out@;
        let ghost old_rest = rest(tree@, src@, entries@, i as int, stack@);
        proof {
            lemma_walking_facts(tree@, i as int, stack@, cursor.pos as int);
        }
        if stack.len() > 0 && i >= tree.nodes[stack[stack.len() - 1]].subtree_end {
            let top = stack[stack.len() - 1];
            proof {
                lemma_leave(tree@, src@, i as int, stack@, cursor.pos as int);
                lemma_rest_leave(
                    tree@,
                    src@,
                    entries@,
                    i as int,
                    stack@,
                    cursor.pos as int,
                );
                assert(node_in_source(tree@[top as int], src@));
            }
            stack.pop();
            let node = &tree.nodes[top];
            cursor.advance(src, node.close_start);
            emit_range(
                src,
                &mut cursor,
                node.close_start + node.close.len(),
                match_kind(entries[top]),
                &mut out,
            );
            assert(before + old_rest =~= out@ + rest(
                tree@,
                src@,
                entries@,
                i as int,
                stack@,
            ));
        } else if i < n {
            proof {
                lemma_enter(tree@, src@, i as int, stack@, cursor.pos as int);
                lemma_rest_enter(
                    tree@,
                    src@,
                    entries@,
                    i as int,
                    stack@,
                    cursor.pos as int,
                );
                assert(node_in_source(tree@[i as int], src@));
            }
            let node = &tree.nodes[i];
            cursor.advance(src, node.start);
            emit_range(
                src,
                &mut cursor,
                node.start + node.text.len(),
                match_kind(entries[i]),
                &mut out,
            );
            stack.push(i);
            i += 1;
            assert(before + old_rest =~= out@ + rest(
                tree@,
                src@,
                entries@,
                i as int,
                stack@,
            ));
        } else {
            assert(stack@ =~= Seq::empty());
            assert(spans_of_range(tree@, src@, entries@, i as int, n as int) =~= Seq::empty());
            assert(rest(tree@, src@, entries@, i as int, stack@) =~= Seq::empty());
            assert(out@ + Seq::<MatchedPos>::empty() =~= out@);
            break ;
        }
    }
    out
}

} // verus!
