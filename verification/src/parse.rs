//! From tagged tokens to a syntax tree.
//!
//! A parser hands over the tokens of a file in source order, each tagged
//! as an opening delimiter, a closing delimiter or an atom. The adapter
//! here pairs the delimiters and attaches them to lists, so that a missing
//! or extra bracket shows as a change of structure and not as a changed
//! token.

use vstd::prelude::*;
use vstd::slice::{slice_subrange, slice_to_vec};
use crate::syntax::{AtomKind, Node, NodeKind, Syntax, shape_ok, offsets_ok, node_in_source,
    ordered_pair, NodeView, views};

verus! {

/// The tag that a parser puts on a token.
#[derive(Debug, Copy, Clone, PartialEq, Eq, Structural)]
pub enum TokenKind {
    Open,
    Close,
    Atom(AtomKind),
}

/// A token: its tag and the range of source bytes it occupies.
#[derive(Debug, Copy, Clone, PartialEq, Eq, Structural)]
pub struct Token {
    pub kind: TokenKind,
    pub start: usize,
    pub end: usize,
}

/// The tokens are non-empty ranges of the source, in order and without
/// overlap.
pub open spec fn tokens_ok(tokens: Seq<Token>, len: int) -> bool {
    &&& forall|k: int|
        0 <= k < tokens.len() ==> (#[trigger] tokens[k]).start < tokens[k].end <= len
    &&& forall|k: int, m: int|
        0 <= k < m < tokens.len() ==> (#[trigger] tokens[k]).end <= (#[trigger] tokens[m]).start
}

/// Node `n` was made from token `t`: it begins where the token begins and
/// holds its bytes as its text, or it is a list that the token closes.
pub open spec fn token_at_node(n: NodeView, t: Token) -> bool {
    ||| {
        &&& n.start == t.start
        &&& n.text.len() == t.end - t.start
        &&& match t.kind {
            TokenKind::Open => n.kind is List,
            TokenKind::Close => n.kind == NodeKind::Atom(AtomKind::Normal),
            TokenKind::Atom(k) => n.kind == NodeKind::Atom(k),
        }
    }
    ||| {
        &&& t.kind is Close
        &&& n.kind is List
        &&& n.close.len() > 0
        &&& n.close_start == t.start
        &&& n.close.len() == t.end - t.start
    }
}

/// Some node of the tree was made from token `t`.
pub open spec fn token_placed(nodes: Seq<NodeView>, t: Token) -> bool {
    exists|i: int| 0 <= i < nodes.len() && token_at_node(#[trigger] nodes[i], t)
}

/// Nodes are only added, and a node keeps its kind, its place and its text;
/// a node that has its closing delimiter is not touched again.
spec fn grown(before: Seq<NodeView>, after: Seq<NodeView>) -> bool {
    &&& before.len() <= after.len()
    &&& forall|i: int|
        0 <= i < before.len() ==> {
            &&& (#[trigger] after[i]).kind == before[i].kind
            &&& after[i].start == before[i].start
            &&& after[i].text == before[i].text
            &&& before[i].close.len() > 0 ==> after[i] == before[i]
        }
}

proof fn lemma_grown_keeps_placed(before: Seq<NodeView>, after: Seq<NodeView>, t: Token)
    requires
        grown(before, after),
        token_placed(before, t),
    ensures
        token_placed(after, t),
{
    let i = choose|i: int| 0 <= i < before.len() && token_at_node(#[trigger] before[i], t);
    assert(token_at_node(after[i], t));
}

/// An atom made of the bytes `start..end` of the source, as node number
/// `idx`.
pub open spec fn atom_view(src: Seq<u8>, kind: AtomKind, start: usize, end: usize, idx: int)
    -> NodeView {
    NodeView {
        kind: NodeKind::Atom(kind),
        text: src.subrange(start as int, end as int),
        close: Seq::empty(),
        start,
        close_start: end,
        subtree_end: (idx + 1) as usize,
    }
}

/// A list that opens with the bytes `start..end` of the source and is
/// still to be closed.
pub open spec fn open_view(src: Seq<u8>, start: usize, end: usize) -> NodeView {
    NodeView {
        kind: NodeKind::List,
        text: src.subrange(start as int, end as int),
        close: Seq::empty(),
        start,
        close_start: end,
        subtree_end: 0,
    }
}

/// The list `n`, closed by the bytes `close_start..close_end` of the
/// source when the tree has `len` nodes.
pub open spec fn closed_view(
    n: NodeView,
    src: Seq<u8>,
    close_start: usize,
    close_end: usize,
    len: int,
) -> NodeView {
    NodeView {
        close: src.subrange(close_start as int, close_end as int),
        close_start,
        subtree_end: len as usize,
        ..n
    }
}

/// The tree when all lists that are still open are closed at offset
/// `cursor`, the innermost first, without a closing delimiter.
pub open spec fn close_all(src: Seq<u8>, nodes: Seq<NodeView>, stack: Seq<usize>, cursor: usize)
    -> Seq<NodeView>
    decreases stack.len(),
{
    if stack.len() == 0 {
        nodes
    } else {
        let top = stack.last() as int;
        close_all(
            src,
            nodes.update(top, closed_view(nodes[top], src, cursor, cursor, nodes.len() as int)),
            stack.drop_last(),
            cursor,
        )
    }
}

/// The tree that the tokens from number `k` on make of the nodes built so
/// far, with the lists in `stack` open and the source consumed as far as
/// `cursor`.
pub open spec fn build_from(
    src: Seq<u8>,
    tokens: Seq<Token>,
    k: int,
    nodes: Seq<NodeView>,
    stack: Seq<usize>,
    cursor: usize,
) -> Seq<NodeView>
    decreases tokens.len() - k,
{
    if k < 0 || k >= tokens.len() {
        close_all(src, nodes, stack, cursor)
    } else {
        let t = tokens[k];
        if cursor <= t.start && t.start < t.end && t.end <= src.len() {
            match t.kind {
                TokenKind::Open => build_from(
                    src,
                    tokens,
                    k + 1,
                    nodes.push(open_view(src, t.start, t.end)),
                    stack.push(nodes.len() as usize),
                    t.end,
                ),
                TokenKind::Close => if stack.len() > 0 {
                    build_from(
                        src,
                        tokens,
                        k + 1,
                        nodes.update(
                            stack.last() as int,
                            closed_view(
                                nodes[stack.last() as int],
                                src,
                                t.start,
                                t.end,
                                nodes.len() as int,
                            ),
                        ),
                        stack.drop_last(),
                        t.end,
                    )
                } else {
                    build_from(
                        src,
                        tokens,
                        k + 1,
                        nodes.push(
                            atom_view(src, AtomKind::Normal, t.start, t.end, nodes.len() as int),
                        ),
                        stack,
                        t.end,
                    )
                },
                TokenKind::Atom(kind) => build_from(
                    src,
                    tokens,
                    k + 1,
                    nodes.push(atom_view(src, kind, t.start, t.end, nodes.len() as int)),
                    stack,
                    t.end,
                ),
            }
        } else {
            build_from(src, tokens, k + 1, nodes, stack, cursor)
        }
    }
}

/// The syntax tree that a sequence of tokens stands for.
pub open spec fn tree_of_tokens(src: Seq<u8>, tokens: Seq<Token>) -> Seq<NodeView> {
    build_from(src, tokens, 0, Seq::empty(), Seq::empty(), 0)
}

/// While the tree is built, an opened list that has not met its closing
/// delimiter has no `subtree_end` yet.
spec fn is_closed(n: NodeView) -> bool {
    n.subtree_end != 0
}

/// What holds of the nodes built so far, with the lists in `stack` still
/// open and everything up to offset `cursor` consumed.
spec fn building(nodes: Seq<NodeView>, stack: Seq<usize>, cursor: int, src: Seq<u8>) -> bool {
    &&& nodes.len() <= cursor <= src.len()
    &&& forall|m: int|
        0 <= m < stack.len() ==> (#[trigger] stack[m]) < nodes.len() && !is_closed(
            nodes[stack[m] as int],
        )
    &&& forall|m: int, n: int| 0 <= m < n < stack.len() ==> stack[m] < stack[n]
    &&& forall|i: int|
        0 <= i < nodes.len() && !is_closed(#[trigger] nodes[i]) ==> stack.contains(i as usize)
            && nodes[i].kind is List && nodes[i].close.len() == 0
    &&& forall|i: int|
        0 <= i < nodes.len() ==> {
            &&& (#[trigger] nodes[i]).start + nodes[i].text.len() <= cursor
            &&& nodes[i].text == src.subrange(
                nodes[i].start as int,
                nodes[i].start + nodes[i].text.len(),
            )
        }
    &&& forall|i: int|
        0 <= i < nodes.len() && is_closed(#[trigger] nodes[i]) ==> {
            &&& i < nodes[i].subtree_end <= nodes.len()
            &&& nodes[i].kind is Atom ==> nodes[i].subtree_end == i + 1 && nodes[i].close.len()
                == 0
            &&& node_in_source(nodes[i], src)
            &&& nodes[i].extent_end() <= cursor
        }
    &&& forall|i: int, j: int|
        0 <= i < j < nodes.len() ==> (#[trigger] nodes[i]).start + nodes[i].text.len() <= (
        #[trigger] nodes[j]).start
    &&& forall|i: int, j: int|
        0 <= i < j < nodes.len() && is_closed(#[trigger] nodes[i]) ==> {
            if j < nodes[i].subtree_end {
                &&& is_closed(#[trigger] nodes[j])
                &&& nodes[j].subtree_end <= nodes[i].subtree_end
                &&& nodes[j].extent_end() <= nodes[i].close_start
            } else {
                nodes[i].extent_end() <= nodes[j].start
            }
        }
}

proof fn lemma_built(nodes: Seq<NodeView>, cursor: int, src: Seq<u8>)
    requires
        building(nodes, Seq::empty(), cursor, src),
    ensures
        shape_ok(nodes),
        offsets_ok(nodes, src),
{
    assert forall|i: int| 0 <= i < nodes.len() implies is_closed(#[trigger] nodes[i]) by {
        if !is_closed(nodes[i]) {
            assert(Seq::<usize>::empty().contains(i as usize));
        }
    }
    assert forall|i: int, j: int| 0 <= i < j < nodes.len() implies #[trigger] ordered_pair(
        nodes,
        i,
        j,
    ) by {
        assert(is_closed(nodes[i]));
    }
}

/// Append an atom that occupies `start..end` of the source.
fn push_atom(
    nodes: &mut Vec<Node>,
    Ghost(stack): Ghost<Seq<usize>>,
    src: &[u8],
    kind: AtomKind,
    start: usize,
    end: usize,
    Ghost(cursor): Ghost<int>,
)
    requires
        building(views(old(nodes)@), stack, cursor, src@),
        cursor <= start < end <= src@.len(),
    ensures
        building(views(final(nodes)@), stack, end as int, src@),
        grown(views(old(nodes)@), views(final(nodes)@)),
        views(final(nodes)@) == views(old(nodes)@).push(
            atom_view(src@, kind, start, end, old(nodes)@.len() as int),
        ),
{
    let idx = nodes.len();
    let node = Node {
        kind: NodeKind::Atom(kind),
        text: slice_to_vec(slice_subrange(src, start, end)),
        close: Vec::new(),
        start,
        close_start: end,
        subtree_end: idx + 1,
    };
    let ghost before = views(nodes@);
    let ghost added = node@;
    assert(node.close@ =~= src@.subrange(end as int, end as int));
    nodes.push(node);
    proof {
        let after = views(nodes@);
        assert(after =~= before.push(added));
        assert forall|i: int| 0 <= i < after.len() && !is_closed(
            #[trigger] after[i],
        ) implies stack.contains(i as usize) && after[i].kind is List && after[i].close.len()
            == 0 by {
            assert(after[i] == before[i]);
        }
        assert forall|i: int, j: int|
            0 <= i < j < after.len() && is_closed(#[trigger] after[i]) implies {
            if j < after[i].subtree_end {
                &&& is_closed(#[trigger] after[j])
                &&& after[j].subtree_end <= after[i].subtree_end
                &&& after[j].extent_end() <= after[i].close_start
            } else {
                after[i].extent_end() <= after[j].start
            }
        } by {
            assert(after[i] == before[i]);
            if j < before.len() {
                assert(after[j] == before[j]);
            }
        }
    }
}

/// Append a list that opens with the bytes `start..end` of the source and
/// is still to be closed.
#[verifier::rlimit(40)]
fn push_open(
    nodes: &mut Vec<Node>,
    stack: &mut Vec<usize>,
    src: &[u8],
    start: usize,
    end: usize,
    Ghost(cursor): Ghost<int>,
)
    requires
        building(views(old(nodes)@), old(stack)@, cursor, src@),
        cursor <= start < end <= src@.len(),
    ensures
        building(views(final(nodes)@), final(stack)@, end as int, src@),
        grown(views(old(nodes)@), views(final(nodes)@)),
        views(final(nodes)@) == views(old(nodes)@).push(open_view(src@, start, end)),
        final(stack)@ == old(stack)@.push(old(nodes)@.len() as usize),
{
    let idx = nodes.len();
    let node = Node {
        kind: NodeKind::List,
        text: slice_to_vec(slice_subrange(src, start, end)),
        close: Vec::new(),
        start,
        close_start: end,
        subtree_end: 0,
    };
    let ghost before = views(nodes@);
    let ghost stack_before = stack@;
    let ghost added = node@;
    nodes.push(node);
    stack.push(idx);
    proof {
        let after = views(nodes@);
        assert(after =~= before.push(added));
        let stack_after = stack@;
        assert forall|m: int| 0 <= m < stack_after.len() implies (#[trigger] stack_after[m])
            < after.len() && !is_closed(after[stack_after[m] as int]) by {
            if m < stack_before.len() {
                assert(stack_after[m] == stack_before[m]);
                assert(after[stack_before[m] as int] == before[stack_before[m] as int]);
            }
        }
        assert forall|i: int| 0 <= i < after.len() && !is_closed(
            #[trigger] after[i],
        ) implies stack_after.contains(i as usize) && after[i].kind is List
            && after[i].close.len() == 0 by {
            if i < before.len() {
                assert(after[i] == before[i]);
                let m = choose|m: int| 0 <= m < stack_before.len() && stack_before[m] == i as usize;
                assert(stack_after[m] == i as usize);
            } else {
                assert(stack_after[stack_after.len() - 1] == i as usize);
            }
        }
        assert forall|i: int, j: int|
            0 <= i < j < after.len() && is_closed(#[trigger] after[i]) implies {
            if j < after[i].subtree_end {
                &&& is_closed(#[trigger] after[j])
                &&& after[j].subtree_end <= after[i].subtree_end
                &&& after[j].extent_end() <= after[i].close_start
            } else {
                after[i].extent_end() <= after[j].start
            }
        } by {
            assert(after[i] == before[i]);
            if j < before.len() {
                assert(after[j] == before[j]);
            }
        }
    }
}

/// Close the innermost open list with the bytes `close_start..close_end`
/// of the source, which may be none.
#[verifier::rlimit(40)]
fn close_top(
    nodes: &mut Vec<Node>,
    stack: &mut Vec<usize>,
    src: &[u8],
    close_start: usize,
    close_end: usize,
    Ghost(cursor): Ghost<int>,
)
    requires
        building(views(old(nodes)@), old(stack)@, cursor, src@),
        old(stack)@.len() > 0,
        cursor <= close_start <= close_end <= src@.len(),
    ensures
        building(views(final(nodes)@), final(stack)@, close_end as int, src@),
        grown(views(old(nodes)@), views(final(nodes)@)),
        final(stack)@ == old(stack)@.drop_last(),
        views(final(nodes)@) == views(old(nodes)@).update(
            old(stack)@.last() as int,
            closed_view(
                views(old(nodes)@)[old(stack)@.last() as int],
                src@,
                close_start,
                close_end,
                old(nodes)@.len() as int,
            ),
        ),
        views(old(nodes)@)[old(stack)@.last() as int].kind is List,
        old(stack)@.last() < old(nodes)@.len(),
{
    let ghost before = views(nodes@);
    let ghost stack_before = stack@;
    let top = stack.pop().unwrap();
    assert(top == stack_before[stack_before.len() - 1]);
    let open_start = nodes[top].start;
    let open_end = open_start + nodes[top].text.len();
    let node = Node {
        kind: NodeKind::List,
        text: slice_to_vec(slice_subrange(src, open_start, open_end)),
        close: slice_to_vec(slice_subrange(src, close_start, close_end)),
        start: open_start,
        close_start,
        subtree_end: nodes.len(),
    };
    let ghost changed = node@;
    proof {
        assert(changed.text =~= before[top as int].text);
        assert(changed == closed_view(
            before[top as int],
            src@,
            close_start,
            close_end,
            before.len() as int,
        ));
    }
    nodes.set(top, node);
    proof {
        let after = views(nodes@);
        assert(after =~= before.update(top as int, changed));
        let stack_after = stack@;
        assert(!is_closed(before[top as int]));
        assert(before[top as int].kind is List);
        assert(before.len() > top);
        assert forall|m: int| 0 <= m < stack_after.len() implies (#[trigger] stack_after[m])
            < after.len() && !is_closed(after[stack_after[m] as int]) by {
            assert(stack_after[m] == stack_before[m]);
            assert(stack_before[m] < stack_before[stack_before.len() - 1]);
        }
        assert forall|i: int| 0 <= i < after.len() && !is_closed(
            #[trigger] after[i],
        ) implies stack_after.contains(i as usize) && after[i].kind is List
            && after[i].close.len() == 0 by {
            assert(i != top);
            assert(after[i] == before[i]);
            let m = choose|m: int| 0 <= m < stack_before.len() && stack_before[m] == i as usize;
            assert(m < stack_before.len() - 1);
            assert(stack_after[m] == i as usize);
        }
        assert forall|i: int| 0 <= i < after.len() && is_closed(#[trigger] after[i]) implies {
            &&& i < after[i].subtree_end <= after.len()
            &&& after[i].kind is Atom ==> after[i].subtree_end == i + 1 && after[i].close.len()
                == 0
            &&& node_in_source(after[i], src@)
            &&& after[i].extent_end() <= close_end
        } by {
            if i != top {
                assert(after[i] == before[i]);
            }
        }
        assert forall|i: int, j: int| 0 <= i < j < after.len() implies (#[trigger] after[i]).start
            + after[i].text.len() <= (#[trigger] after[j]).start by {
            assert(before[i].start + before[i].text.len() <= before[j].start);
        }
        assert forall|i: int, j: int|
            0 <= i < j < after.len() && is_closed(#[trigger] after[i]) implies {
            if j < after[i].subtree_end {
                &&& is_closed(#[trigger] after[j])
                &&& after[j].subtree_end <= after[i].subtree_end
                &&& after[j].extent_end() <= after[i].close_start
            } else {
                after[i].extent_end() <= after[j].start
            }
        } by {
            if i == top {
                if !is_closed(before[j]) {
                    let m = choose|m: int|
                        0 <= m < stack_before.len() && stack_before[m] == j as usize;
                    assert(m < stack_before.len() - 1 ==> stack_before[m] < stack_before[
                        stack_before.len() - 1]);
                    assert(false);
                }
                assert(after[j] == before[j]);
            } else {
                assert(after[i] == before[i]);
                if j == top {
                    assert(before[j].start == after[j].start);
                } else {
                    assert(after[j] == before[j]);
                }
            }
        }
    }
}

/// Build the syntax tree of a file from its tokens.
///
/// A token that reaches back before the end of its predecessor, is empty or
/// runs past the end of the source is left out. An opening delimiter
/// starts a list, which the next closing delimiter at its level ends; a
/// closing delimiter with nothing to close becomes an ordinary atom, and
/// a list still open at the end of the tokens ends there, with no closing
/// delimiter. So every token stream gives a tree.
#[verifier::rlimit(40)]
pub fn syntax_from_tokens(src: &[u8], tokens: &Vec<Token>) -> (res: Syntax)
    ensures
        res@ == tree_of_tokens(src@, tokens@),
        res.wf(),
        offsets_ok(res@, src@),
        res@.len() <= tokens@.len(),
        tokens_ok(tokens@, src@.len() as int) ==> forall|k: int|
            0 <= k < tokens@.len() ==> token_placed(res@, #[trigger] tokens@[k]),
{
    let mut nodes: Vec<Node> = Vec::new();
    let mut stack: Vec<usize> = Vec::new();
    let mut cursor: usize = 0;
    let mut k: usize = 0;
    assert(views(nodes@) =~= Seq::empty());
    assert(stack@ =~= Seq::empty());
    while k < tokens.len()
        invariant
            k <= tokens@.len(),
            building(views(nodes@), stack@, cursor as int, src@),
            tree_of_tokens(src@, tokens@) == build_from(
                src@,
                tokens@,
                k as int,
                views(nodes@),
                stack@,
                cursor,
            ),
            views(nodes@).len() <= k,
            tokens_ok(tokens@, src@.len() as int) ==> forall|m: int|
                0 <= m < k ==> token_placed(views(nodes@), #[trigger] tokens@[m]),
            tokens_ok(tokens@, src@.len() as int) ==> forall|m: int|
                k <= m < tokens@.len() ==> cursor <= (#[trigger] tokens@[m]).start,
        decreases tokens@.len() - k,
    {
        let t = tokens[k];
        let ghost before = views(nodes@);
        if cursor <= t.start && t.start < t.end && t.end <= src.len() {
            match t.kind {
                TokenKind::Open => {
                    push_open(&mut nodes, &mut stack, src, t.start, t.end, Ghost(cursor as int));
                    assert(token_at_node(views(nodes@)[views(nodes@).len() - 1], t));
                },
                TokenKind::Close => {
                    if stack.len() > 0 {
                        let ghost top = stack@.last();
                        close_top(&mut nodes, &mut stack, src, t.start, t.end, Ghost(cursor as int));
                        assert(token_at_node(views(nodes@)[top as int], t));
                    } else {
                        push_atom(
                            &mut nodes,
                            Ghost(stack@),
                            src,
                            AtomKind::Normal,
                            t.start,
                            t.end,
                            Ghost(cursor as int),
                        );
                        assert(token_at_node(views(nodes@)[views(nodes@).len() - 1], t));
                    }
                },
                TokenKind::Atom(kind) => {
                    push_atom(
                        &mut nodes,
                        Ghost(stack@),
                        src,
                        kind,
                        t.start,
                        t.end,
                        Ghost(cursor as int),
                    );
                    assert(token_at_node(views(nodes@)[views(nodes@).len() - 1], t));
                },
            }
            cursor = t.end;
            proof {
                if tokens_ok(tokens@, src@.len() as int) {
                    assert forall|m: int| 0 <= m < k implies token_placed(
                        views(nodes@),
                        #[trigger] tokens@[m],
                    ) by {
                        lemma_grown_keeps_placed(before, views(nodes@), tokens@[m]);
                    }
                }
            }
        } else {
            assert(tokens_ok(tokens@, src@.len() as int) ==> false);
        }
        k += 1;
    }
    while stack.len() > 0
        invariant
            building(views(nodes@), stack@, cursor as int, src@),
            tree_of_tokens(src@, tokens@) == close_all(src@, views(nodes@), stack@, cursor),
            views(nodes@).len() <= tokens@.len(),
            tokens_ok(tokens@, src@.len() as int) ==> forall|m: int|
                0 <= m < tokens@.len() ==> token_placed(views(nodes@), #[trigger] tokens@[m]),
        decreases stack@.len(),
    {
        let ghost before = views(nodes@);
        close_top(&mut nodes, &mut stack, src, cursor, cursor, Ghost(cursor as int));
        proof {
            if tokens_ok(tokens@, src@.len() as int) {
                assert forall|m: int| 0 <= m < tokens@.len() implies token_placed(
                    views(nodes@),
                    #[trigger] tokens@[m],
                ) by {
                    lemma_grown_keeps_placed(before, views(nodes@), tokens@[m]);
                }
            }
        }
    }
    proof {
        assert(stack@ =~= Seq::empty());
        lemma_built(views(nodes@), cursor as int, src@);
    }
    Syntax::new(nodes)
}

} // verus!
