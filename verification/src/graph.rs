//! The graph that the search walks: its vertices are pairs of cursors,
//! one into each tree, and its edges are the atomic steps of an edit.
//!
//! A cursor is the index of the next node to deal with, together with the
//! stack of the lists that were entered and not yet left. When the index
//! reaches the end of the innermost entered list, the cursor stands at that
//! list's closing delimiter and has to leave the list before it can go on.

use vstd::prelude::*;
use crate::syntax::{AtomKind, Node, NodeKind, Syntax, label_eq, shape_ok, subtree_eq,
    nodes_label_eq, NodeView, views};

verus! {

/// A pair of sibling ranges, one of each side, that are diffed against
/// each other: the nodes `l_lo..l_hi` of the left tree and `r_lo..r_hi` of
/// the right tree.
#[derive(Debug, Copy, Clone, PartialEq, Eq, Structural)]
pub struct Section {
    pub l_lo: usize,
    pub l_hi: usize,
    pub r_lo: usize,
    pub r_hi: usize,
}

/// A list that a cursor has entered. `both` tells whether it was entered
/// together with a list of the other side, in which case the two are left
/// together as well.
#[derive(Debug, Copy, Clone, PartialEq, Eq, Structural)]
pub struct Frame {
    pub list: usize,
    pub both: bool,
}

/// A vertex of the graph.
#[derive(Debug)]
pub struct Vertex {
    pub lp: usize,
    pub rp: usize,
    pub ls: Vec<Frame>,
    pub rs: Vec<Frame>,
}

/// A vertex as plain values.
pub struct VertexView {
    pub lp: int,
    pub rp: int,
    pub ls: Seq<Frame>,
    pub rs: Seq<Frame>,
}

impl View for Vertex {
    type V = VertexView;

    open spec fn view(&self) -> VertexView {
        VertexView { lp: self.lp as int, rp: self.rp as int, ls: self.ls@, rs: self.rs@ }
    }
}

/// The kinds of edges, in the order in which the neighbours of a vertex
/// are listed.
#[derive(Debug, Copy, Clone, PartialEq, Eq, Structural)]
pub enum EdgeKind {
    UnchangedNode,
    UnchangedDelimiter,
    ReplacedComment,
    NovelAtomLHS,
    NovelAtomRHS,
    EnterNovelDelimLHS,
    EnterNovelDelimRHS,
    ExitDelimiterBoth,
    ExitDelimiterLHS,
    ExitDelimiterRHS,
}

/// The number of kinds of edges.
pub const NUM_EDGE_KINDS: usize = 10;

/// Matching a whole subtree costs nothing, so that the search runs through
/// what is the same on both sides without looking left or right.
pub const COST_UNCHANGED_NODE: u64 = 0;

/// The cost of matching the delimiters of two lists whose children
/// differ.
pub const COST_UNCHANGED_DELIMITER: u64 = 10;

/// The cost of matching two comments of different text.
pub const COST_REPLACED_COMMENT: u64 = 50;

/// What every unmatched atom costs, whatever its length.
pub const COST_NOVEL_ATOM_BASE: u64 = 100;

/// What each byte of an unmatched atom costs.
pub const COST_NOVEL_BYTE: u64 = 10;

/// What each byte of an unmatched string costs.
pub const COST_NOVEL_STRING_BYTE: u64 = 5;

/// The length beyond which the bytes of an unmatched atom cost nothing
/// more.
pub const COST_NOVEL_LENGTH_CAP: u64 = 1000;

/// The cost of entering a list without matching its delimiters.
pub const COST_ENTER_NOVEL_DELIMITER: u64 = 150;

/// No edge costs more than this.
pub const MAX_EDGE_COST: u64 = 10100;

/// The `k`-th kind of edge.
pub open spec fn edge_kind_at(k: int) -> EdgeKind {
    if k == 0 {
        EdgeKind::UnchangedNode
    } else if k == 1 {
        EdgeKind::UnchangedDelimiter
    } else if k == 2 {
        EdgeKind::ReplacedComment
    } else if k == 3 {
        EdgeKind::NovelAtomLHS
    } else if k == 4 {
        EdgeKind::NovelAtomRHS
    } else if k == 5 {
        EdgeKind::EnterNovelDelimLHS
    } else if k == 6 {
        EdgeKind::EnterNovelDelimRHS
    } else if k == 7 {
        EdgeKind::ExitDelimiterBoth
    } else if k == 8 {
        EdgeKind::ExitDelimiterLHS
    } else {
        EdgeKind::ExitDelimiterRHS
    }
}

/// The `k`-th kind of edge.
pub fn edge_kind(k: usize) -> (res: EdgeKind)
    ensures
        res == edge_kind_at(k as int),
{
    if k == 0 {
        EdgeKind::UnchangedNode
    } else if k == 1 {
        EdgeKind::UnchangedDelimiter
    } else if k == 2 {
        EdgeKind::ReplacedComment
    } else if k == 3 {
        EdgeKind::NovelAtomLHS
    } else if k == 4 {
        EdgeKind::NovelAtomRHS
    } else if k == 5 {
        EdgeKind::EnterNovelDelimLHS
    } else if k == 6 {
        EdgeKind::EnterNovelDelimRHS
    } else if k == 7 {
        EdgeKind::ExitDelimiterBoth
    } else if k == 8 {
        EdgeKind::ExitDelimiterLHS
    } else {
        EdgeKind::ExitDelimiterRHS
    }
}

/// The index at which the innermost entered list ends, or the end of the
/// section if no list is entered.
pub open spec fn side_end(nodes: Seq<NodeView>, stack: Seq<Frame>, hi: int) -> int {
    if stack.len() > 0 {
        nodes[stack.last().list as int].subtree_end as int
    } else {
        hi
    }
}

/// The cursor points to a node.
pub open spec fn at_node(nodes: Seq<NodeView>, p: int, stack: Seq<Frame>, hi: int) -> bool {
    p < side_end(nodes, stack, hi)
}

/// The cursor stands at the closing delimiter of an entered list.
pub open spec fn at_close(nodes: Seq<NodeView>, p: int, stack: Seq<Frame>, hi: int) -> bool {
    stack.len() > 0 && p >= side_end(nodes, stack, hi)
}

/// Both cursors have reached the end of their sections.
pub open spec fn is_goal(v: VertexView, sec: Section) -> bool {
    v.lp == sec.l_hi && v.rp == sec.r_hi && v.ls.len() == 0 && v.rs.len() == 0
}

/// The vertex from which the search of a section starts.
pub open spec fn start_vertex(sec: Section) -> VertexView {
    VertexView { lp: sec.l_lo as int, rp: sec.r_lo as int, ls: Seq::empty(), rs: Seq::empty() }
}

/// Whether the node is a comment.
pub open spec fn is_comment(n: NodeView) -> bool {
    n.kind == NodeKind::Atom(AtomKind::Comment)
}

/// Whether an edge of kind `e` leaves vertex `v`.
pub open spec fn edge_ok(lt: Seq<NodeView>, rt: Seq<NodeView>, sec: Section, v: VertexView, e: EdgeKind)
    -> bool {
    let l_node = at_node(lt, v.lp, v.ls, sec.l_hi as int);
    let r_node = at_node(rt, v.rp, v.rs, sec.r_hi as int);
    let l_close = at_close(lt, v.lp, v.ls, sec.l_hi as int);
    let r_close = at_close(rt, v.rp, v.rs, sec.r_hi as int);
    match e {
        EdgeKind::UnchangedNode => l_node && r_node && subtree_eq(lt, v.lp, rt, v.rp),
        EdgeKind::UnchangedDelimiter => {
            &&& l_node
            &&& r_node
            &&& lt[v.lp].kind is List
            &&& label_eq(lt[v.lp], rt[v.rp])
            &&& !subtree_eq(lt, v.lp, rt, v.rp)
        },
        EdgeKind::ReplacedComment => {
            &&& l_node
            &&& r_node
            &&& is_comment(lt[v.lp])
            &&& is_comment(rt[v.rp])
            &&& !subtree_eq(lt, v.lp, rt, v.rp)
        },
        EdgeKind::NovelAtomLHS => l_node && lt[v.lp].kind is Atom,
        EdgeKind::NovelAtomRHS => r_node && rt[v.rp].kind is Atom,
        EdgeKind::EnterNovelDelimLHS => l_node && lt[v.lp].kind is List,
        EdgeKind::EnterNovelDelimRHS => r_node && rt[v.rp].kind is List,
        EdgeKind::ExitDelimiterBoth => l_close && r_close && v.ls.last().both && v.rs.last().both,
        EdgeKind::ExitDelimiterLHS => l_close && !v.ls.last().both,
        EdgeKind::ExitDelimiterRHS => r_close && !v.rs.last().both,
    }
}

/// The vertex to which the edge of kind `e` leads from `v`.
pub open spec fn edge_target(lt: Seq<NodeView>, rt: Seq<NodeView>, v: VertexView, e: EdgeKind)
    -> VertexView {
    match e {
        EdgeKind::UnchangedNode => VertexView {
            lp: lt[v.lp].subtree_end as int,
            rp: rt[v.rp].subtree_end as int,
            ..v
        },
        EdgeKind::UnchangedDelimiter => VertexView {
            lp: v.lp + 1,
            rp: v.rp + 1,
            ls: v.ls.push(Frame { list: v.lp as usize, both: true }),
            rs: v.rs.push(Frame { list: v.rp as usize, both: true }),
        },
        EdgeKind::ReplacedComment => VertexView { lp: v.lp + 1, rp: v.rp + 1, ..v },
        EdgeKind::NovelAtomLHS => VertexView { lp: v.lp + 1, ..v },
        EdgeKind::NovelAtomRHS => VertexView { rp: v.rp + 1, ..v },
        EdgeKind::EnterNovelDelimLHS => VertexView {
            lp: v.lp + 1,
            ls: v.ls.push(Frame { list: v.lp as usize, both: false }),
            ..v
        },
        EdgeKind::EnterNovelDelimRHS => VertexView {
            rp: v.rp + 1,
            rs: v.rs.push(Frame { list: v.rp as usize, both: false }),
            ..v
        },
        EdgeKind::ExitDelimiterBoth => VertexView {
            ls: v.ls.drop_last(),
            rs: v.rs.drop_last(),
            ..v
        },
        EdgeKind::ExitDelimiterLHS => VertexView { ls: v.ls.drop_last(), ..v },
        EdgeKind::ExitDelimiterRHS => VertexView { rs: v.rs.drop_last(), ..v },
    }
}

/// The cost of leaving an atom unmatched: it grows with the length of the
/// atom, up to a cap, and a string costs half as much per byte.
pub open spec fn novel_atom_cost(n: NodeView) -> nat {
    let len = if n.text.len() > COST_NOVEL_LENGTH_CAP {
        COST_NOVEL_LENGTH_CAP as nat
    } else {
        n.text.len()
    };
    if n.kind == NodeKind::Atom(AtomKind::StringLike) {
        (COST_NOVEL_ATOM_BASE + COST_NOVEL_STRING_BYTE * len) as nat
    } else {
        (COST_NOVEL_ATOM_BASE + COST_NOVEL_BYTE * len) as nat
    }
}

/// The cost of the edge of kind `e` that leaves `v`.
pub open spec fn edge_cost(lt: Seq<NodeView>, rt: Seq<NodeView>, v: VertexView, e: EdgeKind) -> nat {
    match e {
        EdgeKind::UnchangedNode => COST_UNCHANGED_NODE as nat,
        EdgeKind::UnchangedDelimiter => COST_UNCHANGED_DELIMITER as nat,
        EdgeKind::ReplacedComment => COST_REPLACED_COMMENT as nat,
        EdgeKind::NovelAtomLHS => novel_atom_cost(lt[v.lp]),
        EdgeKind::NovelAtomRHS => novel_atom_cost(rt[v.rp]),
        EdgeKind::EnterNovelDelimLHS => COST_ENTER_NOVEL_DELIMITER as nat,
        EdgeKind::EnterNovelDelimRHS => COST_ENTER_NOVEL_DELIMITER as nat,
        EdgeKind::ExitDelimiterBoth => 0,
        EdgeKind::ExitDelimiterLHS => 0,
        EdgeKind::ExitDelimiterRHS => 0,
    }
}

/// No edge costs more than `MAX_EDGE_COST`.
pub proof fn lemma_edge_cost_bound(lt: Seq<NodeView>, rt: Seq<NodeView>, v: VertexView, e: EdgeKind)
    ensures
        edge_cost(lt, rt, v, e) <= MAX_EDGE_COST,
{
}

/// The section is made of whole subtrees of a well-shaped tree.
pub open spec fn range_ok(nodes: Seq<NodeView>, lo: int, hi: int) -> bool {
    &&& 0 <= lo <= hi <= nodes.len()
    &&& forall|i: int| lo <= i < hi ==> (#[trigger] nodes[i]).subtree_end <= hi
}

/// Both ranges of the section are made of whole subtrees.
pub open spec fn section_ok(lt: Seq<NodeView>, rt: Seq<NodeView>, sec: Section) -> bool {
    &&& range_ok(lt, sec.l_lo as int, sec.l_hi as int)
    &&& range_ok(rt, sec.r_lo as int, sec.r_hi as int)
}

/// The cursor `p` with its stack is a place inside the range `lo..hi`:
/// the entered lists lie inside one another, and the cursor lies inside
/// the innermost or at its end.
pub open spec fn cursor_ok(nodes: Seq<NodeView>, lo: int, hi: int, p: int, stack: Seq<Frame>) -> bool {
    &&& lo <= p <= hi
    &&& forall|k: int|
        0 <= k < stack.len() ==> {
            &&& lo <= (#[trigger] stack[k]).list < hi
            &&& nodes[stack[k].list as int].kind is List
            &&& stack[k].list < p <= nodes[stack[k].list as int].subtree_end
        }
    &&& forall|k: int, m: int|
        0 <= k < m < stack.len() ==> (#[trigger] stack[k]).list < (#[trigger] stack[m]).list
            < nodes[stack[k].list as int].subtree_end
}

/// Both cursors of `v` are places inside the section.
pub open spec fn vertex_ok(lt: Seq<NodeView>, rt: Seq<NodeView>, sec: Section, v: VertexView) -> bool {
    &&& cursor_ok(lt, sec.l_lo as int, sec.l_hi as int, v.lp, v.ls)
    &&& cursor_ok(rt, sec.r_lo as int, sec.r_hi as int, v.rp, v.rs)
}

/// A cursor that points to a node can move past the node, to its next
/// sibling or into it, and stays a place inside the range.
pub proof fn lemma_cursor_step(nodes: Seq<NodeView>, lo: int, hi: int, p: int, stack: Seq<Frame>)
    requires
        shape_ok(nodes),
        range_ok(nodes, lo, hi),
        cursor_ok(nodes, lo, hi, p, stack),
        at_node(nodes, p, stack, hi),
    ensures
        p < hi,
        cursor_ok(nodes, lo, hi, nodes[p].subtree_end as int, stack),
        cursor_ok(nodes, lo, hi, p + 1, stack),
        nodes[p].kind is List ==> cursor_ok(
            nodes,
            lo,
            hi,
            p + 1,
            stack.push(Frame { list: p as usize, both: true }),
        ) && cursor_ok(nodes, lo, hi, p + 1, stack.push(Frame { list: p as usize, both: false })),
{
    if stack.len() > 0 {
        let top = stack.last();
        assert(top == stack[stack.len() - 1]);
        assert(nodes[top.list as int].subtree_end <= hi);
        assert forall|k: int| 0 <= k < stack.len() implies p < nodes[(#[trigger] stack[k]).list as int].subtree_end by {
            if k < stack.len() - 1 {
                assert(stack[k].list < stack[stack.len() - 1].list);
            }
        }
    }
    assert(nodes[p].subtree_end <= hi);
    if nodes[p].kind is List {
        let f1 = Frame { list: p as usize, both: true };
        let s1 = stack.push(f1);
        assert forall|k: int| 0 <= k < s1.len() implies {
            &&& lo <= (#[trigger] s1[k]).list < hi
            &&& nodes[s1[k].list as int].kind is List
            &&& s1[k].list < p + 1 <= nodes[s1[k].list as int].subtree_end
        } by {
            if k < stack.len() {
                assert(s1[k] == stack[k]);
            }
        }
        let f2 = Frame { list: p as usize, both: false };
        let s2 = stack.push(f2);
        assert forall|k: int| 0 <= k < s2.len() implies {
            &&& lo <= (#[trigger] s2[k]).list < hi
            &&& nodes[s2[k].list as int].kind is List
            &&& s2[k].list < p + 1 <= nodes[s2[k].list as int].subtree_end
        } by {
            if k < stack.len() {
                assert(s2[k] == stack[k]);
            }
        }
    }
}

/// A cursor that leaves the innermost entered list stays a place inside
/// the range.
pub proof fn lemma_cursor_exit(nodes: Seq<NodeView>, lo: int, hi: int, p: int, stack: Seq<Frame>)
    requires
        cursor_ok(nodes, lo, hi, p, stack),
        stack.len() > 0,
    ensures
        cursor_ok(nodes, lo, hi, p, stack.drop_last()),
{
    let s = stack.drop_last();
    assert forall|k: int| 0 <= k < s.len() implies {
        &&& lo <= (#[trigger] s[k]).list < hi
        &&& nodes[s[k].list as int].kind is List
        &&& s[k].list < p <= nodes[s[k].list as int].subtree_end
    } by {
        assert(s[k] == stack[k]);
    }
    assert forall|k: int, m: int| 0 <= k < m < s.len() implies (#[trigger] s[k]).list < (
    #[trigger] s[m]).list < nodes[s[k].list as int].subtree_end by {
        assert(s[k] == stack[k]);
        assert(s[m] == stack[m]);
    }
}

/// An edge leads from a place inside the section to a place inside the
/// section.
pub proof fn lemma_edge_keeps_vertex_ok(
    lt: Seq<NodeView>,
    rt: Seq<NodeView>,
    sec: Section,
    v: VertexView,
    e: EdgeKind,
)
    requires
        shape_ok(lt),
        shape_ok(rt),
        section_ok(lt, rt, sec),
        vertex_ok(lt, rt, sec, v),
        edge_ok(lt, rt, sec, v, e),
    ensures
        vertex_ok(lt, rt, sec, edge_target(lt, rt, v, e)),
{
    let (l_lo, l_hi) = (sec.l_lo as int, sec.l_hi as int);
    let (r_lo, r_hi) = (sec.r_lo as int, sec.r_hi as int);
    if at_node(lt, v.lp, v.ls, l_hi) {
        lemma_cursor_step(lt, l_lo, l_hi, v.lp, v.ls);
    }
    if at_node(rt, v.rp, v.rs, r_hi) {
        lemma_cursor_step(rt, r_lo, r_hi, v.rp, v.rs);
    }
    if v.ls.len() > 0 {
        lemma_cursor_exit(lt, l_lo, l_hi, v.lp, v.ls);
    }
    if v.rs.len() > 0 {
        lemma_cursor_exit(rt, r_lo, r_hi, v.rp, v.rs);
    }
    if e is UnchangedDelimiter {
        assert(rt[v.rp].kind is List);
    }
}

/// One way on from a vertex: the kind of the edge, where it leads and
/// what it costs.
#[derive(Debug)]
pub struct Neighbour {
    pub kind: EdgeKind,
    pub vertex: Vertex,
    pub cost: u64,
}

/// A neighbour as plain values.
pub struct Step {
    pub kind: EdgeKind,
    pub target: VertexView,
    pub cost: nat,
}

impl View for Neighbour {
    type V = Step;

    open spec fn view(&self) -> Step {
        Step { kind: self.kind, target: self.vertex@, cost: self.cost as nat }
    }
}

/// The edges that leave `v` among the first `k` kinds, in order.
pub open spec fn neighbours_upto(
    lt: Seq<NodeView>,
    rt: Seq<NodeView>,
    sec: Section,
    v: VertexView,
    k: int,
) -> Seq<Step>
    decreases k,
{
    if k <= 0 {
        Seq::empty()
    } else {
        let before = neighbours_upto(lt, rt, sec, v, k - 1);
        let e = edge_kind_at(k - 1);
        if edge_ok(lt, rt, sec, v, e) {
            before.push(
                Step { kind: e, target: edge_target(lt, rt, v, e), cost: edge_cost(lt, rt, v, e) },
            )
        } else {
            before
        }
    }
}

/// All edges that leave `v`, in the order of their kinds.
pub open spec fn neighbours_spec(lt: Seq<NodeView>, rt: Seq<NodeView>, sec: Section, v: VertexView) -> Seq<
    Step,
> {
    neighbours_upto(lt, rt, sec, v, NUM_EDGE_KINDS as int)
}

/// Every listed neighbour is reached by an edge that leaves `v`, and
/// carries that edge's target and cost.
pub proof fn lemma_neighbours_sound(
    lt: Seq<NodeView>,
    rt: Seq<NodeView>,
    sec: Section,
    v: VertexView,
    k: int,
    i: int,
)
    requires
        0 <= i < neighbours_upto(lt, rt, sec, v, k).len(),
    ensures
        edge_ok(lt, rt, sec, v, neighbours_upto(lt, rt, sec, v, k)[i].kind),
        neighbours_upto(lt, rt, sec, v, k)[i].target == edge_target(
            lt,
            rt,
            v,
            neighbours_upto(lt, rt, sec, v, k)[i].kind,
        ),
        neighbours_upto(lt, rt, sec, v, k)[i].cost == edge_cost(
            lt,
            rt,
            v,
            neighbours_upto(lt, rt, sec, v, k)[i].kind,
        ),
    decreases k,
{
    if k > 0 {
        let before = neighbours_upto(lt, rt, sec, v, k - 1);
        if i < before.len() {
            lemma_neighbours_sound(lt, rt, sec, v, k - 1, i);
        }
    }
}

/// The views of a vector of neighbours.
pub open spec fn steps_of(ns: Seq<Neighbour>) -> Seq<Step> {
    Seq::new(ns.len(), |i: int| ns[i]@)
}

/// A copy of a stack of entered lists.
pub fn copy_frames(stack: &Vec<Frame>) -> (res: Vec<Frame>)
    ensures
        res@ == stack@,
{
    let mut out: Vec<Frame> = Vec::new();
    let mut i: usize = 0;
    while i < stack.len()
        invariant
            i <= stack@.len(),
            out@ == stack@.take(i as int),
        decreases stack@.len() - i,
    {
        out.push(stack[i]);
        assert(stack@.take(i + 1) =~= stack@.take(i as int).push(stack@[i as int]));
        i += 1;
    }
    assert(stack@.take(i as int) =~= stack@);
    out
}

fn pushed(stack: &Vec<Frame>, frame: Frame) -> (res: Vec<Frame>)
    ensures
        res@ == stack@.push(frame),
{
    let mut out = copy_frames(stack);
    out.push(frame);
    out
}

fn popped(stack: &Vec<Frame>) -> (res: Vec<Frame>)
    requires
        stack@.len() > 0,
    ensures
        res@ == stack@.drop_last(),
{
    let mut out = copy_frames(stack);
    out.pop();
    out
}

fn frames_eq(a: &Vec<Frame>, b: &Vec<Frame>) -> (res: bool)
    ensures
        res == (a@ == b@),
{
    if a.len() != b.len() {
        return false;
    }
    let mut i: usize = 0;
    while i < a.len()
        invariant
            a@.len() == b@.len(),
            i <= a@.len(),
            forall|k: int| 0 <= k < i ==> a@[k] == b@[k],
        decreases a@.len() - i,
    {
        if a[i].list != b[i].list || a[i].both != b[i].both {
            assert(a@[i as int] != b@[i as int]);
            return false;
        }
        i += 1;
    }
    assert(a@ =~= b@);
    true
}

fn cursor_end(nodes: &Vec<Node>, stack: &Vec<Frame>, hi: usize) -> (res: usize)
    requires
        forall|k: int| 0 <= k < stack@.len() ==> (#[trigger] stack@[k]).list < views(nodes@).len(),
    ensures
        res == side_end(views(nodes@), stack@, hi as int),
{
    if stack.len() > 0 {
        nodes[stack[stack.len() - 1].list].subtree_end
    } else {
        hi
    }
}

fn atom_cost(n: &Node) -> (res: u64)
    ensures
        res == novel_atom_cost(n@),
        res <= MAX_EDGE_COST,
{
    let len: u64 = if n.text.len() > 1000 {
        1000
    } else {
        n.text.len() as u64
    };
    match n.kind {
        NodeKind::Atom(AtomKind::StringLike) => COST_NOVEL_ATOM_BASE + COST_NOVEL_STRING_BYTE * len,
        _ => COST_NOVEL_ATOM_BASE + COST_NOVEL_BYTE * len,
    }
}

impl Vertex {
    /// Whether two vertices are the same: the same cursors with the same
    /// entered lists.
    pub fn same_as(&self, other: &Vertex) -> (res: bool)
        ensures
            res == (self@ == other@),
    {
        self.lp == other.lp && self.rp == other.rp && frames_eq(&self.ls, &other.ls) && frames_eq(
            &self.rs,
            &other.rs,
        )
    }

    /// Whether both cursors have reached the end of the section.
    pub fn is_goal(&self, sec: Section) -> (res: bool)
        ensures
            res == is_goal(self@, sec),
    {
        self.lp == sec.l_hi && self.rp == sec.r_hi && self.ls.len() == 0 && self.rs.len() == 0
    }

    /// The vertex from which the search of a section starts.
    pub fn start(sec: Section) -> (res: Vertex)
        ensures
            res@ == start_vertex(sec),
    {
        Vertex { lp: sec.l_lo, rp: sec.r_lo, ls: Vec::new(), rs: Vec::new() }
    }
}

/// Whether the edge of kind `e` leaves `v`. `same` says whether the two
/// nodes under the cursors have equal content.
fn edge_available(lhs: &Syntax, rhs: &Syntax, sec: Section, v: &Vertex, e: EdgeKind, same: bool)
    -> (res: bool)
    requires
        lhs.wf(),
        rhs.wf(),
        section_ok(lhs@, rhs@, sec),
        vertex_ok(lhs@, rhs@, sec, v@),
        at_node(lhs@, v@.lp, v@.ls, sec.l_hi as int) && at_node(
            rhs@,
            v@.rp,
            v@.rs,
            sec.r_hi as int,
        ) ==> same == subtree_eq(lhs@, v@.lp, rhs@, v@.rp),
    ensures
        res == edge_ok(lhs@, rhs@, sec, v@, e),
{
    let l_end = cursor_end(&lhs.nodes, &v.ls, sec.l_hi);
    let r_end = cursor_end(&rhs.nodes, &v.rs, sec.r_hi);
    let l_node = v.lp < l_end;
    let r_node = v.rp < r_end;
    let l_close = v.ls.len() > 0 && v.lp >= l_end;
    let r_close = v.rs.len() > 0 && v.rp >= r_end;
    proof {
        if l_node {
            lemma_cursor_step(lhs@, sec.l_lo as int, sec.l_hi as int, v@.lp, v@.ls);
        }
        if r_node {
            lemma_cursor_step(rhs@, sec.r_lo as int, sec.r_hi as int, v@.rp, v@.rs);
        }
    }
    match e {
        EdgeKind::UnchangedNode => l_node && r_node && same,
        EdgeKind::UnchangedDelimiter => l_node && r_node && !same && lhs.nodes[v.lp].is_list()
            && nodes_label_eq(&lhs.nodes[v.lp], &rhs.nodes[v.rp]),
        EdgeKind::ReplacedComment => l_node && r_node && !same && lhs.nodes[v.lp].is_comment()
            && rhs.nodes[v.rp].is_comment(),
        EdgeKind::NovelAtomLHS => l_node && !lhs.nodes[v.lp].is_list(),
        EdgeKind::NovelAtomRHS => r_node && !rhs.nodes[v.rp].is_list(),
        EdgeKind::EnterNovelDelimLHS => l_node && lhs.nodes[v.lp].is_list(),
        EdgeKind::EnterNovelDelimRHS => r_node && rhs.nodes[v.rp].is_list(),
        EdgeKind::ExitDelimiterBoth => l_close && r_close && v.ls[v.ls.len() - 1].both
            && v.rs[v.rs.len() - 1].both,
        EdgeKind::ExitDelimiterLHS => l_close && !v.ls[v.ls.len() - 1].both,
        EdgeKind::ExitDelimiterRHS => r_close && !v.rs[v.rs.len() - 1].both,
    }
}

/// Where one cursor stands after an edge: `advance` tells whether it
/// moves to the next node (1), past the whole subtree (2) or not at all,
/// and `enter` and `exit` whether it enters the list it stood at or
/// leaves the innermost entered list.
#[derive(Debug, Copy, Clone, PartialEq, Eq, Structural)]
pub struct Move {
    pub advance: u8,
    pub enter: bool,
    pub both: bool,
    pub exit: bool,
}

/// What an edge of kind `e` does to the left cursor.
pub open spec fn lhs_move(e: EdgeKind) -> Move {
    match e {
        EdgeKind::UnchangedNode => Move { advance: 2, enter: false, both: false, exit: false },
        EdgeKind::UnchangedDelimiter => Move { advance: 1, enter: true, both: true, exit: false },
        EdgeKind::ReplacedComment => Move { advance: 1, enter: false, both: false, exit: false },
        EdgeKind::NovelAtomLHS => Move { advance: 1, enter: false, both: false, exit: false },
        EdgeKind::EnterNovelDelimLHS => Move { advance: 1, enter: true, both: false, exit: false },
        EdgeKind::ExitDelimiterBoth => Move { advance: 0, enter: false, both: false, exit: true },
        EdgeKind::ExitDelimiterLHS => Move { advance: 0, enter: false, both: false, exit: true },
        _ => Move { advance: 0, enter: false, both: false, exit: false },
    }
}

/// What an edge of kind `e` does to the right cursor.
pub open spec fn rhs_move(e: EdgeKind) -> Move {
    match e {
        EdgeKind::UnchangedNode => Move { advance: 2, enter: false, both: false, exit: false },
        EdgeKind::UnchangedDelimiter => Move { advance: 1, enter: true, both: true, exit: false },
        EdgeKind::ReplacedComment => Move { advance: 1, enter: false, both: false, exit: false },
        EdgeKind::NovelAtomRHS => Move { advance: 1, enter: false, both: false, exit: false },
        EdgeKind::EnterNovelDelimRHS => Move { advance: 1, enter: true, both: false, exit: false },
        EdgeKind::ExitDelimiterBoth => Move { advance: 0, enter: false, both: false, exit: true },
        EdgeKind::ExitDelimiterRHS => Move { advance: 0, enter: false, both: false, exit: true },
        _ => Move { advance: 0, enter: false, both: false, exit: false },
    }
}

/// The index of a cursor after the move `m`.
pub open spec fn moved_index(nodes: Seq<NodeView>, p: int, m: Move) -> int {
    if m.advance == 2 {
        nodes[p].subtree_end as int
    } else if m.advance == 1 {
        p + 1
    } else {
        p
    }
}

/// The stack of a cursor after the move `m`.
pub open spec fn moved_stack(p: int, stack: Seq<Frame>, m: Move) -> Seq<Frame> {
    if m.enter {
        stack.push(Frame { list: p as usize, both: m.both })
    } else if m.exit {
        stack.drop_last()
    } else {
        stack
    }
}

/// The target of an edge, cursor by cursor.
pub proof fn lemma_edge_target_by_moves(lt: Seq<NodeView>, rt: Seq<NodeView>, v: VertexView, e: EdgeKind)
    ensures
        edge_target(lt, rt, v, e) == (VertexView {
            lp: moved_index(lt, v.lp, lhs_move(e)),
            rp: moved_index(rt, v.rp, rhs_move(e)),
            ls: moved_stack(v.lp, v.ls, lhs_move(e)),
            rs: moved_stack(v.rp, v.rs, rhs_move(e)),
        }),
{
}

fn lhs_move_of(e: EdgeKind) -> (res: Move)
    ensures
        res == lhs_move(e),
{
    match e {
        EdgeKind::UnchangedNode => Move { advance: 2, enter: false, both: false, exit: false },
        EdgeKind::UnchangedDelimiter => Move { advance: 1, enter: true, both: true, exit: false },
        EdgeKind::ReplacedComment => Move { advance: 1, enter: false, both: false, exit: false },
        EdgeKind::NovelAtomLHS => Move { advance: 1, enter: false, both: false, exit: false },
        EdgeKind::EnterNovelDelimLHS => Move { advance: 1, enter: true, both: false, exit: false },
        EdgeKind::ExitDelimiterBoth => Move { advance: 0, enter: false, both: false, exit: true },
        EdgeKind::ExitDelimiterLHS => Move { advance: 0, enter: false, both: false, exit: true },
        _ => Move { advance: 0, enter: false, both: false, exit: false },
    }
}

fn rhs_move_of(e: EdgeKind) -> (res: Move)
    ensures
        res == rhs_move(e),
{
    match e {
        EdgeKind::UnchangedNode => Move { advance: 2, enter: false, both: false, exit: false },
        EdgeKind::UnchangedDelimiter => Move { advance: 1, enter: true, both: true, exit: false },
        EdgeKind::ReplacedComment => Move { advance: 1, enter: false, both: false, exit: false },
        EdgeKind::NovelAtomRHS => Move { advance: 1, enter: false, both: false, exit: false },
        EdgeKind::EnterNovelDelimRHS => Move { advance: 1, enter: true, both: false, exit: false },
        EdgeKind::ExitDelimiterBoth => Move { advance: 0, enter: false, both: false, exit: true },
        EdgeKind::ExitDelimiterRHS => Move { advance: 0, enter: false, both: false, exit: true },
        _ => Move { advance: 0, enter: false, both: false, exit: false },
    }
}

/// Carry out the move `m` on one cursor.
fn move_cursor(nodes: &Vec<Node>, p: usize, stack: &Vec<Frame>, m: Move) -> (res: (usize, Vec<Frame>))
    requires
        m.advance != 0 ==> p < views(nodes@).len() && p < views(nodes@)[p as int].subtree_end,
        m.exit ==> stack@.len() > 0,
    ensures
        res.0 == moved_index(views(nodes@), p as int, m),
        res.1@ == moved_stack(p as int, stack@, m),
{
    let q = if m.advance == 2 {
        nodes[p].subtree_end
    } else if m.advance == 1 {
        p + 1
    } else {
        p
    };
    let s = if m.enter {
        pushed(stack, Frame { list: p, both: m.both })
    } else if m.exit {
        popped(stack)
    } else {
        copy_frames(stack)
    };
    (q, s)
}

fn edge_cost_of(lhs: &Syntax, rhs: &Syntax, v: &Vertex, e: EdgeKind) -> (res: u64)
    requires
        e is NovelAtomLHS ==> v.lp < lhs@.len(),
        e is NovelAtomRHS ==> v.rp < rhs@.len(),
    ensures
        res == edge_cost(lhs@, rhs@, v@, e),
        res <= MAX_EDGE_COST,
{
    match e {
        EdgeKind::UnchangedNode => COST_UNCHANGED_NODE,
        EdgeKind::UnchangedDelimiter => COST_UNCHANGED_DELIMITER,
        EdgeKind::ReplacedComment => COST_REPLACED_COMMENT,
        EdgeKind::NovelAtomLHS => atom_cost(&lhs.nodes[v.lp]),
        EdgeKind::NovelAtomRHS => atom_cost(&rhs.nodes[v.rp]),
        EdgeKind::EnterNovelDelimLHS => COST_ENTER_NOVEL_DELIMITER,
        EdgeKind::EnterNovelDelimRHS => COST_ENTER_NOVEL_DELIMITER,
        _ => 0,
    }
}

/// The neighbour of `v` along the edge of kind `e`, which leaves `v`.
fn take_edge(lhs: &Syntax, rhs: &Syntax, sec: Section, v: &Vertex, e: EdgeKind) -> (res: Neighbour)
    requires
        lhs.wf(),
        rhs.wf(),
        section_ok(lhs@, rhs@, sec),
        vertex_ok(lhs@, rhs@, sec, v@),
        edge_ok(lhs@, rhs@, sec, v@, e),
    ensures
        res@ == (Step {
            kind: e,
            target: edge_target(lhs@, rhs@, v@, e),
            cost: edge_cost(lhs@, rhs@, v@, e),
        }),
        res.cost <= MAX_EDGE_COST,
{
    proof {
        lemma_edge_target_by_moves(lhs@, rhs@, v@, e);
        if at_node(lhs@, v@.lp, v@.ls, sec.l_hi as int) {
            lemma_cursor_step(lhs@, sec.l_lo as int, sec.l_hi as int, v@.lp, v@.ls);
        }
        if at_node(rhs@, v@.rp, v@.rs, sec.r_hi as int) {
            lemma_cursor_step(rhs@, sec.r_lo as int, sec.r_hi as int, v@.rp, v@.rs);
        }
    }
    let (lp, ls) = move_cursor(&lhs.nodes, v.lp, &v.ls, lhs_move_of(e));
    let (rp, rs) = move_cursor(&rhs.nodes, v.rp, &v.rs, rhs_move_of(e));
    let cost = edge_cost_of(lhs, rhs, v, e);
    Neighbour { kind: e, vertex: Vertex { lp, rp, ls, rs }, cost }
}

/// The neighbours of `v`: every edge that leaves it, in the order of the
/// edge kinds.
pub fn neighbours(lhs: &Syntax, rhs: &Syntax, sec: Section, v: &Vertex) -> (res: Vec<Neighbour>)
    requires
        lhs.wf(),
        rhs.wf(),
        section_ok(lhs@, rhs@, sec),
        vertex_ok(lhs@, rhs@, sec, v@),
    ensures
        steps_of(res@) == neighbours_spec(lhs@, rhs@, sec, v@),
        forall|i: int|
            0 <= i < res@.len() ==> vertex_ok(
                lhs@,
                rhs@,
                sec,
                (#[trigger] res@[i]).vertex@,
            ) && res@[i].cost <= MAX_EDGE_COST,
{
    let l_end = cursor_end(&lhs.nodes, &v.ls, sec.l_hi);
    let r_end = cursor_end(&rhs.nodes, &v.rs, sec.r_hi);
    proof {
        if v.lp < l_end {
            lemma_cursor_step(lhs@, sec.l_lo as int, sec.l_hi as int, v@.lp, v@.ls);
        }
        if v.rp < r_end {
            lemma_cursor_step(rhs@, sec.r_lo as int, sec.r_hi as int, v@.rp, v@.rs);
        }
    }
    let same = v.lp < l_end && v.rp < r_end && lhs.content_eq(v.lp, rhs, v.rp);
    let mut out: Vec<Neighbour> = Vec::new();
    let mut k: usize = 0;
    while k < NUM_EDGE_KINDS
        invariant
            k <= NUM_EDGE_KINDS,
            lhs.wf(),
            rhs.wf(),
            section_ok(lhs@, rhs@, sec),
            vertex_ok(lhs@, rhs@, sec, v@),
            at_node(lhs@, v@.lp, v@.ls, sec.l_hi as int) && at_node(
                rhs@,
                v@.rp,
                v@.rs,
                sec.r_hi as int,
            ) ==> same == subtree_eq(lhs@, v@.lp, rhs@, v@.rp),
            steps_of(out@) == neighbours_upto(lhs@, rhs@, sec, v@, k as int),
            forall|i: int|
                0 <= i < out@.len() ==> vertex_ok(
                    lhs@,
                    rhs@,
                    sec,
                    (#[trigger] out@[i]).vertex@,
                ) && out@[i].cost <= MAX_EDGE_COST,
        decreases NUM_EDGE_KINDS - k,
    {
        let e = edge_kind(k);
        let ghost before = out@;
        if edge_available(lhs, rhs, sec, v, e, same) {
            let n = take_edge(lhs, rhs, sec, v, e);
            proof {
                lemma_edge_keeps_vertex_ok(lhs@, rhs@, sec, v@, e);
            }
            out.push(n);
            assert(steps_of(out@) =~= steps_of(before).push(n@));
        }
        k += 1;
    }
    out
}

} // verus!
