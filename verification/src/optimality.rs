//! Why the search can be trusted: the way that it finds is a way through
//! the graph, and no way from the start to the goal is cheaper.

use vstd::prelude::*;
use crate::dijkstra::{Record, entries_for, is_settled, lemma_min_index_bounds, lemma_state_settle,
    lemma_state_skip, lemma_state_start, min_index, min_index_upto, run, search_spec, state_ok};
use crate::graph::{EdgeKind, Frame, Section, VertexView, NUM_EDGE_KINDS, at_node, edge_cost,
    edge_kind_at, edge_ok, edge_target, is_goal, lemma_edge_keeps_vertex_ok,
    lemma_neighbours_sound, neighbours_spec, neighbours_upto, section_ok, start_vertex, vertex_ok};
use crate::syntax::{shape_ok, NodeView};

verus! {

/// The vertex at which the way `p` from `v` ends.
pub open spec fn path_end(lt: Seq<NodeView>, rt: Seq<NodeView>, v: VertexView, p: Seq<EdgeKind>)
    -> VertexView
    decreases p.len(),
{
    if p.len() == 0 {
        v
    } else {
        edge_target(lt, rt, path_end(lt, rt, v, p.drop_last()), p.last())
    }
}

/// The way `p` from `v` is a way through the graph: each of its edges
/// leaves the vertex at which the edges before it end.
pub open spec fn path_ok(
    lt: Seq<NodeView>,
    rt: Seq<NodeView>,
    sec: Section,
    v: VertexView,
    p: Seq<EdgeKind>,
) -> bool
    decreases p.len(),
{
    if p.len() == 0 {
        true
    } else {
        path_ok(lt, rt, sec, v, p.drop_last()) && edge_ok(
            lt,
            rt,
            sec,
            path_end(lt, rt, v, p.drop_last()),
            p.last(),
        )
    }
}

/// The cost of the way `p` from `v`: the sum of the costs of its edges.
pub open spec fn path_cost(lt: Seq<NodeView>, rt: Seq<NodeView>, v: VertexView, p: Seq<EdgeKind>) -> nat
    decreases p.len(),
{
    if p.len() == 0 {
        0
    } else {
        path_cost(lt, rt, v, p.drop_last()) + edge_cost(
            lt,
            rt,
            path_end(lt, rt, v, p.drop_last()),
            p.last(),
        )
    }
}

/// The way `p` leads from the start of the section to the vertex `v`.
pub open spec fn reaches(
    lt: Seq<NodeView>,
    rt: Seq<NodeView>,
    sec: Section,
    p: Seq<EdgeKind>,
    v: VertexView,
) -> bool {
    path_ok(lt, rt, sec, start_vertex(sec), p) && path_end(lt, rt, start_vertex(sec), p) == v
}

/// The beginning of a way is a way, and costs no more than the whole.
proof fn lemma_prefix(
    lt: Seq<NodeView>,
    rt: Seq<NodeView>,
    sec: Section,
    v: VertexView,
    p: Seq<EdgeKind>,
    j: int,
)
    requires
        path_ok(lt, rt, sec, v, p),
        0 <= j <= p.len(),
    ensures
        path_ok(lt, rt, sec, v, p.take(j)),
        path_cost(lt, rt, v, p.take(j)) <= path_cost(lt, rt, v, p),
    decreases p.len() - j,
{
    if j == p.len() {
        assert(p.take(j) =~= p);
    } else {
        lemma_prefix(lt, rt, sec, v, p, j + 1);
        assert(p.take(j + 1).drop_last() =~= p.take(j));
    }
}

/// The target `t` is settled, or waits in the queue at a cost of at most
/// `bound`.
pub open spec fn covered(settled: Seq<Record>, queue: Seq<Record>, t: VertexView, bound: nat)
    -> bool {
    is_settled(settled, t) || exists|q: int|
        0 <= q < queue.len() && (#[trigger] queue[q]).vertex == t && queue[q].cost <= bound
}

/// Every edge that leaves a settled vertex leads to a vertex that is
/// settled or waits in the queue, at no more than the cost of the settled
/// vertex and the edge.
pub open spec fn closed(
    lt: Seq<NodeView>,
    rt: Seq<NodeView>,
    sec: Section,
    settled: Seq<Record>,
    queue: Seq<Record>,
) -> bool {
    forall|i: int, e: EdgeKind|
        0 <= i < settled.len() && #[trigger] edge_ok(lt, rt, sec, settled[i].vertex, e)
            ==> covered(
            settled,
            queue,
            edge_target(lt, rt, settled[i].vertex, e),
            settled[i].cost + edge_cost(lt, rt, settled[i].vertex, e),
        )
}

/// No way from the start to a settled vertex costs less than the cost
/// at which the vertex was settled.
pub open spec fn optimal(lt: Seq<NodeView>, rt: Seq<NodeView>, sec: Section, settled: Seq<Record>) -> bool {
    forall|i: int, p: Seq<EdgeKind>|
        0 <= i < settled.len() && #[trigger] reaches(lt, rt, sec, p, settled[i].vertex)
            ==> settled[i].cost <= path_cost(lt, rt, start_vertex(sec), p)
}

/// The search began at the start: either nothing is settled yet and the
/// start waits alone in the queue, at no cost, or the start was settled
/// first.
pub open spec fn seeded(sec: Section, settled: Seq<Record>, queue: Seq<Record>) -> bool {
    if settled.len() == 0 {
        queue.len() == 1 && queue[0].vertex == start_vertex(sec) && queue[0].cost == 0
    } else {
        settled[0].vertex == start_vertex(sec)
    }
}

/// What the search keeps true of its state.
pub open spec fn searching(
    lt: Seq<NodeView>,
    rt: Seq<NodeView>,
    sec: Section,
    settled: Seq<Record>,
    queue: Seq<Record>,
) -> bool {
    &&& state_ok(lt, rt, sec, settled, queue)
    &&& closed(lt, rt, sec, settled, queue)
    &&& optimal(lt, rt, sec, settled)
    &&& seeded(sec, settled, queue)
}

/// No entry among the first `n` of the queue is cheaper than the one
/// that leaves the queue next.
proof fn lemma_min_is_least(queue: Seq<Record>, n: int, i: int)
    requires
        1 <= n <= queue.len(),
        0 <= i < n,
    ensures
        queue[min_index_upto(queue, n)].cost <= queue[i].cost,
    decreases n,
{
    if n > 1 {
        lemma_min_index_bounds(queue, n - 1);
        if i < n - 1 {
            lemma_min_is_least(queue, n - 1, i);
        }
    }
}

/// Along a way from the start to a vertex that is not settled, some
/// vertex waits in the queue at no more than the cost of the way.
#[verifier::rlimit(40)]
proof fn lemma_frontier(
    lt: Seq<NodeView>,
    rt: Seq<NodeView>,
    sec: Section,
    settled: Seq<Record>,
    queue: Seq<Record>,
    p: Seq<EdgeKind>,
    j: int,
)
    requires
        closed(lt, rt, sec, settled, queue),
        optimal(lt, rt, sec, settled),
        path_ok(lt, rt, sec, start_vertex(sec), p),
        0 <= j <= p.len(),
        is_settled(settled, path_end(lt, rt, start_vertex(sec), p.take(j))),
        !is_settled(settled, path_end(lt, rt, start_vertex(sec), p)),
    ensures
        exists|q: int|
            0 <= q < queue.len() && (#[trigger] queue[q]).cost <= path_cost(
                lt,
                rt,
                start_vertex(sec),
                p,
            ),
    decreases p.len() - j,
{
    let start = start_vertex(sec);
    if j == p.len() {
        assert(p.take(j) =~= p);
    } else {
        let before = p.take(j);
        let upto = p.take(j + 1);
        assert(upto.drop_last() =~= before);
        assert(upto.last() == p[j]);
        lemma_prefix(lt, rt, sec, start, p, j);
        lemma_prefix(lt, rt, sec, start, p, j + 1);
        let w = path_end(lt, rt, start, before);
        let i = choose|i: int| 0 <= i < settled.len() && (#[trigger] settled[i]).vertex == w;
        assert(reaches(lt, rt, sec, before, settled[i].vertex));
        assert(edge_ok(lt, rt, sec, settled[i].vertex, p[j]));
        let next = path_end(lt, rt, start, upto);
        if is_settled(settled, next) {
            lemma_frontier(lt, rt, sec, settled, queue, p, j + 1);
        } else {
            let bound = settled[i].cost + edge_cost(lt, rt, settled[i].vertex, p[j]);
            assert(covered(settled, queue, next, bound));
            let q = choose|q: int|
                0 <= q < queue.len() && (#[trigger] queue[q]).vertex == next && queue[q].cost
                    <= bound;
            assert(queue[q].cost <= path_cost(lt, rt, start, p));
        }
    }
}

/// The entry that leaves the queue next, if its vertex is not settled
/// yet, is reached at the least cost at which any way reaches it.
proof fn lemma_popped_optimal(
    lt: Seq<NodeView>,
    rt: Seq<NodeView>,
    sec: Section,
    settled: Seq<Record>,
    queue: Seq<Record>,
    p: Seq<EdgeKind>,
)
    requires
        closed(lt, rt, sec, settled, queue),
        optimal(lt, rt, sec, settled),
        seeded(sec, settled, queue),
        queue.len() > 0,
        !is_settled(settled, queue[min_index(queue)].vertex),
        reaches(lt, rt, sec, p, queue[min_index(queue)].vertex),
    ensures
        queue[min_index(queue)].cost <= path_cost(lt, rt, start_vertex(sec), p),
{
    lemma_min_index_bounds(queue, queue.len() as int);
    if settled.len() > 0 {
        assert(p.take(0) =~= Seq::<EdgeKind>::empty());
        assert(settled[0].vertex == start_vertex(sec));
        lemma_frontier(lt, rt, sec, settled, queue, p, 0);
        let q = choose|q: int|
            0 <= q < queue.len() && (#[trigger] queue[q]).cost <= path_cost(
                lt,
                rt,
                start_vertex(sec),
                p,
            );
        lemma_min_is_least(queue, queue.len() as int, q);
    }
}

/// The place of an edge kind in the order of the kinds.
pub open spec fn kind_index(e: EdgeKind) -> int {
    match e {
        EdgeKind::UnchangedNode => 0,
        EdgeKind::UnchangedDelimiter => 1,
        EdgeKind::ReplacedComment => 2,
        EdgeKind::NovelAtomLHS => 3,
        EdgeKind::NovelAtomRHS => 4,
        EdgeKind::EnterNovelDelimLHS => 5,
        EdgeKind::EnterNovelDelimRHS => 6,
        EdgeKind::ExitDelimiterBoth => 7,
        EdgeKind::ExitDelimiterLHS => 8,
        EdgeKind::ExitDelimiterRHS => 9,
    }
}

proof fn lemma_upto_contains(
    lt: Seq<NodeView>,
    rt: Seq<NodeView>,
    sec: Section,
    v: VertexView,
    k: int,
    j: int,
)
    requires
        0 <= j < k,
        edge_ok(lt, rt, sec, v, edge_kind_at(j)),
    ensures
        exists|x: int|
            0 <= x < neighbours_upto(lt, rt, sec, v, k).len() && (#[trigger] neighbours_upto(
                lt,
                rt,
                sec,
                v,
                k,
            )[x]).kind == edge_kind_at(j),
    decreases k,
{
    let all = neighbours_upto(lt, rt, sec, v, k);
    let before = neighbours_upto(lt, rt, sec, v, k - 1);
    if j == k - 1 {
        assert(all[all.len() - 1].kind == edge_kind_at(j));
    } else {
        lemma_upto_contains(lt, rt, sec, v, k - 1, j);
        let x = choose|x: int|
            0 <= x < before.len() && (#[trigger] before[x]).kind == edge_kind_at(j);
        assert(all[x] == before[x]);
    }
}

/// Every edge that leaves a vertex is among its neighbours.
pub proof fn lemma_neighbours_complete(
    lt: Seq<NodeView>,
    rt: Seq<NodeView>,
    sec: Section,
    v: VertexView,
    e: EdgeKind,
)
    requires
        edge_ok(lt, rt, sec, v, e),
    ensures
        exists|x: int|
            0 <= x < neighbours_spec(lt, rt, sec, v).len() && (#[trigger] neighbours_spec(
                lt,
                rt,
                sec,
                v,
            )[x]).kind == e,
{
    assert(edge_kind_at(kind_index(e)) == e);
    lemma_upto_contains(lt, rt, sec, v, NUM_EDGE_KINDS as int, kind_index(e));
    let all = neighbours_upto(lt, rt, sec, v, NUM_EDGE_KINDS as int);
    let x = choose|x: int|
        0 <= x < all.len() && (#[trigger] all[x]).kind == edge_kind_at(kind_index(e));
    assert(neighbours_spec(lt, rt, sec, v)[x].kind == e);
}

/// The search begins in a state that it can keep.
pub proof fn lemma_searching_start(lt: Seq<NodeView>, rt: Seq<NodeView>, sec: Section)
    requires
        section_ok(lt, rt, sec),
    ensures
        searching(
            lt,
            rt,
            sec,
            Seq::empty(),
            seq![Record { vertex: start_vertex(sec), cost: 0, pred: None }],
        ),
{
    lemma_state_start(lt, rt, sec);
}

/// Dropping a waiting entry whose vertex is settled keeps the state.
pub proof fn lemma_searching_skip(
    lt: Seq<NodeView>,
    rt: Seq<NodeView>,
    sec: Section,
    settled: Seq<Record>,
    queue: Seq<Record>,
    k: int,
)
    requires
        searching(lt, rt, sec, settled, queue),
        0 <= k < queue.len(),
        is_settled(settled, queue[k].vertex),
    ensures
        searching(lt, rt, sec, settled, queue.remove(k)),
{
    lemma_state_skip(lt, rt, sec, settled, queue, k);
    let rest = queue.remove(k);
    assert forall|i: int, e: EdgeKind|
        0 <= i < settled.len() && #[trigger] edge_ok(
            lt,
            rt,
            sec,
            settled[i].vertex,
            e,
        ) implies covered(
        settled,
        rest,
        edge_target(lt, rt, settled[i].vertex, e),
        settled[i].cost + edge_cost(lt, rt, settled[i].vertex, e),
    ) by {
        let t = edge_target(lt, rt, settled[i].vertex, e);
        let bound = settled[i].cost + edge_cost(lt, rt, settled[i].vertex, e);
        assert(covered(settled, queue, t, bound));
        if !is_settled(settled, t) {
            let q = choose|q: int|
                0 <= q < queue.len() && (#[trigger] queue[q]).vertex == t && queue[q].cost
                    <= bound;
            if q < k {
                assert(rest[q] == queue[q]);
            } else {
                assert(q > k);
                assert(rest[q - 1] == queue[q]);
            }
        }
    }
}

/// Settling the entry that leaves next, at the least cost at which its
/// vertex can be reached, and letting its neighbours wait keeps the
/// state.
#[verifier::rlimit(40)]
pub proof fn lemma_searching_settle(
    lt: Seq<NodeView>,
    rt: Seq<NodeView>,
    sec: Section,
    settled: Seq<Record>,
    queue: Seq<Record>,
)
    requires
        shape_ok(lt),
        shape_ok(rt),
        section_ok(lt, rt, sec),
        searching(lt, rt, sec, settled, queue),
        queue.len() > 0,
        !is_settled(settled, queue[min_index(queue)].vertex),
        settled.len() < usize::MAX,
    ensures
        searching(
            lt,
            rt,
            sec,
            settled.push(queue[min_index(queue)]),
            queue.remove(min_index(queue)) + entries_for(
                neighbours_spec(lt, rt, sec, queue[min_index(queue)].vertex),
                queue[min_index(queue)].cost,
                settled.len() as usize,
            ),
        ),
{
    lemma_min_index_bounds(queue, queue.len() as int);
    let k = min_index(queue);
    let e = queue[k];
    lemma_state_settle(lt, rt, sec, settled, queue, k);
    let next = settled.push(e);
    let rest = queue.remove(k);
    let steps = neighbours_spec(lt, rt, sec, e.vertex);
    let added = entries_for(steps, e.cost, settled.len() as usize);
    let all = rest + added;
    assert(next[settled.len() as int] == e);
    assert forall|i: int, e1: EdgeKind|
        0 <= i < next.len() && #[trigger] edge_ok(lt, rt, sec, next[i].vertex, e1) implies covered(
        next,
        all,
        edge_target(lt, rt, next[i].vertex, e1),
        next[i].cost + edge_cost(lt, rt, next[i].vertex, e1),
    ) by {
        let t = edge_target(lt, rt, next[i].vertex, e1);
        let bound = next[i].cost + edge_cost(lt, rt, next[i].vertex, e1);
        if i < settled.len() {
            assert(next[i] == settled[i]);
            assert(edge_ok(lt, rt, sec, settled[i].vertex, e1));
            assert(covered(settled, queue, t, bound));
            if is_settled(settled, t) {
                let x = choose|x: int| 0 <= x < settled.len() && (#[trigger] settled[x]).vertex == t;
                assert(next[x].vertex == t);
            } else {
                let q = choose|q: int|
                    0 <= q < queue.len() && (#[trigger] queue[q]).vertex == t && queue[q].cost
                        <= bound;
                if q == k {
                    assert(next[settled.len() as int].vertex == t);
                } else if q < k {
                    assert(all[q] == queue[q]);
                } else {
                    assert(all[q - 1] == queue[q]);
                }
            }
        } else {
            lemma_neighbours_complete(lt, rt, sec, e.vertex, e1);
            let x = choose|x: int| 0 <= x < steps.len() && (#[trigger] steps[x]).kind == e1;
            lemma_neighbours_sound(lt, rt, sec, e.vertex, NUM_EDGE_KINDS as int, x);
            assert(all[rest.len() + x] == added[x]);
            assert(all[rest.len() + x].vertex == t);
        }
    }
    assert forall|i: int, p: Seq<EdgeKind>|
        0 <= i < next.len() && #[trigger] reaches(
            lt,
            rt,
            sec,
            p,
            next[i].vertex,
        ) implies next[i].cost <= path_cost(lt, rt, start_vertex(sec), p) by {
        if i < settled.len() {
            assert(next[i] == settled[i]);
            assert(reaches(lt, rt, sec, p, settled[i].vertex));
        } else {
            lemma_popped_optimal(lt, rt, sec, settled, queue, p);
        }
    }
    if settled.len() > 0 {
        assert(next[0] == settled[0]);
    }
}

/// The goal is the only vertex at the end of both sides.
proof fn lemma_goal_unique(sec: Section, v: VertexView, w: VertexView)
    requires
        is_goal(v, sec),
        is_goal(w, sec),
    ensures
        v == w,
{
    assert(v.ls =~= w.ls);
    assert(v.rs =~= w.rs);
}

proof fn lemma_run_optimal(
    lt: Seq<NodeView>,
    rt: Seq<NodeView>,
    sec: Section,
    limit: nat,
    settled: Seq<Record>,
    queue: Seq<Record>,
    other: Seq<EdgeKind>,
)
    requires
        shape_ok(lt),
        shape_ok(rt),
        section_ok(lt, rt, sec),
        limit <= usize::MAX,
        searching(lt, rt, sec, settled, queue),
        run(lt, rt, sec, limit, settled, queue) is Found,
        path_ok(lt, rt, sec, start_vertex(sec), other),
        is_goal(path_end(lt, rt, start_vertex(sec), other), sec),
    ensures
        run(lt, rt, sec, limit, settled, queue)->Found_0.last().cost <= path_cost(
            lt,
            rt,
            start_vertex(sec),
            other,
        ),
    decreases limit - settled.len(), queue.len(),
{
    if queue.len() > 0 {
        lemma_min_index_bounds(queue, queue.len() as int);
        let k = min_index(queue);
        let e = queue[k];
        let rest = queue.remove(k);
        if is_settled(settled, e.vertex) {
            lemma_searching_skip(lt, rt, sec, settled, queue, k);
            lemma_run_optimal(lt, rt, sec, limit, settled, rest, other);
        } else if settled.len() >= limit {
        } else if is_goal(e.vertex, sec) {
            lemma_goal_unique(sec, e.vertex, path_end(lt, rt, start_vertex(sec), other));
            lemma_popped_optimal(lt, rt, sec, settled, queue, other);
            assert(settled.push(e).last() == e);
        } else {
            lemma_searching_settle(lt, rt, sec, settled, queue);
            lemma_run_optimal(
                lt,
                rt,
                sec,
                limit,
                settled.push(e),
                rest + entries_for(
                    neighbours_spec(lt, rt, sec, e.vertex),
                    e.cost,
                    settled.len() as usize,
                ),
                other,
            );
        }
    }
}

/// The way by which settled vertex `idx` was reached, as its edges from
/// the start on.
pub open spec fn route_of(records: Seq<Record>, idx: int) -> Seq<EdgeKind>
    decreases idx,
{
    if idx < 0 || idx >= records.len() {
        Seq::empty()
    } else {
        match records[idx].pred {
            Some((p, e)) => if p < idx {
                route_of(records, p as int).push(e)
            } else {
                Seq::empty()
            },
            None => Seq::empty(),
        }
    }
}

/// The way by which a settled vertex was reached is a way through the
/// graph from the start to that vertex, at the cost at which the vertex
/// was settled.
pub proof fn lemma_route_is_path(
    lt: Seq<NodeView>,
    rt: Seq<NodeView>,
    sec: Section,
    records: Seq<Record>,
    idx: int,
)
    requires
        state_ok(lt, rt, sec, records, Seq::empty()),
        0 <= idx < records.len(),
    ensures
        reaches(lt, rt, sec, route_of(records, idx), records[idx].vertex),
        path_cost(lt, rt, start_vertex(sec), route_of(records, idx)) == records[idx].cost,
    decreases idx,
{
    crate::dijkstra::lemma_state_reached(lt, rt, sec, records, Seq::empty(), idx);
    let start = start_vertex(sec);
    match records[idx].pred {
        Some((p, e)) => {
            lemma_route_is_path(lt, rt, sec, records, p as int);
            let before = route_of(records, p as int);
            let way = before.push(e);
            assert(route_of(records, idx) == way);
            assert(way.drop_last() =~= before);
            assert(way.last() == e);
            assert(path_end(lt, rt, start, before) == records[p as int].vertex);
            assert(path_ok(lt, rt, sec, start, way));
            assert(path_end(lt, rt, start, way) == records[idx].vertex);
            assert(path_cost(lt, rt, start, way) == records[idx].cost);
        },
        None => {
            assert(route_of(records, idx) =~= Seq::<EdgeKind>::empty());
        },
    }
}

/// The search finds a cheapest way: the way by which it reaches the goal
/// is a way through the graph from the start to the goal, and no such
/// way costs less.
pub proof fn lemma_search_finds_cheapest(
    lt: Seq<NodeView>,
    rt: Seq<NodeView>,
    sec: Section,
    limit: nat,
    other: Seq<EdgeKind>,
)
    requires
        shape_ok(lt),
        shape_ok(rt),
        section_ok(lt, rt, sec),
        limit <= usize::MAX,
        search_spec(lt, rt, sec, limit) is Found,
        path_ok(lt, rt, sec, start_vertex(sec), other),
        is_goal(path_end(lt, rt, start_vertex(sec), other), sec),
    ensures
        ({
            let records = search_spec(lt, rt, sec, limit)->Found_0;
            let way = route_of(records, records.len() - 1);
            &&& records.len() > 0
            &&& path_ok(lt, rt, sec, start_vertex(sec), way)
            &&& is_goal(path_end(lt, rt, start_vertex(sec), way), sec)
            &&& path_cost(lt, rt, start_vertex(sec), way) <= path_cost(
                lt,
                rt,
                start_vertex(sec),
                other,
            )
        }),
{
    let first = seq![Record { vertex: start_vertex(sec), cost: 0, pred: None }];
    lemma_searching_start(lt, rt, sec);
    lemma_run_optimal(lt, rt, sec, limit, Seq::empty(), first, other);
    crate::dijkstra::lemma_run_found(lt, rt, sec, limit, Seq::empty(), first);
    let records = search_spec(lt, rt, sec, limit)->Found_0;
    lemma_route_is_path(lt, rt, sec, records, records.len() - 1);
}

/// The number of lists in the stack that were entered together with a
/// list of the other side.
pub open spec fn count_both(stack: Seq<Frame>) -> nat
    decreases stack.len(),
{
    if stack.len() == 0 {
        0
    } else {
        count_both(stack.drop_last()) + if stack.last().both {
            1nat
        } else {
            0nat
        }
    }
}

/// Both cursors have entered equally many lists together with the other.
pub open spec fn balanced(v: VertexView) -> bool {
    count_both(v.ls) == count_both(v.rs)
}

/// An edge leads from a balanced vertex to a balanced vertex.
pub proof fn lemma_edge_keeps_balance(
    lt: Seq<NodeView>,
    rt: Seq<NodeView>,
    sec: Section,
    v: VertexView,
    e: EdgeKind,
)
    requires
        balanced(v),
        edge_ok(lt, rt, sec, v, e),
    ensures
        balanced(edge_target(lt, rt, v, e)),
{
    let t = edge_target(lt, rt, v, e);
    match e {
        EdgeKind::UnchangedDelimiter => {
            assert(t.ls.drop_last() =~= v.ls);
            assert(t.rs.drop_last() =~= v.rs);
        },
        EdgeKind::EnterNovelDelimLHS => {
            assert(t.ls.drop_last() =~= v.ls);
        },
        EdgeKind::EnterNovelDelimRHS => {
            assert(t.rs.drop_last() =~= v.rs);
        },
        _ => {},
    }
}

/// An edge that leaves every vertex but the goal, matching nothing: the
/// left cursor moves on alone as long as it can, then the right one.
pub open spec fn plain_edge(lt: Seq<NodeView>, rt: Seq<NodeView>, sec: Section, v: VertexView) -> EdgeKind {
    if at_node(lt, v.lp, v.ls, sec.l_hi as int) {
        if lt[v.lp].kind is Atom {
            EdgeKind::NovelAtomLHS
        } else {
            EdgeKind::EnterNovelDelimLHS
        }
    } else if at_node(rt, v.rp, v.rs, sec.r_hi as int) {
        if rt[v.rp].kind is Atom {
            EdgeKind::NovelAtomRHS
        } else {
            EdgeKind::EnterNovelDelimRHS
        }
    } else if v.ls.len() > 0 && !v.ls.last().both {
        EdgeKind::ExitDelimiterLHS
    } else if v.rs.len() > 0 && !v.rs.last().both {
        EdgeKind::ExitDelimiterRHS
    } else {
        EdgeKind::ExitDelimiterBoth
    }
}

/// How far a vertex is from the goal at most: twice the nodes that the
/// cursors have before them, and the lists that they have to leave.
pub open spec fn distance(sec: Section, v: VertexView) -> int {
    2 * (sec.l_hi - v.lp) + v.ls.len() + 2 * (sec.r_hi - v.rp) + v.rs.len()
}

/// From every vertex but the goal the plain edge leads on, and nearer
/// to the goal.
#[verifier::rlimit(40)]
pub proof fn lemma_plain_edge(lt: Seq<NodeView>, rt: Seq<NodeView>, sec: Section, v: VertexView)
    requires
        shape_ok(lt),
        shape_ok(rt),
        section_ok(lt, rt, sec),
        vertex_ok(lt, rt, sec, v),
        balanced(v),
        !is_goal(v, sec),
    ensures
        edge_ok(lt, rt, sec, v, plain_edge(lt, rt, sec, v)),
        0 <= distance(sec, edge_target(lt, rt, v, plain_edge(lt, rt, sec, v))) < distance(sec, v),
{
    let e = plain_edge(lt, rt, sec, v);
    lemma_edge_keeps_vertex_ok_if(lt, rt, sec, v, e);
    if at_node(lt, v.lp, v.ls, sec.l_hi as int) {
    } else if at_node(rt, v.rp, v.rs, sec.r_hi as int) {
    } else if v.ls.len() > 0 && !v.ls.last().both {
    } else if v.rs.len() > 0 && !v.rs.last().both {
    } else {
        if v.ls.len() > 0 {
            assert(count_both(v.ls) >= 1);
            assert(v.rs.len() > 0);
        } else {
            assert(v.rs.len() > 0);
            assert(count_both(v.rs) >= 1);
        }
    }
}

proof fn lemma_edge_keeps_vertex_ok_if(
    lt: Seq<NodeView>,
    rt: Seq<NodeView>,
    sec: Section,
    v: VertexView,
    e: EdgeKind,
)
    requires
        shape_ok(lt),
        shape_ok(rt),
        section_ok(lt, rt, sec),
        vertex_ok(lt, rt, sec, v),
    ensures
        edge_ok(lt, rt, sec, v, e) ==> vertex_ok(lt, rt, sec, edge_target(lt, rt, v, e)),
{
    if edge_ok(lt, rt, sec, v, e) {
        lemma_edge_keeps_vertex_ok(lt, rt, sec, v, e);
    }
}

/// A way that begins with the edge `e` from `v` and goes on by `p`.
proof fn lemma_path_cons(
    lt: Seq<NodeView>,
    rt: Seq<NodeView>,
    sec: Section,
    v: VertexView,
    e: EdgeKind,
    p: Seq<EdgeKind>,
)
    requires
        edge_ok(lt, rt, sec, v, e),
        path_ok(lt, rt, sec, edge_target(lt, rt, v, e), p),
    ensures
        path_ok(lt, rt, sec, v, seq![e] + p),
        path_end(lt, rt, v, seq![e] + p) == path_end(lt, rt, edge_target(lt, rt, v, e), p),
    decreases p.len(),
{
    let whole = seq![e] + p;
    let t = edge_target(lt, rt, v, e);
    if p.len() == 0 {
        let none = Seq::<EdgeKind>::empty();
        assert(whole.len() == 1);
        assert(whole.drop_last() =~= none);
        assert(whole.last() == e);
        assert(path_end(lt, rt, v, none) == v);
        assert(path_ok(lt, rt, sec, v, none));
        assert(path_ok(lt, rt, sec, v, whole));
        assert(path_end(lt, rt, v, whole) == t);
        assert(path_end(lt, rt, t, p) == t);
    } else {
        let front = seq![e] + p.drop_last();
        lemma_path_cons(lt, rt, sec, v, e, p.drop_last());
        assert(whole.drop_last() =~= front);
        assert(whole.last() == p.last());
        assert(path_end(lt, rt, v, front) == path_end(lt, rt, t, p.drop_last()));
        assert(edge_ok(lt, rt, sec, path_end(lt, rt, t, p.drop_last()), p.last()));
        assert(path_ok(lt, rt, sec, v, whole));
        assert(path_end(lt, rt, v, whole) == edge_target(
            lt,
            rt,
            path_end(lt, rt, v, front),
            p.last(),
        ));
    }
}

/// From every balanced vertex inside the section a way leads to the
/// goal.
pub proof fn lemma_goal_reachable(lt: Seq<NodeView>, rt: Seq<NodeView>, sec: Section, v: VertexView)
    requires
        shape_ok(lt),
        shape_ok(rt),
        section_ok(lt, rt, sec),
        vertex_ok(lt, rt, sec, v),
        balanced(v),
    ensures
        exists|p: Seq<EdgeKind>|
            #![trigger path_end(lt, rt, v, p)]
            path_ok(lt, rt, sec, v, p) && is_goal(path_end(lt, rt, v, p), sec),
    decreases distance(sec, v),
{
    if is_goal(v, sec) {
        let p = Seq::<EdgeKind>::empty();
        assert(path_ok(lt, rt, sec, v, p) && is_goal(path_end(lt, rt, v, p), sec));
    } else {
        lemma_plain_edge(lt, rt, sec, v);
        let e = plain_edge(lt, rt, sec, v);
        let t = edge_target(lt, rt, v, e);
        lemma_edge_keeps_vertex_ok(lt, rt, sec, v, e);
        lemma_edge_keeps_balance(lt, rt, sec, v, e);
        lemma_goal_reachable(lt, rt, sec, t);
        let rest = choose|p: Seq<EdgeKind>|
            #![trigger path_end(lt, rt, t, p)]
            path_ok(lt, rt, sec, t, p) && is_goal(path_end(lt, rt, t, p), sec);
        lemma_path_cons(lt, rt, sec, v, e, rest);
        let p = seq![e] + rest;
        assert(path_ok(lt, rt, sec, v, p) && is_goal(path_end(lt, rt, v, p), sec));
    }
}

/// No settled vertex is the goal.
pub open spec fn goal_open(sec: Section, settled: Seq<Record>) -> bool {
    forall|i: int| 0 <= i < settled.len() ==> !is_goal((#[trigger] settled[i]).vertex, sec)
}

/// As long as the goal is not settled, the queue is not empty.
pub proof fn lemma_queue_not_empty(
    lt: Seq<NodeView>,
    rt: Seq<NodeView>,
    sec: Section,
    settled: Seq<Record>,
    queue: Seq<Record>,
)
    requires
        shape_ok(lt),
        shape_ok(rt),
        section_ok(lt, rt, sec),
        searching(lt, rt, sec, settled, queue),
        goal_open(sec, settled),
    ensures
        queue.len() > 0,
{
    if settled.len() > 0 {
        let start = start_vertex(sec);
        assert(vertex_ok(lt, rt, sec, start));
        assert(count_both(start.ls) == 0 && count_both(start.rs) == 0);
        lemma_goal_reachable(lt, rt, sec, start);
        let p = choose|p: Seq<EdgeKind>|
            #![trigger path_end(lt, rt, start, p)]
            path_ok(lt, rt, sec, start, p) && is_goal(path_end(lt, rt, start, p), sec);
        let goal = path_end(lt, rt, start, p);
        if is_settled(settled, goal) {
            let i = choose|i: int| 0 <= i < settled.len() && (#[trigger] settled[i]).vertex == goal;
            assert(!is_goal(settled[i].vertex, sec));
        }
        assert(p.take(0) =~= Seq::<EdgeKind>::empty());
        assert(settled[0].vertex == start);
        lemma_frontier(lt, rt, sec, settled, queue, p, 0);
    }
}

/// The search of a section never runs out of vertices: it reaches the
/// goal or exceeds the limit.
pub proof fn lemma_run_never_exhausted(
    lt: Seq<NodeView>,
    rt: Seq<NodeView>,
    sec: Section,
    limit: nat,
    settled: Seq<Record>,
    queue: Seq<Record>,
)
    requires
        shape_ok(lt),
        shape_ok(rt),
        section_ok(lt, rt, sec),
        limit <= usize::MAX,
        searching(lt, rt, sec, settled, queue),
        goal_open(sec, settled),
    ensures
        !(run(lt, rt, sec, limit, settled, queue) is Exhausted),
    decreases limit - settled.len(), queue.len(),
{
    lemma_queue_not_empty(lt, rt, sec, settled, queue);
    lemma_min_index_bounds(queue, queue.len() as int);
    let k = min_index(queue);
    let e = queue[k];
    let rest = queue.remove(k);
    if is_settled(settled, e.vertex) {
        lemma_searching_skip(lt, rt, sec, settled, queue, k);
        lemma_run_never_exhausted(lt, rt, sec, limit, settled, rest);
    } else if settled.len() >= limit {
    } else if is_goal(e.vertex, sec) {
    } else {
        lemma_searching_settle(lt, rt, sec, settled, queue);
        let next = settled.push(e);
        assert forall|i: int| 0 <= i < next.len() implies !is_goal(
            (#[trigger] next[i]).vertex,
            sec,
        ) by {
            if i < settled.len() {
                assert(next[i] == settled[i]);
            }
        }
        lemma_run_never_exhausted(
            lt,
            rt,
            sec,
            limit,
            next,
            rest + entries_for(
                neighbours_spec(lt, rt, sec, e.vertex),
                e.cost,
                settled.len() as usize,
            ),
        );
    }
}

/// The search of a section reaches the goal or exceeds the limit.
pub proof fn lemma_search_never_exhausted(lt: Seq<NodeView>, rt: Seq<NodeView>, sec: Section, limit: nat)
    requires
        shape_ok(lt),
        shape_ok(rt),
        section_ok(lt, rt, sec),
        limit <= usize::MAX,
    ensures
        !(search_spec(lt, rt, sec, limit) is Exhausted),
{
    lemma_searching_start(lt, rt, sec);
    lemma_run_never_exhausted(
        lt,
        rt,
        sec,
        limit,
        Seq::empty(),
        seq![Record { vertex: start_vertex(sec), cost: 0, pred: None }],
    );
}

} // verus!
