//! The search for the cheapest way through the graph of one section.
//!
//! Vertices wait in a queue with the cost at which they were reached and
//! leave it cheapest first, and among equally cheap ones the one that
//! entered first, so that the result does not depend on anything but the
//! input. A vertex that leaves the queue for the first time is settled;
//! the search gives up when it would settle more vertices than the limit
//! allows.


use vstd::prelude::*;
use crate::changes::{ChangeKind, ChangeMap, ChangeMapView, mark_range, mark_unchanged_range};
use crate::graph::{EdgeKind, Neighbour, Section, Step, Vertex, VertexView, MAX_EDGE_COST,
    NUM_EDGE_KINDS, at_node, edge_cost, edge_ok, edge_target, is_goal, lemma_cursor_step,
    lemma_edge_cost_bound, lemma_edge_keeps_vertex_ok, lemma_neighbours_sound, neighbours,
    neighbours_spec, section_ok, start_vertex, steps_of, vertex_ok};
use crate::optimality::{goal_open, lemma_queue_not_empty, lemma_searching_settle,
    lemma_searching_skip, lemma_searching_start, searching};
use crate::syntax::{Syntax, shape_ok, size, NodeView};
use crate::queue::Queue;
use crate::visited::Visited;

verus! {

/// The search settled as many vertices as the limit allows without
/// reaching the end of both sides.
#[derive(Debug, Copy, Clone, PartialEq, Eq, Structural)]
pub struct ExceededGraphLimit {}

/// A vertex together with the cost at which it was reached and the edge
/// by which it was reached: the index of the settled vertex that the edge
/// leaves, and the edge's kind. The start has no such edge.
#[derive(Debug)]
pub struct Entry {
    pub vertex: Vertex,
    pub cost: u128,
    pub pred: Option<(usize, EdgeKind)>,
}

/// An entry as plain values.
pub struct Record {
    pub vertex: VertexView,
    pub cost: nat,
    pub pred: Option<(usize, EdgeKind)>,
}

impl View for Entry {
    type V = Record;

    open spec fn view(&self) -> Record {
        Record { vertex: self.vertex@, cost: self.cost as nat, pred: self.pred }
    }
}

/// The views of a vector of entries.
pub open spec fn records_of(es: Seq<Entry>) -> Seq<Record> {
    Seq::new(es.len(), |i: int| es[i]@)
}

/// Among the first `n` entries of the queue, the index of the cheapest;
/// of several equally cheap ones, the first.
pub open spec fn min_index_upto(queue: Seq<Record>, n: int) -> int
    decreases n,
{
    if n <= 1 {
        0
    } else {
        let m = min_index_upto(queue, n - 1);
        if queue[n - 1].cost < queue[m].cost {
            n - 1
        } else {
            m
        }
    }
}

/// The index of the entry that leaves the queue next.
pub open spec fn min_index(queue: Seq<Record>) -> int {
    min_index_upto(queue, queue.len() as int)
}

/// Whether vertex `v` is among the settled ones.
pub open spec fn is_settled(settled: Seq<Record>, v: VertexView) -> bool {
    exists|i: int| 0 <= i < settled.len() && (#[trigger] settled[i]).vertex == v
}

/// The queue entries for the neighbours of the vertex settled as number
/// `pred` at cost `cost`.
pub open spec fn entries_for(steps: Seq<Step>, cost: nat, pred: usize) -> Seq<Record> {
    Seq::new(
        steps.len(),
        |i: int|
            Record {
                vertex: steps[i].target,
                cost: cost + steps[i].cost,
                pred: Some((pred, steps[i].kind)),
            },
    )
}

/// The entry that leaves next is one of the entries.
pub proof fn lemma_min_index_bounds(queue: Seq<Record>, n: int)
    requires
        1 <= n <= queue.len(),
    ensures
        0 <= min_index_upto(queue, n) < n,
    decreases n,
{
    if n > 1 {
        lemma_min_index_bounds(queue, n - 1);
    }
}

/// How a search ends.
pub enum Outcome {
    /// The end of both sides was reached; the settled vertices, the last
    /// of them the goal.
    Found(Seq<Record>),
    /// The limit on settled vertices was reached first.
    Exceeded,
    /// The queue ran empty.
    Exhausted,
}

/// The search from a given state on: the settled vertices in the order
/// in which they were settled, and the queue in the order of entry.
pub open spec fn run(
    lt: Seq<NodeView>,
    rt: Seq<NodeView>,
    sec: Section,
    limit: nat,
    settled: Seq<Record>,
    queue: Seq<Record>,
) -> Outcome
    decreases limit - settled.len(), queue.len(),
{
    if queue.len() == 0 {
        Outcome::Exhausted
    } else {
        proof {
            lemma_min_index_bounds(queue, queue.len() as int);
        }
        let k = min_index(queue);
        let e = queue[k];
        let rest = queue.remove(k);
        if is_settled(settled, e.vertex) {
            run(lt, rt, sec, limit, settled, rest)
        } else if settled.len() >= limit {
            Outcome::Exceeded
        } else if is_goal(e.vertex, sec) {
            Outcome::Found(settled.push(e))
        } else {
            run(
                lt,
                rt,
                sec,
                limit,
                settled.push(e),
                rest + entries_for(
                    neighbours_spec(lt, rt, sec, e.vertex),
                    e.cost,
                    settled.len() as usize,
                ),
            )
        }
    }
}

/// The search of a section from its start.
pub open spec fn search_spec(lt: Seq<NodeView>, rt: Seq<NodeView>, sec: Section, limit: nat) -> Outcome {
    run(
        lt,
        rt,
        sec,
        limit,
        Seq::empty(),
        seq![Record { vertex: start_vertex(sec), cost: 0, pred: None }],
    )
}

/// Record `r` was reached by an edge that leaves one of the first `n`
/// settled vertices, at the cost of that vertex and the edge; or it is
/// the start, reached at no cost.
pub open spec fn reached_ok(
    lt: Seq<NodeView>,
    rt: Seq<NodeView>,
    sec: Section,
    settled: Seq<Record>,
    n: int,
    r: Record,
) -> bool {
    match r.pred {
        Some((p, e)) => {
            &&& p < n
            &&& edge_ok(lt, rt, sec, settled[p as int].vertex, e)
            &&& r.vertex == edge_target(lt, rt, settled[p as int].vertex, e)
            &&& r.cost == settled[p as int].cost + edge_cost(lt, rt, settled[p as int].vertex, e)
        },
        None => r.vertex == start_vertex(sec) && r.cost == 0,
    }
}

/// What the search keeps true of its state: every vertex is a place
/// inside the section, costs stay small enough to add to, and every
/// vertex but the start was reached by an edge from a vertex settled
/// before it.
#[verifier::opaque]
pub open spec fn state_ok(
    lt: Seq<NodeView>,
    rt: Seq<NodeView>,
    sec: Section,
    settled: Seq<Record>,
    queue: Seq<Record>,
) -> bool {
    &&& forall|i: int|
        0 <= i < settled.len() ==> {
            &&& vertex_ok(lt, rt, sec, (#[trigger] settled[i]).vertex)
            &&& settled[i].cost <= settled.len() * MAX_EDGE_COST
            &&& reached_ok(lt, rt, sec, settled, i, settled[i])
        }
    &&& forall|i: int|
        0 <= i < queue.len() ==> {
            &&& vertex_ok(lt, rt, sec, (#[trigger] queue[i]).vertex)
            &&& queue[i].cost <= (settled.len() + 1) * MAX_EDGE_COST
            &&& reached_ok(lt, rt, sec, settled, settled.len() as int, queue[i])
        }
}

/// The search begins in order.
pub proof fn lemma_state_start(lt: Seq<NodeView>, rt: Seq<NodeView>, sec: Section)
    requires
        section_ok(lt, rt, sec),
    ensures
        state_ok(
            lt,
            rt,
            sec,
            Seq::empty(),
            seq![Record { vertex: start_vertex(sec), cost: 0, pred: None }],
        ),
{
    reveal(state_ok);
}

/// What is known of a waiting entry.
pub proof fn lemma_state_entry(
    lt: Seq<NodeView>,
    rt: Seq<NodeView>,
    sec: Section,
    settled: Seq<Record>,
    queue: Seq<Record>,
    k: int,
)
    requires
        state_ok(lt, rt, sec, settled, queue),
        0 <= k < queue.len(),
    ensures
        vertex_ok(lt, rt, sec, queue[k].vertex),
        queue[k].cost <= (settled.len() + 1) * MAX_EDGE_COST,
{
    reveal(state_ok);
}

/// How a settled vertex was reached.
pub proof fn lemma_state_reached(
    lt: Seq<NodeView>,
    rt: Seq<NodeView>,
    sec: Section,
    settled: Seq<Record>,
    queue: Seq<Record>,
    i: int,
)
    requires
        state_ok(lt, rt, sec, settled, queue),
        0 <= i < settled.len(),
    ensures
        reached_ok(lt, rt, sec, settled, i, settled[i]),
        vertex_ok(lt, rt, sec, settled[i].vertex),
{
    reveal(state_ok);
}

/// Dropping a waiting entry keeps the state in order.
pub proof fn lemma_state_skip(
    lt: Seq<NodeView>,
    rt: Seq<NodeView>,
    sec: Section,
    settled: Seq<Record>,
    queue: Seq<Record>,
    k: int,
)
    requires
        state_ok(lt, rt, sec, settled, queue),
        0 <= k < queue.len(),
    ensures
        state_ok(lt, rt, sec, settled, queue.remove(k)),
{
    reveal(state_ok);
    let rest = queue.remove(k);
    assert forall|i: int| 0 <= i < rest.len() implies {
        &&& vertex_ok(lt, rt, sec, (#[trigger] rest[i]).vertex)
        &&& rest[i].cost <= (settled.len() + 1) * MAX_EDGE_COST
        &&& reached_ok(lt, rt, sec, settled, settled.len() as int, rest[i])
    } by {
        if i < k {
            assert(rest[i] == queue[i]);
        } else {
            assert(rest[i] == queue[i + 1]);
        }
    }
}

/// Settling a waiting entry, with nothing left waiting, keeps the state
/// in order.
pub proof fn lemma_state_found(
    lt: Seq<NodeView>,
    rt: Seq<NodeView>,
    sec: Section,
    settled: Seq<Record>,
    queue: Seq<Record>,
    k: int,
)
    requires
        state_ok(lt, rt, sec, settled, queue),
        0 <= k < queue.len(),
    ensures
        state_ok(lt, rt, sec, settled.push(queue[k]), Seq::empty()),
{
    reveal(state_ok);
    let next = settled.push(queue[k]);
    assert forall|i: int| 0 <= i < next.len() implies {
        &&& vertex_ok(lt, rt, sec, (#[trigger] next[i]).vertex)
        &&& next[i].cost <= next.len() * MAX_EDGE_COST
        &&& reached_ok(lt, rt, sec, next, i, next[i])
    } by {
        if i < settled.len() {
            assert(next[i] == settled[i]);
            assert(reached_ok(lt, rt, sec, settled, i, settled[i]));
            if let Some((p, e)) = settled[i].pred {
                assert(next[p as int] == settled[p as int]);
            }
        } else {
            assert(next[i] == queue[k]);
            assert(reached_ok(lt, rt, sec, settled, settled.len() as int, queue[k]));
            if let Some((p, e)) = queue[k].pred {
                assert(next[p as int] == settled[p as int]);
            }
        }
    }
}

/// Settling the entry that leaves next and letting its neighbours wait
/// keeps the state in order.
#[verifier::rlimit(40)]
pub proof fn lemma_state_settle(
    lt: Seq<NodeView>,
    rt: Seq<NodeView>,
    sec: Section,
    settled: Seq<Record>,
    queue: Seq<Record>,
    k: int,
)
    requires
        shape_ok(lt),
        shape_ok(rt),
        section_ok(lt, rt, sec),
        state_ok(lt, rt, sec, settled, queue),
        0 <= k < queue.len(),
        settled.len() < usize::MAX,
    ensures
        state_ok(
            lt,
            rt,
            sec,
            settled.push(queue[k]),
            queue.remove(k) + entries_for(
                neighbours_spec(lt, rt, sec, queue[k].vertex),
                queue[k].cost,
                settled.len() as usize,
            ),
        ),
{
    lemma_state_found(lt, rt, sec, settled, queue, k);
    lemma_state_skip(lt, rt, sec, settled, queue, k);
    reveal(state_ok);
    let e = queue[k];
    let next = settled.push(e);
    let rest = queue.remove(k);
    let steps = neighbours_spec(lt, rt, sec, e.vertex);
    let added = entries_for(steps, e.cost, settled.len() as usize);
    let all = rest + added;
    assert forall|i: int| 0 <= i < all.len() implies {
        &&& vertex_ok(lt, rt, sec, (#[trigger] all[i]).vertex)
        &&& all[i].cost <= (next.len() + 1) * MAX_EDGE_COST
        &&& reached_ok(lt, rt, sec, next, next.len() as int, all[i])
    } by {
        if i < rest.len() {
            assert(all[i] == rest[i]);
            assert(reached_ok(lt, rt, sec, settled, settled.len() as int, rest[i]));
            if let Some((p, e)) = rest[i].pred {
                assert(next[p as int] == settled[p as int]);
            }
        } else {
            let j = i - rest.len();
            assert(all[i] == added[j]);
            lemma_neighbours_sound(lt, rt, sec, e.vertex, NUM_EDGE_KINDS as int, j);
            lemma_edge_keeps_vertex_ok(lt, rt, sec, e.vertex, steps[j].kind);
            lemma_edge_cost_bound(lt, rt, e.vertex, steps[j].kind);
            assert(next[settled.len() as int] == e);
        }
    }
}

/// Move the neighbours of a settled vertex into the queue, in their
/// order.
fn enqueue(queue: &mut Queue, ns: Vec<Neighbour>, cost: u128, pred: usize)
    requires
        old(queue).wf(),
        cost + MAX_EDGE_COST <= u128::MAX,
        forall|j: int| 0 <= j < ns@.len() ==> (#[trigger] ns@[j]).cost <= MAX_EDGE_COST,
    ensures
        final(queue).wf(),
        final(queue)@ == old(queue)@ + entries_for(steps_of(ns@), cost as nat, pred),
{
    let ghost rest = queue@;
    let ghost steps = steps_of(ns@);
    let ghost added = entries_for(steps, cost as nat, pred);
    let mut ns = ns;
    let ghost mut i: int = 0;
    assert(rest + added.take(0) =~= rest);
    while ns.len() > 0
        invariant
            queue.wf(),
            cost + MAX_EDGE_COST <= u128::MAX,
            0 <= i,
            i + ns@.len() == steps.len(),
            steps_of(ns@) == steps.skip(i),
            added == entries_for(steps, cost as nat, pred),
            forall|j: int| 0 <= j < ns@.len() ==> (#[trigger] ns@[j]).cost <= MAX_EDGE_COST,
            queue@ == rest + added.take(i),
        decreases ns@.len(),
    {
        let ghost before_ns = ns@;
        let ghost before_queue = queue@;
        let nb = ns.remove(0);
        assert(nb@ == steps_of(before_ns)[0]);
        assert(steps.skip(i)[0] == steps[i]);
        assert(steps_of(ns@) =~= steps.skip(i + 1)) by {
            assert forall|j: int| 0 <= j < ns@.len() implies steps_of(ns@)[j] == steps.skip(
                i + 1,
            )[j] by {
                assert(ns@[j] == before_ns[j + 1]);
                assert(steps_of(before_ns)[j + 1] == steps.skip(i)[j + 1]);
            }
        }
        let entry = Entry {
            vertex: nb.vertex,
            cost: cost + nb.cost as u128,
            pred: Some((pred, nb.kind)),
        };
        assert(entry@ == added[i]);
        queue.push(entry);
        assert(added.take(i + 1) =~= added.take(i).push(entry@));
        assert(queue@ =~= rest + added.take(i + 1));
        proof {
            i = i + 1;
        }
    }
    assert(added.take(i) =~= added);
}

/// Search the section for the cheapest way from its start to its end.
///
/// On success the settled vertices come back, the goal last; each names
/// the settled vertex from which it was reached, so the way can be read
/// backwards from the goal. The search fails only by exceeding the
/// limit.
#[verifier::rlimit(40)]
pub fn shortest_route(lhs: &Syntax, rhs: &Syntax, sec: Section, graph_limit: usize) -> (res: Result<
    Vec<Entry>,
    ExceededGraphLimit,
>)
    requires
        lhs.wf(),
        rhs.wf(),
        section_ok(lhs@, rhs@, sec),
    ensures
        match search_spec(lhs@, rhs@, sec, graph_limit as nat) {
            Outcome::Found(records) => res matches Ok(es) && records_of(es@) == records
                && es@.len() > 0 && state_ok(lhs@, rhs@, sec, records, Seq::empty()),
            Outcome::Exceeded => res is Err,
            Outcome::Exhausted => false,
        },
{
    let mut settled = Visited::new();
    let mut queue = Queue::new();
    queue.push(Entry { vertex: Vertex::start(sec), cost: 0, pred: None });
    assert(queue@ =~= seq![Record { vertex: start_vertex(sec), cost: 0, pred: None }]);
    proof {
        lemma_searching_start(lhs@, rhs@, sec);
    }
    loop
        invariant
            lhs.wf(),
            rhs.wf(),
            section_ok(lhs@, rhs@, sec),
            settled.wf(),
            queue.wf(),
            settled@.len() <= graph_limit,
            searching(lhs@, rhs@, sec, settled@, queue@),
            goal_open(sec, settled@),
            search_spec(lhs@, rhs@, sec, graph_limit as nat) == run(
                lhs@,
                rhs@,
                sec,
                graph_limit as nat,
                settled@,
                queue@,
            ),
        decreases graph_limit - settled@.len(), queue@.len(),
    {
        let ghost old_settled = settled@;
        let ghost old_queue = queue@;
        let ghost k = min_index(old_queue);
        proof {
            // The goal can still be reached, so some vertex is waiting.
            lemma_queue_not_empty(lhs@, rhs@, sec, old_settled, old_queue);
            lemma_min_index_bounds(old_queue, old_queue.len() as int);
            lemma_state_entry(lhs@, rhs@, sec, old_settled, old_queue, k);
            lemma_state_found(lhs@, rhs@, sec, old_settled, old_queue, k);
        }
        let e = queue.pop_min();
        if settled.contains(&e.vertex) {
            proof {
                lemma_searching_skip(lhs@, rhs@, sec, old_settled, old_queue, k);
            }
            continue ;
        }
        if settled.len() >= graph_limit {
            return Err(ExceededGraphLimit {  });
        }
        if e.vertex.is_goal(sec) {
            settled.push(e);
            return Ok(settled.entries);
        }
        proof {
            lemma_searching_settle(lhs@, rhs@, sec, old_settled, old_queue);
        }
        let ns = neighbours(lhs, rhs, sec, &e.vertex);
        let pred = settled.len();
        let cost = e.cost;
        let ghost ev = e@;
        settled.push(e);
        proof {
            let next = old_settled.push(ev);
            assert forall|i: int| 0 <= i < next.len() implies !is_goal(
                (#[trigger] next[i]).vertex,
                sec,
            ) by {
                if i < old_settled.len() {
                    assert(next[i] == old_settled[i]);
                }
            }
        }
        enqueue(&mut queue, ns, cost, pred);
    }
}

/// The change map after the edge of kind `e` that leaves `v` has written
/// what it found: an unchanged node marks its whole subtree, node by
/// node; matched delimiters and replaced comments link the two nodes
/// under the cursors; a novel atom or delimiter marks its node as novel.
pub open spec fn apply_edge(
    m: ChangeMapView,
    lt: Seq<NodeView>,
    rt: Seq<NodeView>,
    v: VertexView,
    e: EdgeKind,
) -> ChangeMapView {
    match e {
        EdgeKind::UnchangedNode => ChangeMapView {
            lhs: mark_range(m.lhs, v.lp, size(lt, v.lp), v.rp),
            rhs: mark_range(m.rhs, v.rp, size(rt, v.rp), v.lp),
        },
        EdgeKind::UnchangedDelimiter => ChangeMapView {
            lhs: m.lhs.update(v.lp, Some(ChangeKind::Unchanged(v.rp as usize))),
            rhs: m.rhs.update(v.rp, Some(ChangeKind::Unchanged(v.lp as usize))),
        },
        EdgeKind::ReplacedComment => ChangeMapView {
            lhs: m.lhs.update(v.lp, Some(ChangeKind::ReplacedComment(v.rp as usize))),
            rhs: m.rhs.update(v.rp, Some(ChangeKind::ReplacedComment(v.lp as usize))),
        },
        EdgeKind::NovelAtomLHS | EdgeKind::EnterNovelDelimLHS => ChangeMapView {
            lhs: m.lhs.update(v.lp, Some(ChangeKind::Novel)),
            rhs: m.rhs,
        },
        EdgeKind::NovelAtomRHS | EdgeKind::EnterNovelDelimRHS => ChangeMapView {
            lhs: m.lhs,
            rhs: m.rhs.update(v.rp, Some(ChangeKind::Novel)),
        },
        _ => m,
    }
}

/// The change map after the edges of the way that ends in settled vertex
/// `idx` have written what they found, the last edge first.
pub open spec fn marked(
    m: ChangeMapView,
    lt: Seq<NodeView>,
    rt: Seq<NodeView>,
    records: Seq<Record>,
    idx: int,
) -> ChangeMapView
    decreases idx,
{
    if idx < 0 || idx >= records.len() {
        m
    } else {
        match records[idx].pred {
            Some((p, e)) => if p < idx {
                marked(apply_edge(m, lt, rt, records[p as int].vertex, e), lt, rt, records, p as int)
            } else {
                m
            },
            None => m,
        }
    }
}

/// The change map after the search of a section: the cheapest way's
/// findings are written into it, or nothing if the search gave up.
pub open spec fn mark_spec(
    m: ChangeMapView,
    lt: Seq<NodeView>,
    rt: Seq<NodeView>,
    sec: Section,
    limit: nat,
) -> ChangeMapView {
    match search_spec(lt, rt, sec, limit) {
        Outcome::Found(records) => marked(m, lt, rt, records, records.len() - 1),
        _ => m,
    }
}

/// Write into the change map what the edge of kind `e` that leaves `v`
/// found.
fn write_edge(lhs: &Syntax, rhs: &Syntax, sec: Section, v: &Vertex, e: EdgeKind, map: &mut ChangeMap)
    requires
        lhs.wf(),
        rhs.wf(),
        section_ok(lhs@, rhs@, sec),
        vertex_ok(lhs@, rhs@, sec, v@),
        edge_ok(lhs@, rhs@, sec, v@, e),
        old(map)@.fits(lhs@, rhs@),
    ensures
        final(map)@ == apply_edge(old(map)@, lhs@, rhs@, v@, e),
        final(map)@.fits(lhs@, rhs@),
{
    proof {
        if at_node(lhs@, v@.lp, v@.ls, sec.l_hi as int) {
            lemma_cursor_step(lhs@, sec.l_lo as int, sec.l_hi as int, v@.lp, v@.ls);
        }
        if at_node(rhs@, v@.rp, v@.rs, sec.r_hi as int) {
            lemma_cursor_step(rhs@, sec.r_lo as int, sec.r_hi as int, v@.rp, v@.rs);
        }
    }
    match e {
        EdgeKind::UnchangedNode => {
            let n = lhs.nodes[v.lp].subtree_end - v.lp;
            mark_unchanged_range(&mut map.lhs, v.lp, n, v.rp);
            mark_unchanged_range(&mut map.rhs, v.rp, n, v.lp);
        },
        EdgeKind::UnchangedDelimiter => {
            map.lhs.set(v.lp, Some(ChangeKind::Unchanged(v.rp)));
            map.rhs.set(v.rp, Some(ChangeKind::Unchanged(v.lp)));
        },
        EdgeKind::ReplacedComment => {
            map.lhs.set(v.lp, Some(ChangeKind::ReplacedComment(v.rp)));
            map.rhs.set(v.rp, Some(ChangeKind::ReplacedComment(v.lp)));
        },
        EdgeKind::NovelAtomLHS | EdgeKind::EnterNovelDelimLHS => {
            map.lhs.set(v.lp, Some(ChangeKind::Novel));
        },
        EdgeKind::NovelAtomRHS | EdgeKind::EnterNovelDelimRHS => {
            map.rhs.set(v.rp, Some(ChangeKind::Novel));
        },
        _ => {},
    }
}

/// Diff one section: search the cheapest way through its graph and
/// write what its edges found into the change map. If the search gives
/// up, the map stays as it was.
#[verifier::rlimit(40)]
pub fn mark_syntax(
    lhs: &Syntax,
    rhs: &Syntax,
    sec: Section,
    change_map: &mut ChangeMap,
    graph_limit: usize,
) -> (res: Result<(), ExceededGraphLimit>)
    requires
        lhs.wf(),
        rhs.wf(),
        section_ok(lhs@, rhs@, sec),
        old(change_map)@.fits(lhs@, rhs@),
    ensures
        res is Ok <==> search_spec(lhs@, rhs@, sec, graph_limit as nat) is Found,
        res is Err <==> search_spec(lhs@, rhs@, sec, graph_limit as nat) is Exceeded,
        final(change_map)@ == mark_spec(
            old(change_map)@,
            lhs@,
            rhs@,
            sec,
            graph_limit as nat,
        ),
        final(change_map)@.fits(lhs@, rhs@),
{
    match shortest_route(lhs, rhs, sec, graph_limit) {
        Err(err) => Err(err),
        Ok(route) => {
            let ghost records = records_of(route@);
            let mut idx: usize = route.len() - 1;
            loop
                invariant
                    lhs.wf(),
                    rhs.wf(),
                    section_ok(lhs@, rhs@, sec),
                    records == records_of(route@),
                    search_spec(lhs@, rhs@, sec, graph_limit as nat) == Outcome::Found(
                        records,
                    ),
                    state_ok(lhs@, rhs@, sec, records, Seq::empty()),
                    idx < route@.len(),
                    change_map@.fits(lhs@, rhs@),
                    marked(old(change_map)@, lhs@, rhs@, records, records.len() - 1)
                        == marked(change_map@, lhs@, rhs@, records, idx as int),
                decreases idx,
            {
                proof {
                    reveal(state_ok);
                    assert(reached_ok(
                        lhs@,
                        rhs@,
                        sec,
                        records,
                        idx as int,
                        records[idx as int],
                    ));
                }
                match route[idx].pred {
                    None => {
                        return Ok(());
                    },
                    Some((p, e)) => {
                        assert(records[p as int] == route@[p as int]@);
                        write_edge(lhs, rhs, sec, &route[p].vertex, e, change_map);
                        idx = p;
                    },
                }
            }
        },
    }
}

/// A search that reaches the goal within a limit reaches it, settling
/// the same vertices, within every greater limit.
pub proof fn lemma_run_monotone(
    lt: Seq<NodeView>,
    rt: Seq<NodeView>,
    sec: Section,
    limit: nat,
    greater: nat,
    settled: Seq<Record>,
    queue: Seq<Record>,
)
    requires
        limit <= greater,
        run(lt, rt, sec, limit, settled, queue) is Found,
    ensures
        run(lt, rt, sec, greater, settled, queue) == run(lt, rt, sec, limit, settled, queue),
    decreases limit - settled.len(), queue.len(),
{
    if queue.len() > 0 {
        lemma_min_index_bounds(queue, queue.len() as int);
        let k = min_index(queue);
        let e = queue[k];
        let rest = queue.remove(k);
        if is_settled(settled, e.vertex) {
            lemma_run_monotone(lt, rt, sec, limit, greater, settled, rest);
        } else if settled.len() >= limit {
        } else if is_goal(e.vertex, sec) {
        } else {
            lemma_run_monotone(
                lt,
                rt,
                sec,
                limit,
                greater,
                settled.push(e),
                rest + entries_for(
                    neighbours_spec(lt, rt, sec, e.vertex),
                    e.cost,
                    settled.len() as usize,
                ),
            );
        }
    }
}

/// Raising the graph limit never changes the outcome of a search that
/// succeeded: it finds the same way and writes the same change map.
pub proof fn lemma_search_monotone(
    m: ChangeMapView,
    lt: Seq<NodeView>,
    rt: Seq<NodeView>,
    sec: Section,
    limit: nat,
    greater: nat,
)
    requires
        limit <= greater,
        search_spec(lt, rt, sec, limit) is Found,
    ensures
        search_spec(lt, rt, sec, greater) == search_spec(lt, rt, sec, limit),
        mark_spec(m, lt, rt, sec, greater) == mark_spec(m, lt, rt, sec, limit),
{
    lemma_run_monotone(
        lt,
        rt,
        sec,
        limit,
        greater,
        Seq::empty(),
        seq![Record { vertex: start_vertex(sec), cost: 0, pred: None }],
    );
}

/// A search that reaches the goal ends with settled vertices that are
/// places inside the section, each but the start reached by an edge from
/// one settled before, and the last of them the goal.
pub proof fn lemma_run_found(
    lt: Seq<NodeView>,
    rt: Seq<NodeView>,
    sec: Section,
    limit: nat,
    settled: Seq<Record>,
    queue: Seq<Record>,
)
    requires
        shape_ok(lt),
        shape_ok(rt),
        section_ok(lt, rt, sec),
        limit <= usize::MAX,
        state_ok(lt, rt, sec, settled, queue),
        run(lt, rt, sec, limit, settled, queue) is Found,
    ensures
        ({
            let records = run(lt, rt, sec, limit, settled, queue)->Found_0;
            &&& state_ok(lt, rt, sec, records, Seq::empty())
            &&& records.len() > 0
            &&& is_goal(records.last().vertex, sec)
        }),
    decreases limit - settled.len(), queue.len(),
{
    if queue.len() > 0 {
        lemma_min_index_bounds(queue, queue.len() as int);
        let k = min_index(queue);
        let e = queue[k];
        let rest = queue.remove(k);
        if is_settled(settled, e.vertex) {
            lemma_state_skip(lt, rt, sec, settled, queue, k);
            lemma_run_found(lt, rt, sec, limit, settled, rest);
        } else if settled.len() >= limit {
        } else if is_goal(e.vertex, sec) {
            lemma_state_found(lt, rt, sec, settled, queue, k);
        } else {
            lemma_state_settle(lt, rt, sec, settled, queue, k);
            lemma_run_found(
                lt,
                rt,
                sec,
                limit,
                settled.push(e),
                rest + entries_for(
                    neighbours_spec(lt, rt, sec, e.vertex),
                    e.cost,
                    settled.len() as usize,
                ),
            );
        }
    }
}

} // verus!
