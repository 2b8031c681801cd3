//! Why the change map can be trusted: whatever the stages write into it,
//! matched nodes stay matched in pairs, each with a peer that fits.

use vstd::prelude::*;
use crate::changes::{ChangeKind, ChangeMapView, entry_ok, mark_range};
use crate::dijkstra::{Record, apply_edge, lemma_run_found, lemma_state_start, mark_spec, marked,
    search_spec, state_ok};
use crate::graph::{EdgeKind, Section, VertexView, at_node, edge_ok, edge_target, is_comment,
    lemma_cursor_step, section_ok, start_vertex, vertex_ok};
use crate::syntax::{Node, label_eq, node_match_at, shape_ok, size, NodeView};

verus! {

/// The entries `lo..hi` are unassigned.
pub open spec fn unassigned_in(entries: Seq<Option<ChangeKind>>, lo: int, hi: int) -> bool {
    forall|i: int| lo <= i < hi ==> (#[trigger] entries[i]) is None
}

/// Node `a + t` of the left tree and node `b + t` of the right tree
/// carry equal labels, for every `t` below `n`.
pub open spec fn aligned(lt: Seq<NodeView>, rt: Seq<NodeView>, a: int, b: int, n: int) -> bool {
    forall|i: int| a <= i < a + n ==> label_eq(#[trigger] lt[i], rt[b + (i - a)])
}

/// Marking two aligned, unassigned ranges as each other's unchanged
/// peers keeps the map consistent.
#[verifier::rlimit(40)]
pub proof fn lemma_mark_ranges(
    m: ChangeMapView,
    lt: Seq<NodeView>,
    rt: Seq<NodeView>,
    a: int,
    b: int,
    n: int,
)
    requires
        m.consistent(lt, rt),
        lt.len() <= usize::MAX,
        rt.len() <= usize::MAX,
        0 <= a,
        0 <= b,
        0 <= n,
        a + n <= lt.len(),
        b + n <= rt.len(),
        unassigned_in(m.lhs, a, a + n),
        unassigned_in(m.rhs, b, b + n),
        aligned(lt, rt, a, b, n),
    ensures
        (ChangeMapView { lhs: mark_range(m.lhs, a, n, b), rhs: mark_range(m.rhs, b, n, a) }).consistent(
            lt,
            rt,
        ),
{
    let lhs = mark_range(m.lhs, a, n, b);
    let rhs = mark_range(m.rhs, b, n, a);
    assert forall|i: int| 0 <= i < lt.len() implies #[trigger] entry_ok(lhs, lt, rhs, rt, i) by {
        if a <= i < a + n {
            assert(label_eq(lt[i], rt[b + (i - a)]));
        } else {
            assert(entry_ok(m.lhs, lt, m.rhs, rt, i));
            match m.lhs[i] {
                Some(ChangeKind::Unchanged(j)) => {
                    assert(m.rhs[j as int] is Some);
                },
                Some(ChangeKind::ReplacedComment(j)) => {
                    assert(m.rhs[j as int] is Some);
                },
                _ => {},
            }
        }
    }
    assert forall|j: int| 0 <= j < rt.len() implies #[trigger] entry_ok(rhs, rt, lhs, lt, j) by {
        if b <= j < b + n {
            assert(label_eq(lt[a + (j - b)], rt[b + ((a + (j - b)) - a)]));
        } else {
            assert(entry_ok(m.rhs, rt, m.lhs, lt, j));
            match m.rhs[j] {
                Some(ChangeKind::Unchanged(i)) => {
                    assert(m.lhs[i as int] is Some);
                },
                Some(ChangeKind::ReplacedComment(i)) => {
                    assert(m.lhs[i as int] is Some);
                },
                _ => {},
            }
        }
    }
}

/// Linking two unassigned nodes with `kind`, where the pair fits the
/// kind, keeps the map consistent.
#[verifier::rlimit(40)]
pub proof fn lemma_link_pair(
    m: ChangeMapView,
    lt: Seq<NodeView>,
    rt: Seq<NodeView>,
    a: int,
    b: int,
    unchanged: bool,
)
    requires
        m.consistent(lt, rt),
        lt.len() <= usize::MAX,
        rt.len() <= usize::MAX,
        0 <= a < lt.len(),
        0 <= b < rt.len(),
        m.lhs[a] is None,
        m.rhs[b] is None,
        unchanged ==> label_eq(lt[a], rt[b]),
        !unchanged ==> is_comment(lt[a]) && is_comment(rt[b]),
    ensures
        (ChangeMapView {
            lhs: m.lhs.update(
                a,
                Some(
                    if unchanged {
                        ChangeKind::Unchanged(b as usize)
                    } else {
                        ChangeKind::ReplacedComment(b as usize)
                    },
                ),
            ),
            rhs: m.rhs.update(
                b,
                Some(
                    if unchanged {
                        ChangeKind::Unchanged(a as usize)
                    } else {
                        ChangeKind::ReplacedComment(a as usize)
                    },
                ),
            ),
        }).consistent(lt, rt),
{
    let lhs = m.lhs.update(
        a,
        Some(
            if unchanged {
                ChangeKind::Unchanged(b as usize)
            } else {
                ChangeKind::ReplacedComment(b as usize)
            },
        ),
    );
    let rhs = m.rhs.update(
        b,
        Some(
            if unchanged {
                ChangeKind::Unchanged(a as usize)
            } else {
                ChangeKind::ReplacedComment(a as usize)
            },
        ),
    );
    assert forall|i: int| 0 <= i < lt.len() implies #[trigger] entry_ok(lhs, lt, rhs, rt, i) by {
        if i != a {
            assert(entry_ok(m.lhs, lt, m.rhs, rt, i));
            match m.lhs[i] {
                Some(ChangeKind::Unchanged(j)) => {
                    assert(m.rhs[j as int] is Some);
                },
                Some(ChangeKind::ReplacedComment(j)) => {
                    assert(m.rhs[j as int] is Some);
                },
                _ => {},
            }
        }
    }
    assert forall|j: int| 0 <= j < rt.len() implies #[trigger] entry_ok(rhs, rt, lhs, lt, j) by {
        if j != b {
            assert(entry_ok(m.rhs, rt, m.lhs, lt, j));
            match m.rhs[j] {
                Some(ChangeKind::Unchanged(i)) => {
                    assert(m.lhs[i as int] is Some);
                },
                Some(ChangeKind::ReplacedComment(i)) => {
                    assert(m.lhs[i as int] is Some);
                },
                _ => {},
            }
        }
    }
}

/// Marking a node that no entry names as novel keeps the map consistent.
pub proof fn lemma_mark_novel(m: ChangeMapView, lt: Seq<NodeView>, rt: Seq<NodeView>, a: int, left: bool)
    requires
        m.consistent(lt, rt),
        left ==> 0 <= a < lt.len() && m.lhs[a] is None,
        !left ==> 0 <= a < rt.len() && m.rhs[a] is None,
    ensures
        left ==> (ChangeMapView {
            lhs: m.lhs.update(a, Some(ChangeKind::Novel)),
            rhs: m.rhs,
        }).consistent(lt, rt),
        !left ==> (ChangeMapView {
            lhs: m.lhs,
            rhs: m.rhs.update(a, Some(ChangeKind::Novel)),
        }).consistent(lt, rt),
{
    if left {
        let lhs = m.lhs.update(a, Some(ChangeKind::Novel));
        assert forall|i: int| 0 <= i < lt.len() implies #[trigger] entry_ok(lhs, lt, m.rhs, rt, i) by {
            if i != a {
                assert(entry_ok(m.lhs, lt, m.rhs, rt, i));
            }
        }
        assert forall|j: int| 0 <= j < rt.len() implies #[trigger] entry_ok(m.rhs, rt, lhs, lt, j) by {
            assert(entry_ok(m.rhs, rt, m.lhs, lt, j));
        }
    } else {
        let rhs = m.rhs.update(a, Some(ChangeKind::Novel));
        assert forall|i: int| 0 <= i < lt.len() implies #[trigger] entry_ok(m.lhs, lt, rhs, rt, i) by {
            assert(entry_ok(m.lhs, lt, m.rhs, rt, i));
        }
        assert forall|j: int| 0 <= j < rt.len() implies #[trigger] entry_ok(rhs, rt, m.lhs, lt, j) by {
            if j != a {
                assert(entry_ok(m.rhs, rt, m.lhs, lt, j));
            }
        }
    }
}

/// The map is consistent, and nothing is assigned yet to the nodes of
/// the left tree from `l_lo` up to `lp` and to the nodes of the right
/// tree from `r_lo` up to `rp`.
pub open spec fn pending(
    m: ChangeMapView,
    lt: Seq<NodeView>,
    rt: Seq<NodeView>,
    l_lo: int,
    lp: int,
    r_lo: int,
    rp: int,
) -> bool {
    &&& m.consistent(lt, rt)
    &&& unassigned_in(m.lhs, l_lo, lp)
    &&& unassigned_in(m.rhs, r_lo, rp)
}

/// What an edge writes keeps the map consistent, and it writes nothing
/// before the cursors of the vertex that it leaves.
#[verifier::rlimit(40)]
pub proof fn lemma_edge_written(
    m: ChangeMapView,
    lt: Seq<NodeView>,
    rt: Seq<NodeView>,
    sec: Section,
    v: VertexView,
    e: EdgeKind,
)
    requires
        shape_ok(lt),
        shape_ok(rt),
        lt.len() <= usize::MAX,
        rt.len() <= usize::MAX,
        section_ok(lt, rt, sec),
        vertex_ok(lt, rt, sec, v),
        edge_ok(lt, rt, sec, v, e),
        pending(
            m,
            lt,
            rt,
            sec.l_lo as int,
            edge_target(lt, rt, v, e).lp,
            sec.r_lo as int,
            edge_target(lt, rt, v, e).rp,
        ),
    ensures
        pending(apply_edge(m, lt, rt, v, e), lt, rt, sec.l_lo as int, v.lp, sec.r_lo as int, v.rp),
{
    if at_node(lt, v.lp, v.ls, sec.l_hi as int) {
        lemma_cursor_step(lt, sec.l_lo as int, sec.l_hi as int, v.lp, v.ls);
    }
    if at_node(rt, v.rp, v.rs, sec.r_hi as int) {
        lemma_cursor_step(rt, sec.r_lo as int, sec.r_hi as int, v.rp, v.rs);
    }
    match e {
        EdgeKind::UnchangedNode => {
            let n = size(lt, v.lp);
            assert forall|i: int| v.lp <= i < v.lp + n implies label_eq(
                #[trigger] lt[i],
                rt[v.rp + (i - v.lp)],
            ) by {
                assert(node_match_at(lt, v.lp, rt, v.rp, i - v.lp));
            }
            lemma_mark_ranges(m, lt, rt, v.lp, v.rp, n);
        },
        EdgeKind::UnchangedDelimiter => {
            lemma_link_pair(m, lt, rt, v.lp, v.rp, true);
        },
        EdgeKind::ReplacedComment => {
            lemma_link_pair(m, lt, rt, v.lp, v.rp, false);
        },
        EdgeKind::NovelAtomLHS | EdgeKind::EnterNovelDelimLHS => {
            lemma_mark_novel(m, lt, rt, v.lp, true);
        },
        EdgeKind::NovelAtomRHS | EdgeKind::EnterNovelDelimRHS => {
            lemma_mark_novel(m, lt, rt, v.rp, false);
        },
        _ => {},
    }
}

/// What the way to settled vertex `idx` writes keeps the map consistent.
pub proof fn lemma_route_written(
    m: ChangeMapView,
    lt: Seq<NodeView>,
    rt: Seq<NodeView>,
    sec: Section,
    records: Seq<Record>,
    idx: int,
)
    requires
        shape_ok(lt),
        shape_ok(rt),
        lt.len() <= usize::MAX,
        rt.len() <= usize::MAX,
        section_ok(lt, rt, sec),
        state_ok(lt, rt, sec, records, Seq::empty()),
        0 <= idx < records.len(),
        pending(
            m,
            lt,
            rt,
            sec.l_lo as int,
            records[idx].vertex.lp,
            sec.r_lo as int,
            records[idx].vertex.rp,
        ),
    ensures
        marked(m, lt, rt, records, idx).consistent(lt, rt),
    decreases idx,
{
    crate::dijkstra::lemma_state_reached(lt, rt, sec, records, Seq::empty(), idx);
    match records[idx].pred {
        Some((p, e)) => {
            let v = records[p as int].vertex;
            crate::dijkstra::lemma_state_reached(lt, rt, sec, records, Seq::empty(), p as int);
            lemma_edge_written(m, lt, rt, sec, v, e);
            lemma_route_written(apply_edge(m, lt, rt, v, e), lt, rt, sec, records, p as int);
        },
        None => {},
    }
}

/// The search of a section in which nothing is assigned yet keeps the
/// map consistent.
pub proof fn lemma_search_consistent(
    m: ChangeMapView,
    lt: Seq<NodeView>,
    rt: Seq<NodeView>,
    sec: Section,
    limit: nat,
)
    requires
        shape_ok(lt),
        shape_ok(rt),
        lt.len() <= usize::MAX,
        rt.len() <= usize::MAX,
        limit <= usize::MAX,
        section_ok(lt, rt, sec),
        pending(m, lt, rt, sec.l_lo as int, sec.l_hi as int, sec.r_lo as int, sec.r_hi as int),
    ensures
        mark_spec(m, lt, rt, sec, limit).consistent(lt, rt),
{
    if search_spec(lt, rt, sec, limit) is Found {
        lemma_state_start(lt, rt, sec);
        lemma_run_found(
            lt,
            rt,
            sec,
            limit,
            Seq::empty(),
            seq![Record { vertex: start_vertex(sec), cost: 0, pred: None }],
        );
        let records = search_spec(lt, rt, sec, limit)->Found_0;
        lemma_route_written(m, lt, rt, sec, records, records.len() - 1);
    }
}

} // verus!
