//! Why matched nodes never cross: whatever the stages write into the
//! change map, matched nodes keep the order of their peers.

use vstd::prelude::*;
use crate::changes::{ChangeKind, ChangeMapView, entry_ok, mark_range};
use crate::dijkstra::{Record, apply_edge, lemma_run_found, lemma_state_reached, lemma_state_start,
    mark_spec, marked, search_spec, state_ok};
use crate::graph::{EdgeKind, Section, VertexView, at_node, edge_ok, edge_target, lemma_cursor_step,
    section_ok, start_vertex, vertex_ok};
use crate::sliders::{Side, all_novel, find_slide, fix_side_spec, fix_spec, lemma_find_sound,
    lemma_fix_paired, lemma_slide_decreases, lemma_slide_paired, novel_at, paired, peer_of,
    slid_me, slid_peer, slidable_pair, weight};
use crate::syntax::{NodeView, shape_ok, size};
use crate::unchanged::{descends, mark_ends, middle, trim_spec};

verus! {

/// The peer that an entry names, if it names one.
pub open spec fn peer_index(entry: Option<ChangeKind>) -> Option<usize> {
    match entry {
        Some(ChangeKind::Unchanged(p)) => Some(p),
        Some(ChangeKind::ReplacedComment(p)) => Some(p),
        _ => None,
    }
}

/// Matched nodes keep the order of their peers: of two matched nodes, the
/// later one has the later peer.
pub open spec fn ordered(entries: Seq<Option<ChangeKind>>) -> bool {
    forall|i: int, j: int|
        0 <= i < j < entries.len() && peer_index(#[trigger] entries[i]) is Some && peer_index(
            #[trigger] entries[j],
        ) is Some ==> peer_index(entries[i])->0 < peer_index(entries[j])->0
}

/// The matched nodes stand around the ranges `l_lo..l_hi` and
/// `r_lo..r_hi`: each is matched either before both ranges or after both,
/// and they keep the order of their peers.
pub open spec fn around(
    entries: Seq<Option<ChangeKind>>,
    l_lo: int,
    l_hi: int,
    r_lo: int,
    r_hi: int,
) -> bool {
    &&& ordered(entries)
    &&& forall|i: int|
        0 <= i < entries.len() && peer_index(#[trigger] entries[i]) is Some ==> {
            ||| i < l_lo && peer_index(entries[i])->0 < r_lo
            ||| i >= l_hi && peer_index(entries[i])->0 >= r_hi
        }
}

/// Matching the first `n` nodes of both ranges, one for one, leaves the
/// matched nodes around what is left of the ranges.
pub proof fn lemma_around_front(
    entries: Seq<Option<ChangeKind>>,
    l_lo: int,
    l_hi: int,
    r_lo: int,
    r_hi: int,
    n: int,
)
    requires
        around(entries, l_lo, l_hi, r_lo, r_hi),
        0 <= n,
        0 <= l_lo,
        0 <= r_lo,
        l_lo + n <= l_hi <= entries.len(),
        r_lo + n <= r_hi <= usize::MAX,
    ensures
        around(mark_range(entries, l_lo, n, r_lo), l_lo + n, l_hi, r_lo + n, r_hi),
{
    let after = mark_range(entries, l_lo, n, r_lo);
    assert forall|i: int| 0 <= i < after.len() && peer_index(#[trigger] after[i]) is Some implies {
        ||| i < l_lo + n && peer_index(after[i])->0 < r_lo + n
        ||| i >= l_hi && peer_index(after[i])->0 >= r_hi
    } by {
        if !(l_lo <= i < l_lo + n) {
            assert(after[i] == entries[i]);
        }
    }
    assert forall|i: int, j: int|
        0 <= i < j < after.len() && peer_index(#[trigger] after[i]) is Some && peer_index(
            #[trigger] after[j],
        ) is Some implies peer_index(after[i])->0 < peer_index(after[j])->0 by {
        if !(l_lo <= i < l_lo + n) {
            assert(after[i] == entries[i]);
        }
        if !(l_lo <= j < l_lo + n) {
            assert(after[j] == entries[j]);
        }
    }
}

/// Matching the last `n` nodes of both ranges, one for one, leaves the
/// matched nodes around what is left of the ranges.
pub proof fn lemma_around_back(
    entries: Seq<Option<ChangeKind>>,
    l_lo: int,
    l_hi: int,
    r_lo: int,
    r_hi: int,
    n: int,
)
    requires
        around(entries, l_lo, l_hi, r_lo, r_hi),
        0 <= n,
        0 <= l_lo,
        0 <= r_lo,
        l_lo + n <= l_hi <= entries.len(),
        r_lo + n <= r_hi <= usize::MAX,
    ensures
        around(mark_range(entries, l_hi - n, n, r_hi - n), l_lo, l_hi - n, r_lo, r_hi - n),
{
    let after = mark_range(entries, l_hi - n, n, r_hi - n);
    assert forall|i: int| 0 <= i < after.len() && peer_index(#[trigger] after[i]) is Some implies {
        ||| i < l_lo && peer_index(after[i])->0 < r_lo
        ||| i >= l_hi - n && peer_index(after[i])->0 >= r_hi - n
    } by {
        if !(l_hi - n <= i < l_hi) {
            assert(after[i] == entries[i]);
        }
    }
    assert forall|i: int, j: int|
        0 <= i < j < after.len() && peer_index(#[trigger] after[i]) is Some && peer_index(
            #[trigger] after[j],
        ) is Some implies peer_index(after[i])->0 < peer_index(after[j])->0 by {
        if !(l_hi - n <= i < l_hi) {
            assert(after[i] == entries[i]);
        }
        if !(l_hi - n <= j < l_hi) {
            assert(after[j] == entries[j]);
        }
    }
}

/// Writing at a place inside the ranges an entry that names no peer, or
/// the very first or the very last node with the first or the last peer,
/// leaves the matched nodes around what is left of the ranges.
pub proof fn lemma_around_one(
    entries: Seq<Option<ChangeKind>>,
    l_lo: int,
    l_hi: int,
    r_lo: int,
    r_hi: int,
    at: int,
    entry: Option<ChangeKind>,
)
    requires
        around(entries, l_lo, l_hi, r_lo, r_hi),
        0 <= l_lo <= at < l_hi <= entries.len(),
        0 <= r_lo <= r_hi,
    ensures
        peer_index(entry) is None ==> around(entries.update(at, entry), l_lo, l_hi, r_lo, r_hi),
        at == l_lo && r_lo < r_hi && peer_index(entry) == Some(r_lo as usize) && r_hi
            <= usize::MAX ==> around(entries.update(at, entry), l_lo + 1, l_hi, r_lo + 1, r_hi),
        at == l_hi - 1 && r_lo < r_hi && peer_index(entry) == Some((r_hi - 1) as usize) && r_hi
            <= usize::MAX ==> around(entries.update(at, entry), l_lo, l_hi - 1, r_lo, r_hi - 1),
{
    let after = entries.update(at, entry);
    assert forall|i: int| 0 <= i < after.len() && i != at implies after[i] == entries[i] by {}
    if peer_index(entry) is None {
        assert forall|i: int, j: int|
            0 <= i < j < after.len() && peer_index(#[trigger] after[i]) is Some && peer_index(
                #[trigger] after[j],
            ) is Some implies peer_index(after[i])->0 < peer_index(after[j])->0 by {
            assert(after[i] == entries[i]);
            assert(after[j] == entries[j]);
        }
    }
    if at == l_lo && r_lo < r_hi && peer_index(entry) == Some(r_lo as usize) && r_hi <= usize::MAX {
        assert forall|i: int, j: int|
            0 <= i < j < after.len() && peer_index(#[trigger] after[i]) is Some && peer_index(
                #[trigger] after[j],
            ) is Some implies peer_index(after[i])->0 < peer_index(after[j])->0 by {
            if i != at {
                assert(after[i] == entries[i]);
            }
            if j != at {
                assert(after[j] == entries[j]);
            }
        }
    }
    if at == l_hi - 1 && r_lo < r_hi && peer_index(entry) == Some((r_hi - 1) as usize) && r_hi
        <= usize::MAX {
        assert forall|i: int, j: int|
            0 <= i < j < after.len() && peer_index(#[trigger] after[i]) is Some && peer_index(
                #[trigger] after[j],
            ) is Some implies peer_index(after[i])->0 < peer_index(after[j])->0 by {
            if i != at {
                assert(after[i] == entries[i]);
            }
            if j != at {
                assert(after[j] == entries[j]);
            }
        }
    }
}

/// Ranges that shrink at their ends keep the matched nodes around them.
pub proof fn lemma_around_shrink(
    entries: Seq<Option<ChangeKind>>,
    l_lo: int,
    l_hi: int,
    r_lo: int,
    r_hi: int,
    l_hi2: int,
    r_hi2: int,
)
    requires
        around(entries, l_lo, l_hi, r_lo, r_hi),
        l_hi2 <= l_hi,
        r_hi2 <= r_hi,
    ensures
        around(entries, l_lo, l_hi2, r_lo, r_hi2),
{
}

/// What an edge writes leaves the matched nodes of the left side around
/// the part of the section before the cursors of the vertex that the edge
/// leaves.
pub proof fn lemma_edge_around(
    m: ChangeMapView,
    lt: Seq<NodeView>,
    rt: Seq<NodeView>,
    sec: Section,
    v: VertexView,
    e: EdgeKind,
)
    requires
        shape_ok(lt),
        shape_ok(rt),
        lt.len() <= usize::MAX,
        rt.len() <= usize::MAX,
        m.lhs.len() == lt.len(),
        section_ok(lt, rt, sec),
        vertex_ok(lt, rt, sec, v),
        edge_ok(lt, rt, sec, v, e),
        around(
            m.lhs,
            sec.l_lo as int,
            edge_target(lt, rt, v, e).lp,
            sec.r_lo as int,
            edge_target(lt, rt, v, e).rp,
        ),
    ensures
        around(apply_edge(m, lt, rt, v, e).lhs, sec.l_lo as int, v.lp, sec.r_lo as int, v.rp),
        apply_edge(m, lt, rt, v, e).lhs.len() == lt.len(),
{
    let (l_lo, r_lo) = (sec.l_lo as int, sec.r_lo as int);
    let t = edge_target(lt, rt, v, e);
    if at_node(lt, v.lp, v.ls, sec.l_hi as int) {
        lemma_cursor_step(lt, l_lo, sec.l_hi as int, v.lp, v.ls);
    }
    if at_node(rt, v.rp, v.rs, sec.r_hi as int) {
        lemma_cursor_step(rt, r_lo, sec.r_hi as int, v.rp, v.rs);
    }
    match e {
        EdgeKind::UnchangedNode => {
            let n = size(lt, v.lp);
            assert(size(rt, v.rp) == n);
            lemma_around_back(m.lhs, l_lo, t.lp, r_lo, t.rp, n);
        },
        EdgeKind::UnchangedDelimiter => {
            lemma_around_one(
                m.lhs,
                l_lo,
                t.lp,
                r_lo,
                t.rp,
                v.lp,
                Some(ChangeKind::Unchanged(v.rp as usize)),
            );
        },
        EdgeKind::ReplacedComment => {
            lemma_around_one(
                m.lhs,
                l_lo,
                t.lp,
                r_lo,
                t.rp,
                v.lp,
                Some(ChangeKind::ReplacedComment(v.rp as usize)),
            );
        },
        EdgeKind::NovelAtomLHS | EdgeKind::EnterNovelDelimLHS => {
            lemma_around_one(m.lhs, l_lo, t.lp, r_lo, t.rp, v.lp, Some(ChangeKind::Novel));
            lemma_around_shrink(
                m.lhs.update(v.lp, Some(ChangeKind::Novel)),
                l_lo,
                t.lp,
                r_lo,
                t.rp,
                v.lp,
                v.rp,
            );
        },
        EdgeKind::NovelAtomRHS | EdgeKind::EnterNovelDelimRHS => {
            lemma_around_shrink(m.lhs, l_lo, t.lp, r_lo, t.rp, v.lp, v.rp);
        },
        _ => {},
    }
}

/// What the way to settled vertex `idx` writes keeps the matched nodes of
/// the left side in the order of their peers.
pub proof fn lemma_route_ordered(
    m: ChangeMapView,
    lt: Seq<NodeView>,
    rt: Seq<NodeView>,
    sec: Section,
    records: Seq<Record>,
    idx: int,
)
    requires
        shape_ok(lt),
        shape_ok(rt),
        lt.len() <= usize::MAX,
        rt.len() <= usize::MAX,
        m.lhs.len() == lt.len(),
        section_ok(lt, rt, sec),
        state_ok(lt, rt, sec, records, Seq::empty()),
        0 <= idx < records.len(),
        around(
            m.lhs,
            sec.l_lo as int,
            records[idx].vertex.lp,
            sec.r_lo as int,
            records[idx].vertex.rp,
        ),
    ensures
        ordered(marked(m, lt, rt, records, idx).lhs),
    decreases idx,
{
    lemma_state_reached(lt, rt, sec, records, Seq::empty(), idx);
    match records[idx].pred {
        Some((p, e)) => {
            let v = records[p as int].vertex;
            lemma_state_reached(lt, rt, sec, records, Seq::empty(), p as int);
            lemma_edge_around(m, lt, rt, sec, v, e);
            lemma_route_ordered(apply_edge(m, lt, rt, v, e), lt, rt, sec, records, p as int);
        },
        None => {},
    }
}

/// The search of a section around which the matched nodes stand keeps
/// them in the order of their peers.
pub proof fn lemma_search_ordered(
    m: ChangeMapView,
    lt: Seq<NodeView>,
    rt: Seq<NodeView>,
    sec: Section,
    limit: nat,
)
    requires
        shape_ok(lt),
        shape_ok(rt),
        lt.len() <= usize::MAX,
        rt.len() <= usize::MAX,
        limit <= usize::MAX,
        m.lhs.len() == lt.len(),
        section_ok(lt, rt, sec),
        around(m.lhs, sec.l_lo as int, sec.l_hi as int, sec.r_lo as int, sec.r_hi as int),
    ensures
        ordered(mark_spec(m, lt, rt, sec, limit).lhs),
{
    if search_spec(lt, rt, sec, limit) is Found {
        lemma_state_start(lt, rt, sec);
        lemma_run_found(
            lt,
            rt,
            sec,
            limit,
            Seq::empty(),
            seq![Record { vertex: start_vertex(sec), cost: 0, pred: None }],
        );
        let records = search_spec(lt, rt, sec, limit)->Found_0;
        lemma_route_ordered(m, lt, rt, sec, records, records.len() - 1);
    }
}

/// Where the entries of two sides name each other in pairs, the order
/// of the peers on one side is the order of the peers on the other.
pub proof fn lemma_ordered_both(
    me: Seq<Option<ChangeKind>>,
    my_nodes: Seq<NodeView>,
    peer: Seq<Option<ChangeKind>>,
    peer_nodes: Seq<NodeView>,
)
    requires
        paired(me, my_nodes, peer, peer_nodes),
        ordered(me),
        me.len() <= usize::MAX,
        peer.len() <= usize::MAX,
    ensures
        ordered(peer),
{
    assert forall|i: int, j: int|
        0 <= i < j < peer.len() && peer_index(#[trigger] peer[i]) is Some && peer_index(
            #[trigger] peer[j],
        ) is Some implies peer_index(peer[i])->0 < peer_index(peer[j])->0 by {
        let x = peer_index(peer[i])->0 as int;
        let y = peer_index(peer[j])->0 as int;
        assert(entry_ok(peer, peer_nodes, me, my_nodes, i));
        assert(entry_ok(peer, peer_nodes, me, my_nodes, j));
        assert(peer_index(me[x]) == Some(i as usize));
        assert(peer_index(me[y]) == Some(j as usize));
        if y < x {
            assert(peer_index(me[y])->0 < peer_index(me[x])->0);
        }
    }
}

/// A slide keeps the matched nodes in the order of their peers.
pub proof fn lemma_slide_ordered(
    nodes: Seq<NodeView>,
    me: Seq<Option<ChangeKind>>,
    peer_len: int,
    i: int,
    c: int,
)
    requires
        ordered(me),
        slidable_pair(nodes, me, peer_len, i, c),
        0 < size(nodes, i),
        peer_len <= usize::MAX,
    ensures
        ordered(slid_me(nodes, me, i, c)),
{
    let n = size(nodes, i);
    let p = peer_of(me[c]) as int;
    let after = slid_me(nodes, me, i, c);
    assert(me[c + 0] == Some(ChangeKind::Unchanged((p + 0) as usize)));
    assert(me[c + (n - 1)] == Some(ChangeKind::Unchanged((p + (n - 1)) as usize)));
    assert forall|x: int, y: int|
        0 <= x < y < after.len() && peer_index(#[trigger] after[x]) is Some && peer_index(
            #[trigger] after[y],
        ) is Some implies peer_index(after[x])->0 < peer_index(after[y])->0 by {
        if i + n <= x < c {
            assert(novel_at(me, i + (x - i)));
        }
        if i + n <= y < c {
            assert(novel_at(me, i + (y - i)));
        }
        if i <= x < i + n {
            if y >= c + n {
                assert(peer_index(me[c + (n - 1)])->0 < peer_index(me[y])->0);
            }
        } else if x < i {
            if i <= y < i + n {
                assert(peer_index(me[x])->0 < peer_index(me[c + 0])->0);
            }
        }
    }
}

/// Slider correction keeps the matched nodes of both sides in the order
/// of their peers.
pub proof fn lemma_fix_ordered(
    nodes: Seq<NodeView>,
    other: Seq<NodeView>,
    me: Seq<Option<ChangeKind>>,
    peer: Seq<Option<ChangeKind>>,
)
    requires
        shape_ok(nodes),
        nodes.len() <= usize::MAX,
        other.len() <= usize::MAX,
        paired(me, nodes, peer, other),
        ordered(me),
    ensures
        ordered(fix_spec(nodes, me, peer).0),
        ordered(fix_spec(nodes, me, peer).1),
    decreases weight(me, me.len() as int),
{
    match find_slide(nodes, me, peer.len() as int) {
        Some((i, c)) => {
            lemma_find_sound(nodes, me, peer.len() as int);
            assert(0 < size(nodes, i));
            lemma_slide_decreases(nodes, me, peer.len() as int, i, c);
            lemma_slide_paired(nodes, other, me, peer, i, c);
            lemma_slide_ordered(nodes, me, peer.len() as int, i, c);
            lemma_fix_ordered(
                nodes,
                other,
                slid_me(nodes, me, i, c),
                slid_peer(nodes, me, peer, i, c),
            );
        },
        None => {
            lemma_ordered_both(me, nodes, peer, other);
        },
    }
}

} // verus!
