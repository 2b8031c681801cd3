//! The unchanged trimmer: before any search, peel off what is plainly the
//! same on both sides.
//!
//! Of two sequences of siblings, the longest common prefix and the longest
//! common suffix, by content, are marked as unchanged. If a single list
//! is left on each side and the two have the same delimiters, the lists
//! are matched and their children are trimmed in turn. What is left in
//! the end is the gap that the search has to look at.

use vstd::prelude::*;
use crate::changes::{ChangeKind, ChangeMap, ChangeMapView, mark_range, mark_unchanged_range};
use crate::alignment::{around, lemma_around_back, lemma_around_front, lemma_around_one, ordered};
use crate::consistency::{aligned, lemma_link_pair, lemma_mark_ranges, pending, unassigned_in};
use crate::graph::{Section, range_ok, section_ok};
use crate::syntax::{Syntax, label_eq, node_match_at, nodes_label_eq, shape_ok, subtree_eq, NodeView};

verus! {

/// Where the two cursors stand after walking over the longest common
/// prefix of the siblings from `a` and from `b` on.
pub open spec fn prefix_end(
    lt: Seq<NodeView>,
    rt: Seq<NodeView>,
    a: usize,
    l_hi: usize,
    b: usize,
    r_hi: usize,
) -> (usize, usize)
    decreases l_hi - a,
{
    if a < l_hi && b < r_hi && subtree_eq(lt, a as int, rt, b as int) && a < lt[a as int].subtree_end
        <= l_hi {
        prefix_end(lt, rt, lt[a as int].subtree_end, l_hi, rt[b as int].subtree_end, r_hi)
    } else {
        (a, b)
    }
}

/// The siblings that make up the range `lo..hi`, in order.
pub open spec fn siblings(nodes: Seq<NodeView>, lo: usize, hi: usize) -> Seq<usize>
    decreases hi - lo,
{
    if lo < hi && lo < nodes[lo as int].subtree_end <= hi {
        seq![lo] + siblings(nodes, nodes[lo as int].subtree_end, hi)
    } else {
        Seq::empty()
    }
}

/// The length of the longest common suffix of two sequences of siblings,
/// counted from `k` matching pairs on.
pub open spec fn suffix_len(lt: Seq<NodeView>, rt: Seq<NodeView>, ls: Seq<usize>, rs: Seq<usize>, k: int)
    -> int
    decreases ls.len() - k,
{
    if 0 <= k < ls.len() && k < rs.len() && subtree_eq(
        lt,
        ls[ls.len() - 1 - k] as int,
        rt,
        rs[rs.len() - 1 - k] as int,
    ) {
        suffix_len(lt, rt, ls, rs, k + 1)
    } else {
        k
    }
}

/// The index at which the last `q` of the siblings `s` begin; `hi` if
/// `q` is zero.
pub open spec fn suffix_start(s: Seq<usize>, q: int, hi: usize) -> usize {
    if 0 < q <= s.len() {
        s[s.len() - q]
    } else {
        hi
    }
}

/// What one round of trimming leaves of a section: the part between the
/// common prefix and the common suffix.
pub open spec fn middle(lt: Seq<NodeView>, rt: Seq<NodeView>, sec: Section) -> Section {
    let (a, b) = prefix_end(lt, rt, sec.l_lo, sec.l_hi, sec.r_lo, sec.r_hi);
    let ls = siblings(lt, a, sec.l_hi);
    let rs = siblings(rt, b, sec.r_hi);
    let q = suffix_len(lt, rt, ls, rs, 0);
    Section {
        l_lo: a,
        l_hi: suffix_start(ls, q, sec.l_hi),
        r_lo: b,
        r_hi: suffix_start(rs, q, sec.r_hi),
    }
}

/// The change map after one round of trimming: the common prefix and the
/// common suffix are marked as unchanged, node by node.
pub open spec fn mark_ends(m: ChangeMapView, sec: Section, mid: Section) -> ChangeMapView {
    let lhs1 = mark_range(m.lhs, sec.l_lo as int, mid.l_lo - sec.l_lo, sec.r_lo as int);
    let rhs1 = mark_range(m.rhs, sec.r_lo as int, mid.r_lo - sec.r_lo, sec.l_lo as int);
    ChangeMapView {
        lhs: mark_range(lhs1, mid.l_hi as int, sec.l_hi - mid.l_hi, mid.r_hi as int),
        rhs: mark_range(rhs1, mid.r_hi as int, sec.r_hi - mid.r_hi, mid.l_hi as int),
    }
}

/// The middle is one list on each side, and the two lists have the same
/// delimiters: trimming goes on inside them.
pub open spec fn descends(lt: Seq<NodeView>, rt: Seq<NodeView>, mid: Section) -> bool {
    &&& mid.l_lo < mid.l_hi
    &&& mid.r_lo < mid.r_hi
    &&& lt[mid.l_lo as int].subtree_end == mid.l_hi
    &&& rt[mid.r_lo as int].subtree_end == mid.r_hi
    &&& lt[mid.l_lo as int].kind is List
    &&& label_eq(lt[mid.l_lo as int], rt[mid.r_lo as int])
}

/// The change map and the gap that trimming the section `sec` leaves.
/// There is no gap where nothing is left on either side.
pub open spec fn trim_spec(lt: Seq<NodeView>, rt: Seq<NodeView>, m: ChangeMapView, sec: Section) -> (
    ChangeMapView,
    Option<Section>,
)
    decreases sec.l_hi - sec.l_lo,
{
    let mid = middle(lt, rt, sec);
    let m1 = mark_ends(m, sec, mid);
    if mid.l_lo >= mid.l_hi && mid.r_lo >= mid.r_hi {
        (m1, None)
    } else if descends(lt, rt, mid) && sec.l_lo <= mid.l_lo && mid.l_hi <= sec.l_hi {
        let m2 = ChangeMapView {
            lhs: m1.lhs.update(mid.l_lo as int, Some(ChangeKind::Unchanged(mid.r_lo))),
            rhs: m1.rhs.update(mid.r_lo as int, Some(ChangeKind::Unchanged(mid.l_lo))),
        };
        trim_spec(
            lt,
            rt,
            m2,
            Section {
                l_lo: (mid.l_lo + 1) as usize,
                l_hi: mid.l_hi,
                r_lo: (mid.r_lo + 1) as usize,
                r_hi: mid.r_hi,
            },
        )
    } else {
        (m1, Some(mid))
    }
}

/// The siblings of a range, collected.
fn siblings_of(tree: &Syntax, lo: usize, hi: usize) -> (res: Vec<usize>)
    requires
        tree.wf(),
        range_ok(tree@, lo as int, hi as int),
    ensures
        res@ == siblings(tree@, lo, hi),
        chain(tree@, res@, lo, hi),
{
    let mut out: Vec<usize> = Vec::new();
    let mut cur = lo;
    assert(out@ + siblings(tree@, cur, hi) =~= siblings(tree@, lo, hi));
    while cur < hi
        invariant
            tree.wf(),
            range_ok(tree@, lo as int, hi as int),
            lo <= cur <= hi,
            siblings(tree@, lo, hi) == out@ + siblings(tree@, cur, hi),
            forall|k: int|
                0 <= k < out@.len() ==> lo <= (#[trigger] out@[k]) < hi
                    && tree@[out@[k] as int].subtree_end <= hi,
            forall|k: int|
                0 <= k < out@.len() - 1 ==> tree@[(#[trigger] out@[k]) as int].subtree_end
                    == out@[k + 1],
            out@.len() > 0 ==> out@[0] == lo && tree@[out@.last() as int].subtree_end == cur,
            out@.len() == 0 ==> cur == lo,
        decreases hi - cur,
    {
        let ghost before = out@;
        let next = tree.nodes[cur].subtree_end;
        out.push(cur);
        assert(before + (seq![cur] + siblings(tree@, next, hi)) =~= before.push(cur)
            + siblings(tree@, next, hi));
        cur = next;
    }
    assert(out@ + Seq::<usize>::empty() =~= out@);
    proof {
        reveal(chain);
    }
    out
}

/// Walk over the longest common prefix of the two sibling sequences.
fn skip_prefix(lhs: &Syntax, rhs: &Syntax, sec: Section) -> (res: (usize, usize))
    requires
        lhs.wf(),
        rhs.wf(),
        section_ok(lhs@, rhs@, sec),
    ensures
        res == prefix_end(lhs@, rhs@, sec.l_lo, sec.l_hi, sec.r_lo, sec.r_hi),
        sec.l_lo <= res.0 <= sec.l_hi,
        sec.r_lo <= res.1 <= sec.r_hi,
        res.0 - sec.l_lo == res.1 - sec.r_lo,
{
    let mut a = sec.l_lo;
    let mut b = sec.r_lo;
    while a < sec.l_hi && b < sec.r_hi && lhs.content_eq(a, rhs, b)
        invariant
            lhs.wf(),
            rhs.wf(),
            section_ok(lhs@, rhs@, sec),
            sec.l_lo <= a <= sec.l_hi,
            sec.r_lo <= b <= sec.r_hi,
            a - sec.l_lo == b - sec.r_lo,
            prefix_end(lhs@, rhs@, sec.l_lo, sec.l_hi, sec.r_lo, sec.r_hi)
                == prefix_end(lhs@, rhs@, a, sec.l_hi, b, sec.r_hi),
        decreases sec.l_hi - a,
    {
        a = lhs.nodes[a].subtree_end;
        b = rhs.nodes[b].subtree_end;
    }
    (a, b)
}

/// What holds of the siblings `s` of the range `lo..hi`.
#[verifier::opaque]
spec fn chain(nodes: Seq<NodeView>, s: Seq<usize>, lo: usize, hi: usize) -> bool {
    &&& forall|k: int|
        0 <= k < s.len() ==> lo <= (#[trigger] s[k]) < hi && nodes[s[k] as int].subtree_end <= hi
    &&& forall|k: int|
        0 <= k < s.len() - 1 ==> nodes[(#[trigger] s[k]) as int].subtree_end == s[k + 1]
    &&& s.len() > 0 ==> s[0] == lo && nodes[s.last() as int].subtree_end == hi
    &&& s.len() == 0 ==> lo == hi
}

/// What is known of sibling `k` of a range.
proof fn lemma_chain_at(nodes: Seq<NodeView>, s: Seq<usize>, lo: usize, hi: usize, k: int)
    requires
        chain(nodes, s, lo, hi),
        0 <= k < s.len(),
    ensures
        lo <= s[k] < hi,
        nodes[s[k] as int].subtree_end <= hi,
        k + 1 < s.len() ==> nodes[s[k] as int].subtree_end == s[k + 1],
        k + 1 == s.len() ==> nodes[s[k] as int].subtree_end == hi,
        s[0] == lo,
{
    reveal(chain);
}

/// The part of a range before the last `q` of its siblings is made of
/// whole subtrees.
proof fn lemma_chain_range(nodes: Seq<NodeView>, s: Seq<usize>, lo: usize, hi: usize, q: int)
    requires
        shape_ok(nodes),
        range_ok(nodes, lo as int, hi as int),
        chain(nodes, s, lo, hi),
        0 <= q <= s.len(),
    ensures
        lo <= suffix_start(s, q, hi) <= hi,
        range_ok(nodes, lo as int, suffix_start(s, q, hi) as int),
{
    reveal(chain);
    let top = suffix_start(s, q, hi);
    assert forall|i: int| lo <= i < top implies (#[trigger] nodes[i]).subtree_end <= top by {
        if q > 0 {
            lemma_before_sibling(nodes, s, 0, s.len() - q, i);
        }
    }
}

/// Walk back over the longest common suffix of the two sibling
/// sequences; where the suffix begins on either side.
#[verifier::rlimit(60)]
fn find_suffix(lhs: &Syntax, rhs: &Syntax, a: usize, l_end: usize, b: usize, r_end: usize) -> (res: (
    usize,
    usize,
))
    requires
        lhs.wf(),
        rhs.wf(),
        range_ok(lhs@, a as int, l_end as int),
        range_ok(rhs@, b as int, r_end as int),
    ensures
        ({
            let ls = siblings(lhs@, a, l_end);
            let rs = siblings(rhs@, b, r_end);
            let q = suffix_len(lhs@, rhs@, ls, rs, 0);
            res == (suffix_start(ls, q, l_end), suffix_start(rs, q, r_end))
        }),
        a <= res.0 <= l_end,
        b <= res.1 <= r_end,
        l_end - res.0 == r_end - res.1,
        range_ok(lhs@, a as int, res.0 as int),
        range_ok(rhs@, b as int, res.1 as int),
{
    let ls = siblings_of(lhs, a, l_end);
    let rs = siblings_of(rhs, b, r_end);
    let mut q: usize = 0;
    let mut l_hi = l_end;
    let mut r_hi = r_end;
    loop
        invariant
            lhs.wf(),
            rhs.wf(),
            q <= ls@.len(),
            q <= rs@.len(),
            l_end <= lhs@.len(),
            r_end <= rhs@.len(),
            chain(lhs@, ls@, a, l_end),
            chain(rhs@, rs@, b, r_end),
            l_hi == suffix_start(ls@, q as int, l_end),
            r_hi == suffix_start(rs@, q as int, r_end),
            l_end - l_hi == r_end - r_hi,
            suffix_len(lhs@, rhs@, ls@, rs@, 0) == suffix_len(
                lhs@,
                rhs@,
                ls@,
                rs@,
                q as int,
            ),
        ensures
            q <= ls@.len(),
            q <= rs@.len(),
            q == suffix_len(lhs@, rhs@, ls@, rs@, 0),
            l_hi == suffix_start(ls@, q as int, l_end),
            r_hi == suffix_start(rs@, q as int, r_end),
            l_end - l_hi == r_end - r_hi,
        decreases ls@.len() - q,
    {
        if q >= ls.len() || q >= rs.len() {
            break ;
        }
        let i = ls.len() - 1 - q;
        let j = rs.len() - 1 - q;
        proof {
            lemma_chain_at(lhs@, ls@, a, l_end, i as int);
            lemma_chain_at(rhs@, rs@, b, r_end, j as int);
        }
        if !lhs.content_eq(ls[i], rhs, rs[j]) {
            break ;
        }
        l_hi = ls[i];
        r_hi = rs[j];
        q += 1;
    }
    proof {
        lemma_chain_range(lhs@, ls@, a, l_end, q as int);
        lemma_chain_range(rhs@, rs@, b, r_end, q as int);
    }
    (l_hi, r_hi)
}

/// One round of trimming: the section between the common prefix and the
/// common suffix, with both marked as unchanged.
fn trim_ends(lhs: &Syntax, rhs: &Syntax, sec: Section, change_map: &mut ChangeMap) -> (mid: Section)
    requires
        lhs.wf(),
        rhs.wf(),
        section_ok(lhs@, rhs@, sec),
        old(change_map)@.fits(lhs@, rhs@),
    ensures
        mid == middle(lhs@, rhs@, sec),
        final(change_map)@ == mark_ends(old(change_map)@, sec, mid),
        final(change_map)@.fits(lhs@, rhs@),
        section_ok(lhs@, rhs@, mid),
        sec.l_lo <= mid.l_lo <= mid.l_hi <= sec.l_hi,
        sec.r_lo <= mid.r_lo <= mid.r_hi <= sec.r_hi,
{
    let (a, b) = skip_prefix(lhs, rhs, sec);
    let (l_hi, r_hi) = find_suffix(lhs, rhs, a, sec.l_hi, b, sec.r_hi);
    let mid = Section { l_lo: a, l_hi, r_lo: b, r_hi };
    let n_pre = a - sec.l_lo;
    let n_suf = sec.l_hi - l_hi;
    mark_unchanged_range(&mut change_map.lhs, sec.l_lo, n_pre, sec.r_lo);
    mark_unchanged_range(&mut change_map.rhs, sec.r_lo, n_pre, sec.l_lo);
    mark_unchanged_range(&mut change_map.lhs, l_hi, n_suf, r_hi);
    mark_unchanged_range(&mut change_map.rhs, r_hi, n_suf, l_hi);
    mid
}

/// A node that stands between sibling `k` and a later sibling `m` ends
/// before sibling `m` begins.
proof fn lemma_before_sibling(nodes: Seq<NodeView>, s: Seq<usize>, k: int, m: int, i: int)
    requires
        shape_ok(nodes),
        0 <= k < m < s.len(),
        forall|k: int| 0 <= k < s.len() ==> (#[trigger] s[k]) < nodes.len(),
        forall|k: int| 0 <= k < s.len() - 1 ==> nodes[(#[trigger] s[k]) as int].subtree_end == s[k + 1],
        s[k] <= i < s[m],
    ensures
        nodes[i].subtree_end <= s[m],
    decreases m - k,
{
    lemma_siblings_ascend(nodes, s, k, m);
    if i >= nodes[s[k] as int].subtree_end {
        assert(nodes[s[k] as int].subtree_end == s[k + 1]);
        lemma_before_sibling(nodes, s, k + 1, m, i);
    }
}

/// Siblings stand in ascending order, each ending where the next begins.
proof fn lemma_siblings_ascend(nodes: Seq<NodeView>, s: Seq<usize>, j: int, m: int)
    requires
        shape_ok(nodes),
        0 <= j < m < s.len(),
        forall|k: int| 0 <= k < s.len() ==> (#[trigger] s[k]) < nodes.len(),
        forall|k: int| 0 <= k < s.len() - 1 ==> nodes[(#[trigger] s[k]) as int].subtree_end == s[k + 1],
    ensures
        nodes[s[j] as int].subtree_end <= s[m],
    decreases m - j,
{
    if j + 1 < m {
        lemma_siblings_ascend(nodes, s, j + 1, m);
        assert(nodes[s[j] as int].subtree_end == s[j + 1]);
    }
}

/// The section that spans both trees.
pub open spec fn whole(lt: Seq<NodeView>, rt: Seq<NodeView>) -> Section {
    Section { l_lo: 0, l_hi: lt.len() as usize, r_lo: 0, r_hi: rt.len() as usize }
}

/// The gaps as a sequence: one gap or none.
pub open spec fn gaps_of(gap: Option<Section>) -> Seq<Section> {
    match gap {
        Some(sec) => seq![sec],
        None => Seq::empty(),
    }
}

/// Mark what is plainly unchanged between the two trees and give back the
/// gaps that are left to be searched.
#[verifier::rlimit(40)]
pub fn mark_unchanged(lhs: &Syntax, rhs: &Syntax, change_map: &mut ChangeMap) -> (res: Vec<Section>)
    requires
        lhs.wf(),
        rhs.wf(),
        old(change_map)@.fits(lhs@, rhs@),
    ensures
        final(change_map)@ == trim_spec(
            lhs@,
            rhs@,
            old(change_map)@,
            whole(lhs@, rhs@),
        ).0,
        res@ == gaps_of(
            trim_spec(lhs@, rhs@, old(change_map)@, whole(lhs@, rhs@)).1,
        ),
        final(change_map)@.fits(lhs@, rhs@),
        forall|k: int| 0 <= k < res@.len() ==> section_ok(lhs@, rhs@, #[trigger] res@[k]),
{
    let mut sec = Section { l_lo: 0, l_hi: lhs.nodes.len(), r_lo: 0, r_hi: rhs.nodes.len() };
    let mut out: Vec<Section> = Vec::new();
    loop
        invariant
            lhs.wf(),
            rhs.wf(),
            section_ok(lhs@, rhs@, sec),
            change_map@.fits(lhs@, rhs@),
            out@.len() == 0,
            trim_spec(
                lhs@,
                rhs@,
                old(change_map)@,
                whole(lhs@, rhs@),
            ) == trim_spec(lhs@, rhs@, change_map@, sec),
        decreases sec.l_hi - sec.l_lo,
    {
        let mid = trim_ends(lhs, rhs, sec, change_map);
        if mid.l_lo >= mid.l_hi && mid.r_lo >= mid.r_hi {
            return out;
        }
        if mid.l_lo < mid.l_hi && mid.r_lo < mid.r_hi && lhs.nodes[mid.l_lo].subtree_end == mid.l_hi
            && rhs.nodes[mid.r_lo].subtree_end == mid.r_hi && lhs.nodes[mid.l_lo].is_list()
            && nodes_label_eq(&lhs.nodes[mid.l_lo], &rhs.nodes[mid.r_lo]) {
            change_map.lhs.set(mid.l_lo, Some(ChangeKind::Unchanged(mid.r_lo)));
            change_map.rhs.set(mid.r_lo, Some(ChangeKind::Unchanged(mid.l_lo)));
            sec = Section { l_lo: mid.l_lo + 1, l_hi: mid.l_hi, r_lo: mid.r_lo + 1, r_hi: mid.r_hi };
        } else {
            out.push(mid);
            assert(out@ =~= seq![mid]);
            return out;
        }
    }
}

/// The siblings of a range of whole subtrees follow one another from the
/// beginning of the range to its end.
proof fn lemma_siblings_chain(nodes: Seq<NodeView>, lo: usize, hi: usize)
    requires
        shape_ok(nodes),
        range_ok(nodes, lo as int, hi as int),
    ensures
        chain(nodes, siblings(nodes, lo, hi), lo, hi),
    decreases hi - lo,
{
    reveal(chain);
    if lo < hi {
        let next = nodes[lo as int].subtree_end;
        lemma_siblings_chain(nodes, next, hi);
        let tail = siblings(nodes, next, hi);
        let s = siblings(nodes, lo, hi);
        assert(s == seq![lo] + tail);
        assert forall|k: int| 0 <= k < s.len() implies lo <= (#[trigger] s[k]) < hi
            && nodes[s[k] as int].subtree_end <= hi by {
            if k > 0 {
                assert(s[k] == tail[k - 1]);
            }
        }
        assert forall|k: int| 0 <= k < s.len() - 1 implies nodes[(#[trigger] s[k]) as int].subtree_end
            == s[k + 1] by {
            assert(s[k + 1] == tail[k]);
            if k > 0 {
                assert(s[k] == tail[k - 1]);
            }
        }
        if tail.len() > 0 {
            assert(s.last() == tail.last());
        }
    }
}

/// The common prefix is made of nodes with equal labels, one for one.
proof fn lemma_prefix_aligned(
    lt: Seq<NodeView>,
    rt: Seq<NodeView>,
    a: usize,
    l_hi: usize,
    b: usize,
    r_hi: usize,
)
    requires
        shape_ok(lt),
        shape_ok(rt),
        range_ok(lt, a as int, l_hi as int),
        range_ok(rt, b as int, r_hi as int),
    ensures
        ({
            let (a2, b2) = prefix_end(lt, rt, a, l_hi, b, r_hi);
            &&& a <= a2 <= l_hi
            &&& b <= b2 <= r_hi
            &&& a2 - a == b2 - b
            &&& aligned(lt, rt, a as int, b as int, a2 - a)
            &&& range_ok(lt, a2 as int, l_hi as int)
            &&& range_ok(rt, b2 as int, r_hi as int)
        }),
    decreases l_hi - a,
{
    if a < l_hi && b < r_hi && subtree_eq(lt, a as int, rt, b as int) && a < lt[a as int].subtree_end
        <= l_hi {
        let ea = lt[a as int].subtree_end;
        let eb = rt[b as int].subtree_end;
        lemma_prefix_aligned(lt, rt, ea, l_hi, eb, r_hi);
        let (a2, b2) = prefix_end(lt, rt, ea, l_hi, eb, r_hi);
        assert forall|i: int| a <= i < a2 implies label_eq(#[trigger] lt[i], rt[b + (i - a)]) by {
            if i < ea {
                assert(node_match_at(lt, a as int, rt, b as int, i - a));
            } else {
                assert(label_eq(lt[i], rt[eb + (i - ea)]));
            }
        }
    }
}

/// The last `k` siblings of both ranges are made of nodes with equal
/// labels, one for one.
spec fn suffix_aligned(
    lt: Seq<NodeView>,
    rt: Seq<NodeView>,
    ls: Seq<usize>,
    rs: Seq<usize>,
    l_hi: usize,
    r_hi: usize,
    k: int,
) -> bool {
    let l = suffix_start(ls, k, l_hi);
    let r = suffix_start(rs, k, r_hi);
    &&& l <= l_hi
    &&& r <= r_hi
    &&& l_hi - l == r_hi - r
    &&& aligned(lt, rt, l as int, r as int, l_hi - l)
}

#[verifier::rlimit(40)]
proof fn lemma_suffix_aligned(
    lt: Seq<NodeView>,
    rt: Seq<NodeView>,
    ls: Seq<usize>,
    rs: Seq<usize>,
    a: usize,
    l_hi: usize,
    b: usize,
    r_hi: usize,
    k: int,
)
    requires
        shape_ok(lt),
        shape_ok(rt),
        l_hi <= lt.len(),
        r_hi <= rt.len(),
        chain(lt, ls, a, l_hi),
        chain(rt, rs, b, r_hi),
        0 <= k <= ls.len(),
        k <= rs.len(),
        suffix_aligned(lt, rt, ls, rs, l_hi, r_hi, k),
    ensures
        0 <= suffix_len(lt, rt, ls, rs, k) <= ls.len(),
        suffix_len(lt, rt, ls, rs, k) <= rs.len(),
        suffix_aligned(lt, rt, ls, rs, l_hi, r_hi, suffix_len(lt, rt, ls, rs, k)),
    decreases ls.len() - k,
{
    if 0 <= k < ls.len() && k < rs.len() && subtree_eq(
        lt,
        ls[ls.len() - 1 - k] as int,
        rt,
        rs[rs.len() - 1 - k] as int,
    ) {
        let i = ls.len() - 1 - k;
        let j = rs.len() - 1 - k;
        lemma_chain_at(lt, ls, a, l_hi, i);
        lemma_chain_at(rt, rs, b, r_hi, j);
        let l = suffix_start(ls, k, l_hi);
        let r = suffix_start(rs, k, r_hi);
        let l2 = ls[i];
        let r2 = rs[j];
        assert(lt[l2 as int].subtree_end == l);
        assert(rt[r2 as int].subtree_end == r);
        assert forall|x: int| l2 <= x < l_hi implies label_eq(#[trigger] lt[x], rt[r2 + (x - l2)]) by {
            if x < l {
                assert(node_match_at(lt, l2 as int, rt, r2 as int, x - l2));
            } else {
                assert(label_eq(lt[x], rt[r + (x - l)]));
            }
        }
        assert(suffix_start(ls, k + 1, l_hi) == l2);
        assert(suffix_start(rs, k + 1, r_hi) == r2);
        lemma_suffix_aligned(lt, rt, ls, rs, a, l_hi, b, r_hi, k + 1);
    }
}

/// One round of trimming keeps the map consistent and leaves a middle in
/// which nothing is assigned.
#[verifier::rlimit(40)]
proof fn lemma_round_consistent(lt: Seq<NodeView>, rt: Seq<NodeView>, m: ChangeMapView, sec: Section)
    requires
        shape_ok(lt),
        shape_ok(rt),
        lt.len() <= usize::MAX,
        rt.len() <= usize::MAX,
        section_ok(lt, rt, sec),
        pending(m, lt, rt, sec.l_lo as int, sec.l_hi as int, sec.r_lo as int, sec.r_hi as int),
    ensures
        ({
            let mid = middle(lt, rt, sec);
            &&& section_ok(lt, rt, mid)
            &&& sec.l_lo <= mid.l_lo <= mid.l_hi <= sec.l_hi
            &&& sec.r_lo <= mid.r_lo <= mid.r_hi <= sec.r_hi
            &&& mid.l_lo - sec.l_lo == mid.r_lo - sec.r_lo
            &&& sec.l_hi - mid.l_hi == sec.r_hi - mid.r_hi
            &&& pending(
                mark_ends(m, sec, mid),
                lt,
                rt,
                mid.l_lo as int,
                mid.l_hi as int,
                mid.r_lo as int,
                mid.r_hi as int,
            )
        }),
{
    lemma_prefix_aligned(lt, rt, sec.l_lo, sec.l_hi, sec.r_lo, sec.r_hi);
    let (a, b) = prefix_end(lt, rt, sec.l_lo, sec.l_hi, sec.r_lo, sec.r_hi);
    let ls = siblings(lt, a, sec.l_hi);
    let rs = siblings(rt, b, sec.r_hi);
    lemma_siblings_chain(lt, a, sec.l_hi);
    lemma_siblings_chain(rt, b, sec.r_hi);
    assert(aligned(lt, rt, sec.l_hi as int, sec.r_hi as int, 0));
    lemma_suffix_aligned(lt, rt, ls, rs, a, sec.l_hi, b, sec.r_hi, 0);
    let q = suffix_len(lt, rt, ls, rs, 0);
    lemma_chain_range(lt, ls, a, sec.l_hi, q);
    lemma_chain_range(rt, rs, b, sec.r_hi, q);
    let mid = middle(lt, rt, sec);
    let n_pre = mid.l_lo - sec.l_lo;
    let n_suf = sec.l_hi - mid.l_hi;
    lemma_mark_ranges(m, lt, rt, sec.l_lo as int, sec.r_lo as int, n_pre);
    let m1 = ChangeMapView {
        lhs: mark_range(m.lhs, sec.l_lo as int, n_pre, sec.r_lo as int),
        rhs: mark_range(m.rhs, sec.r_lo as int, n_pre, sec.l_lo as int),
    };
    assert(unassigned_in(m1.lhs, mid.l_hi as int, mid.l_hi + n_suf));
    assert(unassigned_in(m1.rhs, mid.r_hi as int, mid.r_hi + n_suf));
    lemma_mark_ranges(m1, lt, rt, mid.l_hi as int, mid.r_hi as int, n_suf);
    assert(mark_ends(m, sec, mid) == (ChangeMapView {
        lhs: mark_range(m1.lhs, mid.l_hi as int, n_suf, mid.r_hi as int),
        rhs: mark_range(m1.rhs, mid.r_hi as int, n_suf, mid.l_hi as int),
    }));
}

/// Trimming keeps the map consistent, and in the gap that it leaves
/// nothing is assigned yet.
pub proof fn lemma_trim_consistent(lt: Seq<NodeView>, rt: Seq<NodeView>, m: ChangeMapView, sec: Section)
    requires
        shape_ok(lt),
        shape_ok(rt),
        lt.len() <= usize::MAX,
        rt.len() <= usize::MAX,
        section_ok(lt, rt, sec),
        pending(m, lt, rt, sec.l_lo as int, sec.l_hi as int, sec.r_lo as int, sec.r_hi as int),
    ensures
        trim_spec(lt, rt, m, sec).0.consistent(lt, rt),
        trim_spec(lt, rt, m, sec).1 matches Some(gap) ==> section_ok(lt, rt, gap) && pending(
            trim_spec(lt, rt, m, sec).0,
            lt,
            rt,
            gap.l_lo as int,
            gap.l_hi as int,
            gap.r_lo as int,
            gap.r_hi as int,
        ),
    decreases sec.l_hi - sec.l_lo,
{
    lemma_round_consistent(lt, rt, m, sec);
    let mid = middle(lt, rt, sec);
    let m1 = mark_ends(m, sec, mid);
    if mid.l_lo >= mid.l_hi && mid.r_lo >= mid.r_hi {
    } else if descends(lt, rt, mid) && sec.l_lo <= mid.l_lo && mid.l_hi <= sec.l_hi {
        lemma_link_pair(m1, lt, rt, mid.l_lo as int, mid.r_lo as int, true);
        let m2 = ChangeMapView {
            lhs: m1.lhs.update(mid.l_lo as int, Some(ChangeKind::Unchanged(mid.r_lo))),
            rhs: m1.rhs.update(mid.r_lo as int, Some(ChangeKind::Unchanged(mid.l_lo))),
        };
        let inner = Section {
            l_lo: (mid.l_lo + 1) as usize,
            l_hi: mid.l_hi,
            r_lo: (mid.r_lo + 1) as usize,
            r_hi: mid.r_hi,
        };
        lemma_trim_consistent(lt, rt, m2, inner);
    } else {
    }
}

/// Trimming keeps the matched nodes of the left side in the order of
/// their peers, and around the gap that it leaves.
pub proof fn lemma_trim_ordered(lt: Seq<NodeView>, rt: Seq<NodeView>, m: ChangeMapView, sec: Section)
    requires
        shape_ok(lt),
        shape_ok(rt),
        lt.len() <= usize::MAX,
        rt.len() <= usize::MAX,
        section_ok(lt, rt, sec),
        pending(m, lt, rt, sec.l_lo as int, sec.l_hi as int, sec.r_lo as int, sec.r_hi as int),
        around(m.lhs, sec.l_lo as int, sec.l_hi as int, sec.r_lo as int, sec.r_hi as int),
    ensures
        ordered(trim_spec(lt, rt, m, sec).0.lhs),
        trim_spec(lt, rt, m, sec).1 matches Some(gap) ==> around(
            trim_spec(lt, rt, m, sec).0.lhs,
            gap.l_lo as int,
            gap.l_hi as int,
            gap.r_lo as int,
            gap.r_hi as int,
        ),
    decreases sec.l_hi - sec.l_lo,
{
    lemma_round_consistent(lt, rt, m, sec);
    let mid = middle(lt, rt, sec);
    let m1 = mark_ends(m, sec, mid);
    let n_pre = mid.l_lo - sec.l_lo;
    let n_suf = sec.l_hi - mid.l_hi;
    lemma_around_front(
        m.lhs,
        sec.l_lo as int,
        sec.l_hi as int,
        sec.r_lo as int,
        sec.r_hi as int,
        n_pre,
    );
    let lhs1 = mark_range(m.lhs, sec.l_lo as int, n_pre, sec.r_lo as int);
    lemma_around_back(
        lhs1,
        mid.l_lo as int,
        sec.l_hi as int,
        mid.r_lo as int,
        sec.r_hi as int,
        n_suf,
    );
    assert(m1.lhs == mark_range(lhs1, mid.l_hi as int, n_suf, mid.r_hi as int));
    if mid.l_lo >= mid.l_hi && mid.r_lo >= mid.r_hi {
    } else if descends(lt, rt, mid) && sec.l_lo <= mid.l_lo && mid.l_hi <= sec.l_hi {
        lemma_link_pair(m1, lt, rt, mid.l_lo as int, mid.r_lo as int, true);
        lemma_around_one(
            m1.lhs,
            mid.l_lo as int,
            mid.l_hi as int,
            mid.r_lo as int,
            mid.r_hi as int,
            mid.l_lo as int,
            Some(ChangeKind::Unchanged(mid.r_lo)),
        );
        let m2 = ChangeMapView {
            lhs: m1.lhs.update(mid.l_lo as int, Some(ChangeKind::Unchanged(mid.r_lo))),
            rhs: m1.rhs.update(mid.r_lo as int, Some(ChangeKind::Unchanged(mid.l_lo))),
        };
        let inner = Section {
            l_lo: (mid.l_lo + 1) as usize,
            l_hi: mid.l_hi,
            r_lo: (mid.r_lo + 1) as usize,
            r_hi: mid.r_hi,
        };
        lemma_trim_ordered(lt, rt, m2, inner);
    } else {
    }
}

} // verus!
