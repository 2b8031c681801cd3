//! Slider correction: where the search had a choice among equally cheap
//! alignments, move the change to its canonical place.
//!
//! A run of novel siblings that follows a matched sibling is a slider
//! when the sibling after the run is unchanged and equal in content to
//! the first sibling of the run, and nothing inside the run is matched:
//! the run can then just as well begin one sibling later. Such a run is
//! moved towards the end of its list, one sibling at a time, until it can
//! move no further. A run at the very start of its list stays where it
//! is.

use vstd::prelude::*;
use crate::changes::{ChangeKind, ChangeMap, ChangeMapView, entry_ok};
use crate::graph::range_ok;
use crate::syntax::{Node, Syntax, label_eq, node_match_at, shape_ok, size, subtree_eq, NodeView};

verus! {

/// Node `i` counts as novel: it is marked so, or nothing is assigned to
/// it.
pub open spec fn novel_at(me: Seq<Option<ChangeKind>>, i: int) -> bool {
    me[i] is None || me[i] == Some(ChangeKind::Novel)
}

/// All nodes of the subtree `i..i + n` are novel.
pub open spec fn all_novel(me: Seq<Option<ChangeKind>>, i: int, n: int) -> bool {
    forall|k: int| 0 <= k < n ==> novel_at(me, #[trigger] (i + k))
}

/// All nodes of the subtree `c..c + n` are unchanged, node `c + k` with
/// the peer `p + k`.
pub open spec fn all_unchanged(me: Seq<Option<ChangeKind>>, c: int, n: int, p: int) -> bool {
    forall|k: int| 0 <= k < n ==> me[#[trigger] (c + k)] == Some(ChangeKind::Unchanged((p + k) as usize))
}

/// The peer of an unchanged node; zero for any other.
pub open spec fn peer_of(entry: Option<ChangeKind>) -> usize {
    match entry {
        Some(ChangeKind::Unchanged(p)) => p,
        _ => 0,
    }
}

/// The novel subtree at `i` and the unchanged subtree at `c`, a later
/// sibling, can change roles: they are equal in content, the one wholly
/// unchanged, and the other wholly novel, as is everything between the
/// two.
pub open spec fn slidable_pair(
    nodes: Seq<NodeView>,
    me: Seq<Option<ChangeKind>>,
    peer_len: int,
    i: int,
    c: int,
) -> bool {
    let n = size(nodes, i);
    &&& 0 <= i < c < nodes.len()
    &&& nodes[i].subtree_end <= c
    &&& nodes[c].subtree_end <= nodes.len()
    &&& me.len() == nodes.len()
    &&& n == size(nodes, c)
    &&& me[c] is Some
    &&& me[c]->0 is Unchanged
    &&& peer_of(me[c]) + n <= peer_len
    &&& all_novel(me, i, c - i)
    &&& all_unchanged(me, c, n, peer_of(me[c]) as int)
    &&& subtree_eq(nodes, i, nodes, c)
}

/// The first slider among the siblings from `c` up to `hi`, as the pair
/// of the first sibling of the run and the sibling after the run. `run`
/// is the first sibling of the run that `c` continues or ends, if that
/// run follows a matched sibling; `prev` tells whether the sibling before
/// `c` is novel, and is `None` where `c` is the first.
pub open spec fn scan(
    nodes: Seq<NodeView>,
    me: Seq<Option<ChangeKind>>,
    peer_len: int,
    c: int,
    hi: int,
    run: Option<int>,
    prev: Option<bool>,
) -> Option<(int, int)>
    decreases hi - c,
{
    if c < 0 || c >= hi || !(c < nodes[c].subtree_end <= hi) {
        None
    } else if novel_at(me, c) {
        let run2 = if run is Some {
            run
        } else if prev == Some(false) {
            Some(c)
        } else {
            None
        };
        scan(nodes, me, peer_len, nodes[c].subtree_end as int, hi, run2, Some(true))
    } else if run is Some && slidable_pair(nodes, me, peer_len, run->0, c) {
        Some((run->0, c))
    } else {
        scan(nodes, me, peer_len, nodes[c].subtree_end as int, hi, None, Some(false))
    }
}

/// The first slider among the children of the lists from node `l` on.
pub open spec fn find_in_lists(
    nodes: Seq<NodeView>,
    me: Seq<Option<ChangeKind>>,
    peer_len: int,
    l: int,
) -> Option<(int, int)>
    decreases nodes.len() - l,
{
    if l < 0 || l >= nodes.len() {
        None
    } else {
        let here = if nodes[l].kind is List {
            scan(nodes, me, peer_len, l + 1, nodes[l].subtree_end as int, None, None)
        } else {
            None
        };
        if here is Some {
            here
        } else {
            find_in_lists(nodes, me, peer_len, l + 1)
        }
    }
}

/// The first slider of a tree: among the top-level nodes, or else among
/// the children of the first list that has one.
pub open spec fn find_slide(nodes: Seq<NodeView>, me: Seq<Option<ChangeKind>>, peer_len: int) -> Option<
    (int, int),
> {
    let top = scan(nodes, me, peer_len, 0, nodes.len() as int, None, None);
    if top is Some {
        top
    } else {
        find_in_lists(nodes, me, peer_len, 0)
    }
}

/// The entries of the side that is being corrected, after the slide of
/// the pair `(i, c)`: the subtree at `i` takes over the peers of the
/// subtree at `c`, which becomes novel.
pub open spec fn slid_me(nodes: Seq<NodeView>, me: Seq<Option<ChangeKind>>, i: int, c: int) -> Seq<
    Option<ChangeKind>,
> {
    let n = size(nodes, i);
    let p = peer_of(me[c]);
    Seq::new(
        me.len(),
        |k: int|
            if i <= k < i + n {
                Some(ChangeKind::Unchanged((p + (k - i)) as usize))
            } else if c <= k < c + n {
                Some(ChangeKind::Novel)
            } else {
                me[k]
            },
    )
}

/// The entries of the other side after the slide of the pair `(i, c)`:
/// the peers now point to the subtree at `i`.
pub open spec fn slid_peer(
    nodes: Seq<NodeView>,
    me: Seq<Option<ChangeKind>>,
    peer: Seq<Option<ChangeKind>>,
    i: int,
    c: int,
) -> Seq<Option<ChangeKind>> {
    let n = size(nodes, i);
    let p = peer_of(me[c]);
    Seq::new(
        peer.len(),
        |k: int|
            if p <= k < p + n {
                Some(ChangeKind::Unchanged((i + (k - p)) as usize))
            } else {
                peer[k]
            },
    )
}

/// The weight of the novel nodes among the first `k`: a novel node
/// weighs the more the further it stands from the end.
pub open spec fn weight(me: Seq<Option<ChangeKind>>, k: int) -> int
    decreases k,
{
    if k <= 0 {
        0
    } else {
        weight(me, k - 1) + if novel_at(me, k - 1) {
            me.len() - (k - 1)
        } else {
            0
        }
    }
}

/// The sum of `len - a - t` over `t` below `cnt`.
spec fn ramp(len: int, a: int, cnt: int) -> int
    decreases cnt,
{
    if cnt <= 0 {
        0
    } else {
        ramp(len, a, cnt - 1) + (len - a - (cnt - 1))
    }
}

spec fn clamp(x: int, n: int) -> int {
    if x < 0 {
        0
    } else if x > n {
        n
    } else {
        x
    }
}

proof fn lemma_ramp_less(len: int, i: int, c: int, cnt: int)
    requires
        i < c,
        0 <= cnt,
    ensures
        ramp(len, c, cnt) <= ramp(len, i, cnt),
        cnt >= 1 ==> ramp(len, c, cnt) < ramp(len, i, cnt),
    decreases cnt,
{
    if cnt > 0 {
        lemma_ramp_less(len, i, c, cnt - 1);
    }
}

#[verifier::rlimit(40)]
proof fn lemma_weight_diff(
    nodes: Seq<NodeView>,
    me: Seq<Option<ChangeKind>>,
    peer_len: int,
    i: int,
    c: int,
    k: int,
)
    requires
        slidable_pair(nodes, me, peer_len, i, c),
        0 <= k <= me.len(),
        0 < size(nodes, i),
    ensures
        weight(slid_me(nodes, me, i, c), k) - weight(me, k) == ramp(
            me.len() as int,
            c,
            clamp(k - c, size(nodes, i)),
        ) - ramp(me.len() as int, i, clamp(k - i, size(nodes, i))),
    decreases k,
{
    if k > 0 {
        lemma_weight_diff(nodes, me, peer_len, i, c, k - 1);
        let n = size(nodes, i);
        let t = k - 1;
        let after = slid_me(nodes, me, i, c);
        assert(after.len() == me.len());
        if i <= t < i + n {
            assert(novel_at(me, i + (t - i)));
            assert(!novel_at(after, t));
        } else if c <= t < c + n {
            assert(me[c + (t - c)] == Some(ChangeKind::Unchanged((peer_of(me[c]) + (t - c)) as usize)));
            assert(novel_at(after, t));
        } else {
            assert(after[t] == me[t]);
        }
    }
}

/// A slide makes the novel nodes weigh less.
pub proof fn lemma_slide_decreases(
    nodes: Seq<NodeView>,
    me: Seq<Option<ChangeKind>>,
    peer_len: int,
    i: int,
    c: int,
)
    requires
        slidable_pair(nodes, me, peer_len, i, c),
        0 < size(nodes, i),
    ensures
        0 <= weight(slid_me(nodes, me, i, c), me.len() as int) < weight(me, me.len() as int),
{
    lemma_weight_diff(nodes, me, peer_len, i, c, me.len() as int);
    lemma_ramp_less(me.len() as int, i, c, size(nodes, i));
    lemma_weight_nonneg(slid_me(nodes, me, i, c), me.len() as int);
}

proof fn lemma_weight_nonneg(me: Seq<Option<ChangeKind>>, k: int)
    requires
        k <= me.len(),
    ensures
        0 <= weight(me, k),
    decreases k,
{
    if k > 0 {
        lemma_weight_nonneg(me, k - 1);
    }
}

/// What `scan` finds is a pair that can slide.
pub proof fn lemma_scan_sound(
    nodes: Seq<NodeView>,
    me: Seq<Option<ChangeKind>>,
    peer_len: int,
    c: int,
    hi: int,
    run: Option<int>,
    prev: Option<bool>,
)
    ensures
        scan(nodes, me, peer_len, c, hi, run, prev) matches Some(s) ==> slidable_pair(
            nodes,
            me,
            peer_len,
            s.0,
            s.1,
        ),
    decreases hi - c,
{
    if c < 0 || c >= hi || !(c < nodes[c].subtree_end <= hi) {
    } else if novel_at(me, c) {
        let run2 = if run is Some {
            run
        } else if prev == Some(false) {
            Some(c)
        } else {
            None
        };
        lemma_scan_sound(nodes, me, peer_len, nodes[c].subtree_end as int, hi, run2, Some(true));
    } else if run is Some && slidable_pair(nodes, me, peer_len, run->0, c) {
    } else {
        lemma_scan_sound(nodes, me, peer_len, nodes[c].subtree_end as int, hi, None, Some(false));
    }
}

/// What `find_slide` finds is a pair that can slide.
pub proof fn lemma_find_sound(nodes: Seq<NodeView>, me: Seq<Option<ChangeKind>>, peer_len: int)
    ensures
        find_slide(nodes, me, peer_len) matches Some(s) ==> slidable_pair(
            nodes,
            me,
            peer_len,
            s.0,
            s.1,
        ),
{
    lemma_scan_sound(nodes, me, peer_len, 0, nodes.len() as int, None, None);
    lemma_lists_sound(nodes, me, peer_len, 0);
}

proof fn lemma_lists_sound(nodes: Seq<NodeView>, me: Seq<Option<ChangeKind>>, peer_len: int, l: int)
    ensures
        find_in_lists(nodes, me, peer_len, l) matches Some(s) ==> slidable_pair(
            nodes,
            me,
            peer_len,
            s.0,
            s.1,
        ),
    decreases nodes.len() - l,
{
    if 0 <= l < nodes.len() {
        if nodes[l].kind is List {
            lemma_scan_sound(nodes, me, peer_len, l + 1, nodes[l].subtree_end as int, None, None);
        }
        lemma_lists_sound(nodes, me, peer_len, l + 1);
    }
}

/// The two sides of a change map after slider correction of the side
/// `me`: slides are carried out, the first one first, until none is left.
pub open spec fn fix_spec(
    nodes: Seq<NodeView>,
    me: Seq<Option<ChangeKind>>,
    peer: Seq<Option<ChangeKind>>,
) -> (Seq<Option<ChangeKind>>, Seq<Option<ChangeKind>>)
    decreases weight(me, me.len() as int),
{
    match find_slide(nodes, me, peer.len() as int) {
        Some((i, c)) => {
            if 0 < size(nodes, i) {
                proof {
                    lemma_find_sound(nodes, me, peer.len() as int);
                    lemma_slide_decreases(nodes, me, peer.len() as int, i, c);
                }
                fix_spec(nodes, slid_me(nodes, me, i, c), slid_peer(nodes, me, peer, i, c))
            } else {
                (me, peer)
            }
        },
        None => (me, peer),
    }
}

/// No slider is left.
pub open spec fn stable(nodes: Seq<NodeView>, me: Seq<Option<ChangeKind>>, peer_len: int) -> bool {
    find_slide(nodes, me, peer_len) is None
}

/// Slider correction leaves no slider.
pub proof fn lemma_fix_stable(
    nodes: Seq<NodeView>,
    me: Seq<Option<ChangeKind>>,
    peer: Seq<Option<ChangeKind>>,
)
    requires
        shape_ok(nodes),
    ensures
        stable(nodes, fix_spec(nodes, me, peer).0, fix_spec(nodes, me, peer).1.len() as int),
        fix_spec(nodes, me, peer).1.len() == peer.len(),
    decreases weight(me, me.len() as int),
{
    match find_slide(nodes, me, peer.len() as int) {
        Some((i, c)) => {
            lemma_find_sound(nodes, me, peer.len() as int);
            assert(0 < size(nodes, i));
            lemma_slide_decreases(nodes, me, peer.len() as int, i, c);
            lemma_fix_stable(nodes, slid_me(nodes, me, i, c), slid_peer(nodes, me, peer, i, c));
        },
        None => {},
    }
}

/// Slider correction is idempotent: applied twice, it yields the same
/// change map as applied once.
pub proof fn lemma_fix_idempotent(
    nodes: Seq<NodeView>,
    me: Seq<Option<ChangeKind>>,
    peer: Seq<Option<ChangeKind>>,
)
    requires
        shape_ok(nodes),
    ensures
        ({
            let once = fix_spec(nodes, me, peer);
            fix_spec(nodes, once.0, once.1) == once
        }),
{
    lemma_fix_stable(nodes, me, peer);
}

fn is_novel(me: &Vec<Option<ChangeKind>>, i: usize) -> (res: bool)
    requires
        i < me@.len(),
    ensures
        res == novel_at(me@, i as int),
{
    match me[i] {
        None => true,
        Some(ChangeKind::Novel) => true,
        _ => false,
    }
}

fn check_all_novel(me: &Vec<Option<ChangeKind>>, i: usize, n: usize) -> (res: bool)
    requires
        i + n <= me@.len(),
    ensures
        res == all_novel(me@, i as int, n as int),
{
    let mut k: usize = 0;
    let len = me.len();
    while k < n
        invariant
            i + n <= me@.len() == len,
            k <= n,
            forall|m: int| 0 <= m < k ==> novel_at(me@, #[trigger] (i + m)),
        decreases n - k,
    {
        if !is_novel(me, i + k) {
            assert(!novel_at(me@, i + k));
            return false;
        }
        k += 1;
    }
    true
}

fn check_all_unchanged(me: &Vec<Option<ChangeKind>>, c: usize, n: usize, p: usize) -> (res: bool)
    requires
        c + n <= me@.len(),
        p + n <= usize::MAX,
    ensures
        res == all_unchanged(me@, c as int, n as int, p as int),
{
    let mut k: usize = 0;
    let len = me.len();
    while k < n
        invariant
            c + n <= me@.len() == len,
            p + n <= usize::MAX,
            k <= n,
            forall|m: int|
                0 <= m < k ==> me@[#[trigger] (c + m)] == Some(
                    ChangeKind::Unchanged((p + m) as usize),
                ),
        decreases n - k,
    {
        let good = match me[c + k] {
            Some(ChangeKind::Unchanged(q)) => q == p + k,
            _ => false,
        };
        if !good {
            assert(me@[c + k] != Some(ChangeKind::Unchanged((p + k) as usize)));
            return false;
        }
        k += 1;
    }
    true
}

/// Whether the subtrees at `i` and at `c` can change roles.
fn check_slidable(tree: &Syntax, me: &Vec<Option<ChangeKind>>, peer_len: usize, i: usize, c: usize)
    -> (res: bool)
    requires
        tree.wf(),
        me@.len() == tree@.len(),
        i < c < tree@.len(),
    ensures
        res == slidable_pair(tree@, me@, peer_len as int, i as int, c as int),
{
    let n = tree.nodes[i].subtree_end - i;
    if tree.nodes[i].subtree_end > c || tree.nodes[c].subtree_end - c != n {
        return false;
    }
    let p = match me[c] {
        Some(ChangeKind::Unchanged(p)) => p,
        _ => {
            return false;
        },
    };
    if p > peer_len || n > peer_len - p {
        return false;
    }
    check_all_novel(me, i, c - i) && check_all_unchanged(me, c, n, p) && tree.content_eq(i, tree, c)
}

/// An optional index as an optional integer.
pub open spec fn as_int(o: Option<usize>) -> Option<int> {
    match o {
        Some(x) => Some(x as int),
        None => None,
    }
}

/// A pair of indices as a pair of integers.
pub open spec fn pair_as_int(o: Option<(usize, usize)>) -> Option<(int, int)> {
    match o {
        Some(x) => Some((x.0 as int, x.1 as int)),
        None => None,
    }
}

/// The first slider among the siblings of the range `lo..hi`.
fn scan_list(tree: &Syntax, me: &Vec<Option<ChangeKind>>, peer_len: usize, lo: usize, hi: usize)
    -> (res: Option<(usize, usize)>)
    requires
        tree.wf(),
        me@.len() == tree@.len(),
        range_ok(tree@, lo as int, hi as int),
    ensures
        pair_as_int(res) == scan(
            tree@,
            me@,
            peer_len as int,
            lo as int,
            hi as int,
            None,
            None,
        ),
{
    let mut c = lo;
    let mut run: Option<usize> = None;
    let mut prev: Option<bool> = None;
    while c < hi
        invariant
            tree.wf(),
            me@.len() == tree@.len(),
            range_ok(tree@, lo as int, hi as int),
            lo <= c <= hi,
            run matches Some(i) ==> i < c,
            scan(tree@, me@, peer_len as int, lo as int, hi as int, None, None) == scan(
                tree@,
                me@,
                peer_len as int,
                c as int,
                hi as int,
                as_int(run),
                prev,
            ),
        decreases hi - c,
    {
        if is_novel(me, c) {
            if run.is_none() {
                match prev {
                    Some(false) => {
                        run = Some(c);
                    },
                    _ => {},
                }
            }
            prev = Some(true);
        } else {
            match run {
                Some(i) => {
                    if check_slidable(tree, me, peer_len, i, c) {
                        return Some((i, c));
                    }
                },
                None => {},
            }
            run = None;
            prev = Some(false);
        }
        c = tree.nodes[c].subtree_end;
    }
    None
}

/// The first slider of the tree.
fn find(tree: &Syntax, me: &Vec<Option<ChangeKind>>, peer_len: usize) -> (res: Option<(usize, usize)>)
    requires
        tree.wf(),
        me@.len() == tree@.len(),
    ensures
        pair_as_int(res) == find_slide(tree@, me@, peer_len as int),
{
    let n = tree.nodes.len();
    match scan_list(tree, me, peer_len, 0, n) {
        Some(s) => {
            return Some(s);
        },
        None => {},
    }
    let mut l: usize = 0;
    while l < n
        invariant
            n == tree@.len(),
            tree.wf(),
            me@.len() == tree@.len(),
            l <= n,
            scan(tree@, me@, peer_len as int, 0, n as int, None, None) is None,
            find_in_lists(tree@, me@, peer_len as int, 0) == find_in_lists(
                tree@,
                me@,
                peer_len as int,
                l as int,
            ),
        decreases n - l,
    {
        if tree.nodes[l].is_list() {
            match scan_list(tree, me, peer_len, l + 1, tree.nodes[l].subtree_end) {
                Some(s) => {
                    return Some(s);
                },
                None => {},
            }
        }
        l += 1;
    }
    None
}

/// Entries in which the first `k` nodes of the two subtrees have changed
/// roles.
spec fn part_slid_me(me: Seq<Option<ChangeKind>>, i: int, c: int, p: int, k: int) -> Seq<
    Option<ChangeKind>,
> {
    Seq::new(
        me.len(),
        |x: int|
            if i <= x < i + k {
                Some(ChangeKind::Unchanged((p + (x - i)) as usize))
            } else if c <= x < c + k {
                Some(ChangeKind::Novel)
            } else {
                me[x]
            },
    )
}

spec fn part_slid_peer(peer: Seq<Option<ChangeKind>>, i: int, p: int, k: int) -> Seq<
    Option<ChangeKind>,
> {
    Seq::new(
        peer.len(),
        |x: int|
            if p <= x < p + k {
                Some(ChangeKind::Unchanged((i + (x - p)) as usize))
            } else {
                peer[x]
            },
    )
}

/// Carry out the slide of the pair `(i, c)`.
fn slide(
    tree: &Syntax,
    me: &mut Vec<Option<ChangeKind>>,
    peer: &mut Vec<Option<ChangeKind>>,
    i: usize,
    c: usize,
)
    requires
        tree.wf(),
        slidable_pair(tree@, old(me)@, old(peer)@.len() as int, i as int, c as int),
    ensures
        final(me)@ == slid_me(tree@, old(me)@, i as int, c as int),
        final(peer)@ == slid_peer(tree@, old(me)@, old(peer)@, i as int, c as int),
{
    let n = tree.nodes[i].subtree_end - i;
    let p = match me[c] {
        Some(ChangeKind::Unchanged(p)) => p,
        _ => 0,
    };
    let ghost me0 = me@;
    let ghost peer0 = peer@;
    let me_len = me.len();
    let peer_len = peer.len();
    let mut k: usize = 0;
    assert(me@ =~= part_slid_me(me0, i as int, c as int, p as int, 0));
    assert(peer@ =~= part_slid_peer(peer0, i as int, p as int, 0));
    while k < n
        invariant
            k <= n,
            i + n <= c,
            c + n <= me0.len(),
            p + n <= peer0.len(),
            me0.len() <= usize::MAX,
            peer0.len() <= usize::MAX,
            me@ == part_slid_me(me0, i as int, c as int, p as int, k as int),
            peer@ == part_slid_peer(peer0, i as int, p as int, k as int),
        decreases n - k,
    {
        me.set(i + k, Some(ChangeKind::Unchanged(p + k)));
        me.set(c + k, Some(ChangeKind::Novel));
        peer.set(p + k, Some(ChangeKind::Unchanged(i + k)));
        assert(me@ =~= part_slid_me(me0, i as int, c as int, p as int, k + 1));
        assert(peer@ =~= part_slid_peer(peer0, i as int, p as int, k + 1));
        k += 1;
    }
    assert(me@ =~= slid_me(tree@, me0, i as int, c as int));
    assert(peer@ =~= slid_peer(tree@, me0, peer0, i as int, c as int));
}

/// Correct the sliders of one side: `me` holds the entries of the side
/// that `tree` belongs to, `peer` those of the other side.
pub fn fix_sliders(
    tree: &Syntax,
    me: &mut Vec<Option<ChangeKind>>,
    peer: &mut Vec<Option<ChangeKind>>,
)
    requires
        tree.wf(),
        old(me)@.len() == tree@.len(),
    ensures
        (final(me)@, final(peer)@) == fix_spec(tree@, old(me)@, old(peer)@),
        stable(tree@, final(me)@, final(peer)@.len() as int),
        final(me)@.len() == old(me)@.len(),
        final(peer)@.len() == old(peer)@.len(),
{
    let peer_len = peer.len();
    loop
        invariant
            tree.wf(),
            me@.len() == tree@.len(),
            peer@.len() == peer_len,
            fix_spec(tree@, old(me)@, old(peer)@) == fix_spec(tree@, me@, peer@),
        ensures
            (me@, peer@) == fix_spec(tree@, old(me)@, old(peer)@),
            stable(tree@, me@, peer@.len() as int),
            me@.len() == tree@.len(),
            peer@.len() == peer_len,
        decreases weight(me@, me@.len() as int),
    {
        match find(tree, me, peer_len) {
            None => {
                break ;
            },
            Some((i, c)) => {
                proof {
                    lemma_find_sound(tree@, me@, peer_len as int);
                    lemma_slide_decreases(tree@, me@, peer_len as int, i as int, c as int);
                }
                slide(tree, me, peer, i, c);
            },
        }
    }
}

/// One of the two sides of a comparison.
#[derive(Debug, Copy, Clone, PartialEq, Eq, Structural)]
pub enum Side {
    Lhs,
    Rhs,
}

/// The change map after slider correction of the given side.
pub open spec fn fix_side_spec(nodes: Seq<NodeView>, m: ChangeMapView, side: Side) -> ChangeMapView {
    match side {
        Side::Lhs => {
            let (me, peer) = fix_spec(nodes, m.lhs, m.rhs);
            ChangeMapView { lhs: me, rhs: peer }
        },
        Side::Rhs => {
            let (me, peer) = fix_spec(nodes, m.rhs, m.lhs);
            ChangeMapView { lhs: peer, rhs: me }
        },
    }
}

/// Correct the sliders of one side of the change map; `tree` is the tree
/// of that side.
pub fn fix_all_sliders(tree: &Syntax, side: Side, change_map: &mut ChangeMap)
    requires
        tree.wf(),
        side == Side::Lhs ==> old(change_map)@.lhs.len() == tree@.len(),
        side == Side::Rhs ==> old(change_map)@.rhs.len() == tree@.len(),
    ensures
        final(change_map)@ == fix_side_spec(tree@, old(change_map)@, side),
        final(change_map)@.lhs.len() == old(change_map)@.lhs.len(),
        final(change_map)@.rhs.len() == old(change_map)@.rhs.len(),
{
    match side {
        Side::Lhs => fix_sliders(tree, &mut change_map.lhs, &mut change_map.rhs),
        Side::Rhs => fix_sliders(tree, &mut change_map.rhs, &mut change_map.lhs),
    }
}

/// Slider correction of a side is idempotent: a second application
/// changes nothing.
pub proof fn lemma_fix_all_sliders_idempotent(nodes: Seq<NodeView>, m: ChangeMapView, side: Side)
    requires
        shape_ok(nodes),
    ensures
        fix_side_spec(nodes, fix_side_spec(nodes, m, side), side) == fix_side_spec(nodes, m, side),
{
    match side {
        Side::Lhs => lemma_fix_idempotent(nodes, m.lhs, m.rhs),
        Side::Rhs => lemma_fix_idempotent(nodes, m.rhs, m.lhs),
    }
}

/// The entries of the two sides name each other in pairs that fit.
pub open spec fn paired(
    me: Seq<Option<ChangeKind>>,
    my_nodes: Seq<NodeView>,
    peer: Seq<Option<ChangeKind>>,
    peer_nodes: Seq<NodeView>,
) -> bool {
    &&& me.len() == my_nodes.len()
    &&& peer.len() == peer_nodes.len()
    &&& forall|i: int| 0 <= i < me.len() ==> #[trigger] entry_ok(me, my_nodes, peer, peer_nodes, i)
    &&& forall|j: int|
        0 <= j < peer.len() ==> #[trigger] entry_ok(peer, peer_nodes, me, my_nodes, j)
}

/// Node `k` of the sliding pair: the unchanged node `c + k` and its peer
/// `p + k` name each other and carry labels equal to that of the novel
/// node `i + k`.
spec fn pair_at(
    nodes: Seq<NodeView>,
    other: Seq<NodeView>,
    peer: Seq<Option<ChangeKind>>,
    i: int,
    c: int,
    p: int,
    k: int,
) -> bool {
    &&& peer[p + k] == Some(ChangeKind::Unchanged((c + k) as usize))
    &&& label_eq(nodes[c + k], other[p + k])
    &&& label_eq(nodes[i + k], nodes[c + k])
}

/// A slide keeps the entries paired.
#[verifier::rlimit(40)]
pub proof fn lemma_slide_paired(
    nodes: Seq<NodeView>,
    other: Seq<NodeView>,
    me: Seq<Option<ChangeKind>>,
    peer: Seq<Option<ChangeKind>>,
    i: int,
    c: int,
)
    requires
        nodes.len() <= usize::MAX,
        other.len() <= usize::MAX,
        paired(me, nodes, peer, other),
        slidable_pair(nodes, me, peer.len() as int, i, c),
    ensures
        paired(slid_me(nodes, me, i, c), nodes, slid_peer(nodes, me, peer, i, c), other),
{
    let n = size(nodes, i);
    let p = peer_of(me[c]) as int;
    let me2 = slid_me(nodes, me, i, c);
    let peer2 = slid_peer(nodes, me, peer, i, c);
    assert forall|k: int| 0 <= k < n implies #[trigger] pair_at(nodes, other, peer, i, c, p, k) by {
        assert(me[c + k] == Some(ChangeKind::Unchanged((p + k) as usize)));
        assert(entry_ok(me, nodes, peer, other, c + k));
        assert(node_match_at(nodes, i, nodes, c, k));
    }
    assert forall|x: int| 0 <= x < me2.len() implies #[trigger] entry_ok(
        me2,
        nodes,
        peer2,
        other,
        x,
    ) by {
        if i <= x < i + n {
            assert(pair_at(nodes, other, peer, i, c, p, x - i));
        } else if c <= x < c + n {
        } else {
            assert(entry_ok(me, nodes, peer, other, x));
            match me[x] {
                Some(ChangeKind::Unchanged(y)) => {
                    if p <= y < p + n {
                        assert(pair_at(nodes, other, peer, i, c, p, y - p));
                    }
                },
                Some(ChangeKind::ReplacedComment(y)) => {
                    if p <= y < p + n {
                        assert(pair_at(nodes, other, peer, i, c, p, y - p));
                    }
                },
                _ => {},
            }
        }
    }
    assert forall|y: int| 0 <= y < peer2.len() implies #[trigger] entry_ok(
        peer2,
        other,
        me2,
        nodes,
        y,
    ) by {
        if p <= y < p + n {
            assert(pair_at(nodes, other, peer, i, c, p, y - p));
        } else {
            assert(entry_ok(peer, other, me, nodes, y));
            match peer[y] {
                Some(ChangeKind::Unchanged(x)) => {
                    if i <= x < i + n {
                        assert(novel_at(me, i + (x - i)));
                    }
                    if c <= x < c + n {
                        assert(me[c + (x - c)] == Some(
                            ChangeKind::Unchanged((p + (x - c)) as usize),
                        ));
                    }
                },
                Some(ChangeKind::ReplacedComment(x)) => {
                    if i <= x < i + n {
                        assert(novel_at(me, i + (x - i)));
                    }
                    if c <= x < c + n {
                        assert(me[c + (x - c)] == Some(
                            ChangeKind::Unchanged((p + (x - c)) as usize),
                        ));
                    }
                },
                _ => {},
            }
        }
    }
}

/// Slider correction keeps the entries paired.
pub proof fn lemma_fix_paired(
    nodes: Seq<NodeView>,
    other: Seq<NodeView>,
    me: Seq<Option<ChangeKind>>,
    peer: Seq<Option<ChangeKind>>,
)
    requires
        shape_ok(nodes),
        nodes.len() <= usize::MAX,
        other.len() <= usize::MAX,
        paired(me, nodes, peer, other),
    ensures
        paired(fix_spec(nodes, me, peer).0, nodes, fix_spec(nodes, me, peer).1, other),
    decreases weight(me, me.len() as int),
{
    match find_slide(nodes, me, peer.len() as int) {
        Some((i, c)) => {
            lemma_find_sound(nodes, me, peer.len() as int);
            assert(0 < size(nodes, i));
            lemma_slide_decreases(nodes, me, peer.len() as int, i, c);
            lemma_slide_paired(nodes, other, me, peer, i, c);
            lemma_fix_paired(
                nodes,
                other,
                slid_me(nodes, me, i, c),
                slid_peer(nodes, me, peer, i, c),
            );
        },
        None => {},
    }
}

/// Slider correction of either side keeps the change map consistent.
pub proof fn lemma_fix_side_consistent(
    lt: Seq<NodeView>,
    rt: Seq<NodeView>,
    m: ChangeMapView,
    side: Side,
)
    requires
        shape_ok(lt),
        shape_ok(rt),
        lt.len() <= usize::MAX,
        rt.len() <= usize::MAX,
        m.consistent(lt, rt),
    ensures
        side == Side::Lhs ==> fix_side_spec(lt, m, side).consistent(lt, rt),
        side == Side::Rhs ==> fix_side_spec(rt, m, side).consistent(lt, rt),
{
    match side {
        Side::Lhs => lemma_fix_paired(lt, rt, m.lhs, m.rhs),
        Side::Rhs => lemma_fix_paired(rt, lt, m.rhs, m.lhs),
    }
}

} // verus!
