//! The change map: what the comparison has found out about each node.

use vstd::prelude::*;
use crate::syntax::{AtomKind, NodeKind, label_eq, NodeView};

verus! {

/// What happened to a node between the two versions. A matched node
/// names its peer: the node of the other side that it corresponds to.
#[derive(Debug, Copy, Clone, PartialEq, Eq, Structural)]
pub enum ChangeKind {
    Unchanged(usize),
    ReplacedComment(usize),
    Novel,
}

/// For each node of either side, what is known of it; `None` where
/// nothing has been assigned, which readers take as novel.
#[derive(Debug)]
pub struct ChangeMap {
    pub lhs: Vec<Option<ChangeKind>>,
    pub rhs: Vec<Option<ChangeKind>>,
}

/// A change map as two plain sequences.
pub struct ChangeMapView {
    pub lhs: Seq<Option<ChangeKind>>,
    pub rhs: Seq<Option<ChangeKind>>,
}

impl View for ChangeMap {
    type V = ChangeMapView;

    open spec fn view(&self) -> ChangeMapView {
        ChangeMapView { lhs: self.lhs@, rhs: self.rhs@ }
    }
}

/// Entry `i` of `from` names a peer that exists, names `i` in return and
/// fits it: unchanged peers carry equal labels, and a replaced comment
/// stands against a comment.
pub open spec fn entry_ok(
    from: Seq<Option<ChangeKind>>,
    from_nodes: Seq<NodeView>,
    to: Seq<Option<ChangeKind>>,
    to_nodes: Seq<NodeView>,
    i: int,
) -> bool {
    match from[i] {
        Some(ChangeKind::Unchanged(j)) => {
            &&& j < to.len()
            &&& to[j as int] == Some(ChangeKind::Unchanged(i as usize))
            &&& label_eq(from_nodes[i], to_nodes[j as int])
        },
        Some(ChangeKind::ReplacedComment(j)) => {
            &&& j < to.len()
            &&& to[j as int] == Some(ChangeKind::ReplacedComment(i as usize))
            &&& from_nodes[i].kind == NodeKind::Atom(AtomKind::Comment)
            &&& to_nodes[j as int].kind == NodeKind::Atom(AtomKind::Comment)
        },
        _ => true,
    }
}

impl ChangeMapView {
    /// The map has an entry for every node of both trees.
    pub open spec fn fits(self, lhs: Seq<NodeView>, rhs: Seq<NodeView>) -> bool {
        self.lhs.len() == lhs.len() && self.rhs.len() == rhs.len()
    }

    /// The matched nodes are matched in pairs, each with a peer that fits.
    pub open spec fn consistent(self, lhs: Seq<NodeView>, rhs: Seq<NodeView>) -> bool {
        &&& self.fits(lhs, rhs)
        &&& forall|i: int|
            0 <= i < lhs.len() ==> #[trigger] entry_ok(self.lhs, lhs, self.rhs, rhs, i)
        &&& forall|j: int|
            0 <= j < rhs.len() ==> #[trigger] entry_ok(self.rhs, rhs, self.lhs, lhs, j)
    }

    /// The empty map for trees of the given sizes.
    pub open spec fn unassigned(lhs_len: nat, rhs_len: nat) -> ChangeMapView {
        ChangeMapView {
            lhs: Seq::new(lhs_len, |i: int| None),
            rhs: Seq::new(rhs_len, |i: int| None),
        }
    }
}

fn unassigned_entries(n: usize) -> (res: Vec<Option<ChangeKind>>)
    ensures
        res@ == Seq::new(n as nat, |i: int| None::<ChangeKind>),
{
    let mut out: Vec<Option<ChangeKind>> = Vec::new();
    let mut i: usize = 0;
    while i < n
        invariant
            i <= n,
            out@ == Seq::new(i as nat, |k: int| None::<ChangeKind>),
        decreases n - i,
    {
        out.push(None);
        assert(out@ =~= Seq::new((i + 1) as nat, |k: int| None::<ChangeKind>));
        i += 1;
    }
    out
}

impl ChangeMap {
    /// A map in which nothing is assigned yet.
    pub fn new(lhs_len: usize, rhs_len: usize) -> (res: Self)
        ensures
            res@ == ChangeMapView::unassigned(lhs_len as nat, rhs_len as nat),
    {
        ChangeMap { lhs: unassigned_entries(lhs_len), rhs: unassigned_entries(rhs_len) }
    }

    /// What is known of node `id` of the left side.
    pub fn get_lhs(&self, id: usize) -> (res: Option<ChangeKind>)
        requires
            id < self@.lhs.len(),
        ensures
            res == self@.lhs[id as int],
    {
        self.lhs[id]
    }

    /// What is known of node `id` of the right side.
    pub fn get_rhs(&self, id: usize) -> (res: Option<ChangeKind>)
        requires
            id < self@.rhs.len(),
        ensures
            res == self@.rhs[id as int],
    {
        self.rhs[id]
    }
}

/// The entries `from..from + n` marked as unchanged, entry `from + k`
/// with the peer `peer + k`.
pub open spec fn mark_range(s: Seq<Option<ChangeKind>>, from: int, n: int, peer: int) -> Seq<
    Option<ChangeKind>,
> {
    Seq::new(
        s.len(),
        |i: int|
            if from <= i < from + n {
                Some(ChangeKind::Unchanged((peer + (i - from)) as usize))
            } else {
                s[i]
            },
    )
}

/// Mark the entries `from..from + n` as unchanged, entry `from + k` with
/// the peer `peer + k`.
pub fn mark_unchanged_range(entries: &mut Vec<Option<ChangeKind>>, from: usize, n: usize, peer: usize)
    requires
        from + n <= old(entries)@.len(),
        peer + n <= usize::MAX,
    ensures
        final(entries)@ == mark_range(old(entries)@, from as int, n as int, peer as int),
{
    let ghost before = entries@;
    let len = entries.len();
    let mut k: usize = 0;
    assert(entries@ =~= mark_range(before, from as int, 0, peer as int));
    while k < n
        invariant
            k <= n,
            from + n <= before.len() <= usize::MAX,
            peer + n <= usize::MAX,
            entries@ == mark_range(before, from as int, k as int, peer as int),
        decreases n - k,
    {
        entries.set(from + k, Some(ChangeKind::Unchanged(peer + k)));
        assert(entries@ =~= mark_range(before, from as int, k + 1, peer as int));
        k += 1;
    }
}

} // verus!
