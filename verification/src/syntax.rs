//! The syntax model: a uniform tree of lists and atoms, held as a flat
//! vector of nodes in document order.
//!
//! A node's identity is its index in the vector. The subtree of node `i`
//! occupies the indices from `i` up to, but not including, its
//! `subtree_end`: the first child of a list is the next index, and the next
//! sibling of a node is its `subtree_end`. Each side of a comparison has a
//! tree of its own, so equal content on the two sides has different
//! identities and equal fingerprints.

use vstd::prelude::*;
use crate::text::bytes_eq;

verus! {

/// What sort of token an atom is.
#[derive(Debug, Copy, Clone, PartialEq, Eq, Structural)]
pub enum AtomKind {
    Normal,
    StringLike,
    Comment,
    Keyword,
}

/// The variant of a node.
#[derive(Debug, Copy, Clone, PartialEq, Eq, Structural)]
pub enum NodeKind {
    List,
    Atom(AtomKind),
}

/// One node of a syntax tree.
#[derive(Debug)]
pub struct Node {
    pub kind: NodeKind,
    /// The literal text of an atom, or the opening delimiter of a list.
    pub text: Vec<u8>,
    /// The closing delimiter of a list; empty for an atom.
    pub close: Vec<u8>,
    /// Byte offset in the source at which `text` begins.
    pub start: usize,
    /// Byte offset in the source at which `close` begins.
    pub close_start: usize,
    /// Index just past the last descendant of this node.
    pub subtree_end: usize,
}

/// A node as plain values.
pub struct NodeView {
    pub kind: NodeKind,
    pub text: Seq<u8>,
    pub close: Seq<u8>,
    pub start: usize,
    pub close_start: usize,
    pub subtree_end: usize,
}

impl View for Node {
    type V = NodeView;

    open spec fn view(&self) -> NodeView {
        NodeView {
            kind: self.kind,
            text: self.text@,
            close: self.close@,
            start: self.start,
            close_start: self.close_start,
            subtree_end: self.subtree_end,
        }
    }
}

/// The views of a sequence of nodes.
pub open spec fn views(nodes: Seq<Node>) -> Seq<NodeView> {
    Seq::new(nodes.len(), |i: int| nodes[i]@)
}

/// Each node stands at its place among the views.
pub open spec fn bridged(nodes: Seq<Node>) -> bool {
    forall|i: int| 0 <= i < nodes.len() ==> (#[trigger] nodes[i])@ == views(nodes)[i]
}

/// The views of a sequence of nodes are as many as the nodes, each at
/// its place.
pub proof fn lemma_bridged(nodes: Seq<Node>)
    ensures
        bridged(nodes),
        views(nodes).len() == nodes.len(),
{
}

/// Whether `b` is white space.
pub open spec fn is_space(b: u8) -> bool {
    b == 32u8 || (9u8 <= b && b <= 13u8)
}

/// Whether `b` is white space.
pub fn is_space_byte(b: u8) -> (res: bool)
    ensures
        res == is_space(b),
{
    b == 32 || (9 <= b && b <= 13)
}

/// Comment text with every run of white space collapsed to one space and
/// leading and trailing white space removed.
pub open spec fn normalise_spec(s: Seq<u8>) -> Seq<u8>
    decreases s.len(),
{
    if s.len() == 0 {
        Seq::empty()
    } else {
        let head = normalise_spec(s.drop_last());
        if is_space(s.last()) {
            head
        } else if s.len() >= 2 && is_space(s[s.len() - 2]) && head.len() > 0 {
            head.push(32u8).push(s.last())
        } else {
            head.push(s.last())
        }
    }
}

/// Collapse white space in comment text.
pub fn normalise(s: &[u8]) -> (res: Vec<u8>)
    ensures
        res@ == normalise_spec(s@),
{
    let mut out: Vec<u8> = Vec::new();
    let mut i: usize = 0;
    while i < s.len()
        invariant
            i <= s@.len(),
            out@ == normalise_spec(s@.take(i as int)),
        decreases s@.len() - i,
    {
        assert(s@.take(i + 1).drop_last() =~= s@.take(i as int));
        let b = s[i];
        if !is_space_byte(b) {
            if i >= 1 && is_space_byte(s[i - 1]) && out.len() > 0 {
                out.push(32);
            }
            out.push(b);
        }
        i += 1;
    }
    assert(s@.take(i as int) =~= s@);
    out
}

impl NodeView {
    /// The text by which this node is compared: comments compare by their
    /// normalised text, everything else byte for byte.
    pub open spec fn label_text(&self) -> Seq<u8> {
        if self.kind == NodeKind::Atom(AtomKind::Comment) {
            normalise_spec(self.text)
        } else {
            self.text
        }
    }

    /// The offset just past everything that belongs to this node.
    pub open spec fn extent_end(&self) -> int {
        self.close_start + self.close.len()
    }
}

impl Node {
    /// Whether the node is a list.
    pub fn is_list(&self) -> (res: bool)
        ensures
            res == (self@.kind is List),
    {
        match self.kind {
            NodeKind::List => true,
            NodeKind::Atom(_) => false,
        }
    }

    /// Whether the node is a comment.
    pub fn is_comment(&self) -> (res: bool)
        ensures
            res == (self@.kind == NodeKind::Atom(AtomKind::Comment)),
    {
        match self.kind {
            NodeKind::Atom(AtomKind::Comment) => true,
            _ => false,
        }
    }
}

/// Whether two nodes agree in kind, text and closing delimiter, leaving
/// their children aside.
pub open spec fn label_eq(a: NodeView, b: NodeView) -> bool {
    &&& a.kind == b.kind
    &&& a.label_text() == b.label_text()
    &&& a.close == b.close
}

/// Whether two nodes agree in kind, text and closing delimiter.
pub fn nodes_label_eq(a: &Node, b: &Node) -> (res: bool)
    ensures
        res == label_eq(a@, b@),
{
    if a.kind != b.kind {
        return false;
    }
    if !bytes_eq(a.close.as_slice(), b.close.as_slice()) {
        return false;
    }
    if a.is_comment() {
        let x = normalise(a.text.as_slice());
        let y = normalise(b.text.as_slice());
        bytes_eq(x.as_slice(), y.as_slice())
    } else {
        bytes_eq(a.text.as_slice(), b.text.as_slice())
    }
}

/// The number of nodes in the subtree of node `i`.
pub open spec fn size(nodes: Seq<NodeView>, i: int) -> int {
    nodes[i].subtree_end - i
}

/// The subtrees are laid out properly: each node's subtree is a non-empty
/// range that stays inside the vector and inside every enclosing subtree,
/// and atoms have no descendants.
pub open spec fn shape_ok(nodes: Seq<NodeView>) -> bool {
    &&& forall|i: int|
        0 <= i < nodes.len() ==> i < (#[trigger] nodes[i]).subtree_end <= nodes.len()
    &&& forall|i: int, j: int|
        0 <= i < j < nodes.len() && j < nodes[i].subtree_end ==> (#[trigger] nodes[j]).subtree_end
            <= (#[trigger] nodes[i]).subtree_end
    &&& forall|i: int|
        0 <= i < nodes.len() && (#[trigger] nodes[i]).kind is Atom ==> nodes[i].subtree_end == i
            + 1 && nodes[i].close.len() == 0
}

/// Node `i + k` of `a` and node `j + k` of `b` have equal labels and
/// subtrees of equal size.
pub open spec fn node_match_at(a: Seq<NodeView>, i: int, b: Seq<NodeView>, j: int, k: int) -> bool {
    label_eq(a[i + k], b[j + k]) && size(a, i + k) == size(b, j + k)
}

/// The subtree of node `i` of `a` and that of node `j` of `b` have the same
/// structure and the same labels throughout.
pub open spec fn subtree_eq(a: Seq<NodeView>, i: int, b: Seq<NodeView>, j: int) -> bool {
    &&& size(a, i) == size(b, j)
    &&& forall|k: int| 0 <= k < size(a, i) ==> #[trigger] node_match_at(a, i, b, j, k)
}

/// Every subtree has the same content as itself.
pub proof fn lemma_subtree_eq_refl(a: Seq<NodeView>, i: int)
    ensures
        subtree_eq(a, i, a, i),
{
}

/// Equality of content is symmetric.
pub proof fn lemma_subtree_eq_sym(a: Seq<NodeView>, i: int, b: Seq<NodeView>, j: int)
    requires
        subtree_eq(a, i, b, j),
    ensures
        subtree_eq(b, j, a, i),
{
    assert forall|k: int| 0 <= k < size(b, j) implies #[trigger] node_match_at(b, j, a, i, k) by {
        assert(node_match_at(a, i, b, j, k));
    }
}

/// Equality of content is transitive.
pub proof fn lemma_subtree_eq_trans(
    a: Seq<NodeView>,
    i: int,
    b: Seq<NodeView>,
    j: int,
    c: Seq<NodeView>,
    l: int,
)
    requires
        subtree_eq(a, i, b, j),
        subtree_eq(b, j, c, l),
    ensures
        subtree_eq(a, i, c, l),
{
    assert forall|k: int| 0 <= k < size(a, i) implies #[trigger] node_match_at(a, i, c, l, k) by {
        assert(node_match_at(a, i, b, j, k));
        assert(node_match_at(b, j, c, l, k));
    }
}

/// The node's text and closing delimiter are the bytes of `src` at the
/// node's offsets, the text before the delimiter.
pub open spec fn node_in_source(n: NodeView, src: Seq<u8>) -> bool {
    &&& n.start + n.text.len() <= n.close_start
    &&& n.close_start + n.close.len() <= src.len()
    &&& n.text == src.subrange(n.start as int, n.start + n.text.len())
    &&& n.close == src.subrange(n.close_start as int, n.close_start + n.close.len())
}

/// Nodes `i < j` stand in the source in document order: a descendant lies
/// between the text and the closing delimiter of its ancestor, and a later
/// node that is no descendant lies after everything of the earlier one.
pub open spec fn ordered_pair(nodes: Seq<NodeView>, i: int, j: int) -> bool {
    if j < nodes[i].subtree_end {
        &&& nodes[i].start + nodes[i].text.len() <= nodes[j].start
        &&& nodes[j].extent_end() <= nodes[i].close_start
    } else {
        nodes[i].extent_end() <= nodes[j].start
    }
}

/// The nodes' texts are taken from `src`, in document order and without
/// overlap.
pub open spec fn offsets_ok(nodes: Seq<NodeView>, src: Seq<u8>) -> bool {
    &&& forall|i: int| 0 <= i < nodes.len() ==> node_in_source(#[trigger] nodes[i], src)
    &&& forall|i: int, j: int| 0 <= i < j < nodes.len() ==> #[trigger] ordered_pair(nodes, i, j)
}

/// The value with which every hash begins.
pub const HASH_SEED: u64 = 0xcbf29ce484222325;

/// The factor by which the hash is multiplied at each step.
pub const HASH_PRIME: u64 = 0x100000001b3;

/// One step of the hash: fold `x` into `acc`.
pub open spec fn mix_spec(acc: u64, x: u64) -> u64 {
    (acc ^ x).wrapping_mul(HASH_PRIME)
}

/// One step of the hash: fold `x` into `acc`.
pub fn mix(acc: u64, x: u64) -> (res: u64)
    ensures
        res == mix_spec(acc, x),
{
    (acc ^ x).wrapping_mul(HASH_PRIME)
}

/// Hash of a byte string.
pub open spec fn hash_bytes_spec(s: Seq<u8>) -> u64
    decreases s.len(),
{
    if s.len() == 0 {
        HASH_SEED
    } else {
        mix_spec(hash_bytes_spec(s.drop_last()), s.last() as u64)
    }
}

/// Hash of a byte string.
pub fn hash_bytes(s: &[u8]) -> (res: u64)
    ensures
        res == hash_bytes_spec(s@),
{
    let mut acc: u64 = HASH_SEED;
    let mut i: usize = 0;
    while i < s.len()
        invariant
            i <= s@.len(),
            acc == hash_bytes_spec(s@.take(i as int)),
        decreases s@.len() - i,
    {
        assert(s@.take(i + 1).drop_last() =~= s@.take(i as int));
        acc = mix(acc, s[i] as u64);
        i += 1;
    }
    assert(s@.take(i as int) =~= s@);
    acc
}

/// A number that tells the node kinds apart.
pub open spec fn kind_tag(k: NodeKind) -> u64 {
    match k {
        NodeKind::List => 1,
        NodeKind::Atom(AtomKind::Normal) => 2,
        NodeKind::Atom(AtomKind::StringLike) => 3,
        NodeKind::Atom(AtomKind::Comment) => 4,
        NodeKind::Atom(AtomKind::Keyword) => 5,
    }
}

/// Hash of one node's label and of the size of its subtree.
pub open spec fn token_hash_spec(n: NodeView, sz: int) -> u64 {
    mix_spec(
        mix_spec(mix_spec(kind_tag(n.kind), sz as u64), hash_bytes_spec(n.label_text())),
        hash_bytes_spec(n.close),
    )
}

/// Hash of the first `n` nodes of the subtree of node `i`.
pub open spec fn fold_tokens(nodes: Seq<NodeView>, i: int, n: int) -> u64
    decreases n,
{
    if n <= 0 {
        HASH_SEED
    } else {
        mix_spec(
            fold_tokens(nodes, i, n - 1),
            token_hash_spec(nodes[i + n - 1], size(nodes, i + n - 1)),
        )
    }
}

/// The content fingerprint of node `i`: a hash over the labels and shape
/// of its whole subtree.
pub open spec fn fingerprint_spec(nodes: Seq<NodeView>, i: int) -> u64 {
    fold_tokens(nodes, i, size(nodes, i))
}

/// `fps` holds the fingerprint of every node's subtree.
pub open spec fn fingerprints_ok(nodes: Seq<NodeView>, fps: Seq<u64>) -> bool {
    &&& fps.len() == nodes.len()
    &&& forall|i: int| 0 <= i < nodes.len() ==> #[trigger] fps[i] == fingerprint_spec(nodes, i)
}

proof fn lemma_fold_tokens_eq(a: Seq<NodeView>, i: int, b: Seq<NodeView>, j: int, n: int)
    requires
        subtree_eq(a, i, b, j),
        n <= size(a, i),
    ensures
        fold_tokens(a, i, n) == fold_tokens(b, j, n),
    decreases n,
{
    if n > 0 {
        lemma_fold_tokens_eq(a, i, b, j, n - 1);
        assert(node_match_at(a, i, b, j, n - 1));
    }
}

/// Subtrees with equal content have equal fingerprints.
pub proof fn lemma_equal_content_equal_fingerprint(a: Seq<NodeView>, i: int, b: Seq<NodeView>, j: int)
    requires
        subtree_eq(a, i, b, j),
    ensures
        fingerprint_spec(a, i) == fingerprint_spec(b, j),
{
    lemma_fold_tokens_eq(a, i, b, j, size(a, i));
}

/// A syntax tree, or rather the forest of the top-level nodes of one file,
/// with what is derived from the nodes: for every node its fingerprint,
/// its parent, its previous sibling and the number of its ancestors.
#[derive(Debug)]
pub struct Syntax {
    pub nodes: Vec<Node>,
    pub fingerprints: Vec<u64>,
    pub parents: Vec<Option<usize>>,
    pub prev_siblings: Vec<Option<usize>>,
    pub num_ancestors: Vec<usize>,
}

/// Node `p` is the parent of node `j`: the innermost list that holds it.
pub open spec fn is_parent(nodes: Seq<NodeView>, p: int, j: int) -> bool {
    &&& 0 <= p < j < nodes[p].subtree_end
    &&& forall|k: int| p < k < j ==> (#[trigger] nodes[k]).subtree_end <= j
}

/// Node `j` stands at the top level: no list holds it.
pub open spec fn is_root(nodes: Seq<NodeView>, j: int) -> bool {
    forall|k: int| 0 <= k < j ==> (#[trigger] nodes[k]).subtree_end <= j
}

/// What is recorded of node `j` is true of it: its parent is its parent;
/// its previous sibling ends where it begins and has the same parent, and
/// where none is recorded the node is the first of its list; and it has
/// one ancestor more than its parent.
pub open spec fn link_ok(
    nodes: Seq<NodeView>,
    parents: Seq<Option<usize>>,
    prev: Seq<Option<usize>>,
    depth: Seq<usize>,
    j: int,
) -> bool {
    &&& match parents[j] {
        Some(p) => is_parent(nodes, p as int, j) && depth[j] == depth[p as int] + 1,
        None => is_root(nodes, j) && depth[j] == 0,
    }
    &&& match prev[j] {
        Some(q) => q < j && nodes[q as int].subtree_end == j && parents[q as int] == parents[j],
        None => match parents[j] {
            Some(p) => j == p + 1,
            None => j == 0,
        },
    }
}

/// The recorded links are true of every node.
pub open spec fn links_ok(
    nodes: Seq<NodeView>,
    parents: Seq<Option<usize>>,
    prev: Seq<Option<usize>>,
    depth: Seq<usize>,
) -> bool {
    &&& parents.len() == nodes.len()
    &&& prev.len() == nodes.len()
    &&& depth.len() == nodes.len()
    &&& forall|j: int| 0 <= j < nodes.len() ==> #[trigger] link_ok(nodes, parents, prev, depth, j)
}

/// The entered lists hold node `j`, and the parent and the number of
/// ancestors recorded for each are the list entered before it and its
/// place in the stack.
#[verifier::opaque]
spec fn frames_ok(
    nodes: Seq<NodeView>,
    parents: Seq<Option<usize>>,
    depth: Seq<usize>,
    stack: Seq<usize>,
    j: int,
) -> bool {
    forall|m: int|
        0 <= m < stack.len() ==> {
            &&& (#[trigger] stack[m]) < j <= nodes[stack[m] as int].subtree_end
            &&& stack[m] < parents.len()
            &&& stack[m] < depth.len()
            &&& depth[stack[m] as int] == m
            &&& parents[stack[m] as int] == if m > 0 {
                Some(stack[m - 1])
            } else {
                None::<usize>
            }
        }
}

/// The entered lists lie inside one another.
#[verifier::opaque]
spec fn nested(nodes: Seq<NodeView>, stack: Seq<usize>) -> bool {
    forall|m: int, n: int|
        0 <= m < n < stack.len() ==> (#[trigger] stack[m]) < (#[trigger] stack[n])
            < nodes[stack[m] as int].subtree_end
}

/// Every node before `j` is an entered list or ends before `j`.
#[verifier::opaque]
spec fn others_ended(nodes: Seq<NodeView>, stack: Seq<usize>, j: int) -> bool {
    forall|k: int|
        0 <= k < j ==> stack.contains(k as usize) || (#[trigger] nodes[k]).subtree_end <= j
}

/// What the pass over the nodes keeps true of the lists that it is
/// inside of, the innermost last, when it stands before node `j`.
spec fn inside(
    nodes: Seq<NodeView>,
    parents: Seq<Option<usize>>,
    depth: Seq<usize>,
    stack: Seq<usize>,
    j: int,
) -> bool {
    &&& frames_ok(nodes, parents, depth, stack, j)
    &&& nested(nodes, stack)
    &&& others_ended(nodes, stack, j)
}

/// The parent of the innermost entered list is the list entered before
/// it.
spec fn below_top(stack: Seq<usize>) -> Option<usize> {
    if stack.len() > 1 {
        Some(stack[stack.len() - 2])
    } else {
        None
    }
}

proof fn lemma_inside_start(nodes: Seq<NodeView>)
    ensures
        inside(nodes, Seq::empty(), Seq::empty(), Seq::empty(), 0),
{
    reveal(frames_ok);
    reveal(nested);
    reveal(others_ended);
}

/// What is known of the innermost entered list.
proof fn lemma_inside_top(
    nodes: Seq<NodeView>,
    parents: Seq<Option<usize>>,
    depth: Seq<usize>,
    stack: Seq<usize>,
    j: int,
)
    requires
        inside(nodes, parents, depth, stack, j),
        stack.len() > 0,
    ensures
        stack.last() < j <= nodes[stack.last() as int].subtree_end,
        stack.last() < parents.len(),
        stack.last() < depth.len(),
        depth[stack.last() as int] == stack.len() - 1,
        parents[stack.last() as int] == below_top(stack),
{
    reveal(frames_ok);
    assert(stack[stack.len() - 1] == stack.last());
}

/// Leaving the innermost entered list, which ends before node `j`.
#[verifier::rlimit(40)]
proof fn lemma_inside_pop(
    nodes: Seq<NodeView>,
    parents: Seq<Option<usize>>,
    depth: Seq<usize>,
    stack: Seq<usize>,
    j: int,
)
    requires
        0 <= j <= usize::MAX,
        inside(nodes, parents, depth, stack, j),
        stack.len() > 0,
        nodes[stack.last() as int].subtree_end <= j,
    ensures
        inside(nodes, parents, depth, stack.drop_last(), j),
{
    let rest = stack.drop_last();
    assert(stack[stack.len() - 1] == stack.last());
    assert(frames_ok(nodes, parents, depth, rest, j)) by {
        reveal(frames_ok);
        assert forall|m: int| 0 <= m < rest.len() implies {
            &&& (#[trigger] rest[m]) < j <= nodes[rest[m] as int].subtree_end
            &&& rest[m] < parents.len()
            &&& rest[m] < depth.len()
            &&& depth[rest[m] as int] == m
            &&& parents[rest[m] as int] == if m > 0 {
                Some(rest[m - 1])
            } else {
                None::<usize>
            }
        } by {
            assert(rest[m] == stack[m]);
            if m > 0 {
                assert(rest[m - 1] == stack[m - 1]);
            }
        }
    }
    assert(nested(nodes, rest)) by {
        reveal(nested);
        assert forall|m: int, n: int| 0 <= m < n < rest.len() implies (#[trigger] rest[m]) < (
        #[trigger] rest[n]) < nodes[rest[m] as int].subtree_end by {
            assert(rest[m] == stack[m]);
            assert(rest[n] == stack[n]);
        }
    }
    assert(others_ended(nodes, rest, j)) by {
        reveal(others_ended);
        assert forall|k: int| 0 <= k < j implies rest.contains(k as usize) || (
        #[trigger] nodes[k]).subtree_end <= j by {
            if stack.contains(k as usize) && k != stack.last() {
                let x = choose|x: int| 0 <= x < stack.len() && stack[x] == k as usize;
                assert(rest[x] == k as usize);
            }
        }
    }
}

/// When every entered list reaches beyond node `j`, the innermost is the
/// parent of `j`, and if none is entered, `j` stands at the top level.
#[verifier::rlimit(40)]
proof fn lemma_inside_parent(
    nodes: Seq<NodeView>,
    parents: Seq<Option<usize>>,
    depth: Seq<usize>,
    stack: Seq<usize>,
    j: int,
)
    requires
        shape_ok(nodes),
        0 <= j < nodes.len(),
        inside(nodes, parents, depth, stack, j),
        stack.len() > 0 ==> nodes[stack.last() as int].subtree_end > j,
    ensures
        stack.len() > 0 ==> is_parent(nodes, stack.last() as int, j),
        stack.len() == 0 ==> is_root(nodes, j),
{
    reveal(frames_ok);
    reveal(nested);
    reveal(others_ended);
    if stack.len() > 0 {
        let p = stack.last();
        assert(stack[stack.len() - 1] == p);
        assert forall|k: int| p < k < j implies (#[trigger] nodes[k]).subtree_end <= j by {
            if stack.contains(k as usize) {
                let x = choose|x: int| 0 <= x < stack.len() && stack[x] == k as usize;
                if x < stack.len() - 1 {
                    assert(stack[x] < stack[stack.len() - 1]);
                }
            }
        }
    } else {
        assert forall|k: int| 0 <= k < j implies (#[trigger] nodes[k]).subtree_end <= j by {
            if stack.contains(k as usize) {
                let x = choose|x: int| 0 <= x < stack.len() && stack[x] == k as usize;
            }
        }
    }
}

/// Every entered list reaches beyond node `j`.
#[verifier::opaque]
spec fn beyond(nodes: Seq<NodeView>, stack: Seq<usize>, j: int) -> bool {
    forall|m: int| 0 <= m < stack.len() ==> j < nodes[(#[trigger] stack[m]) as int].subtree_end
}

proof fn lemma_beyond(
    nodes: Seq<NodeView>,
    parents: Seq<Option<usize>>,
    depth: Seq<usize>,
    stack: Seq<usize>,
    j: int,
)
    requires
        shape_ok(nodes),
        0 <= j < nodes.len(),
        frames_ok(nodes, parents, depth, stack, j),
        nested(nodes, stack),
        stack.len() > 0 ==> nodes[stack.last() as int].subtree_end > j,
    ensures
        beyond(nodes, stack, j),
{
    reveal(frames_ok);
    reveal(nested);
    reveal(beyond);
    assert forall|m: int| 0 <= m < stack.len() implies j < nodes[(#[trigger] stack[m]) as int].subtree_end by {
        if m < stack.len() - 1 {
            assert(stack[m] < stack[stack.len() - 1]);
        }
    }
}

proof fn lemma_push_frames(
    nodes: Seq<NodeView>,
    parents: Seq<Option<usize>>,
    depth: Seq<usize>,
    stack: Seq<usize>,
    j: int,
)
    requires
        0 <= j < nodes.len() <= usize::MAX,
        j < nodes[j].subtree_end,
        stack.len() <= usize::MAX,
        parents.len() == j,
        depth.len() == j,
        frames_ok(nodes, parents, depth, stack, j),
        beyond(nodes, stack, j),
    ensures
        frames_ok(
            nodes,
            parents.push(
                if stack.len() > 0 {
                    Some(stack.last())
                } else {
                    None
                },
            ),
            depth.push(stack.len() as usize),
            stack.push(j as usize),
            j + 1,
        ),
{
    reveal(frames_ok);
    reveal(beyond);
    let parents2 = parents.push(
        if stack.len() > 0 {
            Some(stack.last())
        } else {
            None
        },
    );
    let depth2 = depth.push(stack.len() as usize);
    let stack2 = stack.push(j as usize);
    assert forall|m: int| 0 <= m < stack2.len() implies {
        &&& (#[trigger] stack2[m]) < j + 1 <= nodes[stack2[m] as int].subtree_end
        &&& stack2[m] < parents2.len()
        &&& stack2[m] < depth2.len()
        &&& depth2[stack2[m] as int] == m
        &&& parents2[stack2[m] as int] == if m > 0 {
            Some(stack2[m - 1])
        } else {
            None::<usize>
        }
    } by {
        if m < stack.len() {
            let f = stack[m];
            assert(stack2[m] == f);
            assert(f < j);
            assert(parents2[f as int] == parents[f as int]);
            assert(depth2[f as int] == depth[f as int]);
            if m > 0 {
                assert(stack2[m - 1] == stack[m - 1]);
            }
        } else {
            assert(stack2[m] == j);
            assert(parents2[j] == parents2.last());
            assert(depth2[j] == depth2.last());
            if m > 0 {
                assert(stack2[m - 1] == stack[m - 1]);
                assert(stack[m - 1] == stack.last());
            }
        }
    }
}

proof fn lemma_push_nested(
    nodes: Seq<NodeView>,
    parents: Seq<Option<usize>>,
    depth: Seq<usize>,
    stack: Seq<usize>,
    j: int,
)
    requires
        shape_ok(nodes),
        0 <= j < nodes.len() <= usize::MAX,
        frames_ok(nodes, parents, depth, stack, j),
        nested(nodes, stack),
        stack.len() > 0 ==> nodes[stack.last() as int].subtree_end > j,
    ensures
        nested(nodes, stack.push(j as usize)),
{
    reveal(frames_ok);
    reveal(nested);
    let stack2 = stack.push(j as usize);
    assert forall|m: int, x: int| 0 <= m < x < stack2.len() implies (#[trigger] stack2[m]) < (
    #[trigger] stack2[x]) < nodes[stack2[m] as int].subtree_end by {
        assert(stack2[m] == stack[m]);
        if x < stack.len() {
            assert(stack2[x] == stack[x]);
        } else {
            if m < stack.len() - 1 {
                assert(stack[m] < stack[stack.len() - 1]);
            }
        }
    }
}

proof fn lemma_push_covered(nodes: Seq<NodeView>, stack: Seq<usize>, j: int)
    requires
        0 <= j < nodes.len() <= usize::MAX,
        others_ended(nodes, stack, j),
    ensures
        others_ended(nodes, stack.push(j as usize), j + 1),
{
    reveal(others_ended);
    let stack2 = stack.push(j as usize);
    assert forall|k: int| 0 <= k < j + 1 implies stack2.contains(k as usize) || (
    #[trigger] nodes[k]).subtree_end <= j + 1 by {
        if k == j {
            assert(stack2[stack2.len() - 1] == k as usize);
        } else if stack.contains(k as usize) {
            let x = choose|x: int| 0 <= x < stack.len() && stack[x] == k as usize;
            assert(stack2[x] == k as usize);
        }
    }
}

/// Entering node `j`, whose parent and number of ancestors are recorded.
proof fn lemma_inside_push(
    nodes: Seq<NodeView>,
    parents: Seq<Option<usize>>,
    depth: Seq<usize>,
    stack: Seq<usize>,
    j: int,
)
    requires
        shape_ok(nodes),
        0 <= j < nodes.len() <= usize::MAX,
        stack.len() <= usize::MAX,
        parents.len() == j,
        depth.len() == j,
        inside(nodes, parents, depth, stack, j),
        stack.len() > 0 ==> nodes[stack.last() as int].subtree_end > j,
    ensures
        inside(
            nodes,
            parents.push(
                if stack.len() > 0 {
                    Some(stack.last())
                } else {
                    None
                },
            ),
            depth.push(stack.len() as usize),
            stack.push(j as usize),
            j + 1,
        ),
{
    lemma_beyond(nodes, parents, depth, stack, j);
    lemma_push_frames(nodes, parents, depth, stack, j);
    lemma_push_nested(nodes, parents, depth, stack, j);
    lemma_push_covered(nodes, stack, j);
}

/// The links of the nodes before `j` stay true when those of node `j`
/// are recorded.
proof fn lemma_links_extend(
    nodes: Seq<NodeView>,
    parents: Seq<Option<usize>>,
    prev: Seq<Option<usize>>,
    depth: Seq<usize>,
    parent: Option<usize>,
    before: Option<usize>,
    d: usize,
    j: int,
)
    requires
        parents.len() == j,
        prev.len() == j,
        depth.len() == j,
        forall|i: int| 0 <= i < j ==> #[trigger] link_ok(nodes, parents, prev, depth, i),
        link_ok(nodes, parents.push(parent), prev.push(before), depth.push(d), j),
    ensures
        forall|i: int|
            0 <= i < j + 1 ==> #[trigger] link_ok(
                nodes,
                parents.push(parent),
                prev.push(before),
                depth.push(d),
                i,
            ),
{
    assert forall|i: int| 0 <= i < j + 1 implies #[trigger] link_ok(
        nodes,
        parents.push(parent),
        prev.push(before),
        depth.push(d),
        i,
    ) by {
        if i < j {
            assert(link_ok(nodes, parents, prev, depth, i));
        }
    }
}

/// Leave the entered lists that end before node `j`; the last one left,
/// if any, is the previous sibling of `j`.
fn leave_ended(nodes: &Vec<Node>, stack: &mut Vec<usize>, j: usize, Ghost(parents): Ghost<
    Seq<Option<usize>>,
>, Ghost(depth): Ghost<Seq<usize>>) -> (popped: Option<usize>)
    requires
        bridged(nodes@),
        shape_ok(views(nodes@)),
        j < nodes@.len(),
        inside(views(nodes@), parents, depth, old(stack)@, j as int),
    ensures
        inside(views(nodes@), parents, depth, final(stack)@, j as int),
        final(stack)@.len() > 0 ==> views(nodes@)[final(stack)@.last() as int].subtree_end > j,
        popped is None ==> final(stack)@ == old(stack)@,
        popped matches Some(q) ==> q < j && q < parents.len() && views(nodes@)[q as int].subtree_end == j
            && parents[q as int] == (if final(stack)@.len() > 0 {
            Some(final(stack)@.last())
        } else {
            None::<usize>
        }),
{
    let ghost vs = views(nodes@);
    let mut popped: Option<usize> = None;
    loop
        invariant
            vs == views(nodes@),
            bridged(nodes@),
            shape_ok(vs),
            j < nodes@.len(),
            inside(vs, parents, depth, stack@, j as int),
            popped is None ==> stack@ == old(stack)@,
            popped matches Some(q) ==> q < j && q < parents.len() && vs[q as int].subtree_end == j
                && parents[q as int] == (if stack@.len() > 0 {
                Some(stack@.last())
            } else {
                None::<usize>
            }),
        ensures
            inside(vs, parents, depth, stack@, j as int),
            stack@.len() > 0 ==> vs[stack@.last() as int].subtree_end > j,
            popped is None ==> stack@ == old(stack)@,
            popped matches Some(q) ==> q < j && q < parents.len() && vs[q as int].subtree_end == j
                && parents[q as int] == (if stack@.len() > 0 {
                Some(stack@.last())
            } else {
                None::<usize>
            }),
        decreases stack@.len(),
    {
        if stack.len() == 0 {
            break ;
        }
        let top = stack[stack.len() - 1];
        proof {
            lemma_inside_top(vs, parents, depth, stack@, j as int);
        }
        if nodes[top].subtree_end > j {
            break ;
        }
        proof {
            lemma_inside_pop(vs, parents, depth, stack@, j as int);
            assert(stack@.drop_last().len() > 0 ==> stack@.drop_last().last() == stack@[stack@.len()
                - 2]);
        }
        popped = Some(top);
        stack.pop();
    }
    popped
}

/// The parent, the previous sibling and the number of ancestors of every
/// node, found in one pass.
#[verifier::rlimit(40)]
pub fn compute_links(nodes: &Vec<Node>) -> (res: (Vec<Option<usize>>, Vec<Option<usize>>, Vec<usize>))
    requires
        shape_ok(views(nodes@)),
    ensures
        links_ok(views(nodes@), res.0@, res.1@, res.2@),
{
    let n = nodes.len();
    let ghost vs = views(nodes@);
    proof {
        lemma_bridged(nodes@);
        lemma_inside_start(vs);
    }
    let mut parents: Vec<Option<usize>> = Vec::new();
    let mut prev: Vec<Option<usize>> = Vec::new();
    let mut depth: Vec<usize> = Vec::new();
    let mut stack: Vec<usize> = Vec::new();
    let mut j: usize = 0;
    while j < n
        invariant
            n == nodes@.len(),
            vs == views(nodes@),
            bridged(nodes@),
            shape_ok(vs),
            j <= n,
            parents@.len() == j,
            prev@.len() == j,
            depth@.len() == j,
            forall|i: int| 0 <= i < j ==> #[trigger] link_ok(vs, parents@, prev@, depth@, i),
            inside(vs, parents@, depth@, stack@, j as int),
            j > 0 ==> stack@.len() > 0 && stack@.last() == j - 1,
            j == 0 ==> stack@.len() == 0,
        decreases n - j,
    {
        let popped = leave_ended(nodes, &mut stack, j, Ghost(parents@), Ghost(depth@));
        let parent = if stack.len() > 0 {
            Some(stack[stack.len() - 1])
        } else {
            None
        };
        let d = stack.len();
        proof {
            lemma_inside_parent(vs, parents@, depth@, stack@, j as int);
            lemma_inside_push(vs, parents@, depth@, stack@, j as int);
            if stack@.len() > 0 {
                lemma_inside_top(vs, parents@, depth@, stack@, j as int);
            }
            let parents2 = parents@.push(parent);
            let prev2 = prev@.push(popped);
            let depth2 = depth@.push(d);
            assert(link_ok(vs, parents2, prev2, depth2, j as int));
            lemma_links_extend(vs, parents@, prev@, depth@, parent, popped, d, j as int);
        }
        parents.push(parent);
        prev.push(popped);
        depth.push(d);
        stack.push(j);
        j += 1;
    }
    (parents, prev, depth)
}

/// A number that tells the node kinds apart.
pub fn kind_tag_of(k: NodeKind) -> (res: u64)
    ensures
        res == kind_tag(k),
{
    match k {
        NodeKind::List => 1,
        NodeKind::Atom(AtomKind::Normal) => 2,
        NodeKind::Atom(AtomKind::StringLike) => 3,
        NodeKind::Atom(AtomKind::Comment) => 4,
        NodeKind::Atom(AtomKind::Keyword) => 5,
    }
}

fn token_hash(n: &Node, sz: usize) -> (res: u64)
    ensures
        res == token_hash_spec(n@, sz as int),
{
    let text_hash = if n.is_comment() {
        let t = normalise(n.text.as_slice());
        hash_bytes(t.as_slice())
    } else {
        hash_bytes(n.text.as_slice())
    };
    mix(mix(mix(kind_tag_of(n.kind), sz as u64), text_hash), hash_bytes(n.close.as_slice()))
}

/// The fingerprints of all nodes of a well-shaped tree.
pub fn compute_fingerprints(nodes: &Vec<Node>) -> (fps: Vec<u64>)
    requires
        shape_ok(views(nodes@)),
    ensures
        fingerprints_ok(views(nodes@), fps@),
{
    let n = nodes.len();
    proof {
        lemma_bridged(nodes@);
    }
    let mut tokens: Vec<u64> = Vec::new();
    let mut i: usize = 0;
    while i < n
        invariant
            n == nodes@.len(),
            bridged(nodes@),
            shape_ok(views(nodes@)),
            i <= n,
            tokens@.len() == i,
            forall|k: int|
                0 <= k < i ==> #[trigger] tokens@[k] == token_hash_spec(views(nodes@)[k], size(views(nodes@), k)),
        decreases n - i,
    {
        let sz = nodes[i].subtree_end - i;
        tokens.push(token_hash(&nodes[i], sz));
        i += 1;
    }
    let mut fps: Vec<u64> = Vec::new();
    let mut i: usize = 0;
    while i < n
        invariant
            n == nodes@.len(),
            bridged(nodes@),
            shape_ok(views(nodes@)),
            i <= n,
            tokens@.len() == n,
            forall|k: int|
                0 <= k < n ==> #[trigger] tokens@[k] == token_hash_spec(views(nodes@)[k], size(views(nodes@), k)),
            fps@.len() == i,
            forall|k: int| 0 <= k < i ==> #[trigger] fps@[k] == fingerprint_spec(views(nodes@), k),
        decreases n - i,
    {
        let end = nodes[i].subtree_end;
        assert(end == views(nodes@)[i as int].subtree_end);
        let mut acc: u64 = HASH_SEED;
        let mut j: usize = i;
        while j < end
            invariant
                n == nodes@.len(),
                i <= j <= end <= n,
                tokens@.len() == n,
                forall|k: int|
                    0 <= k < n ==> #[trigger] tokens@[k] == token_hash_spec(
                        views(nodes@)[k],
                        size(views(nodes@), k),
                    ),
                acc == fold_tokens(views(nodes@), i as int, j - i),
            decreases end - j,
        {
            acc = mix(acc, tokens[j]);
            j += 1;
        }
        fps.push(acc);
        i += 1;
    }
    fps
}

impl View for Syntax {
    type V = Seq<NodeView>;

    open spec fn view(&self) -> Seq<NodeView> {
        views(self.nodes@)
    }
}

impl Syntax {
    /// The tree is well shaped and its fingerprints are in place.
    pub open spec fn wf(&self) -> bool {
        &&& bridged(self.nodes@)
        &&& shape_ok(self@)
        &&& fingerprints_ok(self@, self.fingerprints@)
        &&& links_ok(self@, self.parents@, self.prev_siblings@, self.num_ancestors@)
    }

    /// A tree over `nodes`, with its fingerprints computed.
    pub fn new(nodes: Vec<Node>) -> (res: Self)
        requires
            shape_ok(views(nodes@)),
        ensures
            res.wf(),
            res.nodes == nodes,
    {
        proof {
            lemma_bridged(nodes@);
        }
        let fingerprints = compute_fingerprints(&nodes);
        let (parents, prev_siblings, num_ancestors) = compute_links(&nodes);
        Syntax { nodes, fingerprints, parents, prev_siblings, num_ancestors }
    }

    /// The number of nodes.
    pub fn len(&self) -> (res: usize)
        ensures
            res == self@.len(),
            res == self.nodes@.len(),
    {
        self.nodes.len()
    }

    /// The parent of node `i`: the innermost list that holds it, or
    /// `None` for a node at the top level.
    pub fn parent(&self, i: usize) -> (res: Option<usize>)
        requires
            self.wf(),
            i < self@.len(),
        ensures
            match res {
                Some(p) => is_parent(self@, p as int, i as int),
                None => is_root(self@, i as int),
            },
            res == self.parents@[i as int],
    {
        assert(link_ok(self@, self.parents@, self.prev_siblings@, self.num_ancestors@, i as int));
        self.parents[i]
    }

    /// The number of lists that hold node `i`.
    pub fn num_ancestors(&self, i: usize) -> (res: usize)
        requires
            self.wf(),
            i < self@.len(),
        ensures
            res == self.num_ancestors@[i as int],
            match self.parents@[i as int] {
                Some(p) => res == self.num_ancestors@[p as int] + 1,
                None => res == 0,
            },
    {
        assert(link_ok(self@, self.parents@, self.prev_siblings@, self.num_ancestors@, i as int));
        self.num_ancestors[i]
    }

    /// The first child of node `i`, if it is a list that has children.
    pub fn first_child(&self, i: usize) -> (res: Option<usize>)
        requires
            self.wf(),
            i < self@.len(),
        ensures
            match res {
                Some(c) => c == i + 1 && c < self@[i as int].subtree_end && is_parent(
                    self@,
                    i as int,
                    c as int,
                ),
                None => self@[i as int].subtree_end == i + 1,
            },
    {
        if i + 1 < self.nodes[i].subtree_end {
            Some(i + 1)
        } else {
            None
        }
    }

    /// The sibling that follows node `i` in its list, if there is one:
    /// the node at which the subtree of `i` ends.
    pub fn next_sibling(&self, i: usize) -> (res: Option<usize>)
        requires
            self.wf(),
            i < self@.len(),
        ensures
            match res {
                Some(q) => q == self@[i as int].subtree_end && q < self@.len() && match self.parents@[i as int] {
                    Some(p) => is_parent(self@, p as int, q as int),
                    None => is_root(self@, q as int),
                },
                None => match self.parents@[i as int] {
                    Some(p) => self@[i as int].subtree_end == self@[p as int].subtree_end,
                    None => self@[i as int].subtree_end == self@.len(),
                },
            },
    {
        assert(link_ok(self@, self.parents@, self.prev_siblings@, self.num_ancestors@, i as int));
        let end = self.nodes[i].subtree_end;
        let limit = match self.parents[i] {
            Some(p) => self.nodes[p].subtree_end,
            None => self.nodes.len(),
        };
        if end < limit {
            Some(end)
        } else {
            None
        }
    }

    /// The sibling that comes before node `i` in its list, if `i` is not
    /// the first.
    pub fn prev_sibling(&self, i: usize) -> (res: Option<usize>)
        requires
            self.wf(),
            i < self@.len(),
        ensures
            res == self.prev_siblings@[i as int],
            match res {
                Some(q) => q < i && self@[q as int].subtree_end == i && self.parents@[q as int]
                    == self.parents@[i as int],
                None => match self.parents@[i as int] {
                    Some(p) => i == p + 1,
                    None => i == 0,
                },
            },
    {
        assert(link_ok(self@, self.parents@, self.prev_siblings@, self.num_ancestors@, i as int));
        self.prev_siblings[i]
    }

    /// Whether node `i` is the first in the list that holds it.
    pub fn is_first(&self, i: usize) -> (res: bool)
        requires
            self.wf(),
            i < self@.len(),
        ensures
            res == match self.parents@[i as int] {
                Some(p) => i == p + 1,
                None => i == 0,
            },
    {
        assert(link_ok(self@, self.parents@, self.prev_siblings@, self.num_ancestors@, i as int));
        self.prev_siblings[i].is_none()
    }

    /// Whether node `i` of `self` and node `j` of `other` have equal
    /// content: the same structure and the same labels throughout.
    pub fn content_eq(&self, i: usize, other: &Syntax, j: usize) -> (res: bool)
        requires
            self.wf(),
            other.wf(),
            i < self@.len(),
            j < other@.len(),
        ensures
            res == subtree_eq(self@, i as int, other@, j as int),
    {
        if self.fingerprints[i] != other.fingerprints[j] {
            proof {
                if subtree_eq(self@, i as int, other@, j as int) {
                    lemma_equal_content_equal_fingerprint(
                        self@,
                        i as int,
                        other@,
                        j as int,
                    );
                }
            }
            return false;
        }
        let n = self.nodes[i].subtree_end - i;
        if other.nodes[j].subtree_end - j != n {
            return false;
        }
        let mut k: usize = 0;
        while k < n
            invariant
                self.wf(),
                other.wf(),
                i < self@.len(),
                j < other@.len(),
                n == size(self@, i as int),
                n == size(other@, j as int),
                k <= n,
                forall|m: int|
                    0 <= m < k ==> #[trigger] node_match_at(
                        self@,
                        i as int,
                        other@,
                        j as int,
                        m,
                    ),
            decreases n - k,
        {
            let a = &self.nodes[i + k];
            let b = &other.nodes[j + k];
            if a.subtree_end - (i + k) != b.subtree_end - (j + k) || !nodes_label_eq(a, b) {
                assert(!node_match_at(self@, i as int, other@, j as int, k as int));
                return false;
            }
            k += 1;
        }
        true
    }
}

/// Fill in, for both sides of a comparison, what is derived from the
/// nodes: of every node the content fingerprint, the parent, the previous
/// sibling and the number of ancestors. Nothing writes these afterwards.
pub fn init_all_info(lhs: &mut Syntax, rhs: &mut Syntax)
    requires
        shape_ok(old(lhs)@),
        shape_ok(old(rhs)@),
    ensures
        final(lhs).wf(),
        final(rhs).wf(),
        final(lhs).nodes == old(lhs).nodes,
        final(rhs).nodes == old(rhs).nodes,
{
    proof {
        lemma_bridged(lhs.nodes@);
        lemma_bridged(rhs.nodes@);
    }
    lhs.fingerprints = compute_fingerprints(&lhs.nodes);
    rhs.fingerprints = compute_fingerprints(&rhs.nodes);
    let (parents, prev_siblings, num_ancestors) = compute_links(&lhs.nodes);
    lhs.parents = parents;
    lhs.prev_siblings = prev_siblings;
    lhs.num_ancestors = num_ancestors;
    let (parents, prev_siblings, num_ancestors) = compute_links(&rhs.nodes);
    rhs.parents = parents;
    rhs.prev_siblings = prev_siblings;
    rhs.num_ancestors = num_ancestors;
}

} // verus!
