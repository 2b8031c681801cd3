//! The settled vertices of a search, in the order in which they were
//! settled, with an index by which a vertex is found among them without
//! looking at all of them.

use std::collections::HashMap;
use vstd::prelude::*;
use crate::dijkstra::{Entry, Record, is_settled, records_of};
use crate::graph::{Vertex, VertexView};

verus! {

broadcast use vstd::std_specs::hash::group_hash_axioms;

/// The key under which a vertex is filed: its two cursors.
pub open spec fn key_of(v: VertexView) -> u128 {
    (v.lp * 0x1_0000_0000_0000_0000 + v.rp) as u128
}

fn key(v: &Vertex) -> (res: u128)
    ensures
        res == key_of(v@),
{
    (v.lp as u128) * 0x1_0000_0000_0000_0000u128 + (v.rp as u128)
}

/// The settled vertices and their index.
pub struct Visited {
    pub entries: Vec<Entry>,
    pub index: HashMap<u128, Vec<usize>>,
}

/// Every settled vertex is filed under its key.
spec fn all_filed(entries: Seq<Record>, index: Map<u128, Vec<usize>>) -> bool {
    forall|i: int|
        0 <= i < entries.len() ==> index.contains_key(key_of((#[trigger] entries[i]).vertex))
            && index[key_of(entries[i].vertex)]@.contains(i as usize)
}

/// Whatever is filed under a key is a settled vertex with that key.
spec fn files_true(entries: Seq<Record>, index: Map<u128, Vec<usize>>) -> bool {
    forall|k: u128, x: int|
        index.contains_key(k) && 0 <= x < index[k]@.len() ==> (#[trigger] index[k]@[x])
            < entries.len() && key_of(entries[index[k]@[x] as int].vertex) == k
}

impl View for Visited {
    type V = Seq<Record>;

    open spec fn view(&self) -> Seq<Record> {
        records_of(self.entries@)
    }
}

impl Visited {
    /// The index is in order.
    pub closed spec fn wf(&self) -> bool {
        &&& all_filed(self@, self.index@)
        &&& files_true(self@, self.index@)
    }

    /// Nothing settled yet.
    pub fn new() -> (res: Visited)
        ensures
            res.wf(),
            res@ == Seq::<Record>::empty(),
    {
        let res = Visited { entries: Vec::new(), index: HashMap::new() };
        assert(res@ =~= Seq::<Record>::empty());
        res
    }

    /// The number of settled vertices.
    pub fn len(&self) -> (res: usize)
        ensures
            res == self@.len(),
    {
        self.entries.len()
    }

    /// Whether the vertex `v` is settled.
    #[verifier::rlimit(40)]
    pub fn contains(&self, v: &Vertex) -> (res: bool)
        requires
            self.wf(),
        ensures
            res == is_settled(self@, v@),
    {
        let k = key(v);
        let n = self.entries.len();
        match self.index.get(&k) {
            None => {
                assert forall|i: int| 0 <= i < self@.len() implies (#[trigger] self@[i]).vertex
                    != v@ by {
                    if self@[i].vertex == v@ {
                        assert(self.index@.contains_key(key_of(self@[i].vertex)));
                    }
                }
                false
            },
            Some(bucket) => {
                let mut x: usize = 0;
                while x < bucket.len()
                    invariant
                        self.wf(),
                        n == self@.len(),
                        k == key_of(v@),
                        self.index@.contains_key(k),
                        bucket@ == self.index@[k]@,
                        x <= bucket@.len(),
                        forall|y: int|
                            0 <= y < x ==> self@[(#[trigger] bucket@[y]) as int].vertex != v@,
                    decreases bucket@.len() - x,
                {
                    let i = bucket[x];
                    assert(bucket@[x as int] == self.index@[k]@[x as int]);
                    assert(i < self@.len());
                    if self.entries[i].vertex.same_as(v) {
                        assert(self@[i as int].vertex == v@);
                        return true;
                    }
                    x += 1;
                }
                assert forall|i: int| 0 <= i < self@.len() implies (#[trigger] self@[i]).vertex
                    != v@ by {
                    if self@[i].vertex == v@ {
                        assert(self.index@[key_of(self@[i].vertex)]@.contains(i as usize));
                        let y = choose|y: int| 0 <= y < bucket@.len() && bucket@[y] == i as usize;
                        assert(self@[bucket@[y] as int].vertex != v@);
                    }
                }
                false
            },
        }
    }

    /// Settle one more vertex.
    #[verifier::rlimit(40)]
    pub fn push(&mut self, e: Entry)
        requires
            old(self).wf(),
        ensures
            final(self).wf(),
            final(self)@ == old(self)@.push(e@),
    {
        let k = key(&e.vertex);
        let i = self.entries.len();
        let ghost old_entries = self@;
        let ghost old_index = self.index@;
        let ghost ev = e@;
        let mut bucket: Vec<usize> = Vec::new();
        match self.index.get(&k) {
            None => {},
            Some(old_bucket) => {
                let mut x: usize = 0;
                while x < old_bucket.len()
                    invariant
                        x <= old_bucket@.len(),
                        bucket@ == old_bucket@.take(x as int),
                    decreases old_bucket@.len() - x,
                {
                    bucket.push(old_bucket[x]);
                    assert(old_bucket@.take(x + 1) =~= old_bucket@.take(x as int).push(
                        old_bucket@[x as int],
                    ));
                    x += 1;
                }
                assert(old_bucket@.take(x as int) =~= old_bucket@);
            },
        }
        let ghost copied = bucket@;
        bucket.push(i);
        self.entries.push(e);
        self.index.insert(k, bucket);
        proof {
            let entries = self@;
            let index = self.index@;
            assert(entries =~= old_entries.push(ev));
            assert(old_index.contains_key(k) ==> copied == old_index[k]@);
            assert(!old_index.contains_key(k) ==> copied.len() == 0);
            assert(index[k]@ == copied.push(i));
            assert forall|j: int| 0 <= j < entries.len() implies index.contains_key(
                key_of((#[trigger] entries[j]).vertex),
            ) && index[key_of(entries[j].vertex)]@.contains(j as usize) by {
                let kj = key_of(entries[j].vertex);
                if j < old_entries.len() {
                    assert(entries[j] == old_entries[j]);
                    assert(old_index.contains_key(kj) && old_index[kj]@.contains(j as usize));
                    if kj == k {
                        let y = choose|y: int|
                            0 <= y < old_index[kj]@.len() && old_index[kj]@[y] == j as usize;
                        assert(index[k]@[y] == j as usize);
                    }
                } else {
                    assert(index[k]@[copied.len() as int] == j as usize);
                }
            }
            assert forall|kk: u128, x: int|
                index.contains_key(kk) && 0 <= x < index[kk]@.len() implies (
            #[trigger] index[kk]@[x]) < entries.len() && key_of(
                entries[index[kk]@[x] as int].vertex,
            ) == kk by {
                if kk == k {
                    if x < copied.len() {
                        assert(index[k]@[x] == old_index[k]@[x]);
                        assert(entries[old_index[k]@[x] as int] == old_entries[old_index[k]@[x] as int]);
                    }
                } else {
                    assert(old_index.contains_key(kk));
                    assert(index[kk] == old_index[kk]);
                    assert(entries[old_index[kk]@[x] as int] == old_entries[old_index[kk]@[x] as int]);
                }
            }
        }
    }
}

} // verus!
