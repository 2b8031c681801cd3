//! The queue of the search: entries leave it cheapest first, and among
//! equally cheap ones the one that entered first.
//!
//! The entries are kept in buckets by cost, each bucket in the order of
//! entry. The search never enters an entry that is cheaper than the one
//! that left last, so the cheapest bucket is found by counting up from a
//! floor: the cost of the entry that left last, or of a cheaper entry
//! that entered since.

use std::collections::HashMap;
use std::collections::VecDeque;
use vstd::prelude::*;
use crate::dijkstra::{Entry, Record, lemma_min_index_bounds, min_index, min_index_upto, records_of};

verus! {

broadcast use vstd::std_specs::hash::group_hash_axioms;

/// The entries of cost `c`, in the order of entry.
pub open spec fn with_cost(order: Seq<Record>, c: nat) -> Seq<Record>
    decreases order.len(),
{
    if order.len() == 0 {
        Seq::empty()
    } else {
        let before = with_cost(order.drop_last(), c);
        if order.last().cost == c {
            before.push(order.last())
        } else {
            before
        }
    }
}

/// Where no entry has cost `c`, there are no entries of cost `c`.
proof fn lemma_none_with_cost(order: Seq<Record>, c: nat)
    requires
        forall|i: int| 0 <= i < order.len() ==> (#[trigger] order[i]).cost != c,
    ensures
        with_cost(order, c).len() == 0,
    decreases order.len(),
{
    if order.len() > 0 {
        let rest = order.drop_last();
        assert forall|i: int| 0 <= i < rest.len() implies (#[trigger] rest[i]).cost != c by {
            assert(rest[i] == order[i]);
        }
        lemma_none_with_cost(rest, c);
        assert(order[order.len() - 1].cost != c);
    }
}

/// Where some entry has cost `c`, there are entries of cost `c`.
proof fn lemma_some_with_cost(order: Seq<Record>, i: int)
    requires
        0 <= i < order.len(),
    ensures
        with_cost(order, order[i].cost).len() > 0,
    decreases order.len(),
{
    if i < order.len() - 1 {
        let rest = order.drop_last();
        assert(rest[i] == order[i]);
        lemma_some_with_cost(rest, i);
    }
}

/// Every entry of cost `c` has cost `c`.
proof fn lemma_with_cost_costs(order: Seq<Record>, c: nat, x: int)
    requires
        0 <= x < with_cost(order, c).len(),
    ensures
        with_cost(order, c)[x].cost == c,
    decreases order.len(),
{
    if order.len() > 0 {
        let before = with_cost(order.drop_last(), c);
        if x < before.len() {
            lemma_with_cost_costs(order.drop_last(), c, x);
        }
    }
}

/// Among the first `n` entries, the one that leaves next is the first of
/// the cheapest, and all before it are dearer.
proof fn lemma_min_is_first(order: Seq<Record>, n: int)
    requires
        1 <= n <= order.len(),
    ensures
        ({
            let k = min_index_upto(order, n);
            let w = with_cost(order.take(n), order[k].cost);
            &&& 0 <= k < n
            &&& w.len() > 0
            &&& w[0] == order[k]
            &&& forall|i: int| 0 <= i < n ==> order[k].cost <= (#[trigger] order[i]).cost
            &&& forall|i: int| 0 <= i < k ==> order[k].cost < (#[trigger] order[i]).cost
        }),
    decreases n,
{
    let part = order.take(n);
    if n == 1 {
        assert(part.drop_last() =~= Seq::<Record>::empty());
        assert(part.last() == order[0]);
        assert(with_cost(part.drop_last(), order[0].cost).len() == 0);
    } else {
        lemma_min_is_first(order, n - 1);
        let before = order.take(n - 1);
        assert(part.drop_last() =~= before);
        assert(part.last() == order[n - 1]);
        let m = min_index_upto(order, n - 1);
        if order[n - 1].cost < order[m].cost {
            assert forall|i: int| 0 <= i < before.len() implies (#[trigger] before[i]).cost
                != order[n - 1].cost by {
                assert(before[i] == order[i]);
            }
            lemma_none_with_cost(before, order[n - 1].cost);
        }
    }
}

/// Taking out an entry of another cost leaves the entries of cost `c` as
/// they are.
proof fn lemma_remove_other(order: Seq<Record>, k: int, c: nat)
    requires
        0 <= k < order.len(),
        order[k].cost != c,
    ensures
        with_cost(order.remove(k), c) == with_cost(order, c),
    decreases order.len(),
{
    let less = order.remove(k);
    if k == order.len() - 1 {
        assert(less =~= order.drop_last());
    } else {
        lemma_remove_other(order.drop_last(), k, c);
        assert(less.drop_last() =~= order.drop_last().remove(k));
        assert(less.last() == order.last());
    }
}

/// Taking out the first entry of cost `c` takes the first of the entries
/// of cost `c`.
proof fn lemma_remove_first(order: Seq<Record>, k: int)
    requires
        0 <= k < order.len(),
        forall|i: int| 0 <= i < k ==> (#[trigger] order[i]).cost != order[k].cost,
    ensures
        with_cost(order, order[k].cost).len() > 0,
        with_cost(order.remove(k), order[k].cost) == with_cost(order, order[k].cost).skip(1),
    decreases order.len(),
{
    let c = order[k].cost;
    let less = order.remove(k);
    let rest = order.drop_last();
    if k == order.len() - 1 {
        assert(less =~= rest);
        assert forall|i: int| 0 <= i < rest.len() implies (#[trigger] rest[i]).cost != c by {
            assert(rest[i] == order[i]);
        }
        lemma_none_with_cost(rest, c);
        assert(with_cost(order, c) =~= seq![order[k]]);
        assert(with_cost(order, c).skip(1) =~= Seq::<Record>::empty());
    } else {
        assert(rest[k] == order[k]);
        assert forall|i: int| 0 <= i < k implies (#[trigger] rest[i]).cost != rest[k].cost by {
            assert(rest[i] == order[i]);
        }
        lemma_remove_first(rest, k);
        assert(less.drop_last() =~= rest.remove(k));
        assert(less.last() == order.last());
        let w = with_cost(rest, c);
        if order.last().cost == c {
            assert(w.push(order.last()).skip(1) =~= w.skip(1).push(order.last()));
        }
    }
}

/// The queue.
pub struct Queue {
    pub buckets: HashMap<u128, VecDeque<Entry>>,
    /// No waiting entry is cheaper than this.
    pub floor: u128,
    /// The waiting entries in the order of entry.
    pub order: Ghost<Seq<Record>>,
}

impl View for Queue {
    type V = Seq<Record>;

    open spec fn view(&self) -> Seq<Record> {
        self.order@
    }
}

impl Queue {
    /// The buckets hold the waiting entries, each bucket those of one
    /// cost, in the order of entry; no bucket is empty.
    pub closed spec fn wf(&self) -> bool {
        &&& forall|c: u128| #[trigger]
            self.buckets@.contains_key(c) ==> self.buckets@[c]@.len() > 0 && records_of(
                self.buckets@[c]@,
            ) == with_cost(self@, c as nat)
        &&& forall|i: int|
            0 <= i < self@.len() ==> self.floor <= (#[trigger] self@[i]).cost <= u128::MAX
                && self.buckets@.contains_key(self@[i].cost as u128)
    }

    /// An empty queue.
    pub fn new() -> (res: Queue)
        ensures
            res.wf(),
            res@ == Seq::<Record>::empty(),
    {
        Queue { buckets: HashMap::new(), floor: 0, order: Ghost(Seq::empty()) }
    }

    /// Let an entry enter the queue.
    #[verifier::rlimit(40)]
    pub fn push(&mut self, e: Entry)
        requires
            old(self).wf(),
        ensures
            final(self).wf(),
            final(self)@ == old(self)@.push(e@),
    {
        let c = e.cost;
        if c < self.floor {
            self.floor = c;
        }
        let ghost ev = e@;
        let ghost old_order = self@;
        let ghost old_buckets = self.buckets@;
        let mut bucket = match self.buckets.remove(&c) {
            Some(b) => b,
            None => VecDeque::new(),
        };
        let ghost before = bucket@;
        bucket.push_back(e);
        self.buckets.insert(c, bucket);
        proof {
            self.order@ = old_order.push(ev);
            let order = self@;
            assert(order.drop_last() =~= old_order);
            assert(order.last() == ev);
            if old_buckets.contains_key(c) {
                assert(before == old_buckets[c]@);
            } else {
                assert(before.len() == 0);
                if with_cost(old_order, c as nat).len() > 0 {
                    lemma_with_cost_in(old_order, c as nat);
                    let i = choose|i: int| 0 <= i < old_order.len() && old_order[i].cost == c as nat;
                    assert(old_buckets.contains_key(old_order[i].cost as u128));
                }
            }
            assert(records_of(before.push(e)) =~= records_of(before).push(ev));
            assert forall|cc: u128| #[trigger]
                self.buckets@.contains_key(cc) implies self.buckets@[cc]@.len() > 0
                && records_of(self.buckets@[cc]@) == with_cost(order, cc as nat) by {
                if cc != c {
                    assert(old_buckets.contains_key(cc));
                }
            }
            assert forall|i: int| 0 <= i < order.len() implies self.floor <= (
            #[trigger] order[i]).cost <= u128::MAX && self.buckets@.contains_key(
                order[i].cost as u128,
            ) by {
                if i < old_order.len() {
                    assert(order[i] == old_order[i]);
                    assert(old_buckets.contains_key(old_order[i].cost as u128));
                }
            }
        }
    }

    /// Take out the entry that leaves next: the cheapest, and of equally
    /// cheap ones the one that entered first.
    #[verifier::rlimit(40)]
    pub fn pop_min(&mut self) -> (e: Entry)
        requires
            old(self).wf(),
            old(self)@.len() > 0,
        ensures
            final(self).wf(),
            e@ == old(self)@[min_index(old(self)@)],
            final(self)@ == old(self)@.remove(min_index(old(self)@)),
    {
        let ghost old_order = self@;
        let ghost k = min_index(old_order);
        let ghost least = old_order[k].cost;
        proof {
            lemma_min_index_bounds(old_order, old_order.len() as int);
            lemma_min_is_first(old_order, old_order.len() as int);
            assert(old_order.take(old_order.len() as int) =~= old_order);
        }
        // Count up to the cost of the cheapest entry.
        while !self.buckets.contains_key(&self.floor)
            invariant
                self.wf(),
                self@ == old_order,
                self.buckets == old(self).buckets,
                0 <= k < old_order.len(),
                least == old_order[k].cost,
                self.floor <= least,
                forall|i: int| 0 <= i < old_order.len() ==> least <= (#[trigger] old_order[i]).cost,
            decreases least - self.floor,
        {
            assert(self.buckets@.contains_key(old_order[k].cost as u128));
            self.floor = self.floor + 1;
        }
        let c = self.floor;
        proof {
            // Some entry has the cost of this bucket, and none is cheaper.
            lemma_with_cost_in(old_order, c as nat);
            assert(c as nat == least);
        }
        let ghost old_buckets = self.buckets@;
        let mut bucket = self.buckets.remove(&c).unwrap();
        let ghost before = bucket@;
        let e = bucket.pop_front().unwrap();
        let ghost after = bucket@;
        if bucket.len() > 0 {
            self.buckets.insert(c, bucket);
        }
        proof {
            self.order@ = old_order.remove(k);
            let order = self@;
            assert(records_of(before)[0] == e@);
            assert(records_of(after) =~= records_of(before).skip(1));
            lemma_remove_first(old_order, k);
            assert forall|cc: u128| #[trigger]
                self.buckets@.contains_key(cc) implies self.buckets@[cc]@.len() > 0
                && records_of(self.buckets@[cc]@) == with_cost(order, cc as nat) by {
                if cc != c {
                    assert(old_buckets.contains_key(cc));
                    lemma_remove_other(old_order, k, cc as nat);
                }
            }
            assert forall|i: int| 0 <= i < order.len() implies self.floor <= (
            #[trigger] order[i]).cost <= u128::MAX && self.buckets@.contains_key(
                order[i].cost as u128,
            ) by {
                let j = if i < k {
                    i
                } else {
                    i + 1
                };
                assert(order[i] == old_order[j]);
                assert(old_buckets.contains_key(old_order[j].cost as u128));
                if old_order[j].cost == c as nat {
                    lemma_some_with_cost(order, i);
                }
            }
        }
        e
    }
}

/// Where there are entries of cost `c`, some entry has cost `c`.
proof fn lemma_with_cost_in(order: Seq<Record>, c: nat)
    requires
        with_cost(order, c).len() > 0,
    ensures
        exists|i: int| 0 <= i < order.len() && (#[trigger] order[i]).cost == c,
{
    if forall|i: int| 0 <= i < order.len() ==> (#[trigger] order[i]).cost != c {
        lemma_none_with_cost(order, c);
    }
}

} // verus!
