//! The open set of a search: a bag of `(distance, node)` entries from which
//! a minimum-distance entry can be removed.
//!
//! Duplicate and stale entries are permitted (lazy deletion); the solvers
//! skip them after popping. The bag is kept as a plain vector and viewed as
//! a multiset, so the contract promises nothing about internal order, only
//! that `pop_min` removes an entry whose distance is minimal.

use vstd::prelude::*;
use vstd::multiset::Multiset;
use vstd::seq_lib::group_to_multiset_ensures;

verus! {

broadcast use group_to_multiset_ensures;

pub(crate) struct OpenSet {
    entries: Vec<(u32, usize)>,
}

impl View for OpenSet {
    type V = Multiset<(u32, usize)>;

    closed spec fn view(&self) -> Multiset<(u32, usize)> {
        self.entries@.to_multiset()
    }
}

impl OpenSet {
    pub fn new() -> (s: Self)
        ensures
            s@ == Multiset::<(u32, usize)>::empty(),
    {
        let s = OpenSet { entries: Vec::new() };
        proof {
            assert(s.entries@.to_multiset() =~= Multiset::<(u32, usize)>::empty());
        }
        s
    }

    pub fn len(&self) -> (l: usize)
        ensures
            l == self@.len(),
    {
        self.entries.len()
    }

    pub fn push(&mut self, dist: u32, node: usize)
        ensures
            final(self)@ == old(self)@.insert((dist, node)),
    {
        self.entries.push((dist, node));
        proof {
            assert(self.entries@ == old(self).entries@.push((dist, node)));
            assert(self.entries@.to_multiset() =~= old(self).entries@.to_multiset().insert(
                (dist, node),
            ));
        }
    }

    /// Removes and returns an entry of minimal distance; ties are broken
    /// arbitrarily.
    pub fn pop_min(&mut self) -> (e: (u32, usize))
        requires
            old(self)@.len() > 0,
        ensures
            old(self)@.count(e) > 0,
            final(self)@ == old(self)@.remove(e),
            forall|x: (u32, usize)| old(self)@.count(x) > 0 ==> e.0 <= x.0,
    {
        let mut best: usize = 0;
        let mut i: usize = 1;
        while i < self.entries.len()
            invariant
                best < self.entries@.len(),
                i <= self.entries@.len(),
                forall|j: int|
                    0 <= j < i ==> self.entries@[best as int].0 <= (#[trigger] self.entries@[j]).0,
            decreases self.entries@.len() - i,
        {
            if self.entries[i].0 < self.entries[best].0 {
                best = i;
            }
            i = i + 1;
        }
        let ghost before = self.entries@;
        let e = self.entries.remove(best);
        proof {
            assert(before[best as int] == e);
            assert(before.contains(e));
            assert(self.entries@ == before.remove(best as int));
            assert(self.entries@.to_multiset() =~= before.to_multiset().remove(e));
            assert forall|x: (u32, usize)| old(self)@.count(x) > 0 implies e.0 <= x.0 by {
                assert(before.contains(x));
                let j = choose|j: int| 0 <= j < before.len() && before[j] == x;
                assert(before[best as int].0 <= before[j].0);
            }
        }
        e
    }
}

} // verus!
