//! Version vectors: how far the history of each peer is known.
use crate::ids::{Counter, PeerID};
use std::collections::BTreeMap;
use vstd::prelude::*;

verus! {

broadcast use vstd::std_specs::btree::group_btree_axioms;

/// For each peer, the counter after the last one that is known.
pub struct VersionVector {
    map: BTreeMap<PeerID, Counter>,
}

impl View for VersionVector {
    type V = Map<PeerID, Counter>;

    closed spec fn view(&self) -> Map<PeerID, Counter> {
        self.map@
    }
}

/// The version vector that knows, of each peer, what `a` knows and what `b` knows.
pub open spec fn vv_merged(a: Map<PeerID, Counter>, b: Map<PeerID, Counter>) -> Map<PeerID, Counter> {
    Map::new(
        |p: PeerID| a.contains_key(p) || b.contains_key(p),
        |p: PeerID|
            if !a.contains_key(p) || (b.contains_key(p) && a[p] < b[p]) {
                b[p]
            } else {
                a[p]
            },
    )
}

impl VersionVector {
    pub fn new() -> (r: Self)
        ensures
            r@ == Map::<PeerID, Counter>::empty(),
    {
        VersionVector { map: BTreeMap::new() }
    }

    pub fn get(&self, peer: PeerID) -> (r: Option<Counter>)
        ensures
            r == (if self@.contains_key(peer) { Some(self@[peer]) } else { None }),
    {
        match self.map.get(&peer) {
            Some(c) => Some(*c),
            None => None,
        }
    }

    pub fn insert(&mut self, peer: PeerID, counter: Counter)
        ensures
            final(self)@ == old(self)@.insert(peer, counter),
    {
        self.map.insert(peer, counter);
    }

    /// Adds what `other` knows.
    pub fn merge(&mut self, other: &VersionVector)
        ensures
            final(self)@ == vv_merged(old(self)@, other@),
            forall|p: PeerID|
                #![trigger final(self)@.contains_key(p)]
                {
                    &&& final(self)@.contains_key(p) <==> old(self)@.contains_key(p) || other@.contains_key(p)
                    &&& old(self)@.contains_key(p) ==> final(self)@[p] >= old(self)@[p]
                    &&& other@.contains_key(p) ==> final(self)@[p] >= other@[p]
                    &&& final(self)@.contains_key(p) ==> (old(self)@.contains_key(p) && final(self)@[p]
                        == old(self)@[p]) || (other@.contains_key(p) && final(self)@[p] == other@[p])
                },
    {
        let ghost before = self@;
        let entries = other.entries();
        let mut i: usize = 0;
        while i < entries.len()
            invariant
                i <= entries.len(),
                forall|j: int|
                    0 <= j < entries@.len() ==> other@.contains_key((#[trigger] entries@[j]).0)
                        && other@[entries@[j].0] == entries@[j].1,
                forall|p: PeerID|
                    #![trigger self@.contains_key(p)]
                    #![trigger before.contains_key(p)]
                    self@.contains_key(p) ==> {
                        ||| before.contains_key(p) && self@[p] == before[p]
                        ||| other@.contains_key(p) && self@[p] == vv_merged(before, other@)[p]
                    },
                forall|p: PeerID| #[trigger] before.contains_key(p) ==> self@.contains_key(p),
                forall|j: int|
                    0 <= j < i ==> self@.contains_key((#[trigger] entries@[j]).0)
                        && self@[entries@[j].0] == vv_merged(before, other@)[entries@[j].0],
            decreases entries.len() - i,
        {
            let (peer, counter) = entries[i];
            assert(other@.contains_key(entries@[i as int].0));
            match self.get(peer) {
                Some(c) => {
                    if c < counter {
                        self.insert(peer, counter);
                    }
                },
                None => self.insert(peer, counter),
            }
            i = i + 1;
        }
        assert forall|p: PeerID| other@.contains_key(p) implies self@.contains_key(p) && self@[p] == vv_merged(
            before,
            other@,
        )[p] by {
            assert(entries@.contains((p, other@[p])));
        }
        assert(self@ =~= vv_merged(before, other@));
    }

    /// The peers and their counters.
    pub fn entries(&self) -> (r: Vec<(PeerID, Counter)>)
        ensures
            r@.len() == self@.dom().len(),
            forall|i: int|
                0 <= i < r@.len() ==> self@.contains_key((#[trigger] r@[i]).0) && self@[r@[i].0] == r@[i].1,
            forall|p: PeerID| #[trigger] self@.contains_key(p) ==> r@.contains((p, self@[p])),
            forall|i: int, j: int| 0 <= i < j < r@.len() ==> (#[trigger] r@[i]).0 < (#[trigger] r@[j]).0,
    {
        let mut r: Vec<(PeerID, Counter)> = Vec::new();
        let ghost entries = vstd::std_specs::iter::IteratorSpec::remaining(&self.map.iter());
        for kv in it: self.map.iter()
            invariant
                it.seq() == entries,
                r@.len() == it.index(),
                forall|j: int|
                    0 <= j < it.index() ==> #[trigger] r@[j] == (*it.seq()[j].0, *it.seq()[j].1),
        {
            r.push((*kv.0, *kv.1));
        }
        assert forall|p: PeerID| #[trigger] self@.contains_key(p) implies r@.contains((p, self@[p])) by {
            assert(entries.contains((&p, &self@[p])));
            let i = choose|i: int| 0 <= i < entries.len() && entries[i] == (&p, &self@[p]);
            assert(r@[i] == (p, self@[p]));
        }
        proof {
            let keys = entries.map_values(|kv: (&PeerID, &Counter)| *kv.0);
            assert(vstd::std_specs::btree::increasing_seq(keys));
            assert forall|i: int, j: int| 0 <= i < j < r@.len() implies (#[trigger] r@[i]).0 < (#[trigger] r@[j]).0 by {
                assert(keys[i] == r@[i].0 && keys[j] == r@[j].0);
                assert(vstd::std_specs::cmp::OrdSpec::cmp_spec(&keys[i], &keys[j]) is Less);
            }
        }
        r
    }

    pub fn duplicate(&self) -> (r: Self)
        ensures
            r@ == self@,
    {
        VersionVector { map: self.map.clone() }
    }
}

} // verus!
