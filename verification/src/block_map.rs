//! The blocks in memory, ordered by the identity of their first atom.
use crate::block::{BlockView, ChangesBlock};
use crate::ids::ID;
use crate::op::Operation;
use crate::sorted::{is_order, is_place, keys_grow, lemma_found_at, lemma_put_at, map_of, put_at};
use std::sync::Arc;
use vstd::prelude::*;

verus! {

/// The order of identities.
pub open spec fn id_order() -> spec_fn(ID, ID) -> bool {
    |a: ID, b: ID| a.before(b)
}

/// The order of identities is an order.
pub proof fn lemma_id_order()
    ensures
        is_order(id_order()),
{
}

/// Blocks, under the identities of their first atoms.
pub struct BlockMap<O> {
    entries: Vec<(ID, Arc<ChangesBlock<O>>)>,
}

impl<O: Operation> View for BlockMap<O> {
    type V = Seq<(ID, BlockView<O::V>)>;

    closed spec fn view(&self) -> Seq<(ID, BlockView<O::V>)> {
        self.entries@.map_values(|e: (ID, Arc<ChangesBlock<O>>)| (e.0, (*e.1)@))
    }
}

/// The place of an identity among the blocks in memory.
pub open spec fn place<V>(mem: Seq<(ID, V)>, id: ID) -> int {
    choose|i: int| is_place(id_order(), mem, i, id)
}

/// A key has one place.
pub proof fn lemma_place<V>(mem: Seq<(ID, V)>, i: int, id: ID)
    requires
        is_place(id_order(), mem, i, id),
    ensures
        place(mem, id) == i,
{
    let j = place(mem, id);
    if i < j {
        assert(id_order()(mem[i].0, id));
    } else if j < i {
        assert(id_order()(mem[j].0, id));
    }
}

/// Every key has a place.
pub proof fn lemma_has_place<V>(mem: Seq<(ID, V)>, id: ID)
    requires
        keys_grow(id_order(), mem),
    ensures
        is_place(id_order(), mem, place(mem, id), id),
    decreases mem.len(),
{
    if mem.len() == 0 {
        assert(is_place(id_order(), mem, 0, id));
    } else {
        let init = mem.drop_last();
        assert forall|i: int, j: int| 0 <= i < j < init.len() implies id_order()(
            (#[trigger] init[i]).0,
            (#[trigger] init[j]).0,
        ) by {
            assert(id_order()(mem[i].0, mem[j].0));
        }
        lemma_has_place(init, id);
        let n = mem.len() - 1;
        let i = place(init, id);
        if mem[n].0.before(id) {
            assert forall|j: int| 0 <= j < mem.len() implies id_order()((#[trigger] mem[j]).0, id) by {
                if j < n {
                    assert(id_order()(mem[j].0, mem[n].0));
                }
            }
            assert(is_place(id_order(), mem, mem.len() as int, id));
        } else {
            assert forall|j: int| 0 <= j < i implies id_order()((#[trigger] mem[j]).0, id) by {
                assert(init[j] == mem[j]);
            }
            assert forall|j: int| i <= j < mem.len() implies (#[trigger] mem[j]).0 == id || id_order()(
                id,
                mem[j].0,
            ) by {
                if j < n {
                    assert(init[j] == mem[j]);
                }
            }
            assert(is_place(id_order(), mem, i, id));
        }
    }
}

/// The place of the key of an entry is where the entry stands.
pub proof fn lemma_key_place<V>(mem: Seq<(ID, V)>, i: int)
    requires
        keys_grow(id_order(), mem),
        0 <= i < mem.len(),
    ensures
        is_place(id_order(), mem, i, mem[i].0),
        place(mem, mem[i].0) == i,
{
    assert(is_place(id_order(), mem, i, mem[i].0));
    lemma_place(mem, i, mem[i].0);
}

impl<O: Operation> BlockMap<O> {
    pub fn new() -> (r: Self)
        ensures
            r@ == Seq::<(ID, BlockView<O::V>)>::empty(),
    {
        let r = BlockMap { entries: Vec::new() };
        assert(r@ =~= Seq::<(ID, BlockView<O::V>)>::empty());
        r
    }

    pub fn len(&self) -> (r: usize)
        ensures
            r == self@.len(),
    {
        self.entries.len()
    }

    /// The identity of the first atom of block `i`.
    pub fn key(&self, i: usize) -> (r: ID)
        requires
            i < self@.len(),
        ensures
            r == self@[i as int].0,
    {
        self.entries[i].0
    }

    /// Block `i`.
    pub fn block(&self, i: usize) -> (r: &Arc<ChangesBlock<O>>)
        requires
            i < self@.len(),
        ensures
            (**r)@ == self@[i as int].1,
    {
        &self.entries[i].1
    }

    /// Block `i`, to be changed.
    pub fn block_mut(&mut self, i: usize) -> (r: &mut Arc<ChangesBlock<O>>)
        requires
            i < old(self)@.len(),
        ensures
            (**r)@ == old(self)@[i as int].1,
            final(self)@ == old(self)@.update(i as int, (old(self)@[i as int].0, (**final(r))@)),
    {
        &mut self.entries[i].1
    }

    /// The place of `id`: the number of blocks before it.
    pub fn place(&self, id: ID) -> (r: usize)
        requires
            keys_grow(id_order(), self@),
        ensures
            is_place(id_order(), self@, r as int, id),
            r == place(self@, id),
    {
        let mut lo: usize = 0;
        let mut hi: usize = self.entries.len();
        while lo < hi
            invariant
                lo <= hi <= self.entries.len(),
                self@.len() == self.entries.len(),
                keys_grow(id_order(), self@),
                forall|i: int| 0 <= i < lo ==> (#[trigger] self@[i]).0.before(id),
                forall|i: int| hi <= i < self@.len() ==> !(#[trigger] self@[i]).0.before(id),
            decreases hi - lo,
        {
            let mid: usize = lo + (hi - lo) / 2;
            if self.key(mid).is_before(&id) {
                assert forall|i: int| 0 <= i <= mid implies (#[trigger] self@[i]).0.before(id) by {
                    if i < mid {
                        assert(id_order()(self@[i].0, self@[mid as int].0));
                    }
                }
                lo = mid + 1;
            } else {
                assert forall|i: int| mid <= i < self@.len() implies !(#[trigger] self@[i]).0.before(id) by {
                    if mid < i {
                        assert(id_order()(self@[mid as int].0, self@[i].0));
                    }
                }
                hi = mid;
            }
        }
        proof {
            lemma_place(self@, lo as int, id);
        }
        lo
    }

    /// Whether the blocks are in the order of their identities.
    pub fn is_sorted(&self) -> (r: bool)
        ensures
            r == keys_grow(id_order(), self@),
    {
        let mut i: usize = 1;
        while i < self.entries.len()
            invariant
                1 <= i,
                self@.len() == self.entries.len(),
                forall|k: int, j: int|
                    0 <= k < j < i && j < self@.len() ==> id_order()((#[trigger] self@[k]).0, (#[trigger] self@[j]).0),
            decreases self.entries.len() - i,
        {
            if !self.key(i - 1).is_before(&self.key(i)) {
                assert(!id_order()(self@[i - 1].0, self@[i as int].0));
                return false;
            }
            assert forall|k: int, j: int| 0 <= k < j <= i implies id_order()(
                (#[trigger] self@[k]).0,
                (#[trigger] self@[j]).0,
            ) by {
                if j == i && k < i - 1 {
                    assert(id_order()(self@[k].0, self@[i - 1].0));
                }
            }
            i = i + 1;
        }
        true
    }

    /// Whether there is a block under `id`.
    pub fn contains(&self, id: ID) -> (r: bool)
        requires
            keys_grow(id_order(), self@),
        ensures
            r == map_of(self@).contains_key(id),
    {
        let i: usize = self.place(id);
        proof {
            lemma_id_order();
            lemma_found_at(id_order(), self@, i as int, id);
        }
        i < self.entries.len() && self.key(i) == id
    }

    /// Puts a block under `id`.
    pub fn insert(&mut self, id: ID, block: Arc<ChangesBlock<O>>)
        requires
            keys_grow(id_order(), old(self)@),
        ensures
            final(self)@ == put_at(old(self)@, place(old(self)@, id), id, (*block)@),
            keys_grow(id_order(), final(self)@),
    {
        let ghost before = self@;
        let ghost b = (*block)@;
        let i: usize = self.place(id);
        proof {
            lemma_id_order();
            lemma_put_at(id_order(), before, i as int, id, b);
        }
        if i < self.entries.len() && self.key(i) == id {
            self.entries[i] = (id, block);
        } else {
            self.entries.insert(i, (id, block));
        }
        assert(self@ =~= put_at(before, i as int, id, b));
    }
}

} // verus!
