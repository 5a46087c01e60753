//! References to changes and operations in blocks.
use crate::block::{block_changes, block_valid, BlockView, ChangesBlock};
use crate::change::{change_end, change_follows, change_valid, lemma_ops_atoms_prefix, Change};
use crate::format::StorageFormat;
use crate::ids::{Counter, Lamport};
use crate::op::op_follows;
use std::sync::Arc;
use vstd::prelude::*;

verus! {

/// A change in a block.
pub struct BlockChangeRef<O> {
    pub block: Arc<ChangesBlock<O>>,
    pub change_index: usize,
}

/// The block is valid, its changes are in memory, and it has a change `i`.
pub open spec fn refers_to_change<O: StorageFormat>(b: BlockView<O::V>, i: int) -> bool {
    &&& block_valid::<O>(b)
    &&& b.content !is Bytes
    &&& 0 <= i < block_changes::<O>(b).len()
}

impl<O: StorageFormat> View for BlockChangeRef<O> {
    type V = (BlockView<O::V>, int);

    open spec fn view(&self) -> (BlockView<O::V>, int) {
        ((*self.block)@, self.change_index as int)
    }
}

impl<O: StorageFormat> Clone for BlockChangeRef<O> {
    fn clone(&self) -> (r: Self)
        ensures
            r@ == self@,
    {
        BlockChangeRef { block: self.block.clone(), change_index: self.change_index }
    }
}

impl<O: StorageFormat> BlockChangeRef<O> {
    /// The change.
    pub fn deref(&self) -> (r: &Change<O>)
        requires
            refers_to_change::<O>(self@.0, self@.1),
        ensures
            r@ == block_changes::<O>(self@.0)[self@.1],
            change_valid::<O>(r@),
    {
        proof {
            assert(change_follows::<O>(block_changes::<O>(self@.0), self@.1));
        }
        match self.block.content().try_changes() {
            Some(changes) => &changes[self.change_index],
            None => vstd::pervasive::unreached(),
        }
    }

    /// The operation of the change that holds the atom with the given counter. `None`: the
    /// change ends before it.
    pub fn get_op_with_counter(&self, counter: Counter) -> (r: Option<BlockOpRef<O>>)
        requires
            refers_to_change::<O>(self@.0, self@.1),
            block_changes::<O>(self@.0)[self@.1].id.counter <= counter,
        ensures
            match r {
                Some(op) => {
                    let c = block_changes::<O>(self@.0)[self@.1];
                    &&& counter < change_end::<O>(c)
                    &&& op@.0 == self@.0
                    &&& op@.1 == self@.1
                    &&& 0 <= op@.2 < c.ops.len()
                    &&& O::start(c.ops[op@.2]) <= counter < O::start(c.ops[op@.2]) + O::atoms(c.ops[op@.2]).len()
                },
                None => counter >= change_end::<O>(block_changes::<O>(self@.0)[self@.1]),
            },
    {
        let change = self.deref();
        if counter >= change.ctr_end() {
            return None;
        }
        proof {
            assert(op_follows::<O>(change@.ops, change@.id.counter as int, 0));
            assert(change@.ops.take(0) =~= seq![]);
        }
        let index: usize = change.ops.search_atom_index(counter);
        Some(BlockOpRef { block: self.block.clone(), change_index: self.change_index, op_index: index })
    }
}

/// An operation in a block.
pub struct BlockOpRef<O> {
    pub block: Arc<ChangesBlock<O>>,
    pub change_index: usize,
    pub op_index: usize,
}

impl<O: StorageFormat> View for BlockOpRef<O> {
    type V = (BlockView<O::V>, int, int);

    open spec fn view(&self) -> (BlockView<O::V>, int, int) {
        ((*self.block)@, self.change_index as int, self.op_index as int)
    }
}

/// The block is valid, its changes are in memory, and its change `i` has an operation `j`.
pub open spec fn refers_to_op<O: StorageFormat>(b: BlockView<O::V>, i: int, j: int) -> bool {
    refers_to_change::<O>(b, i) && 0 <= j < block_changes::<O>(b)[i].ops.len()
}

impl<O: StorageFormat> Clone for BlockOpRef<O> {
    fn clone(&self) -> (r: Self)
        ensures
            r@ == self@,
    {
        BlockOpRef { block: self.block.clone(), change_index: self.change_index, op_index: self.op_index }
    }
}

impl<O: StorageFormat> BlockOpRef<O> {
    /// The operation.
    pub fn deref(&self) -> (r: &O)
        requires
            refers_to_op::<O>(self@.0, self@.1, self@.2),
        ensures
            r@ == block_changes::<O>(self@.0)[self@.1].ops[self@.2],
    {
        match self.block.content().try_changes() {
            Some(changes) => {
                assert(changes@[self.change_index as int]@ == block_changes::<O>(self@.0)[self@.1]);
                changes[self.change_index].ops.get(self.op_index)
            },
            None => vstd::pervasive::unreached(),
        }
    }

    /// The Lamport clock of the first atom of the operation.
    pub fn lamport(&self) -> (r: Lamport)
        requires
            refers_to_op::<O>(self@.0, self@.1, self@.2),
        ensures
            ({
                let c = block_changes::<O>(self@.0)[self@.1];
                r == c.lamport + (O::start(c.ops[self@.2]) - c.id.counter)
            }),
    {
        let ghost c = block_changes::<O>(self@.0)[self@.1];
        proof {
            assert(change_follows::<O>(block_changes::<O>(self@.0), self@.1));
            assert(op_follows::<O>(c.ops, c.id.counter as int, self@.2));
            lemma_ops_atoms_prefix::<O>(c.ops, self@.2);
        }
        match self.block.content().try_changes() {
            Some(changes) => {
                let change = &changes[self.change_index];
                assert(change@ == c);
                let op = change.ops.get(self.op_index);
                (op.counter() - change.id.counter) as Lamport + change.lamport
            },
            None => vstd::pervasive::unreached(),
        }
    }
}

} // verus!
