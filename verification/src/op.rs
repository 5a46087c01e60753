//! Operations, as far as the store reads them, and run-length encoded vectors
//! of them.
use crate::ids::Counter;
use vstd::prelude::*;

verus! {

/// An operation of a document.
///
/// What an operation does to a document is of no concern to the store. It reads
/// of an operation where in the history of its peer it stands, of how many atoms
/// it consists, what it will take to store it, and how it is cut and merged.
pub trait Operation: View + Sized {
    /// What an operation consists of: the smallest piece that has a counter of
    /// its own.
    type Atom;

    /// The counter of the first atom.
    spec fn start(v: Self::V) -> Counter;

    /// The atoms, in the order of their counters.
    spec fn atoms(v: Self::V) -> Seq<Self::Atom>;

    /// The estimated storage size, in bytes.
    spec fn storage_size(v: Self::V) -> usize;

    /// Where to cut the operation so that the first part fits in `size` bytes.
    /// `None`: it need not be cut, or it cannot be cut.
    spec fn cut_to_fit(v: Self::V, size: usize) -> Option<usize>;

    /// The part of the operation from atom `from` up to atom `to`.
    spec fn part(v: Self::V, from: int, to: int) -> Self::V;

    /// Whether `b`, right after `a`, is stored as one operation with it.
    spec fn mergable(a: Self::V, b: Self::V) -> bool;

    /// The one operation that `a` and `b` are merged to.
    spec fn merged(a: Self::V, b: Self::V) -> Self::V;

    fn counter(&self) -> (r: Counter)
        ensures
            r == Self::start(self@),
    ;

    fn atom_len(&self) -> (r: usize)
        ensures
            r == Self::atoms(self@).len(),
    ;

    fn estimate_storage_size(&self) -> (r: usize)
        ensures
            r == Self::storage_size(self@),
    ;

    fn check_whether_slice_content_to_fit_in_size(&self, size: usize) -> (r: Option<usize>)
        requires
            span_valid(Self::start(self@), Self::atoms(self@).len()),
        ensures
            r == Self::cut_to_fit(self@, size),
    ;

    fn slice(&self, from: usize, to: usize) -> (r: Self)
        requires
            span_valid(Self::start(self@), Self::atoms(self@).len()),
            from < to <= Self::atoms(self@).len(),
        ensures
            r@ == Self::part(self@, from as int, to as int),
    ;

    fn is_mergable(&self, other: &Self) -> (r: bool)
        requires
            span_valid(Self::start(self@), Self::atoms(self@).len()),
            span_valid(Self::start(other@), Self::atoms(other@).len()),
        ensures
            r == Self::mergable(self@, other@),
    ;

    fn merge(&mut self, other: &Self)
        requires
            span_valid(Self::start(old(self)@), Self::atoms(old(self)@).len()),
            span_valid(Self::start(other@), Self::atoms(other@).len()),
            Self::mergable(old(self)@, other@),
        ensures
            final(self)@ == Self::merged(old(self)@, other@),
    ;

    fn duplicate(&self) -> (r: Self)
        ensures
            r@ == self@,
    ;

    /// Whether two operations are the same.
    fn same(&self, other: &Self) -> (r: bool)
        ensures
            r == (self@ == other@),
    ;

    /// A cut leaves at least one atom before it, and is inside the operation or
    /// at its end. What is before it fits, or is one atom. An operation that fits is
    /// not cut.
    proof fn lemma_cut(v: Self::V, size: usize)
        requires
            span_valid(Self::start(v), Self::atoms(v).len()),
        ensures
            Self::cut_to_fit(v, size) matches Some(end) ==> {
                &&& 1 <= end <= Self::atoms(v).len()
                &&& end == 1 || Self::storage_size(Self::part(v, 0, end as int)) <= size
            },
            Self::storage_size(v) <= size ==> Self::cut_to_fit(v, size) is None,
    ;

    /// A part holds the atoms that it is named by, under their counters.
    proof fn lemma_part(v: Self::V, from: int, to: int)
        requires
            span_valid(Self::start(v), Self::atoms(v).len()),
            0 <= from < to <= Self::atoms(v).len(),
        ensures
            Self::start(Self::part(v, from, to)) == Self::start(v) + from,
            Self::atoms(Self::part(v, from, to)) == Self::atoms(v).subrange(from, to),
    ;

    /// Only adjacent operations are merged, and merging keeps the atoms.
    proof fn lemma_merged(a: Self::V, b: Self::V)
        requires
            span_valid(Self::start(a), Self::atoms(a).len()),
            span_valid(Self::start(b), Self::atoms(b).len()),
            Self::mergable(a, b),
        ensures
            Self::start(b) == Self::start(a) + Self::atoms(a).len(),
            Self::start(Self::merged(a, b)) == Self::start(a),
            Self::atoms(Self::merged(a, b)) == Self::atoms(a) + Self::atoms(b),
    ;
}

/// The `len` counters from `start` on, and the one after them, are counters, and
/// there is at least one of them.
pub open spec fn span_valid(start: Counter, len: nat) -> bool {
    &&& start >= 0
    &&& len >= 1
    &&& start + len <= i32::MAX
}

/// An operation has at least one atom, and the counters of its atoms, and the
/// one after them, are counters.
pub open spec fn op_valid<O: Operation>(v: O::V) -> bool {
    span_valid(O::start(v), O::atoms(v).len())
}

/// The atoms of a sequence of operations.
pub open spec fn ops_atoms<O: Operation>(ops: Seq<O::V>) -> Seq<O::Atom>
    decreases ops.len(),
{
    if ops.len() == 0 {
        seq![]
    } else {
        ops_atoms::<O>(ops.drop_last()) + O::atoms(ops.last())
    }
}

/// Operation `i` is valid, and its first atom comes right after those of the
/// operations before it, when the first one starts at `start`.
pub open spec fn op_follows<O: Operation>(ops: Seq<O::V>, start: int, i: int) -> bool {
    &&& op_valid::<O>(ops[i])
    &&& O::start(ops[i]) == start + ops_atoms::<O>(ops.take(i)).len()
}

/// The operations are valid and follow one another, the first one at `start`.
pub open spec fn ops_from<O: Operation>(ops: Seq<O::V>, start: int) -> bool {
    forall|i: int| 0 <= i < ops.len() ==> #[trigger] op_follows::<O>(ops, start, i)
}

/// Every operation is valid.
pub open spec fn ops_valid<O: Operation>(ops: Seq<O::V>) -> bool {
    forall|i: int| 0 <= i < ops.len() ==> op_valid::<O>(#[trigger] ops[i])
}

/// `ops` with `op` added at the end: merged with the last operation where the two
/// are mergable.
pub open spec fn rle_push<O: Operation>(ops: Seq<O::V>, op: O::V) -> Seq<O::V> {
    if rle_merges::<O>(ops, op) {
        ops.update(ops.len() - 1, O::merged(ops.last(), op))
    } else {
        ops.push(op)
    }
}

/// Whether adding `op` to `ops` merges it with the last operation.
pub open spec fn rle_merges<O: Operation>(ops: Seq<O::V>, op: O::V) -> bool {
    ops.len() > 0 && O::mergable(ops.last(), op)
}

/// A vector of operations in which adjacent ones are merged where they can be.
#[derive(Debug)]
pub struct RleVec<O> {
    pub vec: Vec<O>,
}

impl<O: Operation> View for RleVec<O> {
    type V = Seq<O::V>;

    open spec fn view(&self) -> Seq<O::V> {
        self.vec@.map_values(|op: O| op@)
    }
}

impl<O: Operation> RleVec<O> {
    pub fn new() -> (r: Self)
        ensures
            r@ == Seq::<O::V>::empty(),
    {
        let r = RleVec { vec: Vec::new() };
        assert(r@ =~= Seq::<O::V>::empty());
        r
    }

    pub fn len(&self) -> (r: usize)
        ensures
            r == self@.len(),
    {
        self.vec.len()
    }

    pub fn is_empty(&self) -> (r: bool)
        ensures
            r == (self@.len() == 0),
    {
        self.vec.len() == 0
    }

    pub fn get(&self, i: usize) -> (r: &O)
        requires
            i < self@.len(),
        ensures
            r@ == self@[i as int],
    {
        &self.vec[i]
    }

    /// Adds `op` at the end. Returns whether it was merged with the last
    /// operation.
    pub fn push(&mut self, op: O) -> (merged: bool)
        requires
            ops_valid::<O>(old(self)@),
            op_valid::<O>(op@),
        ensures
            merged == rle_merges::<O>(old(self)@, op@),
            final(self)@ == rle_push::<O>(old(self)@, op@),
    {
        let n: usize = self.vec.len();
        if n > 0 {
            assert(self@[n - 1] == self.vec@[n - 1]@);
            if self.vec[n - 1].is_mergable(&op) {
                self.vec[n - 1].merge(&op);
                assert(self@ =~= rle_push::<O>(old(self)@, op@));
                return true;
            }
        }
        self.vec.push(op);
        assert(self@ =~= rle_push::<O>(old(self)@, op@));
        false
    }

    /// The position of the operation that holds the atom with the given counter.
    pub fn search_atom_index(&self, counter: Counter) -> (r: usize)
        requires
            self@.len() > 0,
            ops_from::<O>(self@, O::start(self@[0]) as int),
            O::start(self@[0]) <= counter < O::start(self@[0]) + ops_atoms::<O>(self@).len(),
        ensures
            r < self@.len(),
            O::start(self@[r as int]) <= counter < O::start(self@[r as int]) + O::atoms(
                self@[r as int],
            ).len(),
    {
        let ghost s = O::start(self@[0]) as int;
        let mut lo: usize = 0;
        let mut hi: usize = self.vec.len();
        while hi - lo > 1
            invariant
                lo < hi <= self.vec.len(),
                self@.len() == self.vec.len(),
                ops_from::<O>(self@, s),
                O::start(self@[lo as int]) <= counter,
                hi < self.vec.len() ==> counter < O::start(self@[hi as int]),
            decreases hi - lo,
        {
            let mid: usize = lo + (hi - lo) / 2;
            assert(op_follows::<O>(self@, s, mid as int));
            if self.vec[mid].counter() <= counter {
                lo = mid;
            } else {
                hi = mid;
            }
        }
        proof {
            let i = lo as int;
            assert(op_follows::<O>(self@, s, i));
            lemma_ops_atoms_take::<O>(self@, i);
            if hi < self.vec.len() {
                assert(op_follows::<O>(self@, s, hi as int));
            } else {
                assert(self@.take(i + 1) =~= self@);
            }
        }
        lo
    }

    pub fn duplicate(&self) -> (r: Self)
        ensures
            r@ == self@,
    {
        let mut vec: Vec<O> = Vec::new();
        let mut i: usize = 0;
        while i < self.vec.len()
            invariant
                i <= self.vec.len(),
                vec@.len() == i,
                forall|j: int| 0 <= j < i ==> (#[trigger] vec@[j])@ == self.vec@[j]@,
            decreases self.vec.len() - i,
        {
            vec.push(self.vec[i].duplicate());
            i = i + 1;
        }
        let r = RleVec { vec };
        assert(r@ =~= self@);
        r
    }

    /// Whether two vectors hold the same operations.
    pub fn same(&self, other: &Self) -> (r: bool)
        ensures
            r == (self@ == other@),
    {
        if self.vec.len() != other.vec.len() {
            assert(self@.len() != other@.len());
            return false;
        }
        let mut i: usize = 0;
        while i < self.vec.len()
            invariant
                i <= self.vec@.len(),
                self.vec@.len() == other.vec@.len(),
                forall|j: int| 0 <= j < i ==> self@[j] == other@[j],
            decreases self.vec.len() - i,
        {
            assert(self@[i as int] == self.vec@[i as int]@ && other@[i as int] == other.vec@[i as int]@);
            if !self.vec[i].same(&other.vec[i]) {
                return false;
            }
            i = i + 1;
        }
        assert(self@ =~= other@);
        true
    }
}

/// The atoms of the first `i + 1` operations are those of the first `i` ones, and
/// then those of operation `i`.
pub proof fn lemma_ops_atoms_take<O: Operation>(ops: Seq<O::V>, i: int)
    requires
        0 <= i < ops.len(),
    ensures
        ops_atoms::<O>(ops.take(i + 1)) == ops_atoms::<O>(ops.take(i)) + O::atoms(ops[i]),
{
    assert(ops.take(i + 1).drop_last() =~= ops.take(i));
}

/// The atoms of two sequences of operations, one after the other.
pub proof fn lemma_ops_atoms_concat<O: Operation>(a: Seq<O::V>, b: Seq<O::V>)
    ensures
        ops_atoms::<O>(a + b) == ops_atoms::<O>(a) + ops_atoms::<O>(b),
    decreases b.len(),
{
    if b.len() == 0 {
        assert(a + b =~= a);
        assert(ops_atoms::<O>(a) + ops_atoms::<O>(b) =~= ops_atoms::<O>(a));
    } else {
        lemma_ops_atoms_concat::<O>(a, b.drop_last());
        assert((a + b).drop_last() =~= a + b.drop_last());
        assert((a + b).last() == b.last());
        assert(ops_atoms::<O>(a) + ops_atoms::<O>(b) =~= ops_atoms::<O>(a) + ops_atoms::<O>(b.drop_last())
            + O::atoms(b.last()));
    }
}

/// Valid operations have as many atoms as there are operations, or more.
pub proof fn lemma_ops_len<O: Operation>(ops: Seq<O::V>)
    requires
        ops_valid::<O>(ops),
    ensures
        ops.len() <= ops_atoms::<O>(ops).len(),
    decreases ops.len(),
{
    if ops.len() > 0 {
        assert forall|i: int| 0 <= i < ops.drop_last().len() implies op_valid::<O>(
            #[trigger] ops.drop_last()[i],
        ) by {
            assert(ops.drop_last()[i] == ops[i]);
        }
        lemma_ops_len::<O>(ops.drop_last());
        assert(op_valid::<O>(ops[ops.len() - 1]));
    }
}

/// Adding an operation that follows the others keeps the atoms, and leaves
/// operations that follow one another.
pub proof fn lemma_rle_push<O: Operation>(ops: Seq<O::V>, op: O::V, start: int)
    requires
        ops_from::<O>(ops, start),
        op_valid::<O>(op),
        O::start(op) == start + ops_atoms::<O>(ops).len(),
    ensures
        ops_atoms::<O>(rle_push::<O>(ops, op)) == ops_atoms::<O>(ops) + O::atoms(op),
        ops_from::<O>(rle_push::<O>(ops, op), start),
        rle_push::<O>(ops, op).len() > 0,
{
    let r = rle_push::<O>(ops, op);
    if rle_merges::<O>(ops, op) {
        let n = ops.len() - 1;
        assert(op_follows::<O>(ops, start, n));
        O::lemma_merged(ops.last(), op);
        assert(r.drop_last() =~= ops.drop_last());
        assert(ops_atoms::<O>(r) =~= ops_atoms::<O>(ops) + O::atoms(op));
        assert forall|i: int| 0 <= i < r.len() implies #[trigger] op_follows::<O>(r, start, i) by {
            assert(r.take(i) =~= ops.take(i));
            assert(op_follows::<O>(ops, start, i));
        }
    } else {
        assert(r.drop_last() =~= ops);
        assert forall|i: int| 0 <= i < r.len() implies #[trigger] op_follows::<O>(r, start, i) by {
            assert(r.take(i) =~= ops.take(i));
            if i < ops.len() {
                assert(op_follows::<O>(ops, start, i));
            } else {
                assert(ops.take(i) =~= ops);
            }
        }
    }
}

/// Operations that follow one another are valid.
pub proof fn lemma_ops_from_valid<O: Operation>(ops: Seq<O::V>, start: int)
    requires
        ops_from::<O>(ops, start),
    ensures
        ops_valid::<O>(ops),
{
    assert forall|i: int| 0 <= i < ops.len() implies op_valid::<O>(#[trigger] ops[i]) by {
        assert(op_follows::<O>(ops, start, i));
    }
}

} // verus!
