//! Changes: runs of operations that one peer made together.
use crate::ids::{Counter, Lamport, Timestamp, ID};
use crate::op::{
    lemma_ops_atoms_take, lemma_ops_from_valid, lemma_ops_len, op_follows, op_valid, ops_atoms, ops_from, ops_valid,
    Operation, RleVec,
};
use vstd::prelude::*;

verus! {

/// The last operations of a version: those that nothing in the version depends on.
#[derive(Debug)]
pub struct Frontiers {
    pub ids: Vec<ID>,
}

impl View for Frontiers {
    type V = Seq<ID>;

    open spec fn view(&self) -> Seq<ID> {
        self.ids@
    }
}

impl Frontiers {
    /// No operation at all.
    pub fn new() -> (r: Self)
        ensures
            r@ == Seq::<ID>::empty(),
    {
        Frontiers { ids: Vec::new() }
    }

    pub fn from_id(id: ID) -> (r: Self)
        ensures
            r@ == seq![id],
    {
        let mut ids: Vec<ID> = Vec::new();
        ids.push(id);
        assert(ids@ =~= seq![id]);
        Frontiers { ids }
    }

    pub fn len(&self) -> (r: usize)
        ensures
            r == self@.len(),
    {
        self.ids.len()
    }

    pub fn duplicate(&self) -> (r: Self)
        ensures
            r@ == self@,
    {
        let mut ids: Vec<ID> = Vec::new();
        let mut i: usize = 0;
        while i < self.ids.len()
            invariant
                i <= self.ids.len(),
                ids@ =~= self.ids@.take(i as int),
            decreases self.ids.len() - i,
        {
            ids.push(self.ids[i]);
            i = i + 1;
        }
        assert(ids@ =~= self.ids@);
        Frontiers { ids }
    }

    /// Whether two versions have the same last operations, in the same order.
    pub fn same(&self, other: &Self) -> (r: bool)
        ensures
            r == (self@ == other@),
    {
        if self.ids.len() != other.ids.len() {
            return false;
        }
        let mut i: usize = 0;
        while i < self.ids.len()
            invariant
                i <= self.ids@.len(),
                self.ids@.len() == other.ids@.len(),
                forall|j: int| 0 <= j < i ==> self.ids@[j] == other.ids@[j],
            decreases self.ids.len() - i,
        {
            if self.ids[i] != other.ids[i] {
                return false;
            }
            i = i + 1;
        }
        assert(self.ids@ =~= other.ids@);
        true
    }
}

/// A run of operations of one peer, which depend on the same earlier operations.
#[derive(Debug)]
pub struct Change<O> {
    pub ops: RleVec<O>,
    pub deps: Frontiers,
    /// The identity of the first atom.
    pub id: ID,
    /// The Lamport clock of the first atom.
    pub lamport: Lamport,
    pub timestamp: Timestamp,
}

/// What a change holds.
#[verifier::ext_equal]
pub struct ChangeView<V> {
    pub ops: Seq<V>,
    pub deps: Seq<ID>,
    pub id: ID,
    pub lamport: Lamport,
    pub timestamp: Timestamp,
}

impl<O: Operation> View for Change<O> {
    type V = ChangeView<O::V>;

    open spec fn view(&self) -> ChangeView<O::V> {
        ChangeView {
            ops: self.ops@,
            deps: self.deps@,
            id: self.id,
            lamport: self.lamport,
            timestamp: self.timestamp,
        }
    }
}

/// The atoms of a change, in the order of their counters.
pub open spec fn change_atoms<O: Operation>(c: ChangeView<O::V>) -> Seq<O::Atom> {
    ops_atoms::<O>(c.ops)
}

/// The number of atoms of a change.
pub open spec fn change_len<O: Operation>(c: ChangeView<O::V>) -> nat {
    ops_atoms::<O>(c.ops).len()
}

/// The counter after the last atom of a change.
pub open spec fn change_end<O: Operation>(c: ChangeView<O::V>) -> int {
    c.id.counter + change_len::<O>(c)
}

/// The Lamport clock after the last atom of a change.
pub open spec fn change_lamport_end<O: Operation>(c: ChangeView<O::V>) -> int {
    c.lamport + change_len::<O>(c)
}

/// A change has operations, which follow one another from the counter of its
/// identity on, and the counters and Lamport clocks of its atoms, and those after
/// them, are counters and Lamport clocks.
pub open spec fn change_valid<O: Operation>(c: ChangeView<O::V>) -> bool {
    &&& c.ops.len() > 0
    &&& c.id.counter >= 0
    &&& ops_from::<O>(c.ops, c.id.counter as int)
    &&& change_end::<O>(c) <= i32::MAX
    &&& change_lamport_end::<O>(c) <= u32::MAX
}

/// Whether the change depends on the operation of its own peer right before it,
/// and on nothing else.
pub open spec fn depends_on_self<V>(c: ChangeView<V>) -> bool {
    &&& c.deps.len() == 1
    &&& c.deps[0].peer == c.id.peer
    &&& c.deps[0].counter == c.id.counter - 1
}

/// Whether the change holds the atom with the given counter.
pub open spec fn change_covers<O: Operation>(c: ChangeView<O::V>, counter: int) -> bool {
    c.id.counter <= counter < change_end::<O>(c)
}

impl<O: Operation> Change<O> {
    /// The number of atoms.
    pub fn atom_len(&self) -> (r: usize)
        requires
            ops_valid::<O>(self@.ops),
            change_len::<O>(self@) <= i32::MAX,
        ensures
            r == change_len::<O>(self@),
    {
        let mut n: usize = 0;
        let mut i: usize = 0;
        while i < self.ops.vec.len()
            invariant
                i <= self.ops.vec.len(),
                self@.ops.len() == self.ops.vec.len(),
                n == ops_atoms::<O>(self@.ops.take(i as int)).len(),
                ops_valid::<O>(self@.ops),
                change_len::<O>(self@) <= i32::MAX,
            decreases self.ops.vec.len() - i,
        {
            proof {
                lemma_ops_atoms_take::<O>(self@.ops, i as int);
                lemma_ops_atoms_prefix::<O>(self@.ops, i + 1);
                assert(op_valid::<O>(self@.ops[i as int]));
                assert(self.ops.vec@[i as int]@ == self@.ops[i as int]);
            }
            n = n + self.ops.vec[i].atom_len();
            i = i + 1;
        }
        assert(self@.ops.take(i as int) =~= self@.ops);
        n
    }

    /// Whether the change has operations, which follow one another, and its counters and
    /// Lamport clocks do not go beyond what they can be.
    pub fn is_valid(&self) -> (r: bool)
        ensures
            r == change_valid::<O>(self@),
    {
        let ghost start = self.id.counter as int;
        if self.ops.vec.len() == 0 || self.id.counter < 0 {
            return false;
        }
        let mut n: usize = 0;
        let mut i: usize = 0;
        while i < self.ops.vec.len()
            invariant
                i <= self.ops.vec.len(),
                self@.ops.len() == self.ops.vec.len(),
                start == self@.id.counter,
                0 <= start,
                n == ops_atoms::<O>(self@.ops.take(i as int)).len(),
                start + n <= i32::MAX,
                forall|j: int| 0 <= j < i ==> #[trigger] op_follows::<O>(self@.ops, start, j),
            decreases self.ops.vec.len() - i,
        {
            proof {
                lemma_ops_atoms_take::<O>(self@.ops, i as int);
                assert(self.ops.vec@[i as int]@ == self@.ops[i as int]);
            }
            let counter: Counter = self.ops.vec[i].counter();
            let len: usize = self.ops.vec[i].atom_len();
            if counter as i128 != self.id.counter as i128 + n as i128 || len == 0 || counter as i128 + len as i128
                > i32::MAX as i128 {
                assert(!op_follows::<O>(self@.ops, start, i as int));
                return false;
            }
            assert(op_follows::<O>(self@.ops, start, i as int));
            n = n + len;
            i = i + 1;
        }
        assert(self@.ops.take(i as int) =~= self@.ops);
        self.lamport as u64 + n as u64 <= u32::MAX as u64
    }

    /// The number of atoms.
    pub fn content_len(&self) -> (r: usize)
        requires
            change_valid::<O>(self@),
        ensures
            r == change_len::<O>(self@),
    {
        proof {
            lemma_ops_from_valid::<O>(self@.ops, self.id.counter as int);
        }
        self.atom_len()
    }

    /// The counter after the last atom.
    pub fn ctr_end(&self) -> (r: Counter)
        requires
            change_valid::<O>(self@),
        ensures
            r == change_end::<O>(self@),
    {
        let len: usize = self.content_len();
        self.id.counter + len as Counter
    }

    /// Whether two changes are the same.
    pub fn same(&self, other: &Self) -> (r: bool)
        ensures
            r == (self@ == other@),
    {
        self.id == other.id && self.lamport == other.lamport && self.timestamp == other.timestamp && self.deps.same(
            &other.deps,
        ) && self.ops.same(&other.ops)
    }

    /// Whether the change depends on the operation of its own peer right before
    /// it, and on nothing else.
    pub fn deps_on_self(&self) -> (r: bool)
        ensures
            r == depends_on_self(self@),
            r == (self@.deps.len() == 1 && self@.deps[0].peer == self@.id.peer && self@.deps[0].counter + 1
                == self@.id.counter),
    {
        if self.deps.ids.len() != 1 {
            return false;
        }
        let dep: ID = self.deps.ids[0];
        dep.peer == self.id.peer && self.id.counter > i32::MIN && dep.counter == self.id.counter - 1
    }
}

impl<O: Operation> Clone for Change<O> {
    fn clone(&self) -> (r: Self)
        ensures
            r@ == self@,
    {
        Change {
            ops: self.ops.duplicate(),
            deps: self.deps.duplicate(),
            id: self.id,
            lamport: self.lamport,
            timestamp: self.timestamp,
        }
    }
}

/// The first `i` operations have no more atoms than all of them.
pub proof fn lemma_ops_atoms_prefix<O: Operation>(ops: Seq<O::V>, i: int)
    requires
        0 <= i <= ops.len(),
    ensures
        ops_atoms::<O>(ops.take(i)).len() <= ops_atoms::<O>(ops).len(),
    decreases ops.len() - i,
{
    if i == ops.len() {
        assert(ops.take(i) =~= ops);
    } else {
        lemma_ops_atoms_take::<O>(ops, i);
        lemma_ops_atoms_prefix::<O>(ops, i + 1);
    }
}

/// What the changes of a vector hold.
pub open spec fn changes_view<O: Operation>(v: Seq<Change<O>>) -> Seq<ChangeView<O::V>> {
    v.map_values(|c: Change<O>| c@)
}

/// Change `i` is valid, is of the same peer as the first one, and comes right after
/// the one before it.
pub open spec fn change_follows<O: Operation>(s: Seq<ChangeView<O::V>>, i: int) -> bool {
    &&& change_valid::<O>(s[i])
    &&& s[i].id.peer == s[0].id.peer
    &&& i > 0 ==> change_end::<O>(s[i - 1]) == s[i].id.counter
}

/// A history without holes of one peer: at least one change, each right after the
/// one before it.
pub open spec fn changes_valid<O: Operation>(s: Seq<ChangeView<O::V>>) -> bool {
    &&& s.len() > 0
    &&& forall|i: int| 0 <= i < s.len() ==> #[trigger] change_follows::<O>(s, i)
}

/// The counter after the last atom of a history.
pub open spec fn changes_end<O: Operation>(s: Seq<ChangeView<O::V>>) -> int {
    change_end::<O>(s.last())
}

/// The Lamport clock after the last atom of a history.
pub open spec fn changes_lamport_end<O: Operation>(s: Seq<ChangeView<O::V>>) -> int {
    change_lamport_end::<O>(s.last())
}

/// The Lamport clocks grow from change to change.
pub open spec fn lamports_ordered<O: Operation>(s: Seq<ChangeView<O::V>>) -> bool {
    forall|i: int, j: int|
        0 <= i < j < s.len() ==> change_lamport_end::<O>(#[trigger] s[i]) <= (#[trigger] s[j]).lamport
}

/// The atoms of a history, in the order of their counters.
pub open spec fn changes_atoms<O: Operation>(s: Seq<ChangeView<O::V>>) -> Seq<O::Atom>
    decreases s.len(),
{
    if s.len() == 0 {
        seq![]
    } else {
        changes_atoms::<O>(s.drop_last()) + change_atoms::<O>(s.last())
    }
}

/// In a history, a change ends before a later one starts.
pub proof fn lemma_changes_order<O: Operation>(s: Seq<ChangeView<O::V>>, i: int, j: int)
    requires
        changes_valid::<O>(s),
        0 <= i < j < s.len(),
    ensures
        change_end::<O>(s[i]) <= s[j].id.counter,
        s[i].id.counter < s[j].id.counter,
        s[i].id.peer == s[j].id.peer,
    decreases j - i,
{
    assert(change_follows::<O>(s, i));
    assert(change_follows::<O>(s, j));
    lemma_change_nonempty::<O>(s[i]);
    if i + 1 < j {
        lemma_changes_order::<O>(s, i, j - 1);
        assert(change_follows::<O>(s, j - 1));
        lemma_change_nonempty::<O>(s[j - 1]);
    }
}

/// A change has an atom.
pub proof fn lemma_change_nonempty<O: Operation>(c: ChangeView<O::V>)
    requires
        change_valid::<O>(c),
    ensures
        change_len::<O>(c) > 0,
{
    lemma_ops_from_valid::<O>(c.ops, c.id.counter as int);
    lemma_ops_len::<O>(c.ops);
}

/// A history has an atom for each counter from its start to its end.
pub proof fn lemma_changes_atoms_len<O: Operation>(s: Seq<ChangeView<O::V>>)
    requires
        changes_valid::<O>(s),
    ensures
        changes_atoms::<O>(s).len() == changes_end::<O>(s) - s[0].id.counter,
        changes_end::<O>(s) > s[0].id.counter,
    decreases s.len(),
{
    assert(change_follows::<O>(s, s.len() - 1));
    lemma_change_nonempty::<O>(s.last());
    if s.len() > 1 {
        let t = s.drop_last();
        assert forall|i: int| 0 <= i < t.len() implies #[trigger] change_follows::<O>(t, i) by {
            assert(change_follows::<O>(s, i));
        }
        lemma_changes_atoms_len::<O>(t);
        assert(t.last() == s[s.len() - 2]);
    } else {
        assert(s.drop_last() =~= seq![]);
        assert(changes_atoms::<O>(s.drop_last()) =~= seq![]);
    }
}

/// A history has no more changes than counters.
pub proof fn lemma_changes_len<O: Operation>(s: Seq<ChangeView<O::V>>)
    requires
        changes_valid::<O>(s),
    ensures
        s.len() <= changes_end::<O>(s) - s[0].id.counter,
        s.len() <= i32::MAX,
    decreases s.len(),
{
    assert(change_follows::<O>(s, 0));
    assert(change_follows::<O>(s, s.len() - 1));
    lemma_change_nonempty::<O>(s.last());
    if s.len() > 1 {
        let t = s.drop_last();
        assert forall|i: int| 0 <= i < t.len() implies #[trigger] change_follows::<O>(t, i) by {
            assert(change_follows::<O>(s, i));
        }
        lemma_changes_len::<O>(t);
        assert(t.last() == s[s.len() - 2]);
    }
}

/// Whether two vectors hold the same changes.
pub fn same_changes<O: Operation>(a: &Vec<Change<O>>, b: &Vec<Change<O>>) -> (r: bool)
    ensures
        r == (changes_view(a@) == changes_view(b@)),
{
    let ghost (s, t) = (changes_view(a@), changes_view(b@));
    if a.len() != b.len() {
        assert(s.len() != t.len());
        return false;
    }
    let mut i: usize = 0;
    while i < a.len()
        invariant
            i <= a@.len(),
            a@.len() == b@.len(),
            s == changes_view(a@),
            t == changes_view(b@),
            forall|j: int| 0 <= j < i ==> s[j] == t[j],
        decreases a.len() - i,
    {
        assert(s[i as int] == a@[i as int]@ && t[i as int] == b@[i as int]@);
        if !a[i].same(&b[i]) {
            return false;
        }
        i = i + 1;
    }
    assert(s =~= t);
    true
}

/// Whether changes are a history without holes of one peer.
pub fn is_history<O: Operation>(changes: &Vec<Change<O>>) -> (r: bool)
    ensures
        r == changes_valid::<O>(changes_view(changes@)),
{
    let ghost s = changes_view(changes@);
    if changes.len() == 0 {
        return false;
    }
    let mut i: usize = 0;
    while i < changes.len()
        invariant
            i <= changes@.len(),
            s == changes_view(changes@),
            s.len() > 0,
            forall|j: int| 0 <= j < i ==> #[trigger] change_follows::<O>(s, j),
        decreases changes.len() - i,
    {
        assert(changes@[i as int]@ == s[i as int]);
        assert(changes@[0]@ == s[0]);
        let mut follows: bool = changes[i].is_valid() && changes[i].id.peer == changes[0].id.peer;
        if i > 0 {
            assert(changes@[i - 1]@ == s[i - 1]);
            assert(change_follows::<O>(s, i - 1));
            follows = follows && changes[i - 1].ctr_end() == changes[i].id.counter;
        }
        assert(follows == change_follows::<O>(s, i as int));
        if !follows {
            return false;
        }
        i = i + 1;
    }
    true
}

} // verus!
