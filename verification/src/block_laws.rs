//! What operations, changes and blocks come to when they are made, tested and put together.
use crate::block::{
    block_changes, block_parsed, block_pushed, block_stored, block_takes, block_valid, joins_last, last_at_or_before,
    lemma_ops_pushed, ops_pushed, single_block, stored_block, BlockView, ContentView,
};
use crate::change::{
    change_covers, change_end, change_follows, change_lamport_end, change_len, change_valid, changes_end,
    changes_lamport_end, changes_valid, depends_on_self, lemma_ops_atoms_prefix, ChangeView,
};
use crate::format::{header_of_changes, StorageFormat};
use crate::ids::{Counter, Lamport, PeerID, ID};
use crate::op::{lemma_ops_atoms_take, op_follows, ops_atoms, rle_merges, rle_push, Operation};
use crate::version::vv_merged;
use vstd::prelude::*;

verus! {

/// A change depends on itself alone if its one dependency is the atom of its peer right before it.
pub proof fn lemma_depends_means<V>(c: ChangeView<V>)
    requires
        c.id.counter > i32::MIN,
    ensures
        depends_on_self(c) <==> c.deps == seq![ID { peer: c.id.peer, counter: (c.id.counter - 1) as Counter }],
{
    let dep = ID { peer: c.id.peer, counter: (c.id.counter - 1) as Counter };
    if depends_on_self(c) {
        assert(c.deps =~= seq![dep]);
    }
}

/// A change is valid if it has operations, its counter is not negative, its first operation starts
/// there and each other one where the one before it ends, none of them is empty, and neither its
/// counters nor its Lamport clocks go beyond what they can be.
pub proof fn lemma_change_valid_means<O: Operation>(c: ChangeView<O::V>)
    ensures
        change_valid::<O>(c) <==> {
            &&& c.ops.len() > 0
            &&& c.id.counter >= 0
            &&& O::start(c.ops[0]) == c.id.counter
            &&& forall|i: int| 0 <= i < c.ops.len() ==> O::atoms(#[trigger] c.ops[i]).len() > 0
            &&& forall|i: int| #![trigger c.ops[i - 1]]
                0 < i < c.ops.len() ==> O::start(c.ops[i]) == O::start(c.ops[i - 1]) + O::atoms(c.ops[i - 1]).len()
            &&& c.id.counter + ops_atoms::<O>(c.ops).len() <= i32::MAX
            &&& c.lamport + ops_atoms::<O>(c.ops).len() <= u32::MAX
        },
{
    let start = c.id.counter as int;
    let n = c.ops.len() as int;
    if change_valid::<O>(c) {
        assert(op_follows::<O>(c.ops, start, 0));
        assert(c.ops.take(0) =~= seq![]);
        assert forall|i: int| 0 <= i < n implies O::atoms(#[trigger] c.ops[i]).len() > 0 by {
            assert(op_follows::<O>(c.ops, start, i));
        }
        assert forall|i: int| #![trigger c.ops[i - 1]] 0 < i < n implies O::start(c.ops[i]) == O::start(c.ops[i - 1])
            + O::atoms(c.ops[i - 1]).len() by {
            assert(op_follows::<O>(c.ops, start, i));
            assert(op_follows::<O>(c.ops, start, i - 1));
            lemma_ops_atoms_take::<O>(c.ops, i - 1);
        }
    }
    if {
        &&& c.ops.len() > 0
        &&& c.id.counter >= 0
        &&& O::start(c.ops[0]) == c.id.counter
        &&& forall|i: int| 0 <= i < c.ops.len() ==> O::atoms(#[trigger] c.ops[i]).len() > 0
        &&& forall|i: int| #![trigger c.ops[i - 1]]
            0 < i < c.ops.len() ==> O::start(c.ops[i]) == O::start(c.ops[i - 1]) + O::atoms(c.ops[i - 1]).len()
        &&& c.id.counter + ops_atoms::<O>(c.ops).len() <= i32::MAX
        &&& c.lamport + ops_atoms::<O>(c.ops).len() <= u32::MAX
    } {
        assert forall|i: int| 0 <= i < n implies #[trigger] op_follows::<O>(c.ops, start, i) by {
            lemma_op_stands::<O>(c, i);
            lemma_ops_atoms_take::<O>(c.ops, i);
            lemma_ops_atoms_prefix::<O>(c.ops, i + 1);
        }
    }
}

/// Operation `i` starts after the atoms of those before it.
proof fn lemma_op_stands<O: Operation>(c: ChangeView<O::V>, i: int)
    requires
        0 <= i < c.ops.len(),
        O::start(c.ops[0]) == c.id.counter,
        forall|i: int| #![trigger c.ops[i - 1]]
            0 < i < c.ops.len() ==> O::start(c.ops[i]) == O::start(c.ops[i - 1]) + O::atoms(c.ops[i - 1]).len(),
    ensures
        O::start(c.ops[i]) == c.id.counter + ops_atoms::<O>(c.ops.take(i)).len(),
    decreases i,
{
    if i == 0 {
        assert(c.ops.take(0) =~= seq![]);
    } else {
        lemma_op_stands::<O>(c, i - 1);
        lemma_ops_atoms_take::<O>(c.ops, i - 1);
        assert(c.ops[i - 1] == c.ops[i - 1]);
    }
}

/// Changes are a history if there are any, each of them is valid and of the same peer, and each but
/// the first starts where the one before it ends.
pub proof fn lemma_history_means<O: Operation>(s: Seq<ChangeView<O::V>>)
    ensures
        changes_valid::<O>(s) <==> {
            &&& s.len() > 0
            &&& forall|i: int| 0 <= i < s.len() ==> change_valid::<O>(#[trigger] s[i]) && s[i].id.peer == s[0].id.peer
            &&& forall|i: int| #![trigger s[i - 1]]
                0 < i < s.len() ==> s[i].id.counter == s[i - 1].id.counter + ops_atoms::<O>(s[i - 1].ops).len()
        },
{
    if changes_valid::<O>(s) {
        assert forall|i: int| 0 <= i < s.len() implies change_valid::<O>(#[trigger] s[i]) && s[i].id.peer
            == s[0].id.peer by {
            assert(change_follows::<O>(s, i));
        }
        assert forall|i: int| #![trigger s[i - 1]] 0 < i < s.len() implies s[i].id.counter == s[i - 1].id.counter
            + ops_atoms::<O>(s[i - 1].ops).len() by {
            assert(change_follows::<O>(s, i));
        }
    }
}

/// Adding an operation merges it with the last one if the two are mergable, and else puts it at the end.
pub proof fn lemma_rle_means<O: Operation>(ops: Seq<O::V>, op: O::V)
    ensures
        ops.len() > 0 && O::mergable(ops.last(), op) ==> rle_merges::<O>(ops, op) && rle_push::<O>(ops, op)
            == ops.update(ops.len() - 1, O::merged(ops.last(), op)),
        !(ops.len() > 0 && O::mergable(ops.last(), op)) ==> !rle_merges::<O>(ops, op) && rle_push::<O>(ops, op)
            == ops.push(op),
{
}

/// Adding operations adds one after the other, and counts the size of those that are not merged.
pub proof fn lemma_ops_pushed_means<O: StorageFormat>(ops: Seq<O::V>, size: usize, more: Seq<O::V>, op: O::V)
    ensures
        ops_pushed::<O>(ops, size, seq![]) == (ops, size),
        ({
            let (p, n) = ops_pushed::<O>(ops, size, more);
            if p.len() > 0 && O::mergable(p.last(), op) {
                ops_pushed::<O>(ops, size, more.push(op)) == (p.update(p.len() - 1, O::merged(p.last(), op)), n)
            } else {
                let total = n + O::storage_size(op);
                ops_pushed::<O>(ops, size, more.push(op)) == (
                    p.push(op),
                    if total > usize::MAX {
                        usize::MAX
                    } else {
                        total as usize
                    },
                )
            }
        }),
{
    assert(more.push(op).drop_last() =~= more);
}

/// What offering a change of the given size to a block does. The block takes no change that does not
/// start where the block ends. It merges the change with its last one exactly if the change depends
/// on the atom right before it and on nothing else, was made less than the merge interval after that
/// one, and there is room within 4096 bytes or it is one operation that goes on from the last one.
/// Otherwise it takes the change as it is, if there is room.
pub proof fn lemma_push_result<O: StorageFormat>(
    b: BlockView<O::V>,
    c: ChangeView<O::V>,
    size: usize,
    merge_interval: i64,
)
    requires
        block_valid::<O>(b),
        change_valid::<O>(c),
        ({
            let last = block_changes::<O>(b).last();
            joins_last::<O>(b, c, size, merge_interval) ==> last.lamport + ops_atoms::<O>(last.ops).len() + ops_atoms::<
                O,
            >(c.ops).len() <= u32::MAX
        }),
    ensures
        ({
            let s = block_changes::<O>(b);
            let n = s.len() - 1;
            let p = block_pushed::<O>(b, c, size, merge_interval);
            let t = block_changes::<O>(p);
            let before = ID { peer: c.id.peer, counter: (c.id.counter - 1) as Counter };
            let has_room = b.estimated_size + size <= 4096;
            let joins = c.deps == seq![before] && c.timestamp - s[n].timestamp < merge_interval && (has_room || (
            c.ops.len() == 1 && O::mergable(s[n].ops.last(), c.ops[0])));
            let comes = b.counter_range.1 == c.id.counter;
            &&& block_takes::<O>(b, c, size, merge_interval) <==> comes && (joins || has_room)
            &&& !comes ==> p == b
            &&& comes && !joins && !has_room ==> p == (BlockView { content: ContentView::Changes(s), ..b })
            &&& comes && !joins && has_room ==> p == (BlockView {
                content: ContentView::Changes(s.push(c)),
                estimated_size: (b.estimated_size + size) as usize,
                counter_range: (b.counter_range.0, (c.id.counter + ops_atoms::<O>(c.ops).len()) as Counter),
                lamport_range: (b.lamport_range.0, (c.lamport + ops_atoms::<O>(c.ops).len()) as Lamport),
                ..b
            })
            &&& comes && joins ==> p == (BlockView {
                content: ContentView::Changes(s.update(n, ChangeView { ops: t[n].ops, ..s[n] })),
                estimated_size: p.estimated_size,
                counter_range: (b.counter_range.0, (c.id.counter + ops_atoms::<O>(c.ops).len()) as Counter),
                lamport_range: (b.lamport_range.0, (c.lamport + ops_atoms::<O>(c.ops).len()) as Lamport),
                ..b
            }) && ops_atoms::<O>(t[n].ops) == ops_atoms::<O>(s[n].ops) + ops_atoms::<O>(c.ops) && (
            t[n].ops, p.estimated_size) == ops_pushed::<O>(s[n].ops, b.estimated_size, c.ops)
        }),
{
    let s = block_changes::<O>(b);
    let n = s.len() - 1;
    let before = ID { peer: c.id.peer, counter: (c.id.counter - 1) as Counter };
    assert(c.deps.len() == 1 && c.deps[0] == before ==> c.deps =~= seq![before]);
    assert(change_follows::<O>(s, n));
    if b.counter_range.1 == c.id.counter && joins_last::<O>(b, c, size, merge_interval) {
        lemma_ops_pushed::<O>(s[n].ops, b.estimated_size, c.ops, s[n].id.counter as int);
    }
}

/// The block of a single change holds that change as it is.
pub proof fn lemma_new_block_result<O: StorageFormat>(c: ChangeView<O::V>)
    ensures
        single_block::<O>(c) == (BlockView {
            peer: c.id.peer,
            counter_range: (c.id.counter, (c.id.counter + ops_atoms::<O>(c.ops).len()) as Counter),
            lamport_range: (c.lamport, (c.lamport + ops_atoms::<O>(c.ops).len()) as Lamport),
            estimated_size: O::change_size(c),
            flushed: false,
            content: ContentView::Changes(seq![c]),
        }),
{
}

/// A block that is read from its bytes has the changes that they hold, their peer and their ranges, and
/// the size of the bytes.
pub proof fn lemma_stored_block_result<O: StorageFormat>(bytes: Seq<u8>, flushed: bool)
    requires
        O::block_of(bytes) matches Some(s) && changes_valid::<O>(s),
    ensures
        ({
            let s = O::block_of(bytes)->0;
            let b = stored_block::<O>(bytes, flushed);
            let last = s.last();
            &&& block_changes::<O>(b) == s
            &&& b.peer == s[0].id.peer
            &&& b.counter_range.0 == s[0].id.counter
            &&& b.counter_range.1 == last.id.counter + ops_atoms::<O>(last.ops).len()
            &&& b.lamport_range.0 == s[0].lamport
            &&& b.lamport_range.1 == last.lamport + ops_atoms::<O>(last.ops).len()
            &&& b.estimated_size == bytes.len() as usize
            &&& b.flushed == flushed
            &&& b.content matches ContentView::Bytes(x) && x.bytes == bytes
        }),
{
    let s = O::block_of(bytes)->0;
    O::lemma_header(bytes, s);
    let h = header_of_changes::<O>(s);
    assert(change_follows::<O>(s, s.len() - 1));
    assert(h.counters.last() == changes_end::<O>(s));
    assert(h.lamports.last() == changes_lamport_end::<O>(s));
    assert(h.lamports[0] == s[0].lamport);
}

/// Reading the changes of a block into memory changes nothing but how they are held: beside the bytes,
/// where there are any.
pub proof fn lemma_parsed_result<O: StorageFormat>(b: BlockView<O::V>)
    ensures
        ({
            let p = block_parsed::<O>(b);
            &&& p == (BlockView { content: p.content, ..b })
            &&& b.content !is Bytes ==> p == b
            &&& b.content matches ContentView::Bytes(x) ==> (p.content matches ContentView::Both(s, y) && s
                == O::block_of(x.bytes)->0 && y.bytes == x.bytes)
        }),
{
}

/// A block counts as stored if it was flushed and took no change since.
pub proof fn lemma_stored_means<V>(b: BlockView<V>)
    ensures
        block_stored(b) <==> b.flushed && !(b.content is Changes),
{
}

/// What the header of a block says: its peer, where it starts, how many changes it has, where each of
/// them starts, and where the last one ends.
pub proof fn lemma_header_means<O: Operation>(s: Seq<ChangeView<O::V>>)
    requires
        changes_valid::<O>(s),
        s.len() <= usize::MAX,
    ensures
        ({
            let h = header_of_changes::<O>(s);
            let last = s.last();
            &&& h.peer == s[0].id.peer
            &&& h.counter == s[0].id.counter
            &&& h.n_changes == s.len()
            &&& h.counters.len() == s.len() + 1
            &&& h.lamports.len() == s.len() + 1
            &&& forall|i: int| 0 <= i < s.len() ==> h.counters[i] == (#[trigger] s[i]).id.counter
            &&& forall|i: int| 0 <= i < s.len() ==> h.lamports[i] == (#[trigger] s[i]).lamport
            &&& h.counters[s.len() as int] == last.id.counter + ops_atoms::<O>(last.ops).len()
            &&& h.lamports[s.len() as int] == last.lamport + ops_atoms::<O>(last.ops).len()
        }),
{
    assert(change_follows::<O>(s, s.len() - 1));
}

/// A merged version vector knows, of each peer, the more that one of the two knows.
pub proof fn lemma_merged_means(a: Map<PeerID, Counter>, b: Map<PeerID, Counter>, p: PeerID)
    ensures
        vv_merged(a, b).contains_key(p) <==> a.contains_key(p) || b.contains_key(p),
        a.contains_key(p) && b.contains_key(p) ==> vv_merged(a, b)[p] == (if a[p] >= b[p] {
            a[p]
        } else {
            b[p]
        }),
        a.contains_key(p) && !b.contains_key(p) ==> vv_merged(a, b)[p] == a[p],
        !a.contains_key(p) && b.contains_key(p) ==> vv_merged(a, b)[p] == b[p],
{
}

/// The atoms of operations are those of each of them, one after the other.
pub proof fn lemma_atoms_means<O: Operation>(ops: Seq<O::V>, op: O::V)
    ensures
        ops_atoms::<O>(seq![]) == Seq::<O::Atom>::empty(),
        ops_atoms::<O>(ops.push(op)) == ops_atoms::<O>(ops) + O::atoms(op),
{
    assert(ops_atoms::<O>(seq![]) =~= Seq::<O::Atom>::empty());
    assert(ops.push(op).drop_last() =~= ops);
}

/// A change holds the counters from its own on, as many as it has atoms.
pub proof fn lemma_covers_means<O: Operation>(c: ChangeView<O::V>, counter: int)
    ensures
        change_covers::<O>(c, counter) <==> c.id.counter <= counter < c.id.counter + ops_atoms::<O>(c.ops).len(),
        change_len::<O>(c) == ops_atoms::<O>(c.ops).len(),
        change_end::<O>(c) == c.id.counter + ops_atoms::<O>(c.ops).len(),
        change_lamport_end::<O>(c) == c.lamport + ops_atoms::<O>(c.ops).len(),
{
}

/// The last change that is early enough: it is, and none after it is; or none at all is.
pub proof fn lemma_last_means<O: Operation>(s: Seq<ChangeView<O::V>>, lamport: Lamport, r: Option<usize>, j: int)
    requires
        last_at_or_before::<O>(s, lamport, r),
        0 <= j < s.len(),
    ensures
        r matches Some(i) ==> i < s.len() && s[i as int].lamport <= lamport && (s[j].lamport <= lamport ==> j <= i),
        r is None ==> s[j].lamport > lamport,
{
}

} // verus!
