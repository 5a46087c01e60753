//! What inserting a change comes to: where it stands afterwards, and what it is cut into.
use crate::block::{
    block_changes, block_pushed, block_takes, joins_last, lemma_block_pushed, lemma_ops_pushed, ops_pushed, BlockView,
    ContentView,
};
use crate::block_map::{id_order, lemma_has_place, lemma_id_order, lemma_place, place};
use crate::change::{
    change_atoms, change_end, change_follows, change_valid, changes_atoms, changes_lamport_end, lemma_change_nonempty,
    lemma_changes_atoms_len, lemma_changes_order, ChangeView,
};
use crate::format::{size_sum, StorageFormat};
use crate::ids::{Counter, IdLp, Lamport, ID};
use crate::insert_laws::{
    change_kept, first_atoms, lemma_changes_atoms_take, lemma_history_atom, lemma_insert_change,
    lemma_insert_change_lamports, lemma_insert_one_kept, lemma_insert_pieces,
};
use crate::log::{
    comes_next, covering, covers, lemma_covers_unique, log_atoms, log_block_valid, log_has, log_lamports_follow, Log,
};
use crate::op::{lemma_rle_push, ops_atoms};
use crate::read_laws::{clocks_grow, lemma_clocks_grow, lemma_latest_result};
use crate::read_view::lemma_change_covers;
use crate::sorted::{is_place, key_index, keys_grow, lemma_found_at, map_of};
use crate::split::{
    lemma_op_at, lemma_pieces_peer, lemma_split_cur, lemma_split_cut, lemma_split_fits, lemma_split_off,
    lemma_split_ops, lemma_split_pieces, lemma_split_put, op_at, piece_fits, piece_valid, room, split_cut, split_off,
    split_op, split_ops, split_pieces, split_put, split_start, split_valid, SplitView,
};
use crate::store_view::{
    accepts, accepts_one, insert_all, insert_one, inserted, known, lemma_insert_one_step, lemma_mem_entry,
    lemma_not_in_log, log_of, store_valid, vv_key, StoreView,
};
use vstd::prelude::*;

verus! {

/// Where a change lands that is not cut: one of at most 4096 bytes, or any where no cutting is
/// asked for.
///
/// If the block in memory that ends where the change starts is of its peer, the change is
/// merged with the last change there exactly if it depends on the atom right before it and
/// nothing else, was made less than the merge interval after that change, and the block has room
/// for it within 4096 bytes or it is one operation that goes on from the last one. Otherwise the
/// block takes the change, as it is, if it has room, and where it has none, or there is no such
/// block, the change, as it is, makes up a new block. Nothing else in the log changes.
pub proof fn lemma_insert_lands<O: StorageFormat>(s: StoreView<O::V>, c: ChangeView<O::V>, split_when_exceeds: bool)
    requires
        store_valid::<O>(s),
        change_valid::<O>(c),
        accepts::<O>(s, c, split_when_exceeds),
        O::change_size(c) <= 4096 || !split_when_exceeds,
    ensures
        ({
            let t = inserted::<O>(s, c, split_when_exceeds);
            let (l, m) = (log_of::<O>(s), log_of::<O>(t));
            let before = ID { peer: c.id.peer, counter: (c.id.counter - 1) as Counter };
            &&& (forall|k: int| 0 <= k < s.mem.len() ==> (#[trigger] s.mem[k]).0.peer != c.id.peer) ==> m == l.insert(
                c.id,
                seq![c],
            )
            &&& forall|k: int|
                0 <= k < s.mem.len() && (#[trigger] s.mem[k]).0.peer == c.id.peer && s.mem[k].1.counter_range.1
                    == c.id.counter ==> {
                    let (bid, b) = s.mem[k];
                    let n = l[bid].len() - 1;
                    let last = l[bid][n];
                    let has_room = b.estimated_size + O::change_size(c) <= 4096;
                    let joins = c.deps == seq![before] && c.timestamp - last.timestamp < s.merge_interval && (has_room
                        || (c.ops.len() == 1 && O::mergable(last.ops.last(), c.ops[0])));
                    &&& joins ==> m == l.insert(bid, l[bid].update(n, ChangeView { ops: m[bid][n].ops, ..last }))
                        && ops_atoms::<O>(m[bid][n].ops) == ops_atoms::<O>(last.ops) + ops_atoms::<O>(c.ops)
                    &&& !joins && has_room ==> m == l.insert(bid, l[bid].push(c))
                    &&& !joins && !has_room ==> m == l.insert(c.id, seq![c])
                }
        }),
{
    lemma_insert_one_step::<O>(s, c);
    let i = place(s.mem, c.id);
    let t = insert_one::<O>(s, c);
    assert(t == inserted::<O>(s, c, split_when_exceeds));
    let (l, m) = (log_of::<O>(s), log_of::<O>(t));
    let before = ID { peer: c.id.peer, counter: (c.id.counter - 1) as Counter };
    lemma_id_order();
    lemma_has_place(s.mem, c.id);
    lemma_not_in_log::<O>(s, c);
    assert(c.deps.len() == 1 && c.deps[0] == before ==> c.deps =~= seq![before]);
    if i > 0 {
        lemma_mem_entry::<O>(s, i - 1);
    }
    assert forall|k: int|
        0 <= k < s.mem.len() && (#[trigger] s.mem[k]).0.peer == c.id.peer && s.mem[k].1.counter_range.1
            == c.id.counter implies {
        let (bid, b) = s.mem[k];
        let n = l[bid].len() - 1;
        let last = l[bid][n];
        let has_room = b.estimated_size + O::change_size(c) <= 4096;
        let joins = c.deps == seq![before] && c.timestamp - last.timestamp < s.merge_interval && (has_room || (
        c.ops.len() == 1 && O::mergable(last.ops.last(), c.ops[0])));
        &&& joins ==> m == l.insert(bid, l[bid].update(n, ChangeView { ops: m[bid][n].ops, ..last })) && ops_atoms::<
            O,
        >(m[bid][n].ops) == ops_atoms::<O>(last.ops) + ops_atoms::<O>(c.ops)
        &&& !joins && has_room ==> m == l.insert(bid, l[bid].push(c))
        &&& !joins && !has_room ==> m == l.insert(c.id, seq![c])
    } by {
        lemma_mem_entry::<O>(s, k);
        let (bid, b) = s.mem[k];
        assert(log_block_valid::<O>(l, known::<O>(s), bid));
        lemma_changes_atoms_len::<O>(l[bid]);
        assert(k < i) by {
            if k >= i {
                assert(s.mem[k].0 == c.id || id_order()(c.id, s.mem[k].0));
            }
        }
        if k < i - 1 {
            assert(id_order()(s.mem[k].0, s.mem[i - 1].0));
            assert(id_order()(s.mem[i - 1].0, c.id));
            assert(l.contains_key(bid) && l.contains_key(s.mem[i - 1].0));
        }
        assert(k == i - 1);
        let n = l[bid].len() - 1;
        assert(change_follows::<O>(l[bid], n));
        if joins_last::<O>(b, c, O::change_size(c), s.merge_interval) {
            lemma_ops_pushed::<O>(l[bid][n].ops, b.estimated_size, c.ops, l[bid][n].id.counter as int);
            assert(m =~= l.insert(bid, l[bid].update(n, ChangeView { ops: m[bid][n].ops, ..l[bid][n] })));
        }
    }
}

/// What inserting a change that is not cut does to the blocks in memory. A new block has the size
/// of the change; one that takes the change as it is grows by that size, and one with whose last
/// change a change of one operation is merged grows by the size of that operation, unless that
/// is merged too. All other blocks stay as they are, but that the block before a new one is held
/// as changes.
pub proof fn lemma_insert_sizes<O: StorageFormat>(s: StoreView<O::V>, c: ChangeView<O::V>, split_when_exceeds: bool)
    requires
        store_valid::<O>(s),
        change_valid::<O>(c),
        accepts::<O>(s, c, split_when_exceeds),
        O::change_size(c) <= 4096 || !split_when_exceeds,
    ensures
        ({
            let t = inserted::<O>(s, c, split_when_exceeds);
            let (l, m) = (log_of::<O>(s), log_of::<O>(t));
            let (a, z) = (map_of(s.mem), map_of(t.mem));
            &&& !l.contains_key(c.id)
            &&& m.contains_key(c.id) ==> z.contains_key(c.id) && z[c.id] == (BlockView {
                peer: c.id.peer,
                counter_range: (c.id.counter, (c.id.counter + ops_atoms::<O>(c.ops).len()) as Counter),
                lamport_range: (c.lamport, (c.lamport + ops_atoms::<O>(c.ops).len()) as Lamport),
                estimated_size: O::change_size(c),
                flushed: false,
                content: ContentView::Changes(seq![c]),
            })
            &&& forall|bid: ID| #[trigger]
                a.contains_key(bid) ==> z.contains_key(bid) && (m[bid] == l[bid] ==> z[bid] == (BlockView {
                    content: z[bid].content,
                    ..a[bid]
                }) && (z[bid].content == a[bid].content || z[bid].content == ContentView::Changes(l[bid])))
            &&& forall|bid: ID| #[trigger]
                a.contains_key(bid) && m[bid] != l[bid] ==> {
                    let last = l[bid].last();
                    &&& z[bid] == (BlockView {
                        counter_range: (
                            a[bid].counter_range.0,
                            (c.id.counter + ops_atoms::<O>(c.ops).len()) as Counter,
                        ),
                        lamport_range: (a[bid].lamport_range.0, (c.lamport + ops_atoms::<O>(c.ops).len()) as Lamport),
                        content: ContentView::Changes(m[bid]),
                        estimated_size: z[bid].estimated_size,
                        ..a[bid]
                    })
                    &&& m[bid].len() > l[bid].len() ==> z[bid].estimated_size == a[bid].estimated_size
                        + O::change_size(c)
                    &&& m[bid].len() == l[bid].len() && c.ops.len() == 1 && O::mergable(last.ops.last(), c.ops[0])
                        ==> z[bid].estimated_size == a[bid].estimated_size && m[bid].last().ops == last.ops.update(
                        last.ops.len() - 1,
                        O::merged(last.ops.last(), c.ops[0]),
                    )
                    &&& m[bid].len() == l[bid].len() && c.ops.len() == 1 && !O::mergable(last.ops.last(), c.ops[0])
                        ==> z[bid].estimated_size == size_sum(a[bid].estimated_size, O::storage_size(c.ops[0]))
                        && m[bid].last().ops == last.ops.push(c.ops[0])
                }
            &&& forall|bid: ID| #[trigger] z.contains_key(bid) ==> a.contains_key(bid) || bid == c.id
        }),
{
    lemma_insert_one_step::<O>(s, c);
    let i = place(s.mem, c.id);
    let t = insert_one::<O>(s, c);
    assert(t == inserted::<O>(s, c, split_when_exceeds));
    let (l, m) = (log_of::<O>(s), log_of::<O>(t));
    let (a, z) = (map_of(s.mem), map_of(t.mem));
    lemma_id_order();
    lemma_has_place(s.mem, c.id);
    lemma_not_in_log::<O>(s, c);
    lemma_change_nonempty::<O>(c);
    let b = s.mem[i - 1].1;
    let size = O::change_size(c);
    let same_peer = i > 0 && b.peer == c.id.peer;
    let takes = same_peer && block_takes::<O>(b, c, size, s.merge_interval);
    if i > 0 {
        lemma_mem_entry::<O>(s, i - 1);
    }
    if takes {
        let bid = s.mem[i - 1].0;
        let n = l[bid].len() - 1;
        assert(change_follows::<O>(l[bid], n));
        lemma_block_pushed::<O>(b, c, size, s.merge_interval);
        assert(changes_atoms::<O>(m[bid]) != changes_atoms::<O>(l[bid])) by {
            assert(changes_atoms::<O>(m[bid]).len() == changes_atoms::<O>(l[bid]).len() + change_atoms::<O>(c).len());
        }
        if c.ops.len() == 1 {
            assert(c.ops.drop_last() =~= seq![]);
            reveal_with_fuel(ops_pushed, 2);
        }
    }
    assert forall|bid: ID| #[trigger] a.contains_key(bid) implies z.contains_key(bid) && (bid == s.mem[i - 1].0
        && same_peer || z[bid] == a[bid]) && (bid == s.mem[i - 1].0 && same_peer ==> z[bid]
        == block_pushed::<O>(b, c, size, s.merge_interval)) by {
        let k = key_index(s.mem, bid);
        assert(s.mem[k].0 == bid);
        lemma_mem_entry::<O>(s, k);
        let k1 = if takes || k < i {
            k
        } else {
            k + 1
        };
        lemma_one_mem::<O>(s, c, k);
        assert(t.mem[k1].0 == bid);
        lemma_mem_entry::<O>(t, k1);
    }
    if !takes {
        assert(t.mem[i].0 == c.id);
        lemma_mem_entry::<O>(t, i);
    }
    assert forall|bid: ID| #[trigger] z.contains_key(bid) implies a.contains_key(bid) || bid == c.id by {
        let k1 = key_index(t.mem, bid);
        assert(t.mem[k1].0 == bid);
        let k = if takes || k1 < i {
            k1
        } else {
            k1 - 1
        };
        if takes || k1 != i {
            lemma_one_mem::<O>(s, c, k);
            assert(s.mem[k].0 == bid);
            lemma_mem_entry::<O>(s, k);
        }
    }
}

/// Where block `k` in memory is after a change was inserted as one.
proof fn lemma_one_mem<O: StorageFormat>(s: StoreView<O::V>, c: ChangeView<O::V>, k: int)
    requires
        store_valid::<O>(s),
        change_valid::<O>(c),
        accepts_one::<O>(s, c),
        0 <= k < s.mem.len(),
    ensures
        ({
            let i = place(s.mem, c.id);
            let t = insert_one::<O>(s, c);
            let b = s.mem[i - 1].1;
            let size = O::change_size(c);
            let same_peer = i > 0 && b.peer == c.id.peer;
            let takes = same_peer && block_takes::<O>(b, c, size, s.merge_interval);
            let k1 = if takes || k < i {
                k
            } else {
                k + 1
            };
            &&& 0 <= k1 < t.mem.len()
            &&& t.mem[k1].0 == s.mem[k].0
            &&& t.mem[k1].1 == (if same_peer && k == i - 1 {
                block_pushed::<O>(b, c, size, s.merge_interval)
            } else {
                s.mem[k].1
            })
        }),
{
    lemma_insert_one_step::<O>(s, c);
    let i = place(s.mem, c.id);
    let t = insert_one::<O>(s, c);
    lemma_id_order();
    lemma_has_place(s.mem, c.id);
    if i > 0 {
        lemma_mem_entry::<O>(s, i - 1);
    }
    lemma_not_in_log::<O>(s, c);
    lemma_found_at(id_order(), s.mem, i, c.id);
    let s2 = s.mem.update(
        i - 1,
        (s.mem[i - 1].0, block_pushed::<O>(s.mem[i - 1].1, c, O::change_size(c), s.merge_interval)),
    );
    if i > 0 && s.mem[i - 1].1.peer == c.id.peer {
        assert forall|x: int| 0 <= x < s.mem.len() implies s2[x].0 == (#[trigger] s.mem[x]).0 by {}
        assert(is_place(id_order(), s2, i, c.id)) by {
            assert forall|x: int| 0 <= x < i implies id_order()((#[trigger] s2[x]).0, c.id) by {
                assert(id_order()(s.mem[x].0, c.id));
            }
        }
        assert(keys_grow(id_order(), s2)) by {
            assert forall|x: int, y: int| 0 <= x < y < s2.len() implies id_order()(
                (#[trigger] s2[x]).0,
                (#[trigger] s2[y]).0,
            ) by {
                assert(id_order()(s.mem[x].0, s.mem[y].0));
            }
        }
        lemma_place(s2, i, c.id);
    }
}

/// A change that is merged with nothing keeps its dependencies and its clocks, and one that is
/// merged lost none.
///
/// The change of the log that holds the first atom of an inserted change either starts there, with
/// the dependencies, the Lamport clock and the timestamp of the inserted one; or it starts
/// before, was in the log before, and the inserted change depends on the atom right before it
/// and on nothing else, and was made less than the merge interval after it. Where the change is
/// not cut and starts in the log where it was inserted, it is in the log as it was given.
pub proof fn lemma_insert_head<O: StorageFormat>(
    s: StoreView<O::V>,
    c: ChangeView<O::V>,
    split_when_exceeds: bool,
    bid: ID,
    i: int,
)
    requires
        store_valid::<O>(s),
        change_valid::<O>(c),
        accepts::<O>(s, c, split_when_exceeds),
        ({
            let m = log_of::<O>(inserted::<O>(s, c, split_when_exceeds));
            &&& m.contains_key(bid)
            &&& 0 <= i < m[bid].len()
            &&& m[bid][i].id.peer == c.id.peer
            &&& m[bid][i].id.counter <= c.id.counter < m[bid][i].id.counter + ops_atoms::<O>(m[bid][i].ops).len()
        }),
    ensures
        ({
            let l = log_of::<O>(s);
            let x = log_of::<O>(inserted::<O>(s, c, split_when_exceeds))[bid][i];
            if x.id == c.id {
                &&& x.deps == c.deps
                &&& x.lamport == c.lamport
                &&& x.timestamp == c.timestamp
                &&& O::change_size(c) <= 4096 || !split_when_exceeds ==> x == c
            } else {
                &&& c.deps == seq![ID { peer: c.id.peer, counter: (c.id.counter - 1) as Counter }]
                &&& c.timestamp - x.timestamp < s.merge_interval
                &&& l.contains_key(bid)
                &&& i < l[bid].len()
                &&& x == (ChangeView { ops: x.ops, ..l[bid][i] })
                &&& ops_atoms::<O>(l[bid][i].ops).is_prefix_of(ops_atoms::<O>(x.ops))
                &&& l[bid][i].id.counter + ops_atoms::<O>(l[bid][i].ops).len() == c.id.counter
            }
        }),
{
    if O::change_size(c) > 4096 && split_when_exceeds {
        let ps = split_pieces::<O>(c);
        lemma_split_pieces::<O>(c);
        assert(ps.take(ps.len() as int) =~= ps);
        lemma_pieces_head::<O>(s, c, ps.len() as int, bid, i);
    } else {
        lemma_one_head::<O>(s, c, bid, i);
    }
}

/// What holds the first atom of a change that was inserted as one.
proof fn lemma_one_head<O: StorageFormat>(s: StoreView<O::V>, c: ChangeView<O::V>, bid: ID, i: int)
    requires
        store_valid::<O>(s),
        change_valid::<O>(c),
        accepts::<O>(s, c, false),
        ({
            let m = log_of::<O>(insert_one::<O>(s, c));
            &&& m.contains_key(bid)
            &&& 0 <= i < m[bid].len()
            &&& m[bid][i].id.peer == c.id.peer
            &&& m[bid][i].id.counter <= c.id.counter < change_end::<O>(m[bid][i])
        }),
    ensures
        head_kept::<O>(log_of::<O>(s), log_of::<O>(insert_one::<O>(s, c)), c, s.merge_interval, bid, i),
        log_of::<O>(insert_one::<O>(s, c))[bid][i].id == c.id ==> log_of::<O>(insert_one::<O>(s, c))[bid][i] == c,
{
    lemma_insert_lands::<O>(s, c, false);
    lemma_insert_one_step::<O>(s, c);
    lemma_id_order();
    lemma_has_place(s.mem, c.id);
    lemma_not_in_log::<O>(s, c);
    lemma_change_nonempty::<O>(c);
    let (l, m) = (log_of::<O>(s), log_of::<O>(insert_one::<O>(s, c)));
    let t = insert_one::<O>(s, c);
    let p = place(s.mem, c.id);
    assert(inserted::<O>(s, c, false) == t);
    if p > 0 {
        lemma_mem_entry::<O>(s, p - 1);
    }
    if p > 0 && s.mem[p - 1].0.peer == c.id.peer {
        let (x, b) = s.mem[p - 1];
        assert(b.counter_range.1 == c.id.counter);
        let n = l[x].len() - 1;
        assert(log_block_valid::<O>(l, known::<O>(s), x));
        assert(change_follows::<O>(l[x], n));
        if m == l.insert(c.id, seq![c]) {
            assert(m[c.id][0] == c);
            lemma_same_holder::<O>(t, c.id, bid, i, c.id, 0);
        } else if m == l.insert(x, l[x].push(c)) {
            assert(m[x][n + 1] == c);
            lemma_same_holder::<O>(t, c.id, bid, i, x, n + 1);
        } else {
            lemma_change_nonempty::<O>(l[x][n]);
            assert(m[x][n].id == l[x][n].id);
            assert(change_end::<O>(l[x][n]) == c.id.counter);
            lemma_same_holder::<O>(t, c.id, bid, i, x, n);
        }
    } else {
        assert forall|k: int| 0 <= k < s.mem.len() implies (#[trigger] s.mem[k]).0.peer != c.id.peer by {
            lemma_mem_entry::<O>(s, k);
            if k >= p {
                assert(s.mem[k].0 == c.id || id_order()(c.id, s.mem[k].0));
            } else if k < p - 1 {
                assert(id_order()(s.mem[k].0, s.mem[p - 1].0));
                assert(id_order()(s.mem[p - 1].0, c.id));
            }
        }
        assert(m[c.id][0] == c);
        lemma_same_holder::<O>(t, c.id, bid, i, c.id, 0);
    }
}

/// What a change that holds the first atom of `c` has of `c`, or of the change before it.
spec fn head_kept<O: StorageFormat>(
    l: Log<O::V>,
    m: Log<O::V>,
    c: ChangeView<O::V>,
    merge_interval: i64,
    bid: ID,
    i: int,
) -> bool {
    let x = m[bid][i];
    if x.id == c.id {
        &&& x.deps == c.deps
        &&& x.lamport == c.lamport
        &&& x.timestamp == c.timestamp
    } else {
        &&& c.deps == seq![ID { peer: c.id.peer, counter: (c.id.counter - 1) as Counter }]
        &&& c.timestamp - x.timestamp < merge_interval
        &&& l.contains_key(bid)
        &&& i < l[bid].len()
        &&& x == (ChangeView { ops: x.ops, ..l[bid][i] })
        &&& ops_atoms::<O>(l[bid][i].ops).is_prefix_of(ops_atoms::<O>(x.ops))
        &&& l[bid][i].id.counter + ops_atoms::<O>(l[bid][i].ops).len() == c.id.counter
    }
}

/// What holds the first atom of a change of which the first `k` pieces were inserted.
proof fn lemma_pieces_head<O: StorageFormat>(s: StoreView<O::V>, c: ChangeView<O::V>, k: int, bid: ID, i: int)
    requires
        store_valid::<O>(s),
        change_valid::<O>(c),
        accepts::<O>(s, c, true),
        O::change_size(c) > 4096,
        1 <= k <= split_pieces::<O>(c).len(),
        ({
            let m = log_of::<O>(insert_all::<O>(s, split_pieces::<O>(c).take(k)));
            &&& m.contains_key(bid)
            &&& 0 <= i < m[bid].len()
            &&& m[bid][i].id.peer == c.id.peer
            &&& m[bid][i].id.counter <= c.id.counter < change_end::<O>(m[bid][i])
        }),
    ensures
        head_kept::<O>(
            log_of::<O>(s),
            log_of::<O>(insert_all::<O>(s, split_pieces::<O>(c).take(k))),
            c,
            s.merge_interval,
            bid,
            i,
        ),
    decreases k,
{
    let ps = split_pieces::<O>(c);
    lemma_split_pieces::<O>(c);
    lemma_insert_pieces::<O>(s, c, k - 1);
    lemma_insert_pieces::<O>(s, c, k);
    assert(piece_valid::<O>(c, ps, k - 1));
    assert(ps.take(k).drop_last() =~= ps.take(k - 1));
    let x = ps[k - 1];
    let t0 = insert_all::<O>(s, ps.take(k - 1));
    let t = insert_all::<O>(s, ps.take(k));
    assert(t == insert_one::<O>(t0, x));
    let (l0, m) = (log_of::<O>(t0), log_of::<O>(t));
    if k == 1 {
        assert(ps.take(0) =~= seq![]);
        assert(t0 == s);
        assert(O::change_size(x) <= 4096 || !false);
        lemma_one_head::<O>(s, x, bid, i);
    } else {
        // the change that held it before still does, and there is no other
        lemma_insert_one_kept::<O>(t0, x);
        assert(changes_atoms::<O>(ps.take(1)).len() > 0) by {
            assert(piece_valid::<O>(c, ps, 0));
            lemma_changes_atoms_take::<O>(ps, 0);
            lemma_change_nonempty::<O>(ps[0]);
            assert(ps.take(0) =~= seq![]);
        }
        lemma_first_atom_in::<O>(s, c, k - 1);
        let id = c.id;
        let b0 = covering::<O>(l0, id);
        assert(covers::<O>(l0, b0, id));
        assert(log_block_valid::<O>(l0, known::<O>(t0), b0));
        let j = lemma_change_covers::<O>(l0[b0], id.counter as int);
        assert(change_kept::<O>(l0, m, x.id, b0, j));
        assert(change_follows::<O>(l0[b0], j));
        lemma_pieces_head::<O>(s, c, k - 1, b0, j);
        lemma_same_holder::<O>(t, id, bid, i, b0, j);
    }
}

/// The log has the first atom of a change of which a piece was inserted.
proof fn lemma_first_atom_in<O: StorageFormat>(s: StoreView<O::V>, c: ChangeView<O::V>, k: int)
    requires
        store_valid::<O>(s),
        change_valid::<O>(c),
        accepts::<O>(s, c, true),
        O::change_size(c) > 4096,
        1 <= k <= split_pieces::<O>(c).len(),
    ensures
        log_has::<O>(log_of::<O>(insert_all::<O>(s, split_pieces::<O>(c).take(k))), c.id),
{
    let ps = split_pieces::<O>(c);
    lemma_split_pieces::<O>(c);
    lemma_insert_pieces::<O>(s, c, k);
    assert(piece_valid::<O>(c, ps, k - 1));
    lemma_changes_atoms_take::<O>(ps, k - 1);
    lemma_change_nonempty::<O>(ps[k - 1]);
    let m = log_of::<O>(insert_all::<O>(s, ps.take(k)));
    let n = changes_atoms::<O>(ps.take(k)).len() as int;
    assert(first_atoms::<O>(c, n).contains_key(c.id));
    assert(log_atoms::<O>(m).contains_key(c.id));
}

/// One change of a log holds an atom.
proof fn lemma_same_holder<O: StorageFormat>(t: StoreView<O::V>, id: ID, a: ID, i: int, b: ID, j: int)
    requires
        store_valid::<O>(t),
        ({
            let m = log_of::<O>(t);
            &&& m.contains_key(a)
            &&& 0 <= i < m[a].len()
            &&& m[a][i].id.peer == id.peer
            &&& m[a][i].id.counter <= id.counter < change_end::<O>(m[a][i])
            &&& m.contains_key(b)
            &&& 0 <= j < m[b].len()
            &&& m[b][j].id.peer == id.peer
            &&& m[b][j].id.counter <= id.counter < change_end::<O>(m[b][j])
        }),
    ensures
        a == b,
        i == j,
{
    let m = log_of::<O>(t);
    lemma_in_block::<O>(t, id, a, i);
    lemma_in_block::<O>(t, id, b, j);
    lemma_covers_unique::<O>(m, known::<O>(t), a, id);
    lemma_covers_unique::<O>(m, known::<O>(t), b, id);
    assert(log_block_valid::<O>(m, known::<O>(t), a));
    if i < j {
        lemma_changes_order::<O>(m[a], i, j);
    } else if j < i {
        lemma_changes_order::<O>(m[a], j, i);
    }
}

/// The block of a change that holds an atom holds it.
proof fn lemma_in_block<O: StorageFormat>(t: StoreView<O::V>, id: ID, a: ID, i: int)
    requires
        store_valid::<O>(t),
        log_of::<O>(t).contains_key(a),
        0 <= i < log_of::<O>(t)[a].len(),
        log_of::<O>(t)[a][i].id.peer == id.peer,
        log_of::<O>(t)[a][i].id.counter <= id.counter < change_end::<O>(log_of::<O>(t)[a][i]),
    ensures
        covers::<O>(log_of::<O>(t), a, id),
{
    let m = log_of::<O>(t);
    assert(log_block_valid::<O>(m, known::<O>(t), a));
    let n = m[a].len() - 1;
    assert(change_follows::<O>(m[a], i));
    assert(change_follows::<O>(m[a], n));
    if 0 < i {
        lemma_changes_order::<O>(m[a], 0, i);
    }
    if i < n {
        lemma_changes_order::<O>(m[a], i, n);
        lemma_change_nonempty::<O>(m[a][n]);
    }
}

/// A change takes at most 4096 bytes, or it is one operation that cannot be cut any more, or its
/// dependencies alone take that much.
pub open spec fn fits_block<O: StorageFormat>(x: ChangeView<O::V>) -> bool {
    ||| O::change_size(x) <= 4096
    ||| x.ops.len() == 1 && (O::atoms(x.ops[0]).len() == 1 || exists|size: usize|
        O::storage_size(x.ops[0]) > size && #[trigger] O::cut_to_fit(x.ops[0], size) is None)
    ||| O::change_size(ChangeView { ops: seq![], ..x }) >= 4096
}

/// What operations take to store, one by one.
pub open spec fn sum_sizes<O: StorageFormat>(ops: Seq<O::V>) -> nat
    decreases ops.len(),
{
    if ops.len() == 0 {
        0
    } else {
        sum_sizes::<O>(ops.drop_last()) + O::storage_size(ops.last()) as nat
    }
}

/// Operations put one after the other, each merged with the one before it where the two are mergable.
pub open spec fn put_together<O: StorageFormat>(ops: Seq<O::V>) -> Seq<O::V>
    decreases ops.len(),
{
    if ops.len() == 0 {
        seq![]
    } else {
        let p = put_together::<O>(ops.drop_last());
        if p.len() > 0 && O::mergable(p.last(), ops.last()) {
            p.update(p.len() - 1, O::merged(p.last(), ops.last()))
        } else {
            p.push(ops.last())
        }
    }
}

/// `op` is operation `j` of `c`, or what is left at the end of it.
pub open spec fn ends_op<O: StorageFormat>(c: ChangeView<O::V>, op: O::V, j: int) -> bool {
    &&& 0 <= j < c.ops.len()
    &&& O::start(op) >= O::start(c.ops[j])
    &&& O::start(op) + O::atoms(op).len() == O::start(c.ops[j]) + O::atoms(c.ops[j]).len()
}

/// `given` are the operations that were put in a piece of `c`, one after the other: operations of `c`,
/// of which the first may be what was left of one.
pub open spec fn put_in<O: StorageFormat>(c: ChangeView<O::V>, x: ChangeView<O::V>, given: Seq<O::V>) -> bool {
    &&& x.ops == put_together::<O>(given)
    &&& ops_atoms::<O>(given) == ops_atoms::<O>(x.ops)
    &&& given.len() > 0 ==> exists|j: int| #[trigger] ends_op::<O>(c, given[0], j)
    &&& forall|k: int| 0 < k < given.len() ==> c.ops.contains(#[trigger] given[k])
}

/// Operation `j` of `c`, the one after the piece `x`, has no place in it.
pub open spec fn no_place<O: StorageFormat>(
    c: ChangeView<O::V>,
    x: ChangeView<O::V>,
    given: Seq<O::V>,
    j: int,
) -> bool {
    &&& put_in::<O>(c, x, given)
    &&& 0 <= j < c.ops.len()
    &&& O::start(c.ops[j]) == x.id.counter + ops_atoms::<O>(x.ops).len()
    &&& O::change_size(ChangeView { ops: seq![], ..x }) + sum_sizes::<O>(given) + O::storage_size(c.ops[j]) >= 4096
}

/// The piece `x` of `c` is one part of an operation that was cut to the room that a block has.
pub open spec fn cut_to_room<O: StorageFormat>(c: ChangeView<O::V>, x: ChangeView<O::V>, op: O::V, j: int) -> bool {
    let head = O::change_size(ChangeView { ops: seq![], ..x });
    let space: usize = if head < 4096 {
        (4096 - head) as usize
    } else {
        0
    };
    &&& ends_op::<O>(c, op, j)
    &&& O::cut_to_fit(op, space) matches Some(end) && x.ops == seq![O::part(op, 0, end as int)]
}

/// The piece `x` of `c` was not closed too early: the next operation has no place in it, or it is
/// a part of an operation that was cut to the room that a block has.
pub open spec fn is_filled<O: StorageFormat>(c: ChangeView<O::V>, x: ChangeView<O::V>) -> bool {
    ||| exists|given: Seq<O::V>, j: int| #[trigger] no_place::<O>(c, x, given, j)
    ||| exists|op: O::V, j: int| #[trigger] cut_to_room::<O>(c, x, op, j)
}

/// The piece `x` of `c` is made of operations of `c`, or is a part of one that was cut to the room that
/// a block has.
pub open spec fn is_made<O: StorageFormat>(c: ChangeView<O::V>, x: ChangeView<O::V>) -> bool {
    ||| exists|given: Seq<O::V>| #[trigger] put_in::<O>(c, x, given)
    ||| exists|op: O::V, j: int| #[trigger] cut_to_room::<O>(c, x, op, j)
}

/// Change `k` comes right after the one before it, depends on the atom there and on nothing else,
/// and has the timestamp of `c`.
pub open spec fn goes_on<O: StorageFormat>(c: ChangeView<O::V>, ps: Seq<ChangeView<O::V>>, k: int) -> bool {
    let len = ops_atoms::<O>(ps[k - 1].ops).len();
    &&& ps[k].id.peer == c.id.peer
    &&& ps[k].id.counter == ps[k - 1].id.counter + len
    &&& ps[k].lamport == ps[k - 1].lamport + len
    &&& ps[k].deps == seq![ID { peer: c.id.peer, counter: (ps[k].id.counter - 1) as Counter }]
    &&& ps[k].timestamp == c.timestamp
}

/// Atom `j` of `x` is the atom of `c` with the same counter.
pub open spec fn has_atom_of<O: StorageFormat>(c: ChangeView<O::V>, x: ChangeView<O::V>, j: int) -> bool {
    let at = x.id.counter - c.id.counter + j;
    0 <= at < ops_atoms::<O>(c.ops).len() && ops_atoms::<O>(x.ops)[j] == ops_atoms::<O>(c.ops)[at]
}

/// `ps` are what `c` is cut into: the first has the identity, the dependencies and the clocks of
/// `c`; each other one comes right after the one before it, depends on the atom there and on
/// nothing else, and has the timestamp of `c`. They hold the atoms of `c`, up to its last one.
pub open spec fn is_cut_of<O: StorageFormat>(c: ChangeView<O::V>, ps: Seq<ChangeView<O::V>>) -> bool {
    &&& ps.len() > 0
    &&& ps[0] == (ChangeView { ops: ps[0].ops, ..c })
    &&& forall|k: int| 0 < k < ps.len() ==> #[trigger] goes_on::<O>(c, ps, k)
    &&& forall|k: int, j: int|
        0 <= k < ps.len() && 0 <= j < ops_atoms::<O>(ps[k].ops).len() ==> #[trigger] has_atom_of::<O>(c, ps[k], j)
    &&& ps.last().id.counter + ops_atoms::<O>(ps.last().ops).len() == c.id.counter + ops_atoms::<O>(c.ops).len()
}

/// Inserting a change of more than 4096 bytes, where cutting is asked for, is inserting one after
/// the other the changes that it is cut into. Each of them is made of operations of the change, fits in
/// a block, and none but the last is closed while it has a place for more.
pub proof fn lemma_insert_cuts<O: StorageFormat>(s: StoreView<O::V>, c: ChangeView<O::V>) -> (r: (
    Seq<ChangeView<O::V>>,
    Seq<StoreView<O::V>>,
))
    requires
        store_valid::<O>(s),
        change_valid::<O>(c),
        accepts::<O>(s, c, true),
        O::change_size(c) > 4096,
    ensures
        is_cut_of::<O>(c, r.0),
        forall|k: int| 0 <= k < r.0.len() ==> change_valid::<O>(#[trigger] r.0[k]) && fits_block::<O>(r.0[k]),
        forall|k: int| 0 <= k < r.0.len() ==> is_made::<O>(c, #[trigger] r.0[k]),
        forall|k: int| 0 <= k < r.0.len() - 1 ==> is_filled::<O>(c, #[trigger] r.0[k]),
        r.1.len() == r.0.len() + 1,
        r.1[0] == s,
        r.1.last() == inserted::<O>(s, c, true),
        forall|k: int|
            0 <= k < r.0.len() ==> accepts::<O>(#[trigger] r.1[k], r.0[k], false) && r.1[k + 1] == inserted::<O>(
                r.1[k],
                r.0[k],
                false,
            ),
{
    let ps = split_pieces::<O>(c);
    let ts = Seq::new(ps.len() + 1, |k: int| insert_all::<O>(s, ps.take(k)));
    lemma_pieces_cut::<O>(c);
    assert(ps.take(0) =~= seq![]);
    assert(ps.take(ps.len() as int) =~= ps);
    assert forall|k: int| 0 <= k < ps.len() implies change_valid::<O>(#[trigger] ps[k]) && fits_block::<O>(ps[k]) by {
        lemma_piece_made::<O>(c, k);
    }
    assert forall|k: int| 0 <= k < ps.len() implies is_made::<O>(c, #[trigger] ps[k]) by {
        lemma_piece_made::<O>(c, k);
    }
    assert forall|k: int| 0 <= k < ps.len() - 1 implies is_filled::<O>(c, #[trigger] ps[k]) by {
        lemma_piece_made::<O>(c, k);
    }
    assert forall|k: int| 0 <= k < ps.len() implies accepts::<O>(#[trigger] ts[k], ps[k], false) && ts[k + 1]
        == inserted::<O>(ts[k], ps[k], false) by {
        lemma_piece_inserted::<O>(s, c, k);
    }
    (ps, ts)
}

/// Inserting one more piece of a change is inserting that piece as a change.
proof fn lemma_piece_inserted<O: StorageFormat>(s: StoreView<O::V>, c: ChangeView<O::V>, k: int)
    requires
        store_valid::<O>(s),
        change_valid::<O>(c),
        accepts::<O>(s, c, true),
        O::change_size(c) > 4096,
        0 <= k < split_pieces::<O>(c).len(),
    ensures
        ({
            let ps = split_pieces::<O>(c);
            let t = insert_all::<O>(s, ps.take(k));
            &&& accepts::<O>(t, ps[k], false)
            &&& insert_all::<O>(s, ps.take(k + 1)) == inserted::<O>(t, ps[k], false)
        }),
{
    let ps = split_pieces::<O>(c);
    lemma_insert_pieces::<O>(s, c, k);
    assert(ps.take(k + 1).drop_last() =~= ps.take(k));
}

/// Piece `k` of a change is valid, is made of its operations, fits in a block, and is filled unless it
/// is the last one.
proof fn lemma_piece_made<O: StorageFormat>(c: ChangeView<O::V>, k: int)
    requires
        change_valid::<O>(c),
        0 <= k < split_pieces::<O>(c).len(),
    ensures
        change_valid::<O>(split_pieces::<O>(c)[k]),
        fits_block::<O>(split_pieces::<O>(c)[k]),
        is_made::<O>(c, split_pieces::<O>(c)[k]),
        k < split_pieces::<O>(c).len() - 1 ==> is_filled::<O>(c, split_pieces::<O>(c)[k]),
{
    let ps = split_pieces::<O>(c);
    lemma_split_pieces::<O>(c);
    lemma_split_fits::<O>(c);
    assert(piece_valid::<O>(c, ps, k));
    assert(piece_fits::<O>(ps[k]));
    let last = lemma_ops_filled::<O>(c, c.ops.len() as int);
    assert(c.ops.take(c.ops.len() as int) =~= c.ops);
    let st = split_ops::<O>(split_start::<O>(c), c.ops);
    if k < st.pieces.len() {
        assert(ps[k] == st.pieces[k]);
        assert(is_filled::<O>(c, st.pieces[k]));
    } else {
        assert(ps[k] == st.cur);
        assert(put_in::<O>(c, st.cur, last));
    }
}

/// The pieces of a change are what it is cut into.
proof fn lemma_pieces_cut<O: StorageFormat>(c: ChangeView<O::V>)
    requires
        change_valid::<O>(c),
    ensures
        is_cut_of::<O>(c, split_pieces::<O>(c)),
{
    let ps = split_pieces::<O>(c);
    lemma_split_pieces::<O>(c);
    assert(piece_valid::<O>(c, ps, 0));
    assert forall|k: int| 0 < k < ps.len() implies #[trigger] goes_on::<O>(c, ps, k) by {
        assert(piece_valid::<O>(c, ps, k));
        assert(piece_valid::<O>(c, ps, k - 1));
        assert(change_follows::<O>(ps, k - 1));
        lemma_pieces_peer::<O>(c, ps, k);
        lemma_pieces_peer::<O>(c, ps, k - 1);
    }
    assert forall|k: int, j: int|
        0 <= k < ps.len() && 0 <= j < ops_atoms::<O>(ps[k].ops).len() implies #[trigger] has_atom_of::<O>(
        c,
        ps[k],
        j,
    ) by {
        lemma_history_atom::<O>(ps, k, j);
    }
    assert(ps[0] == (ChangeView { ops: ps[0].ops, ..c }));
    assert(ps.last().id.counter + ops_atoms::<O>(ps.last().ops).len() == c.id.counter + ops_atoms::<O>(c.ops).len());
}

/// What has been cut is filled, and the piece that is being filled holds the operations that were
/// put in it, which take as much as its size says.
spec fn all_filled<O: StorageFormat>(st: SplitView<O::V>, c: ChangeView<O::V>, given: Seq<O::V>) -> bool {
    &&& forall|k: int| 0 <= k < st.pieces.len() ==> is_filled::<O>(c, #[trigger] st.pieces[k])
    &&& put_in::<O>(c, st.cur, given)
    &&& given.len() == 0 <==> st.cur.ops.len() == 0
    &&& ({
        let total = O::change_size(ChangeView { ops: seq![], ..st.cur }) + sum_sizes::<O>(given);
        st.size == (if total > usize::MAX {
            usize::MAX as int
        } else {
            total as int
        })
    })
}

/// A piece that is closed is filled.
proof fn lemma_off_filled<O: StorageFormat>(st: SplitView<O::V>, c: ChangeView<O::V>, given: Seq<O::V>)
    requires
        all_filled::<O>(st, c, given),
        st.cur.ops.len() > 0 ==> is_filled::<O>(c, st.cur),
    ensures
        all_filled::<O>(split_off::<O>(st), c, seq![]),
        split_off::<O>(st).cur.ops.len() == 0,
{
    let r = split_off::<O>(st);
    assert forall|k: int| 0 <= k < r.pieces.len() implies is_filled::<O>(c, #[trigger] r.pieces[k]) by {
        if k < st.pieces.len() {
            assert(r.pieces[k] == st.pieces[k]);
        }
    }
    if st.cur.ops.len() == 0 {
        assert(given =~= seq![]);
    }
    assert(ops_atoms::<O>(Seq::<O::V>::empty()) =~= seq![]);
    assert(r.cur.ops =~= Seq::<O::V>::empty());
    assert(ChangeView { ops: Seq::<O::V>::empty(), ..r.cur } == r.cur);
}

/// The parts that are cut off an operation fill a block.
proof fn lemma_cut_filled<O: StorageFormat>(st: SplitView<O::V>, c: ChangeView<O::V>, n: int, op: O::V, j: int)
    requires
        change_valid::<O>(c),
        split_valid::<O>(st, c, n),
        op_at::<O>(c, n, op),
        ends_op::<O>(c, op, j),
        all_filled::<O>(st, c, seq![]),
    ensures
        all_filled::<O>(split_cut::<O>(st, op).0, c, seq![]),
        split_cut::<O>(st, op).1 matches Some(rest) ==> ends_op::<O>(c, rest, j),
    decreases O::atoms(op).len(),
{
    if let Some(end) = O::cut_to_fit(op, room(st.size)) {
        let len = O::atoms(op).len() as int;
        let a = change_atoms::<O>(c);
        O::lemma_cut(op, room(st.size));
        O::lemma_part(op, 0, end as int);
        let head = O::part(op, 0, end as int);
        assert(O::atoms(head) =~= a.subrange(n, n + end));
        lemma_split_put::<O>(st, c, n, head);
        lemma_split_off::<O>(split_put::<O>(st, head), c, n + end);
        let st0 = split_put::<O>(st, head);
        let st1 = split_off::<O>(st0);
        assert(st.cur.ops =~= seq![]);
        assert(st0.cur.ops =~= seq![head]);
        assert(ChangeView { ops: Seq::<O::V>::empty(), ..st0.cur } == st.cur);
        assert(cut_to_room::<O>(c, st0.cur, op, j));
        assert forall|k: int| 0 <= k < st1.pieces.len() implies is_filled::<O>(c, #[trigger] st1.pieces[k]) by {
            if k < st.pieces.len() {
                assert(st1.pieces[k] == st.pieces[k]);
            }
        }
        assert(st1.cur.ops =~= Seq::<O::V>::empty());
        assert(ChangeView { ops: Seq::<O::V>::empty(), ..st1.cur } == st1.cur);
        if end < len {
            O::lemma_part(op, end as int, len);
            let rest = O::part(op, end as int, len);
            assert(O::atoms(rest) =~= a.subrange(n + end, n + len));
            lemma_cut_filled::<O>(st1, c, n + end, rest, j);
        }
    }
}

/// Putting one more operation in a piece.
proof fn lemma_put_filled<O: StorageFormat>(
    st: SplitView<O::V>,
    c: ChangeView<O::V>,
    n: int,
    given: Seq<O::V>,
    op: O::V,
    j: int,
)
    requires
        change_valid::<O>(c),
        split_valid::<O>(st, c, n),
        op_at::<O>(c, n, op),
        all_filled::<O>(st, c, given),
        ends_op::<O>(c, op, j),
        given.len() > 0 ==> op == c.ops[j],
    ensures
        all_filled::<O>(
            split_put::<O>(SplitView { size: size_sum(st.size, O::storage_size(op)), ..st }, op),
            c,
            given.push(op),
        ),
{
    let g = given.push(op);
    let st1 = SplitView { size: size_sum(st.size, O::storage_size(op)), ..st };
    let r = split_put::<O>(st1, op);
    lemma_split_cur::<O>(st, c, n);
    lemma_rle_push::<O>(st.cur.ops, op, st.cur.id.counter as int);
    assert(g.drop_last() =~= given);
    assert(ops_atoms::<O>(g) =~= ops_atoms::<O>(given) + O::atoms(op));
    assert(ChangeView { ops: Seq::<O::V>::empty(), ..r.cur } == ChangeView { ops: Seq::<O::V>::empty(), ..st.cur });
    assert forall|k: int| 0 < k < g.len() implies c.ops.contains(#[trigger] g[k]) by {
        if k < given.len() {
            assert(given[k] == g[k]);
        } else {
            assert(c.ops[j] == g[k]);
        }
    }
    if given.len() > 0 {
        assert(g[0] == given[0]);
    } else {
        assert(ends_op::<O>(c, g[0], j));
    }
}

/// Going on with an operation closes no piece too early.
proof fn lemma_op_filled<O: StorageFormat>(
    st: SplitView<O::V>,
    c: ChangeView<O::V>,
    n: int,
    given: Seq<O::V>,
    j: int,
) -> (r: Seq<O::V>)
    requires
        change_valid::<O>(c),
        split_valid::<O>(st, c, n),
        0 <= j < c.ops.len(),
        op_at::<O>(c, n, c.ops[j]),
        all_filled::<O>(st, c, given),
    ensures
        all_filled::<O>(split_op::<O>(st, c.ops[j]), c, r),
{
    let op = c.ops[j];
    lemma_split_cur::<O>(st, c, n);
    assert(ends_op::<O>(c, op, j));
    if O::storage_size(op) >= room(st.size) {
        if st.cur.ops.len() > 0 {
            assert(no_place::<O>(c, st.cur, given, j));
        }
        lemma_off_filled::<O>(st, c, given);
        lemma_split_off::<O>(st, c, n);
        let st1 = split_off::<O>(st);
        lemma_cut_filled::<O>(st1, c, n, op, j);
        let m = lemma_split_cut::<O>(st1, c, n, op);
        let (st2, left) = split_cut::<O>(st1, op);
        match left {
            Some(rest) => {
                assert(st2.cur.ops.len() == 0);
                lemma_put_filled::<O>(st2, c, m, seq![], rest, j);
                Seq::<O::V>::empty().push(rest)
            },
            None => seq![],
        }
    } else {
        O::lemma_cut(op, room(st.size));
        lemma_put_filled::<O>(st, c, n, given, op, j);
        given.push(op)
    }
}

/// Going on with the first `i` operations closes no piece too early.
proof fn lemma_ops_filled<O: StorageFormat>(c: ChangeView<O::V>, i: int) -> (r: Seq<O::V>)
    requires
        change_valid::<O>(c),
        0 <= i <= c.ops.len(),
    ensures
        all_filled::<O>(split_ops::<O>(split_start::<O>(c), c.ops.take(i)), c, r),
    decreases i,
{
    if i == 0 {
        let st = split_start::<O>(c);
        assert(ChangeView { ops: Seq::<O::V>::empty(), ..st.cur } == st.cur);
        assert(c.ops.take(0) =~= seq![]);
        seq![]
    } else {
        let given = lemma_ops_filled::<O>(c, i - 1);
        lemma_split_ops::<O>(c, i - 1);
        lemma_op_at::<O>(c, i - 1);
        let st = split_ops::<O>(split_start::<O>(c), c.ops.take(i - 1));
        assert(c.ops.take(i).drop_last() =~= c.ops.take(i - 1));
        lemma_op_filled::<O>(st, c, ops_atoms::<O>(c.ops.take(i - 1)).len() as int, given, i - 1)
    }
}

/// Every change of the log that starts in an inserted change fits in a block, where cutting is
/// asked for, unless changes that were made at the same time are merged.
pub proof fn lemma_insert_fits<O: StorageFormat>(s: StoreView<O::V>, c: ChangeView<O::V>, bid: ID, i: int)
    requires
        store_valid::<O>(s),
        change_valid::<O>(c),
        accepts::<O>(s, c, true),
        ({
            let m = log_of::<O>(inserted::<O>(s, c, true));
            &&& m.contains_key(bid)
            &&& 0 <= i < m[bid].len()
            &&& m[bid][i].id.peer == c.id.peer
            &&& m[bid][i].id.counter >= c.id.counter
        }),
    ensures
        fits_block::<O>(log_of::<O>(inserted::<O>(s, c, true))[bid][i]) || (s.merge_interval > 0 && O::change_size(c)
            > 4096),
{
    if O::change_size(c) > 4096 {
        let ps = split_pieces::<O>(c);
        lemma_split_pieces::<O>(c);
        lemma_split_fits::<O>(c);
        assert(ps.take(ps.len() as int) =~= ps);
        if s.merge_interval <= 0 {
            let q = lemma_pieces_stand::<O>(s, c, ps.len() as int, bid, i);
            assert(piece_fits::<O>(ps[q]));
        }
    } else {
        lemma_one_lands::<O>(s, c);
        lemma_starts_before::<O>(s, c, bid, i);
    }
}

/// Where a change lands that is inserted as one, in short.
proof fn lemma_one_lands<O: StorageFormat>(s: StoreView<O::V>, c: ChangeView<O::V>) -> (x: ID)
    requires
        store_valid::<O>(s),
        change_valid::<O>(c),
        accepts::<O>(s, c, false),
    ensures
        ({
            let (l, m) = (log_of::<O>(s), log_of::<O>(insert_one::<O>(s, c)));
            let n = l[x].len() - 1;
            ||| m == l.insert(c.id, seq![c])
            ||| l.contains_key(x) && m == l.insert(x, l[x].push(c))
            ||| l.contains_key(x) && m == l.insert(x, l[x].update(n, ChangeView { ops: m[x][n].ops, ..l[x][n] }))
                && c.timestamp - l[x][n].timestamp < s.merge_interval && l[x].len() > 0
        }),
{
    lemma_insert_lands::<O>(s, c, false);
    lemma_id_order();
    lemma_has_place(s.mem, c.id);
    lemma_not_in_log::<O>(s, c);
    let p = place(s.mem, c.id);
    assert(inserted::<O>(s, c, false) == insert_one::<O>(s, c));
    if p > 0 {
        lemma_mem_entry::<O>(s, p - 1);
    }
    if p > 0 && s.mem[p - 1].0.peer == c.id.peer {
        assert(s.mem[p - 1].1.counter_range.1 == c.id.counter);
    } else {
        assert forall|k: int| 0 <= k < s.mem.len() implies (#[trigger] s.mem[k]).0.peer != c.id.peer by {
            lemma_mem_entry::<O>(s, k);
            if k >= p {
                assert(s.mem[k].0 == c.id || id_order()(c.id, s.mem[k].0));
            } else if k < p - 1 {
                assert(id_order()(s.mem[k].0, s.mem[p - 1].0));
                assert(id_order()(s.mem[p - 1].0, c.id));
            }
        }
    }
    s.mem[p - 1].0
}

/// The changes of the peer that were in the log start before the change that comes next.
proof fn lemma_starts_before<O: StorageFormat>(s: StoreView<O::V>, c: ChangeView<O::V>, bid: ID, i: int)
    requires
        store_valid::<O>(s),
        change_valid::<O>(c),
        accepts::<O>(s, c, false),
    ensures
        ({
            let l = log_of::<O>(s);
            l.contains_key(bid) && 0 <= i < l[bid].len() && l[bid][i].id.peer == c.id.peer ==> l[bid][i].id.counter
                < c.id.counter
        }),
{
    let l = log_of::<O>(s);
    if l.contains_key(bid) && 0 <= i < l[bid].len() && l[bid][i].id.peer == c.id.peer {
        assert(log_block_valid::<O>(l, known::<O>(s), bid));
        let n = l[bid].len() - 1;
        assert(change_follows::<O>(l[bid], i));
        assert(change_follows::<O>(l[bid], n));
        lemma_change_nonempty::<O>(l[bid][n]);
        if i < n {
            lemma_changes_order::<O>(l[bid], i, n);
        }
    }
}

/// Where changes that were made at the same time are not merged, each change that starts in `c` is
/// one of its pieces, as it was cut.
proof fn lemma_pieces_stand<O: StorageFormat>(s: StoreView<O::V>, c: ChangeView<O::V>, k: int, bid: ID, i: int) -> (q:
    int)
    requires
        store_valid::<O>(s),
        change_valid::<O>(c),
        accepts::<O>(s, c, true),
        O::change_size(c) > 4096,
        s.merge_interval <= 0,
        0 <= k <= split_pieces::<O>(c).len(),
        ({
            let m = log_of::<O>(insert_all::<O>(s, split_pieces::<O>(c).take(k)));
            &&& m.contains_key(bid)
            &&& 0 <= i < m[bid].len()
            &&& m[bid][i].id.peer == c.id.peer
            &&& m[bid][i].id.counter >= c.id.counter
        }),
    ensures
        0 <= q < k,
        log_of::<O>(insert_all::<O>(s, split_pieces::<O>(c).take(k)))[bid][i] == split_pieces::<O>(c)[q],
    decreases k,
{
    let ps = split_pieces::<O>(c);
    lemma_split_pieces::<O>(c);
    if k == 0 {
        assert(ps.take(0) =~= seq![]);
        let l = log_of::<O>(s);
        assert(log_block_valid::<O>(l, known::<O>(s), bid));
        let n = l[bid].len() - 1;
        assert(change_follows::<O>(l[bid], i));
        assert(change_follows::<O>(l[bid], n));
        lemma_change_nonempty::<O>(l[bid][n]);
        if i < n {
            lemma_changes_order::<O>(l[bid], i, n);
        }
        0
    } else {
        lemma_insert_pieces::<O>(s, c, k - 1);
        assert(piece_valid::<O>(c, ps, k - 1));
        assert(ps.take(k).drop_last() =~= ps.take(k - 1));
        let x = ps[k - 1];
        let t0 = insert_all::<O>(s, ps.take(k - 1));
        let (l0, m) = (log_of::<O>(t0), log_of::<O>(insert_all::<O>(s, ps.take(k))));
        let b = lemma_one_lands::<O>(t0, x);
        let n = l0[b].len() - 1;
        lemma_pieces_peer::<O>(c, ps, k - 1);
        if m == l0.insert(x.id, seq![x]) && bid == x.id {
            k - 1
        } else if l0.contains_key(b) && m == l0.insert(b, l0[b].push(x)) && bid == b && i == n + 1 {
            k - 1
        } else {
            let q = lemma_pieces_stand::<O>(s, c, k - 1, bid, i);
            lemma_pieces_peer::<O>(c, ps, q);
            q
        }
    }
}

/// Which changes can be inserted: those that start where the history of their peer ends, as far as
/// it is known to the store and to the version vector that is stored, and where the last block of
/// the peer in memory ends, if there is one. Where the change is to be merged with the last one
/// there, the Lamport clocks must not go beyond what they can be.
pub proof fn lemma_accepts_means<O: StorageFormat>(s: StoreView<O::V>, c: ChangeView<O::V>, split_when_exceeds: bool)
    requires
        store_valid::<O>(s),
        change_valid::<O>(c),
    ensures
        ({
            let p = c.id.peer;
            let before = ID { peer: p, counter: (c.id.counter - 1) as Counter };
            let key = seq![118u8, 118u8];
            let stored = O::vv_of(s.kv[key])->0;
            let is_next = if s.vv.contains_key(p) {
                s.vv[p] == c.id.counter && (s.kv.contains_key(key) && stored.contains_key(p) ==> stored[p]
                    <= c.id.counter)
            } else {
                c.id.counter == 0 && (s.kv.contains_key(key) && stored.contains_key(p) ==> stored[p] == 0)
            };
            accepts::<O>(s, c, split_when_exceeds) <==> is_next && forall|k: int|
                #![trigger s.mem[k]]
                0 <= k < s.mem.len() && s.mem[k].0.peer == p && (k + 1 < s.mem.len() ==> s.mem[k + 1].0.peer != p)
                    ==> {
                    let b = s.mem[k].1;
                    let last = block_changes::<O>(b).last();
                    let has_room = b.estimated_size + O::change_size(c) <= 4096;
                    &&& b.counter_range.1 == c.id.counter
                    &&& c.deps == seq![before] && c.timestamp - last.timestamp < s.merge_interval && ((
                    O::change_size(c) > 4096 && split_when_exceeds) || has_room || (c.ops.len() == 1 && O::mergable(
                        last.ops.last(),
                        c.ops[0],
                    ))) ==> last.lamport + ops_atoms::<O>(last.ops).len() + ops_atoms::<O>(c.ops).len() <= u32::MAX
                }
        }),
{
    let i = place(s.mem, c.id);
    let p = c.id.peer;
    let l = log_of::<O>(s);
    let before = ID { peer: p, counter: (c.id.counter - 1) as Counter };
    let key = seq![118u8, 118u8];
    lemma_id_order();
    lemma_has_place(s.mem, c.id);
    assert(key =~= vv_key());
    assert(c.deps.len() == 1 && c.deps[0] == before ==> c.deps =~= seq![before]);
    if i > 0 {
        lemma_mem_entry::<O>(s, i - 1);
    }
    let next_known = comes_next(s.vv, c.id) && comes_next(known::<O>(s), c.id);
    if next_known {
        lemma_not_in_log::<O>(s, c);
        assert forall|k: int| 0 <= k < s.mem.len() && (#[trigger] s.mem[k]).0.peer == p implies k < i by {
            lemma_mem_entry::<O>(s, k);
            if k >= i {
                assert(s.mem[k].0 == c.id || id_order()(c.id, s.mem[k].0));
            }
        }
        assert forall|k: int|
            0 <= k < s.mem.len() && (#[trigger] s.mem[k]).0.peer == p && (k + 1 < s.mem.len() ==> s.mem[k + 1].0.peer
                != p) implies k == i - 1 by {
            if k < i - 1 {
                assert(id_order()(s.mem[k].0, s.mem[k + 1].0));
                assert(id_order()(s.mem[k + 1].0, c.id));
            }
        }
        if i > 0 && s.mem[i - 1].0.peer == p {
            if i < s.mem.len() {
                assert(s.mem[i].0.peer != p);
            }
            assert(s.mem[i - 1].0 == s.mem[i - 1].0);
        }
    }
}

/// What is known after a change was inserted: of its peer, the history up to its end; of all others
/// what was known before. What is stored stays as it is.
pub proof fn lemma_insert_known<O: StorageFormat>(s: StoreView<O::V>, c: ChangeView<O::V>, split_when_exceeds: bool)
    requires
        store_valid::<O>(s),
        change_valid::<O>(c),
        accepts::<O>(s, c, split_when_exceeds),
    ensures
        ({
            let t = inserted::<O>(s, c, split_when_exceeds);
            &&& t.vv == s.vv.insert(c.id.peer, (c.id.counter + ops_atoms::<O>(c.ops).len()) as Counter)
            &&& t.kv == s.kv
            &&& t.start_vv == s.start_vv
            &&& t.start_frontiers == s.start_frontiers
            &&& t.merge_interval == s.merge_interval
        }),
{
    lemma_insert_change::<O>(s, c, split_when_exceeds);
}

/// Where the clocks of each peer grow, they still do after a change was inserted that starts with a
/// Lamport clock that is not before the end of those of its peer.
pub proof fn lemma_insert_clocks<O: StorageFormat>(s: StoreView<O::V>, c: ChangeView<O::V>, split_when_exceeds: bool)
    requires
        store_valid::<O>(s),
        change_valid::<O>(c),
        accepts::<O>(s, c, split_when_exceeds),
        clocks_grow::<O>(log_of::<O>(s)),
        forall|bid: ID, i: int|
            log_of::<O>(s).contains_key(bid) && 0 <= i < log_of::<O>(s)[bid].len() && (#[trigger] log_of::<O>(
                s,
            )[bid][i]).id.peer == c.id.peer ==> log_of::<O>(s)[bid][i].lamport + ops_atoms::<O>(
                log_of::<O>(s)[bid][i].ops,
            ).len() <= c.lamport,
    ensures
        clocks_grow::<O>(log_of::<O>(inserted::<O>(s, c, split_when_exceeds))),
{
    let l = log_of::<O>(s);
    let t = inserted::<O>(s, c, split_when_exceeds);
    lemma_latest_result::<O>(l, known::<O>(s), IdLp { peer: c.id.peer, lamport: c.lamport });
    assert forall|bid: ID| #[trigger] l.contains_key(bid) && bid.peer == c.id.peer implies changes_lamport_end::<O>(
        l[bid],
    ) <= c.lamport by {
        assert(log_block_valid::<O>(l, known::<O>(s), bid));
        let n = l[bid].len() - 1;
        assert(change_follows::<O>(l[bid], n));
        assert(l[bid][n].id.peer == c.id.peer);
    }
    assert(log_lamports_follow::<O>(l, c));
    lemma_insert_change_lamports::<O>(s, c, split_when_exceeds);
    lemma_insert_change::<O>(s, c, split_when_exceeds);
    lemma_clocks_grow::<O>(log_of::<O>(t), known::<O>(t));
}

} // verus!
