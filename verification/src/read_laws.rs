//! What looking for changes and visiting them come to.
use crate::block::{block_changes, BlockView, ContentView};
use crate::block_map::{id_order, lemma_has_place, lemma_id_order, place};
use crate::change::{
    change_follows, change_lamport_end, changes_lamport_end, lamports_ordered, lemma_change_nonempty, lemma_changes_len,
    lemma_changes_order, ChangeView,
};
use crate::format::{header_of_changes, StorageFormat};
use crate::ids::{id_bytes, Counter, IdLp, PeerID, ID};
use crate::log::{
    concat_changes, covering, covers, lemma_covers_unique, log_block_valid, log_changes, log_has, log_lamports_valid,
    log_valid, Log,
};
use crate::op::{ops_atoms, Operation};
use crate::read_view::{
    any_key, has_change, is_latest_by, lemma_change_covers, lemma_loaded, lemma_mem_listing, lemma_read_block, loaded,
    loaded_map, mem_change_num, mem_listing, none_by, pred_counter, read_block, read_of,
};
use crate::sorted::{key_index, lemma_found_at, map_of};
use crate::store_view::{kv_block_valid, lemma_mem_entry, log_of, log_vv, store_readable, StoreView};
use vstd::prelude::*;

verus! {

/// Whether `a` comes before `b`: it is of a smaller peer, or of the same one with a smaller counter.
pub open spec fn id_less(a: ID, b: ID) -> bool {
    a.peer < b.peer || (a.peer == b.peer && a.counter < b.counter)
}

/// Change `i` of block `bid` is in the list.
pub open spec fn is_visited<V>(log: Log<V>, v: Seq<ChangeView<V>>, bid: ID, i: int) -> bool {
    exists|k: int| 0 <= k < v.len() && #[trigger] v[k] == log[bid][i]
}

/// Change `k` of the list is one of the log.
pub open spec fn is_of_log<V>(log: Log<V>, v: Seq<ChangeView<V>>, k: int) -> bool {
    exists|bid: ID, i: int|
        log.contains_key(bid) && 0 <= i < log[bid].len() && #[trigger] log[bid][i] == v[k]
}

/// The list has every change of the log, no other one, and each of them once: they come in the order
/// of their identities.
pub open spec fn visits_each<V>(log: Log<V>, v: Seq<ChangeView<V>>) -> bool {
    &&& forall|bid: ID, i: int|
        log.contains_key(bid) && 0 <= i < log[bid].len() ==> #[trigger] is_visited(log, v, bid, i)
    &&& forall|k: int| 0 <= k < v.len() ==> #[trigger] is_of_log(log, v, k)
    &&& forall|j: int, k: int| 0 <= j < k < v.len() ==> id_less((#[trigger] v[j]).id, (#[trigger] v[k]).id)
}

/// Visiting the changes of a store visits every change of its log, no other one, and each of them
/// once, in the order of their identities.
pub proof fn lemma_visit_result<O: StorageFormat>(s: StoreView<O::V>, t: StoreView<O::V>)
    requires
        store_readable::<O>(s),
        loaded::<O>(s, t, any_key()),
    ensures
        visits_each(log_of::<O>(s), log_changes(log_of::<O>(s))),
{
    let log = log_of::<O>(s);
    lemma_loaded::<O>(s, t, any_key());
    lemma_id_order();
    assert forall|id: ID| t.kv.contains_key(#[trigger] id_bytes(id)) implies map_of(t.mem).contains_key(id) by {
        assert(loaded_map::<O>(s, any_key()).contains_key(id));
    }
    lemma_mem_listing::<O>(t);
    let xs = mem_listing::<O>(t.mem);
    let v = log_changes(log);
    assert(v == concat_changes(xs));
    assert forall|j: int| 0 <= j < xs.len() implies log.contains_key((#[trigger] xs[j]).0) && log[xs[j].0]
        == xs[j].1 by {
        lemma_mem_entry::<O>(t, j);
    }
    assert forall|bid: ID, i: int| log.contains_key(bid) && 0 <= i < log[bid].len() implies #[trigger] is_visited(
        log,
        v,
        bid,
        i,
    ) by {
        assert(map_of(t.mem).contains_key(bid));
        let j = key_index(t.mem, bid);
        assert(t.mem[j].0 == bid);
        assert(xs[j].0 == bid);
        let k = lemma_concat_has(xs, j, i);
        assert(v[k] == log[bid][i]);
    }
    assert forall|k: int| 0 <= k < v.len() implies #[trigger] is_of_log(log, v, k) by {
        let (j, i) = lemma_concat_from(xs, k);
        assert(log[xs[j].0][i] == v[k]);
    }
    assert forall|j: int, k: int| 0 <= j < k < v.len() implies id_less((#[trigger] v[j]).id, (#[trigger] v[k]).id) by {
        let (a, x) = lemma_concat_from(xs, j);
        let (b, y) = lemma_concat_from(xs, k);
        lemma_concat_order(xs, j, k, a, x, b, y);
        if a < b {
            assert(id_order()(t.mem[a].0, t.mem[b].0));
        }
        lemma_log_order::<O>(log, log_vv::<O>(log), xs[a].0, x, xs[b].0, y);
    }
}

/// Where the changes of a block stand when blocks are put one after the other.
spec fn offset<V>(xs: Seq<(ID, Seq<ChangeView<V>>)>, j: int) -> int {
    concat_changes(xs.take(j)).len() as int
}

proof fn lemma_offset<V>(xs: Seq<(ID, Seq<ChangeView<V>>)>, j: int)
    requires
        0 <= j < xs.len(),
    ensures
        offset(xs, j + 1) == offset(xs, j) + xs[j].1.len(),
        concat_changes(xs.take(j + 1)) == concat_changes(xs.take(j)) + xs[j].1,
{
    assert(xs.take(j + 1).drop_last() =~= xs.take(j));
}

/// The changes of the first blocks come first.
proof fn lemma_prefix<V>(xs: Seq<(ID, Seq<ChangeView<V>>)>, j: int)
    requires
        0 <= j <= xs.len(),
    ensures
        concat_changes(xs.take(j)).is_prefix_of(concat_changes(xs)),
    decreases xs.len() - j,
{
    if j == xs.len() {
        assert(xs.take(j) =~= xs);
    } else {
        lemma_prefix(xs, j + 1);
        lemma_offset(xs, j);
    }
}

/// Each change of each block is there, after those of the blocks before it.
proof fn lemma_concat_has<V>(xs: Seq<(ID, Seq<ChangeView<V>>)>, j: int, i: int) -> (k: int)
    requires
        0 <= j < xs.len(),
        0 <= i < xs[j].1.len(),
    ensures
        k == offset(xs, j) + i,
        0 <= k < concat_changes(xs).len(),
        concat_changes(xs)[k] == xs[j].1[i],
{
    lemma_offset(xs, j);
    lemma_prefix(xs, j + 1);
    let k = offset(xs, j) + i;
    assert(concat_changes(xs)[k] == concat_changes(xs.take(j + 1))[k]);
    k
}

/// Each change is one of a block.
proof fn lemma_concat_from<V>(xs: Seq<(ID, Seq<ChangeView<V>>)>, k: int) -> (r: (int, int))
    requires
        0 <= k < concat_changes(xs).len(),
    ensures
        0 <= r.0 < xs.len(),
        0 <= r.1 < xs[r.0].1.len(),
        concat_changes(xs)[k] == xs[r.0].1[r.1],
        k == offset(xs, r.0) + r.1,
{
    assert(xs.take(xs.len() as int) =~= xs);
    lemma_find(xs, k, xs.len() as int)
}

proof fn lemma_find<V>(xs: Seq<(ID, Seq<ChangeView<V>>)>, k: int, n: int) -> (r: (int, int))
    requires
        0 <= n <= xs.len(),
        0 <= k < concat_changes(xs.take(n)).len(),
    ensures
        0 <= r.0 < n,
        0 <= r.1 < xs[r.0].1.len(),
        concat_changes(xs)[k] == xs[r.0].1[r.1],
        k == offset(xs, r.0) + r.1,
    decreases n,
{
    lemma_prefix(xs, n);
    if n == 0 {
        assert(xs.take(0) =~= seq![]);
        (0, 0)
    } else {
        lemma_offset(xs, n - 1);
        assert(concat_changes(xs)[k] == concat_changes(xs.take(n))[k]);
        if k < offset(xs, n - 1) {
            lemma_find(xs, k, n - 1)
        } else {
            (n - 1, k - offset(xs, n - 1))
        }
    }
}

/// Later changes are in later blocks, or later in the same one.
proof fn lemma_concat_order<V>(
    xs: Seq<(ID, Seq<ChangeView<V>>)>,
    j: int,
    k: int,
    a: int,
    x: int,
    b: int,
    y: int,
)
    requires
        j < k,
        0 <= a < xs.len(),
        0 <= b < xs.len(),
        0 <= x < xs[a].1.len(),
        0 <= y < xs[b].1.len(),
        j == offset(xs, a) + x,
        k == offset(xs, b) + y,
    ensures
        a < b || (a == b && x < y),
{
    if b < a {
        lemma_offset(xs, b);
        lemma_offset_grows(xs, b + 1, a);
    }
}

proof fn lemma_offset_grows<V>(xs: Seq<(ID, Seq<ChangeView<V>>)>, a: int, b: int)
    requires
        0 <= a <= b <= xs.len(),
    ensures
        offset(xs, a) <= offset(xs, b),
    decreases b - a,
{
    if a < b {
        lemma_offset_grows(xs, a, b - 1);
        lemma_offset(xs, b - 1);
    }
}

/// Changes of later blocks, and later ones of the same block, have greater identities.
proof fn lemma_log_order<O: Operation>(
    log: Log<O::V>,
    vv: Map<PeerID, Counter>,
    a: ID,
    x: int,
    b: ID,
    y: int,
)
    requires
        log_valid::<O>(log, vv),
        log.contains_key(a),
        log.contains_key(b),
        0 <= x < log[a].len(),
        0 <= y < log[b].len(),
        id_order()(a, b) || (a == b && x < y),
    ensures
        id_less(log[a][x].id, log[b][y].id),
{
    assert(log_block_valid::<O>(log, vv, a));
    assert(log_block_valid::<O>(log, vv, b));
    assert(change_follows::<O>(log[a], x));
    assert(change_follows::<O>(log[b], y));
    lemma_change_nonempty::<O>(log[a][x]);
    if a == b {
        lemma_changes_order::<O>(log[a], x, y);
    } else if a.peer == b.peer {
        let n = log[a].len() - 1;
        assert(change_follows::<O>(log[a], n));
        lemma_change_nonempty::<O>(log[a][n]);
        if x < n {
            lemma_changes_order::<O>(log[a], x, n);
        }
        if 0 < y {
            lemma_changes_order::<O>(log[b], 0, y);
            assert(change_follows::<O>(log[b], 0));
            lemma_change_nonempty::<O>(log[b][0]);
        }
    }
}

/// Change `i` of block `bid` holds the atom `id`.
pub open spec fn holds<O: Operation>(log: Log<O::V>, bid: ID, i: int, id: ID) -> bool {
    &&& log.contains_key(bid)
    &&& 0 <= i < log[bid].len()
    &&& log[bid][i].id.peer == id.peer
    &&& log[bid][i].id.counter <= id.counter < log[bid][i].id.counter + ops_atoms::<O>(log[bid][i].ops).len()
}

/// A log has an atom exactly if one of its changes holds it, and only one does; that is in the block
/// that a lookup reads.
pub proof fn lemma_lookup_result<O: Operation>(log: Log<O::V>, vv: Map<PeerID, Counter>, id: ID)
    requires
        log_valid::<O>(log, vv),
    ensures
        log_has::<O>(log, id) <==> exists|bid: ID, i: int| #[trigger] holds::<O>(log, bid, i, id),
        forall|bid: ID, i: int| #[trigger] holds::<O>(log, bid, i, id) ==> bid == covering::<O>(log, id),
        forall|bid: ID, i: int, j: int| #[trigger]
            holds::<O>(log, bid, i, id) && #[trigger] holds::<O>(log, bid, j, id) ==> i == j,
{
    assert forall|bid: ID, i: int| #[trigger] holds::<O>(log, bid, i, id) implies covers::<O>(log, bid, id) by {
        assert(log_block_valid::<O>(log, vv, bid));
        let n = log[bid].len() - 1;
        assert(change_follows::<O>(log[bid], i));
        assert(change_follows::<O>(log[bid], n));
        if 0 < i {
            lemma_changes_order::<O>(log[bid], 0, i);
        }
        if i < n {
            lemma_changes_order::<O>(log[bid], i, n);
            lemma_change_nonempty::<O>(log[bid][n]);
        }
    }
    assert forall|bid: ID, i: int| #[trigger] holds::<O>(log, bid, i, id) implies bid == covering::<O>(log, id) by {
        lemma_covers_unique::<O>(log, vv, bid, id);
    }
    assert forall|bid: ID, i: int, j: int| #[trigger]
        holds::<O>(log, bid, i, id) && #[trigger] holds::<O>(log, bid, j, id) implies i == j by {
        assert(log_block_valid::<O>(log, vv, bid));
        if i < j {
            lemma_changes_order::<O>(log[bid], i, j);
        } else if j < i {
            lemma_changes_order::<O>(log[bid], j, i);
        }
    }
    if log_has::<O>(log, id) {
        let bid = covering::<O>(log, id);
        assert(covers::<O>(log, bid, id));
        assert(log_block_valid::<O>(log, vv, bid));
        let i = lemma_change_covers::<O>(log[bid], id.counter as int);
        assert(change_follows::<O>(log[bid], i));
        assert(holds::<O>(log, bid, i, id));
    }
}

/// The clocks of a peer grow: of two changes of a peer, the one with the greater counter starts with a
/// Lamport clock that is not before the end of those of the other.
pub open spec fn clocks_grow<O: Operation>(log: Log<O::V>) -> bool {
    forall|a: ID, i: int, b: ID, j: int|
        log.contains_key(a) && log.contains_key(b) && 0 <= i < log[a].len() && 0 <= j < log[b].len() && (
        #[trigger] log[a][i]).id.peer == (#[trigger] log[b][j]).id.peer && log[a][i].id.counter
            < log[b][j].id.counter ==> log[a][i].lamport + ops_atoms::<O>(log[a][i].ops).len() <= log[b][j].lamport
}

/// Where the clocks of each peer grow, a lookup by Lamport clock finds, of the changes of the peer
/// whose clock is at most the given one, the one with the greatest; and it finds none exactly if there
/// is none.
pub proof fn lemma_latest_result<O: Operation>(log: Log<O::V>, vv: Map<PeerID, Counter>, idlp: IdLp)
    requires
        log_valid::<O>(log, vv),
        clocks_grow::<O>(log),
    ensures
        log_lamports_valid::<O>(log),
        forall|bid: ID, i: int| #[trigger]
            is_latest_by(log, idlp, bid, i) ==> {
                &&& log.contains_key(bid)
                &&& 0 <= i < log[bid].len()
                &&& log[bid][i].id.peer == idlp.peer
                &&& log[bid][i].lamport <= idlp.lamport
                &&& forall|b: ID, j: int|
                    log.contains_key(b) && 0 <= j < log[b].len() && (#[trigger] log[b][j]).id.peer == idlp.peer
                        && log[b][j].lamport <= idlp.lamport ==> log[b][j].lamport <= log[bid][i].lamport
            },
        none_by(log, idlp) <==> forall|b: ID, j: int|
            log.contains_key(b) && 0 <= j < log[b].len() && (#[trigger] log[b][j]).id.peer == idlp.peer
                ==> log[b][j].lamport > idlp.lamport,
{
    assert forall|b: ID, j: int| log.contains_key(b) && 0 <= j < log[b].len() implies (
    #[trigger] log[b][j]).id.peer == b.peer by {
        assert(log_block_valid::<O>(log, vv, b));
        assert(change_follows::<O>(log[b], j));
    }
    assert forall|bid: ID| #[trigger] log.contains_key(bid) implies lamports_ordered::<O>(log[bid]) by {
        assert(log_block_valid::<O>(log, vv, bid));
        assert forall|i: int, j: int|
            0 <= i < j < log[bid].len() implies change_lamport_end::<O>(#[trigger] log[bid][i]) <= (
        #[trigger] log[bid][j]).lamport by {
            lemma_changes_order::<O>(log[bid], i, j);
            assert(change_follows::<O>(log[bid], i));
            lemma_change_nonempty::<O>(log[bid][i]);
        }
    }
    assert forall|a: ID, b: ID| #[trigger]
        log.contains_key(a) && #[trigger] log.contains_key(b) && a.peer == b.peer && a.counter
            < b.counter implies changes_lamport_end::<O>(log[a]) <= log[b][0].lamport by {
        assert(log_block_valid::<O>(log, vv, a));
        assert(log_block_valid::<O>(log, vv, b));
        let n = log[a].len() - 1;
        assert(change_follows::<O>(log[a], n));
        lemma_change_nonempty::<O>(log[a][n]);
        assert(log[a][n].id.counter < log[b][0].id.counter);
    }
    assert forall|b: ID, j: int|
        log.contains_key(b) && 0 <= j < log[b].len() && (#[trigger] log[b][j]).id.peer
            == idlp.peer implies has_change(log, idlp.peer, b, j) by {}
    assert forall|bid: ID, i: int| #[trigger] is_latest_by(log, idlp, bid, i) implies {
        &&& log.contains_key(bid)
        &&& 0 <= i < log[bid].len()
        &&& log[bid][i].id.peer == idlp.peer
        &&& log[bid][i].lamport <= idlp.lamport
        &&& forall|b: ID, j: int|
            log.contains_key(b) && 0 <= j < log[b].len() && (#[trigger] log[b][j]).id.peer == idlp.peer
                && log[b][j].lamport <= idlp.lamport ==> log[b][j].lamport <= log[bid][i].lamport
    } by {
        assert forall|b: ID, j: int|
            log.contains_key(b) && 0 <= j < log[b].len() && (#[trigger] log[b][j]).id.peer == idlp.peer
                && log[b][j].lamport <= idlp.lamport implies log[b][j].lamport <= log[bid][i].lamport by {
            assert(has_change(log, idlp.peer, b, j));
        }
    }
    if forall|b: ID, j: int|
        log.contains_key(b) && 0 <= j < log[b].len() && (#[trigger] log[b][j]).id.peer == idlp.peer
            ==> log[b][j].lamport > idlp.lamport {
        assert(none_by(log, idlp));
    }
    if none_by(log, idlp) {
        assert forall|b: ID, j: int|
            log.contains_key(b) && 0 <= j < log[b].len() && (#[trigger] log[b][j]).id.peer
                == idlp.peer implies log[b][j].lamport > idlp.lamport by {
            assert(has_change(log, idlp.peer, b, j));
        }
    }
}

/// Where the Lamport clocks grow from change to change and from block to block, they grow from each
/// change of a peer to each later one.
pub proof fn lemma_clocks_grow<O: Operation>(log: Log<O::V>, vv: Map<PeerID, Counter>)
    requires
        log_valid::<O>(log, vv),
        log_lamports_valid::<O>(log),
    ensures
        clocks_grow::<O>(log),
{
    assert forall|a: ID, i: int, b: ID, j: int|
        log.contains_key(a) && log.contains_key(b) && 0 <= i < log[a].len() && 0 <= j < log[b].len() && (
        #[trigger] log[a][i]).id.peer == (#[trigger] log[b][j]).id.peer && log[a][i].id.counter
            < log[b][j].id.counter implies log[a][i].lamport + ops_atoms::<O>(log[a][i].ops).len()
        <= log[b][j].lamport by {
        assert(log_block_valid::<O>(log, vv, a));
        assert(log_block_valid::<O>(log, vv, b));
        assert(change_follows::<O>(log[a], i));
        assert(change_follows::<O>(log[b], j));
        let n = log[a].len() - 1;
        if a == b {
            if j < i {
                lemma_changes_order::<O>(log[a], j, i);
            }
            assert(change_lamport_end::<O>(log[a][i]) <= log[a][j].lamport);
        } else {
            if b.counter < a.counter {
                lemma_log_order::<O>(log, vv, b, j, a, i);
            }
            if i < n {
                assert(change_lamport_end::<O>(log[a][i]) <= log[a][n].lamport);
            }
            if 0 < j {
                assert(change_lamport_end::<O>(log[b][0]) <= log[b][j].lamport);
            }
        }
    }
}

/// What reading a block into memory does: the block is there with its changes, as it was in memory, or
/// as it is stored, with the size of its bytes and marked as stored; nothing else changes.
pub proof fn lemma_read_result<O: StorageFormat>(s: StoreView<O::V>, bid: ID)
    requires
        store_readable::<O>(s),
        log_of::<O>(s).contains_key(bid),
    ensures
        ({
            let t = read_block::<O>(s, bid);
            let b = map_of(t.mem)[bid];
            &&& t == (StoreView { mem: t.mem, ..s })
            &&& map_of(t.mem) == map_of(s.mem).insert(bid, b)
            &&& b == read_of::<O>(s, bid)
            &&& block_changes::<O>(b) == log_of::<O>(s)[bid]
            &&& b.content !is Bytes
            &&& map_of(s.mem).contains_key(bid) ==> b == (BlockView { content: b.content, ..map_of(s.mem)[bid] })
            &&& !map_of(s.mem).contains_key(bid) ==> {
                let changes = log_of::<O>(s)[bid];
                let last = changes.last();
                &&& b.flushed
                &&& b.estimated_size == s.kv[id_bytes(bid)].len() as usize
                &&& b.peer == bid.peer
                &&& b.counter_range.0 == bid.counter
                &&& b.counter_range.1 == last.id.counter + ops_atoms::<O>(last.ops).len()
                &&& b.lamport_range.0 == changes[0].lamport
                &&& b.lamport_range.1 == last.lamport + ops_atoms::<O>(last.ops).len()
            }
        }),
{
    lemma_read_block::<O>(s, bid);
    if !map_of(s.mem).contains_key(bid) {
        assert(kv_block_valid::<O>(s.kv, bid));
        let c = log_of::<O>(s)[bid];
        O::lemma_header(s.kv[id_bytes(bid)], c);
        let h = header_of_changes::<O>(c);
        assert(change_follows::<O>(c, c.len() - 1));
        assert(h.lamports.last() == changes_lamport_end::<O>(c));
        assert(h.lamports[0] == c[0].lamport);
    }
}

/// The number of changes in memory is that of the blocks there, one after the other.
pub proof fn lemma_change_num_result<O: StorageFormat>(s: StoreView<O::V>, n: int)
    requires
        store_readable::<O>(s),
        0 <= n < s.mem.len(),
    ensures
        mem_change_num::<O>(s.mem, 0) == 0,
        mem_change_num::<O>(s.mem, n + 1) == mem_change_num::<O>(s.mem, n) + block_changes::<O>(s.mem[n].1).len(),
{
    lemma_mem_entry::<O>(s, n);
    let b = s.mem[n].1;
    if let ContentView::Bytes(x) = b.content {
        O::lemma_header(x.bytes, block_changes::<O>(b));
        lemma_changes_len::<O>(block_changes::<O>(b));
    }
}

/// Where looking at blocks for a span starts: at the counter of the last block in memory that is not
/// after `id`, of whichever peer that is, or at 0.
pub proof fn lemma_pred_result<O: StorageFormat>(s: StoreView<O::V>, id: ID)
    requires
        store_readable::<O>(s),
    ensures
        (forall|k: int| 0 <= k < s.mem.len() ==> id_less(id, (#[trigger] s.mem[k]).0)) ==> pred_counter(s.mem, id) == 0,
        forall|k: int|
            0 <= k < s.mem.len() && !id_less(id, (#[trigger] s.mem[k]).0) && (k + 1 < s.mem.len() ==> id_less(
                id,
                s.mem[k + 1].0,
            )) ==> pred_counter(s.mem, id) == s.mem[k].0.counter,
{
    let i = place(s.mem, id);
    lemma_id_order();
    lemma_has_place(s.mem, id);
    lemma_found_at(id_order(), s.mem, i, id);
    assert forall|k: int|
        0 <= k < s.mem.len() && !id_less(id, (#[trigger] s.mem[k]).0) && (k + 1 < s.mem.len() ==> id_less(
            id,
            s.mem[k + 1].0,
        )) implies pred_counter(s.mem, id) == s.mem[k].0.counter by {
        if k >= i {
            assert(s.mem[k].0 == id || id_order()(id, s.mem[k].0));
            if k > i {
                assert(id_order()(s.mem[i].0, s.mem[k].0));
                assert(s.mem[i].0 == id || id_order()(id, s.mem[i].0));
            }
        } else if k + 1 < i {
            assert(id_order()(s.mem[k + 1].0, id));
        } else if found_here(s.mem, i, id) {
            assert(s.mem[i].0 == id);
        }
    }
    if forall|k: int| 0 <= k < s.mem.len() ==> id_less(id, (#[trigger] s.mem[k]).0) {
        if i > 0 {
            assert(id_order()(s.mem[i - 1].0, id));
        }
        if i < s.mem.len() {
            assert(id_less(id, s.mem[i].0));
        }
    }
}

spec fn found_here<V>(mem: Seq<(ID, V)>, i: int, id: ID) -> bool {
    i < mem.len() && mem[i].0 == id
}

} // verus!
