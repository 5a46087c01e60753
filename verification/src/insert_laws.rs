//! What inserting a change does to the log.
use crate::block::{block_changes, joins_last, lemma_block_pushed, lemma_ops_pushed};
use crate::block_map::{lemma_has_place, place};
use crate::change::{
    change_atoms, change_covers, change_end, change_follows, change_lamport_end, change_len, change_valid,
    changes_atoms, changes_lamport_end, changes_valid, lemma_change_nonempty, lemma_changes_atoms_len,
    lemma_changes_order, ChangeView,
};
use crate::format::StorageFormat;
use crate::ids::{Counter, PeerID, ID};
use crate::log::{
    atoms_of, block_end, covering, covers, lemma_covers_unique, log_atoms, log_block_valid, log_has,
    log_lamports_follow, log_lamports_valid, log_valid, Log,
};
use crate::op::Operation;
use crate::read_view::{change_index, lemma_change_covers, lemma_change_index};
use crate::split::{lemma_split_pieces, piece_valid, split_pieces};
use crate::store_view::{
    accepts, accepts_one, comes_after, empty_store, has_lamport_room, insert_all, insert_one, insert_target, inserted,
    is_split, known, lemma_empty_store, lemma_insert_one, lemma_insert_one_lamports, lemma_insert_one_next,
    lemma_insert_one_step, lemma_known_advanced, lemma_mem_entry, lemma_not_in_log, log_of, store_valid, StoreView,
};
use vstd::prelude::*;

verus! {

/// The first `n` atoms of a change, under their identities.
pub open spec fn first_atoms<O: Operation>(c: ChangeView<O::V>, n: int) -> Map<ID, O::Atom> {
    Map::new(
        |id: ID| id.peer == c.id.peer && c.id.counter <= id.counter < c.id.counter + n,
        |id: ID| change_atoms::<O>(c)[id.counter - c.id.counter],
    )
}

/// The atoms of the first changes of a history are its first atoms.
pub proof fn lemma_changes_atoms_take<O: Operation>(s: Seq<ChangeView<O::V>>, k: int)
    requires
        0 <= k < s.len(),
    ensures
        changes_atoms::<O>(s.take(k + 1)) == changes_atoms::<O>(s.take(k)) + change_atoms::<O>(s[k]),
        changes_atoms::<O>(s.take(k + 1)).is_prefix_of(changes_atoms::<O>(s)),
    decreases s.len() - k,
{
    assert(s.take(k + 1).drop_last() =~= s.take(k));
    if k + 1 == s.len() {
        assert(s.take(k + 1) =~= s);
    } else {
        lemma_changes_atoms_take::<O>(s, k + 1);
    }
}

/// What the store holds after the first `k` pieces of a change were inserted.
pub proof fn lemma_insert_pieces<O: StorageFormat>(s: StoreView<O::V>, c: ChangeView<O::V>, k: int)
    requires
        store_valid::<O>(s),
        change_valid::<O>(c),
        comes_after::<O>(s, c.id),
        has_lamport_room::<O>(s, c, change_len::<O>(c)),
        0 <= k <= split_pieces::<O>(c).len(),
    ensures
        ({
            let ps = split_pieces::<O>(c);
            let t = insert_all::<O>(s, ps.take(k));
            let n = changes_atoms::<O>(ps.take(k)).len() as int;
            let next = ID { peer: c.id.peer, counter: (c.id.counter + n) as Counter };
            &&& n <= change_len::<O>(c)
            &&& k < ps.len() ==> ps[k].id == next && ps[k].lamport == c.lamport + n
            &&& store_valid::<O>(t)
            &&& comes_after::<O>(t, next)
            &&& k < ps.len() ==> has_lamport_room::<O>(t, ps[k], (change_len::<O>(c) - n) as nat) && accepts_one::<O>(
                t,
                ps[k],
            )
            &&& log_atoms::<O>(log_of::<O>(t)) == log_atoms::<O>(log_of::<O>(s)).union_prefer_right(
                first_atoms::<O>(c, n),
            )
            &&& t.kv == s.kv
            &&& t.start_vv == s.start_vv
            &&& t.start_frontiers == s.start_frontiers
            &&& t.merge_interval == s.merge_interval
            &&& k > 0 ==> t.vv == s.vv.insert(c.id.peer, next.counter)
            &&& log_lamports_valid::<O>(log_of::<O>(s)) && log_lamports_follow::<O>(log_of::<O>(s), c) ==> {
                &&& log_lamports_valid::<O>(log_of::<O>(t))
                &&& forall|x: ChangeView<O::V>|
                    (x.id.peer == c.id.peer && x.lamport >= c.lamport + n) || (x.id.peer != c.id.peer
                        && log_lamports_follow::<O>(log_of::<O>(s), x)) ==> #[trigger] log_lamports_follow::<O>(
                        log_of::<O>(t),
                        x,
                    )
            }
        }),
    decreases k,
{
    let ps = split_pieces::<O>(c);
    lemma_split_pieces::<O>(c);
    if k < ps.len() {
        assert(piece_valid::<O>(c, ps, k));
        lemma_changes_atoms_take::<O>(ps, k);
    }
    if k == 0 {
        assert(changes_atoms::<O>(ps.take(0)) =~= seq![]);
        assert(log_atoms::<O>(log_of::<O>(s)) =~= log_atoms::<O>(log_of::<O>(s)).union_prefer_right(
            first_atoms::<O>(c, 0),
        ));
    } else {
        lemma_insert_pieces::<O>(s, c, k - 1);
        let x = ps[k - 1];
        assert(piece_valid::<O>(c, ps, k - 1));
        lemma_changes_atoms_take::<O>(ps, k - 1);
        lemma_change_nonempty::<O>(x);
        let n0 = changes_atoms::<O>(ps.take(k - 1)).len() as int;
        let n = changes_atoms::<O>(ps.take(k)).len() as int;
        let t0 = insert_all::<O>(s, ps.take(k - 1));
        assert(ps.take(k).drop_last() =~= ps.take(k - 1));
        let t = insert_one::<O>(t0, x);
        assert(t == insert_all::<O>(s, ps.take(k)));
        lemma_insert_one::<O>(t0, x);
        lemma_insert_one_next::<O>(t0, x);
        let all = log_atoms::<O>(log_of::<O>(s));
        assert forall|id: ID|
            id.peer == x.id.peer && change_covers::<O>(x, id.counter as int) implies #[trigger] atoms_of::<O>(x)[id]
            == change_atoms::<O>(c)[id.counter - c.id.counter] by {
            let i = id.counter - c.id.counter;
            assert(changes_atoms::<O>(ps.take(k))[i] == changes_atoms::<O>(ps)[i]);
        }
        assert(all.union_prefer_right(first_atoms::<O>(c, n0)).union_prefer_right(atoms_of::<O>(x))
            =~= all.union_prefer_right(first_atoms::<O>(c, n)));
        assert(s.vv.insert(c.id.peer, x.id.counter).insert(c.id.peer, (c.id.counter + n) as Counter)
            =~= s.vv.insert(c.id.peer, (c.id.counter + n) as Counter));
        if log_lamports_valid::<O>(log_of::<O>(s)) && log_lamports_follow::<O>(log_of::<O>(s), c) {
            lemma_insert_one_lamports::<O>(t0, x);
        }
    }
}

/// Inserting a change keeps the store valid, adds the atoms of the change to its log, and
/// changes nothing else: cutting the change into pieces makes no difference to that.
pub proof fn lemma_insert_change<O: StorageFormat>(s: StoreView<O::V>, c: ChangeView<O::V>, split_when_exceeds: bool)
    requires
        store_valid::<O>(s),
        change_valid::<O>(c),
        accepts::<O>(s, c, split_when_exceeds),
    ensures
        store_valid::<O>(inserted::<O>(s, c, split_when_exceeds)),
        log_atoms::<O>(log_of::<O>(inserted::<O>(s, c, split_when_exceeds))) == log_atoms::<O>(
            log_of::<O>(s),
        ).union_prefer_right(atoms_of::<O>(c)),
        inserted::<O>(s, c, split_when_exceeds) == (StoreView {
            mem: inserted::<O>(s, c, split_when_exceeds).mem,
            vv: s.vv.insert(c.id.peer, change_end::<O>(c) as Counter),
            ..s
        }),
{
    if is_split::<O>(c, split_when_exceeds) {
        let ps = split_pieces::<O>(c);
        lemma_split_pieces::<O>(c);
        lemma_insert_pieces::<O>(s, c, ps.len() as int);
        assert(ps.take(ps.len() as int) =~= ps);
        assert(first_atoms::<O>(c, change_len::<O>(c) as int) =~= atoms_of::<O>(c));
    } else {
        lemma_insert_one::<O>(s, c);
    }
}

/// Where the Lamport clocks of each peer grow from change to change, they still do after a
/// change was inserted whose clocks come after those of its peer. The clocks of a change that
/// come after those of the inserted one come after those of the peer again, and for other peers
/// nothing changes: so the clocks grow in every store into which changes were inserted whose
/// clocks do.
pub proof fn lemma_insert_change_lamports<O: StorageFormat>(
    s: StoreView<O::V>,
    c: ChangeView<O::V>,
    split_when_exceeds: bool,
)
    requires
        store_valid::<O>(s),
        change_valid::<O>(c),
        accepts::<O>(s, c, split_when_exceeds),
        log_lamports_valid::<O>(log_of::<O>(s)),
        log_lamports_follow::<O>(log_of::<O>(s), c),
    ensures
        log_lamports_valid::<O>(log_of::<O>(inserted::<O>(s, c, split_when_exceeds))),
        forall|x: ChangeView<O::V>|
            (x.id.peer == c.id.peer && x.lamport >= change_lamport_end::<O>(c)) || (x.id.peer != c.id.peer
                && log_lamports_follow::<O>(log_of::<O>(s), x)) ==> #[trigger] log_lamports_follow::<O>(
                log_of::<O>(inserted::<O>(s, c, split_when_exceeds)),
                x,
            ),
{
    if is_split::<O>(c, split_when_exceeds) {
        let ps = split_pieces::<O>(c);
        lemma_split_pieces::<O>(c);
        lemma_insert_pieces::<O>(s, c, ps.len() as int);
        assert(ps.take(ps.len() as int) =~= ps);
    } else {
        lemma_insert_one_lamports::<O>(s, c);
    }
}

/// After a change was inserted, what is right after it comes next.
pub proof fn lemma_insert_change_next<O: StorageFormat>(
    s: StoreView<O::V>,
    c: ChangeView<O::V>,
    split_when_exceeds: bool,
)
    requires
        store_valid::<O>(s),
        change_valid::<O>(c),
        accepts::<O>(s, c, split_when_exceeds),
    ensures
        comes_after::<O>(
            inserted::<O>(s, c, split_when_exceeds),
            ID { peer: c.id.peer, counter: change_end::<O>(c) as Counter },
        ),
{
    if is_split::<O>(c, split_when_exceeds) {
        let ps = split_pieces::<O>(c);
        lemma_split_pieces::<O>(c);
        lemma_insert_pieces::<O>(s, c, ps.len() as int);
        assert(ps.take(ps.len() as int) =~= ps);
    } else {
        lemma_insert_one_next::<O>(s, c);
    }
}

/// A change whose Lamport clocks come after those of its peer is accepted wherever it comes
/// next.
pub proof fn lemma_accepts_next<O: StorageFormat>(s: StoreView<O::V>, c: ChangeView<O::V>, split_when_exceeds: bool)
    requires
        store_valid::<O>(s),
        change_valid::<O>(c),
        log_lamports_follow::<O>(log_of::<O>(s), c),
    ensures
        accepts::<O>(s, c, split_when_exceeds) == comes_after::<O>(s, c.id),
{
    let i = place(s.mem, c.id);
    lemma_has_place(s.mem, c.id);
    if comes_after::<O>(s, c.id) && i > 0 && s.mem[i - 1].1.peer == c.id.peer {
        lemma_mem_entry::<O>(s, i - 1);
    }
}

/// `y` is the change `x`, which may have grown at its end.
pub open spec fn grown<O: Operation>(x: ChangeView<O::V>, y: ChangeView<O::V>) -> bool {
    y == (ChangeView { ops: y.ops, ..x }) && change_atoms::<O>(x).is_prefix_of(change_atoms::<O>(y))
}

/// Change `i` of block `bid` of the log `l` is where it was in the log `m`. It is as it was,
/// unless it ends at `id`: then it may have grown at its end.
pub open spec fn change_kept<O: Operation>(l: Log<O::V>, m: Log<O::V>, id: ID, bid: ID, i: int) -> bool {
    &&& m.contains_key(bid)
    &&& i < m[bid].len()
    &&& grown::<O>(l[bid][i], m[bid][i])
    &&& bid.peer != id.peer || change_end::<O>(l[bid][i]) < id.counter ==> m[bid][i] == l[bid][i]
}

/// Every change of the log `l` is where it was in the log `m`, and is as it was, unless it is
/// the last one of its peer and ends at `id`.
pub open spec fn history_kept<O: Operation>(l: Log<O::V>, m: Log<O::V>, id: ID) -> bool {
    forall|bid: ID, i: int|
        l.contains_key(bid) && 0 <= i < l[bid].len() ==> #[trigger] change_kept::<O>(l, m, id, bid, i)
}

/// Inserting a change as one keeps the changes that were there.
pub proof fn lemma_insert_one_kept<O: StorageFormat>(s: StoreView<O::V>, c: ChangeView<O::V>)
    requires
        store_valid::<O>(s),
        change_valid::<O>(c),
        accepts_one::<O>(s, c),
    ensures
        history_kept::<O>(log_of::<O>(s), log_of::<O>(insert_one::<O>(s, c)), c.id),
{
    lemma_insert_one_step::<O>(s, c);
    let (l, m) = (log_of::<O>(s), log_of::<O>(insert_one::<O>(s, c)));
    let target = insert_target::<O>(s, c);
    let p = place(s.mem, c.id);
    let size = O::change_size(c);
    lemma_not_in_log::<O>(s, c);
    assert forall|bid: ID, i: int| l.contains_key(bid) && 0 <= i < l[bid].len() implies #[trigger] change_kept::<O>(
        l,
        m,
        c.id,
        bid,
        i,
    ) by {
        if bid == target {
            let b = s.mem[p - 1].1;
            lemma_mem_entry::<O>(s, p - 1);
            let last = l[bid].last();
            assert(change_follows::<O>(l[bid], l[bid].len() - 1));
            if joins_last::<O>(b, c, size, s.merge_interval) {
                lemma_ops_pushed::<O>(last.ops, b.estimated_size, c.ops, last.id.counter as int);
            }
        } else {
            assert(m[bid] == l[bid]);
        }
    }
}

/// Inserting the first `k` pieces of a change keeps the changes that were there.
proof fn lemma_insert_pieces_kept<O: StorageFormat>(s: StoreView<O::V>, c: ChangeView<O::V>, k: int)
    requires
        store_valid::<O>(s),
        change_valid::<O>(c),
        comes_after::<O>(s, c.id),
        has_lamport_room::<O>(s, c, change_len::<O>(c)),
        0 <= k <= split_pieces::<O>(c).len(),
    ensures
        history_kept::<O>(log_of::<O>(s), log_of::<O>(insert_all::<O>(s, split_pieces::<O>(c).take(k))), c.id),
    decreases k,
{
    let ps = split_pieces::<O>(c);
    let l = log_of::<O>(s);
    if k > 0 {
        lemma_split_pieces::<O>(c);
        lemma_insert_pieces::<O>(s, c, k - 1);
        lemma_insert_pieces_kept::<O>(s, c, k - 1);
        assert(piece_valid::<O>(c, ps, k - 1));
        assert(ps.take(k).drop_last() =~= ps.take(k - 1));
        let t0 = insert_all::<O>(s, ps.take(k - 1));
        lemma_insert_one_kept::<O>(t0, ps[k - 1]);
        let (l0, m) = (log_of::<O>(t0), log_of::<O>(insert_all::<O>(s, ps.take(k))));
        assert forall|bid: ID, i: int|
            l.contains_key(bid) && 0 <= i < l[bid].len() implies #[trigger] change_kept::<O>(l, m, c.id, bid, i) by {
            assert(change_kept::<O>(l, l0, c.id, bid, i));
            assert(change_kept::<O>(l0, m, ps[k - 1].id, bid, i));
        }
    } else {
        assert(ps.take(0) =~= seq![]);
        assert forall|bid: ID, i: int| l.contains_key(bid) && 0 <= i < l[bid].len() implies #[trigger] change_kept::<
            O,
        >(l, l, c.id, bid, i) by {
        }
    }
}

/// Inserting a change leaves every change that was there as it was: its identity, its
/// dependencies, its clocks and its atoms. Only the last one of the peer may grow, and only
/// at its end.
pub proof fn lemma_insert_keeps_changes<O: StorageFormat>(
    s: StoreView<O::V>,
    c: ChangeView<O::V>,
    split_when_exceeds: bool,
)
    requires
        store_valid::<O>(s),
        change_valid::<O>(c),
        accepts::<O>(s, c, split_when_exceeds),
    ensures
        history_kept::<O>(log_of::<O>(s), log_of::<O>(inserted::<O>(s, c, split_when_exceeds)), c.id),
{
    if is_split::<O>(c, split_when_exceeds) {
        let ps = split_pieces::<O>(c);
        lemma_insert_pieces_kept::<O>(s, c, ps.len() as int);
        assert(ps.take(ps.len() as int) =~= ps);
    } else {
        lemma_insert_one_kept::<O>(s, c);
    }
}

/// Each atom of a change that was inserted is in the log, as it was in the change.
pub proof fn lemma_insert_then_get<O: StorageFormat>(
    s: StoreView<O::V>,
    c: ChangeView<O::V>,
    split_when_exceeds: bool,
    id: ID,
)
    requires
        store_valid::<O>(s),
        change_valid::<O>(c),
        accepts::<O>(s, c, split_when_exceeds),
        id.peer == c.id.peer,
        change_covers::<O>(c, id.counter as int),
    ensures
        log_has::<O>(log_of::<O>(inserted::<O>(s, c, split_when_exceeds)), id),
        log_atoms::<O>(log_of::<O>(inserted::<O>(s, c, split_when_exceeds)))[id] == change_atoms::<O>(
            c,
        )[id.counter - c.id.counter],
{
    lemma_insert_change::<O>(s, c, split_when_exceeds);
    assert(log_atoms::<O>(log_of::<O>(inserted::<O>(s, c, split_when_exceeds))).contains_key(id));
}

/// The change that holds a counter in a block of the log holds the atom that the log has
/// under that counter.
pub proof fn lemma_change_holds_atom<O: Operation>(log: Log<O::V>, vv: Map<PeerID, Counter>, id: ID, i: int)
    requires
        log_valid::<O>(log, vv),
        log_has::<O>(log, id),
        0 <= i < log[covering::<O>(log, id)].len(),
        change_covers::<O>(log[covering::<O>(log, id)][i], id.counter as int),
    ensures
        ({
            let c = log[covering::<O>(log, id)][i];
            log_atoms::<O>(log)[id] == change_atoms::<O>(c)[id.counter - c.id.counter]
        }),
{
    let bid = covering::<O>(log, id);
    assert(covers::<O>(log, bid, id));
    assert(log_block_valid::<O>(log, vv, bid));
    lemma_history_atom::<O>(log[bid], i, id.counter - log[bid][i].id.counter);
}

/// The atoms of a change stand in its history where its counter says.
pub proof fn lemma_history_atom<O: Operation>(s: Seq<ChangeView<O::V>>, i: int, k: int)
    requires
        changes_valid::<O>(s),
        0 <= i < s.len(),
        0 <= k < change_len::<O>(s[i]),
    ensures
        changes_atoms::<O>(s)[s[i].id.counter - s[0].id.counter + k] == change_atoms::<O>(s[i])[k],
        0 <= s[i].id.counter - s[0].id.counter + k < changes_atoms::<O>(s).len(),
    decreases s.len(),
{
    let n = s.len() - 1;
    assert(change_follows::<O>(s, n));
    let t = s.drop_last();
    if n > 0 {
        assert forall|j: int| 0 <= j < t.len() implies #[trigger] change_follows::<O>(t, j) by {
            assert(change_follows::<O>(s, j));
        }
        lemma_changes_atoms_len::<O>(t);
        assert(t.last() == s[n - 1]);
    } else {
        assert(changes_atoms::<O>(t) =~= seq![]);
    }
    if i < n {
        lemma_history_atom::<O>(t, i, k);
    }
}

/// The Lamport clock of the atom `id`: that of its change, and as many more as there are
/// atoms of the change before it.
pub open spec fn lamport_at<O: Operation>(log: Log<O::V>, id: ID) -> int {
    let s = log[covering::<O>(log, id)];
    let c = s[change_index::<O>(s, id.counter)->0];
    c.lamport + (id.counter - c.id.counter)
}

/// The Lamport clock of an atom in a known change.
pub proof fn lemma_lamport_at<O: Operation>(log: Log<O::V>, vv: Map<PeerID, Counter>, bid: ID, i: int, id: ID)
    requires
        log_valid::<O>(log, vv),
        log.contains_key(bid),
        bid.peer == id.peer,
        0 <= i < log[bid].len(),
        change_covers::<O>(log[bid][i], id.counter as int),
    ensures
        covers::<O>(log, bid, id),
        covering::<O>(log, id) == bid,
        lamport_at::<O>(log, id) == log[bid][i].lamport + (id.counter - log[bid][i].id.counter),
{
    let s = log[bid];
    let n = s.len() - 1;
    assert(log_block_valid::<O>(log, vv, bid));
    assert(change_follows::<O>(s, n));
    if i < n {
        lemma_changes_order::<O>(s, i, n);
    }
    if 0 < i {
        lemma_changes_order::<O>(s, 0, i);
    }
    assert(covers::<O>(log, bid, id));
    lemma_covers_unique::<O>(log, vv, bid, id);
    lemma_change_index::<O>(s, id.counter, i);
}

/// Whether `c`, when it is inserted as one change, is merged with the change before it.
pub open spec fn is_merged<O: StorageFormat>(s: StoreView<O::V>, c: ChangeView<O::V>) -> bool {
    let i = place(s.mem, c.id);
    i > 0 && s.mem[i - 1].1.peer == c.id.peer && joins_last::<O>(
        s.mem[i - 1].1,
        c,
        O::change_size(c),
        s.merge_interval,
    )
}

/// Where `c` is merged with the change before it, its Lamport clocks go on from those of that
/// change.
pub open spec fn lamports_go_on<O: StorageFormat>(s: StoreView<O::V>, c: ChangeView<O::V>) -> bool {
    is_merged::<O>(s, c) ==> changes_lamport_end::<O>(block_changes::<O>(s.mem[place(s.mem, c.id) - 1].1)) == c.lamport
}

/// What is inserted first of `c`: all of it, or the first piece that it is cut into.
pub open spec fn first_piece<O: StorageFormat>(c: ChangeView<O::V>, split_when_exceeds: bool) -> ChangeView<O::V> {
    if is_split::<O>(c, split_when_exceeds) {
        split_pieces::<O>(c)[0]
    } else {
        c
    }
}

/// The Lamport clock of each atom of the log `m` is that of the log `l`, but for the first
/// `n` atoms of `c`, which have their own.
pub open spec fn lamports_kept<O: Operation>(l: Log<O::V>, m: Log<O::V>, c: ChangeView<O::V>, n: int) -> bool {
    forall|id: ID| #[trigger]
        log_has::<O>(m, id) ==> lamport_at::<O>(m, id) == (if id.peer == c.id.peer && c.id.counter <= id.counter
            < c.id.counter + n {
            c.lamport + (id.counter - c.id.counter)
        } else {
            lamport_at::<O>(l, id)
        })
}

/// Inserting a change as one keeps the Lamport clock of each atom.
proof fn lemma_insert_one_lamport_at<O: StorageFormat>(s: StoreView<O::V>, c: ChangeView<O::V>)
    requires
        store_valid::<O>(s),
        change_valid::<O>(c),
        accepts_one::<O>(s, c),
        lamports_go_on::<O>(s, c),
    ensures
        lamports_kept::<O>(
            log_of::<O>(s),
            log_of::<O>(insert_one::<O>(s, c)),
            c,
            change_len::<O>(c) as int,
        ),
        forall|x: ChangeView<O::V>|
            x.id.peer == c.id.peer && x.id.counter == change_end::<O>(c) && x.lamport == change_lamport_end::<O>(c)
                && comes_after::<O>(insert_one::<O>(s, c), x.id) ==> #[trigger] lamports_go_on::<O>(
                insert_one::<O>(s, c),
                x,
            ),
{
    lemma_insert_one_step::<O>(s, c);
    lemma_insert_one::<O>(s, c);
    lemma_insert_one_kept::<O>(s, c);
    lemma_not_in_log::<O>(s, c);
    lemma_change_nonempty::<O>(c);
    let t = insert_one::<O>(s, c);
    let (l, m) = (log_of::<O>(s), log_of::<O>(t));
    let target = insert_target::<O>(s, c);
    let p = place(s.mem, c.id);
    let b = s.mem[p - 1].1;
    let size = O::change_size(c);
    let last = m[target].len() - 1;
    assert(log_block_valid::<O>(m, known::<O>(t), target));
    assert(change_follows::<O>(m[target], last));
    if target != c.id {
        lemma_mem_entry::<O>(s, p - 1);
        assert(change_follows::<O>(l[target], l[target].len() - 1));
        lemma_block_pushed::<O>(b, c, size, s.merge_interval);
        assert(l.contains_key(target));
        assert(block_end::<O>(l, target) == c.id.counter);
    }
    assert(m[target][last].id.counter <= c.id.counter);
    assert(m[target][last].lamport + (c.id.counter - m[target][last].id.counter) == c.lamport);
    assert forall|id: ID| #[trigger] log_has::<O>(m, id) implies lamport_at::<O>(m, id) == (if id.peer == c.id.peer
        && c.id.counter <= id.counter < c.id.counter + change_len::<O>(c) {
        c.lamport + (id.counter - c.id.counter)
    } else {
        lamport_at::<O>(l, id)
    }) by {
        if id.peer == c.id.peer && c.id.counter <= id.counter < c.id.counter + change_len::<O>(c) {
            lemma_lamport_at::<O>(m, known::<O>(t), target, last, id);
        } else {
            assert(log_atoms::<O>(m).contains_key(id));
            assert(log_atoms::<O>(l).contains_key(id));
            let bid = covering::<O>(l, id);
            assert(covers::<O>(l, bid, id));
            assert(log_block_valid::<O>(l, known::<O>(s), bid));
            let i = lemma_change_covers::<O>(l[bid], id.counter as int);
            assert(change_kept::<O>(l, m, c.id, bid, i));
            lemma_lamport_at::<O>(l, known::<O>(s), bid, i, id);
            lemma_lamport_at::<O>(m, known::<O>(t), bid, i, id);
        }
    }
    assert forall|x: ChangeView<O::V>|
        x.id.peer == c.id.peer && x.id.counter == change_end::<O>(c) && x.lamport == change_lamport_end::<O>(c)
            && comes_after::<O>(t, x.id) implies #[trigger] lamports_go_on::<O>(t, x) by {
        if is_merged::<O>(t, x) {
            lemma_has_place(t.mem, x.id);
            let i = place(t.mem, x.id) - 1;
            lemma_mem_entry::<O>(t, i);
            let a = t.mem[i].0;
            if a != target {
                assert(l.contains_key(a));
                assert(log_block_valid::<O>(l, known::<O>(s), a));
            }
        }
    }
}

/// Inserting the first `k` pieces of a change keeps the Lamport clock of each atom.
proof fn lemma_insert_pieces_lamport_at<O: StorageFormat>(s: StoreView<O::V>, c: ChangeView<O::V>, k: int)
    requires
        store_valid::<O>(s),
        change_valid::<O>(c),
        comes_after::<O>(s, c.id),
        has_lamport_room::<O>(s, c, change_len::<O>(c)),
        lamports_go_on::<O>(s, split_pieces::<O>(c)[0]),
        0 <= k <= split_pieces::<O>(c).len(),
    ensures
        ({
            let ps = split_pieces::<O>(c);
            let t = insert_all::<O>(s, ps.take(k));
            &&& lamports_kept::<O>(
                log_of::<O>(s),
                log_of::<O>(t),
                c,
                changes_atoms::<O>(ps.take(k)).len() as int,
            )
            &&& k < ps.len() ==> lamports_go_on::<O>(t, ps[k])
        }),
    decreases k,
{
    let ps = split_pieces::<O>(c);
    let l = log_of::<O>(s);
    lemma_split_pieces::<O>(c);
    if k < ps.len() {
        assert(piece_valid::<O>(c, ps, k));
    }
    if k == 0 {
        assert(ps.take(0) =~= seq![]);
        assert(changes_atoms::<O>(ps.take(0)) =~= seq![]);
    } else {
        lemma_insert_pieces::<O>(s, c, k - 1);
        lemma_insert_pieces::<O>(s, c, k);
        lemma_insert_pieces_lamport_at::<O>(s, c, k - 1);
        let x = ps[k - 1];
        assert(piece_valid::<O>(c, ps, k - 1));
        lemma_changes_atoms_take::<O>(ps, k - 1);
        assert(ps.take(k).drop_last() =~= ps.take(k - 1));
        let t0 = insert_all::<O>(s, ps.take(k - 1));
        lemma_insert_one_lamport_at::<O>(t0, x);
        lemma_insert_one::<O>(t0, x);
        let (l0, m) = (log_of::<O>(t0), log_of::<O>(insert_all::<O>(s, ps.take(k))));
        let n = changes_atoms::<O>(ps.take(k)).len() as int;
        assert forall|id: ID| #[trigger] log_has::<O>(m, id) implies lamport_at::<O>(m, id) == (if id.peer
            == c.id.peer && c.id.counter <= id.counter < c.id.counter + n {
            c.lamport + (id.counter - c.id.counter)
        } else {
            lamport_at::<O>(l, id)
        }) by {
            if !(id.peer == x.id.peer && change_covers::<O>(x, id.counter as int)) {
                assert(log_atoms::<O>(m).contains_key(id));
                assert(log_atoms::<O>(l0).contains_key(id));
                assert(log_has::<O>(l0, id));
            }
        }
    }
}

/// Inserting a change gives each of its atoms the Lamport clock that it has in the change,
/// and leaves those of all other atoms, whether the change is cut into pieces or not.
pub proof fn lemma_insert_keeps_lamports<O: StorageFormat>(
    s: StoreView<O::V>,
    c: ChangeView<O::V>,
    split_when_exceeds: bool,
)
    requires
        store_valid::<O>(s),
        change_valid::<O>(c),
        accepts::<O>(s, c, split_when_exceeds),
        lamports_go_on::<O>(s, first_piece::<O>(c, split_when_exceeds)),
    ensures
        lamports_kept::<O>(
            log_of::<O>(s),
            log_of::<O>(inserted::<O>(s, c, split_when_exceeds)),
            c,
            change_len::<O>(c) as int,
        ),
{
    if is_split::<O>(c, split_when_exceeds) {
        let ps = split_pieces::<O>(c);
        lemma_split_pieces::<O>(c);
        lemma_insert_pieces_lamport_at::<O>(s, c, ps.len() as int);
        assert(ps.take(ps.len() as int) =~= ps);
    } else {
        lemma_insert_one_lamport_at::<O>(s, c);
    }
}

/// Cutting a change into pieces groups its atoms otherwise, and changes nothing else: the
/// same is known, and each atom has the same content and the same Lamport clock.
pub proof fn lemma_split_changes_grouping_only<O: StorageFormat>(s: StoreView<O::V>, c: ChangeView<O::V>, id: ID)
    requires
        store_valid::<O>(s),
        change_valid::<O>(c),
        accepts::<O>(s, c, true),
        accepts::<O>(s, c, false),
        lamports_go_on::<O>(s, first_piece::<O>(c, true)),
        lamports_go_on::<O>(s, c),
    ensures
        inserted::<O>(s, c, true).vv == inserted::<O>(s, c, false).vv,
        ({
            let (l, m) = (log_of::<O>(inserted::<O>(s, c, true)), log_of::<O>(inserted::<O>(s, c, false)));
            &&& log_has::<O>(l, id) == log_has::<O>(m, id)
            &&& log_has::<O>(l, id) ==> log_atoms::<O>(l)[id] == log_atoms::<O>(m)[id] && lamport_at::<O>(l, id)
                == lamport_at::<O>(m, id)
        }),
{
    lemma_insert_change::<O>(s, c, true);
    lemma_insert_change::<O>(s, c, false);
    lemma_insert_keeps_lamports::<O>(s, c, true);
    lemma_insert_keeps_lamports::<O>(s, c, false);
    let (l, m) = (log_of::<O>(inserted::<O>(s, c, true)), log_of::<O>(inserted::<O>(s, c, false)));
    assert(log_atoms::<O>(l).contains_key(id) == log_has::<O>(l, id));
    assert(log_atoms::<O>(m).contains_key(id) == log_has::<O>(m, id));
}

/// The log holds the whole history of each peer: the atoms from counter 0 up to the one that
/// is known, and no others.
pub open spec fn complete<O: StorageFormat>(s: StoreView<O::V>) -> bool {
    &&& known::<O>(s) == s.vv
    &&& forall|id: ID| #[trigger]
        log_has::<O>(log_of::<O>(s), id) <==> s.vv.contains_key(id.peer) && 0 <= id.counter < s.vv[id.peer]
}

/// The store that holds nothing has the whole history.
pub proof fn lemma_empty_complete<O: StorageFormat>(merge_interval: i64)
    ensures
        complete::<O>(empty_store::<O::V>(merge_interval)),
{
    lemma_empty_store::<O>(merge_interval);
    let s = empty_store::<O::V>(merge_interval);
    assert forall|id: ID| !#[trigger] log_has::<O>(log_of::<O>(s), id) by {
        if log_has::<O>(log_of::<O>(s), id) {
            let bid = covering::<O>(log_of::<O>(s), id);
            assert(covers::<O>(log_of::<O>(s), bid, id));
        }
    }
}

/// A store that has the whole history still has it after a change was inserted.
pub proof fn lemma_insert_complete<O: StorageFormat>(s: StoreView<O::V>, c: ChangeView<O::V>, split_when_exceeds: bool)
    requires
        store_valid::<O>(s),
        complete::<O>(s),
        change_valid::<O>(c),
        accepts::<O>(s, c, split_when_exceeds),
    ensures
        complete::<O>(inserted::<O>(s, c, split_when_exceeds)),
{
    let t = inserted::<O>(s, c, split_when_exceeds);
    lemma_insert_change::<O>(s, c, split_when_exceeds);
    lemma_known_advanced::<O>(s, t, c);
    let (l, m) = (log_of::<O>(s), log_of::<O>(t));
    assert forall|id: ID| #[trigger] log_has::<O>(m, id) <==> t.vv.contains_key(id.peer) && 0 <= id.counter
        < t.vv[id.peer] by {
        assert(log_has::<O>(m, id) == log_atoms::<O>(m).contains_key(id));
        assert(log_has::<O>(l, id) == log_atoms::<O>(l).contains_key(id));
    }
}

/// Whatever leaves the log and what is known as they were leaves the history whole.
pub proof fn lemma_same_complete<O: StorageFormat>(s: StoreView<O::V>, t: StoreView<O::V>)
    requires
        complete::<O>(s),
        log_of::<O>(t) == log_of::<O>(s),
        t.vv == s.vv,
        known::<O>(t) == known::<O>(s),
    ensures
        complete::<O>(t),
{
}

/// In a store that has the whole history, the blocks of a peer tile its counters: the first
/// one starts at 0, each other one where the one before it ends, and the last one ends where
/// what is known ends. Each counter is in exactly one of them.
pub proof fn lemma_complete_tiles<O: StorageFormat>(s: StoreView<O::V>, peer: PeerID)
    requires
        store_valid::<O>(s),
        complete::<O>(s),
        s.vv.contains_key(peer),
        s.vv[peer] > 0,
    ensures
        ({
            let log = log_of::<O>(s);
            let first = ID { peer, counter: 0 };
            let last = covering::<O>(log, ID { peer, counter: (s.vv[peer] - 1) as Counter });
            &&& log.contains_key(first)
            &&& log.contains_key(last)
            &&& last.peer == peer
            &&& block_end::<O>(log, last) == s.vv[peer]
            &&& forall|bid: ID| #[trigger]
                log.contains_key(bid) && bid.peer == peer ==> {
                    &&& changes_valid::<O>(log[bid])
                    &&& log[bid][0].id == bid
                    &&& bid == last || log.contains_key(
                        ID { peer, counter: block_end::<O>(log, bid) as Counter },
                    )
                }
            &&& forall|a: ID, b: ID, id: ID| #[trigger]
                covers::<O>(log, a, id) && #[trigger] covers::<O>(log, b, id) ==> a == b
        }),
{
    let log = log_of::<O>(s);
    let id0 = ID { peer, counter: 0 };
    let id1 = ID { peer, counter: (s.vv[peer] - 1) as Counter };
    assert(log_has::<O>(log, id0));
    assert(log_has::<O>(log, id1));
    let first = covering::<O>(log, id0);
    let last = covering::<O>(log, id1);
    assert(covers::<O>(log, first, id0));
    assert(covers::<O>(log, last, id1));
    assert(log_block_valid::<O>(log, known::<O>(s), first));
    assert(log_block_valid::<O>(log, known::<O>(s), last));
    assert(change_follows::<O>(log[first], 0));
    assert(first == id0);
    assert forall|bid: ID| #[trigger] log.contains_key(bid) && bid.peer == peer implies changes_valid::<O>(log[bid])
        && log[bid][0].id == bid && (bid == last || log.contains_key(
        ID { peer, counter: block_end::<O>(log, bid) as Counter },
    )) by {
        assert(log_block_valid::<O>(log, known::<O>(s), bid));
        lemma_changes_atoms_len::<O>(log[bid]);
        if block_end::<O>(log, bid) == s.vv[peer] {
            assert(covers::<O>(log, bid, id1));
            lemma_covers_unique::<O>(log, known::<O>(s), bid, id1);
        }
    }
    assert forall|a: ID, b: ID, id: ID| #[trigger]
        covers::<O>(log, a, id) && #[trigger] covers::<O>(log, b, id) implies a == b by {
        lemma_covers_unique::<O>(log, known::<O>(s), a, id);
        lemma_covers_unique::<O>(log, known::<O>(s), b, id);
    }
}

} // verus!
