//! The log: the history of every peer, cut into blocks.
use crate::block_map::{id_order, lemma_id_order};
use crate::change::{
    change_atoms, change_covers, change_end, change_valid, changes_atoms, changes_end, changes_lamport_end,
    changes_valid, lamports_ordered, lemma_change_nonempty, lemma_changes_atoms_len, ChangeView,
};
use crate::ids::{Counter, PeerID, ID};
use crate::op::Operation;
use crate::sorted::{keys_grow, lemma_listing_unique, map_of};
use vstd::prelude::*;

verus! {

/// The changes of each block, under the identity of its first atom.
pub type Log<V> = Map<ID, Seq<ChangeView<V>>>;

/// The counter after the last atom of a block.
pub open spec fn block_end<O: Operation>(log: Log<O::V>, bid: ID) -> int {
    changes_end::<O>(log[bid])
}

/// Whether block `bid` holds the atom `id`.
pub open spec fn covers<O: Operation>(log: Log<O::V>, bid: ID, id: ID) -> bool {
    log.contains_key(bid) && bid.peer == id.peer && bid.counter <= id.counter < block_end::<O>(log, bid)
}

/// Whether the log holds the atom `id`.
pub open spec fn log_has<O: Operation>(log: Log<O::V>, id: ID) -> bool {
    exists|bid: ID| #[trigger] covers::<O>(log, bid, id)
}

/// The block that holds the atom `id`.
pub open spec fn covering<O: Operation>(log: Log<O::V>, id: ID) -> ID {
    choose|bid: ID| #[trigger] covers::<O>(log, bid, id)
}

/// The atoms of a log.
pub open spec fn log_atoms<O: Operation>(log: Log<O::V>) -> Map<ID, O::Atom> {
    Map::new(
        |id: ID| log_has::<O>(log, id),
        |id: ID|
            {
                let bid = covering::<O>(log, id);
                changes_atoms::<O>(log[bid])[id.counter - bid.counter]
            },
    )
}

/// The atoms of a change, under their identities.
pub open spec fn atoms_of<O: Operation>(c: ChangeView<O::V>) -> Map<ID, O::Atom> {
    Map::new(
        |id: ID| id.peer == c.id.peer && change_covers::<O>(c, id.counter as int),
        |id: ID| change_atoms::<O>(c)[id.counter - c.id.counter],
    )
}

/// Block `bid` is a history without holes that starts where its name says, is within
/// what is known of its peer, and is followed by another block unless it is the last
/// that is known.
pub open spec fn log_block_valid<O: Operation>(log: Log<O::V>, vv: Map<PeerID, Counter>, bid: ID) -> bool {
    &&& changes_valid::<O>(log[bid])
    &&& log[bid][0].id == bid
    &&& vv.contains_key(bid.peer)
    &&& block_end::<O>(log, bid) <= vv[bid.peer]
    &&& block_end::<O>(log, bid) < vv[bid.peer] ==> log.contains_key(
        ID { peer: bid.peer, counter: block_end::<O>(log, bid) as Counter },
    )
}

/// There are no holes in a block or between two blocks of a peer, and no two blocks
/// hold the same atom. The first block of a peer may start at any counter.
pub open spec fn log_valid<O: Operation>(log: Log<O::V>, vv: Map<PeerID, Counter>) -> bool {
    &&& forall|bid: ID| log.contains_key(bid) ==> #[trigger] log_block_valid::<O>(log, vv, bid)
    &&& forall|a: ID, b: ID| #[trigger]
        log.contains_key(a) && #[trigger] log.contains_key(b) && a.peer == b.peer && a.counter < b.counter
            ==> block_end::<O>(log, a) <= b.counter
}

/// The Lamport clocks of each peer grow from change to change.
pub open spec fn log_lamports_valid<O: Operation>(log: Log<O::V>) -> bool {
    &&& forall|bid: ID| #[trigger] log.contains_key(bid) ==> lamports_ordered::<O>(log[bid])
    &&& forall|a: ID, b: ID| #[trigger]
        log.contains_key(a) && #[trigger] log.contains_key(b) && a.peer == b.peer && a.counter < b.counter
            ==> changes_lamport_end::<O>(log[a]) <= log[b][0].lamport
}

/// The Lamport clocks of `c` come after those of its peer in the log.
pub open spec fn log_lamports_follow<O: Operation>(log: Log<O::V>, c: ChangeView<O::V>) -> bool {
    forall|bid: ID| #[trigger]
        log.contains_key(bid) && bid.peer == c.id.peer ==> changes_lamport_end::<O>(log[bid]) <= c.lamport
}

/// `id` comes right after what is known of its peer.
pub open spec fn comes_next(vv: Map<PeerID, Counter>, id: ID) -> bool {
    if vv.contains_key(id.peer) {
        vv[id.peer] == id.counter
    } else {
        id.counter == 0
    }
}

/// `t`, in place of block `bid`, holds the atoms of that block and then those of `c`.
pub open spec fn grows<O: Operation>(log: Log<O::V>, bid: ID, t: Seq<ChangeView<O::V>>, c: ChangeView<O::V>) -> bool {
    &&& changes_valid::<O>(t)
    &&& t[0].id == bid
    &&& bid.peer == c.id.peer
    &&& changes_end::<O>(t) == change_end::<O>(c)
    &&& if log.contains_key(bid) {
        &&& block_end::<O>(log, bid) == c.id.counter
        &&& changes_atoms::<O>(t) == changes_atoms::<O>(log[bid]) + change_atoms::<O>(c)
    } else {
        &&& bid == c.id
        &&& changes_atoms::<O>(t) == change_atoms::<O>(c)
    }
}

/// An atom is in one block.
pub proof fn lemma_covers_unique<O: Operation>(log: Log<O::V>, vv: Map<PeerID, Counter>, a: ID, id: ID)
    requires
        log_valid::<O>(log, vv),
        covers::<O>(log, a, id),
    ensures
        log_has::<O>(log, id),
        covering::<O>(log, id) == a,
{
    let b = covering::<O>(log, id);
    assert(covers::<O>(log, b, id));
    assert(log.contains_key(a) && log.contains_key(b));
    assert(a.counter == b.counter);
}

/// A valid log in which a block grows by a change that comes next is valid, and holds
/// the atoms of the change besides those that it held.
pub proof fn lemma_log_grown<O: Operation>(
    log: Log<O::V>,
    vv: Map<PeerID, Counter>,
    bid: ID,
    t: Seq<ChangeView<O::V>>,
    c: ChangeView<O::V>,
)
    requires
        log_valid::<O>(log, vv),
        change_valid::<O>(c),
        comes_next(vv, c.id),
        grows::<O>(log, bid, t, c),
    ensures
        log_valid::<O>(log.insert(bid, t), vv.insert(c.id.peer, change_end::<O>(c) as Counter)),
        log_atoms::<O>(log.insert(bid, t)) == log_atoms::<O>(log).union_prefer_right(atoms_of::<O>(c)),
{
    let log1 = log.insert(bid, t);
    let end = change_end::<O>(c) as Counter;
    let vv1 = vv.insert(c.id.peer, end);
    lemma_change_nonempty::<O>(c);
    lemma_changes_atoms_len::<O>(t);
    if log.contains_key(bid) {
        assert(log_block_valid::<O>(log, vv, bid));
        lemma_changes_atoms_len::<O>(log[bid]);
    }
    assert forall|b: ID| log1.contains_key(b) implies #[trigger] log_block_valid::<O>(log1, vv1, b) by {
        if b != bid {
            assert(log_block_valid::<O>(log, vv, b));
            lemma_changes_atoms_len::<O>(log[b]);
        }
    }
    assert forall|a: ID, b: ID| #[trigger]
        log1.contains_key(a) && #[trigger] log1.contains_key(b) && a.peer == b.peer && a.counter
            < b.counter implies block_end::<O>(log1, a) <= b.counter by {
        assert(log_block_valid::<O>(log1, vv1, a));
        assert(log_block_valid::<O>(log1, vv1, b));
        if a == bid {
            assert(log.contains_key(b));
            assert(log_block_valid::<O>(log, vv, b));
            lemma_changes_atoms_len::<O>(log[b]);
        } else {
            assert(log.contains_key(a));
            assert(log_block_valid::<O>(log, vv, a));
        }
    }
    let m1 = log_atoms::<O>(log1);
    let m2 = log_atoms::<O>(log).union_prefer_right(atoms_of::<O>(c));
    assert forall|id: ID|
        #![trigger m1.dom().contains(id)]
        #![trigger m1[id]]
        m1.dom().contains(id) == m2.dom().contains(id) && (m1.dom().contains(id) ==> m1[id] == m2[id]) by {
        let in_c = id.peer == c.id.peer && change_covers::<O>(c, id.counter as int);
        if log_has::<O>(log, id) {
            let b = covering::<O>(log, id);
            assert(covers::<O>(log, b, id));
            assert(log_block_valid::<O>(log, vv, b));
            assert(!in_c);
            assert(covers::<O>(log1, b, id));
            lemma_covers_unique::<O>(log1, vv1, b, id);
        } else if in_c {
            assert(covers::<O>(log1, bid, id));
            lemma_covers_unique::<O>(log1, vv1, bid, id);
        } else if log_has::<O>(log1, id) {
            let b = covering::<O>(log1, id);
            assert(covers::<O>(log1, b, id));
            if b == bid {
                if log.contains_key(bid) {
                    assert(covers::<O>(log, bid, id));
                }
            } else {
                assert(covers::<O>(log, b, id));
            }
        }
    }
    assert(m1 =~= m2);
}

/// Where the Lamport clocks of each peer grow, they still do when a block grows by a
/// change whose clocks come after.
pub proof fn lemma_log_lamports_grown<O: Operation>(
    log: Log<O::V>,
    vv: Map<PeerID, Counter>,
    bid: ID,
    t: Seq<ChangeView<O::V>>,
    c: ChangeView<O::V>,
)
    requires
        log_valid::<O>(log, vv),
        change_valid::<O>(c),
        comes_next(vv, c.id),
        grows::<O>(log, bid, t, c),
        log_lamports_valid::<O>(log),
        log_lamports_follow::<O>(log, c),
        lamports_ordered::<O>(t),
        t[0].lamport == (if log.contains_key(bid) {
            log[bid][0].lamport
        } else {
            c.lamport
        }),
    ensures
        log_lamports_valid::<O>(log.insert(bid, t)),
{
    let log1 = log.insert(bid, t);
    if log.contains_key(bid) {
        assert(log_block_valid::<O>(log, vv, bid));
    }
    assert forall|a: ID, b: ID| #[trigger]
        log1.contains_key(a) && #[trigger] log1.contains_key(b) && a.peer == b.peer && a.counter
            < b.counter implies changes_lamport_end::<O>(log1[a]) <= log1[b][0].lamport by {
        if a == bid {
            assert(log.contains_key(b));
            assert(log_block_valid::<O>(log, vv, b));
            lemma_changes_atoms_len::<O>(log[b]);
        } else {
            assert(log.contains_key(a));
        }
    }
}

/// The changes of a list of blocks, one after the other.
pub open spec fn concat_changes<V>(xs: Seq<(ID, Seq<ChangeView<V>>)>) -> Seq<ChangeView<V>>
    decreases xs.len(),
{
    if xs.len() == 0 {
        seq![]
    } else {
        concat_changes(xs.drop_last()) + xs.last().1
    }
}

/// `xs` lists the blocks of a log in order.
pub open spec fn lists_log<V>(xs: Seq<(ID, Seq<ChangeView<V>>)>, log: Log<V>) -> bool {
    keys_grow(id_order(), xs) && map_of(xs) == log
}

/// The changes of a log, in the order of their identities.
pub open spec fn log_changes<V>(log: Log<V>) -> Seq<ChangeView<V>> {
    concat_changes(choose|xs: Seq<(ID, Seq<ChangeView<V>>)>| #[trigger] lists_log(xs, log))
}

/// There is one way to list the blocks of a log.
pub proof fn lemma_log_changes<V>(xs: Seq<(ID, Seq<ChangeView<V>>)>, log: Log<V>)
    requires
        lists_log(xs, log),
    ensures
        log_changes(log) == concat_changes(xs),
{
    let ys = choose|ys: Seq<(ID, Seq<ChangeView<V>>)>| #[trigger] lists_log(ys, log);
    lemma_id_order();
    lemma_listing_unique(id_order(), xs, ys);
}

} // verus!
