//! What a change store holds, and what its operations do to it.
use crate::block::{
    block_changes, block_pushed, block_stored, block_takes, block_valid, joins_last, lemma_block_pushed,
    lemma_single_block, may_join, single_block, BlockView, ContentView, MAX_BLOCK_SIZE,
};
use crate::block_map::{id_order, lemma_has_place, lemma_id_order, lemma_key_place, lemma_place, place};
use crate::change::{
    change_atoms, change_end, change_follows, change_lamport_end, change_len, change_valid, changes_atoms, changes_end,
    changes_lamport_end, changes_valid, lemma_change_nonempty, lemma_changes_atoms_len, ChangeView,
};
use crate::format::StorageFormat;
use crate::ids::{id_bytes, Counter, PeerID, ID};
use crate::log::{
    atoms_of, comes_next, grows, lemma_log_grown, lemma_log_lamports_grown, log_atoms, log_block_valid,
    log_lamports_follow, log_lamports_valid, log_valid, Log,
};
use crate::sorted::{
    found_at, is_place, key_index, keys_grow, lemma_found_at, lemma_map_of, lemma_put_at, map_of, put_at,
};
use crate::split::{
    lemma_split_cur, lemma_split_off, lemma_split_start, split_off, split_pieces, split_start, split_valid, SplitView,
};
use crate::version::vv_merged;
use vstd::prelude::*;

verus! {

/// What a change store holds.
#[verifier::ext_equal]
pub struct StoreView<V> {
    /// The blocks in memory.
    pub mem: Seq<(ID, BlockView<V>)>,
    /// The contents of the key-value store.
    pub kv: Map<Seq<u8>, Seq<u8>>,
    /// How far the history of each peer is known.
    pub vv: Map<PeerID, Counter>,
    /// Where the history of each peer starts that has been trimmed.
    pub start_vv: Map<PeerID, Counter>,
    /// The last version of the history that has been trimmed away.
    pub start_frontiers: Seq<ID>,
    /// How long after a change another one may be merged with it.
    pub merge_interval: i64,
}

/// The key under which the version vector is stored.
pub open spec fn vv_key() -> Seq<u8> {
    seq![118u8, 118u8]
}

/// The changes of the block that is stored under an identity.
pub open spec fn kv_changes<O: StorageFormat>(kv: Map<Seq<u8>, Seq<u8>>, bid: ID) -> Seq<ChangeView<O::V>> {
    O::block_of(kv[id_bytes(bid)])->0
}

/// The log that the store holds: the blocks in memory, and the ones that are stored and
/// not in memory.
pub open spec fn log_of<O: StorageFormat>(s: StoreView<O::V>) -> Log<O::V> {
    Map::new(
        |id: ID| map_of(s.mem).contains_key(id) || s.kv.contains_key(id_bytes(id)),
        |id: ID|
            if map_of(s.mem).contains_key(id) {
                block_changes::<O>(map_of(s.mem)[id])
            } else {
                kv_changes::<O>(s.kv, id)
            },
    )
}

/// Block `i` in memory is valid and stands under its identity. If it is noted as stored,
/// it is; if an earlier state of it is stored, that holds no more than the block.
pub open spec fn mem_block_valid<O: StorageFormat>(s: StoreView<O::V>, i: int) -> bool {
    let (id, b) = s.mem[i];
    &&& block_valid::<O>(b)
    &&& id == ID { peer: b.peer, counter: b.counter_range.0 }
    &&& block_stored(b) ==> s.kv.contains_key(id_bytes(id)) && O::block_of(s.kv[id_bytes(id)]) == Some(
        block_changes::<O>(b),
    )
    &&& s.kv.contains_key(id_bytes(id)) ==> changes_end::<O>(kv_changes::<O>(s.kv, id)) <= b.counter_range.1
}

/// What is stored under an identity are the bytes of a history that starts there.
pub open spec fn kv_block_valid<O: StorageFormat>(kv: Map<Seq<u8>, Seq<u8>>, bid: ID) -> bool {
    &&& O::block_of(kv[id_bytes(bid)]) is Some
    &&& changes_valid::<O>(kv_changes::<O>(kv, bid))
    &&& kv_changes::<O>(kv, bid)[0].id == bid
}

/// The version vector that is stored.
pub open spec fn stored_vv<O: StorageFormat>(kv: Map<Seq<u8>, Seq<u8>>) -> Option<Map<PeerID, Counter>> {
    O::vv_of(kv[vv_key()])
}

/// How far the history of each peer is known to the store, or to the version vector that is
/// stored.
pub open spec fn known<O: StorageFormat>(s: StoreView<O::V>) -> Map<PeerID, Counter> {
    if s.kv.contains_key(vv_key()) {
        vv_merged(s.vv, stored_vv::<O>(s.kv)->0)
    } else {
        s.vv
    }
}

/// A version vector as far as which a log has no holes, if there is one.
pub open spec fn log_vv<O: StorageFormat>(log: Log<O::V>) -> Map<PeerID, Counter> {
    choose|vv: Map<PeerID, Counter>| #[trigger] log_valid::<O>(log, vv)
}

/// The blocks in memory and the stored ones are valid, and they make up a log without holes,
/// though more may be known.
pub open spec fn store_readable<O: StorageFormat>(s: StoreView<O::V>) -> bool {
    &&& keys_grow(id_order(), s.mem)
    &&& forall|i: int| 0 <= i < s.mem.len() ==> #[trigger] mem_block_valid::<O>(s, i)
    &&& forall|bid: ID| s.kv.contains_key(id_bytes(bid)) ==> #[trigger] kv_block_valid::<O>(s.kv, bid)
    &&& exists|vv: Map<PeerID, Counter>| #[trigger] log_valid::<O>(log_of::<O>(s), vv)
}

/// The store, and the version vector that is stored, can be read.
pub open spec fn store_flushable<O: StorageFormat>(s: StoreView<O::V>) -> bool {
    &&& store_readable::<O>(s)
    &&& s.kv.contains_key(vv_key()) ==> stored_vv::<O>(s.kv) is Some
}

/// The store, and the version vector that is stored, can be read, and the log goes as far as it is
/// known.
pub open spec fn store_valid<O: StorageFormat>(s: StoreView<O::V>) -> bool {
    &&& store_flushable::<O>(s)
    &&& log_valid::<O>(log_of::<O>(s), known::<O>(s))
}

/// `id` comes right after what is known of its peer, and after the block in memory that is
/// before it, if that is of the same peer.
pub open spec fn comes_after<O: StorageFormat>(s: StoreView<O::V>, id: ID) -> bool {
    let i = place(s.mem, id);
    &&& comes_next(s.vv, id)
    &&& comes_next(known::<O>(s), id)
    &&& i > 0 && s.mem[i - 1].1.peer == id.peer ==> s.mem[i - 1].1.counter_range.1 == id.counter
}

/// The block in memory before `c`, if that is of the same peer and `c` is made to be merged
/// with its last change, leaves room for the Lamport clocks of `len` atoms.
pub open spec fn has_lamport_room<O: StorageFormat>(s: StoreView<O::V>, c: ChangeView<O::V>, len: nat) -> bool {
    let i = place(s.mem, c.id);
    i > 0 && s.mem[i - 1].1.peer == c.id.peer && may_join::<O>(s.mem[i - 1].1, c, s.merge_interval)
        ==> changes_lamport_end::<O>(block_changes::<O>(s.mem[i - 1].1)) + len <= u32::MAX
}

/// `c` can be inserted as one change: it comes next, and where it is merged with the change
/// before it, the Lamport clocks of that change leave room for it.
pub open spec fn accepts_one<O: StorageFormat>(s: StoreView<O::V>, c: ChangeView<O::V>) -> bool {
    let i = place(s.mem, c.id);
    &&& comes_after::<O>(s, c.id)
    &&& i > 0 && s.mem[i - 1].1.peer == c.id.peer && joins_last::<O>(
        s.mem[i - 1].1,
        c,
        O::change_size(c),
        s.merge_interval,
    ) ==> changes_lamport_end::<O>(block_changes::<O>(s.mem[i - 1].1)) + change_len::<O>(c) <= u32::MAX
}

/// Whether `c` is cut into pieces when it is inserted.
pub open spec fn is_split<O: StorageFormat>(c: ChangeView<O::V>, split_when_exceeds: bool) -> bool {
    O::change_size(c) > MAX_BLOCK_SIZE && split_when_exceeds
}

/// `c` can be inserted.
pub open spec fn accepts<O: StorageFormat>(s: StoreView<O::V>, c: ChangeView<O::V>, split_when_exceeds: bool) -> bool {
    if is_split::<O>(c, split_when_exceeds) {
        comes_after::<O>(s, c.id) && has_lamport_room::<O>(s, c, change_len::<O>(c))
    } else {
        accepts_one::<O>(s, c)
    }
}

/// The store with a block put in memory.
pub open spec fn mem_put<V>(s: StoreView<V>, id: ID, b: BlockView<V>) -> StoreView<V> {
    StoreView { mem: put_at(s.mem, place(s.mem, id), id, b), ..s }
}

/// The store that knows of the atoms of `c`.
pub open spec fn vv_advanced<O: StorageFormat>(s: StoreView<O::V>, c: ChangeView<O::V>) -> StoreView<O::V> {
    StoreView { vv: s.vv.insert(c.id.peer, change_end::<O>(c) as Counter), ..s }
}

/// The store after `c` was inserted as one change: the block in memory that is before it
/// takes it, if it is of the same peer and has room; else it becomes a block of its own.
pub open spec fn insert_one<O: StorageFormat>(s: StoreView<O::V>, c: ChangeView<O::V>) -> StoreView<O::V> {
    let size = O::change_size(c);
    let i = place(s.mem, c.id);
    let s1 = vv_advanced::<O>(s, c);
    if i > 0 && s.mem[i - 1].1.peer == c.id.peer {
        let (bid, b) = s.mem[i - 1];
        let s2 = StoreView {
            mem: s.mem.update(i - 1, (bid, block_pushed::<O>(b, c, size, s.merge_interval))),
            ..s1
        };
        if block_takes::<O>(b, c, size, s.merge_interval) {
            s2
        } else {
            mem_put(s2, c.id, single_block::<O>(c))
        }
    } else {
        mem_put(s1, c.id, single_block::<O>(c))
    }
}

/// The store after the changes were inserted, one after the other.
pub open spec fn insert_all<O: StorageFormat>(s: StoreView<O::V>, cs: Seq<ChangeView<O::V>>) -> StoreView<O::V>
    decreases cs.len(),
{
    if cs.len() == 0 {
        s
    } else {
        insert_one::<O>(insert_all::<O>(s, cs.drop_last()), cs.last())
    }
}

/// Changing how blocks are held in memory, or reading stored ones into memory, keeps the
/// store valid and its log the same.
pub proof fn lemma_mem_recast<O: StorageFormat>(s: StoreView<O::V>, t: StoreView<O::V>)
    requires
        store_readable::<O>(s),
        t == (StoreView { mem: t.mem, ..s }),
        keys_grow(id_order(), t.mem),
        forall|i: int| 0 <= i < t.mem.len() ==> #[trigger] mem_block_valid::<O>(t, i),
        forall|id: ID| #[trigger] map_of(s.mem).contains_key(id) ==> map_of(t.mem).contains_key(id),
        forall|i: int|
            0 <= i < t.mem.len() ==> log_of::<O>(s).contains_key((#[trigger] t.mem[i]).0) && block_changes::<O>(
                t.mem[i].1,
            ) == log_of::<O>(s)[t.mem[i].0],
    ensures
        store_readable::<O>(t),
        store_valid::<O>(s) ==> store_valid::<O>(t),
        log_of::<O>(t) == log_of::<O>(s),
{
    let (a, b) = (log_of::<O>(s), log_of::<O>(t));
    lemma_id_order();
    assert forall|id: ID|
        #![trigger a.dom().contains(id)]
        #![trigger a[id]]
        a.dom().contains(id) == b.dom().contains(id) && (a.dom().contains(id) ==> a[id] == b[id]) by {
        if map_of(t.mem).contains_key(id) {
            let i = key_index(t.mem, id);
            assert(t.mem[i].0 == id);
            lemma_map_of(id_order(), t.mem, i);
        }
    }
    assert(a =~= b);
}

/// In a store that can be read, the entries of memory are those of its map.
pub proof fn lemma_mem_entry<O: StorageFormat>(s: StoreView<O::V>, i: int)
    requires
        store_readable::<O>(s),
        0 <= i < s.mem.len(),
    ensures
        map_of(s.mem).contains_key(s.mem[i].0),
        map_of(s.mem)[s.mem[i].0] == s.mem[i].1,
        log_of::<O>(s).contains_key(s.mem[i].0),
        log_of::<O>(s)[s.mem[i].0] == block_changes::<O>(s.mem[i].1),
        place(s.mem, s.mem[i].0) == i,
        is_place(id_order(), s.mem, i, s.mem[i].0),
        mem_block_valid::<O>(s, i),
{
    lemma_id_order();
    lemma_map_of(id_order(), s.mem, i);
    lemma_key_place(s.mem, i);
    assert(mem_block_valid::<O>(s, i));
}

/// Putting a block with the changes that the log has under its identity in memory keeps
/// the store valid and its log the same.
pub proof fn lemma_mem_put<O: StorageFormat>(s: StoreView<O::V>, bid: ID, b: BlockView<O::V>)
    requires
        store_readable::<O>(s),
        log_of::<O>(s).contains_key(bid),
        block_changes::<O>(b) == log_of::<O>(s)[bid],
        block_valid::<O>(b),
        bid == (ID { peer: b.peer, counter: b.counter_range.0 }),
        block_stored(b) ==> s.kv.contains_key(id_bytes(bid)) && O::block_of(s.kv[id_bytes(bid)]) == Some(
            block_changes::<O>(b),
        ),
    ensures
        store_readable::<O>(mem_put(s, bid, b)),
        store_valid::<O>(s) ==> store_valid::<O>(mem_put(s, bid, b)),
        log_of::<O>(mem_put(s, bid, b)) == log_of::<O>(s),
        map_of(mem_put(s, bid, b).mem) == map_of(s.mem).insert(bid, b),
{
    let t = mem_put(s, bid, b);
    let p = place(s.mem, bid);
    lemma_id_order();
    lemma_has_place(s.mem, bid);
    lemma_found_at(id_order(), s.mem, p, bid);
    lemma_put_at(id_order(), s.mem, p, bid, b);
    assert forall|i: int| 0 <= i < t.mem.len() implies #[trigger] mem_block_valid::<O>(t, i) && log_of::<O>(
        s,
    ).contains_key(t.mem[i].0) && block_changes::<O>(t.mem[i].1) == log_of::<O>(s)[t.mem[i].0] by {
        if i == p {
            if s.kv.contains_key(id_bytes(bid)) && found_at(s.mem, p, bid) {
                lemma_mem_entry::<O>(s, p);
            }
        } else {
            let i0 = if i < p || found_at(s.mem, p, bid) {
                i
            } else {
                i - 1
            };
            assert(t.mem[i] == s.mem[i0]);
            lemma_mem_entry::<O>(s, i0);
        }
    }
    lemma_mem_recast::<O>(s, t);
}

/// The store knows of every block of its log.
pub proof fn lemma_not_in_log<O: StorageFormat>(s: StoreView<O::V>, c: ChangeView<O::V>)
    requires
        store_valid::<O>(s),
        comes_next(known::<O>(s), c.id),
    ensures
        !log_of::<O>(s).contains_key(c.id),
        forall|bid: ID| #[trigger]
            log_of::<O>(s).contains_key(bid) && bid.peer == c.id.peer ==> bid.counter < c.id.counter,
{
    let log = log_of::<O>(s);
    assert forall|bid: ID| #[trigger] log.contains_key(bid) && bid.peer == c.id.peer implies bid.counter
        < c.id.counter by {
        assert(log_block_valid::<O>(log, known::<O>(s), bid));
        lemma_changes_atoms_len::<O>(log[bid]);
    }
}

/// What the store holds after its log grew.
pub open spec fn log_grown<O: StorageFormat>(
    s: StoreView<O::V>,
    t: StoreView<O::V>,
    bid: ID,
    c: ChangeView<O::V>,
) -> bool {
    &&& log_of::<O>(t) == log_of::<O>(s).insert(bid, log_of::<O>(t)[bid])
    &&& grows::<O>(log_of::<O>(s), bid, log_of::<O>(t)[bid], c)
    &&& t.vv == s.vv.insert(c.id.peer, change_end::<O>(c) as Counter)
    &&& t.kv == s.kv
    &&& t.start_vv == s.start_vv
    &&& t.start_frontiers == s.start_frontiers
    &&& t.merge_interval == s.merge_interval
}

/// What is known grows by the change that comes next.
pub proof fn lemma_known_advanced<O: StorageFormat>(s: StoreView<O::V>, t: StoreView<O::V>, c: ChangeView<O::V>)
    requires
        change_valid::<O>(c),
        comes_next(known::<O>(s), c.id),
        t.kv == s.kv,
        t.vv == s.vv.insert(c.id.peer, change_end::<O>(c) as Counter),
    ensures
        known::<O>(t) == known::<O>(s).insert(c.id.peer, change_end::<O>(c) as Counter),
{
    lemma_change_nonempty::<O>(c);
    if s.kv.contains_key(vv_key()) {
        let v = stored_vv::<O>(s.kv)->0;
        assert(v.contains_key(c.id.peer) ==> known::<O>(s).contains_key(c.id.peer));
    }
    assert(known::<O>(t) =~= known::<O>(s).insert(c.id.peer, change_end::<O>(c) as Counter));
}

/// A store whose log grew by a change that comes next is valid, if its memory is.
pub proof fn lemma_store_grown<O: StorageFormat>(
    s: StoreView<O::V>,
    t: StoreView<O::V>,
    bid: ID,
    c: ChangeView<O::V>,
)
    requires
        store_valid::<O>(s),
        change_valid::<O>(c),
        comes_next(known::<O>(s), c.id),
        log_grown::<O>(s, t, bid, c),
        keys_grow(id_order(), t.mem),
        forall|i: int| 0 <= i < t.mem.len() ==> #[trigger] mem_block_valid::<O>(t, i),
    ensures
        store_valid::<O>(t),
        log_atoms::<O>(log_of::<O>(t)) == log_atoms::<O>(log_of::<O>(s)).union_prefer_right(atoms_of::<O>(c)),
{
    lemma_log_grown::<O>(log_of::<O>(s), known::<O>(s), bid, log_of::<O>(t)[bid], c);
    lemma_change_nonempty::<O>(c);
    lemma_known_advanced::<O>(s, t, c);
}

/// Adding a change as a block of its own.
pub proof fn lemma_block_added<O: StorageFormat>(s: StoreView<O::V>, c: ChangeView<O::V>)
    requires
        store_valid::<O>(s),
        change_valid::<O>(c),
        comes_next(known::<O>(s), c.id),
    ensures
        store_valid::<O>(mem_put(vv_advanced::<O>(s, c), c.id, single_block::<O>(c))),
        log_grown::<O>(s, mem_put(vv_advanced::<O>(s, c), c.id, single_block::<O>(c)), c.id, c),
        log_of::<O>(mem_put(vv_advanced::<O>(s, c), c.id, single_block::<O>(c)))[c.id] == seq![c],
        mem_put(vv_advanced::<O>(s, c), c.id, single_block::<O>(c)).mem == s.mem.insert(
            place(s.mem, c.id),
            (c.id, single_block::<O>(c)),
        ),
{
    let b = single_block::<O>(c);
    let p = place(s.mem, c.id);
    let t = mem_put(vv_advanced::<O>(s, c), c.id, b);
    lemma_id_order();
    lemma_has_place(s.mem, c.id);
    lemma_found_at(id_order(), s.mem, p, c.id);
    lemma_put_at(id_order(), s.mem, p, c.id, b);
    lemma_not_in_log::<O>(s, c);
    lemma_single_block::<O>(c);
    lemma_change_nonempty::<O>(c);
    let (l, m) = (log_of::<O>(t), log_of::<O>(s).insert(c.id, seq![c]));
    assert(l =~= m);
    assert(change_follows::<O>(seq![c], 0));
    assert forall|i: int| 0 <= i < t.mem.len() implies #[trigger] mem_block_valid::<O>(t, i) by {
        if i != p {
            let i0 = if i < p {
                i
            } else {
                i - 1
            };
            assert(t.mem[i] == s.mem[i0]);
            assert(mem_block_valid::<O>(s, i0));
        }
    }
    lemma_store_grown::<O>(s, t, c.id, c);
}

/// Adding a change to a block in memory that takes it.
pub proof fn lemma_block_extended<O: StorageFormat>(s: StoreView<O::V>, j: int, c: ChangeView<O::V>, size: usize)
    requires
        store_valid::<O>(s),
        change_valid::<O>(c),
        comes_next(known::<O>(s), c.id),
        0 <= j < s.mem.len(),
        s.mem[j].1.peer == c.id.peer,
        joins_last::<O>(s.mem[j].1, c, size, s.merge_interval) ==> changes_lamport_end::<O>(
            block_changes::<O>(s.mem[j].1),
        ) + change_len::<O>(c) <= u32::MAX,
        block_takes::<O>(s.mem[j].1, c, size, s.merge_interval),
    ensures
        ({
            let p = block_pushed::<O>(s.mem[j].1, c, size, s.merge_interval);
            let t = StoreView {
                mem: s.mem.update(j, (s.mem[j].0, p)),
                ..vv_advanced::<O>(s, c)
            };
            &&& store_valid::<O>(t)
            &&& log_grown::<O>(s, t, s.mem[j].0, c)
            &&& log_of::<O>(t)[s.mem[j].0] == block_changes::<O>(p)
        }),
{
    let (bid, b) = s.mem[j];
    let p = block_pushed::<O>(b, c, size, s.merge_interval);
    let t = StoreView { mem: s.mem.update(j, (bid, p)), ..vv_advanced::<O>(s, c) };
    lemma_mem_entry::<O>(s, j);
    lemma_block_pushed::<O>(b, c, size, s.merge_interval);
    lemma_id_order();
    lemma_put_at(id_order(), s.mem, j, bid, p);
    lemma_change_nonempty::<O>(c);
    let (l, m) = (log_of::<O>(t), log_of::<O>(s).insert(bid, block_changes::<O>(p)));
    assert(l =~= m);
    assert forall|i: int| 0 <= i < t.mem.len() implies #[trigger] mem_block_valid::<O>(t, i) by {
        assert(mem_block_valid::<O>(s, i));
    }
    lemma_store_grown::<O>(s, t, bid, c);
}

/// The block in memory that `insert_one` puts `c` in.
pub open spec fn insert_target<O: StorageFormat>(s: StoreView<O::V>, c: ChangeView<O::V>) -> ID {
    let i = place(s.mem, c.id);
    if i > 0 && s.mem[i - 1].1.peer == c.id.peer && block_takes::<O>(
        s.mem[i - 1].1,
        c,
        O::change_size(c),
        s.merge_interval,
    ) {
        s.mem[i - 1].0
    } else {
        c.id
    }
}

/// The store in which the block before `c` was made ready to take it, and did not.
pub open spec fn refused<O: StorageFormat>(s: StoreView<O::V>, i: int) -> StoreView<O::V> {
    let (bid, b) = s.mem[i];
    StoreView {
        mem: s.mem.update(i, (bid, BlockView { content: ContentView::Changes(block_changes::<O>(b)), ..b })),
        ..s
    }
}

/// Making a block ready to take a change keeps the store valid and its log the same.
pub proof fn lemma_refused<O: StorageFormat>(s: StoreView<O::V>, i: int)
    requires
        store_valid::<O>(s),
        0 <= i < s.mem.len(),
    ensures
        store_valid::<O>(refused::<O>(s, i)),
        log_of::<O>(refused::<O>(s, i)) == log_of::<O>(s),
        forall|id: ID| place(refused::<O>(s, i).mem, id) == #[trigger] place(s.mem, id),
{
    let t = refused::<O>(s, i);
    let (bid, b) = s.mem[i];
    lemma_mem_entry::<O>(s, i);
    lemma_mem_put::<O>(s, bid, BlockView { content: ContentView::Changes(block_changes::<O>(b)), ..b });
    assert(mem_put(s, bid, t.mem[i].1) =~= t);
    assert forall|id: ID| place(t.mem, id) == #[trigger] place(s.mem, id) by {
        lemma_has_place(s.mem, id);
        let p = place(s.mem, id);
        assert forall|j: int| 0 <= j < p implies id_order()((#[trigger] t.mem[j]).0, id) by {
            assert(id_order()(s.mem[j].0, id));
        }
        assert forall|j: int| p <= j < t.mem.len() implies (#[trigger] t.mem[j]).0 == id || id_order()(
            id,
            t.mem[j].0,
        ) by {
            assert(s.mem[j].0 == id || id_order()(id, s.mem[j].0));
        }
        lemma_place(t.mem, p, id);
    }
}

/// What inserting a change comes to.
pub proof fn lemma_insert_one_step<O: StorageFormat>(s: StoreView<O::V>, c: ChangeView<O::V>)
    requires
        store_valid::<O>(s),
        change_valid::<O>(c),
        accepts_one::<O>(s, c),
    ensures
        ({
            let i = place(s.mem, c.id);
            let t = insert_one::<O>(s, c);
            let b = s.mem[i - 1].1;
            let size = O::change_size(c);
            let takes = i > 0 && b.peer == c.id.peer && block_takes::<O>(b, c, size, s.merge_interval);
            let p = block_pushed::<O>(b, c, size, s.merge_interval);
            &&& is_place(id_order(), s.mem, i, c.id)
            &&& store_valid::<O>(t)
            &&& log_grown::<O>(s, t, insert_target::<O>(s, c), c)
            &&& takes ==> t.mem == s.mem.update(i - 1, (s.mem[i - 1].0, p)) && log_of::<O>(t)[s.mem[i - 1].0]
                == block_changes::<O>(p)
            &&& !takes ==> log_of::<O>(t)[c.id] == seq![c] && t.mem.len() == s.mem.len() + 1 && t.mem[i] == (
                c.id,
                single_block::<O>(c),
            )
            &&& !takes ==> forall|k: int|
                0 <= k < t.mem.len() && k != i ==> (#[trigger] t.mem[k]).0 == s.mem[if k < i {
                    k
                } else {
                    k - 1
                }].0 && block_changes::<O>(t.mem[k].1) == block_changes::<O>(s.mem[if k < i {
                    k
                } else {
                    k - 1
                }].1) && t.mem[k].1.lamport_range == s.mem[if k < i {
                    k
                } else {
                    k - 1
                }].1.lamport_range
        }),
{
    let i = place(s.mem, c.id);
    let size = O::change_size(c);
    lemma_has_place(s.mem, c.id);
    if i > 0 && s.mem[i - 1].1.peer == c.id.peer {
        if block_takes::<O>(s.mem[i - 1].1, c, size, s.merge_interval) {
            lemma_block_extended::<O>(s, i - 1, c, size);
        } else {
            let r = refused::<O>(s, i - 1);
            lemma_refused::<O>(s, i - 1);
            assert(place(r.mem, c.id) == place(s.mem, c.id));
            lemma_block_added::<O>(r, c);
            assert(insert_one::<O>(s, c) =~= mem_put(vv_advanced::<O>(r, c), c.id, single_block::<O>(c)));
        }
    } else {
        lemma_block_added::<O>(s, c);
    }
}

/// Inserting a change that comes next keeps the store valid, adds the atoms of the change
/// to its log and changes nothing else in it.
pub proof fn lemma_insert_one<O: StorageFormat>(s: StoreView<O::V>, c: ChangeView<O::V>)
    requires
        store_valid::<O>(s),
        change_valid::<O>(c),
        accepts_one::<O>(s, c),
    ensures
        store_valid::<O>(insert_one::<O>(s, c)),
        log_atoms::<O>(log_of::<O>(insert_one::<O>(s, c))) == log_atoms::<O>(
            log_of::<O>(s),
        ).union_prefer_right(atoms_of::<O>(c)),
        insert_one::<O>(s, c).vv == s.vv.insert(c.id.peer, change_end::<O>(c) as Counter),
        insert_one::<O>(s, c).kv == s.kv,
{
    lemma_insert_one_step::<O>(s, c);
    lemma_store_grown::<O>(s, insert_one::<O>(s, c), insert_target::<O>(s, c), c);
}

/// After a change was inserted, what is right after it comes next, and the Lamport clocks of
/// the block that holds the change are those of the change, or go on from those before it.
pub proof fn lemma_insert_one_next<O: StorageFormat>(s: StoreView<O::V>, c: ChangeView<O::V>)
    requires
        store_valid::<O>(s),
        change_valid::<O>(c),
        accepts_one::<O>(s, c),
    ensures
        ({
            let t = insert_one::<O>(s, c);
            let next = ID { peer: c.id.peer, counter: change_end::<O>(c) as Counter };
            let i = place(s.mem, c.id);
            let b = s.mem[i - 1].1;
            let joins = i > 0 && b.peer == c.id.peer && joins_last::<O>(b, c, O::change_size(c), s.merge_interval);
            let j = place(t.mem, next);
            &&& comes_after::<O>(t, next)
            &&& j > 0
            &&& t.mem[j - 1].0 == insert_target::<O>(s, c)
            &&& changes_lamport_end::<O>(block_changes::<O>(t.mem[j - 1].1)) == (if joins {
                changes_lamport_end::<O>(block_changes::<O>(b)) + change_len::<O>(c)
            } else {
                change_lamport_end::<O>(c)
            })
        }),
{
    lemma_insert_one_step::<O>(s, c);
    lemma_change_nonempty::<O>(c);
    lemma_not_in_log::<O>(s, c);
    let t = insert_one::<O>(s, c);
    let next = ID { peer: c.id.peer, counter: change_end::<O>(c) as Counter };
    let i = place(s.mem, c.id);
    let size = O::change_size(c);
    assert forall|k: int| 0 <= k < s.mem.len() implies (#[trigger] s.mem[k]).0 != c.id && (s.mem[k].0.peer
        == c.id.peer ==> s.mem[k].0.counter < c.id.counter) by {
        lemma_mem_entry::<O>(s, k);
    }
    if i > 0 && s.mem[i - 1].1.peer == c.id.peer && block_takes::<O>(s.mem[i - 1].1, c, size, s.merge_interval) {
        assert(mem_block_valid::<O>(s, i - 1));
        assert forall|k: int| 0 <= k < i implies id_order()((#[trigger] t.mem[k]).0, next) by {
            assert(id_order()(s.mem[k].0, c.id));
        }
        assert forall|k: int| i <= k < t.mem.len() implies (#[trigger] t.mem[k]).0 == next || id_order()(
            next,
            t.mem[k].0,
        ) by {
            assert(s.mem[k].0 == c.id || id_order()(c.id, s.mem[k].0));
        }
        lemma_place(t.mem, i, next);
        lemma_block_pushed::<O>(s.mem[i - 1].1, c, size, s.merge_interval);
        lemma_known_advanced::<O>(s, t, c);
    } else {
        assert forall|k: int| 0 <= k < i + 1 implies id_order()((#[trigger] t.mem[k]).0, next) by {
            if k < i {
                assert(id_order()(s.mem[k].0, c.id));
            }
        }
        assert forall|k: int| i + 1 <= k < t.mem.len() implies (#[trigger] t.mem[k]).0 == next || id_order()(
            next,
            t.mem[k].0,
        ) by {
            assert(s.mem[k - 1].0 == c.id || id_order()(c.id, s.mem[k - 1].0));
        }
        lemma_place(t.mem, i + 1, next);
        lemma_known_advanced::<O>(s, t, c);
    }
}

/// Where the Lamport clocks of each peer grow, they still do when a change is inserted
/// whose clocks come after, and a change whose clocks come after those of `c` comes after again.
pub proof fn lemma_insert_one_lamports<O: StorageFormat>(s: StoreView<O::V>, c: ChangeView<O::V>)
    requires
        store_valid::<O>(s),
        change_valid::<O>(c),
        accepts_one::<O>(s, c),
        log_lamports_valid::<O>(log_of::<O>(s)),
        log_lamports_follow::<O>(log_of::<O>(s), c),
    ensures
        log_lamports_valid::<O>(log_of::<O>(insert_one::<O>(s, c))),
        forall|x: ChangeView<O::V>|
            (x.id.peer == c.id.peer && x.lamport >= change_lamport_end::<O>(c)) || (x.id.peer != c.id.peer
                && log_lamports_follow::<O>(log_of::<O>(s), x)) ==> #[trigger] log_lamports_follow::<O>(
                log_of::<O>(insert_one::<O>(s, c)),
                x,
            ),
{
    lemma_insert_one_step::<O>(s, c);
    let t = insert_one::<O>(s, c);
    let (l, m) = (log_of::<O>(s), log_of::<O>(t));
    let bid = insert_target::<O>(s, c);
    let i = place(s.mem, c.id);
    let size = O::change_size(c);
    let b = s.mem[i - 1].1;
    lemma_change_nonempty::<O>(c);
    lemma_not_in_log::<O>(s, c);
    if i > 0 && b.peer == c.id.peer && block_takes::<O>(b, c, size, s.merge_interval) {
        lemma_mem_entry::<O>(s, i - 1);
        assert(l.contains_key(s.mem[i - 1].0));
        lemma_block_pushed::<O>(b, c, size, s.merge_interval);
        assert(block_changes::<O>(block_pushed::<O>(b, c, size, s.merge_interval))[0].lamport == block_changes::<O>(
            b,
        )[0].lamport);
    } else {
        lemma_single_block::<O>(c);
    }
    lemma_log_lamports_grown::<O>(l, known::<O>(s), bid, m[bid], c);
    assert forall|x: ChangeView<O::V>|
        (x.id.peer == c.id.peer && x.lamport >= change_lamport_end::<O>(c)) || (x.id.peer != c.id.peer
            && log_lamports_follow::<O>(l, x)) implies #[trigger] log_lamports_follow::<O>(m, x) by {
        assert forall|a: ID| #[trigger] m.contains_key(a) && a.peer == x.id.peer implies changes_lamport_end::<O>(
            m[a],
        ) <= x.lamport by {
            if a != bid {
                assert(l.contains_key(a));
                assert(log_block_valid::<O>(l, known::<O>(s), a));
            }
        }
    }
}

/// The store after `c` was inserted, cut into pieces where it is too large for a block
/// and that is asked for.
pub open spec fn inserted<O: StorageFormat>(
    s: StoreView<O::V>,
    c: ChangeView<O::V>,
    split_when_exceeds: bool,
) -> StoreView<O::V> {
    if is_split::<O>(c, split_when_exceeds) {
        insert_all::<O>(s, split_pieces::<O>(c))
    } else {
        insert_one::<O>(s, c)
    }
}

/// `s` is what the store holds, which held `s0`, when the first `n` atoms of `c` have been
/// cut, and the pieces that were cut off have been inserted.
pub open spec fn splitting<O: StorageFormat>(
    s0: StoreView<O::V>,
    s: StoreView<O::V>,
    st: SplitView<O::V>,
    c: ChangeView<O::V>,
    n: int,
) -> bool {
    &&& change_valid::<O>(c)
    &&& split_valid::<O>(st, c, n)
    &&& s == insert_all::<O>(s0, st.pieces)
    &&& store_valid::<O>(s)
    &&& comes_after::<O>(s, st.cur.id)
    &&& has_lamport_room::<O>(s, st.cur, (change_len::<O>(c) - changes_atoms::<O>(st.pieces).len()) as nat)
}

/// Cutting starts with nothing inserted.
pub proof fn lemma_splitting_start<O: StorageFormat>(s: StoreView<O::V>, c: ChangeView<O::V>)
    requires
        store_valid::<O>(s),
        change_valid::<O>(c),
        comes_after::<O>(s, c.id),
        has_lamport_room::<O>(s, c, change_len::<O>(c)),
    ensures
        splitting::<O>(s, s, split_start::<O>(c), c, 0),
{
    lemma_split_start::<O>(c);
    assert(changes_atoms::<O>(split_start::<O>(c).pieces) =~= seq![]);
}

/// The piece that is being filled can be inserted, and cutting goes on after it.
pub proof fn lemma_splitting_off<O: StorageFormat>(
    s0: StoreView<O::V>,
    s: StoreView<O::V>,
    st: SplitView<O::V>,
    c: ChangeView<O::V>,
    n: int,
)
    requires
        splitting::<O>(s0, s, st, c, n),
        st.cur.ops.len() > 0,
    ensures
        change_valid::<O>(st.cur),
        accepts_one::<O>(s, st.cur),
        splitting::<O>(s0, insert_one::<O>(s, st.cur), split_off::<O>(st), c, n),
{
    lemma_split_cur::<O>(st, c, n);
    lemma_split_off::<O>(st, c, n);
    let r = split_off::<O>(st);
    assert(r.pieces.drop_last() =~= st.pieces);
    assert(change_atoms::<O>(c).take(n).len() == n);
    lemma_insert_one_next::<O>(s, st.cur);
    lemma_insert_one::<O>(s, st.cur);
    assert(changes_atoms::<O>(r.pieces) == changes_atoms::<O>(st.pieces) + change_atoms::<O>(st.cur));
}

/// The store that holds nothing.
pub open spec fn empty_store<V>(merge_interval: i64) -> StoreView<V> {
    StoreView {
        mem: seq![],
        kv: Map::empty(),
        vv: Map::empty(),
        start_vv: Map::empty(),
        start_frontiers: seq![],
        merge_interval,
    }
}

/// The store that holds nothing is valid, and its log is empty.
pub proof fn lemma_empty_store<O: StorageFormat>(merge_interval: i64)
    ensures
        store_valid::<O>(empty_store::<O::V>(merge_interval)),
        log_lamports_valid::<O>(log_of::<O>(empty_store::<O::V>(merge_interval))),
        log_of::<O>(empty_store::<O::V>(merge_interval)) == Map::<ID, Seq<ChangeView<O::V>>>::empty(),
{
    let s = empty_store::<O::V>(merge_interval);
    assert(log_of::<O>(s) =~= Map::<ID, Seq<ChangeView<O::V>>>::empty());
    assert(log_valid::<O>(log_of::<O>(s), known::<O>(s)));
}

} // verus!
