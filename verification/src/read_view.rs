//! How blocks are read: what the operations that look for a change find, and what they
//! leave in memory.
use crate::block::{
    block_changes, block_parsed, block_stored, block_valid, content_len, last_at_or_before, stored_block, BlockView,
    ContentView,
};
use crate::block_map::{id_order, lemma_id_order, place};
use crate::change::{
    change_covers, change_follows, change_lamport_end, changes_end, changes_lamport_end, changes_valid,
    lamports_ordered, lemma_change_nonempty, lemma_changes_order, ChangeView,
};
use crate::format::{header_of_changes, StorageFormat};
use crate::ids::{id_bytes, key_before, lemma_id_bytes_order, Counter, IdLp, IdSpan, Lamport, PeerID, ID};
use crate::kv_store::KeyBound;
use crate::log::{
    block_end, concat_changes, covering, covers, lemma_covers_unique, lemma_log_changes, log_block_valid, log_changes,
    log_has, log_lamports_valid, log_valid, Log,
};
use crate::op::Operation;
use crate::sorted::{found_at, has_key, key_index, keys_grow, lemma_listing_unique, lemma_map_of, map_of};
use crate::store_view::{
    kv_block_valid, kv_changes, lemma_mem_entry, lemma_mem_put, lemma_mem_recast, log_of, log_vv, mem_block_valid,
    mem_put, store_readable, store_valid, StoreView,
};
use vstd::prelude::*;

verus! {

/// The block `bid` as it is in memory or, where it is not, as it is read from the
/// key-value store.
pub open spec fn cached<O: StorageFormat>(s: StoreView<O::V>, bid: ID) -> BlockView<O::V> {
    if map_of(s.mem).contains_key(bid) {
        map_of(s.mem)[bid]
    } else {
        stored_block::<O>(s.kv[id_bytes(bid)], true)
    }
}

/// The block `bid` with its changes in memory.
pub open spec fn read_of<O: StorageFormat>(s: StoreView<O::V>, bid: ID) -> BlockView<O::V> {
    block_parsed::<O>(cached::<O>(s, bid))
}

/// The store with the block `bid`, and its changes, in memory.
pub open spec fn read_block<O: StorageFormat>(s: StoreView<O::V>, bid: ID) -> StoreView<O::V> {
    mem_put(s, bid, read_of::<O>(s, bid))
}

/// What is read from the key-value store is the block that is stored there.
pub proof fn lemma_stored_block<O: StorageFormat>(kv: Map<Seq<u8>, Seq<u8>>, bid: ID, flushed: bool)
    requires
        kv_block_valid::<O>(kv, bid),
    ensures
        ({
            let b = stored_block::<O>(kv[id_bytes(bid)], flushed);
            &&& O::header_of(kv[id_bytes(bid)]) matches Some(h) && h.has_ranges()
            &&& block_valid::<O>(b)
            &&& block_changes::<O>(b) == kv_changes::<O>(kv, bid)
            &&& bid == (ID { peer: b.peer, counter: b.counter_range.0 })
        }),
{
    let bytes = kv[id_bytes(bid)];
    let c = kv_changes::<O>(kv, bid);
    O::lemma_header(bytes, c);
    let h = header_of_changes::<O>(c);
    assert(change_follows::<O>(c, c.len() - 1));
    assert(change_follows::<O>(c, 0));
    assert(h.counters.last() == changes_end::<O>(c));
    assert(h.lamports.last() == changes_lamport_end::<O>(c));
    assert(h.lamports[0] == c[0].lamport);
}

/// Reading the changes of a block into memory keeps it valid.
pub proof fn lemma_block_parsed<O: StorageFormat>(b: BlockView<O::V>)
    requires
        block_valid::<O>(b),
    ensures
        block_valid::<O>(block_parsed::<O>(b)),
        block_changes::<O>(block_parsed::<O>(b)) == block_changes::<O>(b),
        block_parsed::<O>(b).content !is Bytes,
        block_stored(block_parsed::<O>(b)) == block_stored(b),
        b.content matches ContentView::Bytes(x) ==> O::header_of(x.bytes) is Some,
{
    if let ContentView::Bytes(x) = b.content {
        O::lemma_header(x.bytes, block_changes::<O>(b));
    }
}

/// A block of the log can be read, and reading it into memory keeps the store valid and
/// its log the same.
pub proof fn lemma_read_block<O: StorageFormat>(s: StoreView<O::V>, bid: ID)
    requires
        store_readable::<O>(s),
        log_of::<O>(s).contains_key(bid),
    ensures
        store_readable::<O>(read_block::<O>(s, bid)),
        store_valid::<O>(s) ==> store_valid::<O>(read_block::<O>(s, bid)),
        log_of::<O>(read_block::<O>(s, bid)) == log_of::<O>(s),
        map_of(read_block::<O>(s, bid).mem) == map_of(s.mem).insert(bid, read_of::<O>(s, bid)),
        block_valid::<O>(cached::<O>(s, bid)),
        block_valid::<O>(read_of::<O>(s, bid)),
        read_of::<O>(s, bid).content !is Bytes,
        block_changes::<O>(read_of::<O>(s, bid)) == log_of::<O>(s)[bid],
        bid == (ID { peer: cached::<O>(s, bid).peer, counter: cached::<O>(s, bid).counter_range.0 }),
        cached::<O>(s, bid).counter_range.1 == block_end::<O>(log_of::<O>(s), bid),
{
    lemma_id_order();
    if map_of(s.mem).contains_key(bid) {
        let i = key_index(s.mem, bid);
        assert(s.mem[i].0 == bid);
        lemma_mem_entry::<O>(s, i);
    } else {
        assert(kv_block_valid::<O>(s.kv, bid));
        lemma_stored_block::<O>(s.kv, bid, true);
    }
    lemma_block_parsed::<O>(cached::<O>(s, bid));
    lemma_mem_put::<O>(s, bid, read_of::<O>(s, bid));
}

/// In a history, every counter from its start to its end is in a change.
pub proof fn lemma_change_covers<O: Operation>(s: Seq<ChangeView<O::V>>, counter: int) -> (i: int)
    requires
        changes_valid::<O>(s),
        s[0].id.counter <= counter < changes_end::<O>(s),
    ensures
        0 <= i < s.len(),
        change_covers::<O>(s[i], counter),
    decreases s.len(),
{
    let n = s.len() - 1;
    assert(change_follows::<O>(s, n));
    if s[n].id.counter <= counter {
        n
    } else {
        let t = s.drop_last();
        assert forall|j: int| 0 <= j < t.len() implies #[trigger] change_follows::<O>(t, j) by {
            assert(change_follows::<O>(s, j));
        }
        lemma_change_covers::<O>(t, counter)
    }
}

/// The block in memory at or before `id` holds the atom `id`, or no block in memory does.
pub proof fn lemma_mem_covers<O: StorageFormat>(s: StoreView<O::V>, j: int, id: ID)
    requires
        store_readable::<O>(s),
        0 <= j < s.mem.len(),
        !id.before(s.mem[j].0),
        j + 1 < s.mem.len() ==> id.before(s.mem[j + 1].0),
    ensures
        s.mem[j].1.peer == id.peer && s.mem[j].1.counter_range.1 > id.counter ==> log_has::<O>(log_of::<O>(s), id)
            && covering::<O>(log_of::<O>(s), id) == s.mem[j].0,
        !(s.mem[j].1.peer == id.peer && s.mem[j].1.counter_range.1 > id.counter) ==> forall|bid: ID| #[trigger]
            covers::<O>(log_of::<O>(s), bid, id) ==> !map_of(s.mem).contains_key(bid),
{
    let log = log_of::<O>(s);
    lemma_mem_entry::<O>(s, j);
    if s.mem[j].1.peer == id.peer && s.mem[j].1.counter_range.1 > id.counter {
        assert(covers::<O>(log, s.mem[j].0, id));
        lemma_covers_unique::<O>(log, log_vv::<O>(log_of::<O>(s)), s.mem[j].0, id);
    } else {
        assert forall|bid: ID| #[trigger] covers::<O>(log, bid, id) implies !map_of(s.mem).contains_key(bid) by {
            if map_of(s.mem).contains_key(bid) {
                let k = key_index(s.mem, bid);
                assert(s.mem[k].0 == bid);
                lemma_mem_entry::<O>(s, k);
                if k < j {
                    assert(id_order()(s.mem[k].0, s.mem[j].0));
                    assert(log.contains_key(bid) && log.contains_key(s.mem[j].0));
                } else if k > j {
                    if k > j + 1 {
                        assert(id_order()(s.mem[j + 1].0, s.mem[k].0));
                    }
                }
            }
        }
    }
}

/// The stored block at or before `id` is the one that holds the atom `id`, if no block in
/// memory does.
pub proof fn lemma_kv_covers<O: StorageFormat>(s: StoreView<O::V>, bid: ID, id: ID)
    requires
        store_readable::<O>(s),
        forall|b: ID| #[trigger] covers::<O>(log_of::<O>(s), b, id) ==> !map_of(s.mem).contains_key(b),
        s.kv.contains_key(id_bytes(bid)),
        !key_before(id_bytes(id), id_bytes(bid)),
        forall|b: ID|
            s.kv.contains_key(#[trigger] id_bytes(b)) && !key_before(id_bytes(id), id_bytes(b)) ==> !key_before(
                id_bytes(bid),
                id_bytes(b),
            ),
    ensures
        bid.peer == id.peer && bid.counter <= id.counter && changes_end::<O>(kv_changes::<O>(s.kv, bid)) > id.counter
            ==> log_has::<O>(log_of::<O>(s), id) && covering::<O>(log_of::<O>(s), id) == bid && !map_of(
            s.mem,
        ).contains_key(bid),
        !(bid.peer == id.peer && bid.counter <= id.counter && changes_end::<O>(kv_changes::<O>(s.kv, bid))
            > id.counter) ==> !log_has::<O>(log_of::<O>(s), id),
{
    let log = log_of::<O>(s);
    assert(kv_block_valid::<O>(s.kv, bid));
    assert(change_follows::<O>(kv_changes::<O>(s.kv, bid), 0));
    if bid.peer == id.peer && bid.counter <= id.counter && changes_end::<O>(kv_changes::<O>(s.kv, bid)) > id.counter {
        if map_of(s.mem).contains_key(bid) {
            let k = key_index(s.mem, bid);
            assert(s.mem[k].0 == bid);
            lemma_mem_entry::<O>(s, k);
            assert(covers::<O>(log, bid, id));
        }
        assert(covers::<O>(log, bid, id));
        lemma_covers_unique::<O>(log, log_vv::<O>(log_of::<O>(s)), bid, id);
    } else if log_has::<O>(log, id) {
        let b = covering::<O>(log, id);
        assert(covers::<O>(log, b, id));
        assert(s.kv.contains_key(id_bytes(b)));
        assert(kv_block_valid::<O>(s.kv, b));
        assert(change_follows::<O>(kv_changes::<O>(s.kv, b), 0));
        lemma_id_bytes_order(id, b);
        lemma_id_bytes_order(bid, b);
        lemma_id_bytes_order(id, bid);
        assert(log.contains_key(bid) && log.contains_key(b));
    }
}

/// The log has a change `i` in block `bid`, which is of the given peer.
pub open spec fn has_change<V>(log: Log<V>, peer: PeerID, bid: ID, i: int) -> bool {
    log.contains_key(bid) && bid.peer == peer && 0 <= i < log[bid].len()
}

/// Of the changes of a peer whose Lamport clock is at most the given one, change `i` of
/// block `bid` has the greatest Lamport clock.
pub open spec fn is_latest_by<V>(log: Log<V>, idlp: IdLp, bid: ID, i: int) -> bool {
    &&& has_change(log, idlp.peer, bid, i)
    &&& log[bid][i].lamport <= idlp.lamport
    &&& forall|b: ID, j: int| #[trigger]
        has_change(log, idlp.peer, b, j) && log[b][j].lamport <= idlp.lamport ==> log[b][j].lamport
            <= log[bid][i].lamport
}

/// The Lamport clock of each change of a peer is greater than the given one.
pub open spec fn none_by<V>(log: Log<V>, idlp: IdLp) -> bool {
    forall|b: ID, j: int| #[trigger] has_change(log, idlp.peer, b, j) ==> log[b][j].lamport > idlp.lamport
}

/// The blocks of a peer after the given counter start with a greater Lamport clock.
pub open spec fn later_after<V>(log: Log<V>, idlp: IdLp, counter: int) -> bool {
    forall|b: ID| #[trigger]
        log.contains_key(b) && b.peer == idlp.peer && b.counter > counter ==> log[b][0].lamport > idlp.lamport
}

/// In a history whose Lamport clocks grow, no change has one before that of the first.
proof fn lemma_first_lamport<O: Operation>(s: Seq<ChangeView<O::V>>, i: int)
    requires
        changes_valid::<O>(s),
        lamports_ordered::<O>(s),
        0 <= i < s.len(),
    ensures
        s[0].lamport <= s[i].lamport,
        s[i].lamport < changes_lamport_end::<O>(s),
{
    let n = s.len() - 1;
    assert(change_follows::<O>(s, n));
    lemma_change_nonempty::<O>(s[n]);
    assert(change_follows::<O>(s, i));
    lemma_change_nonempty::<O>(s[i]);
    if 0 < i {
        assert(change_lamport_end::<O>(s[0]) <= s[i].lamport);
    }
    if i < n {
        assert(change_lamport_end::<O>(s[i]) <= s[n].lamport);
    }
}

/// The last change that is early enough in the last block that starts early enough is the
/// latest one.
pub proof fn lemma_latest<O: Operation>(
    log: Log<O::V>,
    vv: Map<PeerID, Counter>,
    idlp: IdLp,
    bid: ID,
    i: usize,
)
    requires
        log_valid::<O>(log, vv),
        log_lamports_valid::<O>(log),
        log.contains_key(bid),
        bid.peer == idlp.peer,
        later_after(log, idlp, bid.counter as int),
        last_at_or_before::<O>(log[bid], idlp.lamport, Some(i)),
    ensures
        is_latest_by(log, idlp, bid, i as int),
{
    assert(log_block_valid::<O>(log, vv, bid));
    assert forall|b: ID, j: int| #[trigger]
        has_change(log, idlp.peer, b, j) && log[b][j].lamport <= idlp.lamport implies log[b][j].lamport
        <= log[bid][i as int].lamport by {
        assert(log_block_valid::<O>(log, vv, b));
        lemma_first_lamport::<O>(log[b], j);
        lemma_first_lamport::<O>(log[bid], i as int);
        if b == bid {
            if j < i {
                assert(change_lamport_end::<O>(log[bid][j]) <= log[bid][i as int].lamport);
            }
        }
    }
}

/// Where every block of a peer starts too late, every change is too late.
pub proof fn lemma_none_by<O: Operation>(log: Log<O::V>, vv: Map<PeerID, Counter>, idlp: IdLp)
    requires
        log_valid::<O>(log, vv),
        log_lamports_valid::<O>(log),
        later_after(log, idlp, -1),
    ensures
        none_by(log, idlp),
{
    assert forall|b: ID, j: int| #[trigger] has_change(log, idlp.peer, b, j) implies log[b][j].lamport
        > idlp.lamport by {
        assert(log_block_valid::<O>(log, vv, b));
        assert(change_follows::<O>(log[b], 0));
        lemma_first_lamport::<O>(log[b], j);
    }
}

/// The blocks in memory, and the stored ones under the keys that are asked for.
pub open spec fn loaded_map<O: StorageFormat>(
    s: StoreView<O::V>,
    wanted: spec_fn(Seq<u8>) -> bool,
) -> Map<ID, BlockView<O::V>> {
    Map::new(
        |id: ID| map_of(s.mem).contains_key(id) || (s.kv.contains_key(id_bytes(id)) && wanted(id_bytes(id))),
        |id: ID| cached::<O>(s, id),
    )
}

/// `t` is the store `s` after the stored blocks under the keys that are asked for were read
/// into memory, where they were not there.
pub open spec fn loaded<O: StorageFormat>(
    s: StoreView<O::V>,
    t: StoreView<O::V>,
    wanted: spec_fn(Seq<u8>) -> bool,
) -> bool {
    &&& t == (StoreView { mem: t.mem, ..s })
    &&& keys_grow(id_order(), t.mem)
    &&& map_of(t.mem) == loaded_map::<O>(s, wanted)
}

/// The keys between two bounds.
pub open spec fn between(start: KeyBound, end: KeyBound) -> spec_fn(Seq<u8>) -> bool {
    |k: Seq<u8>| start.admits_from(k) && end.admits_to(k)
}

/// All keys.
pub open spec fn any_key() -> spec_fn(Seq<u8>) -> bool {
    |k: Seq<u8>| true
}

/// Reading stored blocks into memory keeps the store valid and its log the same.
pub proof fn lemma_loaded<O: StorageFormat>(s: StoreView<O::V>, t: StoreView<O::V>, wanted: spec_fn(Seq<u8>) -> bool)
    requires
        store_readable::<O>(s),
        loaded::<O>(s, t, wanted),
    ensures
        store_readable::<O>(t),
        store_valid::<O>(s) ==> store_valid::<O>(t),
        log_of::<O>(t) == log_of::<O>(s),
{
    lemma_id_order();
    assert forall|i: int| 0 <= i < t.mem.len() implies #[trigger] mem_block_valid::<O>(t, i) && log_of::<O>(
        s,
    ).contains_key(t.mem[i].0) && block_changes::<O>(t.mem[i].1) == log_of::<O>(s)[t.mem[i].0] by {
        let bid = t.mem[i].0;
        lemma_map_of(id_order(), t.mem, i);
        if map_of(s.mem).contains_key(bid) {
            let k = key_index(s.mem, bid);
            assert(s.mem[k].0 == bid);
            lemma_mem_entry::<O>(s, k);
        } else {
            assert(kv_block_valid::<O>(s.kv, bid));
            lemma_stored_block::<O>(s.kv, bid, true);
            assert(log_of::<O>(s).contains_key(bid));
        }
    }
    assert forall|i: int| 0 <= i < t.mem.len() implies log_of::<O>(s).contains_key((#[trigger] t.mem[i]).0)
        && block_changes::<O>(t.mem[i].1) == log_of::<O>(s)[t.mem[i].0] by {
        assert(mem_block_valid::<O>(t, i));
    }
    lemma_mem_recast::<O>(s, t);
}

/// The blocks in memory, each with its changes.
pub open spec fn mem_listing<O: StorageFormat>(mem: Seq<(ID, BlockView<O::V>)>) -> Seq<(ID, Seq<ChangeView<O::V>>)> {
    mem.map_values(|e: (ID, BlockView<O::V>)| (e.0, block_changes::<O>(e.1)))
}

/// Where every stored block is in memory, the blocks in memory are the log.
pub proof fn lemma_mem_listing<O: StorageFormat>(s: StoreView<O::V>)
    requires
        store_readable::<O>(s),
        forall|id: ID| s.kv.contains_key(#[trigger] id_bytes(id)) ==> map_of(s.mem).contains_key(id),
    ensures
        log_changes(log_of::<O>(s)) == concat_changes(mem_listing::<O>(s.mem)),
{
    lemma_id_order();
    let xs = mem_listing::<O>(s.mem);
    let log = log_of::<O>(s);
    assert forall|i: int, j: int| 0 <= i < j < xs.len() implies id_order()(
        (#[trigger] xs[i]).0,
        (#[trigger] xs[j]).0,
    ) by {
        assert(id_order()(s.mem[i].0, s.mem[j].0));
    }
    assert forall|id: ID|
        #![trigger log.dom().contains(id)]
        #![trigger log[id]]
        log.dom().contains(id) == map_of(xs).dom().contains(id) && (log.dom().contains(id) ==> log[id]
            == map_of(xs)[id]) by {
        if map_of(s.mem).contains_key(id) {
            let i = key_index(s.mem, id);
            assert(s.mem[i].0 == id);
            lemma_mem_entry::<O>(s, i);
            assert(xs[i].0 == id);
            lemma_map_of(id_order(), xs, i);
        }
        if has_key(xs, id) {
            let i = key_index(xs, id);
            assert(xs[i].0 == id);
            lemma_mem_entry::<O>(s, i);
        }
    }
    assert(map_of(xs) =~= log);
    lemma_log_changes(xs, log);
}

/// The counter of the last block in memory that starts at `id` or before it, whatever its peer,
/// or 0 where there is none.
pub open spec fn pred_counter<V>(mem: Seq<(ID, V)>, id: ID) -> Counter {
    let i = place(mem, id);
    if found_at(mem, i, id) {
        id.counter
    } else if i > 0 {
        mem[i - 1].0.counter
    } else {
        0
    }
}

/// Where a span starts.
pub open spec fn span_start(span: IdSpan) -> ID {
    ID { peer: span.peer, counter: span.counter.start }
}

/// The counter, or 0 where it is below 0.
pub open spec fn at_least_zero(counter: Counter) -> Counter {
    if counter < 0 {
        0
    } else {
        counter
    }
}

/// Where the blocks in memory that are looked at for a span start.
pub open spec fn span_lo<V>(mem: Seq<(ID, V)>, span: IdSpan) -> int {
    place(mem, ID { peer: span.peer, counter: pred_counter(mem, span_start(span)) })
}

/// Where the blocks in memory that are looked at for a span end.
pub open spec fn span_hi<V>(mem: Seq<(ID, V)>, span: IdSpan) -> int {
    place(mem, ID { peer: span.peer, counter: span.counter.end })
}

/// Whether a block does not end before the given counter.
pub open spec fn reaches<V>(b: BlockView<V>, start: Counter) -> bool {
    b.counter_range.1 >= start
}

/// The blocks from number `lo` up to number `hi` that reach `start`, with their changes in
/// memory.
pub open spec fn blocks_between<O: StorageFormat>(
    mem: Seq<(ID, BlockView<O::V>)>,
    lo: int,
    hi: int,
    start: Counter,
) -> Seq<BlockView<O::V>>
    decreases hi - lo,
{
    if hi <= lo {
        seq![]
    } else {
        let init = blocks_between::<O>(mem, lo, hi - 1, start);
        if reaches(mem[hi - 1].1, start) {
            init.push(block_parsed::<O>(mem[hi - 1].1))
        } else {
            init
        }
    }
}

/// The blocks in memory after those were read.
pub open spec fn mem_between<O: StorageFormat>(
    mem: Seq<(ID, BlockView<O::V>)>,
    lo: int,
    hi: int,
    start: Counter,
) -> Seq<(ID, BlockView<O::V>)> {
    Seq::new(
        mem.len(),
        |k: int|
            if lo <= k < hi && reaches(mem[k].1, start) {
                (mem[k].0, block_parsed::<O>(mem[k].1))
            } else {
                mem[k]
            },
    )
}

/// The blocks in memory that are read for a span.
pub open spec fn span_blocks<O: StorageFormat>(mem: Seq<(ID, BlockView<O::V>)>, span: IdSpan) -> Seq<BlockView<O::V>> {
    blocks_between::<O>(mem, span_lo(mem, span), span_hi(mem, span), span.counter.start)
}

/// The blocks in memory after those of a span were read.
pub open spec fn span_mem<O: StorageFormat>(
    mem: Seq<(ID, BlockView<O::V>)>,
    span: IdSpan,
) -> Seq<(ID, BlockView<O::V>)> {
    mem_between::<O>(mem, span_lo(mem, span), span_hi(mem, span), span.counter.start)
}

/// The position of the change that holds the given counter, if one does.
pub open spec fn change_index<O: Operation>(s: Seq<ChangeView<O::V>>, counter: Counter) -> Option<int> {
    if exists|i: int| 0 <= i < s.len() && change_covers::<O>(#[trigger] s[i], counter as int) {
        Some(choose|i: int| 0 <= i < s.len() && change_covers::<O>(#[trigger] s[i], counter as int))
    } else {
        None
    }
}

/// The first and the last change of a block that a span takes.
pub open spec fn span_ends<O: StorageFormat>(b: BlockView<O::V>, span: IdSpan) -> (int, int) {
    let s = block_changes::<O>(b);
    if span.counter.start <= b.counter_range.0 && span.counter.end >= b.counter_range.1 {
        (0, s.len() - 1)
    } else {
        (
            match change_index::<O>(s, span.counter.start) {
                Some(i) => i,
                None => 0,
            },
            match change_index::<O>(s, span.counter.end) {
                Some(i) => i,
                None => s.len() - 1,
            },
        )
    }
}

/// The changes of a block that a span takes.
pub open spec fn block_refs<O: StorageFormat>(b: BlockView<O::V>, span: IdSpan) -> Seq<(BlockView<O::V>, int)> {
    let (lo, hi) = span_ends::<O>(b, span);
    Seq::new(
        if lo <= hi {
            (hi - lo + 1) as nat
        } else {
            0
        },
        |k: int| (b, lo + k),
    )
}

/// The changes of a list of blocks that a span takes.
pub open spec fn blocks_refs<O: StorageFormat>(
    bs: Seq<BlockView<O::V>>,
    span: IdSpan,
) -> Seq<(BlockView<O::V>, int)>
    decreases bs.len(),
{
    if bs.len() == 0 {
        seq![]
    } else {
        blocks_refs::<O>(bs.drop_last(), span) + block_refs::<O>(bs.last(), span)
    }
}

/// The block is one of the given peer, and holds what the log has under its identity.
pub open spec fn is_block_of<O: StorageFormat>(log: Log<O::V>, peer: PeerID, b: BlockView<O::V>) -> bool {
    let bid = ID { peer: b.peer, counter: b.counter_range.0 };
    &&& b.peer == peer
    &&& log.contains_key(bid)
    &&& block_changes::<O>(b) == log[bid]
}

/// A counter is in one change of a history.
pub proof fn lemma_change_index<O: Operation>(s: Seq<ChangeView<O::V>>, counter: Counter, i: int)
    requires
        changes_valid::<O>(s),
        0 <= i < s.len(),
        change_covers::<O>(s[i], counter as int),
    ensures
        change_index::<O>(s, counter) == Some(i),
{
    let j = choose|j: int| 0 <= j < s.len() && change_covers::<O>(#[trigger] s[j], counter as int);
    if i < j {
        lemma_changes_order::<O>(s, i, j);
    } else if j < i {
        lemma_changes_order::<O>(s, j, i);
    }
}

/// Reading the changes of blocks in memory keeps the store valid and its log the same.
pub proof fn lemma_mem_between<O: StorageFormat>(s: StoreView<O::V>, lo: int, hi: int, start: Counter)
    requires
        store_readable::<O>(s),
    ensures
        store_readable::<O>(StoreView { mem: mem_between::<O>(s.mem, lo, hi, start), ..s }),
        store_valid::<O>(s) ==> store_valid::<O>(StoreView { mem: mem_between::<O>(s.mem, lo, hi, start), ..s }),
        log_of::<O>(StoreView { mem: mem_between::<O>(s.mem, lo, hi, start), ..s }) == log_of::<O>(s),
{
    let t = StoreView { mem: mem_between::<O>(s.mem, lo, hi, start), ..s };
    lemma_id_order();
    assert forall|i: int, j: int| 0 <= i < j < t.mem.len() implies id_order()(
        (#[trigger] t.mem[i]).0,
        (#[trigger] t.mem[j]).0,
    ) by {
        assert(id_order()(s.mem[i].0, s.mem[j].0));
    }
    assert forall|i: int| 0 <= i < t.mem.len() implies #[trigger] mem_block_valid::<O>(t, i) && log_of::<O>(
        s,
    ).contains_key(t.mem[i].0) && block_changes::<O>(t.mem[i].1) == log_of::<O>(s)[t.mem[i].0] by {
        lemma_mem_entry::<O>(s, i);
        lemma_block_parsed::<O>(s.mem[i].1);
    }
    assert forall|i: int| 0 <= i < t.mem.len() implies log_of::<O>(s).contains_key((#[trigger] t.mem[i]).0)
        && block_changes::<O>(t.mem[i].1) == log_of::<O>(s)[t.mem[i].0] by {
        assert(mem_block_valid::<O>(t, i));
    }
    assert forall|id: ID| #[trigger] map_of(s.mem).contains_key(id) implies map_of(t.mem).contains_key(id) by {
        let i = key_index(s.mem, id);
        assert(s.mem[i].0 == id);
        assert(t.mem[i].0 == id);
    }
    lemma_mem_recast::<O>(s, t);
}

/// `mem` lists the blocks of a map in order.
pub open spec fn lists_mem<V>(mem: Seq<(ID, BlockView<V>)>, m: Map<ID, BlockView<V>>) -> bool {
    keys_grow(id_order(), mem) && map_of(mem) == m
}

/// The store after the stored blocks under the keys that are asked for were read into
/// memory, where they were not there.
pub open spec fn load<O: StorageFormat>(s: StoreView<O::V>, wanted: spec_fn(Seq<u8>) -> bool) -> StoreView<O::V> {
    StoreView {
        mem: choose|mem: Seq<(ID, BlockView<O::V>)>| #[trigger] lists_mem(mem, loaded_map::<O>(s, wanted)),
        ..s
    }
}

/// There is one way to have blocks in memory.
pub proof fn lemma_load<O: StorageFormat>(s: StoreView<O::V>, t: StoreView<O::V>, wanted: spec_fn(Seq<u8>) -> bool)
    requires
        loaded::<O>(s, t, wanted),
    ensures
        t == load::<O>(s, wanted),
{
    let m = loaded_map::<O>(s, wanted);
    assert(lists_mem(t.mem, m));
    let mem = choose|mem: Seq<(ID, BlockView<O::V>)>| #[trigger] lists_mem(mem, m);
    lemma_id_order();
    lemma_listing_unique(id_order(), t.mem, mem);
}

/// The keys of the blocks that start in a span.
pub open spec fn span_keys(span: IdSpan) -> spec_fn(Seq<u8>) -> bool {
    |k: Seq<u8>|
        !key_before(k, id_bytes(ID { peer: span.peer, counter: at_least_zero(span.counter.start) })) && key_before(
            k,
            id_bytes(ID { peer: span.peer, counter: at_least_zero(span.counter.end) }),
        )
}

/// Where the atom is that is right before a span.
pub open spec fn span_before(span: IdSpan) -> ID {
    ID { peer: span.peer, counter: (span.counter.start - 1) as Counter }
}

/// The store with the block that holds the start of a span in memory, or else the one that ends
/// there, if there is one.
pub open spec fn start_read<O: StorageFormat>(s: StoreView<O::V>, span: IdSpan) -> StoreView<O::V> {
    let log = log_of::<O>(s);
    if log_has::<O>(log, span_start(span)) {
        read_block::<O>(s, covering::<O>(log, span_start(span)))
    } else if span.counter.start > 0 && log_has::<O>(log, span_before(span)) {
        read_block::<O>(s, covering::<O>(log, span_before(span)))
    } else {
        s
    }
}

/// The store with every block that a span touches in memory.
pub open spec fn span_loaded<O: StorageFormat>(s: StoreView<O::V>, span: IdSpan) -> StoreView<O::V> {
    load::<O>(start_read::<O>(s, span), span_keys(span))
}

/// The number of changes of the first `n` blocks in memory.
pub open spec fn mem_change_num<O: StorageFormat>(mem: Seq<(ID, BlockView<O::V>)>, n: int) -> nat
    decreases n,
{
    if n <= 0 {
        0
    } else {
        mem_change_num::<O>(mem, n - 1) + content_len::<O>(mem[n - 1].1.content)
    }
}

/// The first blocks have no more changes than all of them.
pub proof fn lemma_mem_change_num<O: StorageFormat>(mem: Seq<(ID, BlockView<O::V>)>, i: int, n: int)
    requires
        i <= n,
    ensures
        mem_change_num::<O>(mem, i) <= mem_change_num::<O>(mem, n),
    decreases n - i,
{
    if i < n && 0 < n {
        lemma_mem_change_num::<O>(mem, i, n - 1);
    }
}

} // verus!
