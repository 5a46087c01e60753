//! What iterating over the changes of a span finds.
use crate::block::{block_changes, block_parsed, block_valid, BlockView};
use crate::block_map::{id_order, lemma_has_place, lemma_id_order, place};
use crate::change::{
    change_covers, change_end, change_follows, change_valid, changes_end, changes_valid, lemma_change_nonempty,
    lemma_changes_atoms_len, lemma_changes_order, ChangeView,
};
use crate::format::StorageFormat;
use crate::ids::{id_bytes, lemma_id_bytes_order, Counter, IdSpan, PeerID, ID};
use crate::log::{block_end, covering, covers, lemma_covers_unique, log_block_valid, log_has, log_valid, Log};
use crate::op::Operation;
use crate::read_view::{
    at_least_zero, block_refs, blocks_between, blocks_refs, change_index, has_change, is_block_of, lemma_block_parsed,
    lemma_change_covers, lemma_change_index, lemma_loaded, lemma_read_block, loaded, loaded_map, pred_counter, reaches,
    span_before, span_blocks, span_ends, span_hi, span_keys, span_lo, span_start, start_read,
};
use crate::sorted::{found_at, key_index, lemma_found_at, map_of};
use crate::store_view::{lemma_mem_entry, log_of, log_vv, mem_block_valid, store_readable, StoreView};
use vstd::prelude::*;

verus! {

/// A block that is looked at and reaches the start is among those that are read.
proof fn lemma_between_contains<O: StorageFormat>(
    mem: Seq<(ID, BlockView<O::V>)>,
    lo: int,
    hi: int,
    start: Counter,
    k: int,
)
    requires
        lo <= k < hi,
        reaches(mem[k].1, start),
    ensures
        blocks_between::<O>(mem, lo, hi, start).contains(block_parsed::<O>(mem[k].1)),
    decreases hi - lo,
{
    let all = blocks_between::<O>(mem, lo, hi, start);
    let init = blocks_between::<O>(mem, lo, hi - 1, start);
    let b = block_parsed::<O>(mem[k].1);
    if k == hi - 1 {
        assert(all.last() == b);
    } else {
        lemma_between_contains::<O>(mem, lo, hi - 1, start, k);
        let i = choose|i: int| 0 <= i < init.len() && init[i] == b;
        assert(all[i] == b);
    }
}

/// What a span takes of a block is among what it takes of all blocks.
proof fn lemma_refs_contain<O: StorageFormat>(
    bs: Seq<BlockView<O::V>>,
    span: IdSpan,
    b: BlockView<O::V>,
    r: (BlockView<O::V>, int),
)
    requires
        bs.contains(b),
        block_refs::<O>(b, span).contains(r),
    ensures
        blocks_refs::<O>(bs, span).contains(r),
    decreases bs.len(),
{
    let all = blocks_refs::<O>(bs, span);
    let init = blocks_refs::<O>(bs.drop_last(), span);
    let last = block_refs::<O>(bs.last(), span);
    if bs.last() == b {
        let i = choose|i: int| 0 <= i < last.len() && last[i] == r;
        assert(all[init.len() + i] == r);
    } else {
        let k = choose|k: int| 0 <= k < bs.len() && bs[k] == b;
        assert(bs.drop_last()[k] == b);
        lemma_refs_contain::<O>(bs.drop_last(), span, b, r);
        let i = choose|i: int| 0 <= i < init.len() && init[i] == r;
        assert(all[i] == r);
    }
}

/// No change of a history holds a counter outside of it.
proof fn lemma_no_change_outside<O: Operation>(s: Seq<ChangeView<O::V>>, counter: Counter)
    requires
        changes_valid::<O>(s),
        counter < s[0].id.counter || counter >= changes_end::<O>(s),
    ensures
        change_index::<O>(s, counter) is None,
{
    let n = s.len() - 1;
    assert forall|i: int| 0 <= i < s.len() implies !change_covers::<O>(#[trigger] s[i], counter as int) by {
        assert(change_follows::<O>(s, n));
        lemma_change_nonempty::<O>(s[n]);
        if 0 < i {
            lemma_changes_order::<O>(s, 0, i);
        }
        if i < n {
            lemma_changes_order::<O>(s, i, n);
        }
    }
}

/// What a span takes of a block that it overlaps: the changes that end after the start of the
/// span and start at its end or before. Of a block that ends where the span starts, it takes
/// all changes that start at the end of the span or before.
proof fn lemma_block_ends<O: StorageFormat>(b: BlockView<O::V>, span: IdSpan)
    requires
        block_valid::<O>(b),
        b.counter_range.0 < span.counter.end,
        b.counter_range.1 >= span.counter.start,
    ensures
        ({
            let s = block_changes::<O>(b);
            let (lo, hi) = span_ends::<O>(b, span);
            &&& 0 <= lo < s.len()
            &&& 0 <= hi < s.len()
            &&& span.counter.start <= span.counter.end ==> lo <= hi
            &&& span.counter.start <= b.counter_range.0 ==> lo == 0
            &&& b.counter_range.0 <= span.counter.start < b.counter_range.1 ==> change_covers::<O>(
                s[lo],
                span.counter.start as int,
            )
            &&& span.counter.end >= b.counter_range.1 ==> hi == s.len() - 1
            &&& forall|i: int|
                0 <= i < s.len() ==> ((lo <= i <= hi) <==> (b.counter_range.1 == span.counter.start || change_end::<
                    O,
                >(#[trigger] s[i]) > span.counter.start) && s[i].id.counter <= span.counter.end)
        }),
{
    let s = block_changes::<O>(b);
    let (start, end) = (span.counter.start, span.counter.end);
    let (lo, hi) = span_ends::<O>(b, span);
    let n = s.len() - 1;
    assert(change_follows::<O>(s, 0));
    assert(change_follows::<O>(s, n));
    lemma_change_nonempty::<O>(s[0]);
    lemma_change_nonempty::<O>(s[n]);
    if start < b.counter_range.0 || start == b.counter_range.1 {
        lemma_no_change_outside::<O>(s, start);
    } else {
        let j = lemma_change_covers::<O>(s, start as int);
        lemma_change_index::<O>(s, start, j);
        if start == b.counter_range.0 && 0 < j {
            lemma_changes_order::<O>(s, 0, j);
        }
        assert(lo == j);
    }
    if end >= b.counter_range.1 {
        lemma_no_change_outside::<O>(s, end);
        assert(hi == n);
    } else {
        let j = lemma_change_covers::<O>(s, end as int);
        lemma_change_index::<O>(s, end, j);
        assert(hi == j);
        if j < lo {
            lemma_changes_order::<O>(s, j, lo);
        }
    }
    assert forall|i: int| 0 <= i < s.len() implies ((lo <= i <= hi) <==> (b.counter_range.1 == start || change_end::<O>(
        #[trigger] s[i],
    ) > start) && s[i].id.counter <= end) by {
        assert(change_follows::<O>(s, i));
        lemma_change_nonempty::<O>(s[i]);
        if i < lo {
            lemma_changes_order::<O>(s, i, lo);
        } else if lo < i {
            lemma_changes_order::<O>(s, lo, i);
        }
        if i < hi {
            lemma_changes_order::<O>(s, i, hi);
        } else if hi < i {
            lemma_changes_order::<O>(s, hi, i);
        }
        if i < n {
            lemma_changes_order::<O>(s, i, n);
        }
        if 0 < i {
            lemma_changes_order::<O>(s, 0, i);
        }
    }
}

/// Which changes are taken of a block.
proof fn lemma_block_refs<O: StorageFormat>(b: BlockView<O::V>, span: IdSpan, i: int)
    requires
        block_valid::<O>(b),
        b.counter_range.0 < span.counter.end,
        b.counter_range.1 >= span.counter.start,
        0 <= i < block_changes::<O>(b).len(),
    ensures
        block_refs::<O>(b, span).contains((b, i)) == ((b.counter_range.1 == span.counter.start || change_end::<O>(
            block_changes::<O>(b)[i],
        ) > span.counter.start) && block_changes::<O>(b)[i].id.counter <= span.counter.end),
{
    lemma_block_ends::<O>(b, span);
    let (lo, hi) = span_ends::<O>(b, span);
    if lo <= i <= hi {
        assert(block_refs::<O>(b, span)[i - lo] == (b, i));
    }
}

/// What a span takes of blocks, it takes of one of them.
proof fn lemma_refs_from<O: StorageFormat>(bs: Seq<BlockView<O::V>>, span: IdSpan, r: (BlockView<O::V>, int))
    requires
        blocks_refs::<O>(bs, span).contains(r),
    ensures
        bs.contains(r.0),
        block_refs::<O>(r.0, span).contains(r),
    decreases bs.len(),
{
    let all = blocks_refs::<O>(bs, span);
    let init = blocks_refs::<O>(bs.drop_last(), span);
    let last = block_refs::<O>(bs.last(), span);
    let i = choose|i: int| 0 <= i < all.len() && all[i] == r;
    if bs.len() > 0 {
        if i < init.len() {
            assert(init[i] == r);
            lemma_refs_from::<O>(bs.drop_last(), span, r);
            let k = choose|k: int| 0 <= k < bs.drop_last().len() && bs.drop_last()[k] == r.0;
            assert(bs[k] == r.0);
        } else {
            assert(last[i - init.len()] == r);
            assert(bs[bs.len() - 1] == r.0);
        }
    }
}

/// Of the blocks that are looked at, those from some number on reach the start, if each block
/// that comes after one that does so does so too.
proof fn lemma_between_suffix<O: StorageFormat>(
    mem: Seq<(ID, BlockView<O::V>)>,
    lo: int,
    hi: int,
    start: Counter,
) -> (m: int)
    requires
        lo <= hi,
        forall|j: int, k: int|
            lo <= j < k < hi && reaches((#[trigger] mem[j]).1, start) ==> reaches((#[trigger] mem[k]).1, start),
    ensures
        lo <= m <= hi,
        forall|k: int| lo <= k < hi ==> (reaches((#[trigger] mem[k]).1, start) <==> m <= k),
        blocks_between::<O>(mem, lo, hi, start) == Seq::new(
            (hi - m) as nat,
            |j: int| block_parsed::<O>(mem[m + j].1),
        ),
    decreases hi - lo,
{
    if lo == hi {
        assert(blocks_between::<O>(mem, lo, hi, start) =~= Seq::new(
            0,
            |j: int| block_parsed::<O>(mem[lo + j].1),
        ));
        lo
    } else {
        let m0 = lemma_between_suffix::<O>(mem, lo, hi - 1, start);
        let m = if reaches(mem[hi - 1].1, start) {
            m0
        } else {
            hi
        };
        if m == hi && m0 < hi - 1 {
            assert(reaches(mem[m0].1, start));
        }
        assert(blocks_between::<O>(mem, lo, hi, start) =~= Seq::new(
            (hi - m) as nat,
            |j: int| block_parsed::<O>(mem[m + j].1),
        ));
        m
    }
}

/// Whether a span touches a block of the log: the block is of the peer of the span and starts
/// before its end, and it ends after its start, or there where the history does.
pub open spec fn touches<O: StorageFormat>(log: Log<O::V>, span: IdSpan, bid: ID) -> bool {
    &&& log.contains_key(bid)
    &&& bid.peer == span.peer
    &&& bid.counter < span.counter.end
    &&& block_end::<O>(log, bid) > span.counter.start || (block_end::<O>(log, bid) == span.counter.start
        && !log_has::<O>(log, span_start(span)))
}

/// Reading the blocks of a span keeps the store valid and its log the same.
proof fn lemma_span_loaded<O: StorageFormat>(s: StoreView<O::V>, t: StoreView<O::V>, span: IdSpan)
    requires
        store_readable::<O>(s),
        loaded::<O>(start_read::<O>(s, span), t, span_keys(span)),
    ensures
        store_readable::<O>(start_read::<O>(s, span)),
        log_of::<O>(start_read::<O>(s, span)) == log_of::<O>(s),
        store_readable::<O>(t),
        log_of::<O>(t) == log_of::<O>(s),
{
    let log = log_of::<O>(s);
    if log_has::<O>(log, span_start(span)) {
        let cov = covering::<O>(log, span_start(span));
        assert(covers::<O>(log, cov, span_start(span)));
        lemma_read_block::<O>(s, cov);
    } else if span.counter.start > 0 && log_has::<O>(log, span_before(span)) {
        let cov = covering::<O>(log, span_before(span));
        assert(covers::<O>(log, cov, span_before(span)));
        lemma_read_block::<O>(s, cov);
    }
    lemma_loaded::<O>(start_read::<O>(s, span), t, span_keys(span));
}

/// Whether a block is not before those that are looked at for a span.
pub open spec fn looked_at<V>(t: StoreView<V>, span: IdSpan, bid: ID) -> bool {
    pred_counter(t.mem, span_start(span)) <= bid.counter
}

/// Whether the history of the peer of a span goes back to where the span starts.
pub open spec fn goes_back<V>(log: Log<V>, span: IdSpan) -> bool {
    exists|bid: ID| #[trigger] log.contains_key(bid) && bid.peer == span.peer && bid.counter <= span.counter.start
}

/// Every block that a span touches is in memory once those of the span were read.
proof fn lemma_touched_in_mem<O: StorageFormat>(s: StoreView<O::V>, t: StoreView<O::V>, span: IdSpan, bid: ID) -> (k:
    int)
    requires
        store_readable::<O>(s),
        loaded::<O>(start_read::<O>(s, span), t, span_keys(span)),
        touches::<O>(log_of::<O>(s), span, bid),
    ensures
        0 <= k < t.mem.len(),
        t.mem[k].0 == bid,
        map_of(t.mem).contains_key(bid),
        map_of(t.mem)[bid] == t.mem[k].1,
        reaches(t.mem[k].1, span.counter.start),
        bid.counter < block_end::<O>(log_of::<O>(s), bid),
{
    let log = log_of::<O>(s);
    let start = span_start(span);
    let s1 = start_read::<O>(s, span);
    lemma_span_loaded::<O>(s, t, span);
    lemma_id_order();
    assert(log_block_valid::<O>(log, log_vv::<O>(log), bid));
    assert(change_follows::<O>(log[bid], 0));
    lemma_changes_atoms_len::<O>(log[bid]);
    assert(map_of(t.mem).contains_key(bid)) by {
        if bid.counter < start.counter {
            let held = if block_end::<O>(log, bid) > start.counter {
                start
            } else {
                span_before(span)
            };
            assert(covers::<O>(log, bid, held));
            lemma_covers_unique::<O>(log, log_vv::<O>(log), bid, held);
            lemma_read_block::<O>(s, bid);
            assert(map_of(s1.mem).contains_key(bid));
        } else if span.counter.start == bid.counter {
            assert(covers::<O>(log, bid, start));
            lemma_covers_unique::<O>(log, log_vv::<O>(log), bid, start);
            lemma_read_block::<O>(s, bid);
            assert(map_of(s1.mem).contains_key(bid));
        } else if !map_of(s1.mem).contains_key(bid) {
            lemma_id_bytes_order(bid, ID { peer: span.peer, counter: at_least_zero(span.counter.start) });
            lemma_id_bytes_order(bid, ID { peer: span.peer, counter: at_least_zero(span.counter.end) });
            assert(log_of::<O>(s1).contains_key(bid));
            assert(s1.kv.contains_key(id_bytes(bid)));
            assert(span_keys(span)(id_bytes(bid)));
        }
        assert(loaded_map::<O>(s1, span_keys(span)).contains_key(bid));
    }
    let k = key_index(t.mem, bid);
    assert(t.mem[k].0 == bid);
    lemma_mem_entry::<O>(t, k);
    k
}

/// A block that a span touches is among those that are looked at, if it is not before them.
proof fn lemma_touched<O: StorageFormat>(s: StoreView<O::V>, t: StoreView<O::V>, span: IdSpan, bid: ID) -> (k: int)
    requires
        store_readable::<O>(s),
        loaded::<O>(start_read::<O>(s, span), t, span_keys(span)),
        touches::<O>(log_of::<O>(s), span, bid),
        looked_at(t, span, bid),
    ensures
        span_lo(t.mem, span) <= k < span_hi(t.mem, span),
        0 <= k < t.mem.len(),
        t.mem[k].0 == bid,
        map_of(t.mem).contains_key(bid),
        map_of(t.mem)[bid] == t.mem[k].1,
        reaches(t.mem[k].1, span.counter.start),
{
    let k = lemma_touched_in_mem::<O>(s, t, span, bid);
    lemma_span_loaded::<O>(s, t, span);
    lemma_id_order();
    let lo_id = ID { peer: span.peer, counter: pred_counter(t.mem, span_start(span)) };
    let end = ID { peer: span.peer, counter: span.counter.end };
    lemma_has_place(t.mem, lo_id);
    lemma_has_place(t.mem, end);
    let (lo, hi) = (span_lo(t.mem, span), span_hi(t.mem, span));
    assert(lo <= k) by {
        if k < lo {
            assert(id_order()(t.mem[k].0, lo_id));
        }
    }
    assert(k < hi) by {
        if k >= hi {
            assert(t.mem[k].0 == end || id_order()(end, t.mem[k].0));
        }
    }
    k
}

/// A log that has a block at a counter or before it, and one after it, has the counter.
proof fn lemma_between_blocks<O: StorageFormat>(
    log: Log<O::V>,
    vv: Map<PeerID, Counter>,
    q: ID,
    id: ID,
    bid: ID,
)
    requires
        log_valid::<O>(log, vv),
        log.contains_key(q),
        log.contains_key(bid),
        q.peer == id.peer,
        bid.peer == id.peer,
        q.counter <= id.counter < bid.counter,
    ensures
        log_has::<O>(log, id),
    decreases id.counter - q.counter,
{
    assert(log_block_valid::<O>(log, vv, q));
    assert(log_block_valid::<O>(log, vv, bid));
    lemma_changes_atoms_len::<O>(log[q]);
    lemma_changes_atoms_len::<O>(log[bid]);
    let e = block_end::<O>(log, q);
    if e > id.counter {
        assert(covers::<O>(log, q, id));
    } else {
        let next = ID { peer: id.peer, counter: e as Counter };
        assert(log.contains_key(next));
        lemma_between_blocks::<O>(log, vv, next, id, bid);
    }
}

/// Where the history goes back to the start of a span, no block that the span touches is before
/// those that are looked at.
proof fn lemma_looked_at<O: StorageFormat>(s: StoreView<O::V>, t: StoreView<O::V>, span: IdSpan, bid: ID)
    requires
        store_readable::<O>(s),
        loaded::<O>(start_read::<O>(s, span), t, span_keys(span)),
        touches::<O>(log_of::<O>(s), span, bid),
        goes_back(log_of::<O>(s), span),
    ensures
        looked_at(t, span, bid),
{
    let log = log_of::<O>(s);
    let vv = log_vv::<O>(log);
    let start = span_start(span);
    lemma_span_loaded::<O>(s, t, span);
    lemma_id_order();
    let back = choose|q: ID| #[trigger] log.contains_key(q) && q.peer == span.peer && q.counter <= span.counter.start;
    if bid.counter > start.counter {
        lemma_between_blocks::<O>(log, vv, back, start, bid);
    }
    assert(log_block_valid::<O>(log, vv, bid));
    lemma_changes_atoms_len::<O>(log[bid]);
    // a block of the peer that is at the start or before it, and in memory
    let near = if bid.counter > start.counter {
        covering::<O>(log, start)
    } else {
        bid
    };
    assert(map_of(t.mem).contains_key(near)) by {
        if near == bid {
            let _ = lemma_touched_in_mem::<O>(s, t, span, bid);
        } else {
            assert(covers::<O>(log, near, start));
            lemma_read_block::<O>(s, near);
            assert(loaded_map::<O>(start_read::<O>(s, span), span_keys(span)).contains_key(near));
        }
    }
    let x = key_index(t.mem, near);
    assert(t.mem[x].0 == near);
    let p = place(t.mem, start);
    lemma_has_place(t.mem, start);
    lemma_found_at(id_order(), t.mem, p, start);
    let q = if found_at(t.mem, p, start) {
        p
    } else {
        p - 1
    };
    assert(x <= q) by {
        if x >= p {
            assert(t.mem[x].0 == start || id_order()(start, t.mem[x].0));
            if x > p {
                assert(id_order()(t.mem[p].0, t.mem[x].0));
            }
        }
    }
    if x < q {
        assert(id_order()(t.mem[x].0, t.mem[q].0));
    }
    if q == p - 1 {
        assert(id_order()(t.mem[q].0, start));
    }
    lemma_mem_entry::<O>(t, q);
    assert(t.mem[q].0 == (ID { peer: span.peer, counter: pred_counter(t.mem, start) }));
    if pred_counter(t.mem, start) > bid.counter {
        assert(log.contains_key(bid) && log.contains_key(t.mem[q].0));
        assert(log_block_valid::<O>(log, vv, t.mem[q].0));
        lemma_changes_atoms_len::<O>(log[t.mem[q].0]);
        assert(covers::<O>(log, t.mem[q].0, start));
    }
}

/// The change that a reference refers to.
pub open spec fn ref_change<O: StorageFormat>(r: (BlockView<O::V>, int)) -> ChangeView<O::V> {
    block_changes::<O>(r.0)[r.1]
}

/// Block `k` in memory is one that a span touches.
pub open spec fn touched_at<O: StorageFormat>(t: StoreView<O::V>, span: IdSpan, k: int) -> bool {
    &&& 0 <= k < t.mem.len()
    &&& touches::<O>(log_of::<O>(t), span, t.mem[k].0)
    &&& mem_block_valid::<O>(t, k)
    &&& block_end::<O>(log_of::<O>(t), t.mem[k].0) == t.mem[k].1.counter_range.1
}

/// Of the blocks that are looked at, those that reach the start are the ones that the span
/// touches, and each of them starts where the one before it ends.
proof fn lemma_span_range<O: StorageFormat>(s: StoreView<O::V>, t: StoreView<O::V>, span: IdSpan) -> (m: int)
    requires
        store_readable::<O>(s),
        loaded::<O>(start_read::<O>(s, span), t, span_keys(span)),
    ensures
        ({
            let hi = span_hi(t.mem, span);
            &&& span_blocks::<O>(t.mem, span) == Seq::new(
                if m <= hi {
                    (hi - m) as nat
                } else {
                    0
                },
                |j: int| block_parsed::<O>(t.mem[m + j].1),
            )
            &&& forall|k: int|
                span_lo(t.mem, span) <= k < hi && reaches((#[trigger] t.mem[k]).1, span.counter.start) ==> m <= k
            &&& forall|k: int| m <= k < hi ==> #[trigger] touched_at::<O>(t, span, k) && looked_at(t, span, t.mem[k].0)
            &&& forall|k: int| #![trigger t.mem[k - 1]]
                m < k < hi ==> t.mem[k - 1].1.counter_range.1 == t.mem[k].1.counter_range.0
        }),
{
    let log = log_of::<O>(s);
    let start = span_start(span);
    let end = ID { peer: span.peer, counter: span.counter.end };
    lemma_span_loaded::<O>(s, t, span);
    lemma_id_order();
    let p = place(t.mem, start);
    lemma_has_place(t.mem, start);
    lemma_found_at(id_order(), t.mem, p, start);
    let (lo, hi) = (span_lo(t.mem, span), span_hi(t.mem, span));
    let lo_id = ID { peer: span.peer, counter: pred_counter(t.mem, start) };
    lemma_has_place(t.mem, lo_id);
    lemma_has_place(t.mem, end);
    if hi < lo {
        assert(span_blocks::<O>(t.mem, span) =~= Seq::new(0, |j: int| block_parsed::<O>(t.mem[lo + j].1)));
        lo
    } else {
        assert forall|k: int| lo <= k < hi implies (#[trigger] t.mem[k]).0.peer == span.peer && t.mem[k].0.counter
            < span.counter.end && log.contains_key(t.mem[k].0) && block_end::<O>(log, t.mem[k].0)
            == t.mem[k].1.counter_range.1 && t.mem[k].0.counter == t.mem[k].1.counter_range.0 && t.mem[k].0.counter
            < t.mem[k].1.counter_range.1 by {
            lemma_mem_entry::<O>(t, k);
            assert(id_order()(t.mem[k].0, end));
            assert(t.mem[k].0 == lo_id || id_order()(lo_id, t.mem[k].0));
            assert(log_block_valid::<O>(log, log_vv::<O>(log_of::<O>(s)), t.mem[k].0));
            lemma_changes_atoms_len::<O>(log[t.mem[k].0]);
        }
        assert forall|j: int, k: int|
            lo <= j < k < hi && reaches((#[trigger] t.mem[j]).1, start.counter) implies reaches(
            (#[trigger] t.mem[k]).1,
            start.counter,
        ) by {
            assert(id_order()(t.mem[j].0, t.mem[k].0));
            assert(log.contains_key(t.mem[j].0) && log.contains_key(t.mem[k].0));
        }
        let m = lemma_between_suffix::<O>(t.mem, lo, hi, start.counter);
        assert forall|k: int| m <= k < hi implies #[trigger] touched_at::<O>(t, span, k) && looked_at(
            t,
            span,
            t.mem[k].0,
        ) by {
            let a = t.mem[k].0;
            assert(reaches(t.mem[k].1, start.counter));
            lemma_mem_entry::<O>(t, k);
            assert(t.mem[k].0 == lo_id || id_order()(lo_id, t.mem[k].0));
            if block_end::<O>(log, a) == start.counter && log_has::<O>(log, start) {
                let cov = covering::<O>(log, start);
                assert(covers::<O>(log, cov, start));
                assert(log.contains_key(a) && log.contains_key(cov));
                assert(cov == start);
                lemma_read_block::<O>(s, cov);
                assert(loaded_map::<O>(start_read::<O>(s, span), span_keys(span)).contains_key(cov));
                let kc = key_index(t.mem, cov);
                assert(t.mem[kc].0 == cov);
                lemma_mem_entry::<O>(t, kc);
                assert(kc == p);
                assert(found_at(t.mem, p, start));
                assert(lo_id == start);
                assert(t.mem[k].0 == lo_id || id_order()(lo_id, t.mem[k].0));
            }
        }
        assert forall|k: int| #![trigger t.mem[k - 1]] m < k < hi implies t.mem[k - 1].1.counter_range.1
            == t.mem[k].1.counter_range.0 by {
            assert(touched_at::<O>(t, span, k - 1));
            let (a, b) = (t.mem[k - 1].0, t.mem[k].0);
            assert(id_order()(a, b));
            assert(log.contains_key(a) && log.contains_key(b));
            assert(log_block_valid::<O>(log, log_vv::<O>(log_of::<O>(s)), a));
            assert(log_block_valid::<O>(log, log_vv::<O>(log_of::<O>(s)), b));
            let e = block_end::<O>(log, a);
            if e < b.counter {
                let next = ID { peer: span.peer, counter: e as Counter };
                assert(log.contains_key(next));
                assert(log_block_valid::<O>(log, log_vv::<O>(log_of::<O>(s)), next));
                lemma_changes_atoms_len::<O>(log[next]);
                let x = lemma_touched::<O>(s, t, span, next);
                if x < k {
                    if x < k - 1 {
                        assert(id_order()(t.mem[x].0, t.mem[k - 1].0));
                    }
                } else if k < x {
                    assert(id_order()(t.mem[k].0, t.mem[x].0));
                }
            }
        }
        m
    }
}

/// What a span takes of blocks that follow one another: changes that follow one another, of
/// which the first holds the start of the span, if the first block does.
proof fn lemma_refs_follow<O: StorageFormat>(bs: Seq<BlockView<O::V>>, span: IdSpan)
    requires
        bs.len() > 0,
        span.counter.start <= span.counter.end || bs.len() == 1,
        forall|k: int|
            0 <= k < bs.len() ==> block_valid::<O>(#[trigger] bs[k]) && bs[k].peer == span.peer
                && bs[k].counter_range.0 < span.counter.end && bs[k].counter_range.1 >= span.counter.start,
        forall|k: int| #![trigger bs[k - 1]]
            0 < k < bs.len() ==> bs[k - 1].counter_range.1 == bs[k].counter_range.0,
    ensures
        ({
            let r = blocks_refs::<O>(bs, span);
            &&& span.counter.start <= span.counter.end ==> r.len() > 0
            &&& r.len() > 0 && bs[0].counter_range.0 <= span.counter.start < bs[0].counter_range.1 ==> change_covers::<
                O,
            >(ref_change::<O>(r[0]), span.counter.start as int)
            &&& forall|k: int|
                0 <= k < r.len() ==> change_valid::<O>(ref_change::<O>(#[trigger] r[k])) && ref_change::<O>(
                    r[k],
                ).id.peer == span.peer
            &&& forall|k: int| #![trigger r[k - 1]]
                0 < k < r.len() ==> change_end::<O>(ref_change::<O>(r[k - 1])) == ref_change::<O>(r[k]).id.counter
            &&& r.len() > 0 && bs.last().counter_range.1 <= span.counter.end ==> change_end::<O>(
                ref_change::<O>(r.last()),
            ) == bs.last().counter_range.1
        }),
    decreases bs.len(),
{
    let n = bs.len() - 1;
    let b = bs[n];
    let s = block_changes::<O>(b);
    let all = blocks_refs::<O>(bs, span);
    let tail = block_refs::<O>(b, span);
    let (lo, hi) = span_ends::<O>(b, span);
    lemma_block_ends::<O>(b, span);
    assert forall|k: int| 0 <= k < tail.len() implies tail[k] == (b, lo + k) && (#[trigger] tail[k]).1 < s.len()
        && change_valid::<O>(ref_change::<O>(tail[k])) && ref_change::<O>(tail[k]).id.peer == span.peer && (k > 0
        ==> change_end::<O>(s[lo + k - 1]) == s[lo + k].id.counter) by {
        assert(change_follows::<O>(s, lo + k));
    }
    if n == 0 {
        assert(blocks_refs::<O>(bs.drop_last(), span) =~= seq![]);
        assert(all =~= tail);
        assert forall|k: int| #![trigger all[k - 1]] 0 < k < all.len() implies change_end::<O>(
            ref_change::<O>(all[k - 1]),
        ) == ref_change::<O>(all[k]).id.counter by {
            assert(tail[k] == (b, lo + k) && tail[k - 1] == (b, lo + k - 1));
        }
    } else {
        let init_bs = bs.drop_last();
        assert forall|k: int| 0 <= k < init_bs.len() implies block_valid::<O>(#[trigger] init_bs[k])
            && init_bs[k].peer == span.peer && init_bs[k].counter_range.0 < span.counter.end
            && init_bs[k].counter_range.1 >= span.counter.start by {
            assert(init_bs[k] == bs[k]);
        }
        assert forall|k: int| #![trigger init_bs[k - 1]] 0 < k < init_bs.len() implies init_bs[k
            - 1].counter_range.1 == init_bs[k].counter_range.0 by {
            assert(bs[k - 1].counter_range.1 == bs[k].counter_range.0);
        }
        lemma_refs_follow::<O>(init_bs, span);
        let init = blocks_refs::<O>(init_bs, span);
        assert(init_bs.last() == bs[n - 1]);
        assert(bs[n - 1].counter_range.1 == bs[n].counter_range.0);
        assert(lo == 0);
        assert(tail[0] == (b, 0int));
        assert forall|k: int| 0 <= k < all.len() implies change_valid::<O>(ref_change::<O>(#[trigger] all[k]))
            && ref_change::<O>(all[k]).id.peer == span.peer by {
            if k < init.len() {
                assert(all[k] == init[k]);
            } else {
                assert(all[k] == tail[k - init.len()]);
            }
        }
        assert forall|k: int| #![trigger all[k - 1]] 0 < k < all.len() implies change_end::<O>(
            ref_change::<O>(all[k - 1]),
        ) == ref_change::<O>(all[k]).id.counter by {
            if k < init.len() {
                assert(all[k - 1] == init[k - 1] && all[k] == init[k]);
            } else if k == init.len() {
                assert(all[k - 1] == init[k - 1]);
                assert(all[k] == tail[0]);
            } else {
                let m = k - init.len();
                assert(all[k] == tail[m] && all[k - 1] == tail[m - 1]);
                assert(tail[m] == (b, lo + m) && tail[m - 1] == (b, lo + m - 1));
            }
        }
        assert(all[0] == init[0]);
    }
    if tail.len() > 0 {
        assert(all.last() == tail.last());
        assert(tail[tail.len() - 1] == (b, hi));
    }
}

/// Changes of which each starts where the one before it ends ascend.
proof fn lemma_refs_ascend<O: StorageFormat>(r: Seq<(BlockView<O::V>, int)>, j: int, k: int)
    requires
        0 <= j < k < r.len(),
        forall|k: int| 0 <= k < r.len() ==> change_valid::<O>(ref_change::<O>(#[trigger] r[k])),
        forall|k: int| #![trigger r[k - 1]]
            0 < k < r.len() ==> change_end::<O>(ref_change::<O>(r[k - 1])) == ref_change::<O>(r[k]).id.counter,
    ensures
        ref_change::<O>(r[j]).id.counter < ref_change::<O>(r[k]).id.counter,
    decreases k - j,
{
    assert(change_valid::<O>(ref_change::<O>(r[k - 1])));
    lemma_change_nonempty::<O>(ref_change::<O>(r[k - 1]));
    if j < k - 1 {
        lemma_refs_ascend::<O>(r, j, k - 1);
    }
}

/// The changes that iterating over a span finds, when the blocks that it touches are in memory.
pub open spec fn span_refs<O: StorageFormat>(t: StoreView<O::V>, span: IdSpan) -> Seq<(BlockView<O::V>, int)> {
    blocks_refs::<O>(span_blocks::<O>(t.mem, span), span)
}

/// Whether the changes of a span have change `i` of block `bid` among them.
pub open spec fn takes_change<O: StorageFormat>(t: StoreView<O::V>, span: IdSpan, bid: ID, i: int) -> bool {
    &&& map_of(t.mem).contains_key(bid)
    &&& span_refs::<O>(t, span).contains((block_parsed::<O>(map_of(t.mem)[bid]), i))
}

/// Whether change `i` of block `bid` is in a span: it ends after the start of the span and starts
/// at its end or before, and its block starts before the end. Where the history ends right
/// where the span starts, all changes of its last block count as ending after that.
pub open spec fn in_span<O: StorageFormat>(log: Log<O::V>, span: IdSpan, bid: ID, i: int) -> bool {
    &&& bid.counter < span.counter.end
    &&& log[bid][i].id.counter <= span.counter.end
    &&& change_end::<O>(log[bid][i]) > span.counter.start || (block_end::<O>(log, bid) == span.counter.start
        && !log_has::<O>(log, span_start(span)))
}

/// The changes of a span are of its peer, and each of them starts where the one before it ends,
/// so that they ascend and each comes once. If the log has the start of the span, the first
/// one holds it.
pub proof fn lemma_span_changes<O: StorageFormat>(s: StoreView<O::V>, t: StoreView<O::V>, span: IdSpan)
    requires
        store_readable::<O>(s),
        loaded::<O>(start_read::<O>(s, span), t, span_keys(span)),
    ensures
        ({
            let r = span_refs::<O>(t, span);
            &&& forall|k: int|
                0 <= k < r.len() ==> change_valid::<O>(ref_change::<O>(#[trigger] r[k])) && ref_change::<O>(
                    r[k],
                ).id.peer == span.peer
            &&& forall|k: int| #![trigger r[k - 1]]
                0 < k < r.len() ==> change_end::<O>(ref_change::<O>(r[k - 1])) == ref_change::<O>(r[k]).id.counter
            &&& forall|j: int, k: int|
                0 <= j < k < r.len() ==> ref_change::<O>(#[trigger] r[j]).id.counter < ref_change::<O>(
                    #[trigger] r[k],
                ).id.counter
            &&& log_has::<O>(log_of::<O>(s), span_start(span)) && span.counter.start < span.counter.end ==> r.len() > 0
                && change_covers::<O>(ref_change::<O>(r[0]), span.counter.start as int)
        }),
{
    let log = log_of::<O>(s);
    let m = lemma_span_range::<O>(s, t, span);
    lemma_span_loaded::<O>(s, t, span);
    let hi = span_hi(t.mem, span);
    let bs = span_blocks::<O>(t.mem, span);
    let r = span_refs::<O>(t, span);
    if bs.len() > 0 {
        assert forall|k: int| 0 <= k < bs.len() implies block_valid::<O>(#[trigger] bs[k]) && bs[k].peer == span.peer
            && bs[k].counter_range.0 < span.counter.end && bs[k].counter_range.1 >= span.counter.start && bs[k]
            == block_parsed::<O>(t.mem[m + k].1) by {
            assert(touched_at::<O>(t, span, m + k));
            lemma_block_parsed::<O>(t.mem[m + k].1);
        }
        assert forall|k: int| #![trigger bs[k - 1]] 0 < k < bs.len() implies bs[k - 1].counter_range.1
            == bs[k].counter_range.0 by {
            assert(t.mem[m + k - 1].1.counter_range.1 == t.mem[m + k].1.counter_range.0);
        }
        if bs.len() > 1 {
            assert(bs[0].counter_range.1 == bs[1].counter_range.0) by {
                assert(bs[1 - 1].counter_range.1 == bs[1].counter_range.0);
            }
            assert(bs[0].counter_range.1 >= span.counter.start && bs[1].counter_range.0 < span.counter.end);
        }
        lemma_refs_follow::<O>(bs, span);
        assert forall|j: int, k: int| 0 <= j < k < r.len() implies ref_change::<O>(#[trigger] r[j]).id.counter
            < ref_change::<O>(#[trigger] r[k]).id.counter by {
            lemma_refs_ascend::<O>(r, j, k);
        }
    } else {
        assert(r =~= seq![]);
    }
    if log_has::<O>(log, span_start(span)) && span.counter.start < span.counter.end {
        let cov = covering::<O>(log, span_start(span));
        assert(covers::<O>(log, cov, span_start(span)));
        lemma_looked_at::<O>(s, t, span, cov);
        let kc = lemma_touched::<O>(s, t, span, cov);
        lemma_id_order();
        lemma_mem_entry::<O>(t, kc);
        lemma_between_contains::<O>(t.mem, span_lo(t.mem, span), hi, span.counter.start, kc);
        assert(bs.len() > 0);
        assert(touched_at::<O>(t, span, m));
        let first = t.mem[m].0;
        assert(log.contains_key(first) && log.contains_key(cov));
        assert(bs[0] == block_parsed::<O>(t.mem[m + 0].1));
        if m < kc {
            assert(id_order()(first, cov));
        }
    }
}

/// Iterating over a span takes the changes that are in it, and no others, but for those in blocks
/// that are before the ones that are looked at. There are none of these where the history of
/// the peer goes back to the start of the span.
pub proof fn lemma_span_takes<O: StorageFormat>(
    s: StoreView<O::V>,
    t: StoreView<O::V>,
    span: IdSpan,
    bid: ID,
    i: int,
)
    requires
        store_readable::<O>(s),
        loaded::<O>(start_read::<O>(s, span), t, span_keys(span)),
        has_change(log_of::<O>(s), span.peer, bid, i),
    ensures
        takes_change::<O>(t, span, bid, i) <==> in_span::<O>(log_of::<O>(s), span, bid, i) && looked_at(
            t,
            span,
            bid,
        ),
        goes_back(log_of::<O>(s), span) ==> (takes_change::<O>(t, span, bid, i) <==> in_span::<O>(
            log_of::<O>(s),
            span,
            bid,
            i,
        )),
        takes_change::<O>(t, span, bid, i) ==> block_changes::<O>(block_parsed::<O>(map_of(t.mem)[bid]))
            == log_of::<O>(s)[bid],
{
    let log = log_of::<O>(s);
    let m = lemma_span_range::<O>(s, t, span);
    lemma_span_loaded::<O>(s, t, span);
    let bs = span_blocks::<O>(t.mem, span);
    assert(log_block_valid::<O>(log, log_vv::<O>(log_of::<O>(s)), bid));
    let n = log[bid].len() - 1;
    assert(change_follows::<O>(log[bid], n));
    lemma_change_nonempty::<O>(log[bid][n]);
    if i < n {
        lemma_changes_order::<O>(log[bid], i, n);
    }
    if in_span::<O>(log, span, bid, i) && goes_back(log, span) {
        lemma_looked_at::<O>(s, t, span, bid);
    }
    if in_span::<O>(log, span, bid, i) && looked_at(t, span, bid) {
        let k = lemma_touched::<O>(s, t, span, bid);
        lemma_mem_entry::<O>(t, k);
        let b = t.mem[k].1;
        lemma_block_parsed::<O>(b);
        lemma_between_contains::<O>(t.mem, span_lo(t.mem, span), span_hi(t.mem, span), span.counter.start, k);
        lemma_block_refs::<O>(block_parsed::<O>(b), span, i);
        lemma_refs_contain::<O>(bs, span, block_parsed::<O>(b), (block_parsed::<O>(b), i));
    }
    if takes_change::<O>(t, span, bid, i) {
        lemma_id_order();
        let x = key_index(t.mem, bid);
        assert(t.mem[x].0 == bid);
        lemma_mem_entry::<O>(t, x);
        lemma_block_parsed::<O>(t.mem[x].1);
        let b = block_parsed::<O>(t.mem[x].1);
        lemma_refs_from::<O>(bs, span, (b, i));
        let k = choose|k: int| 0 <= k < bs.len() && bs[k] == b;
        assert(touched_at::<O>(t, span, m + k));
        lemma_block_parsed::<O>(t.mem[m + k].1);
        assert(t.mem[m + k].0 == bid);
        lemma_block_refs::<O>(b, span, i);
    }
}

/// Whether a list has the block `bid`.
pub open spec fn has_block<V>(bs: Seq<BlockView<V>>, bid: ID) -> bool {
    exists|k: int|
        0 <= k < bs.len() && bid == (ID { peer: (#[trigger] bs[k]).peer, counter: bs[k].counter_range.0 })
}

/// The blocks of a span are blocks of the log, with their changes in memory, and each of them
/// starts where the one before it ends. They are the blocks that the span touches, but for those
/// that are before the ones that are looked at; where the log has the start of the span, they
/// are the blocks of its peer that start before its end and end after its start.
pub proof fn lemma_span_blocks<O: StorageFormat>(s: StoreView<O::V>, t: StoreView<O::V>, span: IdSpan)
    requires
        store_readable::<O>(s),
        loaded::<O>(start_read::<O>(s, span), t, span_keys(span)),
    ensures
        ({
            let bs = span_blocks::<O>(t.mem, span);
            let log = log_of::<O>(s);
            &&& forall|k: int|
                0 <= k < bs.len() ==> is_block_of::<O>(log, span.peer, #[trigger] bs[k]) && block_valid::<O>(bs[k])
                    && bs[k].content !is Bytes
            &&& forall|k: int| #![trigger bs[k - 1]]
                0 < k < bs.len() ==> bs[k - 1].counter_range.1 == bs[k].counter_range.0
            &&& forall|bid: ID| #[trigger]
                has_block(bs, bid) <==> touches::<O>(log, span, bid) && looked_at(t, span, bid)
            &&& goes_back(log, span) ==> forall|bid: ID| #[trigger]
                has_block(bs, bid) <==> touches::<O>(log, span, bid)
            &&& log_has::<O>(log, span_start(span)) ==> forall|bid: ID| #[trigger]
                has_block(bs, bid) <==> log.contains_key(bid) && bid.peer == span.peer && bid.counter
                    < span.counter.end && block_end::<O>(log, bid) > span.counter.start
        }),
{
    let log = log_of::<O>(s);
    let m = lemma_span_range::<O>(s, t, span);
    lemma_span_loaded::<O>(s, t, span);
    let (lo, hi) = (span_lo(t.mem, span), span_hi(t.mem, span));
    let bs = span_blocks::<O>(t.mem, span);
    assert forall|k: int| 0 <= k < bs.len() implies is_block_of::<O>(log, span.peer, #[trigger] bs[k])
        && block_valid::<O>(bs[k]) && bs[k].content !is Bytes && t.mem[m + k].0 == (ID {
        peer: bs[k].peer,
        counter: bs[k].counter_range.0,
    }) by {
        assert(touched_at::<O>(t, span, m + k));
        lemma_mem_entry::<O>(t, m + k);
        lemma_block_parsed::<O>(t.mem[m + k].1);
    }
    assert forall|k: int| #![trigger bs[k - 1]] 0 < k < bs.len() implies bs[k - 1].counter_range.1
        == bs[k].counter_range.0 by {
        assert(t.mem[m + k - 1].1.counter_range.1 == t.mem[m + k].1.counter_range.0);
    }
    assert forall|bid: ID| #[trigger] has_block(bs, bid) <==> touches::<O>(log, span, bid) && looked_at(
        t,
        span,
        bid,
    ) by {
        if has_block(bs, bid) {
            let k = choose|k: int|
                0 <= k < bs.len() && bid == (ID { peer: (#[trigger] bs[k]).peer, counter: bs[k].counter_range.0 });
            assert(touched_at::<O>(t, span, m + k));
            assert(t.mem[m + k].0 == bid);
        }
        if touches::<O>(log, span, bid) && looked_at(t, span, bid) {
            let k = lemma_touched::<O>(s, t, span, bid);
            assert(m <= k);
            assert(bs[k - m].peer == bid.peer && bs[k - m].counter_range.0 == bid.counter) by {
                assert(t.mem[m + (k - m)].0 == bid);
            }
        }
    }
    if goes_back(log, span) {
        assert forall|bid: ID| touches::<O>(log, span, bid) implies #[trigger] has_block(bs, bid) by {
            lemma_looked_at::<O>(s, t, span, bid);
        }
    }
    if log_has::<O>(log, span_start(span)) {
        let cov = covering::<O>(log, span_start(span));
        assert(covers::<O>(log, cov, span_start(span)));
        assert(goes_back(log, span));
    }
}

/// The changes that iterating over a span finds.
pub open spec fn span_changes<O: StorageFormat>(t: StoreView<O::V>, span: IdSpan) -> Seq<ChangeView<O::V>> {
    span_refs::<O>(t, span).map_values(|r: (BlockView<O::V>, int)| ref_change::<O>(r))
}

/// Each change that a span takes is one of the log.
proof fn lemma_span_change_of_log<O: StorageFormat>(
    s: StoreView<O::V>,
    t: StoreView<O::V>,
    span: IdSpan,
    k: int,
) -> (r: (ID, int))
    requires
        store_readable::<O>(s),
        loaded::<O>(start_read::<O>(s, span), t, span_keys(span)),
        0 <= k < span_refs::<O>(t, span).len(),
    ensures
        has_change(log_of::<O>(s), span.peer, r.0, r.1),
        log_of::<O>(s)[r.0][r.1] == ref_change::<O>(span_refs::<O>(t, span)[k]),
        takes_change::<O>(t, span, r.0, r.1),
{
    let m = lemma_span_range::<O>(s, t, span);
    lemma_span_loaded::<O>(s, t, span);
    let bs = span_blocks::<O>(t.mem, span);
    let x = span_refs::<O>(t, span)[k];
    lemma_refs_from::<O>(bs, span, x);
    let j = choose|j: int| 0 <= j < bs.len() && bs[j] == x.0;
    assert(touched_at::<O>(t, span, m + j));
    lemma_mem_entry::<O>(t, m + j);
    lemma_block_parsed::<O>(t.mem[m + j].1);
    lemma_block_ends::<O>(x.0, span);
    (t.mem[m + j].0, x.1)
}

/// Two spans of stores with the same log take the same changes.
proof fn lemma_span_changes_within<O: StorageFormat>(
    s: StoreView<O::V>,
    t: StoreView<O::V>,
    u: StoreView<O::V>,
    v: StoreView<O::V>,
    span: IdSpan,
    k: int,
)
    requires
        store_readable::<O>(s),
        loaded::<O>(start_read::<O>(s, span), t, span_keys(span)),
        store_readable::<O>(u),
        loaded::<O>(start_read::<O>(u, span), v, span_keys(span)),
        log_of::<O>(s) == log_of::<O>(u),
        goes_back(log_of::<O>(s), span),
        0 <= k < span_changes::<O>(t, span).len(),
    ensures
        span_changes::<O>(v, span).contains(span_changes::<O>(t, span)[k]),
{
    let (bid, i) = lemma_span_change_of_log::<O>(s, t, span, k);
    lemma_span_takes::<O>(s, t, span, bid, i);
    lemma_span_takes::<O>(u, v, span, bid, i);
    let x = (block_parsed::<O>(map_of(v.mem)[bid]), i);
    let r = span_refs::<O>(v, span);
    let j = choose|j: int| 0 <= j < r.len() && r[j] == x;
    assert(span_changes::<O>(v, span)[j] == ref_change::<O>(x));
}

/// Two lists with the same changes, each in the order of their counters, are the same.
proof fn lemma_ascending_same<V>(a: Seq<ChangeView<V>>, b: Seq<ChangeView<V>>)
    requires
        forall|j: int, k: int|
            0 <= j < k < a.len() ==> (#[trigger] a[j]).id.counter < (#[trigger] a[k]).id.counter,
        forall|j: int, k: int|
            0 <= j < k < b.len() ==> (#[trigger] b[j]).id.counter < (#[trigger] b[k]).id.counter,
        forall|k: int| 0 <= k < a.len() ==> b.contains(#[trigger] a[k]),
        forall|k: int| 0 <= k < b.len() ==> a.contains(#[trigger] b[k]),
    ensures
        a == b,
    decreases a.len(),
{
    if a.len() == 0 {
        if b.len() > 0 {
            assert(a.contains(b[0]));
        }
        assert(a =~= b);
    } else {
        let (n, m) = (a.len() - 1, b.len() - 1);
        assert(b.contains(a[n]));
        let j = choose|j: int| 0 <= j < b.len() && b[j] == a[n];
        assert(a.contains(b[m]));
        let i = choose|i: int| 0 <= i < a.len() && a[i] == b[m];
        assert(a[n] == b[m]);
        let (x, y) = (a.drop_last(), b.drop_last());
        assert forall|k: int| 0 <= k < x.len() implies y.contains(#[trigger] x[k]) by {
            assert(b.contains(a[k]));
            let q = choose|q: int| 0 <= q < b.len() && b[q] == a[k];
            assert(a[k].id.counter < a[n].id.counter);
            assert(y[q] == x[k]);
        }
        assert forall|k: int| 0 <= k < y.len() implies x.contains(#[trigger] y[k]) by {
            assert(a.contains(b[k]));
            let q = choose|q: int| 0 <= q < a.len() && a[q] == b[k];
            assert(b[k].id.counter < b[m].id.counter);
            assert(x[q] == y[k]);
        }
        lemma_ascending_same(x, y);
        assert(a =~= x.push(a[n]));
        assert(b =~= y.push(b[m]));
    }
}

/// What iterating over a span finds depends on the log alone, where the history of the peer goes
/// back to the start of the span: which blocks are in memory, and which are only stored, makes
/// no difference.
pub proof fn lemma_span_changes_of_log<O: StorageFormat>(
    s: StoreView<O::V>,
    t: StoreView<O::V>,
    u: StoreView<O::V>,
    v: StoreView<O::V>,
    span: IdSpan,
)
    requires
        store_readable::<O>(s),
        loaded::<O>(start_read::<O>(s, span), t, span_keys(span)),
        store_readable::<O>(u),
        loaded::<O>(start_read::<O>(u, span), v, span_keys(span)),
        log_of::<O>(s) == log_of::<O>(u),
        goes_back(log_of::<O>(s), span),
    ensures
        span_changes::<O>(t, span) == span_changes::<O>(v, span),
{
    let (a, b) = (span_changes::<O>(t, span), span_changes::<O>(v, span));
    lemma_span_changes::<O>(s, t, span);
    lemma_span_changes::<O>(u, v, span);
    assert forall|k: int| 0 <= k < a.len() implies b.contains(#[trigger] a[k]) by {
        lemma_span_changes_within::<O>(s, t, u, v, span, k);
    }
    assert forall|k: int| 0 <= k < b.len() implies a.contains(#[trigger] b[k]) by {
        lemma_span_changes_within::<O>(u, v, s, t, span, k);
    }
    let (ra, rb) = (span_refs::<O>(t, span), span_refs::<O>(v, span));
    assert forall|j: int, k: int| 0 <= j < k < a.len() implies (#[trigger] a[j]).id.counter < (
    #[trigger] a[k]).id.counter by {
        assert(ref_change::<O>(ra[j]).id.counter < ref_change::<O>(ra[k]).id.counter);
    }
    assert forall|j: int, k: int| 0 <= j < k < b.len() implies (#[trigger] b[j]).id.counter < (
    #[trigger] b[k]).id.counter by {
        assert(ref_change::<O>(rb[j]).id.counter < ref_change::<O>(rb[k]).id.counter);
    }
    lemma_ascending_same(a, b);
}

} // verus!
