//! How a store is flushed, exported and read back.
use crate::block::{block_changes, block_stored, block_valid, bytes_valid, content_len, BlockView, ContentView};
use crate::block_map::{id_order, lemma_id_order};
use crate::change::lemma_changes_len;
use crate::format::StorageFormat;
use crate::ids::{id_bytes, lemma_id_bytes, Counter, PeerID, ID};
use crate::kv_store::{kv_storable, KvStore};
use crate::log::{log_changes, log_has};
use crate::read_view::{lemma_read_block, mem_change_num, read_of};
use crate::sorted::{has_key, key_index, lemma_map_of, map_of};
use crate::store_view::{
    known, kv_block_valid, lemma_mem_entry, log_of, mem_block_valid, store_flushable, store_valid, stored_vv, vv_key,
    StoreView,
};
use crate::version::vv_merged;
use vstd::prelude::*;

verus! {

/// Block `i` in memory is, in `t`, stored: it has been written where it was not.
pub open spec fn entry_flushed<O: StorageFormat>(s: StoreView<O::V>, t: StoreView<O::V>, i: int) -> bool {
    let (id, b) = s.mem[i];
    if block_stored(b) {
        t.mem[i] == s.mem[i]
    } else {
        &&& t.mem[i].1.content matches ContentView::Bytes(x)
        &&& t.mem[i] == (id, BlockView { flushed: true, content: ContentView::Bytes(x), ..b })
        &&& t.kv.contains_key(id_bytes(id))
        &&& t.kv[id_bytes(id)] == x.bytes
        &&& bytes_valid::<O>(x)
        &&& O::block_of(x.bytes) == Some(block_changes::<O>(b))
    }
}

/// Whether `key` is the one of a block among the first `n` in memory that was not stored.
pub open spec fn is_written<V>(s: StoreView<V>, n: int, key: Seq<u8>) -> bool {
    exists|i: int| 0 <= i < n && !block_stored((#[trigger] s.mem[i]).1) && key == id_bytes(s.mem[i].0)
}

/// `t` is the store `s` after the first `n` blocks in memory were flushed.
pub open spec fn flushed_to<O: StorageFormat>(s: StoreView<O::V>, t: StoreView<O::V>, n: int) -> bool {
    &&& t == (StoreView { mem: t.mem, kv: t.kv, ..s })
    &&& t.mem.len() == s.mem.len()
    &&& forall|i: int| 0 <= i < n ==> #[trigger] entry_flushed::<O>(s, t, i)
    &&& forall|i: int| n <= i < s.mem.len() ==> #[trigger] t.mem[i] == s.mem[i]
    &&& forall|key: Seq<u8>| #[trigger]
        t.kv.contains_key(key) == (s.kv.contains_key(key) || is_written(s, n, key))
    &&& forall|key: Seq<u8>| #[trigger] t.kv.contains_key(key) && !is_written(s, n, key) ==> t.kv[key] == s.kv[key]
}

/// The store with its version vector stored, to which that was added which was stored before.
pub open spec fn vv_flushed<O: StorageFormat>(u: StoreView<O::V>, vv: Map<PeerID, Counter>) -> StoreView<O::V> {
    StoreView { kv: u.kv.insert(vv_key(), O::vv_written(vv)), vv, ..u }
}

/// `t` is the store `s` after it was flushed: every block in memory is stored, and so is what
/// is known of each peer; nothing else has changed.
pub open spec fn flushed<O: StorageFormat>(s: StoreView<O::V>, t: StoreView<O::V>) -> bool {
    &&& stored_vv::<O>(t.kv) == Some(known::<O>(s))
    &&& exists|u: StoreView<O::V>| #[trigger]
        flushed_to::<O>(s, u, s.mem.len() as int) && t == vv_flushed::<O>(u, known::<O>(s))
}

/// Every block in memory is stored.
pub open spec fn all_stored<V>(s: StoreView<V>) -> bool {
    forall|i: int| 0 <= i < s.mem.len() ==> block_stored((#[trigger] s.mem[i]).1)
}

/// The store without the blocks that are in memory only.
pub open spec fn forgotten<V>(s: StoreView<V>) -> StoreView<V> {
    StoreView { mem: seq![], ..s }
}

/// The key of the version vector is not that of a block.
pub proof fn lemma_vv_key(id: ID)
    ensures
        id_bytes(id) != vv_key(),
{
    lemma_id_bytes(id);
}

/// Flushing goes on with a block that is written.
pub proof fn lemma_entry_written<O: StorageFormat>(
    s: StoreView<O::V>,
    t: StoreView<O::V>,
    u: StoreView<O::V>,
    i: int,
)
    requires
        store_flushable::<O>(s),
        flushed_to::<O>(s, t, i),
        0 <= i < s.mem.len(),
        !block_stored(s.mem[i].1),
        u.mem[i].1.content matches ContentView::Bytes(x) && {
            &&& u == (StoreView {
                mem: t.mem.update(
                    i,
                    (
                        s.mem[i].0,
                        BlockView { flushed: true, content: ContentView::Bytes(x), ..s.mem[i].1 },
                    ),
                ),
                kv: t.kv.insert(id_bytes(s.mem[i].0), x.bytes),
                ..t
            })
            &&& match s.mem[i].1.content {
                ContentView::Bytes(b) => x == b,
                ContentView::Both(_, b) => x == b,
                ContentView::Changes(c) => O::block_of(x.bytes) == Some(c) && bytes_valid::<O>(x),
            }
        },
    ensures
        flushed_to::<O>(s, u, i + 1),
{
    lemma_mem_entry::<O>(s, i);
    let id = s.mem[i].0;
    assert forall|key: Seq<u8>| is_written(s, i + 1, key) == (#[trigger] is_written(s, i, key) || key == id_bytes(
        id,
    )) by {
        if key == id_bytes(id) {
            assert(!block_stored(s.mem[i].1) && key == id_bytes(s.mem[i].0));
        }
        if is_written(s, i + 1, key) {
            let k = choose|k: int|
                0 <= k < i + 1 && !block_stored((#[trigger] s.mem[k]).1) && key == id_bytes(s.mem[k].0);
            if k < i {
                assert(is_written(s, i, key));
            }
        }
    }
    assert forall|k: int| 0 <= k < i + 1 implies #[trigger] entry_flushed::<O>(s, u, k) by {
        if k < i {
            assert(entry_flushed::<O>(s, t, k));
            lemma_mem_entry::<O>(s, k);
            lemma_id_bytes(s.mem[k].0);
            lemma_id_bytes(id);
            assert(id_order()(s.mem[k].0, s.mem[i].0));
        }
    }
    assert forall|key: Seq<u8>| #[trigger] u.kv.contains_key(key) == (s.kv.contains_key(key) || is_written(
        s,
        i + 1,
        key,
    )) by {
        assert(t.kv.contains_key(key) == (s.kv.contains_key(key) || is_written(s, i, key)));
    }
    assert forall|key: Seq<u8>| #[trigger] u.kv.contains_key(key) && !is_written(s, i + 1, key) implies u.kv[key]
        == s.kv[key] by {
        assert(!is_written(s, i, key));
        assert(t.kv.contains_key(key));
    }
}

/// Flushing goes on with a block that is stored.
pub proof fn lemma_entry_skipped<O: StorageFormat>(s: StoreView<O::V>, t: StoreView<O::V>, i: int)
    requires
        flushed_to::<O>(s, t, i),
        0 <= i < s.mem.len(),
        block_stored(s.mem[i].1),
    ensures
        flushed_to::<O>(s, t, i + 1),
{
    assert forall|key: Seq<u8>| is_written(s, i + 1, key) == #[trigger] is_written(s, i, key) by {
        if is_written(s, i + 1, key) {
            let k = choose|k: int|
                0 <= k < i + 1 && !block_stored((#[trigger] s.mem[k]).1) && key == id_bytes(s.mem[k].0);
            assert(k < i);
        }
    }
    assert(t.mem[i] == s.mem[i]);
    assert forall|k: int| 0 <= k < i + 1 implies #[trigger] entry_flushed::<O>(s, t, k) by {
    }
    assert forall|key: Seq<u8>| #[trigger] t.kv.contains_key(key) == (s.kv.contains_key(key) || is_written(
        s,
        i + 1,
        key,
    )) by {
        assert(is_written(s, i + 1, key) == is_written(s, i, key));
    }
    assert forall|key: Seq<u8>| #[trigger] t.kv.contains_key(key) && !is_written(s, i + 1, key) implies t.kv[key]
        == s.kv[key] by {
        assert(is_written(s, i + 1, key) == is_written(s, i, key));
    }
}

/// Flushing blocks leaves the version vector that is stored.
pub proof fn lemma_flushed_vv<O: StorageFormat>(s: StoreView<O::V>, u: StoreView<O::V>)
    requires
        store_flushable::<O>(s),
        flushed_to::<O>(s, u, s.mem.len() as int),
    ensures
        u.kv.contains_key(vv_key()) == s.kv.contains_key(vv_key()),
        u.kv.contains_key(vv_key()) ==> u.kv[vv_key()] == s.kv[vv_key()],
{
    if is_written(s, s.mem.len() as int, vv_key()) {
        let k = choose|k: int|
            0 <= k < s.mem.len() && !block_stored((#[trigger] s.mem[k]).1) && vv_key() == id_bytes(s.mem[k].0);
        lemma_vv_key(s.mem[k].0);
    }
    assert(u.kv.contains_key(vv_key()) == s.kv.contains_key(vv_key()));
}

/// Flushing keeps the store valid and its log the same, and leaves every block in memory
/// stored.
pub proof fn lemma_flushed<O: StorageFormat>(s: StoreView<O::V>, t: StoreView<O::V>)
    requires
        store_flushable::<O>(s),
        flushed::<O>(s, t),
    ensures
        store_flushable::<O>(t),
        store_valid::<O>(s) ==> store_valid::<O>(t),
        log_of::<O>(t) == log_of::<O>(s),
        all_stored(t),
        t.vv == known::<O>(s),
        known::<O>(t) == known::<O>(s),
        t.mem.len() == s.mem.len(),
        forall|i: int|
            0 <= i < s.mem.len() ==> (#[trigger] t.mem[i]).0 == s.mem[i].0 && block_changes::<O>(t.mem[i].1)
                == block_changes::<O>(s.mem[i].1),
        forall|key: Seq<u8>| #[trigger] s.kv.contains_key(key) ==> t.kv.contains_key(key),
{
    let n = s.mem.len() as int;
    let u = choose|u: StoreView<O::V>| #[trigger]
        flushed_to::<O>(s, u, n) && t == vv_flushed::<O>(u, known::<O>(s));
    lemma_id_order();
    assert(vv_merged(known::<O>(s), known::<O>(s)) =~= known::<O>(s));
    assert forall|i: int| 0 <= i < n implies #[trigger] mem_block_valid::<O>(t, i) && block_stored(t.mem[i].1)
        && t.mem[i].0 == s.mem[i].0 && block_changes::<O>(t.mem[i].1) == block_changes::<O>(s.mem[i].1)
        && t.mem[i].1.lamport_range == s.mem[i].1.lamport_range by {
        lemma_mem_entry::<O>(s, i);
        assert(entry_flushed::<O>(s, u, i));
        let id = s.mem[i].0;
        lemma_vv_key(id);
        if block_stored(s.mem[i].1) {
            if is_written(s, n, id_bytes(id)) {
                let k = choose|k: int|
                    0 <= k < n && !block_stored((#[trigger] s.mem[k]).1) && id_bytes(id) == id_bytes(s.mem[k].0);
                lemma_id_bytes(id);
                lemma_id_bytes(s.mem[k].0);
                lemma_mem_entry::<O>(s, k);
            }
        }
        assert(u.kv.contains_key(id_bytes(id)));
    }
    assert forall|i: int, j: int| 0 <= i < j < t.mem.len() implies id_order()(
        (#[trigger] t.mem[i]).0,
        (#[trigger] t.mem[j]).0,
    ) by {
        assert(mem_block_valid::<O>(t, i) && mem_block_valid::<O>(t, j));
        assert(id_order()(s.mem[i].0, s.mem[j].0));
    }
    assert forall|id: ID| map_of(s.mem).contains_key(id) == #[trigger] map_of(t.mem).contains_key(id) && (map_of(
        t.mem,
    ).contains_key(id) ==> block_changes::<O>(map_of(t.mem)[id]) == block_changes::<O>(map_of(s.mem)[id])
        && t.kv.contains_key(id_bytes(id)) && O::block_of(t.kv[id_bytes(id)]) == Some(
        block_changes::<O>(map_of(s.mem)[id]),
    )) by {
        if has_key(s.mem, id) {
            let i = key_index(s.mem, id);
            assert(s.mem[i].0 == id);
            assert(mem_block_valid::<O>(t, i));
            assert(t.mem[i].0 == id);
        }
        if has_key(t.mem, id) {
            let i = key_index(t.mem, id);
            assert(t.mem[i].0 == id);
            assert(mem_block_valid::<O>(t, i));
            assert(s.mem[i].0 == id);
            lemma_map_of(id_order(), t.mem, i);
            lemma_map_of(id_order(), s.mem, i);
        }
    }
    assert forall|id: ID| !map_of(s.mem).contains_key(id) implies t.kv.contains_key(#[trigger] id_bytes(id))
        == s.kv.contains_key(id_bytes(id)) && (s.kv.contains_key(id_bytes(id)) ==> t.kv[id_bytes(id)]
        == s.kv[id_bytes(id)]) by {
        lemma_vv_key(id);
        if is_written(s, n, id_bytes(id)) {
            let k = choose|k: int|
                0 <= k < n && !block_stored((#[trigger] s.mem[k]).1) && id_bytes(id) == id_bytes(s.mem[k].0);
            lemma_id_bytes(id);
            lemma_id_bytes(s.mem[k].0);
            assert(s.mem[k].0 == id);
        }
        assert(t.kv.contains_key(id_bytes(id)) == u.kv.contains_key(id_bytes(id)));
    }
    assert(log_of::<O>(t) =~= log_of::<O>(s));
    assert forall|bid: ID| t.kv.contains_key(id_bytes(bid)) implies #[trigger] kv_block_valid::<O>(t.kv, bid) by {
        if map_of(s.mem).contains_key(bid) {
            let i = key_index(s.mem, bid);
            assert(s.mem[i].0 == bid);
            lemma_mem_entry::<O>(s, i);
        } else {
            assert(kv_block_valid::<O>(s.kv, bid));
        }
    }
    assert forall|i: int| 0 <= i < t.mem.len() implies block_stored((#[trigger] t.mem[i]).1) && t.mem[i].0
        == s.mem[i].0 && block_changes::<O>(t.mem[i].1) == block_changes::<O>(s.mem[i].1) by {
        assert(mem_block_valid::<O>(t, i));
    }
    assert forall|key: Seq<u8>| #[trigger] s.kv.contains_key(key) implies t.kv.contains_key(key) by {
        assert(u.kv.contains_key(key));
    }
}

/// Flushing a store that has just been flushed changes nothing: no block in memory, no key, no
/// bytes, and nothing of what is known.
pub proof fn lemma_flush_again<O: StorageFormat>(s: StoreView<O::V>, t: StoreView<O::V>, u: StoreView<O::V>)
    requires
        store_flushable::<O>(s),
        flushed::<O>(s, t),
        flushed::<O>(t, u),
    ensures
        u == t,
{
    lemma_flushed::<O>(s, t);
    let n = t.mem.len() as int;
    let v = choose|v: StoreView<O::V>| #[trigger]
        flushed_to::<O>(s, v, s.mem.len() as int) && t == vv_flushed::<O>(v, known::<O>(s));
    assert(t.kv.contains_key(vv_key()) && t.kv[vv_key()] == O::vv_written(known::<O>(s)));
    let w = choose|w: StoreView<O::V>| #[trigger] flushed_to::<O>(t, w, n) && u == vv_flushed::<O>(w, known::<O>(t));
    assert forall|key: Seq<u8>| !#[trigger] is_written(t, n, key) by {
        if is_written(t, n, key) {
            let k = choose|k: int| 0 <= k < n && !block_stored((#[trigger] t.mem[k]).1) && key == id_bytes(t.mem[k].0);
            assert(block_stored(t.mem[k].1));
        }
    }
    assert forall|i: int| 0 <= i < n implies w.mem[i] == #[trigger] t.mem[i] by {
        assert(entry_flushed::<O>(t, w, i));
    }
    assert(w.mem =~= t.mem);
    assert forall|key: Seq<u8>|
        #![trigger w.kv.dom().contains(key)]
        #![trigger w.kv[key]]
        w.kv.dom().contains(key) == t.kv.dom().contains(key) && (t.kv.dom().contains(key) ==> w.kv[key]
            == t.kv[key]) by {
        assert(w.kv.contains_key(key) == (t.kv.contains_key(key) || is_written(t, n, key)));
    }
    assert(w.kv =~= t.kv);
    assert(t.kv.insert(vv_key(), O::vv_written(known::<O>(s))) =~= t.kv);
}

/// Flushing keeps the number of changes in memory, and what is read of each block: so every
/// lookup finds the change that it found before, or none, as before.
pub proof fn lemma_flush_keeps_reads<O: StorageFormat>(s: StoreView<O::V>, t: StoreView<O::V>)
    requires
        store_flushable::<O>(s),
        flushed::<O>(s, t),
    ensures
        mem_change_num::<O>(t.mem, t.mem.len() as int) == mem_change_num::<O>(s.mem, s.mem.len() as int),
        log_of::<O>(t) == log_of::<O>(s),
        forall|id: ID| #[trigger] log_has::<O>(log_of::<O>(t), id) == log_has::<O>(log_of::<O>(s), id),
        forall|bid: ID| #[trigger]
            log_of::<O>(s).contains_key(bid) ==> block_changes::<O>(read_of::<O>(t, bid)) == block_changes::<O>(
                read_of::<O>(s, bid),
            ),
{
    lemma_flushed::<O>(s, t);
    lemma_flush_keeps_num::<O>(s, t, s.mem.len() as int);
    assert forall|bid: ID| #[trigger] log_of::<O>(s).contains_key(bid) implies block_changes::<O>(
        read_of::<O>(t, bid),
    ) == block_changes::<O>(read_of::<O>(s, bid)) by {
        lemma_read_block::<O>(s, bid);
        lemma_read_block::<O>(t, bid);
    }
}

/// Flushing keeps the number of changes of the first `n` blocks in memory.
proof fn lemma_flush_keeps_num<O: StorageFormat>(s: StoreView<O::V>, t: StoreView<O::V>, n: int)
    requires
        store_flushable::<O>(s),
        store_flushable::<O>(t),
        0 <= n <= s.mem.len(),
        t.mem.len() == s.mem.len(),
        forall|i: int|
            0 <= i < s.mem.len() ==> (#[trigger] t.mem[i]).0 == s.mem[i].0 && block_changes::<O>(t.mem[i].1)
                == block_changes::<O>(s.mem[i].1),
    ensures
        mem_change_num::<O>(t.mem, n) == mem_change_num::<O>(s.mem, n),
    decreases n,
{
    if n > 0 {
        lemma_flush_keeps_num::<O>(s, t, n - 1);
        assert(t.mem[n - 1].0 == s.mem[n - 1].0);
        assert(mem_block_valid::<O>(s, n - 1));
        assert(mem_block_valid::<O>(t, n - 1));
        lemma_content_len::<O>(s.mem[n - 1].1);
        lemma_content_len::<O>(t.mem[n - 1].1);
    }
}

/// The number of changes of a block is that of its changes, wherever it is read.
proof fn lemma_content_len<O: StorageFormat>(b: BlockView<O::V>)
    requires
        block_valid::<O>(b),
    ensures
        content_len::<O>(b.content) == block_changes::<O>(b).len(),
{
    lemma_changes_len::<O>(block_changes::<O>(b));
    if let ContentView::Bytes(x) = b.content {
        O::lemma_header(x.bytes, block_changes::<O>(b));
    }
}


/// Where every block in memory is stored, nothing is lost with the memory.
pub proof fn lemma_forgotten<O: StorageFormat>(s: StoreView<O::V>)
    requires
        store_flushable::<O>(s),
        all_stored(s),
    ensures
        store_flushable::<O>(forgotten(s)),
        store_valid::<O>(s) ==> store_valid::<O>(forgotten(s)),
        log_of::<O>(forgotten(s)) == log_of::<O>(s),
{
    let t = forgotten(s);
    let (a, b) = (log_of::<O>(s), log_of::<O>(t));
    lemma_id_order();
    assert forall|id: ID|
        #![trigger a.dom().contains(id)]
        #![trigger a[id]]
        a.dom().contains(id) == b.dom().contains(id) && (a.dom().contains(id) ==> a[id] == b[id]) by {
        if map_of(s.mem).contains_key(id) {
            let i = key_index(s.mem, id);
            assert(s.mem[i].0 == id);
            lemma_mem_entry::<O>(s, i);
            assert(block_stored(s.mem[i].1));
        }
    }
    assert(a =~= b);
}

/// The bytes of the version vector that is stored, or no bytes where none is.
pub open spec fn vv_bytes(kv: Map<Seq<u8>, Seq<u8>>) -> Seq<u8> {
    if kv.contains_key(vv_key()) {
        kv[vv_key()]
    } else {
        seq![]
    }
}

/// The store after the given entries were imported into its key-value store.
pub open spec fn decoded<O: StorageFormat>(s: StoreView<O::V>, m: Map<Seq<u8>, Seq<u8>>) -> StoreView<O::V> {
    let kv = s.kv.union_prefer_right(m);
    StoreView { kv, vv: O::vv_of(vv_bytes(kv))->0, ..s }
}

/// If the bytes are imported, the version vector that is stored then can be read.
pub open spec fn decodable<O: StorageFormat, K: KvStore>(kv: Map<Seq<u8>, Seq<u8>>, bytes: Seq<u8>) -> bool {
    K::imported(bytes) matches Ok(m) ==> O::vv_of(vv_bytes(kv.union_prefer_right(m))) is Some
}

/// What a store was encoded to, an empty store decodes: it then has the same stored entries,
/// the same version vector and the same log, and so the same changes in the same order.
pub proof fn lemma_encode_decode<O: StorageFormat, K: KvStore>(
    s: StoreView<O::V>,
    t: StoreView<O::V>,
    fresh: StoreView<O::V>,
)
    requires
        store_flushable::<O>(s),
        flushed::<O>(s, t),
        kv_storable(t.kv),
        fresh.mem == Seq::<(ID, BlockView<O::V>)>::empty(),
        fresh.kv == Map::<Seq<u8>, Seq<u8>>::empty(),
    ensures
        K::imported(K::exported(t.kv)) == Ok::<Map<Seq<u8>, Seq<u8>>, Seq<char>>(t.kv),
        decodable::<O, K>(fresh.kv, K::exported(t.kv)),
        decoded::<O>(fresh, t.kv).kv == t.kv,
        decoded::<O>(fresh, t.kv).vv == known::<O>(s),
        decoded::<O>(fresh, t.kv).vv == t.vv,
        log_of::<O>(decoded::<O>(fresh, t.kv)) == log_of::<O>(s),
        log_changes(log_of::<O>(decoded::<O>(fresh, t.kv))) == log_changes(log_of::<O>(s)),
        store_flushable::<O>(decoded::<O>(fresh, t.kv)),
        store_valid::<O>(s) ==> store_valid::<O>(decoded::<O>(fresh, t.kv)),
{
    K::lemma_import_exported(t.kv);
    assert(fresh.kv.union_prefer_right(t.kv) =~= t.kv);
    lemma_flushed::<O>(s, t);
    lemma_forgotten::<O>(t);
    let d = decoded::<O>(fresh, t.kv);
    let f = forgotten(t);
    assert(log_of::<O>(d) =~= log_of::<O>(f));
    assert(vv_merged(known::<O>(s), known::<O>(s)) =~= known::<O>(s));
}

/// A fork of a store whose blocks in memory are all stored can be read and flushed, is valid if the
/// store is, and has the same log.
pub proof fn lemma_fork<O: StorageFormat>(s: StoreView<O::V>, merge_interval: i64)
    requires
        store_flushable::<O>(s),
        all_stored(s),
    ensures
        store_flushable::<O>(StoreView { merge_interval, ..forgotten(s) }),
        store_valid::<O>(s) ==> store_valid::<O>(StoreView { merge_interval, ..forgotten(s) }),
        log_of::<O>(StoreView { merge_interval, ..forgotten(s) }) == log_of::<O>(s),
{
    lemma_forgotten::<O>(s);
    let f = forgotten(s);
    let t = StoreView { merge_interval, ..f };
    assert(log_of::<O>(t) =~= log_of::<O>(f));
}

} // verus!
