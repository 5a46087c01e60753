//! What flushing, decoding and forking come to.
use crate::block::{block_changes, block_stored, BlockView};
use crate::flush_view::{decodable, decoded, entry_flushed, flushed, flushed_to, is_written, lemma_flushed, vv_flushed};
use crate::format::StorageFormat;
use crate::ids::{id_bytes, key_before, lemma_key_order, lemma_key_order_trans, PeerID, ID};
use crate::kv_store::{
    key_order, kv_bytes, kv_storable, lemma_key_order_is_order, lemma_kv_bytes, listing_fits, listing_size, lists,
    KvStore,
};
use crate::sorted::{has_key, key_index, keys_grow, lemma_found_at, lemma_put_at, map_of, put_at};
use crate::store_view::{known, kv_block_valid, lemma_mem_entry, log_of, store_flushable, vv_key, StoreView};
use vstd::prelude::*;

verus! {

/// What decoding entries does, whatever the store held before. Each entry is stored under its key,
/// in place of what was there, and nothing else that is stored changes. The store then knows what
/// the version vector says that is stored under `vv`: the decoded one, if there is one. What is in
/// memory stays.
pub proof fn lemma_decode_result<O: StorageFormat>(s: StoreView<O::V>, m: Map<Seq<u8>, Seq<u8>>)
    ensures
        ({
            let t = decoded::<O>(s, m);
            let key = seq![118u8, 118u8];
            &&& forall|k: Seq<u8>| #[trigger] t.kv.contains_key(k) <==> m.contains_key(k) || s.kv.contains_key(k)
            &&& forall|k: Seq<u8>| #[trigger] m.contains_key(k) ==> t.kv[k] == m[k]
            &&& forall|k: Seq<u8>| #[trigger] s.kv.contains_key(k) && !m.contains_key(k) ==> t.kv[k] == s.kv[k]
            &&& m.contains_key(key) && O::vv_of(m[key]) is Some ==> O::vv_of(m[key]) == Some(t.vv)
            &&& !m.contains_key(key) && s.kv.contains_key(key) && O::vv_of(s.kv[key]) is Some ==> O::vv_of(s.kv[key])
                == Some(t.vv)
            &&& !m.contains_key(key) && !s.kv.contains_key(key) && O::vv_of(seq![]) is Some ==> O::vv_of(seq![])
                == Some(t.vv)
            &&& t.mem == s.mem
            &&& t.start_vv == s.start_vv
            &&& t.start_frontiers == s.start_frontiers
            &&& t.merge_interval == s.merge_interval
        }),
{
    assert(seq![118u8, 118u8] =~= vv_key());
}

/// Which bytes can be decoded: those that are refused, and those whose entries leave a version vector
/// stored that can be read, or none where no bytes at all can be read as one.
pub proof fn lemma_decodable_means<O: StorageFormat, K: KvStore>(kv: Map<Seq<u8>, Seq<u8>>, bytes: Seq<u8>)
    ensures
        decodable::<O, K>(kv, bytes) == (match K::imported(bytes) {
            Err(_) => true,
            Ok(m) => {
                let key = seq![118u8, 118u8];
                if m.contains_key(key) {
                    O::vv_of(m[key]) is Some
                } else if kv.contains_key(key) {
                    O::vv_of(kv[key]) is Some
                } else {
                    O::vv_of(seq![]) is Some
                }
            },
        }),
{
    assert(seq![118u8, 118u8] =~= vv_key());
}

/// A store that decodes what another was encoded to knows what that one knows, and has its blocks,
/// whatever it held before, but for blocks that it has in memory.
pub proof fn lemma_decode_flushed<O: StorageFormat, K: KvStore>(
    a: StoreView<O::V>,
    b: StoreView<O::V>,
    s: StoreView<O::V>,
)
    requires
        store_flushable::<O>(a),
        flushed::<O>(a, b),
        kv_storable(b.kv),
    ensures
        K::imported(K::exported(b.kv)) == Ok::<Map<Seq<u8>, Seq<u8>>, Seq<char>>(b.kv),
        decodable::<O, K>(s.kv, K::exported(b.kv)),
        decoded::<O>(s, b.kv).vv == b.vv,
        forall|bid: ID| #[trigger]
            log_of::<O>(a).contains_key(bid) ==> log_of::<O>(decoded::<O>(s, b.kv)).contains_key(bid),
        forall|bid: ID| #[trigger]
            log_of::<O>(a).contains_key(bid) && (forall|k: int| 0 <= k < s.mem.len() ==> (#[trigger] s.mem[k]).0 != bid)
                ==> log_of::<O>(decoded::<O>(s, b.kv))[bid] == log_of::<O>(a)[bid],
{
    lemma_flushed::<O>(a, b);
    K::lemma_import_exported(b.kv);
    let t = decoded::<O>(s, b.kv);
    assert(t.kv.contains_key(vv_key()) && t.kv[vv_key()] == b.kv[vv_key()]);
    assert forall|bid: ID| #[trigger] log_of::<O>(a).contains_key(bid) implies b.kv.contains_key(id_bytes(bid))
        && O::block_of(b.kv[id_bytes(bid)]) == Some(log_of::<O>(a)[bid]) by {
        lemma_all_in_kv::<O>(a, b, bid);
    }
}

/// Every block of the log of a store is stored once that was flushed.
proof fn lemma_all_in_kv<O: StorageFormat>(a: StoreView<O::V>, b: StoreView<O::V>, bid: ID)
    requires
        store_flushable::<O>(a),
        flushed::<O>(a, b),
        log_of::<O>(a).contains_key(bid),
    ensures
        b.kv.contains_key(id_bytes(bid)),
        O::block_of(b.kv[id_bytes(bid)]) == Some(log_of::<O>(a)[bid]),
{
    lemma_flushed::<O>(a, b);
    assert(log_of::<O>(b).contains_key(bid));
    if map_of(b.mem).contains_key(bid) {
        let i = key_index(b.mem, bid);
        assert(b.mem[i].0 == bid);
        lemma_mem_entry::<O>(b, i);
        assert(block_stored(b.mem[i].1));
    } else {
        assert(kv_block_valid::<O>(b.kv, bid));
    }
}

/// What flushing does. Each block in memory is stored with all its changes, and is marked so; but for
/// how its changes are held it stays as it was. The store knows, of each peer, what it or the stored
/// version vector knew, whichever is more, and that is stored under `vv`. Nothing else changes.
pub proof fn lemma_flush_result<O: StorageFormat>(s: StoreView<O::V>, t: StoreView<O::V>)
    requires
        store_flushable::<O>(s),
        flushed::<O>(s, t),
    ensures
        t.mem.len() == s.mem.len(),
        forall|i: int|
            0 <= i < s.mem.len() ==> {
                let (id, b) = #[trigger] s.mem[i];
                &&& t.mem[i] == (id, BlockView { content: t.mem[i].1.content, flushed: true, ..b })
                &&& block_changes::<O>(t.mem[i].1) == block_changes::<O>(b)
                &&& t.kv.contains_key(id_bytes(id))
                &&& O::block_of(t.kv[id_bytes(id)]) == Some(block_changes::<O>(b))
            },
        forall|key: Seq<u8>|
            key != seq![118u8, 118u8] && (forall|i: int|
                0 <= i < s.mem.len() ==> key != id_bytes((#[trigger] s.mem[i]).0)) ==> #[trigger] t.kv.contains_key(key)
                == s.kv.contains_key(key) && (s.kv.contains_key(key) ==> t.kv[key] == s.kv[key]),
        t.kv.contains_key(seq![118u8, 118u8]),
        O::vv_of(t.kv[seq![118u8, 118u8]]) == Some(t.vv),
        ({
            let has = s.kv.contains_key(seq![118u8, 118u8]);
            let stored = O::vv_of(s.kv[seq![118u8, 118u8]])->0;
            forall|p: PeerID|
                #![trigger t.vv.contains_key(p)]
                {
                    &&& t.vv.contains_key(p) <==> s.vv.contains_key(p) || (has && stored.contains_key(p))
                    &&& s.vv.contains_key(p) ==> t.vv[p] >= s.vv[p]
                    &&& has && stored.contains_key(p) ==> t.vv[p] >= stored[p]
                    &&& t.vv.contains_key(p) ==> (s.vv.contains_key(p) && t.vv[p] == s.vv[p]) || (has
                        && stored.contains_key(p) && t.vv[p] == stored[p])
                }
        }),
        t.start_vv == s.start_vv,
        t.start_frontiers == s.start_frontiers,
        t.merge_interval == s.merge_interval,
{
    lemma_flushed::<O>(s, t);
    assert(seq![118u8, 118u8] =~= vv_key());
    let n = s.mem.len() as int;
    let u = choose|u: StoreView<O::V>| #[trigger]
        flushed_to::<O>(s, u, n) && t == vv_flushed::<O>(u, known::<O>(s));
    assert forall|i: int| 0 <= i < s.mem.len() implies {
        let (id, b) = #[trigger] s.mem[i];
        &&& t.mem[i] == (id, BlockView { content: t.mem[i].1.content, flushed: true, ..b })
        &&& block_changes::<O>(t.mem[i].1) == block_changes::<O>(b)
        &&& t.kv.contains_key(id_bytes(id))
        &&& O::block_of(t.kv[id_bytes(id)]) == Some(block_changes::<O>(b))
    } by {
        assert(entry_flushed::<O>(s, u, i));
        lemma_mem_entry::<O>(s, i);
        lemma_all_in_kv::<O>(s, t, s.mem[i].0);
        assert(block_stored(t.mem[i].1));
    }
    assert forall|key: Seq<u8>|
        key != seq![118u8, 118u8] && (forall|i: int|
            0 <= i < s.mem.len() ==> key != id_bytes((#[trigger] s.mem[i]).0)) implies #[trigger] t.kv.contains_key(key)
        == s.kv.contains_key(key) && (s.kv.contains_key(key) ==> t.kv[key] == s.kv[key]) by {
        assert(!is_written(s, n, key));
        assert(u.kv.contains_key(key) == s.kv.contains_key(key));
    }
}

/// No entries take no bytes.
pub proof fn lemma_kv_bytes_empty()
    ensures
        kv_bytes(Map::<Seq<u8>, Seq<u8>>::empty()) == 0,
{
    let xs = Seq::<(Seq<u8>, Seq<u8>)>::empty();
    assert(map_of(xs) =~= Map::<Seq<u8>, Seq<u8>>::empty());
    assert(lists(xs, Map::<Seq<u8>, Seq<u8>>::empty()));
    lemma_kv_bytes(xs, Map::<Seq<u8>, Seq<u8>>::empty());
}

/// One entry more takes the bytes of its key and of its value more.
pub proof fn lemma_kv_bytes_insert(m: Map<Seq<u8>, Seq<u8>>, key: Seq<u8>, value: Seq<u8>)
    requires
        kv_storable(m),
        !m.contains_key(key),
    ensures
        kv_bytes(m.insert(key, value)) == kv_bytes(m) + key.len() + value.len(),
{
    lemma_key_order_is_order();
    let xs = choose|xs: Seq<(Seq<u8>, Seq<u8>)>| #[trigger] lists(xs, m) && listing_fits(xs);
    let i = lemma_key_place(xs, key, xs.len() as int);
    lemma_found_at(key_order(), xs, i, key);
    let ys = put_at(xs, i, key, value);
    lemma_put_at(key_order(), xs, i, key, value);
    assert(map_of(ys) =~= m.insert(key, value));
    lemma_kv_bytes(xs, m);
    lemma_kv_bytes(ys, m.insert(key, value));
    lemma_size_inserted(xs, i, (key, value), xs.len() as int);
}

/// A key has a place among the first `n` entries.
proof fn lemma_key_place(xs: Seq<(Seq<u8>, Seq<u8>)>, key: Seq<u8>, n: int) -> (i: int)
    requires
        keys_grow(key_order(), xs),
        !has_key(xs, key),
        0 <= n <= xs.len(),
    ensures
        0 <= i <= n,
        forall|j: int| 0 <= j < i ==> key_order()((#[trigger] xs[j]).0, key),
        forall|j: int| i <= j < n ==> key_order()(key, (#[trigger] xs[j]).0),
    decreases n,
{
    if n == 0 {
        0
    } else {
        let i = lemma_key_place(xs, key, n - 1);
        let last = xs[n - 1].0;
        lemma_key_order(last, key);
        if key_before(last, key) {
            assert forall|j: int| 0 <= j < n implies key_order()((#[trigger] xs[j]).0, key) by {
                if j < n - 1 {
                    assert(key_order()(xs[j].0, last));
                    lemma_key_order_trans(xs[j].0, last, key);
                }
            }
            n
        } else {
            assert(last != key);
            i
        }
    }
}

/// What the first entries take when one is put in between.
proof fn lemma_size_inserted(xs: Seq<(Seq<u8>, Seq<u8>)>, i: int, e: (Seq<u8>, Seq<u8>), n: int)
    requires
        0 <= i <= xs.len(),
        0 <= n <= xs.len(),
    ensures
        n < i ==> listing_size(xs.insert(i, e), n) == listing_size(xs, n),
        i <= n ==> listing_size(xs.insert(i, e), n + 1) == listing_size(xs, n) + e.0.len() + e.1.len(),
    decreases n,
{
    let ys = xs.insert(i, e);
    if n < i {
        if n > 0 {
            lemma_size_inserted(xs, i, e, n - 1);
        }
    } else if n > i {
        lemma_size_inserted(xs, i, e, n - 1);
        assert(ys[n] == xs[n - 1]);
    } else {
        if n > 0 {
            lemma_size_inserted(xs, i, e, n - 1);
            assert(ys[n - 1] == xs[n - 1]);
        }
        assert(ys[n] == e);
        assert(listing_size(ys, n) == listing_size(xs, n));
    }
}

} // verus!
