//! The change store.
use crate::block::{
    block_changes, block_parsed, block_valid, ops_view, BlockView, ChangesBlock, ChangesBlockBytes, MAX_BLOCK_SIZE,
};
use crate::block_map::{id_order, lemma_has_place, lemma_id_order, place, BlockMap};
use crate::block_ref::{refers_to_change, BlockChangeRef};
use crate::change::{
    change_atoms, change_covers, change_follows, change_len, change_valid, changes_valid, changes_view, is_history,
    lamports_ordered, lemma_changes_atoms_len, same_changes, Change, ChangeView, Frontiers,
};
use crate::flush_view::{
    all_stored, decodable, decoded, flushed, flushed_to, forgotten, lemma_entry_skipped, lemma_entry_written,
    lemma_flushed, lemma_flushed_vv, vv_bytes, vv_flushed,
};
use crate::format::{LoroError, LoroResult, StorageFormat};
use crate::ids::{
    id_bytes, id_of_bytes, key_before, lemma_bytes_id, lemma_id_bytes, lemma_id_bytes_order, lemma_key_order, Counter,
    IdLp, IdSpan, Lamport, PeerID, ID,
};
use crate::insert_laws::lemma_insert_change;
use crate::kv_store::{
    key_order, kv_bytes, kv_range, kv_storable, lemma_key_order_is_order, lemma_kv_bytes, listing, listing_size, lists,
    KeyBound, KvStore, MemKvStore,
};
use crate::log::{
    atoms_of, concat_changes, covering, covers, log_atoms, log_block_valid, log_changes, log_has, log_lamports_valid,
};
use crate::log_validity::{
    blocks_stand, blocks_valid, is_log, kv_valid, lists_stored, log_ends, names, names_blocks, names_end, stored_end,
};
use crate::op::{lemma_ops_from_valid, ops_atoms, Operation, RleVec};
use crate::outside::{arc_make_mut, bytes_as_slice, bytes_clone, bytes_contents, bytes_from_vec, bytes_len};
use crate::read_laws::{clocks_grow, holds, lemma_latest_result, lemma_lookup_result, lemma_visit_result, visits_each};
use crate::read_view::{
    any_key, between, block_refs, blocks_between, blocks_refs, cached, has_change, is_block_of, is_latest_by,
    later_after, lemma_block_parsed, lemma_change_covers, lemma_change_index, lemma_kv_covers, lemma_latest, lemma_load,
    lemma_loaded, lemma_mem_between, lemma_mem_change_num, lemma_mem_covers, lemma_mem_listing, lemma_none_by,
    lemma_read_block, lemma_stored_block, load, loaded, loaded_map, mem_between, mem_change_num, mem_listing, none_by,
    pred_counter, read_block, read_of, span_blocks, span_ends, span_hi, span_keys, span_lo, span_loaded, span_mem,
    span_start, start_read,
};
use crate::sorted::{is_order, key_index, keys_grow, lemma_map_of, lemma_put_at, map_of};
use crate::split::{
    lemma_op_at, lemma_split_cur, lemma_split_put, lemma_split_rest, op_at, room, split_cut, split_off, split_op,
    split_ops, split_pieces, split_put, split_rest, split_start, SplitView,
};
use crate::store_view::{
    accepts, accepts_one, comes_after, empty_store, has_lamport_room, insert_all, insert_one, inserted, known,
    kv_block_valid, kv_changes, lemma_empty_store, lemma_insert_one, lemma_mem_entry, lemma_splitting_off,
    lemma_splitting_start, log_of, log_vv, mem_block_valid, splitting, store_flushable, store_readable, store_valid,
    stored_vv, vv_key, StoreView,
};
use crate::version::{vv_merged, VersionVector};
use bytes::Bytes;
use std::collections::VecDeque;
use std::sync::Arc;
use vstd::prelude::*;

verus! {

/// # Invariance
///
/// - We don't allow holes in a block or between two blocks with the same peer id.
///   The [Change] should be continuous for each peer.
/// - However, the first block of a peer can have counter > 0 so that we can trim the history.
pub struct ChangeStore<O: StorageFormat, K> {
    arena: O::Arena,
    /// max known version vector
    vv: VersionVector,
    /// The start version vector of the first block for each peer.
    /// It allows us to trim the history
    start_vv: VersionVector,
    /// The last version of the trimmed history.
    start_frontiers: Frontiers,
    /// It's more like a parsed cache for the key-value store.
    mem_parsed_kv: BlockMap<O>,
    external_kv: K,
    merge_interval: i64,
}

impl<O: StorageFormat, K: KvStore> View for ChangeStore<O, K> {
    type V = StoreView<O::V>;

    closed spec fn view(&self) -> StoreView<O::V> {
        StoreView {
            mem: self.mem_parsed_kv@,
            kv: self.external_kv@,
            vv: self.vv@,
            start_vv: self.start_vv@,
            start_frontiers: self.start_frontiers@,
            merge_interval: self.merge_interval,
        }
    }
}

impl<O: StorageFormat> ChangeStore<O, MemKvStore> {
    /// An empty store, whose blocks are stored in memory.
    pub fn new_mem(arena: O::Arena, merge_interval: i64) -> (r: Self)
        ensures
            r@ == empty_store::<O::V>(merge_interval),
            r@ == (StoreView::<O::V> {
                mem: Seq::empty(),
                kv: Map::empty(),
                vv: Map::empty(),
                start_vv: Map::empty(),
                start_frontiers: Seq::empty(),
                merge_interval,
            }),
            store_valid::<O>(r@),
            log_lamports_valid::<O>(log_of::<O>(r@)),
    {
        let r = ChangeStore {
            merge_interval,
            vv: VersionVector::new(),
            arena,
            start_vv: VersionVector::new(),
            start_frontiers: Frontiers::new(),
            mem_parsed_kv: BlockMap::new(),
            external_kv: MemKvStore::new(),
        };
        proof {
            lemma_empty_store::<O>(merge_interval);
        }
        r
    }
}

impl<O: StorageFormat, K: KvStore> ChangeStore<O, K> {
    /// How far the history of each peer is known.
    pub fn vv(&self) -> (r: &VersionVector)
        ensures
            r@ == self@.vv,
    {
        &self.vv
    }

    /// The stored blocks.
    pub fn external_kv(&self) -> (r: &K)
        ensures
            r@ == self@.kv,
    {
        &self.external_kv
    }

    /// Sets how long after a change another one may be merged with it.
    pub fn set_merge_interval(&mut self, merge_interval: i64)
        ensures
            final(self)@ == (StoreView { merge_interval, ..old(self)@ }),
    {
        self.merge_interval = merge_interval;
    }

    /// How far the history of each peer is known to the store, or to the version vector that
    /// is stored.
    fn known_vv(&self) -> (r: VersionVector)
        requires
            self@.kv.contains_key(vv_key()) ==> stored_vv::<O>(self@.kv) is Some,
        ensures
            r@ == known::<O>(self@),
    {
        let mut vv = self.vv.duplicate();
        let key: [u8; 2] = [118u8, 118u8];
        assert(key@ =~= vv_key());
        if let Some(bytes) = self.external_kv.get(&key) {
            match O::decode_vv(bytes_as_slice(&bytes)) {
                Ok(stored) => vv.merge(&stored),
                Err(_) => vstd::pervasive::unreached(),
            }
        }
        vv
    }

    /// Whether the blocks in memory and the stored ones are valid, make up a log without
    /// holes, as far as it is known, and the version vector that is stored can be read.
    pub fn is_valid(&self) -> (r: bool)
        ensures
            r == store_valid::<O>(self@),
    {
        let ghost log = log_of::<O>(self@);
        if !self.is_vv_readable() {
            return false;
        }
        match self.log_blocks() {
            Some(blocks) => is_log::<O>(&blocks, &self.known_vv(), Ghost(log)),
            None => false,
        }
    }

    /// Whether the blocks in memory and the stored ones are valid, and make up a log without
    /// holes, though more may be known.
    pub fn is_readable(&self) -> (r: bool)
        ensures
            r == store_readable::<O>(self@),
    {
        let ghost log = log_of::<O>(self@);
        match self.log_blocks() {
            Some(blocks) => {
                let ends = log_ends::<O>(&blocks, Ghost(log));
                is_log::<O>(&blocks, &ends, Ghost(log))
            },
            None => false,
        }
    }

    /// Whether the store, and the version vector that is stored, can be read.
    pub fn is_flushable(&self) -> (r: bool)
        ensures
            r == store_flushable::<O>(self@),
    {
        self.is_vv_readable() && self.is_readable()
    }

    /// The blocks in memory and the stored ones, and the counter after the last atom of each.
    /// `None`: one of them is not valid.
    fn log_blocks(&self) -> (r: Option<Vec<(ID, Counter)>>)
        ensures
            match r {
                Some(blocks) => {
                    &&& blocks_stand::<O>(self@)
                    &&& names_blocks::<O>(blocks@, log_of::<O>(self@))
                    &&& blocks_valid::<O>(log_of::<O>(self@))
                },
                None => !blocks_stand::<O>(self@),
            },
    {
        let ghost s = self@;
        if !self.mem_parsed_kv.is_sorted() {
            return None;
        }
        let stored = match Self::stored_blocks(&self.external_kv, &self.arena) {
            Some(stored) => stored,
            None => return None,
        };
        let ghost log = log_of::<O>(s);
        let mut blocks: Vec<(ID, Counter)> = Vec::new();
        let mut i: usize = 0;
        while i < self.mem_parsed_kv.len()
            invariant
                s == self@,
                i <= s.mem.len(),
                log == log_of::<O>(s),
                keys_grow(id_order(), s.mem),
                kv_valid::<O>(s.kv),
                blocks@.len() == i,
                forall|k: int| 0 <= k < i ==> #[trigger] mem_block_valid::<O>(s, k),
                forall|k: int| 0 <= k < i ==> (#[trigger] blocks@[k]).0 == s.mem[k].0,
                forall|k: int| 0 <= k < i ==> #[trigger] names_end::<O>(blocks@, log, k),
            decreases s.mem.len() - i,
        {
            let bid: ID = self.mem_parsed_kv.key(i);
            proof {
                lemma_id_order();
                lemma_map_of(id_order(), s.mem, i as int);
            }
            let ok: bool = self.is_block_valid(i);
            if !ok {
                return None;
            }
            assert(mem_block_valid::<O>(s, i as int));
            let ghost before = blocks@;
            blocks.push((bid, self.mem_parsed_kv.block(i).counter_range().1));
            assert forall|k: int| 0 <= k <= i implies #[trigger] names_end::<O>(blocks@, log, k) by {
                if k < i {
                    assert(names_end::<O>(before, log, k));
                }
            }
            i = i + 1;
        }
        let mut j: usize = 0;
        let ghost n = s.mem.len() as int;
        while j < stored.len()
            invariant
                s == self@,
                j <= stored@.len(),
                log == log_of::<O>(s),
                keys_grow(id_order(), s.mem),
                n == s.mem.len(),
                lists_stored::<O>(stored@, s.kv),
                blocks@.len() >= n,
                forall|k: int| 0 <= k < n ==> (#[trigger] blocks@[k]).0 == s.mem[k].0,
                forall|k: int| 0 <= k < blocks@.len() ==> #[trigger] names_end::<O>(blocks@, log, k),
                forall|k: int|
                    0 <= k < j && !map_of(s.mem).contains_key((#[trigger] stored@[k]).0) ==> names(
                        blocks@,
                        stored@[k].0,
                    ),
            decreases stored.len() - j,
        {
            let (bid, end) = stored[j];
            let ghost before = blocks@;
            assert(stored_end::<O>(stored@, s.kv, j as int));
            if !self.mem_parsed_kv.contains(bid) {
                blocks.push((bid, end));
                assert(blocks@[before.len() as int].0 == bid);
                assert forall|k: int| 0 <= k < blocks@.len() implies #[trigger] names_end::<O>(blocks@, log, k) by {
                    if k < before.len() {
                        assert(names_end::<O>(before, log, k));
                    }
                }
                assert forall|b: ID| names(before, b) implies #[trigger] names(blocks@, b) by {
                    let k = choose|k: int| 0 <= k < before.len() && (#[trigger] before[k]).0 == b;
                    assert(blocks@[k].0 == b);
                }
            }
            j = j + 1;
        }
        proof {
            assert forall|bid: ID| #[trigger] log.contains_key(bid) implies names(blocks@, bid) && changes_valid::<O>(
                log[bid],
            ) && log[bid][0].id == bid by {
                if map_of(s.mem).contains_key(bid) {
                    let k = key_index(s.mem, bid);
                    assert(s.mem[k].0 == bid);
                    assert(mem_block_valid::<O>(s, k));
                    assert(blocks@[k].0 == bid);
                } else {
                    assert(kv_block_valid::<O>(s.kv, bid));
                    assert(names(stored@, bid));
                    let k = choose|k: int| 0 <= k < stored@.len() && (#[trigger] stored@[k]).0 == bid;
                    assert(names(blocks@, stored@[k].0));
                }
            }
        }
        Some(blocks)
    }

    /// Whether block `i` in memory is valid, stands under its identity and goes with what is
    /// stored there.
    fn is_block_valid(&self, i: usize) -> (r: bool)
        requires
            i < self@.mem.len(),
            kv_valid::<O>(self@.kv),
        ensures
            r == mem_block_valid::<O>(self@, i as int),
    {
        let bid: ID = self.mem_parsed_kv.key(i);
        let block = self.mem_parsed_kv.block(i);
        let changes = match block.valid_changes(&self.arena) {
            Some(changes) => changes,
            None => return false,
        };
        if block.id() != bid {
            return false;
        }
        match self.external_kv.get(&bid.to_bytes()) {
            Some(bytes) => {
                assert(kv_block_valid::<O>(self@.kv, bid));
                match O::decode_block(bytes_as_slice(&bytes), &self.arena, None) {
                    Ok(stored) => {
                        let ghost t = changes_view(stored@);
                        assert(change_follows::<O>(t, t.len() - 1));
                        assert(t.last() == stored@[t.len() - 1]@);
                        let same: bool = !block.is_stored() || same_changes(&stored, &*changes);
                        same && stored[stored.len() - 1].ctr_end() <= block.counter_range().1
                    },
                    Err(_) => false,
                }
            },
            None => !block.is_stored(),
        }
    }

    /// Whether the version vector that is stored, if there is one, can be read.
    fn is_vv_readable(&self) -> (r: bool)
        ensures
            r == (self@.kv.contains_key(vv_key()) ==> stored_vv::<O>(self@.kv) is Some),
    {
        let key: [u8; 2] = [118u8, 118u8];
        assert(key@ =~= vv_key());
        match self.external_kv.get(&key) {
            Some(bytes) => O::decode_vv(bytes_as_slice(&bytes)).is_ok(),
            None => true,
        }
    }

    /// The blocks that are stored, and the counter after the last atom of each. `None`: what is
    /// stored under an identity is not a history that starts there.
    fn stored_blocks(kv: &K, a: &O::Arena) -> (r: Option<Vec<(ID, Counter)>>)
        ensures
            match r {
                Some(blocks) => kv_valid::<O>(kv@) && lists_stored::<O>(blocks@, kv@),
                None => !kv_valid::<O>(kv@),
            },
    {
        let entries = kv.scan(KeyBound::Unbounded, KeyBound::Unbounded);
        let ghost xs = listing(entries@);
        proof {
            lemma_key_order_is_order();
            assert(kv_range(kv@, KeyBound::Unbounded, KeyBound::Unbounded) =~= kv@);
        }
        let mut blocks: Vec<(ID, Counter)> = Vec::new();
        let mut i: usize = 0;
        while i < entries.len()
            invariant
                i <= entries@.len(),
                xs == listing(entries@),
                lists(xs, kv@),
                is_order(key_order()),
                forall|k: int| 0 <= k < blocks@.len() ==> #[trigger] stored_end::<O>(blocks@, kv@, k),
                forall|k: int|
                    0 <= k < i && (#[trigger] xs[k]).0.len() == 12 ==> kv_block_valid::<O>(kv@, id_of_bytes(xs[k].0))
                        && names(blocks@, id_of_bytes(xs[k].0)),
            decreases entries.len() - i,
        {
            let ghost before = blocks@;
            proof {
                lemma_map_of(key_order(), xs, i as int);
                assert(xs[i as int] == (bytes_contents(entries@[i as int].0), bytes_contents(entries@[i as int].1)));
            }
            if bytes_len(&entries[i].0) == 12 {
                let bid: ID = ID::from_bytes(bytes_as_slice(&entries[i].0));
                let changes = match O::decode_block(bytes_as_slice(&entries[i].1), a, None) {
                    Ok(changes) => changes,
                    Err(_) => {
                        assert(!kv_block_valid::<O>(kv@, bid));
                        return None;
                    },
                };
                let ghost t = changes_view(changes@);
                if !is_history(&changes) {
                    assert(!kv_block_valid::<O>(kv@, bid));
                    return None;
                }
                assert(t[0] == changes@[0]@);
                if changes[0].id != bid {
                    assert(!kv_block_valid::<O>(kv@, bid));
                    return None;
                }
                assert(change_follows::<O>(t, t.len() - 1));
                assert(t.last() == changes@[t.len() - 1]@);
                blocks.push((bid, changes[changes.len() - 1].ctr_end()));
                assert(blocks@[before.len() as int].0 == bid);
                assert(kv_block_valid::<O>(kv@, bid));
                assert forall|k: int| 0 <= k < blocks@.len() implies #[trigger] stored_end::<O>(blocks@, kv@, k) by {
                    if k < before.len() {
                        assert(stored_end::<O>(before, kv@, k));
                    }
                }
                assert forall|b: ID| names(before, b) implies #[trigger] names(blocks@, b) by {
                    let k = choose|k: int| 0 <= k < before.len() && (#[trigger] before[k]).0 == b;
                    assert(blocks@[k].0 == b);
                }
            }
            i = i + 1;
        }
        proof {
            assert forall|bid: ID| kv@.contains_key(id_bytes(bid)) implies #[trigger] kv_block_valid::<O>(kv@, bid)
                && names(blocks@, bid) by {
                lemma_id_bytes(bid);
                assert(map_of(xs).contains_key(id_bytes(bid)));
                let k = key_index(xs, id_bytes(bid));
                assert(xs[k].0 == id_bytes(bid));
            }
            assert forall|bid: ID| #[trigger] kv@.contains_key(id_bytes(bid)) implies names(blocks@, bid) by {
                assert(kv_block_valid::<O>(kv@, bid));
            }
        }
        Some(blocks)
    }

    /// Whether a change can be inserted: it comes right after what is known of its peer,
    /// and after the block in memory that is before it, if that is of the same peer, and
    /// where it is merged with the change before it, the Lamport clocks leave room for it.
    pub fn can_insert(&self, change: &Change<O>, split_when_exceeds: bool) -> (r: bool)
        requires
            store_valid::<O>(self@),
            change_valid::<O>(change@),
        ensures
            r == accepts::<O>(self@, change@, split_when_exceeds),
    {
        let id: ID = change.id;
        let counter: Counter = match self.vv.get(id.peer) {
            Some(counter) => counter,
            None => 0,
        };
        let known_counter: Counter = match self.known_vv().get(id.peer) {
            Some(counter) => counter,
            None => 0,
        };
        let i: usize = self.mem_parsed_kv.place(id);
        if counter != id.counter || known_counter != id.counter {
            return false;
        }
        if i == 0 {
            return true;
        }
        proof {
            lemma_mem_entry::<O>(self@, i - 1);
            lemma_block_parsed::<O>(self@.mem[i - 1].1);
        }
        let mut block = (**self.mem_parsed_kv.block(i - 1)).clone();
        if block.id().peer != id.peer {
            return true;
        }
        if block.counter_range().1 != id.counter {
            return false;
        }
        let _ = block.ensure_changes(&self.arena);
        let size: usize = O::estimate_change_size(change);
        let joins: bool = if size > MAX_BLOCK_SIZE && split_when_exceeds {
            block.may_join(change, self.merge_interval)
        } else {
            block.joins_last(change, size, self.merge_interval)
        };
        !joins || block.lamport_end() as u64 + change.content_len() as u64 <= u32::MAX as u64
    }

    /// Inserts a change that comes right after what is known of its peer.
    pub fn insert_change(&mut self, change: Change<O>, split_when_exceeds: bool)
        requires
            store_valid::<O>(old(self)@),
            change_valid::<O>(change@),
            accepts::<O>(old(self)@, change@, split_when_exceeds),
        ensures
            final(self)@ == inserted::<O>(old(self)@, change@, split_when_exceeds),
            store_valid::<O>(final(self)@),
            log_atoms::<O>(log_of::<O>(final(self)@)) == log_atoms::<O>(log_of::<O>(old(self)@)).union_prefer_right(
                atoms_of::<O>(change@),
            ),
    {
        proof {
            lemma_insert_change::<O>(self@, change@, split_when_exceeds);
        }
        let estimated_size: usize = O::estimate_change_size(&change);
        if estimated_size > MAX_BLOCK_SIZE && split_when_exceeds {
            self.split_change_then_insert(change);
        } else {
            self.insert_whole_change(change, estimated_size);
        }
    }

    /// Inserts a change as it is.
    fn insert_whole_change(&mut self, change: Change<O>, estimated_size: usize)
        requires
            store_valid::<O>(old(self)@),
            change_valid::<O>(change@),
            accepts_one::<O>(old(self)@, change@),
            estimated_size == O::change_size(change@),
        ensures
            final(self)@ == insert_one::<O>(old(self)@, change@),
            store_valid::<O>(final(self)@),
    {
        let ghost s = self@;
        let ghost c = change@;
        proof {
            lemma_insert_one::<O>(s, c);
        }
        let id: ID = change.id;
        let mut change = change;
        self.vv.insert(id.peer, change.ctr_end());
        let i: usize = self.mem_parsed_kv.place(id);
        if i > 0 {
            proof {
                lemma_mem_entry::<O>(s, i - 1);
            }
            if self.mem_parsed_kv.block(i - 1).id().peer == id.peer {
                let merge_interval: i64 = self.merge_interval;
                let block = arc_make_mut(self.mem_parsed_kv.block_mut(i - 1));
                match block.push_change(change, estimated_size, merge_interval) {
                    Ok(_) => {
                        assert(self@ =~= insert_one::<O>(s, c));
                        return;
                    },
                    Err(c) => {
                        change = c;
                    },
                }
            }
        }
        let block = Arc::new(ChangesBlock::new(change, &self.arena));
        self.mem_parsed_kv.insert(id, block);
        assert(self@ =~= insert_one::<O>(s, c));
    }

    /// Cuts a change into pieces that fit in a block, as far as its operations can be
    /// cut, and inserts them.
    fn split_change_then_insert(&mut self, change: Change<O>)
        requires
            store_valid::<O>(old(self)@),
            change_valid::<O>(change@),
            comes_after::<O>(old(self)@, change@.id),
            has_lamport_room::<O>(old(self)@, change@, change_len::<O>(change@)),
        ensures
            final(self)@ == insert_all::<O>(old(self)@, split_pieces::<O>(change@)),
            store_valid::<O>(final(self)@),
    {
        let ghost s0 = self@;
        let ghost c = change@;
        let mut new_change = Change {
            ops: RleVec::new(),
            deps: change.deps,
            id: change.id,
            lamport: change.lamport,
            timestamp: change.timestamp,
        };
        let mut estimated_size: usize = O::estimate_change_size(&new_change);
        let ghost mut st = split_start::<O>(c);
        let ghost mut k: int = 0;
        proof {
            lemma_splitting_start::<O>(s0, c);
            assert(c.ops.take(0) =~= seq![]);
            assert(new_change@ =~= st.cur);
        }
        let ops = change.ops.vec;
        for op in it: ops.into_iter()
            invariant
                it.seq() == ops@,
                k == it.index(),
                c.ops == ops_view::<O>(ops@),
                st == split_ops::<O>(split_start::<O>(c), c.ops.take(k)),
                splitting::<O>(s0, self@, st, c, ops_atoms::<O>(c.ops.take(k)).len() as int),
                new_change@ == st.cur,
                estimated_size == st.size,
        {
            let ghost n = ops_atoms::<O>(c.ops.take(k)).len() as int;
            proof {
                assert(c.ops[k] == op@);
                lemma_op_at::<O>(c, k);
                assert(c.ops.take(k + 1).drop_last() =~= c.ops.take(k));
            }
            let ghost o = op@;
            new_change =
            self.split_op_then_insert(new_change, &mut estimated_size, op, Ghost(s0), Ghost(st), Ghost(c), Ghost(n));
            proof {
                st = split_op::<O>(st, o);
                k = k + 1;
            }
        }
        proof {
            assert(c.ops.take(k) =~= c.ops);
        }
        let ghost n = ops_atoms::<O>(c.ops).len() as int;
        let _ = self._insert_splitted_change(new_change, &mut estimated_size, Ghost(s0), Ghost(st), Ghost(c), Ghost(n));
    }

    /// Goes on with the next operation of a change that is being cut.
    fn split_op_then_insert(
        &mut self,
        new_change: Change<O>,
        estimated_size: &mut usize,
        op: O,
        Ghost(s0): Ghost<StoreView<O::V>>,
        Ghost(st): Ghost<SplitView<O::V>>,
        Ghost(c): Ghost<ChangeView<O::V>>,
        Ghost(n): Ghost<int>,
    ) -> (r: Change<O>)
        requires
            splitting::<O>(s0, old(self)@, st, c, n),
            new_change@ == st.cur,
            *old(estimated_size) == st.size,
            op_at::<O>(c, n, op@),
        ensures
            splitting::<O>(s0, final(self)@, split_op::<O>(st, op@), c, n + O::atoms(op@).len()),
            r@ == split_op::<O>(st, op@).cur,
            *final(estimated_size) == split_op::<O>(st, op@).size,
    {
        let mut left = op;
        let mut new_change = new_change;
        let ghost o = left@;
        let ghost mut st1 = st;
        if left.estimate_storage_size() >= MAX_BLOCK_SIZE.saturating_sub(*estimated_size) {
            new_change =
            self._insert_splitted_change(new_change, estimated_size, Ghost(s0), Ghost(st), Ghost(c), Ghost(n));
            proof {
                st1 = split_off::<O>(st);
            }
        }
        let ghost st0 = st1;
        let ghost mut m = n;
        loop
            invariant
                o == op@,
                splitting::<O>(s0, self@, st1, c, m),
                new_change@ == st1.cur,
                *estimated_size == st1.size,
                op_at::<O>(c, m, left@),
                m + O::atoms(left@).len() == n + O::atoms(o).len(),
                split_cut::<O>(st0, o) == split_cut::<O>(st1, left@),
                split_op::<O>(st, o) == (match split_cut::<O>(st0, o).1 {
                    Some(rest) => split_rest::<O>(split_cut::<O>(st0, o).0, rest),
                    None => split_cut::<O>(st0, o).0,
                }),
            ensures
                split_cut::<O>(st0, o) == (st1, Some(left@)),
            decreases O::atoms(left@).len(),
        {
            let end: usize = match left.check_whether_slice_content_to_fit_in_size(
                MAX_BLOCK_SIZE.saturating_sub(*estimated_size),
            ) {
                Some(end) => end,
                None => break,
            };
            let len: usize = left.atom_len();
            proof {
                let a = change_atoms::<O>(c);
                O::lemma_cut(left@, room(st1.size));
                O::lemma_part(left@, 0, end as int);
                assert(O::atoms(O::part(left@, 0, end as int)) =~= a.subrange(m, m + end));
                lemma_split_put::<O>(st1, c, m, O::part(left@, 0, end as int));
                lemma_ops_from_valid::<O>(st1.cur.ops, st1.cur.id.counter as int);
                if end < len {
                    O::lemma_part(left@, end as int, len as int);
                    assert(O::atoms(O::part(left@, end as int, len as int)) =~= a.subrange(m + end, m + len));
                }
            }
            // The new op can take the rest of the room
            let new = left.slice(0, end);
            let ghost st2 = split_put::<O>(st1, new@);
            new_change.ops.push(new);
            assert(new_change@ =~= st2.cur);
            new_change =
            self._insert_splitted_change(
                new_change,
                estimated_size,
                Ghost(s0),
                Ghost(st2),
                Ghost(c),
                Ghost(m + end),
            );
            proof {
                st1 = split_off::<O>(st2);
                m = m + end;
            }
            if end < len {
                left = left.slice(end, len);
            } else {
                return new_change;
            }
        }
        proof {
            lemma_split_rest::<O>(st1, c, m, left@);
            lemma_ops_from_valid::<O>(st1.cur.ops, st1.cur.id.counter as int);
        }
        let size: usize = estimated_size.saturating_add(left.estimate_storage_size());
        if size > MAX_BLOCK_SIZE && !new_change.ops.is_empty() {
            new_change =
            self._insert_splitted_change(new_change, estimated_size, Ghost(s0), Ghost(st1), Ghost(c), Ghost(m));
        } else {
            *estimated_size = size;
        }
        new_change.ops.push(left);
        assert(new_change@ =~= split_op::<O>(st, o).cur);
        new_change
    }

    /// Inserts a piece, unless it has no operations, and gives the one that comes after it.
    fn _insert_splitted_change(
        &mut self,
        new_change: Change<O>,
        estimated_size: &mut usize,
        Ghost(s0): Ghost<StoreView<O::V>>,
        Ghost(st): Ghost<SplitView<O::V>>,
        Ghost(c): Ghost<ChangeView<O::V>>,
        Ghost(n): Ghost<int>,
    ) -> (r: Change<O>)
        requires
            splitting::<O>(s0, old(self)@, st, c, n),
            new_change@ == st.cur,
            *old(estimated_size) == st.size,
        ensures
            splitting::<O>(s0, final(self)@, split_off::<O>(st), c, n),
            r@ == split_off::<O>(st).cur,
            *final(estimated_size) == split_off::<O>(st).size,
    {
        proof {
            lemma_split_cur::<O>(st, c, n);
            lemma_ops_from_valid::<O>(st.cur.ops, st.cur.id.counter as int);
        }
        let atom_len: usize = new_change.atom_len();
        if atom_len == 0 {
            return new_change;
        }
        proof {
            lemma_splitting_off::<O>(s0, self@, st, c, n);
        }
        let ctr_end: Counter = new_change.id.counter + atom_len as Counter;
        let next_lamport: Lamport = new_change.lamport + atom_len as Lamport;
        let peer: PeerID = new_change.id.peer;
        let ans = Change {
            ops: RleVec::new(),
            deps: Frontiers::from_id(ID::new(peer, ctr_end - 1)),
            id: ID::new(peer, ctr_end),
            lamport: next_lamport,
            timestamp: new_change.timestamp,
        };
        assert(ans@ =~= split_off::<O>(st).cur);
        let size: usize = O::estimate_change_size(&new_change);
        self.insert_whole_change(new_change, size);
        *estimated_size = O::estimate_change_size(&ans);
        ans
    }

    /// Flush the cached change to kv_store
    pub fn flush_and_compact(&mut self)
        requires
            store_flushable::<O>(old(self)@),
        ensures
            flushed::<O>(old(self)@, final(self)@),
            store_flushable::<O>(final(self)@),
            store_valid::<O>(old(self)@) ==> store_valid::<O>(final(self)@),
            log_of::<O>(final(self)@) == log_of::<O>(old(self)@),
            all_stored(final(self)@),
    {
        let ghost s = self@;
        let n: usize = self.mem_parsed_kv.len();
        let mut i: usize = 0;
        while i < n
            invariant
                i <= n,
                n == s.mem.len(),
                store_flushable::<O>(s),
                flushed_to::<O>(s, self@, i as int),
            decreases n - i,
        {
            let ghost t = self@;
            let ghost (id, b) = s.mem[i as int];
            proof {
                lemma_mem_entry::<O>(s, i as int);
                assert(t.mem[i as int] == s.mem[i as int]);
            }
            if !self.mem_parsed_kv.block(i).is_stored() {
                let id: ID = self.mem_parsed_kv.key(i);
                let block = arc_make_mut(self.mem_parsed_kv.block_mut(i));
                let bytes = block.to_bytes(&self.arena);
                block.set_flushed();
                self.external_kv.set(&id.to_bytes(), bytes.bytes());
                proof {
                    lemma_entry_written::<O>(s, t, self@, i as int);
                }
            } else {
                proof {
                    lemma_entry_skipped::<O>(s, t, i as int);
                }
            }
            i = i + 1;
        }
        let ghost u = self@;
        let key: [u8; 2] = [118u8, 118u8];
        assert(key@ =~= vv_key());
        let old_vv_bytes = self.external_kv.get(&key);
        proof {
            lemma_flushed_vv::<O>(s, u);
        }
        let new_vv = match &old_vv_bytes {
            Some(bytes) => match O::decode_vv(bytes_as_slice(bytes)) {
                Ok(vv) => vv,
                Err(_) => vstd::pervasive::unreached(),
            },
            None => VersionVector::new(),
        };
        self.vv.merge(&new_vv);
        assert(vv_merged(s.vv, new_vv@) =~= known::<O>(s));
        let vv_bytes = O::encode_vv(&self.vv);
        let _ = self.external_kv.compare_and_swap(&key, old_vv_bytes, bytes_from_vec(vv_bytes));
        proof {
            assert(self@ =~= vv_flushed::<O>(u, known::<O>(s)));
            assert(flushed_to::<O>(s, u, s.mem.len() as int));
            lemma_flushed::<O>(s, self@);
        }
    }

    /// Flushes the store, and gives all that is stored as one byte string.
    pub fn encode_all(&mut self) -> (r: Bytes)
        requires
            store_flushable::<O>(old(self)@),
        ensures
            flushed::<O>(old(self)@, final(self)@),
            bytes_contents(r) == K::exported(final(self)@.kv),
            kv_storable(final(self)@.kv),
            store_flushable::<O>(final(self)@),
            store_valid::<O>(old(self)@) ==> store_valid::<O>(final(self)@),
            log_of::<O>(final(self)@) == log_of::<O>(old(self)@),
            all_stored(final(self)@),
    {
        self.flush_and_compact();
        self.external_kv.export_all()
    }

    /// Adds what a byte string holds that a store was encoded to.
    pub fn decode_all(&mut self, blocks: Bytes) -> (r: LoroResult<()>)
        requires
            decodable::<O, K>(old(self)@.kv, bytes_contents(blocks)),
        ensures
            match r {
                Ok(_) => {
                    &&& K::imported(bytes_contents(blocks)) matches Ok(m)
                    &&& final(self)@ == decoded::<O>(old(self)@, m)
                    &&& m.contains_key(seq![118u8, 118u8]) ==> O::vv_of(m[seq![118u8, 118u8]]) == Some(final(self)@.vv)
                    &&& !m.contains_key(seq![118u8, 118u8]) && old(self)@.kv.contains_key(seq![118u8, 118u8])
                        ==> O::vv_of(old(self)@.kv[seq![118u8, 118u8]]) == Some(final(self)@.vv)
                },
                Err(LoroError::DecodeError(e)) => K::imported(bytes_contents(blocks)) == Err::<
                    Map<Seq<u8>, Seq<u8>>,
                    Seq<char>,
                >(e@) && final(self)@ == old(self)@,
            },
    {
        assert(seq![118u8, 118u8] =~= vv_key());
        match self.external_kv.import_all(blocks) {
            Ok(_) => {},
            Err(e) => return Err(LoroError::DecodeError(e)),
        }
        match Self::read_vv(&self.external_kv) {
            Some(vv) => {
                self.vv = vv;
            },
            None => vstd::pervasive::unreached(),
        }
        Ok(())
    }

    /// Whether a byte string can be decoded, or is refused: if it holds entries, the version
    /// vector that is stored after they were added can be read.
    pub fn can_decode(&self, blocks: &Bytes) -> (r: bool)
        ensures
            r == decodable::<O, K>(self@.kv, bytes_contents(*blocks)),
    {
        let mut kv = self.external_kv.clone_store();
        match kv.import_all(bytes_clone(blocks)) {
            Ok(_) => Self::read_vv(&kv).is_some(),
            Err(_) => true,
        }
    }

    /// The version vector that is stored.
    fn read_vv(kv: &K) -> (r: Option<VersionVector>)
        ensures
            match r {
                Some(vv) => O::vv_of(vv_bytes(kv@)) == Some(vv@),
                None => O::vv_of(vv_bytes(kv@)) is None,
            },
    {
        let key: [u8; 2] = [118u8, 118u8];
        assert(key@ =~= vv_key());
        let vv = match kv.get(&key) {
            Some(bytes) => O::decode_vv(bytes_as_slice(&bytes)),
            None => {
                let empty: [u8; 0] = [];
                assert(empty@ =~= seq![]);
                O::decode_vv(&empty)
            },
        };
        match vv {
            Ok(vv) => Some(vv),
            Err(_) => None,
        }
    }

    /// Reads the changes of block `i` in memory, unless that was done, and gives the block.
    fn parse_block(&mut self, i: usize) -> (r: Arc<ChangesBlock<O>>)
        requires
            store_readable::<O>(old(self)@),
            i < old(self)@.mem.len(),
        ensures
            final(self)@ == read_block::<O>(old(self)@, old(self)@.mem[i as int].0),
            (*r)@ == read_of::<O>(old(self)@, old(self)@.mem[i as int].0),
            final(self)@.mem == old(self)@.mem.update(
                i as int,
                (old(self)@.mem[i as int].0, block_parsed::<O>(old(self)@.mem[i as int].1)),
            ),
            (*r)@ == block_parsed::<O>(old(self)@.mem[i as int].1),
    {
        let ghost s = self@;
        proof {
            lemma_mem_entry::<O>(s, i as int);
            lemma_block_parsed::<O>(s.mem[i as int].1);
        }
        if self.mem_parsed_kv.block(i).content().try_changes().is_none() {
            let block = arc_make_mut(self.mem_parsed_kv.block_mut(i));
            let _ = block.ensure_changes(&self.arena);
        }
        assert(self@ =~= read_block::<O>(s, s.mem[i as int].0));
        self.mem_parsed_kv.block(i).clone()
    }

    /// Reads a stored block, and its changes, into memory.
    fn load_block(&mut self, bid: ID, bytes: Bytes) -> (r: Arc<ChangesBlock<O>>)
        requires
            store_readable::<O>(old(self)@),
            old(self)@.kv.contains_key(id_bytes(bid)),
            old(self)@.kv[id_bytes(bid)] == bytes_contents(bytes),
            !map_of(old(self)@.mem).contains_key(bid),
        ensures
            final(self)@ == read_block::<O>(old(self)@, bid),
            (*r)@ == read_of::<O>(old(self)@, bid),
    {
        let ghost s = self@;
        proof {
            assert(kv_block_valid::<O>(s.kv, bid));
            lemma_stored_block::<O>(s.kv, bid, true);
            lemma_block_parsed::<O>(cached::<O>(s, bid));
        }
        let mut block = match ChangesBlock::<O>::from_bytes(bytes, true) {
            Ok(block) => block,
            Err(_) => vstd::pervasive::unreached(),
        };
        let _ = block.ensure_changes(&self.arena);
        let block = Arc::new(block);
        self.mem_parsed_kv.insert(bid, block.clone());
        assert(self@ =~= read_block::<O>(s, bid));
        block
    }

    /// The block that holds the atom `id`, with its changes in memory.
    fn get_parsed_block(&mut self, id: ID) -> (r: Option<Arc<ChangesBlock<O>>>)
        requires
            store_readable::<O>(old(self)@),
        ensures
            store_readable::<O>(final(self)@),
            store_valid::<O>(old(self)@) ==> store_valid::<O>(final(self)@),
            log_of::<O>(final(self)@) == log_of::<O>(old(self)@),
            match r {
                Some(b) => {
                    let bid = covering::<O>(log_of::<O>(old(self)@), id);
                    &&& log_has::<O>(log_of::<O>(old(self)@), id)
                    &&& final(self)@ == read_block::<O>(old(self)@, bid)
                    &&& (*b)@ == read_of::<O>(old(self)@, bid)
                },
                None => {
                    &&& !log_has::<O>(log_of::<O>(old(self)@), id)
                    &&& final(self)@ == old(self)@
                },
            },
    {
        let ghost s = self@;
        let ghost log = log_of::<O>(s);
        let i: usize = self.mem_parsed_kv.place(id);
        let n: usize = if i < self.mem_parsed_kv.len() && self.mem_parsed_kv.key(i) == id {
            i + 1
        } else {
            i
        };
        if n > 0 {
            let j: usize = n - 1;
            proof {
                assert(!id.before(s.mem[j as int].0));
                if j + 1 < s.mem.len() {
                    assert(id_order()(s.mem[j as int].0, s.mem[j + 1].0));
                }
                lemma_mem_covers::<O>(s, j as int, id);
            }
            let block = self.mem_parsed_kv.block(j);
            if block.id().peer == id.peer && block.counter_range().1 > id.counter {
                proof {
                    lemma_mem_entry::<O>(s, j as int);
                    lemma_read_block::<O>(s, s.mem[j as int].0);
                }
                return Some(self.parse_block(j));
            }
        } else {
            assert forall|bid: ID| #[trigger] covers::<O>(log, bid, id) implies !map_of(s.mem).contains_key(bid) by {
                if map_of(s.mem).contains_key(bid) {
                    let k = key_index(s.mem, bid);
                    assert(s.mem[k].0 == bid);
                    assert(s.mem[k].0 == id || id_order()(id, s.mem[k].0));
                }
            }
        }
        let key = id.to_bytes();
        let entries = self.external_kv.scan(KeyBound::Unbounded, KeyBound::Included(&key));
        let n: usize = Self::last_block_entry(&entries);
        let ghost xs = listing(entries@);
        proof {
            lemma_key_order_is_order();
            assert forall|b: ID| s.kv.contains_key(#[trigger] id_bytes(b)) && !key_before(
                id_bytes(id),
                id_bytes(b),
            ) implies 0 < n && !key_before(xs[n - 1].0, id_bytes(b)) by {
                assert(map_of(xs).contains_key(id_bytes(b)));
                let k = key_index(xs, id_bytes(b));
                assert(xs[k].0 == id_bytes(b));
                lemma_id_bytes(b);
                lemma_key_order(xs[n - 1].0, xs[n - 1].0);
                if k < n - 1 {
                    assert(key_order()(xs[k].0, xs[n - 1].0));
                    lemma_key_order(xs[k].0, xs[n - 1].0);
                }
            }
        }
        if n == 0 {
            proof {
                if log_has::<O>(log, id) {
                    let b = covering::<O>(log, id);
                    assert(covers::<O>(log, b, id));
                    assert(kv_block_valid::<O>(s.kv, b));
                    assert(change_follows::<O>(log[b], 0));
                    lemma_id_bytes_order(id, b);
                    assert(s.kv.contains_key(id_bytes(b)));
                }
            }
            return None;
        }
        let block_id: ID = ID::from_bytes(bytes_as_slice(&entries[n - 1].0));
        let bytes = bytes_clone(&entries[n - 1].1);
        proof {
            lemma_map_of(key_order(), xs, n - 1);
            assert(map_of(xs).contains_key(xs[n - 1].0));
            assert(kv_block_valid::<O>(s.kv, block_id));
            lemma_stored_block::<O>(s.kv, block_id, true);
            lemma_kv_covers::<O>(s, block_id, id);
        }
        let counter_range = ChangesBlockBytes::new(bytes_clone(&bytes)).counter_range::<O>();
        if block_id.peer == id.peer && block_id.counter <= id.counter && counter_range.1 > id.counter {
            proof {
                lemma_read_block::<O>(s, block_id);
            }
            return Some(self.load_block(block_id, bytes));
        }
        None
    }

    /// The number of entries up to the last one that is a block.
    fn last_block_entry(entries: &Vec<(Bytes, Bytes)>) -> (n: usize)
        ensures
            n <= entries@.len(),
            n > 0 ==> listing(entries@)[n - 1].0.len() == 12,
            forall|k: int| n <= k < entries@.len() ==> (#[trigger] listing(entries@)[k]).0.len() != 12,
    {
        let mut n: usize = entries.len();
        while n > 0
            invariant
                n <= entries@.len(),
                forall|k: int| n <= k < entries@.len() ==> (#[trigger] listing(entries@)[k]).0.len() != 12,
            decreases n,
        {
            if bytes_len(&entries[n - 1].0) == 12 {
                return n;
            }
            n = n - 1;
        }
        n
    }

    /// The change that holds the atom `id`.
    pub fn get_change(&mut self, id: ID) -> (r: Option<BlockChangeRef<O>>)
        requires
            store_readable::<O>(old(self)@),
        ensures
            store_readable::<O>(final(self)@),
            store_valid::<O>(old(self)@) ==> store_valid::<O>(final(self)@),
            log_of::<O>(final(self)@) == log_of::<O>(old(self)@),
            match r {
                Some(c) => {
                    let bid = covering::<O>(log_of::<O>(old(self)@), id);
                    &&& log_has::<O>(log_of::<O>(old(self)@), id)
                    &&& final(self)@ == read_block::<O>(old(self)@, bid)
                    &&& c@.0 == read_of::<O>(old(self)@, bid)
                    &&& refers_to_change::<O>(c@.0, c@.1)
                    &&& block_changes::<O>(c@.0) == log_of::<O>(old(self)@)[bid]
                    &&& change_covers::<O>(block_changes::<O>(c@.0)[c@.1], id.counter as int)
                    &&& holds::<O>(log_of::<O>(old(self)@), bid, c@.1, id)
                },
                None => {
                    &&& !log_has::<O>(log_of::<O>(old(self)@), id)
                    &&& forall|bid: ID, i: int| !#[trigger] holds::<O>(log_of::<O>(old(self)@), bid, i, id)
                    &&& final(self)@ == old(self)@
                },
            },
    {
        let ghost s = self@;
        proof {
            lemma_lookup_result::<O>(log_of::<O>(s), log_vv::<O>(log_of::<O>(s)), id);
        }
        match self.get_parsed_block(id) {
            Some(block) => {
                proof {
                    let log = log_of::<O>(s);
                    let bid = covering::<O>(log, id);
                    assert(covers::<O>(log, bid, id));
                    assert(log_block_valid::<O>(log, log_vv::<O>(log_of::<O>(s)), bid));
                    lemma_read_block::<O>(s, bid);
                    let _ = lemma_change_covers::<O>(log[bid], id.counter as int);
                }
                match block.get_change_index_by_counter(id.counter) {
                    Some(change_index) => {
                        proof {
                            let log = log_of::<O>(s);
                            assert(change_follows::<O>(log[covering::<O>(log, id)], change_index as int));
                        }
                        Some(BlockChangeRef { change_index, block })
                    },
                    None => vstd::pervasive::unreached(),
                }
            },
            None => None,
        }
    }

    /// The number of blocks in memory up to the last one of the peer that starts early
    /// enough.
    fn last_mem_block_by(&self, idlp: IdLp) -> (k: usize)
        requires
            store_readable::<O>(self@),
        ensures
            k <= self@.mem.len(),
            forall|i: int|
                0 <= i < self@.mem.len() && (#[trigger] self@.mem[i]).0.peer == idlp.peer && i >= k
                    ==> self@.mem[i].1.lamport_range.0 > idlp.lamport,
            k > 0 && self@.mem[k - 1].0.peer == idlp.peer ==> self@.mem[k - 1].1.lamport_range.0 <= idlp.lamport,
            !(k > 0 && self@.mem[k - 1].0.peer == idlp.peer) ==> forall|i: int|
                0 <= i < self@.mem.len() && (#[trigger] self@.mem[i]).0.peer == idlp.peer ==> i >= k,
    {
        let ghost s = self@;
        let last = ID::new(idlp.peer, i32::MAX);
        let mut k: usize = self.mem_parsed_kv.place(last);
        let ghost top = k as int;
        proof {
            assert forall|i: int| top <= i < s.mem.len() implies (#[trigger] s.mem[i]).0.peer != idlp.peer by {
                assert(s.mem[i].0 == last || id_order()(last, s.mem[i].0));
                lemma_mem_entry::<O>(s, i);
                lemma_changes_atoms_len::<O>(block_changes::<O>(s.mem[i].1));
            }
        }
        while k > 0 && self.mem_parsed_kv.key(k - 1).peer == idlp.peer && self.mem_parsed_kv.block(
            k - 1,
        ).lamport_range().0 > idlp.lamport
            invariant
                s == self@,
                k <= top <= s.mem.len(),
                forall|i: int| 0 <= i < top ==> (#[trigger] s.mem[i]).0.before(last),
                forall|i: int| top <= i < s.mem.len() ==> (#[trigger] s.mem[i]).0.peer != idlp.peer,
                forall|i: int| k <= i < top ==> (#[trigger] s.mem[i]).1.lamport_range.0 > idlp.lamport,
            decreases k,
        {
            k = k - 1;
        }
        proof {
            if k > 0 && s.mem[k - 1].0.peer != idlp.peer {
                assert forall|i: int| 0 <= i < s.mem.len() && (#[trigger] s.mem[i]).0.peer == idlp.peer implies i
                    >= k by {
                    if i < k - 1 {
                        assert(id_order()(s.mem[i].0, s.mem[k - 1].0));
                    }
                }
            }
        }
        k
    }

    /// The number of entries up to the last stored block that is not in memory and starts
    /// early enough.
    fn last_kv_block_by(&self, entries: &Vec<(Bytes, Bytes)>, idlp: IdLp) -> (n: usize)
        requires
            store_readable::<O>(self@),
            forall|i: int|
                0 <= i < entries@.len() ==> self@.kv.contains_key((#[trigger] listing(entries@)[i]).0)
                    && self@.kv[listing(entries@)[i].0] == listing(entries@)[i].1,
        ensures
            n <= entries@.len(),
            n > 0 ==> ({
                let bid = id_of_bytes(listing(entries@)[n - 1].0);
                &&& listing(entries@)[n - 1].0.len() == 12
                &&& !map_of(self@.mem).contains_key(bid)
                &&& kv_changes::<O>(self@.kv, bid)[0].lamport <= idlp.lamport
            }),
            forall|i: int, b: ID|
                n <= i < entries@.len() && #[trigger] listing(entries@)[i].0 == #[trigger] id_bytes(b) && !map_of(
                    self@.mem,
                ).contains_key(b) ==> kv_changes::<O>(self@.kv, b)[0].lamport > idlp.lamport,
    {
        let ghost s = self@;
        let ghost xs = listing(entries@);
        let mut n: usize = entries.len();
        while n > 0
            invariant
                s == self@,
                xs == listing(entries@),
                store_readable::<O>(s),
                forall|i: int|
                    0 <= i < entries@.len() ==> s.kv.contains_key((#[trigger] xs[i]).0) && s.kv[xs[i].0]
                        == xs[i].1,
                n <= entries@.len(),
                forall|i: int, b: ID|
                    n <= i < entries@.len() && #[trigger] xs[i].0 == #[trigger] id_bytes(b) && !map_of(
                        s.mem,
                    ).contains_key(b) ==> kv_changes::<O>(s.kv, b)[0].lamport > idlp.lamport,
            decreases n,
        {
            let ghost m = n - 1;
            assert(xs[m].0 == bytes_contents(entries@[m].0));
            if bytes_len(&entries[n - 1].0) == 12 {
                let bid: ID = ID::from_bytes(bytes_as_slice(&entries[n - 1].0));
                proof {
                    assert(kv_block_valid::<O>(s.kv, bid));
                    lemma_stored_block::<O>(s.kv, bid, true);
                    O::lemma_header(s.kv[id_bytes(bid)], kv_changes::<O>(s.kv, bid));
                }
                let range = ChangesBlockBytes::new(bytes_clone(&entries[n - 1].1)).lamport_range::<O>();
                assert(range.0 == kv_changes::<O>(s.kv, bid)[0].lamport);
                if !self.mem_parsed_kv.contains(bid) && range.0 <= idlp.lamport {
                    return n;
                }
                assert forall|b: ID| xs[m].0 == #[trigger] id_bytes(b) implies b == bid by {
                    lemma_id_bytes(b);
                    lemma_id_bytes(bid);
                }
            } else {
                assert forall|b: ID| xs[m].0 != #[trigger] id_bytes(b) by {
                    lemma_id_bytes(b);
                }
            }
            n = n - 1;
        }
        n
    }

    /// Get the change with the given peer and lamport.
    ///
    /// If not found, return the change with the greatest lamport that is smaller than the given lamport.
    ///
    /// The lamports of a peer are expected to grow from change to change. Where they do not, some
    /// change of the peer is returned, or none, and at most one block of the peer is read.
    pub fn get_change_by_idlp(&mut self, idlp: IdLp) -> (r: Option<BlockChangeRef<O>>)
        requires
            store_readable::<O>(old(self)@),
        ensures
            store_readable::<O>(final(self)@),
            store_valid::<O>(old(self)@) ==> store_valid::<O>(final(self)@),
            log_of::<O>(final(self)@) == log_of::<O>(old(self)@),
            match r {
                Some(c) => {
                    let bid = ID { peer: c@.0.peer, counter: c@.0.counter_range.0 };
                    &&& has_change(log_of::<O>(old(self)@), idlp.peer, bid, c@.1)
                    &&& clocks_grow::<O>(log_of::<O>(old(self)@)) ==> {
                        let log = log_of::<O>(old(self)@);
                        &&& log[bid][c@.1].id.peer == idlp.peer
                        &&& log[bid][c@.1].lamport <= idlp.lamport
                        &&& forall|b: ID, j: int|
                            log.contains_key(b) && 0 <= j < log[b].len() && (#[trigger] log[b][j]).id.peer == idlp.peer
                                && log[b][j].lamport <= idlp.lamport ==> log[b][j].lamport <= log[bid][c@.1].lamport
                    }
                    &&& log_lamports_valid::<O>(log_of::<O>(old(self)@)) ==> is_latest_by(
                        log_of::<O>(old(self)@),
                        idlp,
                        bid,
                        c@.1,
                    )
                    &&& final(self)@ == read_block::<O>(old(self)@, bid)
                    &&& c@.0 == read_of::<O>(old(self)@, bid)
                    &&& refers_to_change::<O>(c@.0, c@.1)
                    &&& block_changes::<O>(c@.0) == log_of::<O>(old(self)@)[bid]
                },
                None => {
                    &&& clocks_grow::<O>(log_of::<O>(old(self)@)) ==> forall|b: ID, j: int|
                        log_of::<O>(old(self)@).contains_key(b) && 0 <= j < log_of::<O>(old(self)@)[b].len() && (
                        #[trigger] log_of::<O>(old(self)@)[b][j]).id.peer == idlp.peer ==> log_of::<O>(
                            old(self)@,
                        )[b][j].lamport > idlp.lamport
                    &&& log_lamports_valid::<O>(log_of::<O>(old(self)@)) ==> none_by(log_of::<O>(old(self)@), idlp)
                        && final(self)@ == old(self)@
                    &&& final(self)@ == old(self)@ || exists|bid: ID|
                        log_of::<O>(old(self)@).contains_key(bid) && bid.peer == idlp.peer && final(self)@
                            == #[trigger] read_block::<O>(old(self)@, bid)
                },
            },
    {
        let ghost s = self@;
        let ghost log = log_of::<O>(s);
        let ghost ordered = log_lamports_valid::<O>(log_of::<O>(s));
        proof {
            if clocks_grow::<O>(log) {
                lemma_latest_result::<O>(log, log_vv::<O>(log), idlp);
            }
        }
        let k: usize = self.last_mem_block_by(idlp);
        let in_mem: bool = k > 0 && self.mem_parsed_kv.key(k - 1).peer == idlp.peer;
        let ghost mem_counter: int = if in_mem {
            s.mem[k - 1].0.counter as int
        } else {
            -1
        };
        proof {
            assert forall|b: ID|
                ordered && map_of(s.mem).contains_key(b) && b.peer == idlp.peer && b.counter
                    > mem_counter implies #[trigger] log[b][0].lamport > idlp.lamport by {
                let i = key_index(s.mem, b);
                assert(s.mem[i].0 == b);
                lemma_mem_entry::<O>(s, i);
                if in_mem && i < k - 1 {
                    assert(id_order()(s.mem[i].0, s.mem[k - 1].0));
                }
            }
            if in_mem {
                lemma_mem_entry::<O>(s, k - 1);
                assert(change_follows::<O>(block_changes::<O>(s.mem[k - 1].1), 0));
                lemma_read_block::<O>(s, s.mem[k - 1].0);
            }
        }
        if in_mem && idlp.lamport < self.mem_parsed_kv.block(k - 1).lamport_end() {
            assert(ordered ==> later_after(log, idlp, mem_counter)) by {
                assert forall|b: ID|
                    ordered && #[trigger] log.contains_key(b) && b.peer == idlp.peer && b.counter
                        > mem_counter implies log[b][0].lamport > idlp.lamport by {
                    assert(log.contains_key(s.mem[k - 1].0));
                }
            }
            let block = self.parse_block(k - 1);
            return self.change_by_lamport(block, idlp, Ghost(s));
        }
        let start = ID::new(idlp.peer, 0).to_bytes();
        let end = ID::new(idlp.peer, i32::MAX).to_bytes();
        let entries = self.external_kv.scan(KeyBound::Included(&start), KeyBound::Excluded(&end));
        let ghost xs = listing(entries@);
        proof {
            lemma_key_order_is_order();
            assert forall|i: int| 0 <= i < xs.len() implies s.kv.contains_key((#[trigger] xs[i]).0)
                && s.kv[xs[i].0] == xs[i].1 by {
                lemma_map_of(key_order(), xs, i);
            }
        }
        let n: usize = self.last_kv_block_by(&entries, idlp);
        let ghost kv_id = id_of_bytes(xs[n - 1].0);
        let ghost kv_counter: int = if n > 0 {
            kv_id.counter as int
        } else {
            -1
        };
        proof {
            let (lo, hi) = (ID { peer: idlp.peer, counter: 0 }, ID { peer: idlp.peer, counter: i32::MAX });
            if n > 0 {
                lemma_bytes_id(xs[n - 1].0);
                assert(map_of(xs).contains_key(xs[n - 1].0)) by {
                    lemma_map_of(key_order(), xs, n - 1);
                }
                assert(kv_block_valid::<O>(s.kv, kv_id));
                assert(change_follows::<O>(kv_changes::<O>(s.kv, kv_id), 0));
                lemma_id_bytes_order(kv_id, lo);
                lemma_id_bytes_order(kv_id, hi);
                assert(log.contains_key(kv_id));
                lemma_read_block::<O>(s, kv_id);
            }
            assert forall|b: ID|
                log.contains_key(b) && !map_of(s.mem).contains_key(b) && b.peer == idlp.peer && b.counter
                    > kv_counter implies #[trigger] log[b][0].lamport > idlp.lamport by {
                assert(kv_block_valid::<O>(s.kv, b));
                let c = kv_changes::<O>(s.kv, b);
                assert(change_follows::<O>(c, 0));
                lemma_changes_atoms_len::<O>(c);
                assert(change_follows::<O>(c, c.len() - 1));
                lemma_id_bytes_order(b, lo);
                lemma_id_bytes_order(b, hi);
                assert(map_of(xs).contains_key(id_bytes(b)));
                let i = key_index(xs, id_bytes(b));
                assert(xs[i].0 == id_bytes(b));
                if n > 0 && i < n {
                    lemma_id_bytes_order(b, kv_id);
                    lemma_id_bytes_order(kv_id, b);
                    if i < n - 1 {
                        assert(key_order()(xs[i].0, xs[n - 1].0));
                    } else {
                        lemma_id_bytes(b);
                    }
                }
            }
            assert forall|m: int|
                ordered && m >= mem_counter && m >= kv_counter implies #[trigger] later_after(log, idlp, m) by {
                assert forall|b: ID| #[trigger]
                    log.contains_key(b) && b.peer == idlp.peer && b.counter > m implies log[b][0].lamport
                    > idlp.lamport by {
                    assert(log[b][0].lamport > idlp.lamport);
                }
            }
        }
        if n > 0 {
            let block_id: ID = ID::from_bytes(bytes_as_slice(&entries[n - 1].0));
            assert(block_id == kv_id);
            if !in_mem || block_id.counter > self.mem_parsed_kv.key(k - 1).counter {
                assert(ordered ==> later_after(log, idlp, kv_counter));
                let bytes = bytes_clone(&entries[n - 1].1);
                let block = self.load_block(block_id, bytes);
                return self.change_by_lamport(block, idlp, Ghost(s));
            }
        }
        if in_mem {
            assert(ordered ==> later_after(log, idlp, mem_counter));
            let block = self.parse_block(k - 1);
            return self.change_by_lamport(block, idlp, Ghost(s));
        }
        proof {
            if ordered {
                assert(later_after(log, idlp, -1));
                lemma_none_by::<O>(log, log_vv::<O>(log_of::<O>(s)), idlp);
            }
        }
        None
    }

    /// The last change that is early enough in a block that starts early enough.
    fn change_by_lamport(
        &self,
        block: Arc<ChangesBlock<O>>,
        idlp: IdLp,
        Ghost(s): Ghost<StoreView<O::V>>,
    ) -> (r: Option<BlockChangeRef<O>>)
        requires
            store_readable::<O>(s),
            ({
                let bid = ID { peer: (*block)@.peer, counter: (*block)@.counter_range.0 };
                &&& log_of::<O>(s).contains_key(bid)
                &&& bid.peer == idlp.peer
                &&& (*block)@ == read_of::<O>(s, bid)
                &&& log_lamports_valid::<O>(log_of::<O>(s)) ==> {
                    &&& later_after(log_of::<O>(s), idlp, bid.counter as int)
                    &&& log_of::<O>(s)[bid][0].lamport <= idlp.lamport
                }
            }),
        ensures
            match r {
                Some(c) => {
                    let bid = ID { peer: (*block)@.peer, counter: (*block)@.counter_range.0 };
                    &&& c@.0 == (*block)@
                    &&& log_lamports_valid::<O>(log_of::<O>(s)) ==> is_latest_by(log_of::<O>(s), idlp, bid, c@.1)
                    &&& refers_to_change::<O>(c@.0, c@.1)
                    &&& block_changes::<O>(c@.0) == log_of::<O>(s)[bid]
                },
                None => !log_lamports_valid::<O>(log_of::<O>(s)),
            },
    {
        let ghost bid = ID { peer: (*block)@.peer, counter: (*block)@.counter_range.0 };
        proof {
            lemma_read_block::<O>(s, bid);
        }
        match block.get_change_index_by_lamport(idlp.lamport) {
            Some(change_index) => {
                proof {
                    if log_lamports_valid::<O>(log_of::<O>(s)) {
                        assert(lamports_ordered::<O>(log_of::<O>(s)[bid]));
                        lemma_latest::<O>(log_of::<O>(s), log_vv::<O>(log_of::<O>(s)), idlp, bid, change_index);
                    }
                }
                Some(BlockChangeRef { change_index, block })
            },
            None => {
                proof {
                    if log_lamports_valid::<O>(log_of::<O>(s)) {
                        assert(lamports_ordered::<O>(log_of::<O>(s)[bid]));
                        assert(log_of::<O>(s)[bid][0].lamport > idlp.lamport);
                    }
                }
                None
            },
        }
    }

    /// Reads the stored blocks in a range of keys into memory, where they are not there.
    fn ensure_block_parsed_in_range(&mut self, start: KeyBound, end: KeyBound)
        requires
            store_readable::<O>(old(self)@),
        ensures
            final(self)@ == load::<O>(old(self)@, between(start, end)),
            loaded::<O>(old(self)@, final(self)@, between(start, end)),
    {
        let ghost s = self@;
        let entries = self.external_kv.scan(start, end);
        let ghost xs = listing(entries@);
        let mut i: usize = 0;
        proof {
            lemma_key_order_is_order();
            lemma_id_order();
            assert(map_of(s.mem) =~= loaded_map::<O>(s, first_keys(xs, 0)));
        }
        while i < entries.len()
            invariant
                i <= entries@.len(),
                xs == listing(entries@),
                lists(xs, kv_range(s.kv, start, end)),
                store_readable::<O>(s),
                loaded::<O>(s, self@, first_keys(xs, i as int)),
            decreases entries.len() - i,
        {
            let ghost t = self@;
            let ghost key = xs[i as int].0;
            proof {
                lemma_key_order_is_order();
                lemma_id_order();
                lemma_map_of(key_order(), xs, i as int);
                assert(key == bytes_contents(entries@[i as int].0));
            }
            if bytes_len(&entries[i].0) == 12 {
                let id: ID = ID::from_bytes(bytes_as_slice(&entries[i].0));
                proof {
                    assert(kv_block_valid::<O>(s.kv, id));
                    lemma_stored_block::<O>(s.kv, id, true);
                }
                if !self.mem_parsed_kv.contains(id) {
                    let block = match ChangesBlock::<O>::from_bytes(bytes_clone(&entries[i].1), true) {
                        Ok(block) => block,
                        Err(_) => vstd::pervasive::unreached(),
                    };
                    proof {
                        lemma_has_place(t.mem, id);
                        lemma_put_at(id_order(), t.mem, place(t.mem, id), id, block@);
                    }
                    self.mem_parsed_kv.insert(id, Arc::new(block));
                }
                proof {
                    assert forall|b: ID| first_keys(xs, i + 1)(#[trigger] id_bytes(b)) == (first_keys(xs, i as int)(
                        id_bytes(b),
                    ) || b == id) by {
                        lemma_id_bytes(b);
                        lemma_id_bytes(id);
                        assert(xs[i as int].0 == id_bytes(id));
                    }
                }
            } else {
                proof {
                    assert forall|b: ID| first_keys(xs, i + 1)(#[trigger] id_bytes(b)) == first_keys(xs, i as int)(
                        id_bytes(b),
                    ) by {
                        lemma_id_bytes(b);
                    }
                }
            }
            assert(map_of(self@.mem) =~= loaded_map::<O>(s, first_keys(xs, i + 1)));
            i = i + 1;
        }
        proof {
            assert forall|b: ID| s.kv.contains_key(id_bytes(b)) implies first_keys(xs, i as int)(
                #[trigger] id_bytes(b),
            ) == between(start, end)(id_bytes(b)) by {
                if between(start, end)(id_bytes(b)) {
                    assert(map_of(xs).contains_key(id_bytes(b)));
                }
                if first_keys(xs, i as int)(id_bytes(b)) {
                    let j = choose|j: int| 0 <= j < i && xs[j].0 == id_bytes(b);
                    lemma_map_of(key_order(), xs, j);
                }
            }
            assert(loaded_map::<O>(s, between(start, end)) =~= loaded_map::<O>(s, first_keys(xs, i as int)));
            lemma_load::<O>(s, self@, between(start, end));
        }
    }

    /// Calls the visitor on every change, in the order of their identities.
    pub fn visit_all_changes<F: ChangeVisitor<O>>(&mut self, f: &mut F)
        requires
            store_readable::<O>(old(self)@),
        ensures
            final(f).seen() == old(f).seen() + log_changes(log_of::<O>(old(self)@)),
            visits_each(log_of::<O>(old(self)@), final(f).seen().skip(old(f).seen().len() as int)),
            ({
                let t = load::<O>(old(self)@, any_key());
                &&& loaded::<O>(old(self)@, t, any_key())
                &&& final(self)@ == (StoreView {
                    mem: mem_between::<O>(t.mem, 0, t.mem.len() as int, i32::MIN),
                    ..t
                })
            }),
            store_readable::<O>(final(self)@),
            store_valid::<O>(old(self)@) ==> store_valid::<O>(final(self)@),
            log_of::<O>(final(self)@) == log_of::<O>(old(self)@),
    {
        let ghost s0 = self@;
        let ghost seen = f.seen();
        self.ensure_block_parsed_in_range(KeyBound::Unbounded, KeyBound::Unbounded);
        let ghost s = self@;
        let ghost xs = mem_listing::<O>(s.mem);
        proof {
            assert(between(KeyBound::Unbounded, KeyBound::Unbounded) =~= any_key());
            lemma_loaded::<O>(s0, s, any_key());
            assert forall|id: ID| s.kv.contains_key(#[trigger] id_bytes(id)) implies map_of(s.mem).contains_key(
                id,
            ) by {
                assert(loaded_map::<O>(s0, any_key()).contains_key(id));
            }
            lemma_mem_listing::<O>(s);
            assert(mem_between::<O>(s.mem, 0, 0, i32::MIN) =~= s.mem);
            assert(seen + concat_changes(xs.take(0)) =~= seen);
        }
        let n: usize = self.mem_parsed_kv.len();
        let mut i: usize = 0;
        while i < n
            invariant
                i <= n,
                n == s.mem.len(),
                store_readable::<O>(s),
                xs == mem_listing::<O>(s.mem),
                self@ == (StoreView { mem: mem_between::<O>(s.mem, 0, i as int, i32::MIN), ..s }),
                f.seen() =~= seen + concat_changes(xs.take(i as int)),
            decreases n - i,
        {
            proof {
                lemma_mem_between::<O>(s, 0, i as int, i32::MIN);
                lemma_mem_entry::<O>(self@, i as int);
                lemma_read_block::<O>(self@, s.mem[i as int].0);
            }
            let ghost s1 = self@;
            let block = self.parse_block(i);
            assert(self@.mem =~= mem_between::<O>(s.mem, 0, i + 1, i32::MIN));
            let ghost seen1 = f.seen();
            let ghost c = block_changes::<O>(s.mem[i as int].1);
            if let Some(changes) = block.content().try_changes() {
                assert(changes_view(changes@) == c);
                let mut j: usize = 0;
                while j < changes.len()
                    invariant
                        j <= changes@.len(),
                        c == changes_view(changes@),
                        f.seen() =~= seen1 + c.take(j as int),
                    decreases changes.len() - j,
                {
                    f.visit(&changes[j]);
                    assert(c.take(j + 1) =~= c.take(j as int).push(c[j as int]));
                    j = j + 1;
                }
                assert(c.take(j as int) =~= c);
            }
            proof {
                assert(xs.take(i + 1).drop_last() =~= xs.take(i as int));
                assert(f.seen() =~= seen + concat_changes(xs.take(i + 1)));
            }
            i = i + 1;
        }
        proof {
            assert(xs.take(i as int) =~= xs);
            lemma_mem_between::<O>(s, 0, i as int, i32::MIN);
            lemma_visit_result::<O>(s0, s);
            assert(f.seen().skip(seen.len() as int) =~= log_changes(log_of::<O>(s0)));
        }
    }

    /// The counter of the last block in memory that starts where the span does or before it,
    /// whatever its peer, or 0 where there is none.
    fn start_counter(&self, id_span: IdSpan) -> (r: Counter)
        requires
            store_readable::<O>(self@),
        ensures
            r == pred_counter(self@.mem, span_start(id_span)),
    {
        let start: ID = id_span.id_start();
        let i: usize = self.mem_parsed_kv.place(start);
        if i < self.mem_parsed_kv.len() && self.mem_parsed_kv.key(i) == start {
            start.counter
        } else if i > 0 {
            self.mem_parsed_kv.key(i - 1).counter
        } else {
            0
        }
    }

    /// Reads the blocks that a span touches into memory.
    fn load_span(&mut self, id_span: IdSpan)
        requires
            store_readable::<O>(old(self)@),
        ensures
            final(self)@ == span_loaded::<O>(old(self)@, id_span),
            loaded::<O>(start_read::<O>(old(self)@, id_span), final(self)@, span_keys(id_span)),
            store_readable::<O>(final(self)@),
            store_valid::<O>(old(self)@) ==> store_valid::<O>(final(self)@),
            log_of::<O>(final(self)@) == log_of::<O>(old(self)@),
    {
        let ghost s = self@;
        let found: bool = self.get_parsed_block(id_span.id_start()).is_some();
        if !found && id_span.counter.start > 0 {
            let _ = self.get_parsed_block(ID::new(id_span.peer, id_span.counter.start - 1));
        }
        let ghost s1 = self@;
        let first: Counter = if id_span.counter.start < 0 {
            0
        } else {
            id_span.counter.start
        };
        let last: Counter = if id_span.counter.end < 0 {
            0
        } else {
            id_span.counter.end
        };
        let start = ID::new(id_span.peer, first).to_bytes();
        let end = ID::new(id_span.peer, last).to_bytes();
        self.ensure_block_parsed_in_range(KeyBound::Included(&start), KeyBound::Excluded(&end));
        proof {
            assert(between(KeyBound::Included(&start), KeyBound::Excluded(&end)) =~= span_keys(id_span));
            assert(s1 == start_read::<O>(s, id_span));
            lemma_loaded::<O>(s1, self@, span_keys(id_span));
        }
    }

    /// The blocks in memory that a span touches, with their changes in memory.
    fn read_range(&mut self, id_span: IdSpan) -> (r: Vec<Arc<ChangesBlock<O>>>)
        requires
            store_readable::<O>(old(self)@),
        ensures
            arcs_view(r@) == span_blocks::<O>(old(self)@.mem, id_span),
            final(self)@ == (StoreView { mem: span_mem::<O>(old(self)@.mem, id_span), ..old(self)@ }),
            store_readable::<O>(final(self)@),
            store_valid::<O>(old(self)@) ==> store_valid::<O>(final(self)@),
            log_of::<O>(final(self)@) == log_of::<O>(old(self)@),
    {
        let ghost s = self@;
        let start: Counter = id_span.counter.start;
        let start_counter: Counter = self.start_counter(id_span);
        let lo: usize = self.mem_parsed_kv.place(ID::new(id_span.peer, start_counter));
        let hi: usize = self.mem_parsed_kv.place(id_span.id_end());
        let mut r: Vec<Arc<ChangesBlock<O>>> = Vec::new();
        let mut k: usize = lo;
        proof {
            assert(mem_between::<O>(s.mem, lo as int, lo as int, start) =~= s.mem);
            assert(arcs_view(r@) =~= seq![]);
            lemma_mem_between::<O>(s, lo as int, hi as int, start);
            if hi <= lo {
                assert(mem_between::<O>(s.mem, lo as int, hi as int, start) =~= s.mem);
            }
        }
        while k < hi
            invariant
                lo <= k,
                lo < hi ==> k <= hi,
                hi <= lo ==> k == lo,
                hi <= s.mem.len(),
                store_readable::<O>(s),
                self@ == (StoreView { mem: mem_between::<O>(s.mem, lo as int, k as int, start), ..s }),
                arcs_view(r@) == blocks_between::<O>(s.mem, lo as int, k as int, start),
            decreases hi - k,
        {
            proof {
                lemma_mem_between::<O>(s, lo as int, k as int, start);
                lemma_mem_entry::<O>(self@, k as int);
                lemma_read_block::<O>(self@, s.mem[k as int].0);
            }
            if self.mem_parsed_kv.block(k).counter_range().1 >= start {
                let ghost r0 = r@;
                let block = self.parse_block(k);
                r.push(block);
                assert(arcs_view(r@) =~= arcs_view(r0).push((*block)@));
            }
            assert(self@.mem =~= mem_between::<O>(s.mem, lo as int, k + 1, start));
            k = k + 1;
        }
        r
    }

    /// The changes that a span takes of the blocks that it touches. Where the history ends right
    /// where the span starts, those are all changes of the last block. Where the history of the
    /// peer starts after the span does, blocks are looked at only from the counter of the block
    /// in memory on that is before the span, though that is of another peer.
    pub fn iter_changes(&mut self, id_span: IdSpan) -> (r: Vec<BlockChangeRef<O>>)
        requires
            store_readable::<O>(old(self)@),
        ensures
            ({
                let t = span_loaded::<O>(old(self)@, id_span);
                &&& loaded::<O>(start_read::<O>(old(self)@, id_span), t, span_keys(id_span))
                &&& refs_view(r@) == blocks_refs::<O>(span_blocks::<O>(t.mem, id_span), id_span)
                &&& final(self)@ == (StoreView { mem: span_mem::<O>(t.mem, id_span), ..t })
            }),
            forall|i: int|
                0 <= i < r@.len() ==> refers_to_change::<O>((#[trigger] r@[i])@.0, r@[i]@.1) && is_block_of::<O>(
                    log_of::<O>(old(self)@),
                    id_span.peer,
                    r@[i]@.0,
                ),
            store_readable::<O>(final(self)@),
            store_valid::<O>(old(self)@) ==> store_valid::<O>(final(self)@),
            log_of::<O>(final(self)@) == log_of::<O>(old(self)@),
    {
        self.load_span(id_span);
        let ghost s = self@;
        let blocks = self.read_range(id_span);
        let ghost bs = arcs_view(blocks@);
        let mut r: Vec<BlockChangeRef<O>> = Vec::new();
        let mut i: usize = 0;
        proof {
            lemma_span_blocks::<O>(s, id_span);
            assert(refs_view(r@) =~= blocks_refs::<O>(bs.take(0), id_span));
        }
        while i < blocks.len()
            invariant
                i <= blocks@.len(),
                bs == arcs_view(blocks@),
                forall|k: int|
                    0 <= k < bs.len() ==> block_valid::<O>(#[trigger] bs[k]) && bs[k].content !is Bytes
                        && is_block_of::<O>(log_of::<O>(s), id_span.peer, bs[k]),
                refs_view(r@) == blocks_refs::<O>(bs.take(i as int), id_span),
                forall|k: int|
                    0 <= k < r@.len() ==> refers_to_change::<O>((#[trigger] r@[k])@.0, r@[k]@.1) && is_block_of::<O>(
                        log_of::<O>(s),
                        id_span.peer,
                        r@[k]@.0,
                    ),
            decreases blocks.len() - i,
        {
            assert(block_valid::<O>(bs[i as int]));
            Self::push_refs(&mut r, &blocks[i], id_span, Ghost(s));
            assert(bs.take(i + 1).drop_last() =~= bs.take(i as int));
            i = i + 1;
        }
        assert(bs.take(i as int) =~= bs);
        r
    }

    /// Adds the changes of a block that a span takes.
    fn push_refs(
        r: &mut Vec<BlockChangeRef<O>>,
        block: &Arc<ChangesBlock<O>>,
        id_span: IdSpan,
        Ghost(store): Ghost<StoreView<O::V>>,
    )
        requires
            block_valid::<O>((**block)@),
            (**block)@.content !is Bytes,
            is_block_of::<O>(log_of::<O>(store), id_span.peer, (**block)@),
            forall|k: int|
                0 <= k < old(r)@.len() ==> refers_to_change::<O>((#[trigger] old(r)@[k])@.0, old(r)@[k]@.1)
                    && is_block_of::<O>(log_of::<O>(store), id_span.peer, old(r)@[k]@.0),
        ensures
            refs_view(final(r)@) == refs_view(old(r)@) + block_refs::<O>((**block)@, id_span),
            forall|k: int|
                0 <= k < final(r)@.len() ==> refers_to_change::<O>((#[trigger] final(r)@[k])@.0, final(r)@[k]@.1)
                    && is_block_of::<O>(log_of::<O>(store), id_span.peer, final(r)@[k]@.0),
    {
        let ghost b = (**block)@;
        let ghost s = block_changes::<O>(b);
        let ghost r0 = r@;
        let last: usize = match block.content().try_changes() {
            Some(changes) => changes.len() - 1,
            None => vstd::pervasive::unreached(),
        };
        let (lo, hi): (usize, usize) = if id_span.counter.start <= block.counter_range().0 && id_span.counter.end
            >= block.counter_range().1 {
            (0, last)
        } else {
            let lo: usize = match block.get_change_index_by_counter(id_span.counter.start) {
                Some(i) => {
                    proof {
                        lemma_change_index::<O>(s, id_span.counter.start, i as int);
                    }
                    i
                },
                None => 0,
            };
            let hi: usize = match block.get_change_index_by_counter(id_span.counter.end) {
                Some(i) => {
                    proof {
                        lemma_change_index::<O>(s, id_span.counter.end, i as int);
                    }
                    i
                },
                None => last,
            };
            (lo, hi)
        };
        assert((lo as int, hi as int) == span_ends::<O>(b, id_span));
        let ghost all = block_refs::<O>(b, id_span);
        let mut i: usize = lo;
        assert(refs_view(r@) =~= refs_view(r0) + all.take(0));
        while i <= hi
            invariant
                lo <= i <= hi + 1 || (lo > hi && i == lo),
                hi < s.len(),
                s == block_changes::<O>(b),
                b == (**block)@,
                block_valid::<O>(b),
                b.content !is Bytes,
                (lo as int, hi as int) == span_ends::<O>(b, id_span),
                all == block_refs::<O>(b, id_span),
                refs_view(r@) == refs_view(r0) + all.take(i - lo),
                s.len() <= usize::MAX,
                is_block_of::<O>(log_of::<O>(store), id_span.peer, b),
                forall|k: int|
                    0 <= k < r@.len() ==> refers_to_change::<O>((#[trigger] r@[k])@.0, r@[k]@.1) && is_block_of::<O>(
                        log_of::<O>(store),
                        id_span.peer,
                        r@[k]@.0,
                    ),
            decreases hi + 1 - i,
        {
            let ghost r1 = r@;
            r.push(BlockChangeRef { change_index: i, block: block.clone() });
            assert(refs_view(r@) =~= refs_view(r1).push((b, i as int)));
            assert(all.take(i + 1 - lo) =~= all.take(i - lo).push((b, i as int)));
            i = i + 1;
        }
        assert(all.take(i - lo) =~= all);
    }

    /// The blocks that a span touches, with their changes in memory. Where the history ends right
    /// where the span starts, that is the last block. Where the history of the peer starts after
    /// the span does, blocks are looked at only from the counter of the block in memory on that is
    /// before the span, though that is of another peer.
    pub fn get_blocks_in_range(&mut self, id_span: IdSpan) -> (r: VecDeque<Arc<ChangesBlock<O>>>)
        requires
            store_readable::<O>(old(self)@),
        ensures
            ({
                let t = span_loaded::<O>(old(self)@, id_span);
                &&& loaded::<O>(start_read::<O>(old(self)@, id_span), t, span_keys(id_span))
                &&& arcs_view(r@) == span_blocks::<O>(t.mem, id_span)
                &&& final(self)@ == (StoreView { mem: span_mem::<O>(t.mem, id_span), ..t })
            }),
            store_readable::<O>(final(self)@),
            store_valid::<O>(old(self)@) ==> store_valid::<O>(final(self)@),
            log_of::<O>(final(self)@) == log_of::<O>(old(self)@),
    {
        self.load_span(id_span);
        let blocks = self.read_range(id_span);
        let mut r: VecDeque<Arc<ChangesBlock<O>>> = VecDeque::new();
        let mut i: usize = 0;
        while i < blocks.len()
            invariant
                i <= blocks@.len(),
                r@ =~= blocks@.take(i as int),
            decreases blocks.len() - i,
        {
            r.push_back(blocks[i].clone());
            i = i + 1;
        }
        assert(r@ =~= blocks@);
        r
    }

    /// The number of changes of the blocks in memory.
    pub fn change_num(&self) -> (r: usize)
        requires
            store_readable::<O>(self@),
            mem_change_num::<O>(self@.mem, self@.mem.len() as int) <= usize::MAX,
        ensures
            r == mem_change_num::<O>(self@.mem, self@.mem.len() as int),
    {
        match self.checked_change_num() {
            Some(num) => num,
            None => vstd::pervasive::unreached(),
        }
    }

    /// The number of changes of the blocks in memory. `None`: there are more than can be counted.
    pub fn checked_change_num(&self) -> (r: Option<usize>)
        requires
            store_readable::<O>(self@),
        ensures
            match r {
                Some(num) => num == mem_change_num::<O>(self@.mem, self@.mem.len() as int),
                None => mem_change_num::<O>(self@.mem, self@.mem.len() as int) > usize::MAX,
            },
    {
        let n: usize = self.mem_parsed_kv.len();
        let mut sum: usize = 0;
        let mut i: usize = 0;
        while i < n
            invariant
                i <= n,
                n == self@.mem.len(),
                store_readable::<O>(self@),
                sum == mem_change_num::<O>(self@.mem, i as int),
            decreases n - i,
        {
            proof {
                lemma_mem_entry::<O>(self@, i as int);
                lemma_block_parsed::<O>(self@.mem[i as int].1);
                lemma_mem_change_num::<O>(self@.mem, i + 1, n as int);
            }
            match sum.checked_add(self.mem_parsed_kv.block(i).change_num()) {
                Some(more) => {
                    sum = more;
                },
                None => return None,
            }
            i = i + 1;
        }
        Some(sum)
    }

    /// A store with the same stored blocks and nothing in memory.
    pub fn fork(&self, arena: O::Arena, merge_interval: i64) -> (r: Self)
        ensures
            r@ == (StoreView { merge_interval, ..forgotten(self@) }),
            r@ == (StoreView { merge_interval, mem: Seq::empty(), ..self@ }),
    {
        ChangeStore {
            arena,
            vv: self.vv.duplicate(),
            start_vv: self.start_vv.duplicate(),
            start_frontiers: self.start_frontiers.duplicate(),
            mem_parsed_kv: BlockMap::new(),
            external_kv: self.external_kv.clone_store(),
            merge_interval,
        }
    }

    /// The number of bytes of the keys and values that are stored.
    pub fn kv_size(&self) -> (r: usize)
        requires
            kv_bytes(self@.kv) <= usize::MAX,
        ensures
            r == kv_bytes(self@.kv),
    {
        match self.checked_kv_size() {
            Some(size) => size,
            None => vstd::pervasive::unreached(),
        }
    }

    /// The number of bytes of the keys and values that are stored. `None`: there are more than can
    /// be counted.
    pub fn checked_kv_size(&self) -> (r: Option<usize>)
        ensures
            match r {
                Some(size) => size == kv_bytes(self@.kv),
                None => kv_bytes(self@.kv) > usize::MAX,
            },
    {
        let entries = self.external_kv.scan(KeyBound::Unbounded, KeyBound::Unbounded);
        let ghost xs = listing(entries@);
        proof {
            assert(kv_range(self@.kv, KeyBound::Unbounded, KeyBound::Unbounded) =~= self@.kv);
            lemma_kv_bytes(xs, self@.kv);
        }
        let mut sum: usize = 0;
        let mut i: usize = 0;
        while i < entries.len()
            invariant
                i <= entries@.len(),
                xs == listing(entries@),
                sum == listing_size(xs, i as int),
                kv_bytes(self@.kv) == listing_size(xs, xs.len() as int),
                forall|j: int|
                    0 <= j <= xs.len() ==> #[trigger] listing_size(xs, j) <= listing_size(xs, xs.len() as int),
            decreases entries.len() - i,
        {
            assert(listing_size(xs, i + 1) <= kv_bytes(self@.kv));
            assert(xs[i as int] == (bytes_contents(entries@[i as int].0), bytes_contents(entries@[i as int].1)));
            let with_key: usize = match sum.checked_add(bytes_len(&entries[i].0)) {
                Some(more) => more,
                None => return None,
            };
            sum = match with_key.checked_add(bytes_len(&entries[i].1)) {
                Some(more) => more,
                None => return None,
            };
            i = i + 1;
        }
        Some(sum)
    }
}

/// What is done with each change that is visited.
pub trait ChangeVisitor<O: Operation> {
    /// The changes that were visited.
    spec fn seen(&self) -> Seq<ChangeView<O::V>>;

    fn visit(&mut self, change: &Change<O>)
        ensures
            final(self).seen() == old(self).seen().push(change@),
    ;
}

/// Collects the changes that are visited.
pub struct ChangeCollector<O> {
    pub changes: Vec<Change<O>>,
}

impl<O: Operation> ChangeVisitor<O> for ChangeCollector<O> {
    open spec fn seen(&self) -> Seq<ChangeView<O::V>> {
        changes_view(self.changes@)
    }

    fn visit(&mut self, change: &Change<O>) {
        self.changes.push(change.clone());
        assert(self.seen() =~= old(self).seen().push(change@));
    }
}

/// The keys of the first `n` entries.
pub open spec fn first_keys(xs: Seq<(Seq<u8>, Seq<u8>)>, n: int) -> spec_fn(Seq<u8>) -> bool {
    |k: Seq<u8>| exists|j: int| 0 <= j < n && (#[trigger] xs[j]).0 == k
}

/// What blocks hold.
pub open spec fn arcs_view<O: StorageFormat>(v: Seq<Arc<ChangesBlock<O>>>) -> Seq<BlockView<O::V>> {
    v.map_values(|b: Arc<ChangesBlock<O>>| (*b)@)
}

/// What references to changes refer to.
pub open spec fn refs_view<O: StorageFormat>(v: Seq<BlockChangeRef<O>>) -> Seq<(BlockView<O::V>, int)> {
    v.map_values(|r: BlockChangeRef<O>| r@)
}

/// The blocks that are read for a span are valid, and are blocks of the log.
proof fn lemma_span_blocks<O: StorageFormat>(s: StoreView<O::V>, span: IdSpan)
    requires
        store_readable::<O>(s),
    ensures
        forall|k: int|
            0 <= k < span_blocks::<O>(s.mem, span).len() ==> block_valid::<O>(
                #[trigger] span_blocks::<O>(s.mem, span)[k],
            ) && span_blocks::<O>(s.mem, span)[k].content !is Bytes && is_block_of::<O>(
                log_of::<O>(s),
                span.peer,
                span_blocks::<O>(s.mem, span)[k],
            ),
{
    let lo = ID { peer: span.peer, counter: pred_counter(s.mem, span_start(span)) };
    let hi = ID { peer: span.peer, counter: span.counter.end };
    lemma_has_place(s.mem, lo);
    lemma_has_place(s.mem, hi);
    assert forall|k: int| span_lo(s.mem, span) <= k < span_hi(s.mem, span) implies (#[trigger] s.mem[k]).0.peer
        == span.peer by {
        assert(s.mem[k].0 == lo || id_order()(lo, s.mem[k].0));
        assert(id_order()(s.mem[k].0, hi));
    }
    lemma_blocks_between::<O>(s, span_lo(s.mem, span), span_hi(s.mem, span), span);
}

/// The blocks between two places that are of one peer are valid, and are blocks of the log.
proof fn lemma_blocks_between<O: StorageFormat>(s: StoreView<O::V>, lo: int, hi: int, span: IdSpan)
    requires
        store_readable::<O>(s),
        0 <= lo,
        hi <= s.mem.len(),
        forall|k: int| lo <= k < hi ==> (#[trigger] s.mem[k]).0.peer == span.peer,
    ensures
        forall|k: int|
            0 <= k < blocks_between::<O>(s.mem, lo, hi, span.counter.start).len() ==> block_valid::<O>(
                #[trigger] blocks_between::<O>(s.mem, lo, hi, span.counter.start)[k],
            ) && blocks_between::<O>(s.mem, lo, hi, span.counter.start)[k].content !is Bytes && is_block_of::<O>(
                log_of::<O>(s),
                span.peer,
                blocks_between::<O>(s.mem, lo, hi, span.counter.start)[k],
            ),
    decreases hi - lo,
{
    if lo < hi {
        lemma_blocks_between::<O>(s, lo, hi - 1, span);
        lemma_mem_entry::<O>(s, hi - 1);
        lemma_block_parsed::<O>(s.mem[hi - 1].1);
    }
}

} // verus!
