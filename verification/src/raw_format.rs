//! The form in which changes of operations on containers of bytes are stored.
use crate::change::{changes_valid, changes_view, is_history, Change, ChangeView, Frontiers};
use crate::codec::{
    lemma_read_id, lemma_read_u32, lemma_read_u64, read_id, read_u32, read_u64, write_id, write_u32, write_u64, Read,
    Reader,
};
use crate::format::{header_of_changes, size_sum, ChangesBlockHeader, HeaderView, LoroError, LoroResult, StorageFormat};
use crate::ids::{be_bytes_u32, be_bytes_u64, id_bytes, Counter, Lamport, PeerID, ID};
use crate::op::{rle_merges, rle_push, Operation, RleVec};
use crate::raw_op::{RawOp, RawOpView};
use crate::sorted::{has_key, key_index, keys_grow, lemma_listing_unique, lemma_map_of, map_of};
use crate::stored::{lemma_read_values, read_values, read_vec, values_fit, views, write_values, written_values, Stored};
use crate::version::VersionVector;
use vstd::prelude::*;

verus! {

/// The estimated storage size of a change without its operations and dependencies.
pub const CHANGE_HEAD_SIZE: usize = 24;

/// The estimated storage size of a dependency.
pub const DEP_SIZE: usize = 12;

/// The estimated storage size of the head of a change with `n` dependencies.
pub open spec fn head_size(n: nat) -> usize
    decreases n,
{
    if n == 0 {
        CHANGE_HEAD_SIZE
    } else {
        size_sum(head_size((n - 1) as nat), DEP_SIZE)
    }
}

/// `base` and the estimated storage sizes of operations.
pub open spec fn ops_size(base: usize, ops: Seq<RawOpView>) -> usize
    decreases ops.len(),
{
    if ops.len() == 0 {
        base
    } else {
        size_sum(ops_size(base, ops.drop_last()), RawOp::storage_size(ops.last()))
    }
}

impl Stored for Change<RawOp> {
    open spec fn written(v: ChangeView<RawOpView>) -> Seq<u8> {
        id_bytes(v.id) + (be_bytes_u32(v.lamport) + (be_bytes_u64(v.timestamp as u64) + (written_values::<ID>(v.deps)
            + written_values::<RawOp>(v.ops))))
    }

    open spec fn read_from(s: Seq<u8>) -> Read<ChangeView<RawOpView>> {
        match read_id(s) {
            Some((id, s)) => match read_u32(s) {
                Some((lamport, s)) => match read_u64(s) {
                    Some((timestamp, s)) => match read_values::<ID>(s) {
                        Some((deps, s)) => match read_values::<RawOp>(s) {
                            Some((ops, s)) => Some(
                                (ChangeView { ops, deps, id, lamport, timestamp: timestamp as i64 }, s),
                            ),
                            None => None,
                        },
                        None => None,
                    },
                    None => None,
                },
                None => None,
            },
            None => None,
        }
    }

    open spec fn fits(v: ChangeView<RawOpView>) -> bool {
        values_fit::<ID>(v.deps) && values_fit::<RawOp>(v.ops)
    }

    fn write(&self, buf: &mut Vec<u8>) {
        let ghost b0 = buf@;
        write_id(buf, self.id);
        write_u32(buf, self.lamport);
        write_u64(buf, self.timestamp as u64);
        assert(views(self.deps.ids@) =~= self@.deps);
        assert(views(self.ops.vec@) =~= self@.ops);
        write_values::<ID>(&self.deps.ids, buf);
        write_values::<RawOp>(&self.ops.vec, buf);
        assert(buf@ =~= b0 + Self::written(self@));
    }

    fn read<'a>(reader: &mut Reader<'a>) -> (r: Option<Change<RawOp>>) {
        let id: ID = match reader.id() {
            Some(x) => x,
            None => return None,
        };
        let lamport: Lamport = match reader.u32() {
            Some(x) => x,
            None => return None,
        };
        let timestamp: u64 = match reader.u64() {
            Some(x) => x,
            None => return None,
        };
        let ids = match read_vec::<ID>(reader) {
            Some(x) => x,
            None => return None,
        };
        let vec = match read_vec::<RawOp>(reader) {
            Some(x) => x,
            None => return None,
        };
        let ghost (deps, ops) = (views(ids@), views(vec@));
        let r = Change {
            ops: RleVec { vec },
            deps: Frontiers { ids },
            id,
            lamport,
            timestamp: timestamp as i64,
        };
        assert(r@.deps =~= deps);
        assert(r@.ops =~= ops);
        Some(r)
    }

    proof fn lemma_read(v: ChangeView<RawOpView>, rest: Seq<u8>) {
        let timestamp = v.timestamp;
        assert(timestamp as u64 as i64 == timestamp) by (bit_vector);
        let s4 = written_values::<RawOp>(v.ops) + rest;
        let s3 = written_values::<ID>(v.deps) + s4;
        let s2 = be_bytes_u64(v.timestamp as u64) + s3;
        let s1 = be_bytes_u32(v.lamport) + s2;
        assert(Self::written(v) + rest =~= id_bytes(v.id) + s1);
        lemma_read_id(v.id, s1);
        lemma_read_u32(v.lamport, s2);
        lemma_read_u64(v.timestamp as u64, s3);
        lemma_read_values::<ID>(v.deps, s4);
        lemma_read_values::<RawOp>(v.ops, rest);
    }
}

impl Stored for ChangesBlockHeader {
    open spec fn written(v: HeaderView) -> Seq<u8> {
        id_bytes(ID { peer: v.peer, counter: v.counter }) + (be_bytes_u64(v.n_changes as u64) + (written_values::<
            i32,
        >(v.counters) + written_values::<u32>(v.lamports)))
    }

    open spec fn read_from(s: Seq<u8>) -> Read<HeaderView> {
        match read_id(s) {
            Some((id, s)) => match read_u64(s) {
                Some((n, s)) => match read_values::<i32>(s) {
                    Some((counters, s)) => match read_values::<u32>(s) {
                        Some((lamports, s)) => if n <= usize::MAX {
                            Some(
                                (
                                    HeaderView {
                                        peer: id.peer,
                                        counter: id.counter,
                                        n_changes: n as usize,
                                        counters,
                                        lamports,
                                    },
                                    s,
                                ),
                            )
                        } else {
                            None
                        },
                        None => None,
                    },
                    None => None,
                },
                None => None,
            },
            None => None,
        }
    }

    open spec fn fits(v: HeaderView) -> bool {
        values_fit::<i32>(v.counters) && values_fit::<u32>(v.lamports)
    }

    fn write(&self, buf: &mut Vec<u8>) {
        let ghost b0 = buf@;
        write_id(buf, ID::new(self.peer, self.counter));
        write_u64(buf, self.n_changes as u64);
        assert(views(self.counters@) =~= self@.counters);
        assert(views(self.lamports@) =~= self@.lamports);
        write_values::<i32>(&self.counters, buf);
        write_values::<u32>(&self.lamports, buf);
        assert(buf@ =~= b0 + Self::written(self@));
    }

    fn read<'a>(reader: &mut Reader<'a>) -> (r: Option<ChangesBlockHeader>) {
        let id: ID = match reader.id() {
            Some(x) => x,
            None => return None,
        };
        let n: u64 = match reader.u64() {
            Some(x) => x,
            None => return None,
        };
        let counters = match read_vec::<i32>(reader) {
            Some(x) => x,
            None => return None,
        };
        let lamports = match read_vec::<u32>(reader) {
            Some(x) => x,
            None => return None,
        };
        if n > usize::MAX as u64 {
            return None;
        }
        let ghost (cs, ls) = (views(counters@), views(lamports@));
        let r = ChangesBlockHeader { peer: id.peer, counter: id.counter, n_changes: n as usize, counters, lamports };
        assert(r@.counters =~= cs);
        assert(r@.lamports =~= ls);
        Some(r)
    }

    proof fn lemma_read(v: HeaderView, rest: Seq<u8>) {
        let id = ID { peer: v.peer, counter: v.counter };
        let s3 = written_values::<u32>(v.lamports) + rest;
        let s2 = written_values::<i32>(v.counters) + s3;
        let s1 = be_bytes_u64(v.n_changes as u64) + s2;
        assert(Self::written(v) + rest =~= id_bytes(id) + s1);
        lemma_read_id(id, s1);
        lemma_read_u64(v.n_changes as u64, s2);
        lemma_read_values::<i32>(v.counters, s3);
        lemma_read_values::<u32>(v.lamports, rest);
    }
}

/// The version vector that a list of peers and counters stands for.
pub open spec fn vv_of_ids(ids: Seq<ID>) -> Map<PeerID, Counter>
    decreases ids.len(),
{
    if ids.len() == 0 {
        Map::empty()
    } else {
        vv_of_ids(ids.drop_last()).insert(ids.last().peer, ids.last().counter)
    }
}

/// The order of peers.
pub open spec fn peer_order() -> spec_fn(PeerID, PeerID) -> bool {
    |a: PeerID, b: PeerID| a < b
}

/// `xs` lists the entries of a version vector in the order of the peers.
pub open spec fn lists_vv(xs: Seq<(PeerID, Counter)>, vv: Map<PeerID, Counter>) -> bool {
    keys_grow(peer_order(), xs) && map_of(xs) == vv
}

/// The entries of a version vector as identities.
pub open spec fn entry_ids(xs: Seq<(PeerID, Counter)>) -> Seq<ID> {
    xs.map_values(|e: (PeerID, Counter)| ID { peer: e.0, counter: e.1 })
}

/// A list with the entries of a version vector stands for it.
proof fn lemma_vv_of_ids(ids: Seq<ID>, vv: Map<PeerID, Counter>)
    requires
        forall|i: int|
            0 <= i < ids.len() ==> vv.contains_key((#[trigger] ids[i]).peer) && vv[ids[i].peer] == ids[i].counter,
    ensures
        forall|p: PeerID| #[trigger]
            vv_of_ids(ids).contains_key(p) ==> vv.contains_key(p) && vv_of_ids(ids)[p] == vv[p],
        forall|i: int| 0 <= i < ids.len() ==> vv_of_ids(ids).contains_key((#[trigger] ids[i]).peer),
    decreases ids.len(),
{
    if ids.len() > 0 {
        let init = ids.drop_last();
        assert forall|i: int| 0 <= i < init.len() implies vv.contains_key((#[trigger] init[i]).peer)
            && vv[init[i].peer] == init[i].counter by {
            assert(init[i] == ids[i]);
        }
        lemma_vv_of_ids(init, vv);
        let last = ids[ids.len() - 1];
        assert(vv[last.peer] == last.counter);
        assert forall|p: PeerID| #[trigger] vv_of_ids(ids).contains_key(p) implies vv.contains_key(p) && vv_of_ids(
            ids,
        )[p] == vv[p] by {
            if p != last.peer {
                assert(vv_of_ids(init).contains_key(p));
            }
        }
        assert forall|i: int| 0 <= i < ids.len() implies vv_of_ids(ids).contains_key((#[trigger] ids[i]).peer) by {
            if i < init.len() {
                assert(init[i] == ids[i]);
            }
        }
    }
}

impl StorageFormat for RawOp {
    type Arena = ();

    open spec fn change_size(c: ChangeView<RawOpView>) -> usize {
        ops_size(head_size(c.deps.len()), c.ops)
    }

    open spec fn block_of(bytes: Seq<u8>) -> Option<Seq<ChangeView<RawOpView>>> {
        match ChangesBlockHeader::read_from(bytes) {
            Some((h, s)) => match read_values::<Change<RawOp>>(s) {
                Some((changes, s)) => if s.len() == 0 && changes_valid::<RawOp>(changes) && h == header_of_changes::<
                    RawOp,
                >(changes) {
                    Some(changes)
                } else {
                    None
                },
                None => None,
            },
            None => None,
        }
    }

    open spec fn block_error(bytes: Seq<u8>) -> Seq<char> {
        match ChangesBlockHeader::read_from(bytes) {
            Some((_, s)) => match read_values::<Change<RawOp>>(s) {
                Some((changes, s)) => if s.len() != 0 || !changes_valid::<RawOp>(changes) {
                    "changes that are no history"@
                } else {
                    "a header that is not that of the changes"@
                },
                None => "bytes that are no block"@,
            },
            None => "bytes that are no block"@,
        }
    }

    open spec fn header_of(bytes: Seq<u8>) -> Option<HeaderView> {
        match ChangesBlockHeader::read_from(bytes) {
            Some((h, _)) => Some(h),
            None => None,
        }
    }

    open spec fn header_error(bytes: Seq<u8>) -> Seq<char> {
        "bytes that are no header"@
    }

    open spec fn vv_of(bytes: Seq<u8>) -> Option<Map<PeerID, Counter>> {
        match read_values::<ID>(bytes) {
            Some((ids, s)) => if s.len() == 0 {
                Some(vv_of_ids(ids))
            } else {
                None
            },
            None => None,
        }
    }

    open spec fn vv_error(bytes: Seq<u8>) -> Seq<char> {
        "bytes that are no version vector"@
    }

    open spec fn vv_written(vv: Map<PeerID, Counter>) -> Seq<u8> {
        written_values::<ID>(entry_ids(choose|xs: Seq<(PeerID, Counter)>| #[trigger] lists_vv(xs, vv)))
    }

    fn new_arena() -> (r: ()) {
    }

    fn estimate_change_size(change: &Change<RawOp>) -> (r: usize) {
        let mut size: usize = CHANGE_HEAD_SIZE;
        let mut i: usize = 0;
        while i < change.deps.len()
            invariant
                i <= change@.deps.len(),
                size == head_size(i as nat),
            decreases change@.deps.len() - i,
        {
            size = size.saturating_add(DEP_SIZE);
            i = i + 1;
        }
        let ghost base = size;
        let mut k: usize = 0;
        assert(change@.ops.take(0) =~= seq![]);
        while k < change.ops.len()
            invariant
                k <= change@.ops.len(),
                size == ops_size(base, change@.ops.take(k as int)),
            decreases change@.ops.len() - k,
        {
            assert(change@.ops.take(k + 1).drop_last() =~= change@.ops.take(k as int));
            size = size.saturating_add(change.ops.get(k).estimate_storage_size());
            k = k + 1;
        }
        assert(change@.ops.take(k as int) =~= change@.ops);
        size
    }

    fn encode_block(changes: &Vec<Change<RawOp>>, a: &()) -> (r: Vec<u8>) {
        let ghost s = changes_view(changes@);
        let mut buf: Vec<u8> = Vec::new();
        let header = ChangesBlockHeader::of_changes::<RawOp>(changes);
        header.write(&mut buf);
        write_values::<Change<RawOp>>(changes, &mut buf);
        proof {
            assert(views(changes@) =~= s);
            let h = header_of_changes::<RawOp>(s);
            let tail = written_values::<Change<RawOp>>(s);
            assert(buf@ =~= ChangesBlockHeader::written(h) + tail);
            ChangesBlockHeader::lemma_read(h, tail);
            assert(tail =~= tail + Seq::<u8>::empty());
            lemma_read_values::<Change<RawOp>>(s, Seq::<u8>::empty());
        }
        buf
    }

    fn decode_block(bytes: &[u8], a: &(), header: Option<&ChangesBlockHeader>) -> (r: LoroResult<Vec<Change<RawOp>>>) {
        let mut reader = Reader::new(bytes);
        let read = match ChangesBlockHeader::read(&mut reader) {
            Some(h) => h,
            None => return Err(LoroError::DecodeError("bytes that are no block".to_string())),
        };
        let changes = match read_vec::<Change<RawOp>>(&mut reader) {
            Some(changes) => changes,
            None => return Err(LoroError::DecodeError("bytes that are no block".to_string())),
        };
        assert(views(changes@) =~= changes_view(changes@));
        if !reader.is_done() || !is_history::<RawOp>(&changes) {
            return Err(LoroError::DecodeError("changes that are no history".to_string()));
        }
        if !read.same(&ChangesBlockHeader::of_changes::<RawOp>(&changes)) {
            return Err(LoroError::DecodeError("a header that is not that of the changes".to_string()));
        }
        Ok(changes)
    }

    fn decode_header(bytes: &[u8]) -> (r: LoroResult<ChangesBlockHeader>) {
        let mut reader = Reader::new(bytes);
        match ChangesBlockHeader::read(&mut reader) {
            Some(h) => Ok(h),
            None => Err(LoroError::DecodeError("bytes that are no header".to_string())),
        }
    }

    fn decode_block_range(bytes: &[u8]) -> (r: LoroResult<((Counter, Counter), (Lamport, Lamport))>) {
        match Self::decode_header(bytes) {
            Ok(h) => Ok(
                (
                    (h.counter, h.counters[h.counters.len() - 1]),
                    (h.lamports[0], h.lamports[h.lamports.len() - 1]),
                ),
            ),
            Err(e) => Err(e),
        }
    }

    fn encode_vv(vv: &VersionVector) -> (r: Vec<u8>) {
        let entries = vv.entries();
        let mut ids: Vec<ID> = Vec::new();
        let mut i: usize = 0;
        while i < entries.len()
            invariant
                i <= entries@.len(),
                ids@.len() == i,
                forall|j: int|
                    0 <= j < i ==> #[trigger] ids@[j] == (ID { peer: entries@[j].0, counter: entries@[j].1 }),
            decreases entries.len() - i,
        {
            ids.push(ID::new(entries[i].0, entries[i].1));
            i = i + 1;
        }
        let mut buf: Vec<u8> = Vec::new();
        write_values::<ID>(&ids, &mut buf);
        proof {
            let xs = ids@;
            assert(views(ids@) =~= xs);
            assert(buf@ =~= written_values::<ID>(xs) + Seq::<u8>::empty());
            lemma_read_values::<ID>(xs, Seq::<u8>::empty());
            assert forall|j: int| 0 <= j < xs.len() implies vv@.contains_key((#[trigger] xs[j]).peer)
                && vv@[xs[j].peer] == xs[j].counter by {
                assert(vv@.contains_key(entries@[j].0));
            }
            lemma_vv_of_ids(xs, vv@);
            assert forall|p: PeerID| #[trigger] vv@.contains_key(p) implies vv_of_ids(xs).contains_key(p) by {
                assert(entries@.contains((p, vv@[p])));
                let j = choose|j: int| 0 <= j < entries@.len() && entries@[j] == (p, vv@[p]);
                assert(xs[j].peer == p);
            }
            assert(vv_of_ids(xs) =~= vv@);
            let es = entries@;
            assert(xs =~= entry_ids(es));
            assert forall|p: PeerID|
                #![trigger map_of(es).dom().contains(p)]
                #![trigger map_of(es)[p]]
                map_of(es).dom().contains(p) == vv@.dom().contains(p) && (vv@.dom().contains(p) ==> map_of(es)[p]
                    == vv@[p]) by {
                if vv@.contains_key(p) {
                    assert(es.contains((p, vv@[p])));
                    let j = choose|j: int| 0 <= j < es.len() && es[j] == (p, vv@[p]);
                    assert(es[j].0 == p);
                    lemma_map_of(peer_order(), es, j);
                }
                if has_key(es, p) {
                    let j = key_index(es, p);
                    assert(es[j].0 == p);
                }
            }
            assert(map_of(es) =~= vv@);
            assert(lists_vv(es, vv@));
            let ys = choose|ys: Seq<(PeerID, Counter)>| #[trigger] lists_vv(ys, vv@);
            lemma_listing_unique(peer_order(), es, ys);
        }
        buf
    }

    fn decode_vv(bytes: &[u8]) -> (r: LoroResult<VersionVector>) {
        let mut reader = Reader::new(bytes);
        let ids = match read_vec::<ID>(&mut reader) {
            Some(ids) => ids,
            None => return Err(LoroError::DecodeError("bytes that are no version vector".to_string())),
        };
        if !reader.is_done() {
            return Err(LoroError::DecodeError("bytes that are no version vector".to_string()));
        }
        let ghost xs = ids@;
        assert(views(ids@) =~= xs);
        let mut vv = VersionVector::new();
        let mut i: usize = 0;
        assert(xs.take(0) =~= seq![]);
        while i < ids.len()
            invariant
                i <= ids@.len(),
                xs == ids@,
                vv@ == vv_of_ids(xs.take(i as int)),
            decreases ids.len() - i,
        {
            vv.insert(ids[i].peer, ids[i].counter);
            assert(xs.take(i + 1).drop_last() =~= xs.take(i as int));
            i = i + 1;
        }
        assert(xs.take(i as int) =~= xs);
        Ok(vv)
    }

    proof fn lemma_change_size(c: ChangeView<RawOpView>, op: RawOpView) {
        let ops = rle_push::<RawOp>(c.ops, op);
        if rle_merges::<RawOp>(c.ops, op) {
            assert(ops.drop_last() =~= c.ops.drop_last());
        } else {
            assert(ops.drop_last() =~= c.ops);
        }
    }

    proof fn lemma_header(bytes: Seq<u8>, s: Seq<ChangeView<RawOpView>>) {
    }
}

} // verus!
