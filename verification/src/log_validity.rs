//! Whether the blocks of a store make up a log without holes.
use crate::block_map::id_order;
use crate::change::{changes_end, changes_valid};
use crate::format::StorageFormat;
use crate::ids::{id_bytes, Counter, PeerID, ID};
use crate::log::{block_end, log_block_valid, log_valid, Log};
use crate::op::Operation;
use crate::sorted::keys_grow;
use crate::store_view::{kv_block_valid, kv_changes, mem_block_valid, StoreView};
use crate::version::VersionVector;
use vstd::prelude::*;

verus! {

/// Whether a list names a block.
pub open spec fn names(blocks: Seq<(ID, Counter)>, bid: ID) -> bool {
    exists|i: int| 0 <= i < blocks.len() && (#[trigger] blocks[i]).0 == bid
}

/// Entry `i` of the list is a block of the log and the counter after its last atom.
pub open spec fn names_end<O: Operation>(blocks: Seq<(ID, Counter)>, log: Log<O::V>, i: int) -> bool {
    log.contains_key(blocks[i].0) && block_end::<O>(log, blocks[i].0) == blocks[i].1
}

/// The list names the blocks of the log, and the counter after the last atom of each.
pub open spec fn names_blocks<O: Operation>(blocks: Seq<(ID, Counter)>, log: Log<O::V>) -> bool {
    &&& forall|i: int| 0 <= i < blocks.len() ==> #[trigger] names_end::<O>(blocks, log, i)
    &&& forall|bid: ID| #[trigger] log.contains_key(bid) ==> names(blocks, bid)
}

/// Each block is a history without holes that starts where its name says.
pub open spec fn blocks_valid<O: Operation>(log: Log<O::V>) -> bool {
    forall|bid: ID| #[trigger] log.contains_key(bid) ==> changes_valid::<O>(log[bid]) && log[bid][0].id == bid
}

/// What is stored under identities are blocks.
pub open spec fn kv_valid<O: StorageFormat>(kv: Map<Seq<u8>, Seq<u8>>) -> bool {
    forall|bid: ID| kv.contains_key(id_bytes(bid)) ==> #[trigger] kv_block_valid::<O>(kv, bid)
}

/// The blocks in memory stand in order, and they and the stored ones are valid.
pub open spec fn blocks_stand<O: StorageFormat>(s: StoreView<O::V>) -> bool {
    &&& keys_grow(id_order(), s.mem)
    &&& forall|i: int| 0 <= i < s.mem.len() ==> #[trigger] mem_block_valid::<O>(s, i)
    &&& kv_valid::<O>(s.kv)
}

/// Entry `i` of the list is a stored block and the counter after its last atom.
pub open spec fn stored_end<O: StorageFormat>(blocks: Seq<(ID, Counter)>, kv: Map<Seq<u8>, Seq<u8>>, i: int) -> bool {
    &&& kv.contains_key(id_bytes(blocks[i].0))
    &&& changes_end::<O>(kv_changes::<O>(kv, blocks[i].0)) == blocks[i].1
}

/// The list names the stored blocks, and the counter after the last atom of each.
pub open spec fn lists_stored<O: StorageFormat>(blocks: Seq<(ID, Counter)>, kv: Map<Seq<u8>, Seq<u8>>) -> bool {
    &&& forall|i: int| 0 <= i < blocks.len() ==> #[trigger] stored_end::<O>(blocks, kv, i)
    &&& forall|bid: ID| #[trigger] kv.contains_key(id_bytes(bid)) ==> names(blocks, bid)
}

/// Whether a list names a block.
fn has_block(blocks: &Vec<(ID, Counter)>, bid: ID) -> (r: bool)
    ensures
        r == names(blocks@, bid),
{
    let mut i: usize = 0;
    while i < blocks.len()
        invariant
            i <= blocks@.len(),
            forall|j: int| 0 <= j < i ==> (#[trigger] blocks@[j]).0 != bid,
        decreases blocks.len() - i,
    {
        if blocks[i].0 == bid {
            return true;
        }
        i = i + 1;
    }
    false
}

/// Whether block `i` ends before each later one of its peer starts.
fn ends_before_others(blocks: &Vec<(ID, Counter)>, i: usize) -> (r: bool)
    requires
        i < blocks@.len(),
    ensures
        r == forall|j: int|
            0 <= j < blocks@.len() && blocks@[i as int].0.peer == (#[trigger] blocks@[j]).0.peer
                && blocks@[i as int].0.counter < blocks@[j].0.counter ==> blocks@[i as int].1 <= blocks@[j].0.counter,
{
    let (bid, end) = blocks[i];
    let mut j: usize = 0;
    while j < blocks.len()
        invariant
            i < blocks@.len(),
            (bid, end) == blocks@[i as int],
            j <= blocks@.len(),
            forall|k: int|
                0 <= k < j && bid.peer == (#[trigger] blocks@[k]).0.peer && bid.counter < blocks@[k].0.counter ==> end
                    <= blocks@[k].0.counter,
        decreases blocks.len() - j,
    {
        let other: ID = blocks[j].0;
        if bid.peer == other.peer && bid.counter < other.counter && end > other.counter {
            return false;
        }
        j = j + 1;
    }
    true
}

/// How far the blocks that a list names go, of each peer. If they make up a log without holes,
/// they do so as far as that.
pub(crate) fn log_ends<O: Operation>(blocks: &Vec<(ID, Counter)>, Ghost(log): Ghost<Log<O::V>>) -> (r: VersionVector)
    requires
        names_blocks::<O>(blocks@, log),
        blocks_valid::<O>(log),
    ensures
        forall|vv: Map<PeerID, Counter>| #[trigger] log_valid::<O>(log, vv) ==> log_valid::<O>(log, r@),
{
    let mut ends = VersionVector::new();
    let mut i: usize = 0;
    while i < blocks.len()
        invariant
            i <= blocks@.len(),
            forall|k: int|
                0 <= k < i ==> ends@.contains_key((#[trigger] blocks@[k]).0.peer) && blocks@[k].1
                    <= ends@[blocks@[k].0.peer],
            forall|p: PeerID| #[trigger]
                ends@.contains_key(p) ==> exists|k: int|
                    0 <= k < i && (#[trigger] blocks@[k]).0.peer == p && blocks@[k].1 == ends@[p],
        decreases blocks.len() - i,
    {
        let ghost before = ends@;
        let (bid, end) = blocks[i];
        let grows: bool = match ends.get(bid.peer) {
            Some(counter) => counter < end,
            None => true,
        };
        if grows {
            ends.insert(bid.peer, end);
        }
        assert forall|p: PeerID| #[trigger] ends@.contains_key(p) implies exists|k: int|
            0 <= k <= i && (#[trigger] blocks@[k]).0.peer == p && blocks@[k].1 == ends@[p] by {
            if grows && p == bid.peer {
                assert(blocks@[i as int].0.peer == p);
            } else {
                assert(before.contains_key(p));
                let k = choose|k: int| 0 <= k < i && (#[trigger] blocks@[k]).0.peer == p && blocks@[k].1 == before[p];
                assert(blocks@[k].0.peer == p);
            }
        }
        i = i + 1;
    }
    proof {
        assert forall|vv: Map<PeerID, Counter>| #[trigger] log_valid::<O>(log, vv) implies log_valid::<O>(
            log,
            ends@,
        ) by {
            assert forall|bid: ID| log.contains_key(bid) implies #[trigger] log_block_valid::<O>(log, ends@, bid) by {
                assert(log_block_valid::<O>(log, vv, bid));
                assert(names(blocks@, bid));
                let k = choose|k: int| 0 <= k < blocks@.len() && (#[trigger] blocks@[k]).0 == bid;
                assert(names_end::<O>(blocks@, log, k));
                let j = choose|j: int|
                    0 <= j < blocks@.len() && (#[trigger] blocks@[j]).0.peer == bid.peer && blocks@[j].1
                        == ends@[bid.peer];
                assert(names_end::<O>(blocks@, log, j));
                assert(log_block_valid::<O>(log, vv, blocks@[j].0));
            }
        }
    }
    ends
}

/// Whether the blocks that a list names, each of them valid, make up a log without holes that
/// goes as far as it is known.
pub(crate) fn is_log<O: Operation>(
    blocks: &Vec<(ID, Counter)>,
    vv: &VersionVector,
    Ghost(log): Ghost<Log<O::V>>,
) -> (r: bool)
    requires
        names_blocks::<O>(blocks@, log),
        blocks_valid::<O>(log),
    ensures
        r == log_valid::<O>(log, vv@),
{
    let mut i: usize = 0;
    while i < blocks.len()
        invariant
            i <= blocks@.len(),
            names_blocks::<O>(blocks@, log),
            blocks_valid::<O>(log),
            forall|k: int| 0 <= k < i ==> log_block_valid::<O>(log, vv@, (#[trigger] blocks@[k]).0),
            forall|k: int, j: int|
                0 <= k < i && 0 <= j < blocks@.len() && (#[trigger] blocks@[k]).0.peer == (
                #[trigger] blocks@[j]).0.peer && blocks@[k].0.counter < blocks@[j].0.counter ==> blocks@[k].1
                    <= blocks@[j].0.counter,
        decreases blocks.len() - i,
    {
        let (bid, end) = blocks[i];
        assert(names_end::<O>(blocks@, log, i as int));
        let next = ID { peer: bid.peer, counter: end };
        let in_log: bool = match vv.get(bid.peer) {
            Some(known) => end <= known && (end == known || has_block(blocks, next)),
            None => false,
        };
        assert(names(blocks@, next) == log.contains_key(next)) by {
            if names(blocks@, next) {
                let j = choose|j: int| 0 <= j < blocks@.len() && (#[trigger] blocks@[j]).0 == next;
                assert(names_end::<O>(blocks@, log, j));
            }
        }
        assert(in_log == log_block_valid::<O>(log, vv@, bid));
        if !in_log {
            return false;
        }
        if !ends_before_others(blocks, i) {
            proof {
                let j = choose|j: int|
                    0 <= j < blocks@.len() && bid.peer == (#[trigger] blocks@[j]).0.peer && bid.counter
                        < blocks@[j].0.counter && end > blocks@[j].0.counter;
                assert(names_end::<O>(blocks@, log, j));
                assert(log.contains_key(bid) && log.contains_key(blocks@[j].0));
            }
            return false;
        }
        i = i + 1;
    }
    proof {
        assert forall|bid: ID| log.contains_key(bid) implies #[trigger] log_block_valid::<O>(log, vv@, bid) by {
            assert(names(blocks@, bid));
        }
        assert forall|a: ID, b: ID| #[trigger]
            log.contains_key(a) && #[trigger] log.contains_key(b) && a.peer == b.peer && a.counter
                < b.counter implies block_end::<O>(log, a) <= b.counter by {
            assert(names(blocks@, a) && names(blocks@, b));
            let k = choose|k: int| 0 <= k < blocks@.len() && (#[trigger] blocks@[k]).0 == a;
            let j = choose|j: int| 0 <= j < blocks@.len() && (#[trigger] blocks@[j]).0 == b;
            assert(names_end::<O>(blocks@, log, k));
        }
    }
    true
}

} // verus!
