//! What operations on containers of bytes, and the keys of a key-value store, come to.
use crate::change::ChangeView;
use crate::format::{size_sum, StorageFormat};
use crate::ids::{key_before, lemma_key_order, ID};
use crate::kv_store::{kv_range, KeyBound};
use crate::op::Operation;
use crate::raw_op::{PayloadView, RawOp, RawOpView};
use vstd::prelude::*;

verus! {

/// Two runs of bytes are stored as one exactly if they are of one container and the second goes on
/// where the first ends. Values are stored each on its own.
pub proof fn lemma_raw_merges(a: RawOpView, b: RawOpView)
    ensures
        match (a.payload, b.payload) {
            (PayloadView::Run(x), PayloadView::Run(y)) => {
                &&& RawOp::mergable(a, b) <==> a.container == b.container && b.counter == a.counter + x.len()
                &&& RawOp::merged(a, b) == (RawOpView { payload: PayloadView::Run(x + y), ..a })
            },
            _ => !RawOp::mergable(a, b),
        },
{
}

/// An operation is cut only if it is a run and does not fit; then the first part is the longest that
/// does, or one byte.
pub proof fn lemma_raw_cut(v: RawOpView, size: usize)
    requires
        RawOp::atoms(v).len() + 16 <= usize::MAX,
    ensures
        RawOp::cut_to_fit(v, size) is None <==> v.payload is Value || RawOp::storage_size(v) <= size,
        RawOp::cut_to_fit(v, size) matches Some(end) ==> {
            let n = RawOp::atoms(v).len();
            &&& RawOp::storage_size(RawOp::part(v, 0, end as int)) <= size || end == 1
            &&& end < n ==> RawOp::storage_size(RawOp::part(v, 0, end + 1)) > size
        },
{
}

/// A part of a run is the bytes of that part, where they were.
pub proof fn lemma_raw_part(v: RawOpView, from: int, to: int)
    requires
        0 <= from <= to,
        v.counter + from <= i32::MAX,
        v.counter >= 0,
    ensures
        v.payload matches PayloadView::Run(b) ==> to <= b.len() ==> {
            let p = RawOp::part(v, from, to);
            &&& p.counter == v.counter + from
            &&& p.container == v.container
            &&& p.payload == PayloadView::Run(b.subrange(from, to))
        },
        v.payload is Value ==> RawOp::part(v, from, to) == v,
{
}

/// An operation takes its bytes and a head, and a change what its operations take and some bytes for
/// each dependency.
pub proof fn lemma_raw_sizes(c: ChangeView<RawOpView>, op: RawOpView, dep: ID)
    ensures
        match op.payload {
            PayloadView::Run(b) => 16 + b.len() <= usize::MAX ==> RawOp::storage_size(op) == 16 + b.len(),
            PayloadView::Value(b) => 16 + b.len() <= usize::MAX ==> RawOp::storage_size(op) == 16 + b.len(),
        },
        <RawOp as StorageFormat>::change_size(ChangeView { ops: seq![], deps: seq![], ..c }) == 24,
        <RawOp as StorageFormat>::change_size(ChangeView { ops: c.ops.push(op), ..c }) == size_sum(
            <RawOp as StorageFormat>::change_size(c),
            RawOp::storage_size(op),
        ),
        <RawOp as StorageFormat>::change_size(ChangeView { ops: seq![], deps: c.deps.push(dep), ..c }) == size_sum(
            <RawOp as StorageFormat>::change_size(ChangeView { ops: seq![], ..c }),
            12,
        ),
{
    assert(c.ops.push(op).drop_last() =~= c.ops);
    assert(c.deps.push(dep).len() == c.deps.len() + 1);
}

/// A range of keys has the keys that are in order between its two ends, with the ends where they are
/// included.
pub proof fn lemma_range_means(m: Map<Seq<u8>, Seq<u8>>, start: KeyBound, end: KeyBound, key: Seq<u8>)
    ensures
        kv_range(m, start, end).contains_key(key) <==> {
            &&& m.contains_key(key)
            &&& match start {
                KeyBound::Unbounded => true,
                KeyBound::Included(a) => key_before(a@, key) || a@ == key,
                KeyBound::Excluded(a) => key_before(a@, key),
            }
            &&& match end {
                KeyBound::Unbounded => true,
                KeyBound::Included(a) => key_before(key, a@) || a@ == key,
                KeyBound::Excluded(a) => key_before(key, a@),
            }
        },
        kv_range(m, start, end).contains_key(key) ==> kv_range(m, start, end)[key] == m[key],
{
    if let KeyBound::Included(a) = start {
        lemma_key_order(a@, key);
        lemma_key_order(key, key);
    }
    if let KeyBound::Included(a) = end {
        lemma_key_order(a@, key);
        lemma_key_order(key, key);
    }
}

/// A key comes before another one if, after the bytes that they start with in common, it has a smaller
/// byte or none.
pub proof fn lemma_key_before_means(a: Seq<u8>, b: Seq<u8>, n: int)
    requires
        0 <= n <= a.len(),
        n <= b.len(),
        forall|i: int| 0 <= i < n ==> a[i] == b[i],
        n < a.len() && n < b.len() ==> a[n] != b[n],
    ensures
        key_before(a, b) <==> n < b.len() && (n == a.len() || a[n] < b[n]),
    decreases n,
{
    if n > 0 {
        let (x, y) = (a.drop_first(), b.drop_first());
        assert forall|i: int| 0 <= i < n - 1 implies x[i] == y[i] by {
            assert(a[i + 1] == b[i + 1]);
        }
        assert(a[0] == b[0]);
        lemma_key_before_means(x, y, n - 1);
    }
}

} // verus!
