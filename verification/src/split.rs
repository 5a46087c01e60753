//! How a change that is too large for one block is cut into pieces.
use crate::block::MAX_BLOCK_SIZE;
use crate::change::{
    change_atoms, change_end, change_follows, change_lamport_end, change_len, change_valid, changes_atoms, changes_end,
    changes_lamport_end, changes_valid, lamports_ordered, lemma_ops_atoms_prefix, ChangeView,
};
use crate::format::{size_sum, StorageFormat};
use crate::ids::{Counter, Lamport, ID};
use crate::op::{
    lemma_ops_atoms_concat, lemma_ops_atoms_take, lemma_ops_from_valid, lemma_ops_len, lemma_rle_push, op_follows,
    op_valid, ops_atoms, ops_from, rle_push,
};
use vstd::prelude::*;

verus! {

/// How far a change has been cut.
#[verifier::ext_equal]
pub struct SplitView<V> {
    /// The pieces that have been cut off.
    pub pieces: Seq<ChangeView<V>>,
    /// The piece that operations are being put in.
    pub cur: ChangeView<V>,
    /// The estimated storage size of `cur`.
    pub size: usize,
}

/// The room that is left in a block of the given size.
pub open spec fn room(size: usize) -> usize {
    if size < MAX_BLOCK_SIZE {
        (MAX_BLOCK_SIZE - size) as usize
    } else {
        0
    }
}

/// The change, still without operations, that comes right after `c` and depends on
/// nothing else.
pub open spec fn next_change<O: StorageFormat>(c: ChangeView<O::V>) -> ChangeView<O::V> {
    let end = change_end::<O>(c) as Counter;
    ChangeView {
        ops: seq![],
        deps: seq![ID { peer: c.id.peer, counter: (end - 1) as Counter }],
        id: ID { peer: c.id.peer, counter: end },
        lamport: change_lamport_end::<O>(c) as Lamport,
        timestamp: c.timestamp,
    }
}

/// Cuts off the piece that operations are being put in, unless it has none.
pub open spec fn split_off<O: StorageFormat>(st: SplitView<O::V>) -> SplitView<O::V> {
    if st.cur.ops.len() == 0 {
        st
    } else {
        let next = next_change::<O>(st.cur);
        SplitView { pieces: st.pieces.push(st.cur), cur: next, size: O::change_size(next) }
    }
}

/// Puts an operation in the piece.
pub open spec fn split_put<O: StorageFormat>(st: SplitView<O::V>, op: O::V) -> SplitView<O::V> {
    SplitView { cur: ChangeView { ops: rle_push::<O>(st.cur.ops, op), ..st.cur }, ..st }
}

/// What is left of an operation after its first `end` atoms, if anything is.
pub open spec fn rest_of<O: StorageFormat>(op: O::V, end: int) -> Option<O::V> {
    let rest = O::part(op, end, O::atoms(op).len() as int);
    if end < O::atoms(op).len() && O::atoms(rest).len() < O::atoms(op).len() {
        Some(rest)
    } else {
        None
    }
}

/// Cuts parts off an operation, each of which takes the rest of the room and ends a
/// piece, as long as the operation asks for a cut. Gives what is left of it.
pub open spec fn split_cut<O: StorageFormat>(st: SplitView<O::V>, op: O::V) -> (SplitView<O::V>, Option<O::V>)
    decreases O::atoms(op).len(),
{
    match O::cut_to_fit(op, room(st.size)) {
        Some(end) => {
            let st1 = split_off::<O>(split_put::<O>(st, O::part(op, 0, end as int)));
            match rest_of::<O>(op, end as int) {
                Some(rest) => split_cut::<O>(st1, rest),
                None => (st1, None),
            }
        },
        None => (st, Some(op)),
    }
}

/// Puts what was left of an operation in the piece, or in one of its own where the
/// piece would become too large.
pub open spec fn split_rest<O: StorageFormat>(st: SplitView<O::V>, op: O::V) -> SplitView<O::V> {
    let size = size_sum(st.size, O::storage_size(op));
    if size > MAX_BLOCK_SIZE && st.cur.ops.len() > 0 {
        split_put::<O>(split_off::<O>(st), op)
    } else {
        split_put::<O>(SplitView { size, ..st }, op)
    }
}

/// Goes on with the next operation.
pub open spec fn split_op<O: StorageFormat>(st: SplitView<O::V>, op: O::V) -> SplitView<O::V> {
    let st1 = if O::storage_size(op) >= room(st.size) {
        split_off::<O>(st)
    } else {
        st
    };
    let (st2, left) = split_cut::<O>(st1, op);
    match left {
        Some(op) => split_rest::<O>(st2, op),
        None => st2,
    }
}

/// Goes on with each of the operations.
pub open spec fn split_ops<O: StorageFormat>(st: SplitView<O::V>, ops: Seq<O::V>) -> SplitView<O::V>
    decreases ops.len(),
{
    if ops.len() == 0 {
        st
    } else {
        split_op::<O>(split_ops::<O>(st, ops.drop_last()), ops.last())
    }
}

/// Where cutting `c` starts.
pub open spec fn split_start<O: StorageFormat>(c: ChangeView<O::V>) -> SplitView<O::V> {
    let cur = ChangeView { ops: seq![], ..c };
    SplitView { pieces: seq![], cur, size: O::change_size(cur) }
}

/// The pieces that `c` is cut into.
pub open spec fn split_pieces<O: StorageFormat>(c: ChangeView<O::V>) -> Seq<ChangeView<O::V>> {
    split_off::<O>(split_ops::<O>(split_start::<O>(c), c.ops)).pieces
}

/// `x` has the identity, the clocks and the dependencies of the piece of `c` that comes
/// after the first `k` of `pieces`.
pub open spec fn piece_starts<O: StorageFormat>(
    c: ChangeView<O::V>,
    pieces: Seq<ChangeView<O::V>>,
    k: int,
    x: ChangeView<O::V>,
) -> bool {
    if k == 0 {
        x == (ChangeView { ops: x.ops, ..c })
    } else {
        x == (ChangeView { ops: x.ops, ..next_change::<O>(pieces[k - 1]) })
    }
}

/// Piece `k` is a valid change that comes right after the ones before it.
pub open spec fn piece_valid<O: StorageFormat>(
    c: ChangeView<O::V>,
    pieces: Seq<ChangeView<O::V>>,
    k: int,
) -> bool {
    change_valid::<O>(pieces[k]) && piece_starts::<O>(c, pieces, k, pieces[k])
}

/// The first `n` atoms of `c` have been cut: they are in the pieces.
pub open spec fn split_valid<O: StorageFormat>(st: SplitView<O::V>, c: ChangeView<O::V>, n: int) -> bool {
    &&& 0 <= n <= change_len::<O>(c)
    &&& forall|k: int| 0 <= k < st.pieces.len() ==> #[trigger] piece_valid::<O>(c, st.pieces, k)
    &&& piece_starts::<O>(c, st.pieces, st.pieces.len() as int, st.cur)
    &&& ops_from::<O>(st.cur.ops, st.cur.id.counter as int)
    &&& changes_atoms::<O>(st.pieces) + ops_atoms::<O>(st.cur.ops) == change_atoms::<O>(c).take(n)
    &&& st.cur.id.peer == c.id.peer
    &&& st.cur.id.counter == c.id.counter + changes_atoms::<O>(st.pieces).len()
    &&& st.cur.lamport == c.lamport + changes_atoms::<O>(st.pieces).len()
}

/// `op` holds the atoms of `c` from number `n` on.
pub open spec fn op_at<O: StorageFormat>(c: ChangeView<O::V>, n: int, op: O::V) -> bool {
    let len = O::atoms(op).len();
    &&& op_valid::<O>(op)
    &&& O::start(op) == c.id.counter + n
    &&& 0 <= n
    &&& n + len <= change_len::<O>(c)
    &&& O::atoms(op) == change_atoms::<O>(c).subrange(n, n + len)
}

/// The piece that is being filled is valid once it has an operation.
pub proof fn lemma_split_cur<O: StorageFormat>(st: SplitView<O::V>, c: ChangeView<O::V>, n: int)
    requires
        change_valid::<O>(c),
        split_valid::<O>(st, c, n),
    ensures
        st.cur.ops.len() > 0 ==> change_valid::<O>(st.cur) && change_len::<O>(st.cur) > 0,
        change_end::<O>(st.cur) == c.id.counter + n,
        change_lamport_end::<O>(st.cur) == c.lamport + n,
{
    assert(change_atoms::<O>(c).take(n).len() == n);
    lemma_ops_from_valid::<O>(st.cur.ops, st.cur.id.counter as int);
    lemma_ops_len::<O>(st.cur.ops);
}

/// Cutting off a piece keeps what has been cut.
pub proof fn lemma_split_off<O: StorageFormat>(st: SplitView<O::V>, c: ChangeView<O::V>, n: int)
    requires
        change_valid::<O>(c),
        split_valid::<O>(st, c, n),
    ensures
        split_valid::<O>(split_off::<O>(st), c, n),
        split_off::<O>(st).cur.ops.len() == 0,
{
    if st.cur.ops.len() > 0 {
        lemma_split_cur::<O>(st, c, n);
        let r = split_off::<O>(st);
        assert(r.pieces.drop_last() =~= st.pieces);
        assert(changes_atoms::<O>(r.pieces) == changes_atoms::<O>(st.pieces) + ops_atoms::<O>(st.cur.ops));
        assert(changes_atoms::<O>(r.pieces) + ops_atoms::<O>(r.cur.ops) =~= changes_atoms::<O>(r.pieces));
        assert forall|k: int| 0 <= k < r.pieces.len() implies #[trigger] piece_valid::<O>(c, r.pieces, k) by {
            if k < st.pieces.len() {
                assert(piece_valid::<O>(c, st.pieces, k));
            }
        }
        assert(change_atoms::<O>(c).take(n).len() == n);
    }
}

/// Putting an operation in a piece cuts its atoms.
pub proof fn lemma_split_put<O: StorageFormat>(st: SplitView<O::V>, c: ChangeView<O::V>, n: int, op: O::V)
    requires
        change_valid::<O>(c),
        split_valid::<O>(st, c, n),
        op_at::<O>(c, n, op),
    ensures
        split_valid::<O>(split_put::<O>(st, op), c, n + O::atoms(op).len()),
        split_put::<O>(st, op).cur.ops.len() > 0,
{
    let a = change_atoms::<O>(c);
    let len = O::atoms(op).len() as int;
    assert(a.take(n).len() == n);
    lemma_rle_push::<O>(st.cur.ops, op, st.cur.id.counter as int);
    let r = split_put::<O>(st, op);
    assert(changes_atoms::<O>(st.pieces) + (ops_atoms::<O>(st.cur.ops) + O::atoms(op)) =~= (changes_atoms::<O>(
        st.pieces,
    ) + ops_atoms::<O>(st.cur.ops)) + O::atoms(op));
    assert(a.take(n) + a.subrange(n, n + len) =~= a.take(n + len));
}

/// Cutting parts off an operation cuts their atoms.
pub proof fn lemma_split_cut<O: StorageFormat>(
    st: SplitView<O::V>,
    c: ChangeView<O::V>,
    n: int,
    op: O::V,
) -> (m: int)
    requires
        change_valid::<O>(c),
        split_valid::<O>(st, c, n),
        op_at::<O>(c, n, op),
    ensures
        split_valid::<O>(split_cut::<O>(st, op).0, c, m),
        match split_cut::<O>(st, op).1 {
            Some(rest) => op_at::<O>(c, m, rest) && m + O::atoms(rest).len() == n + O::atoms(op).len(),
            None => m == n + O::atoms(op).len(),
        },
    decreases O::atoms(op).len(),
{
    match O::cut_to_fit(op, room(st.size)) {
        Some(end) => {
            let len = O::atoms(op).len() as int;
            let a = change_atoms::<O>(c);
            O::lemma_cut(op, room(st.size));
            O::lemma_part(op, 0, end as int);
            let head = O::part(op, 0, end as int);
            assert(O::atoms(head) =~= a.subrange(n, n + end));
            lemma_split_put::<O>(st, c, n, head);
            lemma_split_off::<O>(split_put::<O>(st, head), c, n + end);
            let st1 = split_off::<O>(split_put::<O>(st, head));
            if end < len {
                O::lemma_part(op, end as int, len);
                let rest = O::part(op, end as int, len);
                assert(O::atoms(rest) =~= a.subrange(n + end, n + len));
                lemma_split_cut::<O>(st1, c, n + end, rest)
            } else {
                n + end
            }
        },
        None => n,
    }
}

/// Going on with an operation cuts its atoms.
pub proof fn lemma_split_op<O: StorageFormat>(st: SplitView<O::V>, c: ChangeView<O::V>, n: int, op: O::V)
    requires
        change_valid::<O>(c),
        split_valid::<O>(st, c, n),
        op_at::<O>(c, n, op),
    ensures
        split_valid::<O>(split_op::<O>(st, op), c, n + O::atoms(op).len()),
{
    lemma_split_off::<O>(st, c, n);
    let st1 = if O::storage_size(op) >= room(st.size) {
        split_off::<O>(st)
    } else {
        st
    };
    let m = lemma_split_cut::<O>(st1, c, n, op);
    let (st2, left) = split_cut::<O>(st1, op);
    if let Some(rest) = left {
        lemma_split_rest::<O>(st2, c, m, rest);
    }
}

/// Putting what was left of an operation in a piece cuts its atoms.
pub proof fn lemma_split_rest<O: StorageFormat>(st: SplitView<O::V>, c: ChangeView<O::V>, n: int, op: O::V)
    requires
        change_valid::<O>(c),
        split_valid::<O>(st, c, n),
        op_at::<O>(c, n, op),
    ensures
        split_valid::<O>(split_rest::<O>(st, op), c, n + O::atoms(op).len()),
{
    let size = size_sum(st.size, O::storage_size(op));
    lemma_split_off::<O>(st, c, n);
    lemma_split_put::<O>(split_off::<O>(st), c, n, op);
    let st1 = SplitView { size, ..st };
    assert(split_valid::<O>(st1, c, n));
    lemma_split_put::<O>(st1, c, n, op);
}

/// Operation `i` of a change holds the atoms after those of the operations before it.
pub proof fn lemma_op_at<O: StorageFormat>(c: ChangeView<O::V>, i: int)
    requires
        change_valid::<O>(c),
        0 <= i < c.ops.len(),
    ensures
        op_at::<O>(c, ops_atoms::<O>(c.ops.take(i)).len() as int, c.ops[i]),
        ops_atoms::<O>(c.ops.take(i + 1)).len() == ops_atoms::<O>(c.ops.take(i)).len() + O::atoms(c.ops[i]).len(),
{
    assert(op_follows::<O>(c.ops, c.id.counter as int, i));
    lemma_ops_atoms_take::<O>(c.ops, i);
    lemma_ops_atoms_prefix::<O>(c.ops, i + 1);
    lemma_ops_atoms_concat::<O>(c.ops.take(i + 1), c.ops.skip(i + 1));
    assert(c.ops.take(i + 1) + c.ops.skip(i + 1) =~= c.ops);
    let n = ops_atoms::<O>(c.ops.take(i)).len() as int;
    let len = O::atoms(c.ops[i]).len() as int;
    assert(O::atoms(c.ops[i]) =~= change_atoms::<O>(c).subrange(n, n + len));
}

/// Cutting starts with nothing cut.
pub proof fn lemma_split_start<O: StorageFormat>(c: ChangeView<O::V>)
    requires
        change_valid::<O>(c),
    ensures
        split_valid::<O>(split_start::<O>(c), c, 0),
{
    let st = split_start::<O>(c);
    assert(changes_atoms::<O>(st.pieces) + ops_atoms::<O>(st.cur.ops) =~= change_atoms::<O>(c).take(0));
}

/// Going on with the first `i` operations cuts their atoms.
pub proof fn lemma_split_ops<O: StorageFormat>(c: ChangeView<O::V>, i: int)
    requires
        change_valid::<O>(c),
        0 <= i <= c.ops.len(),
    ensures
        split_valid::<O>(
            split_ops::<O>(split_start::<O>(c), c.ops.take(i)),
            c,
            ops_atoms::<O>(c.ops.take(i)).len() as int,
        ),
    decreases i,
{
    if i == 0 {
        lemma_split_start::<O>(c);
    } else {
        lemma_split_ops::<O>(c, i - 1);
        lemma_op_at::<O>(c, i - 1);
        let st = split_ops::<O>(split_start::<O>(c), c.ops.take(i - 1));
        lemma_split_op::<O>(st, c, ops_atoms::<O>(c.ops.take(i - 1)).len() as int, c.ops[i - 1]);
        assert(c.ops.take(i).drop_last() =~= c.ops.take(i - 1));
    }
}

/// The pieces of a change are a history without holes that starts where the change does
/// and holds its atoms. The first piece depends on what the change depends on, each
/// other one on the atom right before it; the Lamport clocks go on from piece to piece,
/// and every piece has the timestamp of the change.
pub proof fn lemma_split_pieces<O: StorageFormat>(c: ChangeView<O::V>)
    requires
        change_valid::<O>(c),
    ensures
        changes_valid::<O>(split_pieces::<O>(c)),
        changes_atoms::<O>(split_pieces::<O>(c)) == change_atoms::<O>(c),
        changes_end::<O>(split_pieces::<O>(c)) == change_end::<O>(c),
        changes_lamport_end::<O>(split_pieces::<O>(c)) == change_lamport_end::<O>(c),
        lamports_ordered::<O>(split_pieces::<O>(c)),
        forall|k: int|
            0 <= k < split_pieces::<O>(c).len() ==> #[trigger] piece_valid::<O>(c, split_pieces::<O>(c), k),
{
    let n = change_len::<O>(c) as int;
    let st = split_ops::<O>(split_start::<O>(c), c.ops);
    lemma_split_ops::<O>(c, c.ops.len() as int);
    assert(c.ops.take(c.ops.len() as int) =~= c.ops);
    lemma_split_off::<O>(st, c, n);
    let r = split_off::<O>(st);
    let ps = r.pieces;
    assert(changes_atoms::<O>(ps) + ops_atoms::<O>(r.cur.ops) =~= changes_atoms::<O>(ps));
    assert(change_atoms::<O>(c).take(n) =~= change_atoms::<O>(c));
    lemma_ops_from_valid::<O>(c.ops, c.id.counter as int);
    lemma_ops_len::<O>(c.ops);
    assert(ps.len() > 0) by {
        if ps.len() == 0 {
            assert(changes_atoms::<O>(ps) =~= seq![]);
        }
    }
    assert forall|k: int| 0 <= k < ps.len() implies #[trigger] change_follows::<O>(ps, k) by {
        lemma_pieces_peer::<O>(c, ps, k);
        lemma_pieces_peer::<O>(c, ps, 0);
        assert(piece_valid::<O>(c, ps, k));
        if k > 0 {
            assert(piece_valid::<O>(c, ps, k - 1));
        }
    }
    assert(piece_valid::<O>(c, ps, ps.len() - 1));
    assert forall|i: int, j: int| 0 <= i < j < ps.len() implies change_lamport_end::<O>(#[trigger] ps[i]) <= (
    #[trigger] ps[j]).lamport by {
        lemma_pieces_lamports::<O>(c, ps, i, j);
    }
}

/// Every piece is of the peer of the change, and has its timestamp.
pub proof fn lemma_pieces_peer<O: StorageFormat>(c: ChangeView<O::V>, ps: Seq<ChangeView<O::V>>, k: int)
    requires
        forall|j: int| 0 <= j < ps.len() ==> #[trigger] piece_valid::<O>(c, ps, j),
        0 <= k < ps.len(),
    ensures
        ps[k].id.peer == c.id.peer,
        ps[k].timestamp == c.timestamp,
    decreases k,
{
    assert(piece_valid::<O>(c, ps, k));
    if k > 0 {
        lemma_pieces_peer::<O>(c, ps, k - 1);
    }
}

/// The Lamport clocks grow from piece to piece.
proof fn lemma_pieces_lamports<O: StorageFormat>(c: ChangeView<O::V>, ps: Seq<ChangeView<O::V>>, i: int, j: int)
    requires
        forall|k: int| 0 <= k < ps.len() ==> #[trigger] piece_valid::<O>(c, ps, k),
        0 <= i < j < ps.len(),
    ensures
        change_lamport_end::<O>(ps[i]) <= ps[j].lamport,
    decreases j,
{
    assert(piece_valid::<O>(c, ps, j));
    assert(piece_valid::<O>(c, ps, j - 1));
    if i < j - 1 {
        lemma_pieces_lamports::<O>(c, ps, i, j - 1);
    }
}

/// The operation has one atom, or it is not cut though it does not fit.
pub open spec fn uncuttable<O: StorageFormat>(op: O::V) -> bool {
    ||| O::atoms(op).len() == 1
    ||| exists|size: usize| O::storage_size(op) > size && #[trigger] O::cut_to_fit(op, size) is None
}

/// The piece fits in a block, or is one operation that cannot be cut further, or has no
/// room for any operation.
pub open spec fn piece_fits<O: StorageFormat>(p: ChangeView<O::V>) -> bool {
    ||| O::change_size(p) <= MAX_BLOCK_SIZE
    ||| p.ops.len() == 1 && uncuttable::<O>(p.ops[0])
    ||| O::change_size(ChangeView { ops: seq![], ..p }) >= MAX_BLOCK_SIZE
}

/// The pieces that have been cut off fit, and so does the one that is being filled, whose
/// size is not underestimated.
pub open spec fn sizes_fit<O: StorageFormat>(st: SplitView<O::V>) -> bool {
    &&& forall|k: int| 0 <= k < st.pieces.len() ==> piece_fits::<O>(#[trigger] st.pieces[k])
    &&& O::change_size(st.cur) <= st.size
    &&& st.cur.ops.len() == 0 ==> O::change_size(st.cur) == st.size && st.cur.ops == Seq::<O::V>::empty()
    &&& st.cur.ops.len() > 0 ==> {
        ||| st.size <= MAX_BLOCK_SIZE
        ||| st.cur.ops.len() == 1 && uncuttable::<O>(st.cur.ops[0])
        ||| O::change_size(ChangeView { ops: seq![], ..st.cur }) >= MAX_BLOCK_SIZE
    }
}

/// Cutting off a piece keeps the sizes.
proof fn lemma_off_fits<O: StorageFormat>(st: SplitView<O::V>)
    requires
        sizes_fit::<O>(st),
    ensures
        sizes_fit::<O>(split_off::<O>(st)),
        split_off::<O>(st).cur.ops.len() == 0,
{
    let r = split_off::<O>(st);
    assert forall|k: int| 0 <= k < r.pieces.len() implies piece_fits::<O>(#[trigger] r.pieces[k]) by {
        if k < st.pieces.len() {
            assert(r.pieces[k] == st.pieces[k]);
        }
    }
}

/// Cutting parts off an operation keeps the sizes, if the piece is empty to begin with.
proof fn lemma_cut_fits<O: StorageFormat>(st: SplitView<O::V>, op: O::V)
    requires
        sizes_fit::<O>(st),
        st.cur.ops.len() == 0,
        op_valid::<O>(op),
    ensures
        sizes_fit::<O>(split_cut::<O>(st, op).0),
        split_cut::<O>(st, op).0.cur.ops.len() == 0,
        split_cut::<O>(st, op).1 matches Some(rest) ==> O::cut_to_fit(
            rest,
            room(split_cut::<O>(st, op).0.size),
        ) is None,
    decreases O::atoms(op).len(),
{
    if let Some(end) = O::cut_to_fit(op, room(st.size)) {
        let len = O::atoms(op).len() as int;
        O::lemma_cut(op, room(st.size));
        O::lemma_part(op, 0, end as int);
        let head = O::part(op, 0, end as int);
        let st0 = split_put::<O>(st, head);
        O::lemma_change_size(st.cur, head);
        let mid = SplitView { size: size_sum(st.size, O::storage_size(head)), ..st0 };
        assert(ChangeView { ops: Seq::<O::V>::empty(), ..mid.cur } == st.cur);
        assert(mid.cur.ops[0] == head);
        if end == 1 {
            assert(O::atoms(head).len() == 1);
        }
        assert(sizes_fit::<O>(mid));
        lemma_off_fits::<O>(mid);
        let st1 = split_off::<O>(st0);
        assert(split_off::<O>(mid) == st1);
        if end < len {
            O::lemma_part(op, end as int, len);
            lemma_cut_fits::<O>(st1, O::part(op, end as int, len));
        }
    }
}

/// Going on with an operation keeps the sizes.
proof fn lemma_op_fits<O: StorageFormat>(st: SplitView<O::V>, op: O::V)
    requires
        sizes_fit::<O>(st),
        op_valid::<O>(op),
    ensures
        sizes_fit::<O>(split_op::<O>(st, op)),
{
    if O::storage_size(op) >= room(st.size) {
        lemma_off_fits::<O>(st);
        let st1 = split_off::<O>(st);
        lemma_cut_fits::<O>(st1, op);
        let (st2, left) = split_cut::<O>(st1, op);
        if let Some(rest) = left {
            O::lemma_change_size(st2.cur, rest);
            let r = split_rest::<O>(st2, rest);
            assert(ChangeView { ops: Seq::<O::V>::empty(), ..r.cur } == st2.cur);
            assert(r.cur.ops[0] == rest);
            if O::storage_size(rest) > room(st2.size) {
                assert(O::cut_to_fit(rest, room(st2.size)) is None);
            }
        }
    } else {
        O::lemma_cut(op, room(st.size));
        O::lemma_change_size(st.cur, op);
    }
}

/// Every piece of a change fits in a block, or is one operation that cannot be cut further,
/// or has so many dependencies that it has no room for any operation.
pub proof fn lemma_split_fits<O: StorageFormat>(c: ChangeView<O::V>)
    requires
        change_valid::<O>(c),
    ensures
        forall|k: int| 0 <= k < split_pieces::<O>(c).len() ==> piece_fits::<O>(#[trigger] split_pieces::<O>(c)[k]),
{
    lemma_ops_fit::<O>(c, c.ops.len() as int);
    assert(c.ops.take(c.ops.len() as int) =~= c.ops);
    lemma_off_fits::<O>(split_ops::<O>(split_start::<O>(c), c.ops));
}

/// Going on with the first `i` operations keeps the sizes.
proof fn lemma_ops_fit<O: StorageFormat>(c: ChangeView<O::V>, i: int)
    requires
        change_valid::<O>(c),
        0 <= i <= c.ops.len(),
    ensures
        sizes_fit::<O>(split_ops::<O>(split_start::<O>(c), c.ops.take(i))),
    decreases i,
{
    if i > 0 {
        lemma_ops_fit::<O>(c, i - 1);
        assert(op_follows::<O>(c.ops, c.id.counter as int, i - 1));
        lemma_op_fits::<O>(split_ops::<O>(split_start::<O>(c), c.ops.take(i - 1)), c.ops[i - 1]);
        assert(c.ops.take(i).drop_last() =~= c.ops.take(i - 1));
    }
}

} // verus!
