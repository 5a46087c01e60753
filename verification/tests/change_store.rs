use bytes::Bytes;
use change_store::block::{ChangesBlock, ChangesBlockBytes, ChangesBlockContent, MAX_BLOCK_SIZE};
use change_store::block_ref::BlockChangeRef;
use change_store::change::{Change, Frontiers};
use change_store::change_store::{ChangeCollector, ChangeStore};
use change_store::format::{LoroError, LoroResult, StorageFormat};
use change_store::ids::{CounterSpan, IdLp, IdSpan, ID};
use change_store::kv_store::{KvStore, MemKvStore};
use change_store::op::{Operation, RleVec};
use change_store::raw_op::{Payload, RawOp};
use change_store::version::VersionVector;
use std::cmp::Ordering;

type Store = ChangeStore<RawOp, MemKvStore>;

fn new_for_test() -> Store {
    ChangeStore::new_mem((), 0)
}

fn run(counter: i32, container: u32, bytes: &[u8]) -> RawOp {
    RawOp { counter, container, payload: Payload::Run(bytes.to_vec()) }
}

fn value(counter: i32, container: u32, bytes: &[u8]) -> RawOp {
    RawOp { counter, container, payload: Payload::Value(bytes.to_vec()) }
}

fn change(peer: u64, counter: i32, lamport: u32, timestamp: i64, deps: &[(u64, i32)], ops: Vec<RawOp>) -> Change<RawOp> {
    Change {
        ops: RleVec { vec: ops },
        deps: Frontiers { ids: deps.iter().map(|d| ID::new(d.0, d.1)).collect() },
        id: ID::new(peer, counter),
        lamport,
        timestamp,
    }
}

fn insert(store: &mut Store, c: Change<RawOp>, split: bool) {
    assert!(c.is_valid());
    assert!(store.can_insert(&c, split));
    store.insert_change(c, split);
    assert!(store.is_valid());
}

type Plain = (ID, u32, i64, Vec<ID>, Vec<RawOp>);

fn plain(c: &Change<RawOp>) -> Plain {
    let ops = c.ops.vec.iter().map(|op| op.duplicate()).collect();
    (c.id, c.lamport, c.timestamp, c.deps.ids.clone(), ops)
}

fn all_changes(store: &mut Store) -> Vec<Plain> {
    let mut seen = ChangeCollector { changes: Vec::new() };
    store.visit_all_changes(&mut seen);
    seen.changes.iter().map(plain).collect()
}

fn all_atoms(changes: &[Plain]) -> Vec<(u64, i32, RawOp)> {
    let mut atoms = Vec::new();
    for c in changes {
        for op in &c.4 {
            for i in 0..op.atom_len() {
                atoms.push((c.0.peer, op.counter + i as i32, op.slice(i, i + 1)));
            }
        }
    }
    atoms
}

fn sorted_vv(vv: &VersionVector) -> Vec<(u64, i32)> {
    let mut entries = vv.entries();
    entries.sort();
    entries
}

fn check_encode_decode(mut store: Store) {
    let bytes = store.encode_all();
    let mut other = new_for_test();
    assert!(other.can_decode(&bytes));
    other.decode_all(bytes.clone()).unwrap();
    assert_eq!(sorted_vv(other.vv()), sorted_vv(store.vv()));
    assert_eq!(other.external_kv().export_all(), bytes);
    let changes_parsed = all_changes(&mut other);
    let changes = all_changes(&mut store);
    assert!(!changes.is_empty());
    assert_eq!(changes_parsed, changes);
}

#[test]
fn test_change_store() {
    let mut store = new_for_test();
    insert(&mut store, change(1, 0, 0, 100, &[], vec![run(0, 0, b"hello")]), true);
    insert(&mut store, change(1, 5, 5, 100, &[(1, 4)], vec![value(5, 1, b"hello")]), true);
    check_encode_decode(store);
}

#[test]
fn test_synced_doc() -> LoroResult<()> {
    let mut doc_a = new_for_test();
    // A: the initial structure
    let initial = change(1, 0, 0, 0, &[], vec![value(0, 0, b"text"), value(1, 0, b"list"), value(2, 0, b"tree")]);
    insert(&mut doc_a, initial, true);
    // B: edits of the text and the list
    let b_changes = change(
        2,
        0,
        3,
        0,
        &[(1, 2)],
        vec![value(0, 0, b"text"), run(1, 1, b"Hello, "), value(8, 0, b"list"), value(9, 2, b"world")],
    );
    // C: edits of the tree and the movable list
    let c_changes = change(
        3,
        0,
        3,
        0,
        &[(1, 2)],
        vec![
            value(0, 0, b"tree"),
            value(1, 3, b"create"),
            value(2, 4, b"key"),
            value(3, 4, b"value"),
            value(4, 3, b"create"),
            value(5, 3, b"move"),
            value(6, 0, b"movable"),
            value(7, 5, b"item1"),
            value(8, 5, b"item2"),
            value(9, 5, b"mov"),
        ],
    );
    insert(&mut doc_a, b_changes, true);
    insert(&mut doc_a, c_changes, true);
    check_encode_decode(doc_a);
    Ok(())
}

#[test]
fn empty_store_holds_nothing() {
    let mut store = new_for_test();
    assert!(all_changes(&mut store).is_empty());
    assert_eq!(store.change_num(), 0);
    assert_eq!(store.kv_size(), 0);
    assert!(store.get_change(ID::new(1, 0)).is_none());
    assert!(store.get_change_by_idlp(IdLp { peer: 1, lamport: 5 }).is_none());
    assert!(store.vv().entries().is_empty());
}

#[test]
fn inserting_adds_the_atoms_of_the_change() {
    let mut store = new_for_test();
    insert(&mut store, change(1, 0, 0, 0, &[], vec![run(0, 0, b"abc")]), false);
    let mut expected = all_atoms(&all_changes(&mut store));
    let next = change(1, 3, 3, 0, &[(1, 2)], vec![run(3, 0, b"de"), value(5, 1, b"v")]);
    expected.extend(all_atoms(&[plain(&next)]));
    insert(&mut store, next, false);
    let after = all_atoms(&all_changes(&mut store));
    assert_eq!(after, expected);
    assert_eq!(sorted_vv(store.vv()), vec![(1, 6)]);
}

#[test]
fn changes_made_soon_after_each_other_are_merged() {
    let mut store: Store = ChangeStore::new_mem((), 10);
    insert(&mut store, change(1, 0, 0, 100, &[], vec![run(0, 0, b"abc")]), false);
    insert(&mut store, change(1, 3, 3, 109, &[(1, 2)], vec![run(3, 0, b"de")]), false);
    assert_eq!(store.change_num(), 1);
    assert_eq!(all_changes(&mut store), vec![(ID::new(1, 0), 0, 100, vec![], vec![run(0, 0, b"abcde")])]);
    // too late
    insert(&mut store, change(1, 5, 5, 110, &[(1, 4)], vec![run(5, 0, b"f")]), false);
    assert_eq!(store.change_num(), 2);
    // depends on another peer
    insert(&mut store, change(1, 6, 6, 110, &[(2, 4)], vec![run(6, 0, b"g")]), false);
    assert_eq!(store.change_num(), 3);
    store.set_merge_interval(1000);
    insert(&mut store, change(1, 7, 7, 900, &[(1, 6)], vec![run(7, 0, b"h")]), false);
    assert_eq!(store.change_num(), 3);
}

#[test]
fn a_full_block_is_followed_by_another() {
    let mut store = new_for_test();
    let big = vec![7u8; 3000];
    insert(&mut store, change(1, 0, 0, 0, &[], vec![run(0, 0, &big)]), false);
    insert(&mut store, change(1, 3000, 3000, 5, &[(1, 2999)], vec![run(3000, 0, &big)]), false);
    let blocks = store.get_blocks_in_range(IdSpan { peer: 1, counter: CounterSpan { start: 0, end: 6000 } });
    let ids: Vec<ID> = blocks.iter().map(|b| b.id()).collect();
    assert_eq!(ids, vec![ID::new(1, 0), ID::new(1, 3000)]);
    assert_eq!(blocks[0].counter_range(), (0, 3000));
    assert_eq!(blocks[1].lamport_range(), (3000, 6000));
}

#[test]
fn a_large_change_is_split() {
    let text: Vec<u8> = (0..10000u32).map(|i| (i % 251) as u8).collect();
    let c = change(1, 0, 7, 3, &[(9, 9)], vec![run(0, 0, &text), value(10000, 1, b"v")]);
    let atoms = all_atoms(&[plain(&c)]);
    let mut store = new_for_test();
    insert(&mut store, c, true);
    let changes = all_changes(&mut store);
    assert_eq!(all_atoms(&changes), atoms);
    assert!(changes.len() > 2);
    assert_eq!(changes[0].3, vec![ID::new(9, 9)]);
    let mut counter = 0;
    for (i, c) in changes.iter().enumerate() {
        let len: usize = c.4.iter().map(|op| op.atom_len()).sum();
        assert_eq!(c.0, ID::new(1, counter));
        assert_eq!(c.1, 7 + counter as u32);
        assert_eq!(c.2, 3);
        if i > 0 {
            assert_eq!(c.3, vec![ID::new(1, counter - 1)]);
        }
        counter += len as i32;
    }
    assert_eq!(counter, 10001);
    assert_eq!(sorted_vv(store.vv()), vec![(1, 10001)]);
    check_encode_decode(store);
}

#[test]
fn the_first_piece_takes_the_room_of_a_block() {
    let text = vec![1u8; 5000];
    let mut store = new_for_test();
    insert(&mut store, change(1, 0, 0, 0, &[], vec![run(0, 0, &text)]), true);
    let changes = all_changes(&mut store);
    // a block of 4096 bytes, less 24 for the change and 16 for the operation
    assert_eq!(changes[0].4[0].atom_len(), 4056);
    assert_eq!(changes[1].4[0].atom_len(), 944);
    assert_eq!(changes.len(), 2);
}

#[test]
fn pieces_fit_in_a_block() {
    let text = vec![1u8; 9000];
    let ops = vec![value(0, 1, b"v"), run(1, 0, &text), value(9001, 1, &text[..3000]), run(9002, 0, &text[..2000])];
    let mut store = new_for_test();
    insert(&mut store, change(1, 0, 0, 0, &[], ops), true);
    let mut seen = ChangeCollector { changes: Vec::new() };
    store.visit_all_changes(&mut seen);
    for c in &seen.changes {
        assert!(RawOp::estimate_change_size(c) <= MAX_BLOCK_SIZE);
    }
    assert_eq!(sorted_vv(store.vv()), vec![(1, 11002)]);
}

#[test]
fn values_are_not_cut() {
    let big = vec![1u8; 5000];
    let mut store = new_for_test();
    let ops = vec![value(0, 0, &big), value(1, 0, b"x"), value(2, 0, &big)];
    insert(&mut store, change(1, 0, 0, 0, &[], ops), true);
    let changes = all_changes(&mut store);
    let lens: Vec<usize> = changes.iter().map(|c| c.4.len()).collect();
    assert_eq!(lens, vec![1, 1, 1]);
    assert_eq!(sorted_vv(store.vv()), vec![(1, 3)]);
}

#[test]
fn a_large_change_is_kept_whole_where_no_split_is_asked_for() {
    let text = vec![1u8; 5000];
    let mut store = new_for_test();
    insert(&mut store, change(1, 0, 0, 0, &[], vec![run(0, 0, &text)]), false);
    assert_eq!(store.change_num(), 1);
    assert_eq!(all_changes(&mut store)[0].4[0].atom_len(), 5000);
}

#[test]
fn only_a_change_that_comes_next_can_be_inserted() {
    let mut store = new_for_test();
    assert!(!store.can_insert(&change(1, 2, 0, 0, &[], vec![run(2, 0, b"a")]), false));
    insert(&mut store, change(1, 0, 0, 0, &[], vec![run(0, 0, b"abc")]), false);
    assert!(!store.can_insert(&change(1, 2, 0, 0, &[], vec![run(2, 0, b"a")]), false));
    assert!(!store.can_insert(&change(1, 4, 0, 0, &[], vec![run(4, 0, b"a")]), false));
    assert!(store.can_insert(&change(1, 3, 0, 0, &[], vec![run(3, 0, b"a")]), false));
    assert!(store.can_insert(&change(2, 0, 0, 0, &[], vec![run(0, 0, b"a")]), false));
    assert!(!change(1, 3, 0, 0, &[], vec![run(4, 0, b"a")]).is_valid());
    assert!(!change(1, 3, 0, 0, &[], vec![]).is_valid());
    assert!(!change(1, -1, 0, 0, &[], vec![run(-1, 0, b"a")]).is_valid());
    assert!(!change(1, 0, u32::MAX, 0, &[], vec![run(0, 0, b"a")]).is_valid());
    assert!(!change(1, 0, 0, 0, &[], vec![run(0, 0, b"")]).is_valid());
}

#[test]
fn the_lamport_clocks_of_a_merged_change_are_limited() {
    let mut store: Store = ChangeStore::new_mem((), 10);
    insert(&mut store, change(1, 0, u32::MAX - 3, 0, &[], vec![run(0, 0, b"abc")]), false);
    let merged = change(1, 3, 0, 0, &[(1, 2)], vec![run(3, 0, b"a")]);
    assert!(!store.can_insert(&merged, false));
    store.flush_and_compact();
    assert!(!store.can_insert(&merged, false));
    // too late to be merged, or not after the change before it alone
    assert!(store.can_insert(&change(1, 3, 0, 100, &[(1, 2)], vec![run(3, 0, b"a")]), false));
    insert(&mut store, change(1, 3, 0, 0, &[], vec![run(3, 0, b"a")]), false);
    assert_eq!(store.change_num(), 2);
    // pieces are cut before it is known whether the first is merged
    let big = vec![1u8; 5000];
    let mut store: Store = ChangeStore::new_mem((), 10);
    insert(&mut store, change(1, 0, u32::MAX - 3, 0, &[], vec![run(0, 0, b"abc")]), false);
    let large = change(1, 3, 0, 0, &[(1, 2)], vec![run(3, 0, &big)]);
    assert!(!store.can_insert(&large, true));
    let large = change(1, 3, 0, 0, &[], vec![run(3, 0, &big)]);
    insert(&mut store, large, true);
}

fn two_peers() -> Store {
    let mut store = new_for_test();
    insert(&mut store, change(1, 0, 0, 0, &[], vec![run(0, 0, b"abc")]), false);
    insert(&mut store, change(1, 3, 10, 0, &[(2, 1)], vec![run(3, 0, b"de"), value(5, 1, b"v")]), false);
    insert(&mut store, change(2, 0, 3, 0, &[(1, 2)], vec![value(0, 1, b"w"), value(1, 1, b"x")]), false);
    store
}

#[test]
fn a_change_is_found_by_the_identity_of_any_atom() {
    let mut store = two_peers();
    for (counter, index) in [(0, 0), (2, 0), (3, 1), (5, 1)] {
        let c = store.get_change(ID::new(1, counter)).unwrap();
        assert_eq!(c.change_index, index);
    }
    assert_eq!(store.get_change(ID::new(2, 1)).unwrap().deref().lamport, 3);
    assert!(store.get_change(ID::new(1, 6)).is_none());
    assert!(store.get_change(ID::new(2, 2)).is_none());
    assert!(store.get_change(ID::new(1, -1)).is_none());
    assert!(store.get_change(ID::new(3, 0)).is_none());
}

#[test]
fn a_stored_change_is_found_though_nothing_is_in_memory() {
    let mut store = new_for_test();
    insert(&mut store, change(1, 0, 0, 0, &[], vec![run(0, 0, b"abcde")]), false);
    insert(&mut store, change(1, 5, 5, 0, &[(1, 4)], vec![run(5, 0, b"fghij")]), false);
    let bytes = store.encode_all();
    let mut other = new_for_test();
    other.decode_all(bytes).unwrap();
    assert!(other.is_valid());
    assert_eq!(other.change_num(), 0);
    let c = other.get_change(ID::new(1, 7)).unwrap();
    assert_eq!(c.deref().id, ID::new(1, 5));
    assert_eq!(c.deref().atom_len(), 5);
    assert_eq!(other.change_num(), 2);
}

#[test]
fn a_stored_change_is_found_by_the_identity_of_any_atom() {
    let mut store = two_peers();
    store.flush_and_compact();
    for (peer, counter, first) in [(1, 0, 0), (1, 2, 0), (1, 3, 3), (1, 5, 3), (2, 0, 0), (2, 1, 0)] {
        let mut fork = store.fork((), 0);
        let c = fork.get_change(ID::new(peer, counter)).unwrap();
        assert_eq!(c.deref().id, ID::new(peer, first));
    }
    let mut fork = store.fork((), 0);
    for (peer, counter) in [(1, 6), (1, -1), (2, 2), (2, 7), (0, 0), (5, 0)] {
        assert!(fork.get_change(ID::new(peer, counter)).is_none());
    }
    // nothing was read for what is not there
    assert_eq!(fork.change_num(), 0);
}

#[test]
fn a_change_is_found_by_its_lamport_clock() {
    let mut store = two_peers();
    for (lamport, counter) in [(0, 0), (2, 0), (5, 0), (9, 0), (10, 3), (12, 3), (100, 3)] {
        let c = store.get_change_by_idlp(IdLp { peer: 1, lamport }).unwrap();
        assert_eq!(c.deref().id, ID::new(1, counter), "{}", lamport);
    }
    assert!(store.get_change_by_idlp(IdLp { peer: 2, lamport: 2 }).is_none());
    assert_eq!(store.get_change_by_idlp(IdLp { peer: 2, lamport: 3 }).unwrap().deref().id, ID::new(2, 0));
    assert!(store.get_change_by_idlp(IdLp { peer: 3, lamport: 50 }).is_none());
}

#[test]
fn a_stored_change_is_found_by_its_lamport_clock() {
    let mut store = new_for_test();
    let big = vec![7u8; 3000];
    for i in 0..3 {
        let counter = i * 3000;
        insert(&mut store, change(1, counter, 10 + 2 * counter as u32, 0, &[], vec![run(counter, 0, &big)]), false);
    }
    store.flush_and_compact();
    let mut fork = store.fork((), 0);
    assert!(fork.get_change_by_idlp(IdLp { peer: 1, lamport: 9 }).is_none());
    for (lamport, counter) in [(100000, 6000), (6010, 3000), (6009, 0), (12009, 3000), (12010, 6000), (10, 0)] {
        let c = fork.get_change_by_idlp(IdLp { peer: 1, lamport }).unwrap();
        assert_eq!(c.deref().id, ID::new(1, counter), "{}", lamport);
    }
}

#[test]
fn an_operation_is_found_in_its_change() {
    let mut store = two_peers();
    let c = store.get_change(ID::new(1, 4)).unwrap();
    assert!(c.get_op_with_counter(6).is_none());
    let op = c.get_op_with_counter(4).unwrap();
    assert_eq!(op.op_index, 0);
    assert_eq!(op.deref(), &run(3, 0, b"de"));
    assert_eq!(op.lamport(), 10);
    let op = c.clone().get_op_with_counter(5).unwrap().clone();
    assert_eq!(op.op_index, 1);
    assert_eq!(op.deref(), &value(5, 1, b"v"));
    assert_eq!(op.lamport(), 12);
}

fn span(peer: u64, start: i32, end: i32) -> IdSpan {
    IdSpan { peer, counter: CounterSpan { start, end } }
}

fn ids(refs: &[BlockChangeRef<RawOp>]) -> Vec<(u64, i32)> {
    refs.iter().map(|r| (r.deref().id.peer, r.deref().id.counter)).collect()
}

fn iter(store: &mut Store, s: IdSpan) -> Vec<(u64, i32)> {
    ids(&store.iter_changes(s))
}

fn three_blocks() -> Store {
    let mut store = new_for_test();
    let big = vec![7u8; 2000];
    insert(&mut store, change(1, 0, 0, 0, &[], vec![run(0, 0, b"abc")]), false);
    insert(&mut store, change(2, 0, 0, 0, &[], vec![run(0, 0, &big)]), false);
    insert(&mut store, change(2, 2000, 2000, 0, &[], vec![run(2000, 0, &big)]), false);
    insert(&mut store, change(2, 4000, 4000, 0, &[], vec![run(4000, 0, &big)]), false);
    insert(&mut store, change(2, 6000, 6000, 0, &[], vec![run(6000, 0, &big)]), false);
    insert(&mut store, change(2, 8000, 8000, 0, &[], vec![run(8000, 0, &big)]), false);
    store
}

#[test]
fn the_changes_of_a_span_are_found() {
    let mut store = three_blocks();
    let all = vec![(2, 0), (2, 2000), (2, 4000), (2, 6000), (2, 8000)];
    assert_eq!(iter(&mut store, span(2, 0, 10000)), all);
    assert_eq!(iter(&mut store, span(2, 0, 100000)), all);
    assert_eq!(iter(&mut store, span(1, 0, 3)), vec![(1, 0)]);
    assert_eq!(iter(&mut store, span(2, 2500, 2600)), vec![(2, 2000)]);
    assert_eq!(iter(&mut store, span(2, 1999, 4001)), vec![(2, 0), (2, 2000), (2, 4000)]);
    assert_eq!(iter(&mut store, span(2, 4500, 8500)), vec![(2, 4000), (2, 6000), (2, 8000)]);
    // the end of the span is in a change, which is taken
    assert_eq!(iter(&mut store, span(2, 0, 2000)), vec![(2, 0), (2, 2000)]);
    assert!(iter(&mut store, span(3, 0, 100000)).is_empty());
    // the last block before the span is of another peer, and starts beyond its end
    assert!(iter(&mut store, span(3, 0, 10)).is_empty());
    // the history ends where the span starts
    assert_eq!(iter(&mut store, span(2, 10000, 20000)), vec![(2, 8000)]);
    assert!(iter(&mut store, span(2, 10001, 20000)).is_empty());
    // peer 1 has a block at the same counter
    assert_eq!(iter(&mut store, span(2, -5, 10)), vec![(2, 0)]);
    assert!(iter(&mut store, span(2, -5, -2)).is_empty());
}

#[test]
fn the_changes_of_a_span_are_read_from_the_stored_blocks() {
    let mut store = three_blocks();
    store.flush_and_compact();
    let mut fork = store.fork((), 0);
    let all = vec![(2, 0), (2, 2000), (2, 4000), (2, 6000), (2, 8000)];
    assert_eq!(iter(&mut fork, span(2, 0, 10000)), all);
    // the block that holds the start does not start there
    let mut fork = store.fork((), 0);
    assert_eq!(iter(&mut fork, span(2, 2500, 10000)), vec![(2, 2000), (2, 4000), (2, 6000), (2, 8000)]);
    // the span is inside of one block
    let mut fork = store.fork((), 0);
    assert_eq!(iter(&mut fork, span(2, 6500, 6600)), vec![(2, 6000)]);
    // a span that starts before the history does
    let mut fork = store.fork((), 0);
    assert_eq!(iter(&mut fork, span(2, -5, 10)), vec![(2, 0)]);
    let mut fork = store.fork((), 0);
    let blocks = fork.get_blocks_in_range(span(2, 2500, 4500));
    let ranges: Vec<(i32, i32)> = blocks.iter().map(|b| b.counter_range()).collect();
    assert_eq!(ranges, vec![(0, 4000), (4000, 8000)]);
    assert_eq!(fork.change_num(), 4);
}

#[test]
fn the_changes_of_a_span_do_not_depend_on_what_is_in_memory() {
    let mut store = three_blocks();
    store.flush_and_compact();
    let mut warm = store.fork((), 0);
    all_changes(&mut warm);
    let ends = [-3, 0, 1, 1999, 2000, 2001, 3999, 4000, 4001, 5000, 8000, 9999, 10000, 10001, 20000];
    for start in ends {
        for end in ends {
            if start <= end {
                for peer in [0, 1, 2, 3] {
                    let s = span(peer, start, end);
                    let mut cold = store.fork((), 0);
                    assert_eq!(iter(&mut cold, s), iter(&mut warm, s), "{} {} {}", peer, start, end);
                    let mut cold = store.fork((), 0);
                    let a: Vec<ID> = cold.get_blocks_in_range(s).iter().map(|b| b.id()).collect();
                    let b: Vec<ID> = warm.get_blocks_in_range(s).iter().map(|b| b.id()).collect();
                    assert_eq!(a, b);
                    assert!(cold.is_valid());
                }
            }
        }
    }
}

fn decoded(entries: &[(u64, i32)], vv: &[(u64, i32)]) -> Store {
    let mut kv = MemKvStore::new();
    for (peer, counter) in entries {
        let c = change(*peer, *counter, 0, 0, &[], vec![run(*counter, 0, b"abcd")]);
        kv.set(&ID::new(*peer, *counter).to_bytes(), Bytes::from(RawOp::encode_block(&vec![c], &())));
    }
    let mut known = VersionVector::new();
    for (peer, counter) in vv {
        known.insert(*peer, *counter);
    }
    kv.set(b"vv", Bytes::from(RawOp::encode_vv(&known)));
    let mut store = new_for_test();
    store.decode_all(kv.export_all()).unwrap();
    assert!(store.is_valid());
    store
}

#[test]
fn before_a_trimmed_history_the_block_of_another_peer_counts() {
    let stored = [(1, 0), (1, 4), (2, 2), (2, 6)];
    let known = [(1, 8), (2, 10)];
    // nothing else is in memory
    let mut store = decoded(&stored, &known);
    assert_eq!(iter(&mut store, span(2, 1, 8)), vec![(2, 2), (2, 6)]);
    // the nearest block in memory is that of peer 1 at counter 4
    let mut store = decoded(&stored, &known);
    all_changes(&mut store);
    assert_eq!(iter(&mut store, span(2, 1, 8)), vec![(2, 6)]);
    assert_eq!(store.get_blocks_in_range(span(2, 1, 8)).len(), 1);
    // where the history goes back to the start, no other peer counts
    assert_eq!(iter(&mut store, span(2, 2, 8)), vec![(2, 2), (2, 6)]);
    assert_eq!(iter(&mut store, span(2, 5, 8)), vec![(2, 2), (2, 6)]);
}

#[test]
fn the_ends_of_a_span_may_be_swapped() {
    let mut store = new_for_test();
    insert(&mut store, change(1, 0, 0, 0, &[], vec![run(0, 0, b"abcdefghij")]), false);
    let blocks = store.get_blocks_in_range(span(1, 5, 3));
    assert_eq!(blocks.len(), 1);
    assert_eq!(blocks[0].counter_range(), (0, 10));
    assert_eq!(iter(&mut store, span(1, 5, 3)), vec![(1, 0)]);
    insert(&mut store, change(1, 10, 10, 0, &[], vec![run(10, 0, b"abc")]), false);
    assert!(iter(&mut store, span(1, 11, 3)).is_empty());
    assert!(store.get_blocks_in_range(span(1, 5, 0)).is_empty());
}

#[test]
fn a_short_span_is_read_after_decoding() {
    let mut store = new_for_test();
    insert(&mut store, change(1, 0, 0, 0, &[], vec![run(0, 0, b"abcde")]), false);
    insert(&mut store, change(1, 5, 5, 0, &[(1, 4)], vec![run(5, 0, b"fghij")]), false);
    let bytes = store.encode_all();
    let mut other = new_for_test();
    other.decode_all(bytes).unwrap();
    assert_eq!(iter(&mut other, span(1, 6, 8)), vec![(1, 5)]);
    assert_eq!(iter(&mut other, span(1, 3, 4)), vec![(1, 0)]);
}

#[test]
fn the_changes_of_a_span_follow_one_another() {
    let mut store = new_for_test();
    for i in 0..40 {
        let ops = vec![run(300 * i, 0, &vec![7u8; 300])];
        insert(&mut store, change(2, 300 * i, 300 * i as u32, 0, &[], ops), false);
    }
    store.flush_and_compact();
    let blocks: Vec<i32> = store.get_blocks_in_range(span(2, 0, 12000)).iter().map(|b| b.counter_range().0).collect();
    assert!(blocks.len() > 2);
    for (start, end) in [(0, 1), (299, 300), (300, 301), (1000, 5000), (4000, 12000), (11999, 12000), (7000, 90000)] {
        let mut fork = store.fork((), 0);
        let taken = iter(&mut fork, span(2, start, end));
        assert!(taken[0].1 <= start && start < taken[0].1 + 300);
        for pair in taken.windows(2) {
            assert_eq!(pair[1].1, pair[0].1 + 300);
        }
        for i in 0..40 {
            let counter = 300 * i;
            let block = blocks.iter().filter(|b| **b <= counter).last().unwrap();
            let expected = counter + 300 > start && counter <= end && *block < end;
            assert_eq!(taken.contains(&(2, counter)), expected, "{} {} {}", start, end, counter);
        }
    }
}

#[test]
fn blocks_of_a_span_are_given_with_their_changes() {
    let mut store = three_blocks();
    store.flush_and_compact();
    let blocks = store.get_blocks_in_range(span(2, 0, 10000));
    let ranges: Vec<(i32, i32)> = blocks.iter().map(|b| b.counter_range()).collect();
    assert_eq!(ranges, vec![(0, 4000), (4000, 8000), (8000, 10000)]);
    for b in blocks.iter() {
        assert!(b.content().try_changes().is_some());
    }
    // neither the block that ends where the span starts nor the one that starts at its end
    let blocks = store.get_blocks_in_range(span(2, 4000, 4001));
    assert_eq!(blocks.len(), 1);
    let blocks = store.get_blocks_in_range(span(2, 3999, 4000));
    assert_eq!(blocks.len(), 1);
}

#[test]
fn a_block_that_grew_after_it_was_flushed_is_flushed_again() {
    let mut store: Store = ChangeStore::new_mem((), 10);
    insert(&mut store, change(1, 0, 0, 0, &[], vec![run(0, 0, b"abc")]), false);
    store.flush_and_compact();
    insert(&mut store, change(1, 3, 3, 0, &[(1, 2)], vec![run(3, 0, b"def")]), false);
    let expected = all_changes(&mut store);
    store.flush_and_compact();
    let mut fork = store.fork((), 10);
    assert_eq!(all_changes(&mut fork), expected);
    assert_eq!(expected[0].4, vec![run(0, 0, b"abcdef")]);
    check_encode_decode(store);
}

#[test]
fn a_reference_keeps_its_change_when_the_block_grows() {
    let mut store: Store = ChangeStore::new_mem((), 10);
    insert(&mut store, change(1, 0, 0, 0, &[], vec![run(0, 0, b"abc")]), false);
    let c = store.get_change(ID::new(1, 0)).unwrap();
    insert(&mut store, change(1, 3, 3, 0, &[(1, 2)], vec![run(3, 0, b"def")]), false);
    assert_eq!(c.deref().ops.vec, vec![run(0, 0, b"abc")]);
    assert_eq!(store.get_change(ID::new(1, 0)).unwrap().deref().ops.vec, vec![run(0, 0, b"abcdef")]);
}

#[test]
fn flushing_twice_changes_nothing() {
    let mut store = two_peers();
    let bytes = store.encode_all();
    let size = store.kv_size();
    assert_eq!(store.encode_all(), bytes);
    assert_eq!(store.kv_size(), size);
    assert_eq!(store.change_num(), 3);
}

#[test]
fn the_same_history_is_stored_as_the_same_bytes() {
    let mut store = new_for_test();
    let mut other = new_for_test();
    for peer in [1, 2, 3, 4, 5] {
        insert(&mut store, change(peer, 0, 0, 0, &[], vec![run(0, 0, b"abc")]), false);
        insert(&mut other, change(6 - peer, 0, 0, 0, &[], vec![run(0, 0, b"abc")]), false);
    }
    assert_eq!(store.encode_all(), other.encode_all());
}

#[test]
fn flushing_keeps_what_is_found() {
    let mut store = two_peers();
    let mut flushed = two_peers();
    flushed.flush_and_compact();
    assert_eq!(flushed.change_num(), store.change_num());
    for peer in 0..4 {
        for n in 0..20 {
            let a = store.get_change(ID::new(peer, n)).map(|c| plain(c.deref()));
            assert_eq!(flushed.get_change(ID::new(peer, n)).map(|c| plain(c.deref())), a);
            let idlp = IdLp { peer, lamport: n as u32 };
            let a = store.get_change_by_idlp(idlp).map(|c| plain(c.deref()));
            assert_eq!(flushed.get_change_by_idlp(idlp).map(|c| plain(c.deref())), a);
        }
    }
}

#[test]
fn inserting_keeps_the_earlier_changes() {
    let mut store: Store = ChangeStore::new_mem((), 10);
    insert(&mut store, change(1, 0, 0, 0, &[], vec![run(0, 0, b"abc")]), false);
    insert(&mut store, change(1, 3, 3, 100, &[(1, 2)], vec![run(3, 0, b"de")]), false);
    insert(&mut store, change(2, 0, 0, 0, &[], vec![run(0, 0, b"x")]), false);
    let before = all_changes(&mut store);
    insert(&mut store, change(1, 5, 5, 100, &[(1, 4)], vec![value(5, 0, b"v")]), false);
    let after = all_changes(&mut store);
    assert_eq!(after.len(), 3);
    assert_eq!(after[0], before[0]);
    assert_eq!(after[1], (ID::new(1, 3), 3, 100, vec![ID::new(1, 2)], vec![run(3, 0, b"de"), value(5, 0, b"v")]));
    assert_eq!(after[2], before[2]);
}

fn all_lamports(changes: &[Plain]) -> Vec<(i32, u32)> {
    let mut lamports = Vec::new();
    for c in changes {
        for op in &c.4 {
            for i in 0..op.atom_len() {
                let counter = op.counter + i as i32;
                lamports.push((counter, c.1 + (counter - c.0.counter) as u32));
            }
        }
    }
    lamports
}

#[test]
fn splitting_changes_neither_atoms_nor_lamport_clocks() {
    let text: Vec<u8> = (0..9000u32).map(|i| (i % 251) as u8).collect();
    let ops = || vec![run(0, 0, &text), value(9000, 1, b"v"), run(9001, 0, &text)];
    let mut whole = new_for_test();
    let mut cut = new_for_test();
    insert(&mut whole, change(1, 0, 7, 3, &[(9, 9)], ops()), false);
    insert(&mut cut, change(1, 0, 7, 3, &[(9, 9)], ops()), true);
    let (whole, cut) = (all_changes(&mut whole), all_changes(&mut cut));
    assert_eq!(whole.len(), 1);
    assert!(cut.len() > 3);
    assert_eq!(all_atoms(&whole), all_atoms(&cut));
    assert_eq!(all_lamports(&whole), all_lamports(&cut));
}

#[test]
fn a_history_from_the_start_has_every_atom() {
    let mut store: Store = ChangeStore::new_mem((), 10);
    let mut counter = 0;
    for i in 0..30 {
        let len = 1 + (i * 37) % 400;
        let ops = vec![run(counter, 0, &vec![i as u8; len as usize])];
        insert(&mut store, change(1, counter, counter as u32, 3 * i as i64, &[(1, counter - 1)], ops), i % 2 == 0);
        counter += len;
    }
    assert_eq!(sorted_vv(store.vv()), vec![(1, counter)]);
    store.flush_and_compact();
    let mut fork = store.fork((), 10);
    for n in -3..counter + 3 {
        for s in [&mut store, &mut fork] {
            match s.get_change(ID::new(1, n)) {
                Some(c) => assert!(0 <= n && n < counter && c.deref().id.counter <= n && n < c.deref().ctr_end()),
                None => assert!(n < 0 || counter <= n),
            }
        }
    }
}

#[test]
fn holes_are_noticed() {
    let mut store = three_blocks();
    assert!(store.is_valid());
    assert!(new_for_test().fork((), 0).is_valid());
    insert(&mut store, change(3, 0, 0, 0, &[], vec![run(0, 0, b"abc")]), false);
    store.flush_and_compact();
    assert!(store.fork((), 0).is_valid());
    insert(&mut store, change(3, 3, 3, 0, &[], vec![run(3, 0, b"d")]), false);
    // the fork knows of a change that was not stored, but can be read
    let mut fork = store.fork((), 0);
    assert!(!fork.is_valid());
    assert!(fork.is_readable());
    assert!(fork.is_flushable());
    assert_eq!(fork.get_change(ID::new(3, 2)).unwrap().deref().ctr_end(), 3);
    assert!(fork.get_change(ID::new(3, 3)).is_none());
    assert_eq!(iter(&mut fork, span(3, 0, 10)), vec![(3, 0)]);
    fork.flush_and_compact();
    assert!(fork.is_readable());
    assert!(!fork.is_valid());
    assert!(store.is_valid());
    // entries that do not go together
    let vv = store.vv().duplicate();
    let block = |counter: i32| {
        let c = change(1, counter, 0, 0, &[], vec![run(counter, 0, b"abc")]);
        RawOp::encode_block(&vec![c], &())
    };
    let decoded = |entries: Vec<(Vec<u8>, Vec<u8>)>| {
        let mut kv = MemKvStore::new();
        for (k, v) in entries {
            kv.set(&k, Bytes::from(v));
        }
        let mut store = new_for_test();
        store.decode_all(kv.export_all()).unwrap();
        store
    };
    let key = |counter: i32| ID::new(1, counter).to_bytes().to_vec();
    let mut six = VersionVector::new();
    six.insert(1, 6);
    let six = RawOp::encode_vv(&six);
    let vv_entry = (b"vv".to_vec(), six);
    assert!(decoded(vec![(key(0), block(0)), (key(3), block(3)), vv_entry.clone()]).is_valid());
    // the history may start later
    assert!(decoded(vec![(key(3), block(3)), vv_entry.clone()]).is_valid());
    assert!(decoded(vec![(key(0), block(0)), vv_entry.clone()]).is_readable());
    assert!(!decoded(vec![(key(0), block(0)), (key(4), block(4)), vv_entry.clone()]).is_readable());
    assert!(!decoded(vec![(key(1), block(1)), (key(3), block(3)), vv_entry.clone()]).is_readable());
    assert!(!decoded(vec![(key(3), vec![1, 2, 3]), vv_entry.clone()]).is_readable());
    // a hole at the end, an overlap, a block under another identity, bytes that are no block
    assert!(!decoded(vec![(key(0), block(0)), vv_entry.clone()]).is_valid());
    assert!(!decoded(vec![(key(1), block(1)), (key(3), block(3)), vv_entry.clone()]).is_valid());
    assert!(!decoded(vec![(key(2), block(3)), vv_entry.clone()]).is_valid());
    assert!(!decoded(vec![(key(3), vec![1, 2, 3]), vv_entry.clone()]).is_valid());
    // the history goes beyond what is known
    assert!(!decoded(vec![(key(4), block(4)), vv_entry]).is_valid());
    assert_eq!(sorted_vv(&vv), vec![(1, 3), (2, 10000), (3, 4)]);
}

#[test]
fn lamport_clocks_that_do_not_grow_lead_to_some_change_or_none() {
    let mut store = new_for_test();
    insert(&mut store, change(1, 0, 10, 0, &[], vec![run(0, 0, b"abc")]), false);
    insert(&mut store, change(1, 3, 2, 0, &[], vec![run(3, 0, b"de")]), false);
    assert!(store.get_change_by_idlp(IdLp { peer: 1, lamport: 5 }).is_none());
    assert_eq!(store.get_change_by_idlp(IdLp { peer: 1, lamport: 20 }).unwrap().deref().id.peer, 1);
    assert!(store.is_valid());
}

#[test]
fn a_store_goes_on_after_it_was_decoded() {
    let mut store = two_peers();
    let bytes = store.encode_all();
    let mut other = new_for_test();
    other.decode_all(bytes).unwrap();
    insert(&mut other, change(1, 6, 13, 0, &[(1, 5)], vec![run(6, 0, b"z")]), false);
    let changes = all_changes(&mut other);
    assert_eq!(changes.len(), 4);
    assert_eq!(changes[2].0, ID::new(1, 6));
    check_encode_decode(other);
}

#[test]
fn bytes_that_no_store_was_encoded_to_are_refused() {
    let mut store = two_peers();
    let bytes = store.encode_all();
    let before = store.external_kv().export_all();
    for broken in [bytes.slice(0..bytes.len() - 1), Bytes::from(vec![1, 2, 3])] {
        assert!(store.can_decode(&broken));
        match store.decode_all(broken) {
            Err(LoroError::DecodeError(e)) => assert_eq!(e, "bytes that are no entries"),
            Ok(_) => panic!(),
        }
    }
    let mut longer = bytes.to_vec();
    longer.push(0);
    match store.decode_all(Bytes::from(longer)) {
        Err(LoroError::DecodeError(e)) => assert_eq!(e, "bytes after the last entry"),
        Ok(_) => panic!(),
    }
    assert_eq!(store.external_kv().export_all(), before);
}

#[test]
fn entries_without_a_version_vector_are_not_decoded() {
    let empty = MemKvStore::new().export_all();
    assert!(!new_for_test().can_decode(&empty));
    let mut store = two_peers();
    store.flush_and_compact();
    assert!(store.can_decode(&empty));
    store.decode_all(empty).unwrap();
    assert_eq!(sorted_vv(store.vv()), vec![(1, 6), (2, 2)]);
}

#[test]
fn sizes_are_those_of_the_keys_and_values() {
    let mut store = two_peers();
    assert_eq!(store.kv_size(), 0);
    store.flush_and_compact();
    let mut expected = 0;
    for (k, v) in store.external_kv().scan(
        change_store::kv_store::KeyBound::Unbounded,
        change_store::kv_store::KeyBound::Unbounded,
    ) {
        expected += k.len() + v.len();
    }
    assert_eq!(store.kv_size(), expected);
    assert_eq!(store.checked_kv_size(), Some(expected));
    assert_eq!(store.checked_change_num(), Some(3));
    // two blocks under keys of twelve bytes, and the version vector
    assert!(expected > 26);
}

#[test]
fn a_block_is_read_back_from_its_bytes() {
    let mut block = ChangesBlock::new(change(1, 3, 9, 5, &[(1, 2)], vec![run(3, 0, b"abc")]), &());
    assert_eq!(block.id(), ID::new(1, 3));
    assert_eq!(block.change_num(), 1);
    assert_eq!(block.lamport_end(), 12);
    assert!(!block.is_stored());
    assert!(!block.is_full());
    let bytes = block.to_bytes(&());
    assert!(block.content().try_changes().is_none());
    assert_eq!(bytes.counter_range::<RawOp>(), (3, 6));
    assert_eq!(bytes.lamport_range::<RawOp>(), (9, 12));
    assert_eq!(bytes.len_changes::<RawOp>(), 1);
    let mut read = ChangesBlock::<RawOp>::from_bytes(bytes.bytes(), true).unwrap();
    assert_eq!(read.id(), ID::new(1, 3));
    assert_eq!(read.change_num(), 1);
    assert!(read.is_stored());
    assert!(read.content().try_changes().is_none());
    read.ensure_changes(&()).unwrap();
    assert_eq!(plain(&read.content().try_changes().unwrap()[0]), plain(&block.get_changes().unwrap()[0]));
    assert_eq!(read.get_change_index_by_counter(5), Some(0));
    assert_eq!(read.get_change_index_by_counter(6), None);
    assert_eq!(read.get_change_index_by_lamport(8), None);
    assert_eq!(read.get_change_index_by_lamport(20), Some(0));
    let fresh = ChangesBlockBytes::new(bytes.bytes());
    assert_eq!(fresh.counter_range::<RawOp>(), (3, 6));
    assert_eq!(fresh.len_changes::<RawOp>(), 1);
}

fn error<T>(r: LoroResult<T>) -> String {
    match r {
        Err(LoroError::DecodeError(e)) => e,
        Ok(_) => panic!(),
    }
}

/// The number of bytes of the header: the shortest part from which it can be read.
fn header_len(bytes: &[u8]) -> usize {
    (0..bytes.len()).find(|n| RawOp::decode_header(&bytes[..*n]).is_ok()).unwrap()
}

#[test]
fn bytes_with_a_header_alone_are_not_parsed() {
    let mut block = ChangesBlock::new(change(1, 3, 9, 5, &[(1, 2)], vec![run(3, 0, b"abc")]), &());
    let bytes = block.to_bytes(&()).bytes();
    let broken = bytes.slice(0..bytes.len() - 1);
    let mut read = ChangesBlock::<RawOp>::from_bytes(broken.clone(), true).unwrap();
    assert_eq!(error(read.ensure_changes(&())), "bytes that are no block");
    assert_eq!(error(read.get_changes()), "bytes that are no block");
    let mut content = ChangesBlockContent::<RawOp>::Bytes(ChangesBlockBytes::new(broken.clone()));
    assert_eq!(error(content.changes()), "bytes that are no block");
    assert_eq!(error(content.changes_mut()), "bytes that are no block");
    let mut stored = ChangesBlockBytes::new(broken);
    assert_eq!(error(stored.parse::<RawOp>(&())), "bytes that are no block");
    let mut longer = bytes.to_vec();
    longer.push(0);
    assert_eq!(error(RawOp::decode_block(&longer, &(), None)), "changes that are no history");
    let other = ChangesBlock::new(change(1, 3, 9, 5, &[(1, 2)], vec![run(3, 0, b"abcd")]), &()).to_bytes(&()).bytes();
    // the header of one block and the changes of another
    let mixed: Vec<u8> = bytes[..header_len(&bytes)].iter().chain(&other[header_len(&other)..]).copied().collect();
    assert_eq!(error(RawOp::decode_block(&mixed, &(), None)), "a header that is not that of the changes");
    assert_eq!(content.len_changes(), 1);
    assert_eq!(error(RawOp::decode_header(&[1, 2, 3])), "bytes that are no header");
    assert_eq!(error(RawOp::decode_block_range(&[1, 2, 3])), "bytes that are no header");
    assert_eq!(error(RawOp::decode_vv(&[1, 2, 3])), "bytes that are no version vector");
}

#[test]
fn changing_a_content_drops_its_bytes() {
    let mut block = ChangesBlock::new(change(1, 0, 0, 0, &[], vec![run(0, 0, b"abc")]), &());
    let mut content = ChangesBlockContent::<RawOp>::Bytes(block.to_bytes(&()));
    assert_eq!(content.changes().unwrap().len(), 1);
    assert!(matches!(content, ChangesBlockContent::Both(_, _)));
    assert_eq!(content.changes_mut().unwrap().len(), 1);
    assert!(matches!(content, ChangesBlockContent::Changes(_)));
    assert_eq!(content.clone().len_changes(), 1);
}

#[test]
fn a_block_takes_a_change_only_right_after_it_and_while_it_has_room() {
    let mut block = ChangesBlock::new(change(1, 0, 0, 0, &[], vec![run(0, 0, b"abc")]), &());
    let apart = change(1, 4, 4, 0, &[], vec![run(4, 0, b"d")]);
    let back = block.push_change(apart, 10, 0).unwrap_err();
    assert_eq!(back.id, ID::new(1, 4));
    let next = change(1, 3, 3, 0, &[], vec![run(3, 0, b"d")]);
    let next = block.push_change(next, MAX_BLOCK_SIZE, 0).unwrap_err();
    assert_eq!(block.counter_range(), (0, 3));
    assert!(block.push_change(next, 10, 0).is_ok());
    assert_eq!(block.counter_range(), (0, 4));
    assert_eq!(block.change_num(), 2);
    // an operation that is merged needs no room
    let last = change(1, 4, 4, 0, &[(1, 3)], vec![run(4, 0, b"e")]);
    assert!(block.push_change(last, MAX_BLOCK_SIZE, 1).is_ok());
    assert_eq!(block.change_num(), 2);
    assert_eq!(block.content().try_changes().unwrap()[1].ops.vec, vec![run(3, 0, b"de")]);
}

#[test]
fn the_ranges_of_a_block_end_where_its_last_change_does() {
    let mut block = ChangesBlock::new(change(1, 2, 5, 0, &[], vec![run(2, 0, b"abc")]), &());
    assert!(block.push_change(change(1, 5, 20, 0, &[(9, 9)], vec![run(5, 0, b"de")]), 40, 10).is_ok());
    assert_eq!((block.counter_range(), block.lamport_range()), ((2, 7), (5, 22)));
    // a change of another peer
    assert!(block.push_change(change(4, 7, 30, 0, &[], vec![run(7, 0, b"f")]), 40, 10).is_ok());
    assert_eq!((block.counter_range(), block.lamport_range()), ((2, 8), (5, 31)));
    assert_eq!(block.id(), ID::new(1, 2));
    let ends: Vec<(i32, i32)> = block
        .content()
        .try_changes()
        .unwrap()
        .iter()
        .map(|c| (c.id.counter, c.ctr_end()))
        .collect();
    assert_eq!(ends, vec![(2, 5), (5, 7), (7, 8)]);
}

#[test]
fn a_change_is_found_by_its_lamport_clock_after_a_gap_was_merged() {
    let mut store: Store = ChangeStore::new_mem((), 10);
    let big = vec![7u8; 4000];
    insert(&mut store, change(1, 0, 0, 0, &[], vec![run(0, 0, b"abc")]), false);
    // merged, though its Lamport clock is not the next one
    insert(&mut store, change(1, 3, 50, 0, &[(1, 2)], vec![run(3, 0, b"de")]), false);
    assert_eq!(store.change_num(), 1);
    insert(&mut store, change(1, 5, 52, 900, &[(1, 4)], vec![run(5, 0, &big)]), false);
    store.flush_and_compact();
    let mut fork = store.fork((), 10);
    for s in [&mut store, &mut fork] {
        for (lamport, counter) in [(0, 0), (4, 0), (51, 0), (52, 5), (4051, 5), (9999, 5)] {
            let c = s.get_change_by_idlp(IdLp { peer: 1, lamport }).unwrap();
            assert_eq!(c.deref().id, ID::new(1, counter), "{}", lamport);
        }
    }
}

#[test]
fn a_block_is_ordered_by_what_it_holds() {
    let block = ChangesBlock::new(change(5, 3, 9, 0, &[], vec![run(3, 0, b"abc")]), &());
    assert_eq!(block.cmp_id(ID::new(4, 4)), Ordering::Greater);
    assert_eq!(block.cmp_id(ID::new(6, 4)), Ordering::Less);
    assert_eq!(block.cmp_id(ID::new(5, 2)), Ordering::Greater);
    assert_eq!(block.cmp_id(ID::new(5, 3)), Ordering::Equal);
    assert_eq!(block.cmp_id(ID::new(5, 5)), Ordering::Equal);
    assert_eq!(block.cmp_id(ID::new(5, 6)), Ordering::Less);
    assert_eq!(block.cmp_idlp((5, 8)), Ordering::Greater);
    assert_eq!(block.cmp_idlp((5, 9)), Ordering::Equal);
    assert_eq!(block.cmp_idlp((5, 12)), Ordering::Less);
    assert_eq!(block.cmp_idlp((4, 10)), Ordering::Greater);
    assert_eq!(block.cmp_idlp((6, 10)), Ordering::Less);
}

#[test]
fn a_fork_has_the_stored_changes() {
    let mut store = two_peers();
    store.flush_and_compact();
    let mut fork = store.fork((), 7);
    assert_eq!(all_changes(&mut fork), all_changes(&mut store));
    insert(&mut fork, change(2, 2, 20, 0, &[], vec![value(2, 0, b"y")]), false);
    assert_eq!(sorted_vv(fork.vv()), vec![(1, 6), (2, 3)]);
    assert_eq!(sorted_vv(store.vv()), vec![(1, 6), (2, 2)]);
}
