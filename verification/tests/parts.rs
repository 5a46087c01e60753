use bytes::Bytes;
use change_store::change::{is_history, same_changes, Change, Frontiers};
use change_store::format::{ChangesBlockHeader, StorageFormat};
use change_store::ids::{CounterSpan, IdSpan, ID};
use change_store::kv_store::{key_is_before, KeyBound, KvStore, MemKvStore};
use change_store::op::{Operation, RleVec};
use change_store::raw_op::{Payload, RawOp};
use change_store::text_container::{ContainerID, ContainerType, TextContainer};
use change_store::version::VersionVector;

fn run(counter: i32, container: u32, bytes: &[u8]) -> RawOp {
    RawOp { counter, container, payload: Payload::Run(bytes.to_vec()) }
}

fn value(counter: i32, container: u32, bytes: &[u8]) -> RawOp {
    RawOp { counter, container, payload: Payload::Value(bytes.to_vec()) }
}

fn change(peer: u64, counter: i32, lamport: u32, ops: Vec<RawOp>) -> Change<RawOp> {
    Change {
        ops: RleVec { vec: ops },
        deps: Frontiers { ids: vec![ID::new(peer, counter - 1), ID::new(77, 3)] },
        id: ID::new(peer, counter),
        lamport,
        timestamp: -4,
    }
}

#[test]
fn an_identity_is_read_back_from_its_key() {
    let id = ID::new(0x0102030405060708, 0x0a0b0c0d);
    assert_eq!(id.to_bytes(), [1, 2, 3, 4, 5, 6, 7, 8, 10, 11, 12, 13]);
    assert_eq!(ID::from_bytes(&id.to_bytes()), id);
    let id = ID::new(u64::MAX, -2);
    assert_eq!(ID::from_bytes(&id.to_bytes()), id);
}

#[test]
fn keys_are_ordered_as_identities_are() {
    let ids = [ID::new(0, 5), ID::new(1, 0), ID::new(1, 255), ID::new(1, 256), ID::new(2, 0), ID::new(1 << 40, 0)];
    for (i, a) in ids.iter().enumerate() {
        for (j, b) in ids.iter().enumerate() {
            assert_eq!(a.is_before(b), i < j);
            assert_eq!(key_is_before(&a.to_bytes(), &b.to_bytes()), i < j);
        }
    }
    assert!(key_is_before(b"ab", b"abc"));
    assert!(!key_is_before(b"abc", b"ab"));
    assert!(!key_is_before(b"", b""));
}

#[test]
fn a_span_has_two_ends() {
    let span = IdSpan { peer: 4, counter: CounterSpan { start: 2, end: 9 } };
    assert_eq!(span.id_start(), ID::new(4, 2));
    assert_eq!(span.id_end(), ID::new(4, 9));
}

#[test]
fn operations_are_cut_and_merged() {
    let op = run(7, 1, b"abcdef");
    assert_eq!(op.estimate_storage_size(), 22);
    assert_eq!(op.check_whether_slice_content_to_fit_in_size(22), None);
    assert_eq!(op.check_whether_slice_content_to_fit_in_size(21), Some(5));
    assert_eq!(op.check_whether_slice_content_to_fit_in_size(3), Some(1));
    assert_eq!(op.slice(1, 3), run(8, 1, b"bc"));
    let mut head = op.slice(0, 2);
    let tail = op.slice(2, 6);
    assert!(head.is_mergable(&tail));
    head.merge(&tail);
    assert_eq!(head, op);
    assert!(!op.is_mergable(&run(14, 1, b"x")));
    assert!(!op.is_mergable(&run(13, 2, b"x")));
    assert!(!op.is_mergable(&value(13, 1, b"x")));
    let v = value(1, 2, b"abc");
    assert_eq!(v.atom_len(), 1);
    assert_eq!(v.check_whether_slice_content_to_fit_in_size(1), None);
    assert_eq!(v.slice(0, 1), v);
}

#[test]
fn pushing_merges_adjacent_operations() {
    let mut ops: RleVec<RawOp> = RleVec::new();
    assert!(ops.is_empty());
    assert!(!ops.push(run(0, 1, b"ab")));
    assert!(ops.push(run(2, 1, b"c")));
    assert!(!ops.push(value(3, 1, b"v")));
    assert!(!ops.push(run(4, 1, b"d")));
    assert_eq!(ops.vec, vec![run(0, 1, b"abc"), value(3, 1, b"v"), run(4, 1, b"d")]);
    assert_eq!(ops.search_atom_index(0), 0);
    assert_eq!(ops.search_atom_index(2), 0);
    assert_eq!(ops.search_atom_index(3), 1);
    assert_eq!(ops.search_atom_index(4), 2);
    assert_eq!(ops.duplicate().vec, ops.vec);
    assert_eq!(ops.len(), 3);
}

#[test]
fn a_change_knows_its_ends() {
    let c = change(1, 3, 10, vec![run(3, 0, b"ab"), value(5, 0, b"x")]);
    assert_eq!(c.atom_len(), 3);
    assert_eq!(c.content_len(), 3);
    assert_eq!(c.ctr_end(), 6);
    assert!(!c.deps_on_self());
    let mut c = c.clone();
    c.deps = Frontiers::from_id(ID::new(1, 2));
    assert!(c.deps_on_self());
    c.deps = Frontiers::from_id(ID::new(2, 2));
    assert!(!c.deps_on_self());
    c.deps = Frontiers::new();
    assert!(!c.deps_on_self());
    assert_eq!(c.deps.len(), 0);
}

#[test]
fn a_history_has_no_holes() {
    let a = || change(1, 3, 10, vec![run(3, 0, b"ab")]);
    assert!(is_history(&vec![a(), change(1, 5, 12, vec![run(5, 0, b"c")])]));
    assert!(!is_history(&vec![a(), change(1, 6, 12, vec![run(6, 0, b"c")])]));
    assert!(!is_history(&vec![a(), change(2, 5, 12, vec![run(5, 0, b"c")])]));
    assert!(!is_history::<RawOp>(&vec![]));
}

#[test]
fn a_block_of_changes_is_decoded_as_it_was_encoded() {
    let changes = vec![
        change(1, 3, 10, vec![run(3, 0, b"ab"), value(5, 9, b"")]),
        change(1, 6, 14, vec![run(6, 0, &[0, 255, 7])]),
    ];
    let bytes = RawOp::encode_block(&changes, &());
    let header = RawOp::decode_header(&bytes).unwrap();
    assert_eq!(header.peer, 1);
    assert_eq!(header.counter, 3);
    assert_eq!(header.n_changes, 2);
    assert_eq!(header.counters, vec![3, 6, 9]);
    assert_eq!(header.lamports, vec![10, 14, 17]);
    assert!(header.same(&ChangesBlockHeader::of_changes(&changes)));
    assert_eq!(RawOp::decode_block_range(&bytes).unwrap(), ((3, 9), (10, 17)));
    let read = RawOp::decode_block(&bytes, &(), Some(&header)).unwrap();
    assert_eq!(read.len(), 2);
    for (a, b) in read.iter().zip(changes.iter()) {
        assert_eq!(a.ops.vec, b.ops.vec);
        assert_eq!(a.deps.ids, b.deps.ids);
        assert_eq!((a.id, a.lamport, a.timestamp), (b.id, b.lamport, b.timestamp));
    }
    let mut other = bytes.clone();
    other[11] = 4;
    assert!(RawOp::decode_block(&other, &(), None).is_err());
    assert!(RawOp::decode_block(&bytes[..bytes.len() - 1], &(), None).is_err());
}

#[test]
fn a_change_takes_what_its_parts_take() {
    let c = change(1, 3, 10, vec![run(3, 0, b"ab"), value(5, 9, b"")]);
    // the head, two dependencies, and two operations
    assert_eq!(RawOp::estimate_change_size(&c), 24 + 2 * 12 + 18 + 16);
}

#[test]
fn version_vectors_are_merged() {
    let mut a = VersionVector::new();
    a.insert(1, 5);
    a.insert(2, 3);
    let mut b = VersionVector::new();
    b.insert(2, 7);
    b.insert(3, 1);
    b.insert(1, 4);
    a.merge(&b);
    assert_eq!(a.get(1), Some(5));
    assert_eq!(a.get(2), Some(7));
    assert_eq!(a.get(3), Some(1));
    assert_eq!(a.get(4), None);
    let read = RawOp::decode_vv(&RawOp::encode_vv(&a)).unwrap();
    let mut entries = read.entries();
    entries.sort();
    assert_eq!(entries, vec![(1, 5), (2, 7), (3, 1)]);
    let mut copy = a.duplicate();
    copy.insert(9, 9);
    assert_eq!(a.get(9), None);
}

fn entries(kv: &MemKvStore, start: KeyBound, end: KeyBound) -> Vec<(Vec<u8>, Vec<u8>)> {
    kv.scan(start, end).iter().map(|(k, v)| (k.to_vec(), v.to_vec())).collect()
}

#[test]
fn a_key_value_store_keeps_its_entries() {
    let mut kv = MemKvStore::new();
    assert_eq!(kv.get(b"b"), None);
    kv.set(b"b", Bytes::from_static(b"1"));
    kv.set(b"a", Bytes::from_static(b"2"));
    kv.set(b"c", Bytes::from_static(b"3"));
    kv.set(b"b", Bytes::from_static(b"4"));
    assert_eq!(kv.get(b"b"), Some(Bytes::from_static(b"4")));
    assert_eq!(kv.get(b"bb"), None);
    let all = vec![(b"a".to_vec(), b"2".to_vec()), (b"b".to_vec(), b"4".to_vec()), (b"c".to_vec(), b"3".to_vec())];
    assert_eq!(entries(&kv, KeyBound::Unbounded, KeyBound::Unbounded), all);
    assert_eq!(entries(&kv, KeyBound::Included(b"b"), KeyBound::Unbounded), all[1..].to_vec());
    assert_eq!(entries(&kv, KeyBound::Excluded(b"b"), KeyBound::Unbounded), all[2..].to_vec());
    assert_eq!(entries(&kv, KeyBound::Unbounded, KeyBound::Included(b"b")), all[..2].to_vec());
    assert_eq!(entries(&kv, KeyBound::Unbounded, KeyBound::Excluded(b"b")), all[..1].to_vec());
    assert!(entries(&kv, KeyBound::Included(b"c"), KeyBound::Excluded(b"a")).is_empty());
}

#[test]
fn a_value_is_swapped_if_it_is_the_expected_one() {
    let mut kv = MemKvStore::new();
    assert!(!kv.compare_and_swap(b"k", Some(Bytes::from_static(b"1")), Bytes::from_static(b"2")));
    assert!(kv.compare_and_swap(b"k", None, Bytes::from_static(b"1")));
    assert!(!kv.compare_and_swap(b"k", None, Bytes::from_static(b"2")));
    assert!(!kv.compare_and_swap(b"k", Some(Bytes::from_static(b"3")), Bytes::from_static(b"2")));
    assert_eq!(kv.get(b"k"), Some(Bytes::from_static(b"1")));
    assert!(kv.compare_and_swap(b"k", Some(Bytes::from_static(b"1")), Bytes::from_static(b"2")));
    assert_eq!(kv.get(b"k"), Some(Bytes::from_static(b"2")));
}

#[test]
fn exported_entries_are_imported() {
    let mut kv = MemKvStore::new();
    kv.set(b"a", Bytes::from_static(b"1"));
    kv.set(b"", Bytes::from_static(b""));
    let bytes = kv.export_all();
    let mut other = MemKvStore::new();
    other.set(b"a", Bytes::from_static(b"9"));
    other.set(b"z", Bytes::from_static(b"8"));
    other.import_all(bytes.clone()).unwrap();
    let all = vec![
        (b"".to_vec(), b"".to_vec()),
        (b"a".to_vec(), b"1".to_vec()),
        (b"z".to_vec(), b"8".to_vec()),
    ];
    assert_eq!(entries(&other, KeyBound::Unbounded, KeyBound::Unbounded), all);
    let mut fresh = MemKvStore::new();
    fresh.import_all(bytes.clone()).unwrap();
    assert_eq!(fresh.export_all(), bytes);
    assert_eq!(other.clone_store().export_all(), other.export_all());
    assert_eq!(fresh.import_all(Bytes::from_static(b"x")), Err("bytes that are no entries".to_string()));
    assert_eq!(fresh.export_all(), bytes);
}

#[test]
fn deleting_leaves_a_text_as_it_is() {
    let id = || ContainerID::Root { name: "text".to_string(), container_type: ContainerType::Text };
    let mut text = TextContainer::new(id(), 5u8);
    text.delete(0, 3);
    assert_eq!(text.id(), &id());
    assert_eq!(text.type_(), ContainerType::Text);
    let other = ContainerID::Normal { id: ID::new(1, 2), container_type: ContainerType::List };
    assert_ne!(text.id(), &other);
}

#[test]
fn changes_are_the_same_if_all_their_parts_are() {
    assert!(run(3, 1, b"abc").same(&run(3, 1, b"abc")));
    for other in [run(4, 1, b"abc"), run(3, 2, b"abc"), run(3, 1, b"abd"), run(3, 1, b"ab"), value(3, 1, b"abc")] {
        assert!(!run(3, 1, b"abc").same(&other));
        assert!(!other.same(&run(3, 1, b"abc")));
    }
    let c = || change(1, 3, 9, vec![run(3, 1, b"abc"), value(6, 1, b"v")]);
    assert!(c().same(&c()));
    let mut others = vec![c(), c(), c(), c(), c(), c()];
    others[0].id = ID::new(2, 3);
    others[1].lamport = 8;
    others[2].timestamp = 0;
    others[3].deps.ids.swap(0, 1);
    others[4].deps.ids.pop();
    others[5].ops.vec.pop();
    for other in &others {
        assert!(!c().same(other));
    }
    assert!(same_changes(&vec![c(), c()], &vec![c(), c()]));
    assert!(!same_changes(&vec![c(), c()], &vec![c()]));
    assert!(!same_changes(&vec![c()], &others));
    assert!(!same_changes(&vec![c()], &vec![change(1, 3, 9, vec![run(3, 1, b"abc"), value(6, 1, b"w")])]));
}
