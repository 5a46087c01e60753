//! The key-value store that blocks are stored in.
use crate::codec::{
    lemma_read_bytes, lemma_read_list, lemma_read_on, lemma_read_on_end, lemma_written_items_push, read_bytes,
    read_items, read_list, read_on, write_bytes, write_u64, written_bytes, written_items, written_list, Read, Reader,
};
use crate::ids::{key_before, lemma_key_order, lemma_key_order_trans};
use crate::outside::{bytes_as_slice, bytes_clone, bytes_contents, bytes_copy_from_slice, bytes_from_vec};
use crate::sorted::{
    found_at, has_key, is_order, is_place, key_index, keys_grow, lemma_found_at, lemma_listing_unique, lemma_map_of,
    lemma_put_at, map_of, put_at,
};
use bytes::Bytes;
use vstd::prelude::*;

verus! {

/// One end of a range of keys.
pub enum KeyBound<'a> {
    Unbounded,
    Included(&'a [u8]),
    Excluded(&'a [u8]),
}

impl<'a> KeyBound<'a> {
    fn is_from(&self, key: &[u8]) -> (r: bool)
        ensures
            r == self.admits_from(key@),
    {
        match self {
            KeyBound::Unbounded => true,
            KeyBound::Included(k) => !key_is_before(key, k),
            KeyBound::Excluded(k) => key_is_before(k, key),
        }
    }

    fn is_to(&self, key: &[u8]) -> (r: bool)
        ensures
            r == self.admits_to(key@),
    {
        match self {
            KeyBound::Unbounded => true,
            KeyBound::Included(k) => !key_is_before(k, key),
            KeyBound::Excluded(k) => key_is_before(key, k),
        }
    }

    /// Whether a range that starts here has the key after its start.
    pub open spec fn admits_from(self, key: Seq<u8>) -> bool {
        match self {
            KeyBound::Unbounded => true,
            KeyBound::Included(k) => !key_before(key, k@),
            KeyBound::Excluded(k) => key_before(k@, key),
        }
    }

    /// Whether a range that ends here has the key before its end.
    pub open spec fn admits_to(self, key: Seq<u8>) -> bool {
        match self {
            KeyBound::Unbounded => true,
            KeyBound::Included(k) => !key_before(k@, key),
            KeyBound::Excluded(k) => key_before(key, k@),
        }
    }
}

/// The order of keys.
pub open spec fn key_order() -> spec_fn(Seq<u8>, Seq<u8>) -> bool {
    |a: Seq<u8>, b: Seq<u8>| key_before(a, b)
}

/// The keys and values of a vector of entries.
pub open spec fn listing(v: Seq<(Bytes, Bytes)>) -> Seq<(Seq<u8>, Seq<u8>)> {
    v.map_values(|e: (Bytes, Bytes)| (bytes_contents(e.0), bytes_contents(e.1)))
}

/// The entries of a map whose keys are in a range.
pub open spec fn kv_range(m: Map<Seq<u8>, Seq<u8>>, start: KeyBound, end: KeyBound) -> Map<Seq<u8>, Seq<u8>> {
    Map::new(
        |k: Seq<u8>| m.contains_key(k) && start.admits_from(k) && end.admits_to(k),
        |k: Seq<u8>| m[k],
    )
}

/// `xs` lists the entries of `m` in the order of their keys.
pub open spec fn lists(xs: Seq<(Seq<u8>, Seq<u8>)>, m: Map<Seq<u8>, Seq<u8>>) -> bool {
    keys_grow(key_order(), xs) && map_of(xs) == m
}

/// The entries can be listed, and there are no more of them, and none is longer, than
/// a machine can hold.
pub open spec fn kv_storable(m: Map<Seq<u8>, Seq<u8>>) -> bool {
    exists|xs: Seq<(Seq<u8>, Seq<u8>)>| #[trigger] lists(xs, m) && listing_fits(xs)
}

/// There are no more entries, and none is longer, than a machine can hold.
pub open spec fn listing_fits(xs: Seq<(Seq<u8>, Seq<u8>)>) -> bool {
    &&& xs.len() <= usize::MAX
    &&& forall|i: int|
        0 <= i < xs.len() ==> (#[trigger] xs[i]).0.len() <= usize::MAX && xs[i].1.len() <= usize::MAX
}

/// A store of byte strings under byte strings.
pub trait KvStore: View<V = Map<Seq<u8>, Seq<u8>>> + Sized {
    /// The byte string that a store with the given entries is exported as.
    spec fn exported(m: Map<Seq<u8>, Seq<u8>>) -> Seq<u8>;

    /// The entries that a byte string is imported as, or why it cannot be imported.
    spec fn imported(bytes: Seq<u8>) -> Result<Map<Seq<u8>, Seq<u8>>, Seq<char>>;

    fn get(&self, key: &[u8]) -> (r: Option<Bytes>)
        ensures
            match r {
                Some(v) => self@.contains_key(key@) && self@[key@] == bytes_contents(v),
                None => !self@.contains_key(key@),
            },
    ;

    fn set(&mut self, key: &[u8], value: Bytes)
        ensures
            final(self)@ == old(self)@.insert(key@, bytes_contents(value)),
    ;

    /// Sets the value of `key` to `new`, if it is `expected` (`None`: if it has none).
    /// Returns whether it did.
    fn compare_and_swap(&mut self, key: &[u8], expected: Option<Bytes>, new: Bytes) -> (r: bool)
        ensures
            r == (match expected {
                Some(v) => old(self)@.contains_key(key@) && old(self)@[key@] == bytes_contents(v),
                None => !old(self)@.contains_key(key@),
            }),
            r ==> final(self)@ == old(self)@.insert(key@, bytes_contents(new)),
            !r ==> final(self)@ == old(self)@,
    ;

    /// The entries with a key in the range, in the order of their keys.
    fn scan(&self, start: KeyBound, end: KeyBound) -> (r: Vec<(Bytes, Bytes)>)
        ensures
            lists(listing(r@), kv_range(self@, start, end)),
    ;

    fn export_all(&self) -> (r: Bytes)
        ensures
            bytes_contents(r) == Self::exported(self@),
            kv_storable(self@),
    ;

    fn import_all(&mut self, bytes: Bytes) -> (r: Result<(), String>)
        ensures
            match r {
                Ok(_) => Self::imported(bytes_contents(bytes)) matches Ok(m) && final(self)@
                    == old(self)@.union_prefer_right(m),
                Err(e) => Self::imported(bytes_contents(bytes)) == Err::<Map<Seq<u8>, Seq<u8>>, Seq<char>>(e@)
                    && final(self)@ == old(self)@,
            },
    ;

    fn clone_store(&self) -> (r: Self)
        ensures
            r@ == self@,
    ;

    /// What was exported is imported as it was.
    proof fn lemma_import_exported(m: Map<Seq<u8>, Seq<u8>>)
        requires
            kv_storable(m),
        ensures
            Self::imported(Self::exported(m)) == Ok::<Map<Seq<u8>, Seq<u8>>, Seq<char>>(m),
    ;
}

/// The order of keys is an order.
pub proof fn lemma_key_order_is_order()
    ensures
        is_order(key_order()),
{
    assert forall|a: Seq<u8>| !#[trigger] key_order()(a, a) by {
        lemma_key_order(a, a);
    }
    assert forall|a: Seq<u8>, b: Seq<u8>| #[trigger] key_order()(a, b) implies !key_order()(b, a) by {
        lemma_key_order(a, b);
    }
}

/// Whether key `a` comes before key `b`.
pub fn key_is_before(a: &[u8], b: &[u8]) -> (r: bool)
    ensures
        r == key_before(a@, b@),
{
    let mut i: usize = 0;
    assert(a@.skip(0) =~= a@ && b@.skip(0) =~= b@);
    while i < a.len() && i < b.len() && a[i] == b[i]
        invariant
            i <= a.len(),
            i <= b.len(),
            key_before(a@, b@) == key_before(a@.skip(i as int), b@.skip(i as int)),
        decreases a.len() - i,
    {
        assert(a@.skip(i as int).drop_first() =~= a@.skip(i + 1));
        assert(b@.skip(i as int).drop_first() =~= b@.skip(i + 1));
        i = i + 1;
    }
    if i < b.len() {
        i == a.len() || a[i] < b[i]
    } else {
        false
    }
}

/// A key-value store in memory.
pub struct MemKvStore {
    entries: Vec<(Bytes, Bytes)>,
}

impl View for MemKvStore {
    type V = Map<Seq<u8>, Seq<u8>>;

    closed spec fn view(&self) -> Map<Seq<u8>, Seq<u8>> {
        map_of(listing(self.entries@))
    }
}

impl MemKvStore {
    #[verifier::type_invariant]
    spec fn sorted(self) -> bool {
        keys_grow(key_order(), listing(self.entries@))
    }

    /// An empty store.
    pub fn new() -> (r: Self)
        ensures
            r@ == Map::<Seq<u8>, Seq<u8>>::empty(),
    {
        let r = MemKvStore { entries: Vec::new() };
        assert(r@ =~= Map::<Seq<u8>, Seq<u8>>::empty());
        r
    }

    /// The place of `key` among the entries.
    fn position(entries: &Vec<(Bytes, Bytes)>, key: &[u8]) -> (r: usize)
        requires
            keys_grow(key_order(), listing(entries@)),
        ensures
            is_place(key_order(), listing(entries@), r as int, key@),
    {
        let ghost xs = listing(entries@);
        let mut lo: usize = 0;
        let mut hi: usize = entries.len();
        while lo < hi
            invariant
                lo <= hi <= entries.len(),
                xs == listing(entries@),
                keys_grow(key_order(), xs),
                forall|i: int| 0 <= i < lo ==> key_before((#[trigger] xs[i]).0, key@),
                forall|i: int| hi <= i < entries.len() ==> !key_before((#[trigger] xs[i]).0, key@),
            decreases hi - lo,
        {
            let mid: usize = lo + (hi - lo) / 2;
            assert(xs[mid as int].0 == bytes_contents(entries@[mid as int].0));
            if key_is_before(bytes_as_slice(&entries[mid].0), key) {
                assert forall|i: int| 0 <= i <= mid implies key_before((#[trigger] xs[i]).0, key@) by {
                    if i < mid {
                        assert(key_order()(xs[i].0, xs[mid as int].0));
                        lemma_key_order_trans(xs[i].0, xs[mid as int].0, key@);
                    }
                }
                lo = mid + 1;
            } else {
                assert forall|i: int| mid <= i < entries.len() implies !key_before((#[trigger] xs[i]).0, key@) by {
                    if mid < i && key_before(xs[i].0, key@) {
                        assert(key_order()(xs[mid as int].0, xs[i].0));
                        lemma_key_order_trans(xs[mid as int].0, xs[i].0, key@);
                    }
                }
                hi = mid;
            }
        }
        assert forall|i: int| lo <= i < xs.len() implies (#[trigger] xs[i]).0 == key@ || key_order()(
            key@,
            xs[i].0,
        ) by {
            lemma_key_order(key@, xs[i].0);
        }
        lo
    }

    /// Whether the entry at the place of `key` has that key.
    fn found(entries: &Vec<(Bytes, Bytes)>, i: usize, key: &[u8]) -> (r: bool)
        requires
            keys_grow(key_order(), listing(entries@)),
            is_place(key_order(), listing(entries@), i as int, key@),
        ensures
            r == found_at(listing(entries@), i as int, key@),
    {
        if i < entries.len() {
            assert(listing(entries@)[i as int].0 == bytes_contents(entries@[i as int].0));
            proof {
                lemma_key_order(key@, listing(entries@)[i as int].0);
            }
            !key_is_before(key, bytes_as_slice(&entries[i].0))
        } else {
            false
        }
    }

    /// Puts the value of `key` at its place.
    fn put(entries: &mut Vec<(Bytes, Bytes)>, key: &[u8], value: Bytes)
        requires
            keys_grow(key_order(), listing(old(entries)@)),
        ensures
            keys_grow(key_order(), listing(final(entries)@)),
            map_of(listing(final(entries)@)) == map_of(listing(old(entries)@)).insert(key@, bytes_contents(value)),
    {
        let ghost xs = listing(entries@);
        let ghost v = bytes_contents(value);
        let i: usize = Self::position(entries, key);
        proof {
            lemma_key_order_is_order();
            lemma_put_at(key_order(), xs, i as int, key@, v);
        }
        if Self::found(entries, i, key) {
            entries[i] = (bytes_copy_from_slice(key), value);
        } else {
            entries.insert(i, (bytes_copy_from_slice(key), value));
        }
        assert(listing(entries@) =~= put_at(xs, i as int, key@, v));
    }
}

/// An entry as it is exported.
pub open spec fn entry_writer() -> spec_fn((Seq<u8>, Seq<u8>)) -> Seq<u8> {
    |e: (Seq<u8>, Seq<u8>)| written_bytes(e.0) + written_bytes(e.1)
}

/// Reads an exported entry.
pub open spec fn entry_reader() -> spec_fn(Seq<u8>) -> Read<(Seq<u8>, Seq<u8>)> {
    |s: Seq<u8>|
        match read_bytes(s) {
            Some((k, r)) => match read_bytes(r) {
                Some((v, t)) => Some(((k, v), t)),
                None => None,
            },
            None => None,
        }
}

/// The map with the entries of a list put in, one after the other.
pub open spec fn put_all(m: Map<Seq<u8>, Seq<u8>>, xs: Seq<(Seq<u8>, Seq<u8>)>) -> Map<Seq<u8>, Seq<u8>>
    decreases xs.len(),
{
    if xs.len() == 0 {
        m
    } else {
        put_all(m, xs.drop_last()).insert(xs.last().0, xs.last().1)
    }
}

/// Putting entries into a map is the same as collecting them first.
proof fn lemma_put_all(m: Map<Seq<u8>, Seq<u8>>, xs: Seq<(Seq<u8>, Seq<u8>)>)
    ensures
        put_all(m, xs) == m.union_prefer_right(put_all(Map::empty(), xs)),
    decreases xs.len(),
{
    let e = Map::<Seq<u8>, Seq<u8>>::empty();
    if xs.len() > 0 {
        lemma_put_all(m, xs.drop_last());
    }
    assert(put_all(m, xs) =~= m.union_prefer_right(put_all(e, xs)));
}

/// Collecting the entries of a listing gives the map that it lists.
proof fn lemma_put_listing(xs: Seq<(Seq<u8>, Seq<u8>)>)
    requires
        keys_grow(key_order(), xs),
    ensures
        put_all(Map::empty(), xs) == map_of(xs),
    decreases xs.len(),
{
    let e = Map::<Seq<u8>, Seq<u8>>::empty();
    lemma_key_order_is_order();
    if xs.len() == 0 {
        assert(put_all(e, xs) =~= map_of(xs));
    } else {
        let ys = xs.drop_last();
        assert forall|i: int, j: int| 0 <= i < j < ys.len() implies key_order()(
            (#[trigger] ys[i]).0,
            (#[trigger] ys[j]).0,
        ) by {
            assert(key_order()(xs[i].0, xs[j].0));
        }
        lemma_put_listing(ys);
        let (k, v) = xs.last();
        assert forall|j: int| 0 <= j < ys.len() implies key_order()((#[trigger] ys[j]).0, k) by {
            assert(key_order()(xs[j].0, xs[xs.len() - 1].0));
        }
        lemma_put_at(key_order(), ys, ys.len() as int, k, v);
        assert(put_at(ys, ys.len() as int, k, v) =~= xs);
    }
}

/// An entry is read as it was written.
proof fn lemma_read_entry(e: (Seq<u8>, Seq<u8>), rest: Seq<u8>)
    requires
        e.0.len() <= u64::MAX,
        e.1.len() <= u64::MAX,
    ensures
        entry_reader()(entry_writer()(e) + rest) == Some((e, rest)),
{
    let s = written_bytes(e.1) + rest;
    assert(entry_writer()(e) + rest =~= written_bytes(e.0) + s);
    lemma_read_bytes(e.0, s);
    lemma_read_bytes(e.1, rest);
}

/// The exported form of a listing is imported as what it lists.
proof fn lemma_read_listing(xs: Seq<(Seq<u8>, Seq<u8>)>)
    requires
        keys_grow(key_order(), xs),
        listing_fits(xs),
    ensures
        read_list(entry_reader(), written_list(entry_writer(), xs)) == Some((xs, Seq::<u8>::empty())),
{
    let w = written_list(entry_writer(), xs);
    let e = Seq::<u8>::empty();
    assert forall|i: int, r: Seq<u8>| 0 <= i < xs.len() implies #[trigger] entry_reader()(entry_writer()(xs[i]) + r)
        == Some((xs[i], r)) by {
        lemma_read_entry(xs[i], r);
    }
    lemma_read_list(entry_writer(), entry_reader(), xs, e);
    assert(w + e =~= w);
}

impl KvStore for MemKvStore {
    closed spec fn exported(m: Map<Seq<u8>, Seq<u8>>) -> Seq<u8> {
        written_list(entry_writer(), choose|xs: Seq<(Seq<u8>, Seq<u8>)>| #[trigger] lists(xs, m))
    }

    closed spec fn imported(bytes: Seq<u8>) -> Result<Map<Seq<u8>, Seq<u8>>, Seq<char>> {
        match read_list(entry_reader(), bytes) {
            Some((xs, rest)) => if rest.len() == 0 {
                Ok(put_all(Map::empty(), xs))
            } else {
                Err("bytes after the last entry"@)
            },
            None => Err("bytes that are no entries"@),
        }
    }

    fn get(&self, key: &[u8]) -> (r: Option<Bytes>) {
        proof {
            use_type_invariant(self);
            lemma_key_order_is_order();
        }
        let i: usize = Self::position(&self.entries, key);
        proof {
            lemma_found_at(key_order(), listing(self.entries@), i as int, key@);
        }
        if Self::found(&self.entries, i, key) {
            Some(bytes_clone(&self.entries[i].1))
        } else {
            None
        }
    }

    fn set(&mut self, key: &[u8], value: Bytes) {
        proof {
            use_type_invariant(&*self);
        }
        let mut entries: Vec<(Bytes, Bytes)> = Vec::new();
        std::mem::swap(&mut entries, &mut self.entries);
        Self::put(&mut entries, key, value);
        self.entries = entries;
    }

    fn compare_and_swap(&mut self, key: &[u8], expected: Option<Bytes>, new: Bytes) -> (r: bool) {
        let same = match (self.get(key), expected) {
            (Some(a), Some(b)) => {
                proof {
                    lemma_key_order(bytes_contents(a), bytes_contents(b));
                }
                !key_is_before(bytes_as_slice(&a), bytes_as_slice(&b)) && !key_is_before(
                    bytes_as_slice(&b),
                    bytes_as_slice(&a),
                )
            },
            (None, None) => true,
            _ => false,
        };
        if same {
            self.set(key, new);
        }
        same
    }

    fn scan(&self, start: KeyBound, end: KeyBound) -> (r: Vec<(Bytes, Bytes)>) {
        proof {
            use_type_invariant(self);
            lemma_key_order_is_order();
        }
        let ghost xs = listing(self.entries@);
        let mut r: Vec<(Bytes, Bytes)> = Vec::new();
        let ghost mut from: Seq<int> = seq![];
        let mut i: usize = 0;
        while i < self.entries.len()
            invariant
                i <= self.entries.len(),
                xs == listing(self.entries@),
                from.len() == r@.len(),
                forall|a: int|
                    0 <= a < from.len() ==> 0 <= #[trigger] from[a] < i && listing(r@)[a] == xs[from[a]]
                        && start.admits_from(xs[from[a]].0) && end.admits_to(xs[from[a]].0),
                forall|a: int, b: int| 0 <= a < b < from.len() ==> #[trigger] from[a] < #[trigger] from[b],
                forall|k: int|
                    0 <= k < i && start.admits_from((#[trigger] xs[k]).0) && end.admits_to(xs[k].0)
                        ==> from.contains(k),
            decreases self.entries.len() - i,
        {
            let key = bytes_as_slice(&self.entries[i].0);
            assert(xs[i as int].0 == key@);
            let ghost (r0, from0) = (r@, from);
            if start.is_from(key) && end.is_to(key) {
                r.push((bytes_clone(&self.entries[i].0), bytes_clone(&self.entries[i].1)));
                proof {
                    from = from.push(i as int);
                    assert(from[from0.len() as int] == i);
                    assert forall|a: int| 0 <= a < from.len() implies 0 <= #[trigger] from[a] < i + 1
                        && listing(r@)[a] == xs[from[a]] && start.admits_from(xs[from[a]].0) && end.admits_to(
                        xs[from[a]].0,
                    ) by {
                        if a < from0.len() {
                            assert(from[a] == from0[a]);
                            assert(listing(r@)[a] == listing(r0)[a]);
                        }
                    }
                    assert forall|k: int|
                        0 <= k < i + 1 && start.admits_from((#[trigger] xs[k]).0) && end.admits_to(
                            xs[k].0,
                        ) implies from.contains(k) by {
                        if k < i {
                            let a = choose|a: int| 0 <= a < from0.len() && from0[a] == k;
                            assert(from[a] == k);
                        }
                    }
                }
            }
            i = i + 1;
        }
        proof {
            let ys = listing(r@);
            let m = kv_range(self@, start, end);
            assert forall|a: int, b: int| 0 <= a < b < ys.len() implies key_order()(
                (#[trigger] ys[a]).0,
                (#[trigger] ys[b]).0,
            ) by {
                assert(from[a] < from[b]);
                assert(key_order()(xs[from[a]].0, xs[from[b]].0));
            }
            assert forall|k: Seq<u8>|
                #![trigger map_of(ys).dom().contains(k)]
                #![trigger map_of(ys)[k]]
                map_of(ys).dom().contains(k) == m.dom().contains(k) && (m.dom().contains(k) ==> map_of(ys)[k]
                    == m[k]) by {
                if has_key(ys, k) {
                    let a = key_index(ys, k);
                    assert(ys[a].0 == k);
                    lemma_map_of(key_order(), ys, a);
                    lemma_map_of(key_order(), xs, from[a]);
                }
                if m.contains_key(k) {
                    let j = key_index(xs, k);
                    assert(xs[j].0 == k);
                    let a = choose|a: int| 0 <= a < from.len() && from[a] == j;
                    assert(ys[a].0 == k);
                }
            }
            assert(map_of(ys) =~= m);
        }
        r
    }

    fn export_all(&self) -> (r: Bytes) {
        proof {
            use_type_invariant(self);
            lemma_key_order_is_order();
        }
        let ghost xs = listing(self.entries@);
        let mut buf: Vec<u8> = Vec::new();
        write_u64(&mut buf, self.entries.len() as u64);
        let ghost head = buf@;
        let mut i: usize = 0;
        assert(xs.take(0) =~= seq![]);
        while i < self.entries.len()
            invariant
                i <= self.entries.len(),
                xs == listing(self.entries@),
                buf@ =~= head + written_items(entry_writer(), xs.take(i as int)),
                forall|j: int|
                    0 <= j < i ==> (#[trigger] xs[j]).0.len() <= usize::MAX && xs[j].1.len() <= usize::MAX,
            decreases self.entries.len() - i,
        {
            let key = bytes_as_slice(&self.entries[i].0);
            let value = bytes_as_slice(&self.entries[i].1);
            assert(xs[i as int] == (key@, value@));
            write_bytes(&mut buf, key);
            write_bytes(&mut buf, value);
            proof {
                lemma_written_items_push(entry_writer(), xs.take(i as int), xs[i as int]);
                assert(xs.take(i + 1) =~= xs.take(i as int).push(xs[i as int]));
                assert(key.len() <= usize::MAX && value.len() <= usize::MAX);
            }
            i = i + 1;
        }
        proof {
            assert(xs.take(i as int) =~= xs);
            assert(buf@ =~= written_list(entry_writer(), xs));
            assert(lists(xs, self@));
            let ys = choose|ys: Seq<(Seq<u8>, Seq<u8>)>| #[trigger] lists(ys, self@);
            lemma_listing_unique(key_order(), xs, ys);
        }
        bytes_from_vec(buf)
    }

    fn import_all(&mut self, bytes: Bytes) -> (r: Result<(), String>) {
        proof {
            use_type_invariant(&*self);
        }
        let mut reader = Reader::new(bytes_as_slice(&bytes));
        let ghost all = bytes_contents(bytes);
        let n: u64 = match reader.u64() {
            Some(n) => n,
            None => return Err("bytes that are no entries".to_string()),
        };
        let mut read: Vec<(Bytes, Bytes)> = Vec::new();
        let mut left: u64 = n;
        assert(read_list(entry_reader(), all) == read_on(entry_reader(), listing(read@), left as nat, reader.rest()))
            by {
            assert(listing(read@) =~= seq![]);
            if let Some((ys, t)) = read_items(entry_reader(), left as nat, reader.rest()) {
                assert(Seq::<(Seq<u8>, Seq<u8>)>::empty() + ys =~= ys);
            }
        }
        while left > 0
            invariant
                reader.inside(),
                read_list(entry_reader(), all) == read_on(
                    entry_reader(),
                    listing(read@),
                    left as nat,
                    reader.rest(),
                ),
                all == bytes_contents(bytes),
            decreases left,
        {
            proof {
                lemma_read_on(entry_reader(), listing(read@), left as nat, reader.rest());
            }
            let ghost read0 = read@;
            let key = match reader.bytes() {
                Some(key) => key,
                None => return Err("bytes that are no entries".to_string()),
            };
            let value = match reader.bytes() {
                Some(value) => value,
                None => return Err("bytes that are no entries".to_string()),
            };
            read.push((bytes_copy_from_slice(key), bytes_copy_from_slice(value)));
            assert(listing(read@) =~= listing(read0).push((key@, value@)));
            left = left - 1;
        }
        proof {
            lemma_read_on_end(entry_reader(), listing(read@), reader.rest());
        }
        if !reader.is_done() {
            return Err("bytes after the last entry".to_string());
        }
        let mut entries: Vec<(Bytes, Bytes)> = Vec::new();
        std::mem::swap(&mut entries, &mut self.entries);
        let ghost xs = listing(read@);
        let ghost before = map_of(listing(entries@));
        let mut i: usize = 0;
        assert(xs.take(0) =~= seq![]);
        while i < read.len()
            invariant
                i <= read.len(),
                xs == listing(read@),
                keys_grow(key_order(), listing(entries@)),
                map_of(listing(entries@)) == put_all(before, xs.take(i as int)),
            decreases read.len() - i,
        {
            assert(xs[i as int] == (bytes_contents(read@[i as int].0), bytes_contents(read@[i as int].1)));
            Self::put(&mut entries, bytes_as_slice(&read[i].0), bytes_clone(&read[i].1));
            assert(xs.take(i + 1).drop_last() =~= xs.take(i as int));
            i = i + 1;
        }
        self.entries = entries;
        proof {
            assert(xs.take(i as int) =~= xs);
            lemma_put_all(before, xs);
        }
        Ok(())
    }

    fn clone_store(&self) -> (r: Self) {
        proof {
            use_type_invariant(self);
        }
        let mut entries: Vec<(Bytes, Bytes)> = Vec::new();
        let mut i: usize = 0;
        while i < self.entries.len()
            invariant
                i <= self.entries.len(),
                listing(entries@) =~= listing(self.entries@).take(i as int),
            decreases self.entries.len() - i,
        {
            let ghost entries0 = entries@;
            entries.push((bytes_clone(&self.entries[i].0), bytes_clone(&self.entries[i].1)));
            assert(listing(entries@) =~= listing(entries0).push(listing(self.entries@)[i as int]));
            i = i + 1;
        }
        assert(listing(entries@) =~= listing(self.entries@));
        MemKvStore { entries }
    }

    proof fn lemma_import_exported(m: Map<Seq<u8>, Seq<u8>>) {
        lemma_key_order_is_order();
        let xs = choose|xs: Seq<(Seq<u8>, Seq<u8>)>| #[trigger] lists(xs, m) && listing_fits(xs);
        let ys = choose|ys: Seq<(Seq<u8>, Seq<u8>)>| #[trigger] lists(ys, m);
        lemma_listing_unique(key_order(), xs, ys);
        lemma_read_listing(ys);
        lemma_put_listing(ys);
    }
}

/// The number of bytes of the keys and values of the first `n` entries.
pub open spec fn listing_size(xs: Seq<(Seq<u8>, Seq<u8>)>, n: int) -> nat
    decreases n,
{
    if n <= 0 {
        0
    } else {
        listing_size(xs, n - 1) + xs[n - 1].0.len() + xs[n - 1].1.len()
    }
}

/// The number of bytes of all keys and values.
pub open spec fn kv_bytes(m: Map<Seq<u8>, Seq<u8>>) -> nat {
    let xs = choose|xs: Seq<(Seq<u8>, Seq<u8>)>| #[trigger] lists(xs, m);
    listing_size(xs, xs.len() as int)
}

/// There is one way to list the entries, and the first ones have no more bytes than all.
pub proof fn lemma_kv_bytes(xs: Seq<(Seq<u8>, Seq<u8>)>, m: Map<Seq<u8>, Seq<u8>>)
    requires
        lists(xs, m),
    ensures
        kv_bytes(m) == listing_size(xs, xs.len() as int),
        forall|i: int| 0 <= i <= xs.len() ==> #[trigger] listing_size(xs, i) <= listing_size(xs, xs.len() as int),
{
    lemma_key_order_is_order();
    let ys = choose|ys: Seq<(Seq<u8>, Seq<u8>)>| #[trigger] lists(ys, m);
    lemma_listing_unique(key_order(), xs, ys);
    assert forall|i: int| 0 <= i <= xs.len() implies #[trigger] listing_size(xs, i) <= listing_size(
        xs,
        xs.len() as int,
    ) by {
        lemma_listing_size(xs, i, xs.len() as int);
    }
}

proof fn lemma_listing_size(xs: Seq<(Seq<u8>, Seq<u8>)>, i: int, n: int)
    requires
        i <= n,
    ensures
        listing_size(xs, i) <= listing_size(xs, n),
    decreases n - i,
{
    if i < n && 0 < n {
        lemma_listing_size(xs, i, n - 1);
    }
}

} // verus!
