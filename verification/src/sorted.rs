//! Sorted lists of keys and values, and the maps that they list.
use vstd::prelude::*;

verus! {

/// Whether the keys of a list grow, in the given order.
pub open spec fn keys_grow<K, V>(before: spec_fn(K, K) -> bool, xs: Seq<(K, V)>) -> bool {
    forall|i: int, j: int| 0 <= i < j < xs.len() ==> before((#[trigger] xs[i]).0, (#[trigger] xs[j]).0)
}

/// Whether a list has an entry with the given key.
pub open spec fn has_key<K, V>(xs: Seq<(K, V)>, k: K) -> bool {
    exists|i: int| 0 <= i < xs.len() && (#[trigger] xs[i]).0 == k
}

/// The position of an entry with the given key.
pub open spec fn key_index<K, V>(xs: Seq<(K, V)>, k: K) -> int {
    choose|i: int| 0 <= i < xs.len() && (#[trigger] xs[i]).0 == k
}

/// The map that a list stands for.
pub open spec fn map_of<K, V>(xs: Seq<(K, V)>) -> Map<K, V> {
    Map::new(|k: K| has_key(xs, k), |k: K| xs[key_index(xs, k)].1)
}

/// No key comes before itself, and no two come before each other.
pub open spec fn is_order<K>(before: spec_fn(K, K) -> bool) -> bool {
    &&& forall|a: K| !#[trigger] before(a, a)
    &&& forall|a: K, b: K| #[trigger] before(a, b) ==> !before(b, a)
}

/// In a list whose keys grow, the entry with a key is the one that its map holds.
pub proof fn lemma_map_of<K, V>(before: spec_fn(K, K) -> bool, xs: Seq<(K, V)>, i: int)
    requires
        is_order(before),
        keys_grow(before, xs),
        0 <= i < xs.len(),
    ensures
        map_of(xs).contains_key(xs[i].0),
        map_of(xs)[xs[i].0] == xs[i].1,
        key_index(xs, xs[i].0) == i,
{
    let j = key_index(xs, xs[i].0);
    assert(has_key(xs, xs[i].0));
    assert(0 <= j < xs.len() && xs[j].0 == xs[i].0);
    assert(!before(xs[i].0, xs[i].0));
    if j < i {
        assert(before(xs[j].0, xs[i].0));
    } else if i < j {
        assert(before(xs[i].0, xs[j].0));
    }
}

/// Two lists whose keys grow and that stand for the same map are the same.
pub proof fn lemma_listing_unique<K, V>(before: spec_fn(K, K) -> bool, xs: Seq<(K, V)>, ys: Seq<(K, V)>)
    requires
        is_order(before),
        keys_grow(before, xs),
        keys_grow(before, ys),
        map_of(xs) == map_of(ys),
    ensures
        xs == ys,
{
    if xs.len() <= ys.len() {
        lemma_listing_prefix(before, xs, ys, xs.len() as int);
        if xs.len() < ys.len() {
            let k = ys[xs.len() as int].0;
            lemma_map_of(before, ys, xs.len() as int);
            assert(has_key(xs, k));
            let j = key_index(xs, k);
            assert(xs[j] == ys[j]);
            assert(before(ys[j].0, ys[xs.len() as int].0));
            assert(!before(k, k));
        }
    } else {
        lemma_listing_prefix(before, xs, ys, ys.len() as int);
        let k = xs[ys.len() as int].0;
        lemma_map_of(before, xs, ys.len() as int);
        assert(has_key(ys, k));
        let j = key_index(ys, k);
        assert(xs[j] == ys[j]);
        assert(before(xs[j].0, xs[ys.len() as int].0));
        assert(!before(k, k));
    }
    assert(xs =~= ys);
}

proof fn lemma_listing_prefix<K, V>(before: spec_fn(K, K) -> bool, xs: Seq<(K, V)>, ys: Seq<(K, V)>, n: int)
    requires
        is_order(before),
        keys_grow(before, xs),
        keys_grow(before, ys),
        map_of(xs) == map_of(ys),
        0 <= n <= xs.len(),
        n <= ys.len(),
    ensures
        forall|i: int| 0 <= i < n ==> #[trigger] xs[i] == ys[i],
    decreases n,
{
    if n > 0 {
        lemma_listing_prefix(before, xs, ys, n - 1);
        let i = n - 1;
        lemma_map_of(before, xs, i);
        lemma_map_of(before, ys, i);
        let (a, b) = (xs[i].0, ys[i].0);
        assert(has_key(ys, a));
        assert(has_key(xs, b));
        let j = key_index(ys, a);
        let k = key_index(xs, b);
        assert(0 <= j < ys.len() && ys[j].0 == a);
        assert(0 <= k < xs.len() && xs[k].0 == b);
        if j < i {
            assert(xs[j] == ys[j]);
            assert(before(xs[j].0, xs[i].0));
            assert(!before(a, a));
            assert(false);
        }
        if k < i {
            assert(xs[k] == ys[k]);
            assert(before(ys[k].0, ys[i].0));
            assert(!before(b, b));
            assert(false);
        }
        if j > i {
            assert(before(b, a));
            if k > i {
                assert(before(a, b));
            }
            assert(!before(b, b));
            assert(false);
        }
        assert(a == b);
        assert(xs[i].1 == ys[i].1);
    }
}

/// The place of a key in a list: the entries before it have keys before `k`, and the
/// ones from it on have the key itself or keys after it.
pub open spec fn is_place<K, V>(before: spec_fn(K, K) -> bool, xs: Seq<(K, V)>, i: int, k: K) -> bool {
    &&& 0 <= i <= xs.len()
    &&& forall|j: int| 0 <= j < i ==> before((#[trigger] xs[j]).0, k)
    &&& forall|j: int| i <= j < xs.len() ==> (#[trigger] xs[j]).0 == k || before(k, xs[j].0)
}

/// Whether the entry at a place is the one with the key.
pub open spec fn found_at<K, V>(xs: Seq<(K, V)>, i: int, k: K) -> bool {
    i < xs.len() && xs[i].0 == k
}

/// The list with an entry put at its place: in place of the one with the same key, if
/// there is one.
pub open spec fn put_at<K, V>(xs: Seq<(K, V)>, i: int, k: K, v: V) -> Seq<(K, V)> {
    if found_at(xs, i, k) {
        xs.update(i, (k, v))
    } else {
        xs.insert(i, (k, v))
    }
}

/// A list has a key where the entry at its place has it.
pub proof fn lemma_found_at<K, V>(before: spec_fn(K, K) -> bool, xs: Seq<(K, V)>, i: int, k: K)
    requires
        is_order(before),
        keys_grow(before, xs),
        is_place(before, xs, i, k),
    ensures
        map_of(xs).contains_key(k) == found_at(xs, i, k),
        found_at(xs, i, k) ==> map_of(xs)[k] == xs[i].1,
        forall|j: int| i <= j < xs.len() && !found_at(xs, i, k) ==> before(k, (#[trigger] xs[j]).0),
{
    if found_at(xs, i, k) {
        lemma_map_of(before, xs, i);
    } else {
        assert forall|j: int| i <= j < xs.len() implies before(k, (#[trigger] xs[j]).0) by {
            if xs[j].0 == k {
                assert(before(xs[i].0, xs[j].0));
                assert(before(k, xs[i].0));
            }
        }
        if has_key(xs, k) {
            let j = key_index(xs, k);
            assert(xs[j].0 == k);
            assert(!before(k, k));
        }
    }
}

/// Putting an entry at its place inserts it into the map.
pub proof fn lemma_put_at<K, V>(before: spec_fn(K, K) -> bool, xs: Seq<(K, V)>, i: int, k: K, v: V)
    requires
        is_order(before),
        keys_grow(before, xs),
        is_place(before, xs, i, k),
    ensures
        keys_grow(before, put_at(xs, i, k, v)),
        map_of(put_at(xs, i, k, v)) == map_of(xs).insert(k, v),
{
    lemma_found_at(before, xs, i, k);
    let ys = put_at(xs, i, k, v);
    let shift: int = if found_at(xs, i, k) {
        0
    } else {
        1
    };
    assert forall|a: int, b: int| 0 <= a < b < ys.len() implies before(
        (#[trigger] ys[a]).0,
        (#[trigger] ys[b]).0,
    ) by {
        let a0 = if a <= i {
            a
        } else {
            a - shift
        };
        let b0 = if b <= i {
            b
        } else {
            b - shift
        };
        if a != i && b != i {
            assert(ys[a] == xs[a0] && ys[b] == xs[b0]);
        } else if a == i {
            assert(ys[b] == xs[b0]);
            if shift == 0 {
                assert(before(xs[i].0, xs[b0].0));
            }
        } else {
            assert(ys[a] == xs[a]);
        }
    }
    let m = map_of(xs).insert(k, v);
    assert forall|key: K|
        #![trigger map_of(ys).dom().contains(key)]
        #![trigger map_of(ys)[key]]
        map_of(ys).dom().contains(key) == m.dom().contains(key) && (m.dom().contains(key) ==> map_of(ys)[key]
            == m[key]) by {
        if has_key(ys, key) {
            let j = key_index(ys, key);
            assert(ys[j].0 == key);
            lemma_map_of(before, ys, j);
            if j != i {
                let j0 = if j < i {
                    j
                } else {
                    j - shift
                };
                assert(ys[j] == xs[j0]);
                lemma_map_of(before, xs, j0);
                assert(ys[i].0 == k);
                if key == k {
                    lemma_map_of(before, ys, i);
                }
            }
        }
        if has_key(xs, key) {
            let j = key_index(xs, key);
            assert(xs[j].0 == key);
            let j1 = if j < i {
                j
            } else {
                j + shift
            };
            assert(ys[j1].0 == key);
        }
        assert(ys[i].0 == k);
    }
    assert(map_of(ys) =~= m);
}

} // verus!
