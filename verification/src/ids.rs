//! Identifiers of operations and spans of them, and the byte form in which an
//! identifier is a key of the key-value store.
use vstd::prelude::*;

verus! {

/// The identity of a writer.
pub type PeerID = u64;

/// The position of an operation in the history of its peer.
pub type Counter = i32;

/// A Lamport clock value.
pub type Lamport = u32;

/// A wall clock value, in seconds.
pub type Timestamp = i64;

/// The identity of one atomic operation: the peer that made it and its position
/// in that peer's history.
#[derive(Clone, Copy, PartialEq, Eq, Structural, Debug)]
pub struct ID {
    pub peer: PeerID,
    pub counter: Counter,
}

/// A peer and a Lamport clock value.
#[derive(Clone, Copy, PartialEq, Eq, Structural, Debug)]
pub struct IdLp {
    pub peer: PeerID,
    pub lamport: Lamport,
}

/// The counters from `start` up to, but without, `end`.
#[derive(Clone, Copy, PartialEq, Eq, Structural, Debug)]
pub struct CounterSpan {
    pub start: Counter,
    pub end: Counter,
}

/// A span of counters of one peer.
#[derive(Clone, Copy, PartialEq, Eq, Structural, Debug)]
pub struct IdSpan {
    pub peer: PeerID,
    pub counter: CounterSpan,
}

/// The eight bytes of `x`, the most significant one first.
pub open spec fn be_bytes_u64(x: u64) -> Seq<u8> {
    seq![
        ((x >> 56) & 0xff) as u8,
        ((x >> 48) & 0xff) as u8,
        ((x >> 40) & 0xff) as u8,
        ((x >> 32) & 0xff) as u8,
        ((x >> 24) & 0xff) as u8,
        ((x >> 16) & 0xff) as u8,
        ((x >> 8) & 0xff) as u8,
        (x & 0xff) as u8,
    ]
}

/// The four bytes of `x`, the most significant one first.
pub open spec fn be_bytes_u32(x: u32) -> Seq<u8> {
    seq![
        ((x >> 24) & 0xff) as u8,
        ((x >> 16) & 0xff) as u8,
        ((x >> 8) & 0xff) as u8,
        (x & 0xff) as u8,
    ]
}

/// The number whose bytes, the most significant one first, are `s[0], .., s[7]`.
pub open spec fn u64_of_be_bytes(s: Seq<u8>) -> u64 {
    ((s[0] as u64) << 56) | ((s[1] as u64) << 48) | ((s[2] as u64) << 40) | ((s[3] as u64) << 32)
        | ((s[4] as u64) << 24) | ((s[5] as u64) << 16) | ((s[6] as u64) << 8) | (s[7] as u64)
}

/// The number whose bytes, the most significant one first, are `s[0], .., s[3]`.
pub open spec fn u32_of_be_bytes(s: Seq<u8>) -> u32 {
    ((s[0] as u32) << 24) | ((s[1] as u32) << 16) | ((s[2] as u32) << 8) | (s[3] as u32)
}

/// The key of the key-value store that stands for `id`: the bytes of the peer,
/// then those of the counter.
pub open spec fn id_bytes(id: ID) -> Seq<u8> {
    be_bytes_u64(id.peer) + be_bytes_u32(id.counter as u32)
}

/// The identifier that a key of twelve bytes stands for.
pub open spec fn id_of_bytes(s: Seq<u8>) -> ID {
    ID {
        peer: u64_of_be_bytes(s.subrange(0, 8)),
        counter: u32_of_be_bytes(s.subrange(8, 12)) as i32,
    }
}

impl View for ID {
    type V = ID;

    open spec fn view(&self) -> ID {
        *self
    }
}

impl ID {
    /// The order of identifiers: by peer, then by counter.
    pub open spec fn before(self, other: ID) -> bool {
        self.peer < other.peer || (self.peer == other.peer && self.counter < other.counter)
    }

    pub fn new(peer: PeerID, counter: Counter) -> (id: ID)
        ensures
            id == (ID { peer, counter }),
    {
        ID { peer, counter }
    }

    /// Whether `self` comes before `other`.
    pub fn is_before(&self, other: &ID) -> (r: bool)
        ensures
            r == self.before(*other),
    {
        self.peer < other.peer || (self.peer == other.peer && self.counter < other.counter)
    }

    /// The key of the key-value store that stands for `self`.
    pub fn to_bytes(&self) -> (r: [u8; 12])
        ensures
            r@ == id_bytes(*self),
    {
        let p: u64 = self.peer;
        let c: u32 = self.counter as u32;
        let r = [
            ((p >> 56) & 0xff) as u8,
            ((p >> 48) & 0xff) as u8,
            ((p >> 40) & 0xff) as u8,
            ((p >> 32) & 0xff) as u8,
            ((p >> 24) & 0xff) as u8,
            ((p >> 16) & 0xff) as u8,
            ((p >> 8) & 0xff) as u8,
            (p & 0xff) as u8,
            ((c >> 24) & 0xff) as u8,
            ((c >> 16) & 0xff) as u8,
            ((c >> 8) & 0xff) as u8,
            (c & 0xff) as u8,
        ];
        assert(r@ =~= id_bytes(*self));
        r
    }

    /// The identifier that a key of twelve bytes stands for.
    pub fn from_bytes(bytes: &[u8]) -> (id: ID)
        requires
            bytes@.len() == 12,
        ensures
            id == id_of_bytes(bytes@),
            id_bytes(id) == bytes@,
    {
        let peer: u64 = ((bytes[0] as u64) << 56) | ((bytes[1] as u64) << 48) | ((bytes[2] as u64) << 40)
            | ((bytes[3] as u64) << 32) | ((bytes[4] as u64) << 24) | ((bytes[5] as u64) << 16)
            | ((bytes[6] as u64) << 8) | (bytes[7] as u64);
        let counter: u32 = ((bytes[8] as u32) << 24) | ((bytes[9] as u32) << 16) | ((bytes[10] as u32) << 8)
            | (bytes[11] as u32);
        proof {
            lemma_bytes_id(bytes@);
        }
        ID { peer, counter: counter as i32 }
    }
}

impl IdSpan {
    /// Where the span starts.
    pub fn id_start(&self) -> (id: ID)
        ensures
            id == (ID { peer: self.peer, counter: self.counter.start }),
    {
        ID { peer: self.peer, counter: self.counter.start }
    }

    /// Where the span ends; the span does not hold this identifier.
    pub fn id_end(&self) -> (id: ID)
        ensures
            id == (ID { peer: self.peer, counter: self.counter.end }),
    {
        ID { peer: self.peer, counter: self.counter.end }
    }
}

/// The order of keys in the key-value store: byte by byte, a key before all
/// longer keys that it starts.
pub open spec fn key_before(a: Seq<u8>, b: Seq<u8>) -> bool
    decreases a.len(),
{
    if b.len() == 0 {
        false
    } else if a.len() == 0 {
        true
    } else if a[0] != b[0] {
        a[0] < b[0]
    } else {
        key_before(a.drop_first(), b.drop_first())
    }
}

/// An identifier is read back from its key.
pub proof fn lemma_id_bytes(id: ID)
    ensures
        id_bytes(id).len() == 12,
        id_of_bytes(id_bytes(id)) == id,
{
    let s = id_bytes(id);
    let p = id.peer;
    let i = id.counter;
    let c = i as u32;
    assert(s.subrange(0, 8) =~= be_bytes_u64(p));
    assert(s.subrange(8, 12) =~= be_bytes_u32(c));
    assert(p == ((((p >> 56) & 0xff) as u8 as u64) << 56) | ((((p >> 48) & 0xff) as u8 as u64) << 48)
        | ((((p >> 40) & 0xff) as u8 as u64) << 40) | ((((p >> 32) & 0xff) as u8 as u64) << 32)
        | ((((p >> 24) & 0xff) as u8 as u64) << 24) | ((((p >> 16) & 0xff) as u8 as u64) << 16)
        | ((((p >> 8) & 0xff) as u8 as u64) << 8) | ((p & 0xff) as u8 as u64)) by (bit_vector);
    assert(c == ((((c >> 24) & 0xff) as u8 as u32) << 24) | ((((c >> 16) & 0xff) as u8 as u32) << 16)
        | ((((c >> 8) & 0xff) as u8 as u32) << 8) | ((c & 0xff) as u8 as u32)) by (bit_vector);
    assert(i as u32 as i32 == i) by (bit_vector);
}

/// Every key of twelve bytes is the key of the identifier read from it.
pub proof fn lemma_bytes_id(s: Seq<u8>)
    requires
        s.len() == 12,
    ensures
        id_bytes(id_of_bytes(s)) == s,
{
    let id = id_of_bytes(s);
    let hi = s.subrange(0, 8);
    let lo = s.subrange(8, 12);
    let (h0, h1, h2, h3) = (hi[0], hi[1], hi[2], hi[3]);
    let (h4, h5, h6, h7) = (hi[4], hi[5], hi[6], hi[7]);
    let p = id.peer;
    assert(p == ((h0 as u64) << 56) | ((h1 as u64) << 48) | ((h2 as u64) << 40) | ((h3 as u64) << 32)
        | ((h4 as u64) << 24) | ((h5 as u64) << 16) | ((h6 as u64) << 8) | (h7 as u64));
    assert(h0 == ((p >> 56) & 0xff) as u8 && h1 == ((p >> 48) & 0xff) as u8 && h2 == ((p >> 40) & 0xff) as u8
        && h3 == ((p >> 32) & 0xff) as u8 && h4 == ((p >> 24) & 0xff) as u8 && h5 == ((p >> 16) & 0xff) as u8
        && h6 == ((p >> 8) & 0xff) as u8 && h7 == (p & 0xff) as u8) by (bit_vector)
        requires
            p == ((h0 as u64) << 56) | ((h1 as u64) << 48) | ((h2 as u64) << 40) | ((h3 as u64) << 32)
                | ((h4 as u64) << 24) | ((h5 as u64) << 16) | ((h6 as u64) << 8) | (h7 as u64),
    ;
    let (l0, l1, l2, l3) = (lo[0], lo[1], lo[2], lo[3]);
    let u = u32_of_be_bytes(lo);
    assert(u as i32 as u32 == u) by (bit_vector);
    assert(l0 == ((u >> 24) & 0xff) as u8 && l1 == ((u >> 16) & 0xff) as u8 && l2 == ((u >> 8) & 0xff) as u8
        && l3 == (u & 0xff) as u8) by (bit_vector)
        requires
            u == ((l0 as u32) << 24) | ((l1 as u32) << 16) | ((l2 as u32) << 8) | (l3 as u32),
    ;
    assert(id_bytes(id) =~= s);
}

/// The keys of two identifiers are ordered by peer, and then by counter, where a counter
/// below 0 comes after those that are not.
pub proof fn lemma_id_bytes_order(a: ID, b: ID)
    ensures
        key_before(id_bytes(a), id_bytes(b)) == (a.peer < b.peer || (a.peer == b.peer && (a.counter as u32)
            < (b.counter as u32))),
        a.counter >= 0 && b.counter >= 0 ==> key_before(id_bytes(a), id_bytes(b)) == a.before(b),
        a.counter >= 0 && b.counter < 0 ==> (a.counter as u32) < (b.counter as u32),
{
    let (i, j) = (a.counter, b.counter);
    assert(i >= 0 && j < 0 ==> (i as u32) < (j as u32)) by (bit_vector);
    lemma_id_bytes(a);
    lemma_id_bytes(b);
    reveal_with_fuel(key_before, 13);
    let s = id_bytes(a);
    let t = id_bytes(b);
    let (p, q) = (a.peer, b.peer);
    let (c, d) = (a.counter as u32, b.counter as u32);
    lemma_key_before_twelve(s, t);
    let (s0, s1, s2, s3, s4, s5, s6, s7) = (s[0], s[1], s[2], s[3], s[4], s[5], s[6], s[7]);
    let (t0, t1, t2, t3, t4, t5, t6, t7) = (t[0], t[1], t[2], t[3], t[4], t[5], t[6], t[7]);
    let (s8, s9, s10, s11) = (s[8], s[9], s[10], s[11]);
    let (t8, t9, t10, t11) = (t[8], t[9], t[10], t[11]);
    assert(
        (p < q) == (s0 < t0 || (s0 == t0 && (s1 < t1 || (s1 == t1 && (s2 < t2 || (s2 == t2 && (s3 < t3
        || (s3 == t3 && (s4 < t4 || (s4 == t4 && (s5 < t5 || (s5 == t5 && (s6 < t6 || (s6 == t6
        && s7 < t7))))))))))))))) by (bit_vector)
        requires
            s0 == ((p >> 56) & 0xff) as u8, s1 == ((p >> 48) & 0xff) as u8, s2 == ((p >> 40) & 0xff) as u8,
            s3 == ((p >> 32) & 0xff) as u8, s4 == ((p >> 24) & 0xff) as u8, s5 == ((p >> 16) & 0xff) as u8,
            s6 == ((p >> 8) & 0xff) as u8, s7 == (p & 0xff) as u8,
            t0 == ((q >> 56) & 0xff) as u8, t1 == ((q >> 48) & 0xff) as u8, t2 == ((q >> 40) & 0xff) as u8,
            t3 == ((q >> 32) & 0xff) as u8, t4 == ((q >> 24) & 0xff) as u8, t5 == ((q >> 16) & 0xff) as u8,
            t6 == ((q >> 8) & 0xff) as u8, t7 == (q & 0xff) as u8,
    ;
    assert(
        (p == q) == (s0 == t0 && s1 == t1 && s2 == t2 && s3 == t3 && s4 == t4 && s5 == t5 && s6 == t6
        && s7 == t7)) by (bit_vector)
        requires
            s0 == ((p >> 56) & 0xff) as u8, s1 == ((p >> 48) & 0xff) as u8, s2 == ((p >> 40) & 0xff) as u8,
            s3 == ((p >> 32) & 0xff) as u8, s4 == ((p >> 24) & 0xff) as u8, s5 == ((p >> 16) & 0xff) as u8,
            s6 == ((p >> 8) & 0xff) as u8, s7 == (p & 0xff) as u8,
            t0 == ((q >> 56) & 0xff) as u8, t1 == ((q >> 48) & 0xff) as u8, t2 == ((q >> 40) & 0xff) as u8,
            t3 == ((q >> 32) & 0xff) as u8, t4 == ((q >> 24) & 0xff) as u8, t5 == ((q >> 16) & 0xff) as u8,
            t6 == ((q >> 8) & 0xff) as u8, t7 == (q & 0xff) as u8,
    ;
    assert(
        (c < d) == (s8 < t8 || (s8 == t8 && (s9 < t9 || (s9 == t9 && (s10 < t10 || (s10 == t10
        && s11 < t11))))))) by (bit_vector)
        requires
            s8 == ((c >> 24) & 0xff) as u8, s9 == ((c >> 16) & 0xff) as u8, s10 == ((c >> 8) & 0xff) as u8,
            s11 == (c & 0xff) as u8,
            t8 == ((d >> 24) & 0xff) as u8, t9 == ((d >> 16) & 0xff) as u8, t10 == ((d >> 8) & 0xff) as u8,
            t11 == (d & 0xff) as u8,
    ;
}

/// The order of two keys of twelve bytes, written out.
proof fn lemma_key_before_twelve(s: Seq<u8>, t: Seq<u8>)
    requires
        s.len() == 12,
        t.len() == 12,
    ensures
        key_before(s, t) == (s[0] < t[0] || (s[0] == t[0] && (s[1] < t[1] || (s[1] == t[1] && (s[2] < t[2]
            || (s[2] == t[2] && (s[3] < t[3] || (s[3] == t[3] && (s[4] < t[4] || (s[4] == t[4] && (s[5] < t[5]
            || (s[5] == t[5] && (s[6] < t[6] || (s[6] == t[6] && (s[7] < t[7] || (s[7] == t[7] && (s[8] < t[8]
            || (s[8] == t[8] && (s[9] < t[9] || (s[9] == t[9] && (s[10] < t[10] || (s[10] == t[10]
            && s[11] < t[11])))))))))))))))))))))),
{
    reveal_with_fuel(key_before, 13);
}

/// Keys are totally ordered.
pub proof fn lemma_key_order(a: Seq<u8>, b: Seq<u8>)
    ensures
        !(key_before(a, b) && key_before(b, a)),
        key_before(a, b) || key_before(b, a) || a == b,
        !key_before(a, a),
    decreases a.len(),
{
    if a.len() == 0 || b.len() == 0 {
        if a.len() > 0 {
            lemma_key_order(a.drop_first(), a.drop_first());
        }
        assert(a.len() == 0 && b.len() == 0 ==> a =~= b);
    } else {
        lemma_key_order(a.drop_first(), b.drop_first());
        lemma_key_order(a.drop_first(), a.drop_first());
        if a[0] == b[0] && a.drop_first() == b.drop_first() {
            assert forall|i: int| 0 <= i < a.len() implies a[i] == b[i] by {
                if i > 0 {
                    assert(a.drop_first()[i - 1] == b.drop_first()[i - 1]);
                }
            }
            assert(a.len() == b.len()) by {
                assert(a.drop_first().len() == b.drop_first().len());
            }
            assert(a =~= b);
        }
    }
}

/// The order of keys is transitive.
pub proof fn lemma_key_order_trans(a: Seq<u8>, b: Seq<u8>, c: Seq<u8>)
    requires
        key_before(a, b),
        key_before(b, c),
    ensures
        key_before(a, c),
    decreases a.len(),
{
    if a.len() > 0 && a[0] == b[0] && b[0] == c[0] {
        lemma_key_order_trans(a.drop_first(), b.drop_first(), c.drop_first());
    }
}

} // verus!
