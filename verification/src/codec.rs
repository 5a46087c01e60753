//! Reading and writing numbers, byte strings and lists of things.
//!
//! A thing is written as some bytes, and read from the front of a byte string,
//! which leaves the rest of it.
use crate::ids::{
    be_bytes_u32, be_bytes_u64, id_bytes, id_of_bytes, lemma_id_bytes, u32_of_be_bytes, u64_of_be_bytes, ID,
};
use vstd::prelude::*;

verus! {

/// What is read from the front of a byte string, and the rest of it.
pub type Read<T> = Option<(T, Seq<u8>)>;

/// Reads a number of eight bytes.
pub open spec fn read_u64(s: Seq<u8>) -> Read<u64> {
    if s.len() >= 8 {
        Some((u64_of_be_bytes(s.take(8)), s.skip(8)))
    } else {
        None
    }
}

/// Reads a number of four bytes.
pub open spec fn read_u32(s: Seq<u8>) -> Read<u32> {
    if s.len() >= 4 {
        Some((u32_of_be_bytes(s.take(4)), s.skip(4)))
    } else {
        None
    }
}

/// Reads an identifier.
pub open spec fn read_id(s: Seq<u8>) -> Read<ID> {
    if s.len() >= 12 {
        Some((id_of_bytes(s.take(12)), s.skip(12)))
    } else {
        None
    }
}

/// A byte string, after its length.
pub open spec fn written_bytes(b: Seq<u8>) -> Seq<u8> {
    be_bytes_u64(b.len() as u64) + b
}

/// Reads a byte string that stands after its length.
pub open spec fn read_bytes(s: Seq<u8>) -> Read<Seq<u8>> {
    match read_u64(s) {
        Some((n, r)) => if n <= r.len() {
            Some((r.take(n as int), r.skip(n as int)))
        } else {
            None
        },
        None => None,
    }
}

/// The things of a list, one after the other.
pub open spec fn written_items<T>(write: spec_fn(T) -> Seq<u8>, xs: Seq<T>) -> Seq<u8>
    decreases xs.len(),
{
    if xs.len() == 0 {
        seq![]
    } else {
        write(xs[0]) + written_items(write, xs.drop_first())
    }
}

/// Reads `n` things, one after the other.
pub open spec fn read_items<T>(read: spec_fn(Seq<u8>) -> Read<T>, n: nat, s: Seq<u8>) -> Read<Seq<T>>
    decreases n,
{
    if n == 0 {
        Some((seq![], s))
    } else {
        match read(s) {
            Some((x, r)) => match read_items(read, (n - 1) as nat, r) {
                Some((xs, t)) => Some((seq![x] + xs, t)),
                None => None,
            },
            None => None,
        }
    }
}

/// A list of things, after its length.
pub open spec fn written_list<T>(write: spec_fn(T) -> Seq<u8>, xs: Seq<T>) -> Seq<u8> {
    be_bytes_u64(xs.len() as u64) + written_items(write, xs)
}

/// Reads a list of things that stands after its length.
pub open spec fn read_list<T>(read: spec_fn(Seq<u8>) -> Read<T>, s: Seq<u8>) -> Read<Seq<T>> {
    match read_u64(s) {
        Some((n, r)) => read_items(read, n as nat, r),
        None => None,
    }
}

/// A number is read as it was written.
pub proof fn lemma_read_u64(x: u64, rest: Seq<u8>)
    ensures
        read_u64(be_bytes_u64(x) + rest) == Some((x, rest)),
{
    let id = ID { peer: x, counter: 0 };
    lemma_id_bytes(id);
    let s = be_bytes_u64(x) + rest;
    assert(id_bytes(id).subrange(0, 8) =~= be_bytes_u64(x));
    assert(s.take(8) =~= be_bytes_u64(x));
    assert(s.skip(8) =~= rest);
}

/// A number is read as it was written.
pub proof fn lemma_read_u32(x: u32, rest: Seq<u8>)
    ensures
        read_u32(be_bytes_u32(x) + rest) == Some((x, rest)),
{
    let s = be_bytes_u32(x) + rest;
    assert(s.take(4) =~= be_bytes_u32(x));
    assert(s.skip(4) =~= rest);
    assert(x == ((((x >> 24) & 0xff) as u8 as u32) << 24) | ((((x >> 16) & 0xff) as u8 as u32) << 16)
        | ((((x >> 8) & 0xff) as u8 as u32) << 8) | ((x & 0xff) as u8 as u32)) by (bit_vector);
}

/// An identifier is read as it was written.
pub proof fn lemma_read_id(id: ID, rest: Seq<u8>)
    ensures
        read_id(id_bytes(id) + rest) == Some((id, rest)),
{
    lemma_id_bytes(id);
    let s = id_bytes(id) + rest;
    assert(s.take(12) =~= id_bytes(id));
    assert(s.skip(12) =~= rest);
}

/// A byte string is read as it was written.
pub proof fn lemma_read_bytes(b: Seq<u8>, rest: Seq<u8>)
    requires
        b.len() <= u64::MAX,
    ensures
        read_bytes(written_bytes(b) + rest) == Some((b, rest)),
{
    let s = written_bytes(b) + rest;
    assert(s =~= be_bytes_u64(b.len() as u64) + (b + rest));
    lemma_read_u64(b.len() as u64, b + rest);
    assert((b + rest).take(b.len() as int) =~= b);
    assert((b + rest).skip(b.len() as int) =~= rest);
}

/// Things are read as they were written, if each of them is.
pub proof fn lemma_read_items<T>(
    write: spec_fn(T) -> Seq<u8>,
    read: spec_fn(Seq<u8>) -> Read<T>,
    xs: Seq<T>,
    rest: Seq<u8>,
)
    requires
        forall|i: int, r: Seq<u8>| 0 <= i < xs.len() ==> #[trigger] read(write(xs[i]) + r) == Some((xs[i], r)),
    ensures
        read_items(read, xs.len(), written_items(write, xs) + rest) == Some((xs, rest)),
    decreases xs.len(),
{
    let s = written_items(write, xs) + rest;
    if xs.len() == 0 {
        assert(s =~= rest);
        assert(xs =~= seq![]);
    } else {
        let tail = xs.drop_first();
        let r = written_items(write, tail) + rest;
        assert(s =~= write(xs[0]) + r);
        assert(read(write(xs[0]) + r) == Some((xs[0], r)));
        assert forall|i: int, r: Seq<u8>| 0 <= i < tail.len() implies #[trigger] read(write(tail[i]) + r) == Some(
            (tail[i], r),
        ) by {
            assert(tail[i] == xs[i + 1]);
            assert(read(write(xs[i + 1]) + r) == Some((xs[i + 1], r)));
        }
        lemma_read_items(write, read, tail, rest);
        assert(seq![xs[0]] + tail =~= xs);
    }
}

/// A list is read as it was written, if each thing in it is.
pub proof fn lemma_read_list<T>(
    write: spec_fn(T) -> Seq<u8>,
    read: spec_fn(Seq<u8>) -> Read<T>,
    xs: Seq<T>,
    rest: Seq<u8>,
)
    requires
        xs.len() <= u64::MAX,
        forall|i: int, r: Seq<u8>| 0 <= i < xs.len() ==> #[trigger] read(write(xs[i]) + r) == Some((xs[i], r)),
    ensures
        read_list(read, written_list(write, xs) + rest) == Some((xs, rest)),
{
    let s = written_list(write, xs) + rest;
    assert(s =~= be_bytes_u64(xs.len() as u64) + (written_items(write, xs) + rest));
    lemma_read_u64(xs.len() as u64, written_items(write, xs) + rest);
    lemma_read_items(write, read, xs, rest);
}

/// Writing one more thing.
pub proof fn lemma_written_items_push<T>(write: spec_fn(T) -> Seq<u8>, xs: Seq<T>, x: T)
    ensures
        written_items(write, xs.push(x)) == written_items(write, xs) + write(x),
    decreases xs.len(),
{
    if xs.len() == 0 {
        assert(xs.push(x).drop_first() =~= xs);
        assert(written_items(write, xs.push(x)) =~= written_items(write, xs) + write(x));
    } else {
        lemma_written_items_push(write, xs.drop_first(), x);
        assert(xs.push(x).drop_first() =~= xs.drop_first().push(x));
        assert(written_items(write, xs.push(x)) =~= written_items(write, xs) + write(x));
    }
}

/// What reading `n` things comes to when `done` of them have been read and
/// reading goes on at `rest`.
pub open spec fn read_on<T>(
    read: spec_fn(Seq<u8>) -> Read<T>,
    done: Seq<T>,
    n: nat,
    rest: Seq<u8>,
) -> Read<Seq<T>> {
    match read_items(read, n, rest) {
        Some((xs, t)) => Some((done + xs, t)),
        None => None,
    }
}

/// Reading goes on with the next thing.
pub proof fn lemma_read_on<T>(read: spec_fn(Seq<u8>) -> Read<T>, done: Seq<T>, n: nat, rest: Seq<u8>)
    requires
        n > 0,
    ensures
        read_on(read, done, n, rest) == (match read(rest) {
            Some((x, r)) => read_on(read, done.push(x), (n - 1) as nat, r),
            None => None,
        }),
{
    if let Some((x, r)) = read(rest) {
        if let Some((xs, t)) = read_items(read, (n - 1) as nat, r) {
            assert(done + (seq![x] + xs) =~= done.push(x) + xs);
        }
    }
}

/// Reading has come to its end.
pub proof fn lemma_read_on_end<T>(read: spec_fn(Seq<u8>) -> Read<T>, done: Seq<T>, rest: Seq<u8>)
    ensures
        read_on(read, done, 0, rest) == Some((done, rest)),
{
    assert(done + Seq::<T>::empty() =~= done);
}

pub fn write_u64(buf: &mut Vec<u8>, x: u64)
    ensures
        final(buf)@ == old(buf)@ + be_bytes_u64(x),
{
    buf.push(((x >> 56) & 0xff) as u8);
    buf.push(((x >> 48) & 0xff) as u8);
    buf.push(((x >> 40) & 0xff) as u8);
    buf.push(((x >> 32) & 0xff) as u8);
    buf.push(((x >> 24) & 0xff) as u8);
    buf.push(((x >> 16) & 0xff) as u8);
    buf.push(((x >> 8) & 0xff) as u8);
    buf.push((x & 0xff) as u8);
    assert(buf@ =~= old(buf)@ + be_bytes_u64(x));
}

pub fn write_u32(buf: &mut Vec<u8>, x: u32)
    ensures
        final(buf)@ == old(buf)@ + be_bytes_u32(x),
{
    buf.push(((x >> 24) & 0xff) as u8);
    buf.push(((x >> 16) & 0xff) as u8);
    buf.push(((x >> 8) & 0xff) as u8);
    buf.push((x & 0xff) as u8);
    assert(buf@ =~= old(buf)@ + be_bytes_u32(x));
}

pub fn write_id(buf: &mut Vec<u8>, id: ID)
    ensures
        final(buf)@ == old(buf)@ + id_bytes(id),
{
    write_u64(buf, id.peer);
    write_u32(buf, id.counter as u32);
    assert(buf@ =~= old(buf)@ + id_bytes(id));
}

pub fn write_bytes(buf: &mut Vec<u8>, b: &[u8])
    ensures
        final(buf)@ == old(buf)@ + written_bytes(b@),
{
    write_u64(buf, b.len() as u64);
    let ghost start = buf@;
    let mut i: usize = 0;
    while i < b.len()
        invariant
            i <= b.len(),
            buf@ =~= start + b@.take(i as int),
        decreases b.len() - i,
    {
        buf.push(b[i]);
        i = i + 1;
    }
    assert(b@.take(i as int) =~= b@);
    assert(buf@ =~= old(buf)@ + written_bytes(b@));
}

/// Reads from a byte string, from the front to the end.
pub struct Reader<'a> {
    pub bytes: &'a [u8],
    pub pos: usize,
}

impl<'a> Reader<'a> {
    /// What has not been read.
    pub open spec fn rest(&self) -> Seq<u8> {
        self.bytes@.skip(self.pos as int)
    }

    /// The position is in the byte string.
    pub open spec fn inside(&self) -> bool {
        self.pos <= self.bytes@.len()
    }

    pub fn new(bytes: &'a [u8]) -> (r: Self)
        ensures
            r.inside(),
            r.rest() == bytes@,
    {
        let r = Reader { bytes, pos: 0 };
        assert(r.rest() =~= bytes@);
        r
    }

    /// Whether all has been read.
    pub fn is_done(&self) -> (r: bool)
        requires
            self.inside(),
        ensures
            r == (self.rest().len() == 0),
    {
        self.pos == self.bytes.len()
    }

    pub fn u64(&mut self) -> (r: Option<u64>)
        requires
            old(self).inside(),
        ensures
            final(self).inside(),
            match r {
                Some(x) => read_u64(old(self).rest()) == Some((x, final(self).rest())),
                None => read_u64(old(self).rest()) is None,
            },
    {
        if self.bytes.len() - self.pos < 8 {
            return None;
        }
        let b = self.bytes;
        let p: usize = self.pos;
        let x: u64 = ((b[p] as u64) << 56) | ((b[p + 1] as u64) << 48) | ((b[p + 2] as u64) << 40)
            | ((b[p + 3] as u64) << 32) | ((b[p + 4] as u64) << 24) | ((b[p + 5] as u64) << 16)
            | ((b[p + 6] as u64) << 8) | (b[p + 7] as u64);
        self.pos = p + 8;
        assert(self.rest() =~= old(self).rest().skip(8));
        Some(x)
    }

    pub fn u32(&mut self) -> (r: Option<u32>)
        requires
            old(self).inside(),
        ensures
            final(self).inside(),
            match r {
                Some(x) => read_u32(old(self).rest()) == Some((x, final(self).rest())),
                None => read_u32(old(self).rest()) is None,
            },
    {
        if self.bytes.len() - self.pos < 4 {
            return None;
        }
        let b = self.bytes;
        let p: usize = self.pos;
        let x: u32 = ((b[p] as u32) << 24) | ((b[p + 1] as u32) << 16) | ((b[p + 2] as u32) << 8) | (b[p
            + 3] as u32);
        self.pos = p + 4;
        assert(self.rest() =~= old(self).rest().skip(4));
        Some(x)
    }

    pub fn id(&mut self) -> (r: Option<ID>)
        requires
            old(self).inside(),
        ensures
            final(self).inside(),
            match r {
                Some(x) => read_id(old(self).rest()) == Some((x, final(self).rest())),
                None => read_id(old(self).rest()) is None,
            },
    {
        if self.bytes.len() - self.pos < 12 {
            return None;
        }
        let p: usize = self.pos;
        let id = ID::from_bytes(vstd::slice::slice_subrange(self.bytes, p, p + 12));
        self.pos = p + 12;
        assert(self.rest() =~= old(self).rest().skip(12));
        assert(self.bytes@.subrange(p as int, p + 12) =~= old(self).rest().take(12));
        Some(id)
    }

    pub fn bytes(&mut self) -> (r: Option<&'a [u8]>)
        requires
            old(self).inside(),
        ensures
            final(self).inside(),
            match r {
                Some(x) => read_bytes(old(self).rest()) == Some((x@, final(self).rest())),
                None => read_bytes(old(self).rest()) is None,
            },
    {
        let n: u64 = match self.u64() {
            Some(n) => n,
            None => return None,
        };
        let ghost r0 = self.rest();
        if n > (self.bytes.len() - self.pos) as u64 {
            return None;
        }
        let p: usize = self.pos;
        let b = vstd::slice::slice_subrange(self.bytes, p, p + n as usize);
        self.pos = p + n as usize;
        assert(self.rest() =~= r0.skip(n as int));
        assert(b@ =~= r0.take(n as int));
        Some(b)
    }
}

} // verus!
