//! Values that are written to byte strings and read back from them.
use crate::codec::{
    lemma_read_id, lemma_read_list, lemma_read_on, lemma_read_on_end, lemma_read_u32, lemma_written_items_push, read_id,
    read_items, read_list, read_on, read_u32, write_id, write_u32, write_u64, written_items, written_list, Read, Reader,
};
use crate::ids::{be_bytes_u32, id_bytes, ID};
use vstd::prelude::*;

verus! {

/// A value that is written as some bytes, and read from the front of a byte string.
pub trait Stored: View + Sized {
    /// The bytes that a value is written as.
    spec fn written(v: Self::V) -> Seq<u8>;

    /// The value that is read from the front of a byte string.
    spec fn read_from(s: Seq<u8>) -> Read<Self::V>;

    /// The lengths in the value can be written.
    spec fn fits(v: Self::V) -> bool;

    fn write(&self, buf: &mut Vec<u8>)
        ensures
            final(buf)@ == old(buf)@ + Self::written(self@),
            Self::fits(self@),
    ;

    fn read<'a>(reader: &mut Reader<'a>) -> (r: Option<Self>)
        requires
            old(reader).inside(),
        ensures
            final(reader).inside(),
            match r {
                Some(x) => Self::read_from(old(reader).rest()) == Some((x@, final(reader).rest())),
                None => Self::read_from(old(reader).rest()) is None,
            },
    ;

    /// A value is read as it was written.
    proof fn lemma_read(v: Self::V, rest: Seq<u8>)
        requires
            Self::fits(v),
        ensures
            Self::read_from(Self::written(v) + rest) == Some((v, rest)),
    ;
}

/// How values of a type are written.
pub open spec fn writer<T: Stored>() -> spec_fn(T::V) -> Seq<u8> {
    |v: T::V| T::written(v)
}

/// How values of a type are read.
pub open spec fn reader_of<T: Stored>() -> spec_fn(Seq<u8>) -> Read<T::V> {
    |s: Seq<u8>| T::read_from(s)
}

/// What the values of a vector hold.
pub open spec fn views<T: View>(v: Seq<T>) -> Seq<T::V> {
    v.map_values(|x: T| x@)
}

/// The bytes that a list of values is written as.
pub open spec fn written_values<T: Stored>(xs: Seq<T::V>) -> Seq<u8> {
    written_list(writer::<T>(), xs)
}

/// The list of values that is read from the front of a byte string.
pub open spec fn read_values<T: Stored>(s: Seq<u8>) -> Read<Seq<T::V>> {
    read_list(reader_of::<T>(), s)
}

/// The length of a list, and the lengths in its values, can be written.
pub open spec fn values_fit<T: Stored>(xs: Seq<T::V>) -> bool {
    &&& xs.len() <= u64::MAX
    &&& forall|i: int| 0 <= i < xs.len() ==> T::fits(#[trigger] xs[i])
}

/// A list of values is read as it was written.
pub proof fn lemma_read_values<T: Stored>(xs: Seq<T::V>, rest: Seq<u8>)
    requires
        values_fit::<T>(xs),
    ensures
        read_values::<T>(written_values::<T>(xs) + rest) == Some((xs, rest)),
{
    assert forall|i: int, r: Seq<u8>| 0 <= i < xs.len() implies #[trigger] reader_of::<T>()(writer::<T>()(xs[i]) + r)
        == Some((xs[i], r)) by {
        T::lemma_read(xs[i], r);
    }
    lemma_read_list(writer::<T>(), reader_of::<T>(), xs, rest);
}

/// Writes a list of values.
pub fn write_values<T: Stored>(values: &Vec<T>, buf: &mut Vec<u8>)
    ensures
        final(buf)@ == old(buf)@ + written_values::<T>(views(values@)),
        values_fit::<T>(views(values@)),
{
    let ghost xs = views(values@);
    let ghost buf0 = buf@;
    write_u64(buf, values.len() as u64);
    let ghost head = buf@;
    let mut i: usize = 0;
    assert(xs.take(0) =~= seq![]);
    while i < values.len()
        invariant
            i <= values@.len(),
            xs == views(values@),
            buf@ =~= head + written_items(writer::<T>(), xs.take(i as int)),
            forall|j: int| 0 <= j < i ==> T::fits(#[trigger] xs[j]),
        decreases values.len() - i,
    {
        assert(xs[i as int] == values@[i as int]@);
        values[i].write(buf);
        proof {
            lemma_written_items_push(writer::<T>(), xs.take(i as int), xs[i as int]);
            assert(xs.take(i + 1) =~= xs.take(i as int).push(xs[i as int]));
        }
        i = i + 1;
    }
    assert(xs.take(i as int) =~= xs);
    assert(buf@ =~= buf0 + written_values::<T>(xs));
}

/// Reads a list of values.
pub fn read_vec<'a, T: Stored>(reader: &mut Reader<'a>) -> (r: Option<Vec<T>>)
    requires
        old(reader).inside(),
    ensures
        final(reader).inside(),
        match r {
            Some(v) => read_values::<T>(old(reader).rest()) == Some((views(v@), final(reader).rest())),
            None => read_values::<T>(old(reader).rest()) is None,
        },
{
    let ghost all = reader.rest();
    let n: u64 = match reader.u64() {
        Some(n) => n,
        None => return None,
    };
    let mut v: Vec<T> = Vec::new();
    let mut left: u64 = n;
    proof {
        assert(views(v@) =~= seq![]);
        if let Some((ys, t)) = read_items(reader_of::<T>(), left as nat, reader.rest()) {
            assert(Seq::<T::V>::empty() + ys =~= ys);
        }
    }
    while left > 0
        invariant
            reader.inside(),
            read_values::<T>(all) == read_on(reader_of::<T>(), views(v@), left as nat, reader.rest()),
            all == old(reader).rest(),
        decreases left,
    {
        proof {
            lemma_read_on(reader_of::<T>(), views(v@), left as nat, reader.rest());
        }
        let ghost v0 = v@;
        match T::read(reader) {
            Some(x) => {
                v.push(x);
                assert(views(v@) =~= views(v0).push(x@));
            },
            None => return None,
        }
        left = left - 1;
    }
    proof {
        lemma_read_on_end(reader_of::<T>(), views(v@), reader.rest());
    }
    Some(v)
}

impl Stored for u32 {
    open spec fn written(v: u32) -> Seq<u8> {
        be_bytes_u32(v)
    }

    open spec fn read_from(s: Seq<u8>) -> Read<u32> {
        read_u32(s)
    }

    open spec fn fits(v: u32) -> bool {
        true
    }

    fn write(&self, buf: &mut Vec<u8>) {
        write_u32(buf, *self);
    }

    fn read<'a>(reader: &mut Reader<'a>) -> (r: Option<u32>) {
        reader.u32()
    }

    proof fn lemma_read(v: u32, rest: Seq<u8>) {
        lemma_read_u32(v, rest);
    }
}

impl Stored for i32 {
    open spec fn written(v: i32) -> Seq<u8> {
        be_bytes_u32(v as u32)
    }

    open spec fn read_from(s: Seq<u8>) -> Read<i32> {
        match read_u32(s) {
            Some((x, r)) => Some((x as i32, r)),
            None => None,
        }
    }

    open spec fn fits(v: i32) -> bool {
        true
    }

    fn write(&self, buf: &mut Vec<u8>) {
        write_u32(buf, *self as u32);
    }

    fn read<'a>(reader: &mut Reader<'a>) -> (r: Option<i32>) {
        match reader.u32() {
            Some(x) => Some(x as i32),
            None => None,
        }
    }

    proof fn lemma_read(v: i32, rest: Seq<u8>) {
        assert(v as u32 as i32 == v) by (bit_vector);
        lemma_read_u32(v as u32, rest);
    }
}

impl Stored for ID {
    open spec fn written(v: ID) -> Seq<u8> {
        id_bytes(v)
    }

    open spec fn read_from(s: Seq<u8>) -> Read<ID> {
        read_id(s)
    }

    open spec fn fits(v: ID) -> bool {
        true
    }

    fn write(&self, buf: &mut Vec<u8>) {
        write_id(buf, *self);
    }

    fn read<'a>(reader: &mut Reader<'a>) -> (r: Option<ID>) {
        reader.id()
    }

    proof fn lemma_read(v: ID, rest: Seq<u8>) {
        lemma_read_id(v, rest);
    }
}

} // verus!
