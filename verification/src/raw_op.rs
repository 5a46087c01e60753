//! Operations on containers of bytes.
use crate::codec::{
    lemma_read_bytes, lemma_read_u32, read_bytes, read_u32, write_bytes, write_u32, written_bytes, Read, Reader,
};
use crate::ids::{be_bytes_u32, Counter};
use crate::op::Operation;
use crate::stored::Stored;
use vstd::prelude::*;

verus! {

/// What an operation puts in its container.
#[derive(Debug, PartialEq, Eq)]
pub enum Payload {
    /// Bytes, each of which is an atom.
    Run(Vec<u8>),
    /// A value, which is one atom.
    Value(Vec<u8>),
}

/// An operation on a container.
#[derive(Debug, PartialEq, Eq)]
pub struct RawOp {
    /// The counter of the first atom.
    pub counter: Counter,
    pub container: u32,
    pub payload: Payload,
}

/// What a payload holds.
#[verifier::ext_equal]
pub enum PayloadView {
    Run(Seq<u8>),
    Value(Seq<u8>),
}

/// What an operation holds.
#[verifier::ext_equal]
pub struct RawOpView {
    pub counter: Counter,
    pub container: u32,
    pub payload: PayloadView,
}

/// One atom of an operation.
#[verifier::ext_equal]
pub enum RawAtom {
    Byte(u32, u8),
    Value(u32, Seq<u8>),
}

impl View for RawOp {
    type V = RawOpView;

    open spec fn view(&self) -> RawOpView {
        RawOpView {
            counter: self.counter,
            container: self.container,
            payload: match self.payload {
                Payload::Run(b) => PayloadView::Run(b@),
                Payload::Value(b) => PayloadView::Value(b@),
            },
        }
    }
}

/// The estimated storage size of an operation without its bytes.
pub const OP_HEAD_SIZE: usize = 16;

/// The bytes of a payload.
pub open spec fn payload_bytes(p: PayloadView) -> Seq<u8> {
    match p {
        PayloadView::Run(b) => b,
        PayloadView::Value(b) => b,
    }
}

/// The estimated storage size of an operation with `n` bytes.
pub open spec fn op_size(n: nat) -> usize {
    if OP_HEAD_SIZE + n > usize::MAX {
        usize::MAX
    } else {
        (OP_HEAD_SIZE + n) as usize
    }
}

/// A copy of the bytes from `from` up to `to`.
fn copy_range(bytes: &[u8], from: usize, to: usize) -> (r: Vec<u8>)
    requires
        from <= to <= bytes@.len(),
    ensures
        r@ == bytes@.subrange(from as int, to as int),
{
    let mut r: Vec<u8> = Vec::new();
    let mut i: usize = from;
    while i < to
        invariant
            from <= i <= to,
            to <= bytes@.len(),
            r@ =~= bytes@.subrange(from as int, i as int),
        decreases to - i,
    {
        r.push(bytes[i]);
        i = i + 1;
    }
    r
}

/// Whether two vectors hold the same bytes.
fn same_bytes(a: &Vec<u8>, b: &Vec<u8>) -> (r: bool)
    ensures
        r == (a@ == b@),
{
    if a.len() != b.len() {
        return false;
    }
    let mut i: usize = 0;
    while i < a.len()
        invariant
            i <= a@.len(),
            a@.len() == b@.len(),
            forall|j: int| 0 <= j < i ==> a@[j] == b@[j],
        decreases a.len() - i,
    {
        if a[i] != b[i] {
            return false;
        }
        i = i + 1;
    }
    assert(a@ =~= b@);
    true
}

impl Operation for RawOp {
    type Atom = RawAtom;

    open spec fn start(v: RawOpView) -> Counter {
        v.counter
    }

    open spec fn atoms(v: RawOpView) -> Seq<RawAtom> {
        match v.payload {
            PayloadView::Run(b) => b.map_values(|x: u8| RawAtom::Byte(v.container, x)),
            PayloadView::Value(b) => seq![RawAtom::Value(v.container, b)],
        }
    }

    open spec fn storage_size(v: RawOpView) -> usize {
        op_size(payload_bytes(v.payload).len())
    }

    open spec fn cut_to_fit(v: RawOpView, size: usize) -> Option<usize> {
        if Self::storage_size(v) <= size || v.payload is Value {
            None
        } else if size > OP_HEAD_SIZE {
            Some((size - OP_HEAD_SIZE) as usize)
        } else {
            Some(1)
        }
    }

    open spec fn part(v: RawOpView, from: int, to: int) -> RawOpView {
        match v.payload {
            PayloadView::Run(b) => RawOpView {
                counter: (v.counter + from) as Counter,
                payload: PayloadView::Run(b.subrange(from, to)),
                ..v
            },
            PayloadView::Value(_) => v,
        }
    }

    open spec fn mergable(a: RawOpView, b: RawOpView) -> bool {
        &&& a.payload is Run
        &&& b.payload is Run
        &&& a.container == b.container
        &&& a.counter + payload_bytes(a.payload).len() == b.counter
    }

    open spec fn merged(a: RawOpView, b: RawOpView) -> RawOpView {
        RawOpView { payload: PayloadView::Run(payload_bytes(a.payload) + payload_bytes(b.payload)), ..a }
    }

    fn counter(&self) -> (r: Counter) {
        self.counter
    }

    fn atom_len(&self) -> (r: usize) {
        match &self.payload {
            Payload::Run(b) => b.len(),
            Payload::Value(_) => 1,
        }
    }

    fn estimate_storage_size(&self) -> (r: usize) {
        match &self.payload {
            Payload::Run(b) => b.len().saturating_add(OP_HEAD_SIZE),
            Payload::Value(b) => b.len().saturating_add(OP_HEAD_SIZE),
        }
    }

    fn check_whether_slice_content_to_fit_in_size(&self, size: usize) -> (r: Option<usize>) {
        match &self.payload {
            Payload::Run(b) => if b.len().saturating_add(OP_HEAD_SIZE) <= size {
                None
            } else if size > OP_HEAD_SIZE {
                Some(size - OP_HEAD_SIZE)
            } else {
                Some(1)
            },
            Payload::Value(_) => None,
        }
    }

    fn slice(&self, from: usize, to: usize) -> (r: Self) {
        match &self.payload {
            Payload::Run(b) => RawOp {
                counter: self.counter + from as Counter,
                container: self.container,
                payload: Payload::Run(copy_range(b.as_slice(), from, to)),
            },
            Payload::Value(_) => self.duplicate(),
        }
    }

    fn is_mergable(&self, other: &Self) -> (r: bool) {
        match (&self.payload, &other.payload) {
            (Payload::Run(a), Payload::Run(_)) => self.container == other.container && self.counter
                + a.len() as Counter == other.counter,
            _ => false,
        }
    }

    fn merge(&mut self, other: &Self) {
        let ghost a = self@;
        if let (Payload::Run(bytes), Payload::Run(more)) = (&mut self.payload, &other.payload) {
            let mut i: usize = 0;
            let ghost bytes0 = bytes@;
            while i < more.len()
                invariant
                    i <= more@.len(),
                    bytes@ =~= bytes0 + more@.take(i as int),
                decreases more.len() - i,
            {
                bytes.push(more[i]);
                i = i + 1;
            }
            assert(more@.take(i as int) =~= more@);
        }
        assert(self@ =~= Self::merged(a, other@));
    }

    fn duplicate(&self) -> (r: Self) {
        let payload = match &self.payload {
            Payload::Run(b) => {
                assert(b@.subrange(0, b@.len() as int) =~= b@);
                Payload::Run(copy_range(b.as_slice(), 0, b.len()))
            },
            Payload::Value(b) => {
                assert(b@.subrange(0, b@.len() as int) =~= b@);
                Payload::Value(copy_range(b.as_slice(), 0, b.len()))
            },
        };
        RawOp { counter: self.counter, container: self.container, payload }
    }

    fn same(&self, other: &Self) -> (r: bool) {
        let same_payload: bool = match (&self.payload, &other.payload) {
            (Payload::Run(a), Payload::Run(b)) => same_bytes(a, b),
            (Payload::Value(a), Payload::Value(b)) => same_bytes(a, b),
            _ => false,
        };
        self.counter == other.counter && self.container == other.container && same_payload
    }

    proof fn lemma_cut(v: RawOpView, size: usize) {
    }

    proof fn lemma_part(v: RawOpView, from: int, to: int) {
        let p = Self::part(v, from, to);
        assert(Self::atoms(p) =~= Self::atoms(v).subrange(from, to));
    }

    proof fn lemma_merged(a: RawOpView, b: RawOpView) {
        assert(Self::atoms(Self::merged(a, b)) =~= Self::atoms(a) + Self::atoms(b));
    }
}

/// The number that a payload is told apart by.
pub open spec fn payload_tag(p: PayloadView) -> u32 {
    match p {
        PayloadView::Run(_) => 0,
        PayloadView::Value(_) => 1,
    }
}

/// Reads a payload.
pub open spec fn read_payload(tag: u32, s: Seq<u8>) -> Read<PayloadView> {
    match read_bytes(s) {
        Some((b, r)) => if tag == 0 {
            Some((PayloadView::Run(b), r))
        } else if tag == 1 {
            Some((PayloadView::Value(b), r))
        } else {
            None
        },
        None => None,
    }
}

impl Stored for RawOp {
    open spec fn written(v: RawOpView) -> Seq<u8> {
        be_bytes_u32(v.counter as u32) + (be_bytes_u32(v.container) + (be_bytes_u32(payload_tag(v.payload))
            + written_bytes(payload_bytes(v.payload))))
    }

    open spec fn read_from(s: Seq<u8>) -> Read<RawOpView> {
        match read_u32(s) {
            Some((counter, s)) => match read_u32(s) {
                Some((container, s)) => match read_u32(s) {
                    Some((tag, s)) => match read_payload(tag, s) {
                        Some((payload, s)) => Some((RawOpView { counter: counter as Counter, container, payload }, s)),
                        None => None,
                    },
                    None => None,
                },
                None => None,
            },
            None => None,
        }
    }

    open spec fn fits(v: RawOpView) -> bool {
        payload_bytes(v.payload).len() <= u64::MAX
    }

    fn write(&self, buf: &mut Vec<u8>) {
        let ghost b0 = buf@;
        write_u32(buf, self.counter as u32);
        write_u32(buf, self.container);
        match &self.payload {
            Payload::Run(b) => {
                write_u32(buf, 0);
                write_bytes(buf, b.as_slice());
                assert(b.len() <= u64::MAX);
            },
            Payload::Value(b) => {
                write_u32(buf, 1);
                write_bytes(buf, b.as_slice());
                assert(b.len() <= u64::MAX);
            },
        }
        assert(buf@ =~= b0 + Self::written(self@));
    }

    fn read<'a>(reader: &mut Reader<'a>) -> (r: Option<RawOp>) {
        let counter: u32 = match reader.u32() {
            Some(x) => x,
            None => return None,
        };
        let container: u32 = match reader.u32() {
            Some(x) => x,
            None => return None,
        };
        let tag: u32 = match reader.u32() {
            Some(x) => x,
            None => return None,
        };
        let bytes = match reader.bytes() {
            Some(b) => {
                assert(b@.subrange(0, b@.len() as int) =~= b@);
                copy_range(b, 0, b.len())
            },
            None => return None,
        };
        let payload = if tag == 0 {
            Payload::Run(bytes)
        } else if tag == 1 {
            Payload::Value(bytes)
        } else {
            return None;
        };
        Some(RawOp { counter: counter as Counter, container, payload })
    }

    proof fn lemma_read(v: RawOpView, rest: Seq<u8>) {
        let counter = v.counter;
        assert(counter as u32 as i32 == counter) by (bit_vector);
        let s3 = written_bytes(payload_bytes(v.payload)) + rest;
        let s2 = be_bytes_u32(payload_tag(v.payload)) + s3;
        let s1 = be_bytes_u32(v.container) + s2;
        assert(Self::written(v) + rest =~= be_bytes_u32(v.counter as u32) + s1);
        lemma_read_u32(v.counter as u32, s1);
        lemma_read_u32(v.container, s2);
        lemma_read_u32(payload_tag(v.payload), s3);
        lemma_read_bytes(payload_bytes(v.payload), rest);
    }
}

} // verus!
