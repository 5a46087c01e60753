//! The form in which blocks of changes and version vectors are stored.
use crate::change::{change_follows, change_lamport_end, changes_end, changes_valid, changes_view, Change, ChangeView};
use crate::ids::{Counter, Lamport, PeerID};
use crate::op::{rle_push, Operation};
use crate::version::VersionVector;
use vstd::prelude::*;

verus! {

/// What can go wrong.
#[derive(Debug)]
pub enum LoroError {
    /// Bytes that nothing was encoded to.
    DecodeError(String),
}

pub type LoroResult<T> = Result<T, LoroError>;

/// What can be read of a stored block without reading its changes.
#[derive(Debug)]
pub struct ChangesBlockHeader {
    pub peer: PeerID,
    /// The counter of the first atom.
    pub counter: Counter,
    pub n_changes: usize,
    /// The counter of the first atom of each change, and the one after the last
    /// atom.
    pub counters: Vec<Counter>,
    /// The Lamport clock of the first atom of each change, and the one after the
    /// last atom.
    pub lamports: Vec<Lamport>,
}

/// What a header holds.
#[verifier::ext_equal]
pub struct HeaderView {
    pub peer: PeerID,
    pub counter: Counter,
    pub n_changes: usize,
    pub counters: Seq<Counter>,
    pub lamports: Seq<Lamport>,
}

impl View for ChangesBlockHeader {
    type V = HeaderView;

    open spec fn view(&self) -> HeaderView {
        HeaderView {
            peer: self.peer,
            counter: self.counter,
            n_changes: self.n_changes,
            counters: self.counters@,
            lamports: self.lamports@,
        }
    }
}

impl HeaderView {
    /// The header names at least the two ends of the block.
    pub open spec fn has_ranges(self) -> bool {
        self.counters.len() > 0 && self.lamports.len() > 0
    }

    /// The counter of the first atom, and the one after the last atom.
    pub open spec fn counter_range(self) -> (Counter, Counter) {
        (self.counter, self.counters.last())
    }

    /// The Lamport clock of the first atom, and the one after the last atom.
    pub open spec fn lamport_range(self) -> (Lamport, Lamport) {
        (self.lamports[0], self.lamports.last())
    }
}

/// The header of a block with the given changes.
pub open spec fn header_of_changes<O: Operation>(s: Seq<ChangeView<O::V>>) -> HeaderView {
    HeaderView {
        peer: s[0].id.peer,
        counter: s[0].id.counter,
        n_changes: s.len() as usize,
        counters: s.map_values(|c: ChangeView<O::V>| c.id.counter).push(changes_end::<O>(s) as Counter),
        lamports: s.map_values(|c: ChangeView<O::V>| c.lamport).push(
            change_lamport_end::<O>(s.last()) as Lamport,
        ),
    }
}

/// The sum, or the largest number where the sum is beyond it.
pub open spec fn size_sum(a: usize, b: usize) -> usize {
    if a + b > usize::MAX {
        usize::MAX
    } else {
        (a + b) as usize
    }
}

/// How operations are stored: the estimate of what a change takes, and the bytes
/// of blocks and version vectors.
pub trait StorageFormat: Operation {
    /// What encoding and decoding share between blocks.
    type Arena;

    /// The estimated storage size of a change, in bytes.
    spec fn change_size(c: ChangeView<Self::V>) -> usize;

    /// The changes that the bytes of a block hold. `None`: the bytes are not those
    /// of a block.
    spec fn block_of(bytes: Seq<u8>) -> Option<Seq<ChangeView<Self::V>>>;

    /// Why bytes that are not those of a block are refused.
    spec fn block_error(bytes: Seq<u8>) -> Seq<char>;

    /// The header that the bytes of a block hold. `None`: the bytes do not start as
    /// those of a block do.
    spec fn header_of(bytes: Seq<u8>) -> Option<HeaderView>;

    /// Why bytes that do not start as those of a block do are refused.
    spec fn header_error(bytes: Seq<u8>) -> Seq<char>;

    /// The version vector that the bytes of one hold. `None`: the bytes are not
    /// those of a version vector.
    spec fn vv_of(bytes: Seq<u8>) -> Option<Map<PeerID, Counter>>;

    /// Why bytes that are not those of a version vector are refused.
    spec fn vv_error(bytes: Seq<u8>) -> Seq<char>;

    /// The bytes of a version vector.
    spec fn vv_written(vv: Map<PeerID, Counter>) -> Seq<u8>;

    fn new_arena() -> (r: Self::Arena);

    fn estimate_change_size(change: &Change<Self>) -> (r: usize)
        ensures
            r == Self::change_size(change@),
    ;

    fn encode_block(changes: &Vec<Change<Self>>, a: &Self::Arena) -> (r: Vec<u8>)
        requires
            changes_valid::<Self>(changes_view(changes@)),
        ensures
            Self::block_of(r@) == Some(changes_view(changes@)),
    ;

    fn decode_block(bytes: &[u8], a: &Self::Arena, header: Option<&ChangesBlockHeader>) -> (r: LoroResult<
        Vec<Change<Self>>,
    >)
        requires
            header matches Some(h) ==> Self::header_of(bytes@) == Some(h@),
        ensures
            match r {
                Ok(changes) => Self::block_of(bytes@) == Some(changes_view(changes@)),
                Err(LoroError::DecodeError(e)) => Self::block_of(bytes@) is None && e@ == Self::block_error(bytes@),
            },
    ;

    fn decode_header(bytes: &[u8]) -> (r: LoroResult<ChangesBlockHeader>)
        ensures
            match r {
                Ok(h) => Self::header_of(bytes@) == Some(h@),
                Err(LoroError::DecodeError(e)) => Self::header_of(bytes@) is None && e@ == Self::header_error(bytes@),
            },
    ;

    fn decode_block_range(bytes: &[u8]) -> (r: LoroResult<((Counter, Counter), (Lamport, Lamport))>)
        requires
            Self::header_of(bytes@) matches Some(h) ==> h.has_ranges(),
        ensures
            match r {
                Ok((counters, lamports)) => Self::header_of(bytes@) matches Some(h) && counters
                    == h.counter_range() && lamports == h.lamport_range(),
                Err(LoroError::DecodeError(e)) => Self::header_of(bytes@) is None && e@ == Self::header_error(bytes@),
            },
    ;

    fn encode_vv(vv: &VersionVector) -> (r: Vec<u8>)
        ensures
            r@ == Self::vv_written(vv@),
            Self::vv_of(r@) == Some(vv@),
    ;

    fn decode_vv(bytes: &[u8]) -> (r: LoroResult<VersionVector>)
        ensures
            match r {
                Ok(vv) => Self::vv_of(bytes@) == Some(vv@),
                Err(LoroError::DecodeError(e)) => Self::vv_of(bytes@) is None && e@ == Self::vv_error(bytes@),
            },
    ;

    /// An operation adds no more to a change than it takes itself.
    proof fn lemma_change_size(c: ChangeView<Self::V>, op: Self::V)
        ensures
            Self::change_size(ChangeView { ops: rle_push::<Self>(c.ops, op), ..c }) <= size_sum(
                Self::change_size(c),
                Self::storage_size(op),
            ),
    ;

    /// The header in the bytes of a block is that of its changes.
    proof fn lemma_header(bytes: Seq<u8>, s: Seq<ChangeView<Self::V>>)
        requires
            Self::block_of(bytes) == Some(s),
            changes_valid::<Self>(s),
        ensures
            Self::header_of(bytes) == Some(header_of_changes::<Self>(s)),
    ;
}

impl ChangesBlockHeader {
    /// The header of a block with the given changes.
    pub fn of_changes<O: Operation>(changes: &Vec<Change<O>>) -> (r: Self)
        requires
            changes_valid::<O>(changes_view(changes@)),
        ensures
            r@ == header_of_changes::<O>(changes_view(changes@)),
    {
        let ghost s = changes_view(changes@);
        let mut counters: Vec<Counter> = Vec::new();
        let mut lamports: Vec<Lamport> = Vec::new();
        let mut i: usize = 0;
        while i < changes.len()
            invariant
                i <= changes@.len(),
                s == changes_view(changes@),
                counters@ =~= s.map_values(|c: ChangeView<O::V>| c.id.counter).take(i as int),
                lamports@ =~= s.map_values(|c: ChangeView<O::V>| c.lamport).take(i as int),
            decreases changes.len() - i,
        {
            assert(changes@[i as int]@ == s[i as int]);
            counters.push(changes[i].id.counter);
            lamports.push(changes[i].lamport);
            i = i + 1;
        }
        let n: usize = changes.len();
        assert(change_follows::<O>(s, n - 1));
        assert(changes@[n - 1]@ == s[n - 1]);
        assert(changes@[0]@ == s[0]);
        let last = &changes[n - 1];
        let len: usize = last.content_len();
        counters.push(last.id.counter + len as Counter);
        lamports.push(last.lamport + len as Lamport);
        let r = ChangesBlockHeader {
            peer: changes[0].id.peer,
            counter: changes[0].id.counter,
            n_changes: n,
            counters,
            lamports,
        };
        assert(r@ =~= header_of_changes::<O>(s));
        r
    }

    /// Whether two headers are the same.
    pub fn same(&self, other: &Self) -> (r: bool)
        ensures
            r == (self@ == other@),
    {
        let r: bool = self.peer == other.peer && self.counter == other.counter && self.n_changes == other.n_changes
            && same_counters(&self.counters, &other.counters) && same_lamports(&self.lamports, &other.lamports);
        assert(r ==> self@ =~= other@);
        r
    }
}

fn same_counters(a: &Vec<Counter>, b: &Vec<Counter>) -> (r: bool)
    ensures
        r == (a@ == b@),
{
    if a.len() != b.len() {
        return false;
    }
    let mut i: usize = 0;
    while i < a.len()
        invariant
            i <= a@.len(),
            a@.len() == b@.len(),
            forall|j: int| 0 <= j < i ==> a@[j] == b@[j],
        decreases a.len() - i,
    {
        if a[i] != b[i] {
            return false;
        }
        i = i + 1;
    }
    assert(a@ =~= b@);
    true
}

fn same_lamports(a: &Vec<Lamport>, b: &Vec<Lamport>) -> (r: bool)
    ensures
        r == (a@ == b@),
{
    if a.len() != b.len() {
        return false;
    }
    let mut i: usize = 0;
    while i < a.len()
        invariant
            i <= a@.len(),
            a@.len() == b@.len(),
            forall|j: int| 0 <= j < i ==> a@[j] == b@[j],
        decreases a.len() - i,
    {
        if a[i] != b[i] {
            return false;
        }
        i = i + 1;
    }
    assert(a@ =~= b@);
    true
}

} // verus!
