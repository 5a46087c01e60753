//! Blocks: the units in which changes are kept in memory and stored.
use crate::change::{
    change_atoms, change_covers, change_end, change_follows, change_lamport_end, change_len, change_valid,
    changes_atoms, changes_end, changes_lamport_end, changes_valid, changes_view, depends_on_self, is_history,
    lamports_ordered, lemma_changes_order, same_changes, Change, ChangeView,
};
use crate::format::{header_of_changes, size_sum, ChangesBlockHeader, HeaderView, LoroError, LoroResult, StorageFormat};
use crate::ids::{Counter, Lamport, PeerID, ID};
use crate::op::{
    lemma_ops_atoms_take, lemma_ops_from_valid, lemma_rle_push, op_follows, op_valid, ops_atoms, ops_from, ops_valid,
    rle_merges, rle_push, Operation, RleVec,
};
use crate::outside::{
    arc_make_mut, bytes_as_slice, bytes_clone, bytes_contents, bytes_from_vec, bytes_len, cell_clone, cell_contents,
    cell_get, cell_get_or_init, cell_new,
};
use bytes::Bytes;
use once_cell::sync::OnceCell;
use std::cmp::Ordering;
use std::sync::Arc;
use vstd::prelude::*;

verus! {

/// The estimated storage size, in bytes, beyond which a block is full.
pub const MAX_BLOCK_SIZE: usize = 4096;

/// The bytes of a stored block, with its header once that has been read.
///
/// Cloning it is cheap.
pub struct ChangesBlockBytes {
    bytes: Bytes,
    header: OnceCell<Arc<ChangesBlockHeader>>,
}

/// What a `ChangesBlockBytes` holds.
#[verifier::ext_equal]
pub struct BytesView {
    pub bytes: Seq<u8>,
    pub header: Option<HeaderView>,
}

impl View for ChangesBlockBytes {
    type V = BytesView;

    closed spec fn view(&self) -> BytesView {
        BytesView {
            bytes: bytes_contents(self.bytes),
            header: match cell_contents(self.header) {
                Some(h) => Some((*h)@),
                None => None,
            },
        }
    }
}

/// The header that has been read is the one in the bytes.
pub open spec fn bytes_valid<O: StorageFormat>(b: BytesView) -> bool {
    b.header matches Some(h) ==> O::header_of(b.bytes) == Some(h)
}

/// The bytes start with a header that names the ends of the block.
pub open spec fn has_header<O: StorageFormat>(b: BytesView) -> bool {
    O::header_of(b.bytes) matches Some(h) && h.has_ranges()
}

/// `b` with its header read.
pub open spec fn with_header<O: StorageFormat>(b: BytesView) -> BytesView {
    BytesView { bytes: b.bytes, header: Some(O::header_of(b.bytes)->0) }
}

impl Clone for ChangesBlockBytes {
    fn clone(&self) -> (r: Self)
        ensures
            r@ == self@,
    {
        ChangesBlockBytes { bytes: bytes_clone(&self.bytes), header: cell_clone(&self.header) }
    }
}

impl ChangesBlockBytes {
    pub fn new(bytes: Bytes) -> (r: Self)
        ensures
            r@ == (BytesView { bytes: bytes_contents(bytes), header: None }),
    {
        ChangesBlockBytes { header: cell_new(), bytes }
    }

    /// The bytes themselves.
    pub fn bytes(&self) -> (r: Bytes)
        ensures
            bytes_contents(r) == self@.bytes,
    {
        bytes_clone(&self.bytes)
    }

    /// Whether the header that has been read is the one in the bytes.
    pub fn is_valid<O: StorageFormat>(&self) -> (r: bool)
        ensures
            r == bytes_valid::<O>(self@),
    {
        match cell_get(&self.header) {
            Some(h) => match O::decode_header(bytes_as_slice(&self.bytes)) {
                Ok(read) => (**h).same(&read),
                Err(_) => false,
            },
            None => true,
        }
    }

    /// Reads the header, unless it has been read.
    pub fn ensure_header<O: StorageFormat>(&mut self) -> (r: LoroResult<()>)
        requires
            bytes_valid::<O>(old(self)@),
            O::header_of(old(self)@.bytes) is Some,
        ensures
            r is Ok,
            final(self)@ == with_header::<O>(old(self)@),
    {
        if cell_get(&self.header).is_none() {
            match O::decode_header(bytes_as_slice(&self.bytes)) {
                Ok(h) => {
                    let h = Arc::new(h);
                    cell_get_or_init(&mut self.header, h);
                },
                Err(_) => {},
            }
        }
        Ok(())
    }

    /// The changes of the block.
    pub fn parse<O: StorageFormat>(&mut self, a: &O::Arena) -> (r: LoroResult<Vec<Change<O>>>)
        requires
            bytes_valid::<O>(old(self)@),
            O::header_of(old(self)@.bytes) is Some,
        ensures
            final(self)@ == with_header::<O>(old(self)@),
            match r {
                Ok(changes) => O::block_of(old(self)@.bytes) == Some(changes_view(changes@)),
                Err(LoroError::DecodeError(e)) => O::block_of(old(self)@.bytes) is None && e@ == O::block_error(
                    old(self)@.bytes,
                ),
            },
    {
        let _ = self.ensure_header::<O>();
        match cell_get(&self.header) {
            Some(h) => O::decode_block(bytes_as_slice(&self.bytes), a, Some(&**h)),
            None => O::decode_block(bytes_as_slice(&self.bytes), a, None),
        }
    }

    /// The block of the given changes, with its header read.
    pub fn serialize<O: StorageFormat>(changes: &Vec<Change<O>>, a: &O::Arena) -> (r: Self)
        requires
            changes_valid::<O>(changes_view(changes@)),
        ensures
            O::block_of(r@.bytes) == Some(changes_view(changes@)),
            r@ == with_header::<O>(r@),
            bytes_valid::<O>(r@),
            O::header_of(r@.bytes) == Some(header_of_changes::<O>(changes_view(changes@))),
    {
        let bytes = O::encode_block(changes, a);
        proof {
            O::lemma_header(bytes@, changes_view(changes@));
        }
        let mut r = ChangesBlockBytes::new(bytes_from_vec(bytes));
        let _ = r.ensure_header::<O>();
        r
    }

    /// The peer whose changes the block holds.
    pub fn peer<O: StorageFormat>(&mut self) -> (r: PeerID)
        requires
            bytes_valid::<O>(old(self)@),
            O::header_of(old(self)@.bytes) is Some,
        ensures
            final(self)@ == with_header::<O>(old(self)@),
            r == (O::header_of(old(self)@.bytes)->0).peer,
    {
        let _ = self.ensure_header::<O>();
        match cell_get(&self.header) {
            Some(h) => h.peer,
            None => 0,
        }
    }

    /// The counter of the first atom, and the one after the last atom.
    pub fn counter_range<O: StorageFormat>(&self) -> (r: (Counter, Counter))
        requires
            bytes_valid::<O>(self@),
            has_header::<O>(self@),
        ensures
            r == (O::header_of(self@.bytes)->0).counter_range(),
    {
        match cell_get(&self.header) {
            Some(h) => (h.counter, h.counters[h.counters.len() - 1]),
            None => match O::decode_block_range(bytes_as_slice(&self.bytes)) {
                Ok((counters, _)) => counters,
                Err(_) => (0, 0),
            },
        }
    }

    /// The Lamport clock of the first atom, and the one after the last atom.
    pub fn lamport_range<O: StorageFormat>(&self) -> (r: (Lamport, Lamport))
        requires
            bytes_valid::<O>(self@),
            has_header::<O>(self@),
        ensures
            r == (O::header_of(self@.bytes)->0).lamport_range(),
    {
        match cell_get(&self.header) {
            Some(h) => (h.lamports[0], h.lamports[h.lamports.len() - 1]),
            None => match O::decode_block_range(bytes_as_slice(&self.bytes)) {
                Ok((_, lamports)) => lamports,
                Err(_) => (0, 0),
            },
        }
    }

    /// The number of changes.
    pub fn len_changes<O: StorageFormat>(&self) -> (r: usize)
        requires
            bytes_valid::<O>(self@),
            O::header_of(self@.bytes) is Some,
        ensures
            r == (O::header_of(self@.bytes)->0).n_changes,
    {
        match cell_get(&self.header) {
            Some(h) => h.n_changes,
            None => match O::decode_header(bytes_as_slice(&self.bytes)) {
                Ok(h) => h.n_changes,
                Err(_) => 0,
            },
        }
    }
}

/// The changes of a block: in memory, as stored, or both.
pub enum ChangesBlockContent<O> {
    Changes(Arc<Vec<Change<O>>>),
    Bytes(ChangesBlockBytes),
    Both(Arc<Vec<Change<O>>>, ChangesBlockBytes),
}

/// What a `ChangesBlockContent` holds.
#[verifier::ext_equal]
pub enum ContentView<V> {
    Changes(Seq<ChangeView<V>>),
    Bytes(BytesView),
    Both(Seq<ChangeView<V>>, BytesView),
}

impl<O: Operation> View for ChangesBlockContent<O> {
    type V = ContentView<O::V>;

    open spec fn view(&self) -> ContentView<O::V> {
        match self {
            ChangesBlockContent::Changes(c) => ContentView::Changes(changes_view((**c)@)),
            ChangesBlockContent::Bytes(b) => ContentView::Bytes(b@),
            ChangesBlockContent::Both(c, b) => ContentView::Both(changes_view((**c)@), b@),
        }
    }
}

/// The changes of a block, read from its bytes where they are not in memory.
pub open spec fn content_changes<O: StorageFormat>(c: ContentView<O::V>) -> Seq<ChangeView<O::V>> {
    match c {
        ContentView::Changes(s) => s,
        ContentView::Bytes(b) => O::block_of(b.bytes)->0,
        ContentView::Both(s, _) => s,
    }
}

/// The content is a history without holes, and where it is held as bytes, those are
/// the bytes of that history.
pub open spec fn content_valid<O: StorageFormat>(c: ContentView<O::V>) -> bool {
    &&& changes_valid::<O>(content_changes::<O>(c))
    &&& match c {
        ContentView::Changes(_) => true,
        ContentView::Bytes(b) => bytes_valid::<O>(b) && O::block_of(b.bytes) is Some,
        ContentView::Both(s, b) => bytes_valid::<O>(b) && O::block_of(b.bytes) == Some(s),
    }
}

/// The content with its changes in memory.
pub open spec fn content_parsed<O: StorageFormat>(c: ContentView<O::V>) -> ContentView<O::V> {
    match c {
        ContentView::Bytes(b) => ContentView::Both(O::block_of(b.bytes)->0, with_header::<O>(b)),
        _ => c,
    }
}

impl<O: Operation> Clone for ChangesBlockContent<O> {
    fn clone(&self) -> (r: Self)
        ensures
            r@ == self@,
    {
        match self {
            ChangesBlockContent::Changes(c) => ChangesBlockContent::Changes(c.clone()),
            ChangesBlockContent::Bytes(b) => ChangesBlockContent::Bytes(b.clone()),
            ChangesBlockContent::Both(c, b) => ChangesBlockContent::Both(c.clone(), b.clone()),
        }
    }
}

impl<O: StorageFormat> ChangesBlockContent<O> {
    /// The changes, which are in memory from then on.
    pub fn changes(&mut self) -> (r: LoroResult<&Vec<Change<O>>>)
        requires
            old(self)@ matches ContentView::Bytes(b) ==> bytes_valid::<O>(b) && O::header_of(b.bytes) is Some,
        ensures
            match r {
                Ok(changes) => {
                    &&& old(self)@ matches ContentView::Bytes(b) ==> O::block_of(b.bytes) is Some
                    &&& final(self)@ == content_parsed::<O>(old(self)@)
                    &&& changes_view(changes@) == content_changes::<O>(old(self)@)
                },
                Err(LoroError::DecodeError(e)) => {
                    &&& old(self)@ matches ContentView::Bytes(b)
                    &&& O::block_of(b.bytes) is None
                    &&& e@ == O::block_error(b.bytes)
                    &&& final(self)@ == ContentView::<O::V>::Bytes(with_header::<O>(b))
                },
            },
    {
        let mut parsed: Option<(Vec<Change<O>>, ChangesBlockBytes)> = None;
        if let ChangesBlockContent::Bytes(bytes) = self {
            let arena = O::new_arena();
            match bytes.parse::<O>(&arena) {
                Ok(changes) => {
                    parsed = Some((changes, bytes.clone()));
                },
                Err(e) => return Err(e),
            }
        }
        if let Some((changes, bytes)) = parsed {
            *self = ChangesBlockContent::Both(Arc::new(changes), bytes);
        }
        match self {
            ChangesBlockContent::Changes(changes) => Ok(&**changes),
            ChangesBlockContent::Both(changes, _) => Ok(&**changes),
            ChangesBlockContent::Bytes(_) => vstd::pervasive::unreached(),
        }
    }

    /// The changes, to be changed. The bytes as which the block was stored are
    /// dropped.
    pub fn changes_mut(&mut self) -> (r: LoroResult<&mut Arc<Vec<Change<O>>>>)
        requires
            old(self)@ matches ContentView::Bytes(b) ==> bytes_valid::<O>(b) && O::header_of(b.bytes) is Some,
        ensures
            match r {
                Ok(changes) => {
                    &&& old(self)@ matches ContentView::Bytes(b) ==> O::block_of(b.bytes) is Some
                    &&& changes_view((**changes)@) == content_changes::<O>(old(self)@)
                    &&& *final(self) == ChangesBlockContent::Changes(*final(changes))
                },
                Err(LoroError::DecodeError(e)) => {
                    &&& old(self)@ matches ContentView::Bytes(b)
                    &&& O::block_of(b.bytes) is None
                    &&& e@ == O::block_error(b.bytes)
                    &&& final(self)@ == ContentView::<O::V>::Bytes(with_header::<O>(b))
                },
            },
    {
        let mut read: Option<Arc<Vec<Change<O>>>> = None;
        match self {
            ChangesBlockContent::Changes(_) => {},
            ChangesBlockContent::Both(changes, _) => {
                read = Some(changes.clone());
            },
            ChangesBlockContent::Bytes(bytes) => {
                let arena = O::new_arena();
                match bytes.parse::<O>(&arena) {
                    Ok(changes) => {
                        read = Some(Arc::new(changes));
                    },
                    Err(e) => return Err(e),
                }
            },
        }
        if let Some(changes) = read {
            *self = ChangesBlockContent::Changes(changes);
        }
        match self {
            ChangesBlockContent::Changes(changes) => Ok(changes),
            _ => vstd::pervasive::unreached(),
        }
    }

    /// The changes, if the content is valid.
    pub fn valid_changes(&self, a: &O::Arena) -> (r: Option<Arc<Vec<Change<O>>>>)
        ensures
            match r {
                Some(changes) => content_valid::<O>(self@) && changes_view((*changes)@) == content_changes::<O>(self@),
                None => !content_valid::<O>(self@),
            },
    {
        let changes = match self {
            ChangesBlockContent::Changes(changes) => changes.clone(),
            ChangesBlockContent::Bytes(bytes) => match O::decode_block(bytes_as_slice(&bytes.bytes), a, None) {
                Ok(read) => {
                    if !bytes.is_valid::<O>() {
                        return None;
                    }
                    Arc::new(read)
                },
                Err(_) => return None,
            },
            ChangesBlockContent::Both(changes, bytes) => match O::decode_block(
                bytes_as_slice(&bytes.bytes),
                a,
                None,
            ) {
                Ok(read) => {
                    if !bytes.is_valid::<O>() || !same_changes(&**changes, &read) {
                        return None;
                    }
                    changes.clone()
                },
                Err(_) => return None,
            },
        };
        if is_history(&*changes) {
            Some(changes)
        } else {
            None
        }
    }

    /// The changes, where they are in memory.
    pub fn try_changes(&self) -> (r: Option<&Vec<Change<O>>>)
        ensures
            match r {
                Some(changes) => self@ !is Bytes && changes_view(changes@) == content_changes::<O>(self@),
                None => self@ is Bytes,
            },
    {
        match self {
            ChangesBlockContent::Changes(changes) => Some(&**changes),
            ChangesBlockContent::Both(changes, _) => Some(&**changes),
            ChangesBlockContent::Bytes(_) => None,
        }
    }

    /// The number of changes.
    pub fn len_changes(&self) -> (r: usize)
        requires
            self@ matches ContentView::Bytes(b) ==> bytes_valid::<O>(b) && O::header_of(b.bytes) is Some,
        ensures
            r == content_len::<O>(self@),
    {
        match self {
            ChangesBlockContent::Changes(changes) => changes.len(),
            ChangesBlockContent::Both(changes, _) => changes.len(),
            ChangesBlockContent::Bytes(bytes) => bytes.len_changes::<O>(),
        }
    }
}

/// The number of changes, read from the header where the changes are not in memory.
pub open spec fn content_len<O: StorageFormat>(c: ContentView<O::V>) -> nat {
    match c {
        ContentView::Changes(s) => s.len(),
        ContentView::Bytes(b) => (O::header_of(b.bytes)->0).n_changes as nat,
        ContentView::Both(s, _) => s.len(),
    }
}

/// A block: a run of changes of one peer without holes.
pub struct ChangesBlock<O> {
    peer: PeerID,
    counter_range: (Counter, Counter),
    lamport_range: (Lamport, Lamport),
    /// Estimated size of the block in bytes
    estimated_size: usize,
    flushed: bool,
    content: ChangesBlockContent<O>,
}

/// What a block holds.
#[verifier::ext_equal]
pub struct BlockView<V> {
    pub peer: PeerID,
    /// The counter of the first atom, and the one after the last atom.
    pub counter_range: (Counter, Counter),
    /// The Lamport clock of the first atom, and the one after the last atom.
    pub lamport_range: (Lamport, Lamport),
    pub estimated_size: usize,
    pub flushed: bool,
    pub content: ContentView<V>,
}

impl<O: Operation> View for ChangesBlock<O> {
    type V = BlockView<O::V>;

    closed spec fn view(&self) -> BlockView<O::V> {
        BlockView {
            peer: self.peer,
            counter_range: self.counter_range,
            lamport_range: self.lamport_range,
            estimated_size: self.estimated_size,
            flushed: self.flushed,
            content: self.content@,
        }
    }
}

/// The changes of a block.
pub open spec fn block_changes<O: StorageFormat>(b: BlockView<O::V>) -> Seq<ChangeView<O::V>> {
    content_changes::<O>(b.content)
}

/// The content is valid, and the peer, the counters and the first Lamport clock are those of its
/// changes.
pub open spec fn block_valid<O: StorageFormat>(b: BlockView<O::V>) -> bool {
    let s = block_changes::<O>(b);
    &&& content_valid::<O>(b.content)
    &&& b.peer == s[0].id.peer
    &&& b.counter_range.0 == s[0].id.counter
    &&& b.counter_range.1 == changes_end::<O>(s)
    &&& b.lamport_range.0 == s[0].lamport
}

/// Whether the block is stored, as it is: it has been flushed, and it took no change
/// since, for the bytes of a block that takes a change are dropped.
pub open spec fn block_stored<V>(b: BlockView<V>) -> bool {
    b.flushed && b.content !is Changes
}

/// The block with its changes in memory.
pub open spec fn block_parsed<O: StorageFormat>(b: BlockView<O::V>) -> BlockView<O::V> {
    BlockView { content: content_parsed::<O>(b.content), ..b }
}

/// The block that the given stored bytes are read as.
pub open spec fn stored_block<O: StorageFormat>(bytes: Seq<u8>, flushed: bool) -> BlockView<O::V> {
    let h = O::header_of(bytes)->0;
    BlockView {
        peer: h.peer,
        counter_range: h.counter_range(),
        lamport_range: h.lamport_range(),
        estimated_size: bytes.len() as usize,
        flushed,
        content: ContentView::Bytes(BytesView { bytes, header: Some(h) }),
    }
}

/// The block of a single change.
pub open spec fn single_block<O: StorageFormat>(c: ChangeView<O::V>) -> BlockView<O::V> {
    BlockView {
        peer: c.id.peer,
        counter_range: (c.id.counter, change_end::<O>(c) as Counter),
        lamport_range: (c.lamport, change_lamport_end::<O>(c) as Lamport),
        estimated_size: O::change_size(c),
        flushed: false,
        content: ContentView::Changes(seq![c]),
    }
}

/// `ops` with each operation of `more` added, and `size` with the size of each of
/// them that is not merged.
pub open spec fn ops_pushed<O: StorageFormat>(ops: Seq<O::V>, size: usize, more: Seq<O::V>) -> (Seq<O::V>, usize)
    decreases more.len(),
{
    if more.len() == 0 {
        (ops, size)
    } else {
        let (p, n) = ops_pushed::<O>(ops, size, more.drop_last());
        let op = more.last();
        (
            rle_push::<O>(p, op),
            if rle_merges::<O>(p, op) {
                n
            } else {
                size_sum(n, O::storage_size(op))
            },
        )
    }
}

/// Whether the block has no room for a change of the given size.
pub open spec fn block_full_for<V>(b: BlockView<V>, size: usize) -> bool {
    size + b.estimated_size > MAX_BLOCK_SIZE
}

/// Whether `c` is made to be merged with the last change of a block: it depends on that
/// change alone, and was made soon after it.
pub open spec fn may_join<O: StorageFormat>(b: BlockView<O::V>, c: ChangeView<O::V>, merge_interval: i64) -> bool {
    depends_on_self(c) && c.timestamp - block_changes::<O>(b).last().timestamp < merge_interval
}

/// Whether a change that comes right after the block is merged with the last
/// change of the block: it depends on that change alone, was made soon after it, and
/// fits in the block or is an operation that is merged with the last one.
pub open spec fn joins_last<O: StorageFormat>(
    b: BlockView<O::V>,
    c: ChangeView<O::V>,
    size: usize,
    merge_interval: i64,
) -> bool {
    let last = block_changes::<O>(b).last();
    &&& depends_on_self(c)
    &&& c.timestamp - last.timestamp < merge_interval
    &&& !block_full_for(b, size) || (c.ops.len() == 1 && O::mergable(last.ops.last(), c.ops[0]))
}

/// Whether the block takes a change of the given size.
pub open spec fn block_takes<O: StorageFormat>(
    b: BlockView<O::V>,
    c: ChangeView<O::V>,
    size: usize,
    merge_interval: i64,
) -> bool {
    &&& b.counter_range.1 == c.id.counter
    &&& joins_last::<O>(b, c, size, merge_interval) || !block_full_for(b, size)
}

/// The changes of a block after it took `c`.
pub open spec fn changes_pushed<O: StorageFormat>(
    b: BlockView<O::V>,
    c: ChangeView<O::V>,
    size: usize,
    merge_interval: i64,
) -> Seq<ChangeView<O::V>> {
    let s = block_changes::<O>(b);
    if joins_last::<O>(b, c, size, merge_interval) {
        let ops = ops_pushed::<O>(s.last().ops, b.estimated_size, c.ops).0;
        s.update(s.len() - 1, ChangeView { ops, ..s.last() })
    } else {
        s.push(c)
    }
}

/// The block after `c` was offered to it.
pub open spec fn block_pushed<O: StorageFormat>(
    b: BlockView<O::V>,
    c: ChangeView<O::V>,
    size: usize,
    merge_interval: i64,
) -> BlockView<O::V> {
    let s = block_changes::<O>(b);
    if b.counter_range.1 != c.id.counter {
        b
    } else if !block_takes::<O>(b, c, size, merge_interval) {
        BlockView { content: ContentView::Changes(s), ..b }
    } else {
        BlockView {
            content: ContentView::Changes(changes_pushed::<O>(b, c, size, merge_interval)),
            estimated_size: if joins_last::<O>(b, c, size, merge_interval) {
                ops_pushed::<O>(s.last().ops, b.estimated_size, c.ops).1
            } else {
                size_sum(b.estimated_size, size)
            },
            counter_range: (b.counter_range.0, change_end::<O>(c) as Counter),
            lamport_range: (b.lamport_range.0, change_lamport_end::<O>(c) as Lamport),
            ..b
        }
    }
}

impl<O: Operation> Clone for ChangesBlock<O> {
    fn clone(&self) -> (r: Self)
        ensures
            r@ == self@,
    {
        ChangesBlock {
            peer: self.peer,
            counter_range: self.counter_range,
            lamport_range: self.lamport_range,
            estimated_size: self.estimated_size,
            flushed: self.flushed,
            content: self.content.clone(),
        }
    }
}

impl<O: StorageFormat> ChangesBlock<O> {
    /// The block that the given stored bytes are read as.
    pub fn from_bytes(bytes: Bytes, flushed: bool) -> (r: LoroResult<Self>)
        requires
            O::header_of(bytes_contents(bytes)) matches Some(h) && h.has_ranges(),
        ensures
            match r {
                Ok(b) => b@ == stored_block::<O>(bytes_contents(bytes), flushed),
                Err(_) => false,
            },
    {
        let len: usize = bytes_len(&bytes);
        let mut bytes = ChangesBlockBytes::new(bytes);
        let peer: PeerID = bytes.peer::<O>();
        let counter_range = bytes.counter_range::<O>();
        let lamport_range = bytes.lamport_range::<O>();
        let content = ChangesBlockContent::Bytes(bytes);
        Ok(ChangesBlock { peer, estimated_size: len, counter_range, lamport_range, flushed, content })
    }

    pub fn content(&self) -> (r: &ChangesBlockContent<O>)
        ensures
            r@ == self@.content,
    {
        &self.content
    }

    /// The block of a single change.
    pub fn new(change: Change<O>, _a: &O::Arena) -> (r: Self)
        requires
            change_valid::<O>(change@),
        ensures
            r@ == single_block::<O>(change@),
    {
        let atom_len: usize = change.content_len();
        let counter_range = (change.id.counter, change.id.counter + atom_len as Counter);
        let lamport_range = (change.lamport, change.lamport + atom_len as Lamport);
        let estimated_size: usize = O::estimate_change_size(&change);
        let peer: PeerID = change.id.peer;
        let ghost c = change@;
        let mut changes: Vec<Change<O>> = Vec::new();
        changes.push(change);
        assert(changes_view(changes@) =~= seq![c]);
        let content = ChangesBlockContent::Changes(Arc::new(changes));
        ChangesBlock { peer, counter_range, lamport_range, estimated_size, content, flushed: false }
    }

    /// Where the block stands to the operation `id`.
    pub fn cmp_id(&self, id: ID) -> (r: Ordering)
        ensures
            r == (if self@.peer < id.peer {
                Ordering::Less
            } else if self@.peer > id.peer {
                Ordering::Greater
            } else if self@.counter_range.0 > id.counter {
                Ordering::Greater
            } else if self@.counter_range.1 <= id.counter {
                Ordering::Less
            } else {
                Ordering::Equal
            }),
    {
        if self.peer < id.peer {
            Ordering::Less
        } else if self.peer > id.peer {
            Ordering::Greater
        } else if self.counter_range.0 > id.counter {
            Ordering::Greater
        } else if self.counter_range.1 <= id.counter {
            Ordering::Less
        } else {
            Ordering::Equal
        }
    }

    /// Where the block stands to the operation of a peer with the given Lamport clock.
    pub fn cmp_idlp(&self, idlp: (PeerID, Lamport)) -> (r: Ordering)
        ensures
            r == (if self@.peer < idlp.0 {
                Ordering::Less
            } else if self@.peer > idlp.0 {
                Ordering::Greater
            } else if self@.lamport_range.0 > idlp.1 {
                Ordering::Greater
            } else if self@.lamport_range.1 <= idlp.1 {
                Ordering::Less
            } else {
                Ordering::Equal
            }),
    {
        if self.peer < idlp.0 {
            Ordering::Less
        } else if self.peer > idlp.0 {
            Ordering::Greater
        } else if self.lamport_range.0 > idlp.1 {
            Ordering::Greater
        } else if self.lamport_range.1 <= idlp.1 {
            Ordering::Less
        } else {
            Ordering::Equal
        }
    }

    /// Whether the block is larger than a block is meant to be.
    pub fn is_full(&self) -> (r: bool)
        ensures
            r == (self@.estimated_size > MAX_BLOCK_SIZE),
    {
        self.estimated_size > MAX_BLOCK_SIZE
    }

    /// Offers a change that comes after the block to it. Where the block does not
    /// take the change, it is given back.
    pub fn push_change(&mut self, change: Change<O>, new_change_size: usize, merge_interval: i64) -> (r: Result<
        (),
        Change<O>,
    >)
        requires
            block_valid::<O>(old(self)@),
            change_valid::<O>(change@),
            joins_last::<O>(old(self)@, change@, new_change_size, merge_interval) ==> changes_lamport_end::<O>(
                block_changes::<O>(old(self)@),
            ) + change_len::<O>(change@) <= u32::MAX,
        ensures
            final(self)@ == block_pushed::<O>(old(self)@, change@, new_change_size, merge_interval),
            match r {
                Ok(_) => block_takes::<O>(old(self)@, change@, new_change_size, merge_interval),
                Err(c) => c@ == change@ && !block_takes::<O>(
                    old(self)@,
                    change@,
                    new_change_size,
                    merge_interval,
                ),
            },
    {
        let ghost before = self@;
        let ghost c = change@;
        let ghost s = block_changes::<O>(before);
        if self.counter_range.1 != change.id.counter {
            return Err(change);
        }
        let atom_len: usize = change.content_len();
        let next_lamport: Lamport = change.lamport + atom_len as Lamport;
        let next_counter: Counter = change.id.counter + atom_len as Counter;
        let is_full: bool = new_change_size.saturating_add(self.estimated_size) > MAX_BLOCK_SIZE;
        proof {
            if let ContentView::Bytes(b) = self.content@ {
                O::lemma_header(b.bytes, s);
            }
            lemma_block_last::<O>(s);
            lemma_ops_from_valid::<O>(c.ops, c.id.counter as int);
        }
        let mut size: usize = self.estimated_size;
        match self.content.changes_mut() {
            Ok(shared) => {
                let changes = arc_make_mut(shared);
                assert(changes_view(changes@) =~= s);
                let n: usize = changes.len();
                assert(changes_view(changes@)[n - 1] == changes@[n - 1]@);
                let joins: bool = change.deps_on_self() && (change.timestamp as i128
                    - changes[n - 1].timestamp as i128) < merge_interval as i128 && (!is_full || (change.ops.len()
                    == 1 && changes[n - 1].ops.get(changes[n - 1].ops.len() - 1).is_mergable(change.ops.get(0))));
                if joins {
                    let more = change.ops.vec;
                    assert(ops_view::<O>(more@) =~= c.ops);
                    let last = &mut changes[n - 1];
                    push_ops::<O>(&mut last.ops, &mut size, more, Ghost(s.last().id.counter as int));
                } else if is_full {
                    return Err(change);
                } else {
                    size = size.saturating_add(new_change_size);
                    changes.push(change);
                }
            },
            Err(_) => vstd::pervasive::unreached(),
        }
        self.estimated_size = size;
        self.counter_range.1 = next_counter;
        self.lamport_range.1 = next_lamport;
        Ok(())
    }

    /// The bytes of the block, as which alone it is held from then on.
    pub fn to_bytes(&mut self, a: &O::Arena) -> (r: ChangesBlockBytes)
        requires
            old(self)@.content matches ContentView::Changes(s) ==> changes_valid::<O>(s),
        ensures
            final(self)@ == (BlockView { content: ContentView::Bytes(r@), ..old(self)@ }),
            match old(self)@.content {
                ContentView::Bytes(b) => r@ == b,
                ContentView::Both(_, b) => r@ == b,
                ContentView::Changes(s) => {
                    &&& O::block_of(r@.bytes) == Some(s)
                    &&& O::header_of(r@.bytes) == Some(header_of_changes::<O>(s))
                    &&& r@ == with_header::<O>(r@)
                },
            },
    {
        let bytes = match &self.content {
            ChangesBlockContent::Bytes(bytes) => bytes.clone(),
            ChangesBlockContent::Both(_, bytes) => bytes.clone(),
            ChangesBlockContent::Changes(changes) => ChangesBlockBytes::serialize::<O>(&**changes, a),
        };
        self.content = ChangesBlockContent::Bytes(bytes.clone());
        bytes
    }

    /// Reads the changes into memory, unless they are there.
    pub fn ensure_changes(&mut self, a: &O::Arena) -> (r: LoroResult<()>)
        requires
            old(self)@.content matches ContentView::Bytes(b) ==> bytes_valid::<O>(b) && O::header_of(b.bytes) is Some,
        ensures
            match r {
                Ok(_) => {
                    &&& old(self)@.content matches ContentView::Bytes(b) ==> O::block_of(b.bytes) is Some
                    &&& final(self)@ == block_parsed::<O>(old(self)@)
                },
                Err(LoroError::DecodeError(e)) => {
                    &&& old(self)@.content matches ContentView::Bytes(b)
                    &&& O::block_of(b.bytes) is None
                    &&& e@ == O::block_error(b.bytes)
                    &&& final(self)@ == (BlockView {
                        content: ContentView::Bytes(with_header::<O>(b)),
                        ..old(self)@
                    })
                },
            },
    {
        let mut parsed: Option<(Vec<Change<O>>, ChangesBlockBytes)> = None;
        if let ChangesBlockContent::Bytes(bytes) = &mut self.content {
            match bytes.parse::<O>(a) {
                Ok(changes) => {
                    parsed = Some((changes, bytes.clone()));
                },
                Err(e) => return Err(e),
            }
        }
        if let Some((changes, bytes)) = parsed {
            self.content = ChangesBlockContent::Both(Arc::new(changes), bytes);
        }
        Ok(())
    }

    /// The position of the change that holds the atom with the given counter.
    pub fn get_change_index_by_counter(&self, counter: Counter) -> (r: Option<usize>)
        requires
            self@.content !is Bytes,
            changes_valid::<O>(block_changes::<O>(self@)),
        ensures
            match r {
                Some(i) => i < block_changes::<O>(self@).len() && change_covers::<O>(
                    block_changes::<O>(self@)[i as int],
                    counter as int,
                ),
                None => forall|i: int|
                    0 <= i < block_changes::<O>(self@).len() ==> !change_covers::<O>(
                        #[trigger] block_changes::<O>(self@)[i],
                        counter as int,
                    ),
            },
    {
        let ghost s = block_changes::<O>(self@);
        let changes = match self.content.try_changes() {
            Some(changes) => changes,
            None => vstd::pervasive::unreached(),
        };
        let mut lo: usize = 0;
        let mut hi: usize = changes.len();
        while lo < hi
            invariant
                s == block_changes::<O>(self@),
                s == changes_view(changes@),
                changes_valid::<O>(s),
                lo <= hi <= changes.len(),
                forall|i: int| 0 <= i < lo ==> change_end::<O>(#[trigger] s[i]) <= counter,
                forall|i: int| hi <= i < changes.len() ==> (#[trigger] s[i]).id.counter > counter,
            decreases hi - lo,
        {
            let mid: usize = lo + (hi - lo) / 2;
            assert(change_follows::<O>(s, mid as int));
            let c = &changes[mid];
            assert(c@ == s[mid as int]);
            if c.id.counter > counter {
                proof {
                    assert forall|i: int| mid <= i < changes.len() implies (#[trigger] s[i]).id.counter > counter by {
                        if mid < i {
                            lemma_changes_order::<O>(s, mid as int, i);
                        }
                    }
                }
                hi = mid;
            } else if c.ctr_end() <= counter {
                proof {
                    assert forall|i: int| 0 <= i <= mid implies change_end::<O>(#[trigger] s[i]) <= counter by {
                        if i < mid {
                            lemma_changes_order::<O>(s, i, mid as int);
                        }
                    }
                }
                lo = mid + 1;
            } else {
                return Some(mid);
            }
        }
        None
    }

    /// The position of the change that holds the atom with the given Lamport clock.
    /// Where no change does, that of the last change before it. The Lamport clocks are
    /// expected to grow from change to change: where they do not, some change is given, or
    /// none.
    pub fn get_change_index_by_lamport(&self, lamport: Lamport) -> (r: Option<usize>)
        requires
            self@.content !is Bytes,
            changes_valid::<O>(block_changes::<O>(self@)),
        ensures
            lamports_ordered::<O>(block_changes::<O>(self@)) ==> last_at_or_before::<O>(
                block_changes::<O>(self@),
                lamport,
                r,
            ),
            r matches Some(i) ==> i < block_changes::<O>(self@).len(),
    {
        let ghost s = block_changes::<O>(self@);
        let ghost ordered = lamports_ordered::<O>(s);
        let changes = match self.content.try_changes() {
            Some(changes) => changes,
            None => vstd::pervasive::unreached(),
        };
        let mut lo: usize = 0;
        let mut hi: usize = changes.len();
        while lo < hi
            invariant
                s == block_changes::<O>(self@),
                s == changes_view(changes@),
                changes_valid::<O>(s),
                ordered == lamports_ordered::<O>(s),
                lo <= hi <= changes.len(),
                forall|i: int| ordered && 0 <= i < lo ==> (#[trigger] s[i]).lamport <= lamport,
                forall|i: int| ordered && hi <= i < changes.len() ==> (#[trigger] s[i]).lamport > lamport,
            decreases hi - lo,
        {
            let mid: usize = lo + (hi - lo) / 2;
            assert(change_follows::<O>(s, mid as int));
            let c = &changes[mid];
            assert(c@ == s[mid as int]);
            if c.lamport > lamport {
                hi = mid;
            } else {
                lo = mid + 1;
            }
        }
        if lo == 0 {
            None
        } else {
            Some(lo - 1)
        }
    }

    /// The changes, which are in memory from then on.
    pub fn get_changes(&mut self) -> (r: LoroResult<&Vec<Change<O>>>)
        requires
            old(self)@.content matches ContentView::Bytes(b) ==> bytes_valid::<O>(b) && O::header_of(b.bytes) is Some,
        ensures
            match r {
                Ok(changes) => {
                    &&& old(self)@.content matches ContentView::Bytes(b) ==> O::block_of(b.bytes) is Some
                    &&& final(self)@ == block_parsed::<O>(old(self)@)
                    &&& changes_view(changes@) == block_changes::<O>(old(self)@)
                },
                Err(LoroError::DecodeError(e)) => {
                    &&& old(self)@.content matches ContentView::Bytes(b)
                    &&& O::block_of(b.bytes) is None
                    &&& e@ == O::block_error(b.bytes)
                    &&& final(self)@ == (BlockView {
                        content: ContentView::Bytes(with_header::<O>(b)),
                        ..old(self)@
                    })
                },
            },
    {
        self.content.changes()
    }

    /// The changes, if the block is valid.
    pub fn valid_changes(&self, a: &O::Arena) -> (r: Option<Arc<Vec<Change<O>>>>)
        ensures
            match r {
                Some(changes) => block_valid::<O>(self@) && changes_view((*changes)@) == block_changes::<O>(self@),
                None => !block_valid::<O>(self@),
            },
    {
        let changes = match self.content.valid_changes(a) {
            Some(changes) => changes,
            None => return None,
        };
        let ghost s = changes_view((*changes)@);
        let n: usize = changes.len();
        assert(change_follows::<O>(s, n - 1));
        assert(s[0] == (*changes)@[0]@ && s[n - 1] == (*changes)@[n - 1]@);
        if self.peer == changes[0].id.peer && self.counter_range.0 == changes[0].id.counter && self.counter_range.1
            == changes[n - 1].ctr_end() && self.lamport_range.0 == changes[0].lamport {
            Some(changes)
        } else {
            None
        }
    }

    /// The counter of the first atom, and the one after the last atom.
    pub fn counter_range(&self) -> (r: (Counter, Counter))
        ensures
            r == self@.counter_range,
    {
        self.counter_range
    }

    /// The Lamport clock of the first atom, and the one after the last atom.
    pub fn lamport_range(&self) -> (r: (Lamport, Lamport))
        ensures
            r == self@.lamport_range,
    {
        self.lamport_range
    }

    /// The Lamport clock after the last atom of the last change.
    pub fn lamport_end(&self) -> (r: Lamport)
        requires
            block_valid::<O>(self@),
        ensures
            r == changes_lamport_end::<O>(block_changes::<O>(self@)),
    {
        let ghost s = block_changes::<O>(self@);
        assert(change_follows::<O>(s, s.len() - 1));
        match &self.content {
            ChangesBlockContent::Bytes(bytes) => {
                proof {
                    O::lemma_header(bytes@.bytes, s);
                    assert(header_of_changes::<O>(s).lamports.last() == changes_lamport_end::<O>(s));
                }
                bytes.lamport_range::<O>().1
            },
            ChangesBlockContent::Changes(changes) => {
                let last = &changes[changes.len() - 1];
                assert(last@ == s.last());
                last.lamport + last.content_len() as Lamport
            },
            ChangesBlockContent::Both(changes, _) => {
                let last = &changes[changes.len() - 1];
                assert(last@ == s.last());
                last.lamport + last.content_len() as Lamport
            },
        }
    }

    /// Whether a change is made to be merged with the last change of the block.
    pub fn may_join(&self, change: &Change<O>, merge_interval: i64) -> (r: bool)
        requires
            block_valid::<O>(self@),
            self@.content !is Bytes,
        ensures
            r == may_join::<O>(self@, change@, merge_interval),
    {
        let ghost s = block_changes::<O>(self@);
        match self.content.try_changes() {
            Some(changes) => {
                let last = &changes[changes.len() - 1];
                assert(last@ == s.last());
                change.deps_on_self() && (change.timestamp as i128 - last.timestamp as i128) < merge_interval as i128
            },
            None => vstd::pervasive::unreached(),
        }
    }

    /// Whether a change that comes right after the block is merged with its last change.
    pub fn joins_last(&self, change: &Change<O>, new_change_size: usize, merge_interval: i64) -> (r: bool)
        requires
            block_valid::<O>(self@),
            self@.content !is Bytes,
            change_valid::<O>(change@),
        ensures
            r == joins_last::<O>(self@, change@, new_change_size, merge_interval),
    {
        if !self.may_join(change, merge_interval) {
            return false;
        }
        let ghost s = block_changes::<O>(self@);
        proof {
            lemma_block_last::<O>(s);
            lemma_ops_from_valid::<O>(change@.ops, change@.id.counter as int);
        }
        match self.content.try_changes() {
            Some(changes) => {
                let last = &changes[changes.len() - 1];
                assert(last@ == s.last());
                new_change_size.saturating_add(self.estimated_size) <= MAX_BLOCK_SIZE || (change.ops.len() == 1
                    && last.ops.get(last.ops.len() - 1).is_mergable(change.ops.get(0)))
            },
            None => vstd::pervasive::unreached(),
        }
    }

    /// Whether the block is stored, as it is.
    pub fn is_stored(&self) -> (r: bool)
        ensures
            r == block_stored(self@),
    {
        self.flushed && match self.content {
            ChangesBlockContent::Changes(_) => false,
            _ => true,
        }
    }

    /// Notes that the block has been stored.
    pub fn set_flushed(&mut self)
        ensures
            final(self)@ == (BlockView { flushed: true, ..old(self)@ }),
    {
        self.flushed = true;
    }

    /// The identity of the first atom.
    pub fn id(&self) -> (r: ID)
        ensures
            r == (ID { peer: self@.peer, counter: self@.counter_range.0 }),
    {
        ID { peer: self.peer, counter: self.counter_range.0 }
    }

    /// The number of changes.
    pub fn change_num(&self) -> (r: usize)
        requires
            self@.content matches ContentView::Bytes(b) ==> bytes_valid::<O>(b) && O::header_of(b.bytes) is Some,
        ensures
            r == content_len::<O>(self@.content),
    {
        match &self.content {
            ChangesBlockContent::Changes(c) => c.len(),
            ChangesBlockContent::Bytes(b) => b.len_changes::<O>(),
            ChangesBlockContent::Both(c, _) => c.len(),
        }
    }
}

/// `r` is the position of the last change whose Lamport clock is at most `lamport`.
/// `None`: there is none.
pub open spec fn last_at_or_before<O: Operation>(
    s: Seq<ChangeView<O::V>>,
    lamport: Lamport,
    r: Option<usize>,
) -> bool {
    match r {
        Some(i) => {
            &&& i < s.len()
            &&& s[i as int].lamport <= lamport
            &&& forall|j: int| i < j < s.len() ==> (#[trigger] s[j]).lamport > lamport
        },
        None => forall|j: int| 0 <= j < s.len() ==> (#[trigger] s[j]).lamport > lamport,
    }
}

/// Adds the operations of `more`, which come right after those of `ops`, and to
/// `size` the size of each of them that is not merged.
fn push_ops<O: StorageFormat>(ops: &mut RleVec<O>, size: &mut usize, more: Vec<O>, Ghost(start): Ghost<int>)
    requires
        ops_from::<O>(old(ops)@, start),
        ops_from::<O>(ops_view::<O>(more@), start + ops_atoms::<O>(old(ops)@).len()),
    ensures
        (final(ops)@, *final(size)) == ops_pushed::<O>(old(ops)@, *old(size), ops_view::<O>(more@)),
{
    let ghost (ops0, size0) = (ops@, *size);
    let ghost m = ops_view::<O>(more@);
    assert(m.take(0) =~= seq![]);
    let ghost mut k: int = 0;
    for op in it: more.into_iter()
        invariant
            it.seq() == more@,
            k == it.index(),
            m == ops_view::<O>(more@),
            ops_from::<O>(m, start + ops_atoms::<O>(ops0).len()),
            (ops@, *size) == ops_pushed::<O>(ops0, size0, m.take(k)),
            ops_from::<O>(ops@, start),
            ops_atoms::<O>(ops@).len() == ops_atoms::<O>(ops0).len() + ops_atoms::<O>(m.take(k)).len(),
    {
        proof {
            assert(m[k] == op@);
            assert(op_follows::<O>(m, start + ops_atoms::<O>(ops0).len(), k));
            lemma_rle_push::<O>(ops@, op@, start);
            lemma_ops_from_valid::<O>(ops@, start);
            lemma_ops_atoms_take::<O>(m, k);
            assert(m.take(k + 1).drop_last() =~= m.take(k));
            k = k + 1;
        }
        let op_size: usize = op.estimate_storage_size();
        if !ops.push(op) {
            *size = size.saturating_add(op_size);
        }
    }
    assert(m.take(k) =~= m);
}

/// What the operations of a vector hold.
pub open spec fn ops_view<O: Operation>(v: Seq<O>) -> Seq<O::V> {
    v.map_values(|op: O| op@)
}

/// The last change of a history, and its last operation, are valid.
proof fn lemma_block_last<O: StorageFormat>(s: Seq<ChangeView<O::V>>)
    requires
        changes_valid::<O>(s),
    ensures
        change_valid::<O>(s.last()),
        op_valid::<O>(s.last().ops.last()),
        ops_valid::<O>(s.last().ops),
{
    assert(change_follows::<O>(s, s.len() - 1));
    lemma_ops_from_valid::<O>(s.last().ops, s.last().id.counter as int);
}

/// Adding operations that follow the others keeps the atoms, and leaves operations
/// that follow one another.
pub proof fn lemma_ops_pushed<O: StorageFormat>(ops: Seq<O::V>, size: usize, more: Seq<O::V>, start: int)
    requires
        ops_from::<O>(ops, start),
        ops_from::<O>(more, start + ops_atoms::<O>(ops).len()),
    ensures
        ops_from::<O>(ops_pushed::<O>(ops, size, more).0, start),
        ops_atoms::<O>(ops_pushed::<O>(ops, size, more).0) == ops_atoms::<O>(ops) + ops_atoms::<O>(more),
        ops.len() + more.len() > 0 ==> ops_pushed::<O>(ops, size, more).0.len() > 0,
    decreases more.len(),
{
    let base = start + ops_atoms::<O>(ops).len();
    if more.len() == 0 {
        assert(ops_atoms::<O>(ops) + ops_atoms::<O>(more) =~= ops_atoms::<O>(ops));
    } else {
        let init = more.drop_last();
        assert forall|i: int| 0 <= i < init.len() implies #[trigger] op_follows::<O>(init, base, i) by {
            assert(op_follows::<O>(more, base, i));
            assert(init.take(i) =~= more.take(i));
        }
        lemma_ops_pushed::<O>(ops, size, init, start);
        let (p, n) = ops_pushed::<O>(ops, size, init);
        let last = more.len() - 1;
        assert(op_follows::<O>(more, base, last));
        assert(more.take(last) =~= init);
        lemma_rle_push::<O>(p, more.last(), start);
        assert(ops_atoms::<O>(ops) + ops_atoms::<O>(init) + O::atoms(more.last()) =~= ops_atoms::<O>(ops) + (
        ops_atoms::<O>(init) + O::atoms(more.last())));
    }
}

/// The changes are valid, and each of them starts at the counter where the one before it ends.
pub open spec fn changes_tile<O: Operation>(s: Seq<ChangeView<O::V>>) -> bool {
    &&& s.len() > 0
    &&& forall|i: int|
        0 <= i < s.len() ==> change_valid::<O>(#[trigger] s[i]) && (i > 0 ==> change_end::<O>(s[i - 1])
            == s[i].id.counter)
}

/// A block that took a change, of whatever peer, keeps its peer and the starts of its ranges.
/// The ranges end where those of the change do, and the changes make up the counters without
/// holes. Where a change that is merged goes on from the Lamport clocks of the block, the block
/// names the end of those of its changes, if it did before.
pub proof fn lemma_push_ranges<O: StorageFormat>(
    b: BlockView<O::V>,
    c: ChangeView<O::V>,
    size: usize,
    merge_interval: i64,
)
    requires
        block_valid::<O>(b),
        change_valid::<O>(c),
        joins_last::<O>(b, c, size, merge_interval) ==> changes_lamport_end::<O>(block_changes::<O>(b))
            + change_len::<O>(c) <= u32::MAX,
        block_takes::<O>(b, c, size, merge_interval),
    ensures
        ({
            let p = block_pushed::<O>(b, c, size, merge_interval);
            let t = block_changes::<O>(p);
            &&& p.peer == b.peer
            &&& p.counter_range.0 == b.counter_range.0
            &&& p.counter_range.1 == c.id.counter + change_len::<O>(c)
            &&& p.lamport_range.0 == b.lamport_range.0
            &&& p.lamport_range.1 == c.lamport + change_len::<O>(c)
            &&& changes_tile::<O>(t)
            &&& t[0].id == block_changes::<O>(b)[0].id
            &&& t[0].id.counter == p.counter_range.0
            &&& t[0].lamport == p.lamport_range.0
            &&& changes_end::<O>(t) == p.counter_range.1
            &&& b.lamport_range.1 == changes_lamport_end::<O>(block_changes::<O>(b)) && (joins_last::<O>(
                b,
                c,
                size,
                merge_interval,
            ) ==> c.lamport == b.lamport_range.1) ==> p.lamport_range.1 == changes_lamport_end::<O>(t)
        }),
{
    let s = block_changes::<O>(b);
    let t = block_changes::<O>(block_pushed::<O>(b, c, size, merge_interval));
    let n = s.len() - 1;
    assert(change_follows::<O>(s, n));
    if joins_last::<O>(b, c, size, merge_interval) {
        let last = s.last();
        lemma_ops_pushed::<O>(last.ops, b.estimated_size, c.ops, last.id.counter as int);
        assert(change_atoms::<O>(t[n]) == change_atoms::<O>(last) + change_atoms::<O>(c));
    }
    assert forall|i: int| 0 <= i < t.len() implies change_valid::<O>(#[trigger] t[i]) && (i > 0 ==> change_end::<O>(
        t[i - 1],
    ) == t[i].id.counter) by {
        if i <= n {
            assert(change_follows::<O>(s, i));
        }
        if 0 < i <= n + 1 {
            assert(change_follows::<O>(s, i - 1));
        }
    }
}

/// A block that took a change is valid, starts where it started, and holds its
/// atoms and then those of the change. Where the Lamport clocks of the change come
/// after those of the block, they grow in it as they did before.
pub proof fn lemma_block_pushed<O: StorageFormat>(
    b: BlockView<O::V>,
    c: ChangeView<O::V>,
    size: usize,
    merge_interval: i64,
)
    requires
        block_valid::<O>(b),
        change_valid::<O>(c),
        c.id.peer == b.peer,
        joins_last::<O>(b, c, size, merge_interval) ==> changes_lamport_end::<O>(block_changes::<O>(b))
            + change_len::<O>(c) <= u32::MAX,
        block_takes::<O>(b, c, size, merge_interval),
    ensures
        block_valid::<O>(block_pushed::<O>(b, c, size, merge_interval)),
        changes_atoms::<O>(block_changes::<O>(block_pushed::<O>(b, c, size, merge_interval)))
            == changes_atoms::<O>(block_changes::<O>(b)) + change_atoms::<O>(c),
        block_changes::<O>(block_pushed::<O>(b, c, size, merge_interval))[0].id == block_changes::<O>(b)[0].id,
        lamports_ordered::<O>(block_changes::<O>(b)) && changes_lamport_end::<O>(block_changes::<O>(b)) <= c.lamport
            ==> lamports_ordered::<O>(block_changes::<O>(block_pushed::<O>(b, c, size, merge_interval))),
        changes_lamport_end::<O>(block_changes::<O>(block_pushed::<O>(b, c, size, merge_interval))) == (if joins_last::<
            O,
        >(b, c, size, merge_interval) {
            changes_lamport_end::<O>(block_changes::<O>(b)) + change_len::<O>(c)
        } else {
            change_lamport_end::<O>(c)
        }),
{
    let s = block_changes::<O>(b);
    let p = block_pushed::<O>(b, c, size, merge_interval);
    let t = block_changes::<O>(p);
    let n = s.len() - 1;
    assert(change_follows::<O>(s, n));
    if joins_last::<O>(b, c, size, merge_interval) {
        let last = s.last();
        lemma_ops_pushed::<O>(last.ops, b.estimated_size, c.ops, last.id.counter as int);
        let m = t[n];
        assert(change_atoms::<O>(m) == change_atoms::<O>(last) + change_atoms::<O>(c));
        assert forall|i: int| 0 <= i < t.len() implies #[trigger] change_follows::<O>(t, i) by {
            assert(change_follows::<O>(s, i));
        }
        assert(t.drop_last() =~= s.drop_last());
        assert(changes_atoms::<O>(t) =~= changes_atoms::<O>(s) + change_atoms::<O>(c));
    } else {
        assert forall|i: int| 0 <= i < t.len() implies #[trigger] change_follows::<O>(t, i) by {
            if i <= n {
                assert(change_follows::<O>(s, i));
            }
        }
        assert(t.drop_last() =~= s);
        assert(changes_atoms::<O>(t) =~= changes_atoms::<O>(s) + change_atoms::<O>(c));
        if lamports_ordered::<O>(s) && changes_lamport_end::<O>(s) <= c.lamport {
            assert forall|i: int, j: int| 0 <= i < j < t.len() implies change_lamport_end::<O>(#[trigger] t[i])
                <= (#[trigger] t[j]).lamport by {
                if j > n {
                    if i < n {
                        assert(change_lamport_end::<O>(s[i]) <= s[n].lamport);
                    }
                } else {
                    assert(change_lamport_end::<O>(s[i]) <= s[j].lamport);
                }
            }
        }
    }
}

/// The block of a single change is valid.
pub proof fn lemma_single_block<O: StorageFormat>(c: ChangeView<O::V>)
    requires
        change_valid::<O>(c),
    ensures
        block_valid::<O>(single_block::<O>(c)),
        changes_atoms::<O>(block_changes::<O>(single_block::<O>(c))) == change_atoms::<O>(c),
{
    let s = seq![c];
    assert(change_follows::<O>(s, 0));
    assert(s.drop_last() =~= seq![]);
    assert(changes_atoms::<O>(s.drop_last()) =~= seq![]);
    assert(changes_atoms::<O>(s) =~= change_atoms::<O>(c));
}

} // verus!
