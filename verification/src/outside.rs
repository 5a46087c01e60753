//! What the library takes on trust of other crates and of the standard library.
use crate::format::ChangesBlockHeader;
use crate::ids::ID;
use bytes::Bytes;
use once_cell::sync::OnceCell;
use smallvec::SmallVec;
use std::sync::Arc;
use vstd::prelude::*;

verus! {

/// `bytes::Bytes`: a shared, immutable run of bytes.
#[verifier::external_type_specification]
#[verifier::external_body]
pub struct ExBytes(bytes::Bytes);

/// The bytes that a `bytes::Bytes` holds.
pub uninterp spec fn bytes_contents(b: Bytes) -> Seq<u8>;

/// `<Bytes as From<Vec<u8>>>::from`: the result holds the bytes of the vector.
#[verifier::external_body]
pub(crate) fn bytes_from_vec(v: Vec<u8>) -> (b: Bytes)
    ensures
        bytes_contents(b) == v@,
{
    Bytes::from(v)
}

/// `Bytes::copy_from_slice`: the result holds the bytes of the slice.
#[verifier::external_body]
pub(crate) fn bytes_copy_from_slice(s: &[u8]) -> (b: Bytes)
    ensures
        bytes_contents(b) == s@,
{
    Bytes::copy_from_slice(s)
}

/// `Bytes::len`: the number of bytes held.
#[verifier::external_body]
pub(crate) fn bytes_len(b: &Bytes) -> (n: usize)
    ensures
        n == bytes_contents(*b).len(),
{
    b.len()
}

/// `<Bytes as AsRef<[u8]>>::as_ref`: the bytes held, as a slice.
#[verifier::external_body]
pub(crate) fn bytes_as_slice(b: &Bytes) -> (s: &[u8])
    ensures
        s@ == bytes_contents(*b),
{
    b.as_ref()
}

/// `<Bytes as Clone>::clone`: another handle on the same bytes.
#[verifier::external_body]
pub(crate) fn bytes_clone(b: &Bytes) -> (r: Bytes)
    ensures
        bytes_contents(r) == bytes_contents(*b),
{
    b.clone()
}

/// `once_cell::sync::OnceCell`: a cell that is written at most once.
#[verifier::external_type_specification]
#[verifier::external_body]
#[verifier::reject_recursive_types(T)]
pub struct ExOnceCell<T>(once_cell::sync::OnceCell<T>);

/// The header that a cell holds, if it was written. Such cells are only ever written
/// through an exclusive reference here, so what a cell holds is part of its value.
pub uninterp spec fn cell_contents(c: OnceCell<Arc<ChangesBlockHeader>>) -> Option<Arc<ChangesBlockHeader>>;

/// `OnceCell::new`: a cell that was not written.
#[verifier::external_body]
pub(crate) fn cell_new() -> (c: OnceCell<Arc<ChangesBlockHeader>>)
    ensures
        cell_contents(c) is None,
{
    OnceCell::new()
}

/// `OnceCell::get`: what the cell holds.
#[verifier::external_body]
pub(crate) fn cell_get(c: &OnceCell<Arc<ChangesBlockHeader>>) -> (r: Option<&Arc<ChangesBlockHeader>>)
    ensures
        match r {
            Some(h) => cell_contents(*c) == Some(*h),
            None => cell_contents(*c) is None,
        },
{
    c.get()
}

/// `OnceCell::get_or_init`: writes `h` to the cell, unless it was written before.
#[verifier::external_body]
pub(crate) fn cell_get_or_init(c: &mut OnceCell<Arc<ChangesBlockHeader>>, h: Arc<ChangesBlockHeader>)
    ensures
        cell_contents(*final(c)) == (if cell_contents(*old(c)) is Some {
            cell_contents(*old(c))
        } else {
            Some(h)
        }),
{
    c.get_or_init(|| h);
}

/// `<OnceCell as Clone>::clone`: a cell that holds a clone of what the given one
/// holds. The clone of an `Arc` refers to the same header.
#[verifier::external_body]
pub(crate) fn cell_clone(c: &OnceCell<Arc<ChangesBlockHeader>>) -> (r: OnceCell<Arc<ChangesBlockHeader>>)
    ensures
        cell_contents(r) == cell_contents(*c),
{
    c.clone()
}

/// `Arc::make_mut`: a reference through which what the `Arc` refers to can be
/// changed. It is the value itself where the `Arc` is the only one that refers to
/// it, and a clone of it, which the `Arc` refers to from then on, where it is not.
#[verifier::external_body]
pub(crate) fn arc_make_mut<T: Clone>(a: &mut Arc<T>) -> (r: &mut T)
    ensures
        *r == **old(a) || cloned(**old(a), *r),
        **final(a) == *final(r),
{
    Arc::make_mut(a)
}

/// `fxhash::FxHasher`: the hasher of `fxhash::FxHashMap`.
#[verifier::external_type_specification]
#[verifier::external_body]
pub struct ExFxHasher(fxhash::FxHasher);

/// `std::hash::BuildHasherDefault`: what makes the hashers of `fxhash::FxHashMap`.
#[verifier::external_type_specification]
#[verifier::external_body]
#[verifier::reject_recursive_types(H)]
pub struct ExBuildHasherDefault<H>(std::hash::BuildHasherDefault<H>);

/// A `smallvec::SmallVec` of operations: a vector that holds up to two of them in place.
#[verifier::external_body]
pub struct SmallDeps {
    ids: SmallVec<[ID; 2]>,
}

} // verus!
