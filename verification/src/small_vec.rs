//! The small vectors of the `tinyvec` crate, as far as the stages use them.

use tinyvec::{ArrayVec, TinyVec};
use vstd::prelude::*;

verus! {

#[verifier::external_type_specification]
#[verifier::external_body]
#[verifier::reject_recursive_types(A)]
pub struct ExArrayVec<A>(ArrayVec<A>);

/// A `TinyVec` of characters with four inline slots.
#[verifier::external_body]
pub struct TinyChars {
    inner: TinyVec<[char; 4]>,
}

/// The characters that a `TinyVec` holds, first pushed first.
pub uninterp spec fn tiny_chars(v: TinyChars) -> Seq<char>;

/// The characters that an `ArrayVec` of capacity 3 holds, first pushed first.
pub uninterp spec fn array_chars(v: ArrayVec<[char; 3]>) -> Seq<char>;

/// The entries that an `ArrayVec` of capacity 3 holds, first pushed first.
pub uninterp spec fn array_entries(v: ArrayVec<[Option<char>; 3]>) -> Seq<Option<char>>;

/// Calls `TinyVec::new`, which makes an empty vector.
#[verifier::external_body]
pub(crate) fn tiny_new() -> (v: TinyChars)
    ensures
        tiny_chars(v) == Seq::<char>::empty(),
{
    TinyChars { inner: TinyVec::new() }
}

/// Calls `TinyVec::push`, which places the value at the end of the vector,
/// moving the contents to the heap once the inline array is full.
#[verifier::external_body]
pub(crate) fn tiny_push(v: &mut TinyChars, c: char)
    ensures
        tiny_chars(*final(v)) == tiny_chars(*old(v)).push(c),
{
    v.inner.push(c)
}

/// Calls `TinyVec::clear`, which truncates the vector to length 0.
#[verifier::external_body]
pub(crate) fn tiny_clear(v: &mut TinyChars)
    ensures
        tiny_chars(*final(v)) == Seq::<char>::empty(),
{
    v.inner.clear()
}

/// Calls `TinyVec::as_slice`, which gives the contents as one shared slice.
#[verifier::external_body]
pub(crate) fn tiny_as_slice(v: &TinyChars) -> (s: &[char])
    ensures
        s@ == tiny_chars(*v),
{
    v.inner.as_slice()
}

/// Calls `ArrayVec::new`, which makes an empty vector.
#[verifier::external_body]
pub(crate) fn array_chars_new() -> (v: ArrayVec<[char; 3]>)
    ensures
        array_chars(v) == Seq::<char>::empty(),
{
    ArrayVec::new()
}

/// Calls `ArrayVec::push`, which places the value at the end of the vector
/// and panics where that would exceed the capacity of the array.
#[verifier::external_body]
pub(crate) fn array_chars_push(v: &mut ArrayVec<[char; 3]>, c: char)
    requires
        array_chars(*old(v)).len() < 3,
    ensures
        array_chars(*final(v)) == array_chars(*old(v)).push(c),
{
    v.push(c)
}

/// Calls `ArrayVec::pop`, which removes and returns the last element, or
/// returns `None` where the vector is empty.
#[verifier::external_body]
pub(crate) fn array_chars_pop(v: &mut ArrayVec<[char; 3]>) -> (c: Option<char>)
    ensures
        array_chars(*old(v)).len() == 0 ==> c is None && array_chars(*final(v)) == array_chars(
            *old(v),
        ),
        array_chars(*old(v)).len() > 0 ==> c == Some(array_chars(*old(v)).last()) && array_chars(
            *final(v),
        ) == array_chars(*old(v)).drop_last(),
{
    v.pop()
}

/// Calls `ArrayVec::new`, which makes an empty vector.
#[verifier::external_body]
pub(crate) fn array_entries_new() -> (v: ArrayVec<[Option<char>; 3]>)
    ensures
        array_entries(v) == Seq::<Option<char>>::empty(),
{
    ArrayVec::new()
}

/// Calls `ArrayVec::push`, which places the value at the end of the vector
/// and panics where that would exceed the capacity of the array.
#[verifier::external_body]
pub(crate) fn array_entries_push(v: &mut ArrayVec<[Option<char>; 3]>, c: Option<char>)
    requires
        array_entries(*old(v)).len() < 3,
    ensures
        array_entries(*final(v)) == array_entries(*old(v)).push(c),
{
    v.push(c)
}

/// Calls `ArrayVec::pop`, which removes and returns the last element, or
/// returns `None` where the vector is empty.
#[verifier::external_body]
pub(crate) fn array_entries_pop(v: &mut ArrayVec<[Option<char>; 3]>) -> (c: Option<Option<char>>)
    ensures
        array_entries(*old(v)).len() == 0 ==> c is None && array_entries(*final(v))
            == array_entries(*old(v)),
        array_entries(*old(v)).len() > 0 ==> c == Some(array_entries(*old(v)).last())
            && array_entries(*final(v)) == array_entries(*old(v)).drop_last(),
{
    v.pop()
}

} // verus!
