//! The per-line word buffer: a fixed-capacity vector from the `arrayvec`
//! crate, holding at most ten words without any allocation.
//!
//! Each word is stored as a plain `(letter, value)` pair.  The buffer is
//! opaque to the verifier, so its contents are named by [`word_buf`] and
//! every operation the assembler uses is a trusted wrapper whose contract
//! states what the `arrayvec` source does to those contents.

use vstd::prelude::*;
use arrayvec::ArrayVec;

verus! {

#[verifier::external_type_specification]
#[verifier::external_body]
#[verifier::reject_recursive_types(T)]
pub struct ExArrayVec<T, const CAP: usize>(ArrayVec<T, CAP>);

/// The words held by a line buffer, in insertion order.
pub uninterp spec fn word_buf(v: ArrayVec<(u8, i64), 10>) -> Seq<(u8, i64)>;

/// Relies on arrayvec::ArrayVec::new: a fresh vector holds nothing.
#[verifier::external_body]
pub fn wb_new() -> (r: ArrayVec<(u8, i64), 10>)
    ensures
        word_buf(r) == Seq::<(u8, i64)>::empty(),
{
    ArrayVec::new()
}

/// Relies on arrayvec::ArrayVec::len: how many words are held.
#[verifier::external_body]
pub fn wb_len(v: &ArrayVec<(u8, i64), 10>) -> (r: usize)
    ensures
        r == word_buf(*v).len(),
{
    v.len()
}

/// Relies on arrayvec::ArrayVec::push: appends below the capacity of ten;
/// the capacity check cannot fail because the caller stays under it.
#[verifier::external_body]
pub fn wb_push(v: &mut ArrayVec<(u8, i64), 10>, w: (u8, i64))
    requires
        word_buf(*old(v)).len() < 10,
    ensures
        word_buf(*final(v)) == word_buf(*old(v)).push(w),
{
    v.push(w)
}

/// Relies on arrayvec::ArrayVec::as_slice: the held words in order.
#[verifier::external_body]
pub fn wb_get(v: &ArrayVec<(u8, i64), 10>, i: usize) -> (r: (u8, i64))
    requires
        i < word_buf(*v).len(),
    ensures
        r == word_buf(*v)[i as int],
{
    v.as_slice()[i]
}

/// Relies on arrayvec::ArrayVec::clear: removes every word.
#[verifier::external_body]
pub fn wb_clear(v: &mut ArrayVec<(u8, i64), 10>)
    ensures
        word_buf(*final(v)) == Seq::<(u8, i64)>::empty(),
{
    v.clear()
}

} // verus!
