//! The bytes of the block that is being assembled for writing, held in a
//! fixed-capacity `heapless::Vec` of one block.

use vstd::prelude::*;

verus! {

#[verifier::external_type_specification]
#[verifier::external_body]
#[verifier::reject_recursive_types(T)]
pub struct ExHeaplessVec<T, const N: usize>(heapless::Vec<T, N>);

/// The bytes that a one-block `heapless::Vec` holds, in order.
pub uninterp spec fn buffered(v: heapless::Vec<u8, 512>) -> Seq<u8>;

/// `heapless::Vec::new`: an empty vector.
#[verifier::external_body]
pub(crate) fn wrbuf_new() -> (v: heapless::Vec<u8, 512>)
    ensures
        buffered(v) == Seq::<u8>::empty(),
{
    heapless::Vec::new()
}

/// `heapless::Vec::len`: the number of bytes held, which never exceeds the
/// capacity of 512.
#[verifier::external_body]
pub(crate) fn wrbuf_len(v: &heapless::Vec<u8, 512>) -> (n: usize)
    ensures
        n == buffered(*v).len(),
        n <= 512,
{
    v.len()
}

/// `heapless::Vec::as_slice`: the bytes held.
#[verifier::external_body]
pub(crate) fn wrbuf_as_slice(v: &heapless::Vec<u8, 512>) -> (s: &[u8])
    ensures
        s@ == buffered(*v),
{
    v.as_slice()
}

/// `heapless::Vec::extend_from_slice`: appends all of `other` when it fits
/// in the capacity of 512, and else changes nothing and fails.
#[verifier::external_body]
pub(crate) fn wrbuf_extend_from_slice(v: &mut heapless::Vec<u8, 512>, other: &[u8]) -> (r: Result<(), ()>)
    ensures
        buffered(*old(v)).len() + other@.len() <= 512 ==> r is Ok && buffered(*final(v))
            == buffered(*old(v)) + other@,
        buffered(*old(v)).len() + other@.len() > 512 ==> r is Err && buffered(*final(v))
            == buffered(*old(v)),
{
    v.extend_from_slice(other)
}

/// `heapless::Vec::clear`: removes every byte.
#[verifier::external_body]
pub(crate) fn wrbuf_clear(v: &mut heapless::Vec<u8, 512>)
    ensures
        buffered(*final(v)) == Seq::<u8>::empty(),
{
    v.clear()
}

} // verus!
