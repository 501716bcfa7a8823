//! The measurement buffers of the state machine: fixed-capacity
//! `heapless::Deque`s of `MEAS_LEN` relative humidity values.

use vstd::prelude::*;
use crate::statemachine::MEAS_LEN;

verus! {

#[verifier::external_type_specification]
#[verifier::external_body]
#[verifier::reject_recursive_types(T)]
pub struct ExHeaplessDeque<T, const N: usize>(heapless::Deque<T, N>);

/// The values that a measurement buffer holds, oldest first.
pub uninterp spec fn buffered_values(d: heapless::Deque<u32, MEAS_LEN>) -> Seq<u32>;

/// `heapless::Deque::new`: an empty buffer.
#[verifier::external_body]
pub(crate) fn meas_new() -> (d: heapless::Deque<u32, MEAS_LEN>)
    ensures
        buffered_values(d) == Seq::<u32>::empty(),
{
    heapless::Deque::new()
}

/// `heapless::Deque::len`: the number of values held, which never exceeds
/// the capacity of `MEAS_LEN`.
#[verifier::external_body]
pub(crate) fn meas_len(d: &heapless::Deque<u32, MEAS_LEN>) -> (n: usize)
    ensures
        n == buffered_values(*d).len(),
        n <= MEAS_LEN,
{
    d.len()
}

/// `heapless::Deque::pop_front`: removes and returns the oldest value.
#[verifier::external_body]
pub(crate) fn meas_pop_front(d: &mut heapless::Deque<u32, MEAS_LEN>) -> (r: Option<u32>)
    ensures
        buffered_values(*old(d)).len() == 0 ==> r is None && buffered_values(*final(d)) == buffered_values(*old(d)),
        buffered_values(*old(d)).len() > 0 ==> r == Some(buffered_values(*old(d))[0])
            && buffered_values(*final(d)) == buffered_values(*old(d)).drop_first(),
{
    d.pop_front()
}

/// `heapless::Deque::push_back`: appends `v` unless the buffer is full, in
/// which case it changes nothing and gives `v` back.
#[verifier::external_body]
pub(crate) fn meas_push_back(d: &mut heapless::Deque<u32, MEAS_LEN>, v: u32) -> (r: Result<(), u32>)
    ensures
        buffered_values(*old(d)).len() < MEAS_LEN ==> r is Ok && buffered_values(*final(d)) == buffered_values(*old(d)).push(v),
        buffered_values(*old(d)).len() >= MEAS_LEN ==> r is Err && r->Err_0 == v && buffered_values(*final(d)) == buffered_values(*old(d)),
{
    d.push_back(v)
}

/// `heapless::Deque::front`: the oldest value, if any.
#[verifier::external_body]
pub(crate) fn meas_front(d: &heapless::Deque<u32, MEAS_LEN>) -> (r: Option<u32>)
    ensures
        buffered_values(*d).len() == 0 ==> r is None,
        buffered_values(*d).len() > 0 ==> r == Some(buffered_values(*d)[0]),
{
    d.front().copied()
}

/// `heapless::Deque::back`: the newest value, if any.
#[verifier::external_body]
pub(crate) fn meas_back(d: &heapless::Deque<u32, MEAS_LEN>) -> (r: Option<u32>)
    ensures
        buffered_values(*d).len() == 0 ==> r is None,
        buffered_values(*d).len() > 0 ==> r == Some(buffered_values(*d).last()),
{
    d.back().copied()
}

} // verus!
