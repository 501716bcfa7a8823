//! Error debouncing: each error weighs `RATIO` successes, and the errors are
//! considered persistent once their weight reaches `LIMIT * RATIO`.

use vstd::prelude::*;

verus! {

/// The count after one error: `count + ratio`, saturated at 255.
pub open spec fn count_after_error(count: nat, ratio: nat) -> nat {
    if count + ratio > 255 {
        255
    } else {
        count + ratio
    }
}

/// The count after `k` errors in a row starting from `count`.
pub open spec fn count_after_errors(count: nat, ratio: nat, k: nat) -> nat
    decreases k,
{
    if k == 0 {
        count
    } else {
        count_after_error(count_after_errors(count, ratio, (k - 1) as nat), ratio)
    }
}

pub struct ErrorDeb<const RATIO: u8, const LIMIT: u8> {
    count: u8,
}

impl<const RATIO: u8, const LIMIT: u8> ErrorDeb<RATIO, LIMIT> {
    /// The weighted error count.
    pub closed spec fn count(&self) -> u8 {
        self.count
    }

    /// Whether errors are not persistent at `count`.
    pub open spec fn ok_at(count: nat) -> bool {
        count < LIMIT * RATIO
    }

    /// A debouncer that has seen no errors.
    pub fn new() -> (r: Self)
        ensures
            r.count() == 0,
    {
        Self { count: 0 }
    }

    /// Whether the errors seen are not persistent.
    pub fn is_ok(&self) -> (r: bool)
        requires
            LIMIT * RATIO <= u8::MAX,
        ensures
            r == Self::ok_at(self.count() as nat),
    {
        self.count < LIMIT * RATIO
    }

    /// Records an error; returns whether the errors are now persistent.
    pub fn error(&mut self) -> (r: bool)
        requires
            LIMIT * RATIO <= u8::MAX,
        ensures
            final(self).count() == count_after_error(old(self).count() as nat, RATIO as nat),
            r == !Self::ok_at(final(self).count() as nat),
    {
        self.count = self.count.saturating_add(RATIO);
        !self.is_ok()
    }

    /// Records a success; returns whether the errors are not persistent.
    pub fn ok(&mut self) -> (r: bool)
        requires
            LIMIT * RATIO <= u8::MAX,
        ensures
            final(self).count() == if old(self).count() == 0 {
                0
            } else {
                old(self).count() - 1
            },
            r == Self::ok_at(final(self).count() as nat),
    {
        self.count = self.count.saturating_sub(1);
        self.is_ok()
    }

    /// From no errors, `k` errors in a row make the errors persistent
    /// exactly when `k` reaches `LIMIT`.
    pub proof fn lemma_persistent_after_limit_errors(k: nat)
        requires
            0 < RATIO,
            LIMIT * RATIO <= u8::MAX,
        ensures
            count_after_errors(0, RATIO as nat, k) == if k * RATIO > 255 {
                255
            } else {
                k * RATIO
            },
            Self::ok_at(count_after_errors(0, RATIO as nat, k)) <==> k < LIMIT,
        decreases k,
    {
        if k > 0 {
            Self::lemma_persistent_after_limit_errors((k - 1) as nat);
            assert((k - 1) * RATIO + RATIO == k * RATIO) by (nonlinear_arith);
        }
        if k < LIMIT {
            assert(k * RATIO < LIMIT * RATIO) by (nonlinear_arith)
                requires k < LIMIT, 0 < RATIO;
        } else {
            assert(k * RATIO >= LIMIT * RATIO) by (nonlinear_arith)
                requires k >= LIMIT, 0 < RATIO;
        }
    }
}

} // verus!
